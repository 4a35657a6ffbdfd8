//! Snippets merged by name across directories in priority order.

use vstd::prelude::*;

use crate::names::{compare_names, lemma_name_lt_irreflexive, lemma_name_lt_total, lemma_name_lt_transitive, name_lt};
use crate::primary::Probe;

verus! {

/// One entry of a directory listing, with what probing it found.
pub struct Entry<H> {
    pub name: String,
    pub probe: Probe<H>,
}

/// A selected snippet: its name and its source.
pub struct Snippet<H> {
    pub name: String,
    pub source: H,
}

/// Snippets keyed by name, held in name order, each name at most once.
pub struct SnippetMap<H> {
    entries: Vec<Snippet<H>>,
}

/// Every name sorts strictly before the names after it.
pub open spec fn names_sorted<H>(s: Seq<(Seq<char>, H)>) -> bool {
    forall|i: int, j: int| 0 <= i < j < s.len() ==> name_lt(#[trigger] s[i].0, #[trigger] s[j].0)
}

/// The source held under name `k`, if any.
pub open spec fn lookup<H>(s: Seq<(Seq<char>, H)>, k: Seq<char>) -> Option<H> {
    if exists|i: int| 0 <= i < s.len() && #[trigger] s[i].0 == k {
        Some(s[choose|i: int| 0 <= i < s.len() && #[trigger] s[i].0 == k].1)
    } else {
        None
    }
}

/// The outcome of the last entry named `k` that was not unavailable.
pub open spec fn last_decisive<H>(entries: Seq<Entry<H>>, k: Seq<char>) -> Option<Probe<H>>
    decreases entries.len(),
{
    if entries.len() == 0 {
        None
    } else {
        let e = entries.last();
        if e.name@ == k && !(e.probe is Unavailable) {
            Some(e.probe)
        } else {
            last_decisive(entries.drop_last(), k)
        }
    }
}

/// The outcome for name `k` in the highest-priority directory that decides it.
pub open spec fn prevailing<H>(dirs: Seq<Vec<Entry<H>>>, k: Seq<char>) -> Option<Probe<H>>
    decreases dirs.len(),
{
    if dirs.len() == 0 {
        None
    } else {
        match last_decisive(dirs[0]@, k) {
            Some(p) => Some(p),
            None => prevailing(dirs.skip(1), k),
        }
    }
}

/// The source that the merge of `dirs` (highest priority first) keeps under
/// name `k`: none where the prevailing entry is a mask.
pub open spec fn merged<H>(dirs: Seq<Vec<Entry<H>>>, k: Seq<char>) -> Option<H> {
    match prevailing(dirs, k) {
        Some(Probe::Opened(h)) => Some(h),
        _ => None,
    }
}

/// The source under `k` once `entries` are laid over a map that held `below`.
pub open spec fn overlaid<H>(entries: Seq<Entry<H>>, below: Option<H>, k: Seq<char>) -> Option<H> {
    match last_decisive(entries, k) {
        Some(Probe::Opened(h)) => Some(h),
        Some(_) => None,
        None => below,
    }
}

proof fn lemma_lookup_at<H>(s: Seq<(Seq<char>, H)>, i: int)
    requires
        names_sorted(s),
        0 <= i < s.len(),
    ensures
        lookup(s, s[i].0) == Some(s[i].1),
{
    assert(0 <= i < s.len() && s[i].0 == s[i].0);
    let j = choose|j: int| 0 <= j < s.len() && #[trigger] s[j].0 == s[i].0;
    if j < i {
        assert(name_lt(s[j].0, s[i].0));
        lemma_name_lt_irreflexive(s[i].0);
    } else if i < j {
        assert(name_lt(s[i].0, s[j].0));
        lemma_name_lt_irreflexive(s[i].0);
    }
}

proof fn lemma_remove<H>(s: Seq<(Seq<char>, H)>, p: int)
    requires
        names_sorted(s),
        0 <= p < s.len(),
    ensures
        names_sorted(s.remove(p)),
        lookup(s.remove(p), s[p].0) == None::<H>,
        forall|k: Seq<char>| k != s[p].0 ==> lookup(s.remove(p), k) == lookup(s, k),
{
    let t = s.remove(p);
    assert forall|i: int, j: int| 0 <= i < j < t.len() implies name_lt(#[trigger] t[i].0, #[trigger] t[j].0) by {
        let i0 = if i < p { i } else { i + 1 };
        let j0 = if j < p { j } else { j + 1 };
        assert(t[i] == s[i0] && t[j] == s[j0]);
    }
    assert forall|i: int| 0 <= i < t.len() implies #[trigger] t[i].0 != s[p].0 by {
        let i0 = if i < p { i } else { i + 1 };
        assert(t[i] == s[i0]);
        if i0 < p {
            assert(name_lt(s[i0].0, s[p].0));
        } else {
            assert(name_lt(s[p].0, s[i0].0));
        }
        lemma_name_lt_irreflexive(s[p].0);
    }
    assert forall|k: Seq<char>| k != s[p].0 implies lookup(t, k) == lookup(s, k) by {
        if exists|i: int| 0 <= i < s.len() && #[trigger] s[i].0 == k {
            let i = choose|i: int| 0 <= i < s.len() && #[trigger] s[i].0 == k;
            let i1 = if i < p { i } else { i - 1 };
            assert(t[i1] == s[i]);
            lemma_lookup_at(s, i);
            lemma_lookup_at(t, i1);
        } else {
            assert forall|i: int| 0 <= i < t.len() implies #[trigger] t[i].0 != k by {
                let i0 = if i < p { i } else { i + 1 };
                assert(t[i] == s[i0]);
            }
        }
    }
}

proof fn lemma_insert<H>(s: Seq<(Seq<char>, H)>, p: int, k: Seq<char>, v: H)
    requires
        names_sorted(s),
        0 <= p <= s.len(),
        forall|j: int| 0 <= j < p ==> name_lt(#[trigger] s[j].0, k),
        p < s.len() ==> name_lt(k, s[p].0),
    ensures
        names_sorted(s.insert(p, (k, v))),
        lookup(s.insert(p, (k, v)), k) == Some(v),
        forall|k2: Seq<char>| k2 != k ==> lookup(s.insert(p, (k, v)), k2) == lookup(s, k2),
{
    let t = s.insert(p, (k, v));
    assert forall|i: int, j: int| 0 <= i < j < t.len() implies name_lt(#[trigger] t[i].0, #[trigger] t[j].0) by {
        if j > p {
            assert(t[j] == s[j - 1]);
            if i == p {
                if j - 1 > p {
                    lemma_name_lt_transitive(k, s[p].0, s[j - 1].0);
                }
            } else if i < p {
                assert(t[i] == s[i]);
            } else {
                assert(t[i] == s[i - 1]);
            }
        } else if j == p {
            assert(t[i] == s[i]);
        } else {
            assert(t[i] == s[i] && t[j] == s[j]);
        }
    }
    assert(t[p] == (k, v));
    lemma_lookup_at(t, p);
    assert forall|k2: Seq<char>| k2 != k implies lookup(t, k2) == lookup(s, k2) by {
        if exists|i: int| 0 <= i < s.len() && #[trigger] s[i].0 == k2 {
            let i = choose|i: int| 0 <= i < s.len() && #[trigger] s[i].0 == k2;
            let i1 = if i < p { i } else { i + 1 };
            assert(t[i1] == s[i]);
            lemma_lookup_at(s, i);
            lemma_lookup_at(t, i1);
        } else {
            assert forall|i: int| 0 <= i < t.len() implies #[trigger] t[i].0 != k2 by {
                if i < p {
                    assert(t[i] == s[i]);
                } else if i > p {
                    assert(t[i] == s[i - 1]);
                }
            }
        }
    }
}

impl<H> View for SnippetMap<H> {
    type V = Seq<(Seq<char>, H)>;

    closed spec fn view(&self) -> Seq<(Seq<char>, H)> {
        self.entries@.map_values(|s: Snippet<H>| (s.name@, s.source))
    }
}

impl<H> SnippetMap<H> {
    /// An empty map.
    pub fn new() -> (r: Self)
        ensures
            r@ == Seq::<(Seq<char>, H)>::empty(),
    {
        let r = SnippetMap { entries: Vec::new() };
        assert(r@ =~= Seq::<(Seq<char>, H)>::empty());
        r
    }

    /// Number of snippets held.
    pub fn len(&self) -> (r: usize)
        ensures
            r == self@.len(),
    {
        self.entries.len()
    }

    /// Takes one probed entry into account: a mask removes the name, an
    /// opened source is installed under it (replacing what was there), an
    /// unavailable entry changes nothing. Returns the source that left the
    /// map, so that the caller can release it at once.
    pub fn apply(&mut self, name: String, probe: Probe<H>) -> (displaced: Option<H>)
        requires
            names_sorted(old(self)@),
        ensures
            names_sorted(final(self)@),
            forall|k: Seq<char>| k != name@ ==> lookup(final(self)@, k) == lookup(old(self)@, k),
            lookup(final(self)@, name@) == (match probe {
                Probe::Masked => None,
                Probe::Opened(h) => Some(h),
                Probe::Unavailable => lookup(old(self)@, name@),
            }),
            displaced == (match probe {
                Probe::Unavailable => None,
                _ => lookup(old(self)@, name@),
            }),
    {
        let ghost s0 = self@;
        let mut p: usize = 0;
        let mut stop = false;
        let mut found = false;
        while !stop && p < self.entries.len()
            invariant
                self@ == s0,
                names_sorted(s0),
                p <= s0.len(),
                s0.len() == self.entries@.len(),
                forall|j: int| 0 <= j < p ==> name_lt(#[trigger] s0[j].0, name@),
                !stop ==> !found,
                stop && found ==> p < s0.len() && s0[p as int].0 == name@,
                stop && !found ==> p < s0.len() && name_lt(name@, s0[p as int].0),
            decreases s0.len() - p + (if stop { 0int } else { 1int }),
        {
            assert(s0[p as int] == (self.entries@[p as int].name@, self.entries@[p as int].source));
            match compare_names(self.entries[p].name.as_str(), name.as_str()) {
                core::cmp::Ordering::Less => {
                    p = p + 1;
                },
                core::cmp::Ordering::Equal => {
                    stop = true;
                    found = true;
                },
                core::cmp::Ordering::Greater => {
                    stop = true;
                },
            }
        }
        proof {
            if found {
                lemma_lookup_at(s0, p as int);
            } else {
                assert forall|i: int| 0 <= i < s0.len() implies #[trigger] s0[i].0 != name@ by {
                    lemma_name_lt_irreflexive(name@);
                    if i < p {
                        assert(name_lt(s0[i].0, name@));
                    } else {
                        assert(name_lt(name@, s0[p as int].0));
                        if i > p {
                            assert(name_lt(s0[p as int].0, s0[i].0));
                            lemma_name_lt_transitive(name@, s0[p as int].0, s0[i].0);
                        }
                    }
                }
            }
        }
        match probe {
            Probe::Masked => {
                if found {
                    let gone = self.entries.remove(p);
                    proof {
                        assert(self@ =~= s0.remove(p as int));
                        lemma_remove(s0, p as int);
                    }
                    Some(gone.source)
                } else {
                    None
                }
            },
            Probe::Opened(h) => {
                if found {
                    let gone = self.entries.remove(p);
                    let ghost s1 = self@;
                    proof {
                        assert(s1 =~= s0.remove(p as int));
                        lemma_remove(s0, p as int);
                        if p + 1 < s0.len() {
                            assert(name_lt(s0[p as int].0, s0[p + 1].0));
                        }
                        assert(p < s1.len() ==> s1[p as int] == s0[p + 1]);
                    }
                    let ghost k = name@;
                    self.entries.insert(p, Snippet { name, source: h });
                    proof {
                        assert(self@ =~= s1.insert(p as int, (k, h)));
                        lemma_insert(s1, p as int, k, h);
                    }
                    Some(gone.source)
                } else {
                    proof {
                        lemma_name_lt_total(name@, name@);
                    }
                    let ghost k = name@;
                    self.entries.insert(p, Snippet { name, source: h });
                    proof {
                        assert(self@ =~= s0.insert(p as int, (k, h)));
                        lemma_insert(s0, p as int, k, h);
                    }
                    None
                }
            },
            Probe::Unavailable => None,
        }
    }

    /// The snippets in name order.
    pub fn into_entries(self) -> (r: Vec<Snippet<H>>)
        ensures
            r@.map_values(|s: Snippet<H>| (s.name@, s.source)) == self@,
    {
        self.entries
    }
}

/// Merges the listings of snippet directories, given highest priority first,
/// into one map. A name takes the outcome of its highest-priority decisive
/// entry: a source that opened, or a mask that keeps the name out whatever
/// lower-priority directories hold. The directories are visited lowest
/// priority first, each later one overriding or removing what came before;
/// every source that leaves the map is released on the spot.
pub fn locate_snippets<H>(dirs: Vec<Vec<Entry<H>>>) -> (r: SnippetMap<H>)
    ensures
        names_sorted(r@),
        forall|k: Seq<char>| lookup(r@, k) == merged(dirs@, k),
{
    let ghost all = dirs@;
    let mut rest = dirs;
    let mut map = SnippetMap::new();
    assert(all.subrange(all.len() as int, all.len() as int) =~= Seq::<Vec<Entry<H>>>::empty());
    while rest.len() > 0
        invariant
            rest.len() <= all.len(),
            rest@ == all.subrange(0, rest.len() as int),
            names_sorted(map@),
            forall|k: Seq<char>| lookup(map@, k) == merged(all.subrange(rest.len() as int, all.len() as int), k),
        decreases rest.len(),
    {
        let ghost below = all.subrange(rest.len() as int, all.len() as int);
        let mut listing = match rest.pop() {
            Some(l) => l,
            None => Vec::new(),
        };
        let ghost d = rest.len() as int;
        let ghost full = listing@;
        assert(listing == all[d]);
        assert(full.subrange(0, 0) =~= Seq::<Entry<H>>::empty());
        assert(full.subrange(0, full.len() as int) =~= full);
        while listing.len() > 0
            invariant
                listing.len() <= full.len(),
                listing@ == full.subrange(full.len() - listing.len(), full.len() as int),
                names_sorted(map@),
                forall|k: Seq<char>| #[trigger] lookup(map@, k) == overlaid(
                    full.subrange(0, full.len() - listing.len()),
                    merged(below, k),
                    k,
                ),
            decreases listing.len(),
        {
            let ghost c = full.len() - listing.len();
            let ghost m0 = map@;
            let e = listing.remove(0);
            assert(listing@ =~= full.subrange(c + 1, full.len() as int));
            let ghost en = e.name@;
            let ghost ep = e.probe;
            assert(full[c] == e);
            let Entry { name, probe } = e;
            let _released = map.apply(name, probe);
            proof {
                let pre = full.subrange(0, c + 1);
                assert(pre.drop_last() =~= full.subrange(0, c));
                assert(pre.last() == e);
                assert forall|k: Seq<char>| #[trigger] lookup(map@, k) == overlaid(pre, merged(below, k), k) by {
                    assert(lookup(m0, k) == overlaid(full.subrange(0, c), merged(below, k), k));
                }
            }
        }
        proof {
            let here = all.subrange(d, all.len() as int);
            assert(here[0] == all[d]);
            assert(here.skip(1) =~= below);
            assert forall|k: Seq<char>| #[trigger] lookup(map@, k) == merged(here, k) by {
                assert(lookup(map@, k) == overlaid(full, merged(below, k), k));
            }
        }
    }
    assert(all.subrange(0, all.len() as int) =~= all);
    map
}

/// The primary selection as a sequence of zero or one source.
pub open spec fn leading<H>(primary: Option<H>) -> Seq<H> {
    match primary {
        Some(h) => seq![h],
        None => Seq::<H>::empty(),
    }
}

/// The sources to display, in order: the primary selection first, if any,
/// then the snippets in name order.
pub fn output_order<H>(primary: Option<H>, snippets: SnippetMap<H>) -> (r: Vec<H>)
    ensures
        r@ == leading(primary) + snippets@.map_values(|p: (Seq<char>, H)| p.1),
{
    let ghost view = snippets@;
    let ghost lead = leading(primary);
    let mut out: Vec<H> = Vec::new();
    match primary {
        Some(h) => out.push(h),
        None => {},
    }
    assert(out@ =~= lead);
    let mut rest = snippets.into_entries();
    let ghost n = rest.len();
    assert(rest@.map_values(|s: Snippet<H>| (s.name@, s.source)) == view);
    while rest.len() > 0
        invariant
            rest.len() <= n,
            n == view.len(),
            forall|i: int| 0 <= i < rest.len() ==> #[trigger] rest@[i].source == view[n - rest.len() + i].1,
            out@ =~= lead + view.subrange(0, n - rest.len()).map_values(|p: (Seq<char>, H)| p.1),
        decreases rest.len(),
    {
        let ghost c = n - rest.len();
        let ghost r0 = rest@;
        assert(r0[0].source == view[c].1);
        let s = rest.remove(0);
        assert forall|i: int| 0 <= i < rest.len() implies #[trigger] rest@[i].source == view[n - rest.len() + i].1 by {
            assert(rest@[i] == r0[i + 1]);
        }
        out.push(s.source);
        assert(view.subrange(0, c + 1).map_values(|p: (Seq<char>, H)| p.1) =~= view.subrange(0, c).map_values(
            |p: (Seq<char>, H)| p.1,
        ).push(view[c].1));
    }
    assert(view.subrange(0, n as int) =~= view);
    out
}

/// The highest-priority directory that decides a name settles it: an opened
/// source there is what the merge keeps, a mask there keeps the name out,
/// whatever lower-priority directories install under it.
pub proof fn lemma_highest_priority_wins<H>(dirs: Seq<Vec<Entry<H>>>, d: int, k: Seq<char>)
    requires
        0 <= d < dirs.len(),
        last_decisive(dirs[d]@, k) is Some,
        forall|e: int| 0 <= e < d ==> last_decisive(#[trigger] dirs[e]@, k) is None,
    ensures
        prevailing(dirs, k) == last_decisive(dirs[d]@, k),
        last_decisive(dirs[d]@, k) == Some(Probe::<H>::Masked) ==> merged(dirs, k) is None,
        forall|h: H| last_decisive(dirs[d]@, k) == Some(Probe::Opened(h)) ==> merged(dirs, k) == Some(h),
    decreases d,
{
    if d > 0 {
        let tail = dirs.skip(1);
        assert(last_decisive(dirs[0]@, k) is None);
        assert forall|e: int| 0 <= e < d - 1 implies last_decisive(#[trigger] tail[e]@, k) is None by {
            assert(tail[e] == dirs[e + 1]);
        }
        assert(tail[d - 1] == dirs[d]);
        lemma_highest_priority_wins(tail, d - 1, k);
    }
}

/// A name that no directory decides is absent from the merge.
pub proof fn lemma_undecided_absent<H>(dirs: Seq<Vec<Entry<H>>>, k: Seq<char>)
    requires
        forall|e: int| 0 <= e < dirs.len() ==> last_decisive(#[trigger] dirs[e]@, k) is None,
    ensures
        merged(dirs, k) is None,
    decreases dirs.len(),
{
    if dirs.len() > 0 {
        let tail = dirs.skip(1);
        assert(last_decisive(dirs[0]@, k) is None);
        assert forall|e: int| 0 <= e < tail.len() implies last_decisive(#[trigger] tail[e]@, k) is None by {
            assert(tail[e] == dirs[e + 1]);
        }
        lemma_undecided_absent(tail, k);
    }
}

/// A map held in name order is fixed by what it holds under each name: two
/// such maps with the same source under every name are the same sequence.
/// So the output order depends on the names alone, never on the order in
/// which directories or their entries were met.
pub proof fn lemma_order_by_names<H>(s1: Seq<(Seq<char>, H)>, s2: Seq<(Seq<char>, H)>)
    requires
        names_sorted(s1),
        names_sorted(s2),
        forall|k: Seq<char>| lookup(s1, k) == lookup(s2, k),
    ensures
        s1 == s2,
    decreases s1.len(),
{
    if s1.len() == 0 || s2.len() == 0 {
        if s2.len() > 0 {
            lemma_lookup_at(s2, 0);
            assert(lookup(s1, s2[0].0) is None);
        } else if s1.len() > 0 {
            lemma_lookup_at(s1, 0);
            assert(lookup(s2, s1[0].0) is None);
        }
        assert(s1 =~= s2);
    } else {
        let k1 = s1[0].0;
        let k2 = s2[0].0;
        lemma_lookup_at(s1, 0);
        lemma_lookup_at(s2, 0);
        if k1 != k2 {
            assert(lookup(s2, k1) is Some);
            assert(lookup(s1, k2) is Some);
            let j = choose|j: int| 0 <= j < s2.len() && #[trigger] s2[j].0 == k1;
            let i = choose|i: int| 0 <= i < s1.len() && #[trigger] s1[i].0 == k2;
            assert(name_lt(s2[0].0, s2[j].0));
            assert(name_lt(s1[0].0, s1[i].0));
            lemma_name_lt_total(k1, k2);
        }
        assert(s1[0] == s2[0]);
        let t1 = s1.skip(1);
        let t2 = s2.skip(1);
        assert(t1 =~= s1.remove(0));
        assert(t2 =~= s2.remove(0));
        lemma_remove(s1, 0);
        lemma_remove(s2, 0);
        assert forall|k: Seq<char>| lookup(t1, k) == lookup(t2, k) by {
            if k != k1 {
                assert(lookup(t1, k) == lookup(s1, k));
                assert(lookup(t2, k) == lookup(s2, k));
            }
        }
        lemma_order_by_names(t1, t2);
        assert forall|i: int| 0 <= i < s1.len() implies s1[i] == s2[i] by {
            if i > 0 {
                assert(s1[i] == t1[i - 1]);
                assert(s2[i] == t2[i - 1]);
            }
        }
        assert(s1 =~= s2);
    }
}

/// Within one directory, an entry named `k` that is not unavailable decides
/// `k` when no later entry of the listing does.
pub proof fn lemma_entry_decides<H>(entries: Seq<Entry<H>>, i: int, k: Seq<char>)
    requires
        0 <= i < entries.len(),
        entries[i].name@ == k,
        !(entries[i].probe is Unavailable),
        forall|j: int| i < j < entries.len() ==> (#[trigger] entries[j]).name@ != k || entries[j].probe is Unavailable,
    ensures
        last_decisive(entries, k) == Some(entries[i].probe),
    decreases entries.len(),
{
    if i < entries.len() - 1 {
        let front = entries.drop_last();
        assert(entries.last() == entries[entries.len() - 1]);
        assert forall|j: int| i < j < front.len() implies (#[trigger] front[j]).name@ != k || front[j].probe is Unavailable by {
            assert(front[j] == entries[j]);
        }
        lemma_entry_decides(front, i, k);
    }
}

/// A directory where every entry named `k` is unavailable leaves `k` undecided.
pub proof fn lemma_no_entry_undecided<H>(entries: Seq<Entry<H>>, k: Seq<char>)
    requires
        forall|j: int| 0 <= j < entries.len() ==> (#[trigger] entries[j]).name@ != k || entries[j].probe is Unavailable,
    ensures
        last_decisive(entries, k) is None,
    decreases entries.len(),
{
    if entries.len() > 0 {
        let front = entries.drop_last();
        assert(entries.last() == entries[entries.len() - 1]);
        assert forall|j: int| 0 <= j < front.len() implies (#[trigger] front[j]).name@ != k || front[j].probe is Unavailable by {
            assert(front[j] == entries[j]);
        }
        lemma_no_entry_undecided(front, k);
    }
}

} // verus!
