//! Configuration tokens of the form `key=value` into the two candidate lists.

use vstd::prelude::*;

verus! {

/// Key of a token that names a candidate file.
pub const FILE_KEY: &'static str = "motd";

/// Key of a token that names a candidate snippet directory.
pub const DIR_KEY: &'static str = "motd_dir";

/// Position of the first `=` in `t` at or after `i`; `t.len()` if there is none.
pub open spec fn first_eq(t: Seq<char>, i: int) -> int
    decreases t.len() - i,
{
    if i < 0 || i >= t.len() {
        t.len() as int
    } else if t[i] == '=' {
        i
    } else {
        first_eq(t, i + 1)
    }
}

proof fn lemma_first_eq_bounds(t: Seq<char>, i: int)
    requires
        0 <= i <= t.len(),
    ensures
        i <= first_eq(t, i) <= t.len(),
    decreases t.len() - i,
{
    if i < t.len() && t[i] != '=' {
        lemma_first_eq_bounds(t, i + 1);
    }
}

/// The key of token `t`: what stands before its first `=`; `None` when it
/// holds no `=`.
pub open spec fn token_key(t: Seq<char>) -> Option<Seq<char>> {
    let i = first_eq(t, 0);
    if 0 <= i < t.len() {
        Some(t.subrange(0, i))
    } else {
        None
    }
}

/// The value of token `t` when its key is `key`: what follows its first `=`.
pub open spec fn token_value(t: Seq<char>, key: Seq<char>) -> Option<Seq<char>> {
    if token_key(t) == Some(key) {
        Some(t.subrange(first_eq(t, 0) + 1, t.len() as int))
    } else {
        None
    }
}

/// The values of the tokens with key `key`, in the order of the tokens.
pub open spec fn values_for(tokens: Seq<Seq<char>>, key: Seq<char>) -> Seq<Seq<char>>
    decreases tokens.len(),
{
    if tokens.len() == 0 {
        Seq::empty()
    } else {
        let rest = values_for(tokens.drop_last(), key);
        match token_value(tokens.last(), key) {
            Some(v) => rest.push(v),
            None => rest,
        }
    }
}

/// The candidate files used when no token is given.
pub open spec fn default_files() -> Seq<Seq<char>> {
    seq!["/etc/motd"@, "/run/motd"@, "/usr/lib/motd"@]
}

/// The candidate directories used when no token is given.
pub open spec fn default_dirs() -> Seq<Seq<char>> {
    seq!["/etc/motd.d/"@, "/run/motd.d/"@, "/usr/lib/motd.d/"@]
}

/// The two candidate lists that `tokens` configure, highest priority first.
pub open spec fn configured(tokens: Seq<Seq<char>>) -> (Seq<Seq<char>>, Seq<Seq<char>>) {
    if tokens.len() == 0 {
        (default_files(), default_dirs())
    } else {
        (values_for(tokens, FILE_KEY@), values_for(tokens, DIR_KEY@))
    }
}

/// The views of a list of strings.
pub open spec fn texts(v: Seq<String>) -> Seq<Seq<char>> {
    v.map_values(|s: String| s@)
}

/// Splits token `t` at its first `=` into the key before it and the value
/// after it. `None` when `t` holds no `=`.
fn split_token(t: &str) -> (r: Option<(String, String)>)
    ensures
        0 <= first_eq(t@, 0) < t@.len() <==> r is Some,
        r matches Some(kv) ==> kv.0@ == t@.subrange(0, first_eq(t@, 0)) && kv.1@ == t@.subrange(
            first_eq(t@, 0) + 1,
            t@.len() as int,
        ),
{
    let n = t.unicode_len();
    let mut j: usize = 0;
    while j < n && t.get_char(j) != '='
        invariant
            j <= n,
            n == t@.len(),
            first_eq(t@, 0) == first_eq(t@, j as int),
        decreases n - j,
    {
        j = j + 1;
    }
    proof {
        lemma_first_eq_bounds(t@, j as int);
    }
    if j < n {
        let key = t.substring_char(0, j).to_owned();
        let value = t.substring_char(j + 1, n).to_owned();
        Some((key, value))
    } else {
        None
    }
}

/// Sorts configuration tokens into candidate files (key `motd`) and candidate
/// snippet directories (key `motd_dir`), each in token order. A token without
/// `=`, or with another key, is ignored. With no tokens at all, the default
/// locations are used.
pub fn parse_args(args: Vec<String>) -> (r: (Vec<String>, Vec<String>))
    ensures
        (texts(r.0@), texts(r.1@)) == configured(texts(args@)),
{
    let mut files: Vec<String> = Vec::new();
    let mut dirs: Vec<String> = Vec::new();
    if args.len() == 0 {
        files.push("/etc/motd".to_owned());
        files.push("/run/motd".to_owned());
        files.push("/usr/lib/motd".to_owned());
        dirs.push("/etc/motd.d/".to_owned());
        dirs.push("/run/motd.d/".to_owned());
        dirs.push("/usr/lib/motd.d/".to_owned());
        assert(texts(files@) =~= default_files());
        assert(texts(dirs@) =~= default_dirs());
        return (files, dirs);
    }
    let ghost all = texts(args@);
    let file_key = FILE_KEY.to_owned();
    let dir_key = DIR_KEY.to_owned();
    proof {
        reveal_strlit("motd");
        reveal_strlit("motd_dir");
        assert(FILE_KEY@.len() != DIR_KEY@.len());
    }
    let mut i: usize = 0;
    assert(all.subrange(0, 0) =~= Seq::<Seq<char>>::empty());
    while i < args.len()
        invariant
            i <= args.len(),
            all == texts(args@),
            file_key@ == FILE_KEY@,
            dir_key@ == DIR_KEY@,
            FILE_KEY@ != DIR_KEY@,
            texts(files@) == values_for(all.subrange(0, i as int), FILE_KEY@),
            texts(dirs@) == values_for(all.subrange(0, i as int), DIR_KEY@),
        decreases args.len() - i,
    {
        let ghost pre = all.subrange(0, i + 1);
        assert(pre.drop_last() =~= all.subrange(0, i as int));
        assert(pre.last() == args@[i as int]@);
        let ghost f0 = files@;
        let ghost d0 = dirs@;
        match split_token(args[i].as_str()) {
            Some((key, value)) => {
                if key == file_key {
                    files.push(value);
                    assert(texts(files@) =~= texts(f0).push(value@));
                } else if key == dir_key {
                    dirs.push(value);
                    assert(texts(dirs@) =~= texts(d0).push(value@));
                }
            },
            None => {},
        }
        i = i + 1;
    }
    assert(all.subrange(0, args.len() as int) =~= all);
    (files, dirs)
}

proof fn lemma_values_for_concat(a: Seq<Seq<char>>, b: Seq<Seq<char>>, key: Seq<char>)
    ensures
        values_for(a + b, key) == values_for(a, key) + values_for(b, key),
    decreases b.len(),
{
    if b.len() == 0 {
        assert(a + b =~= a);
        assert(values_for(a, key) + values_for(b, key) =~= values_for(a, key));
    } else {
        assert((a + b).drop_last() =~= a + b.drop_last());
        assert((a + b).last() == b.last());
        lemma_values_for_concat(a, b.drop_last(), key);
        match token_value(b.last(), key) {
            Some(v) => {
                assert(values_for(a, key) + values_for(b.drop_last(), key).push(v) =~= (values_for(a, key)
                    + values_for(b.drop_last(), key)).push(v));
            },
            None => {},
        }
    }
}

/// A token without `=`, or whose key is neither of the two known keys, is
/// ignored: among other tokens it changes neither candidate list.
pub proof fn lemma_ignored_token(before: Seq<Seq<char>>, t: Seq<char>, after: Seq<Seq<char>>)
    requires
        before.len() + after.len() > 0,
        token_key(t) != Some(FILE_KEY@),
        token_key(t) != Some(DIR_KEY@),
    ensures
        configured(before + seq![t] + after) == configured(before + after),
{
    let one = seq![t];
    assert(one.drop_last() =~= Seq::<Seq<char>>::empty());
    assert(one.last() == t);
    assert(values_for(one.drop_last(), FILE_KEY@) == Seq::<Seq<char>>::empty());
    assert(values_for(one.drop_last(), DIR_KEY@) == Seq::<Seq<char>>::empty());
    lemma_values_for_concat(before, one, FILE_KEY@);
    lemma_values_for_concat(before + one, after, FILE_KEY@);
    lemma_values_for_concat(before, after, FILE_KEY@);
    lemma_values_for_concat(before, one, DIR_KEY@);
    lemma_values_for_concat(before + one, after, DIR_KEY@);
    lemma_values_for_concat(before, after, DIR_KEY@);
    assert(values_for(before, FILE_KEY@) + values_for(one, FILE_KEY@) =~= values_for(before, FILE_KEY@));
    assert(values_for(before, DIR_KEY@) + values_for(one, DIR_KEY@) =~= values_for(before, DIR_KEY@));
    assert((before + one + after).len() > 0);
}

} // verus!
