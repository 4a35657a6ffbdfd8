//! Selection of the primary file among candidates in priority order.

use vstd::prelude::*;

verus! {

/// The link target that marks a candidate as suppressed.
pub const MASK_TARGET: &'static str = "/dev/null";

/// What probing one candidate path found.
pub enum Probe<H> {
    /// The path is a symbolic link whose target is exactly [`MASK_TARGET`].
    Masked,
    /// The path opened as a readable source.
    Opened(H),
    /// The path could not be opened, for whatever reason.
    Unavailable,
}

/// What to do after probing one candidate file.
pub enum FileStep<H> {
    /// Stop probing: this is the selection (`None` for a veto).
    Done(Option<H>),
    /// Go on with the next candidate.
    Continue,
}

/// The primary selection for candidates probed in priority order: the first
/// one that is not unavailable decides, a mask meaning no selection at all.
pub open spec fn primary<H>(probes: Seq<Probe<H>>) -> Option<H>
    decreases probes.len(),
{
    if probes.len() == 0 {
        None
    } else {
        match probes[0] {
            Probe::Masked => None,
            Probe::Opened(h) => Some(h),
            Probe::Unavailable => primary(probes.skip(1)),
        }
    }
}

/// Whether a link target, read one level deep, is the mask sentinel: an
/// exact textual match.
pub fn is_mask_target(target: &str) -> (r: bool)
    ensures
        r == (target@ == MASK_TARGET@),
{
    let t = target.to_owned();
    let m = MASK_TARGET.to_owned();
    t == m
}

/// The decision for one probed candidate file.
pub fn file_step<H>(probe: Probe<H>) -> (r: FileStep<H>)
    ensures
        r == (match probe {
            Probe::Masked => FileStep::Done(None),
            Probe::Opened(h) => FileStep::Done(Some(h)),
            Probe::Unavailable => FileStep::<H>::Continue,
        }),
{
    match probe {
        Probe::Masked => FileStep::Done(None),
        Probe::Opened(h) => FileStep::Done(Some(h)),
        Probe::Unavailable => FileStep::Continue,
    }
}

/// Selects the primary file from candidates probed in priority order.
pub fn locate_file<H>(probes: Vec<Probe<H>>) -> (r: Option<H>)
    ensures
        r == primary(probes@),
{
    let mut rest = probes;
    while rest.len() > 0
        invariant
            primary(rest@) == primary(probes@),
        decreases rest.len(),
    {
        let ghost before = rest@;
        let p = rest.remove(0);
        assert(rest@ =~= before.skip(1));
        match file_step(p) {
            FileStep::Done(r) => {
                return r;
            },
            FileStep::Continue => {},
        }
    }
    None
}

/// A mask at the highest priority that decides is an absolute veto: whatever
/// lower-priority candidates hold, nothing is selected.
pub proof fn lemma_mask_vetoes<H>(probes: Seq<Probe<H>>, i: int)
    requires
        0 <= i < probes.len(),
        probes[i] is Masked,
        forall|j: int| 0 <= j < i ==> probes[j] is Unavailable,
    ensures
        primary(probes) == None::<H>,
    decreases i,
{
    if i > 0 {
        lemma_mask_vetoes(probes.skip(1), i - 1);
    }
}

/// Unavailable candidates are passed over: the first candidate that opens,
/// with nothing but unavailable ones before it, is the selection.
pub proof fn lemma_first_opened_selected<H>(probes: Seq<Probe<H>>, i: int, h: H)
    requires
        0 <= i < probes.len(),
        probes[i] == Probe::Opened(h),
        forall|j: int| 0 <= j < i ==> probes[j] is Unavailable,
    ensures
        primary(probes) == Some(h),
    decreases i,
{
    if i > 0 {
        lemma_first_opened_selected(probes.skip(1), i - 1, h);
    }
}

} // verus!
