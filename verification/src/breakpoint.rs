//! Breakpoints: user-declared triggers on a field's value transitions.

use vstd::prelude::*;

use crate::assoc::lookup;
use crate::path::spec_resolve;
use crate::snapshot::Snapshot;
use crate::value::{deep_clone, opt_val, value_eq, Val, Value};

verus! {

/// The transition pattern a breakpoint watches for. Pure configuration: the
/// per-step outcome lives in [`Breakpoint::triggered`].
#[derive(PartialEq, Eq, Structural, Clone, Copy, Debug)]
pub enum BreakpointKind {
    Disabled,
    OnValueChanged,
    OnValueAppeared,
    OnValueDisappeared,
}

/// One breakpoint on the field `key` of the entity at `path`. Identity is
/// `(path, key)`; `last` is the value seen at the previous step and
/// `triggered` the outcome of the latest evaluation.
pub struct Breakpoint {
    pub path: String,
    pub key: String,
    pub kind: BreakpointKind,
    pub last: Option<Value>,
    pub triggered: bool,
}

/// The value a breakpoint observes at one step: the entity's snapshot entry,
/// then its field resolved by dotted path. Absence at either stage is a valid
/// observation, not an error.
pub open spec fn spec_observed(
    snap: Seq<(Seq<char>, Val)>,
    path: Seq<char>,
    key: Seq<char>,
) -> Option<Val> {
    match lookup(snap, path) {
        Some(v) => spec_resolve(v, key),
        None => None,
    }
}

/// Whether a transition from `last` to `current` fires a breakpoint of the
/// given kind.
pub open spec fn spec_triggers(kind: BreakpointKind, last: Option<Val>, current: Option<Val>) -> bool {
    match kind {
        BreakpointKind::Disabled => false,
        BreakpointKind::OnValueChanged => last != current,
        BreakpointKind::OnValueAppeared => last is None && current is Some,
        BreakpointKind::OnValueDisappeared => last is Some && current is None,
    }
}

impl Breakpoint {
    /// A fresh breakpoint watching `key` on the entity at `path`, seeded with
    /// the value currently displayed (so the first step does not report a
    /// spurious change).
    pub fn new(path: String, key: String, last: Option<Value>) -> (r: Breakpoint)
        ensures
            r.path@ == path@,
            r.key@ == key@,
            r.kind == BreakpointKind::OnValueChanged,
            opt_val(r.last) == opt_val(last),
            !r.triggered,
    {
        Breakpoint { path, key, kind: BreakpointKind::OnValueChanged, last, triggered: false }
    }

    /// Evaluate this breakpoint against the current snapshot: observe the
    /// addressed value, report whether the configured transition fired, and
    /// remember the observation for the next step. The caller decides what a
    /// report means (for example, halting further stepping).
    pub fn update(&mut self, observers: &Snapshot) -> (halt: bool)
        ensures
            final(self).path == old(self).path,
            final(self).key == old(self).key,
            final(self).kind == old(self).kind,
            opt_val(final(self).last) == spec_observed(observers@, old(self).path@, old(self).key@),
            final(self).triggered == spec_triggers(
                old(self).kind,
                opt_val(old(self).last),
                spec_observed(observers@, old(self).path@, old(self).key@),
            ),
            halt == final(self).triggered,
    {
        self.triggered = false;
        let halt = self.update_inner(observers);
        if halt {
            self.triggered = true;
        }
        halt
    }

    /// Observe the addressed value and decide the transition; updates `last`,
    /// leaves `triggered` alone.
    fn update_inner(&mut self, observers: &Snapshot) -> (halt: bool)
        ensures
            final(self).path == old(self).path,
            final(self).key == old(self).key,
            final(self).kind == old(self).kind,
            final(self).triggered == old(self).triggered,
            opt_val(final(self).last) == spec_observed(observers@, old(self).path@, old(self).key@),
            halt == spec_triggers(
                old(self).kind,
                opt_val(old(self).last),
                spec_observed(observers@, old(self).path@, old(self).key@),
            ),
    {
        let current: Option<Value> = match observers.get(self.path.as_str()) {
            Some(v) => match crate::path::resolve(v, self.key.as_str()) {
                Some(sub) => Some(deep_clone(sub)),
                None => None,
            },
            None => None,
        };
        let halt = match self.kind {
            BreakpointKind::Disabled => false,
            BreakpointKind::OnValueChanged => match (&self.last, &current) {
                (Some(a), Some(b)) => !value_eq(a, b),
                (None, None) => false,
                _ => true,
            },
            BreakpointKind::OnValueAppeared => self.last.is_none() && current.is_some(),
            BreakpointKind::OnValueDisappeared => self.last.is_some() && current.is_none(),
        };
        self.last = current;
        halt
    }
}


/// Index of the first breakpoint identified by `(path, key)`, or the list's
/// length if none is.
pub open spec fn bp_index(bps: Seq<Breakpoint>, path: Seq<char>, key: Seq<char>) -> int
    decreases bps.len(),
{
    if bps.len() == 0 {
        0
    } else if bps[0].path@ == path && bps[0].key@ == key {
        0
    } else {
        1 + bp_index(bps.drop_first(), path, key)
    }
}

/// What `bp_index` returns: the first position identified by `(path, key)`.
pub proof fn lemma_bp_index(bps: Seq<Breakpoint>, path: Seq<char>, key: Seq<char>)
    ensures
        0 <= bp_index(bps, path, key) <= bps.len(),
        bp_index(bps, path, key) < bps.len() ==> bps[bp_index(bps, path, key)].path@ == path
            && bps[bp_index(bps, path, key)].key@ == key,
        forall|j: int|
            0 <= j < bp_index(bps, path, key) ==> !((#[trigger] bps[j]).path@ == path && bps[j].key@
                == key),
    decreases bps.len(),
{
    if bps.len() > 0 && !(bps[0].path@ == path && bps[0].key@ == key) {
        lemma_bp_index(bps.drop_first(), path, key);
        assert(forall|j: int|
            1 <= j < bps.len() ==> (#[trigger] bps[j]) == bps.drop_first()[j - 1]);
    }
}

/// Toggle the breakpoint identified by `(path, key)`: remove the first one
/// carrying that identity, or add a fresh change-watching breakpoint seeded
/// with the currently displayed value.
pub fn toggle_breakpoint(bps: &mut Vec<Breakpoint>, path: String, key: String, seed: Option<Value>)
    ensures
        ({
            let d = bp_index(old(bps)@, path@, key@);
            if d < old(bps)@.len() {
                final(bps)@ == old(bps)@.remove(d)
            } else {
                &&& final(bps)@.len() == old(bps)@.len() + 1
                &&& final(bps)@.take(old(bps)@.len() as int) == old(bps)@
                &&& final(bps)@.last().path@ == path@
                &&& final(bps)@.last().key@ == key@
                &&& final(bps)@.last().kind == BreakpointKind::OnValueChanged
                &&& opt_val(final(bps)@.last().last) == opt_val(seed)
                &&& !final(bps)@.last().triggered
            }
        }),
{
    let n = bps.len();
    let mut i: usize = 0;
    while i < n
        invariant
            i <= n,
            bps@ == old(bps)@,
            n == bps@.len(),
            forall|j: int| 0 <= j < i ==> !((#[trigger] bps@[j]).path@ == path@ && bps@[j].key@
                == key@),
        decreases n - i,
    {
        if crate::text::str_eq(bps[i].path.as_str(), path.as_str()) && crate::text::str_eq(
            bps[i].key.as_str(),
            key.as_str(),
        ) {
            proof {
                lemma_bp_index(bps@, path@, key@);
                let d = bp_index(bps@, path@, key@);
                if d < i {
                    assert(!(bps@[d].path@ == path@ && bps@[d].key@ == key@));
                }
                if d > i {
                    assert(!(bps@[i as int].path@ == path@ && bps@[i as int].key@ == key@));
                }
            }
            bps.remove(i);
            return ;
        }
        i = i + 1;
    }
    proof {
        lemma_bp_index(bps@, path@, key@);
        let d = bp_index(bps@, path@, key@);
        if d < bps@.len() {
            assert(!(bps@[d].path@ == path@ && bps@[d].key@ == key@));
        }
    }
    let fresh = Breakpoint::new(path, key, seed);
    bps.push(fresh);
}

} // verus!
