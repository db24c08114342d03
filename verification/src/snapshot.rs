//! Per-entity cache of unified state trees, refreshed once per simulation
//! step for every watched entity.

use vstd::prelude::*;

use crate::assoc::{has_key, lookup, remove_key, store};
use crate::value::{Mapping, Val, Value};

verus! {

/// Maps each watched entity path to its current unified state tree. An entry
/// appears when an entity becomes watched, is replaced wholesale on every
/// refresh, and leaves when no consumer references the path any more.
pub struct Snapshot {
    pub map: Mapping,
}

impl View for Snapshot {
    type V = Seq<(Seq<char>, Val)>;

    open spec fn view(&self) -> Seq<(Seq<char>, Val)> {
        self.map@
    }
}

impl Snapshot {
    /// A snapshot with no watched entities.
    pub fn new() -> (r: Snapshot)
        ensures
            r@ == Seq::<(Seq<char>, Val)>::empty(),
    {
        Snapshot { map: Mapping::new() }
    }

    /// Number of watched entities.
    pub fn len(&self) -> (n: usize)
        ensures
            n == self@.len(),
    {
        self.map.len()
    }

    /// The cached state tree of the entity at `path`, if watched.
    pub fn get<'a>(&'a self, path: &str) -> (r: Option<&'a Value>)
        ensures
            match r {
                Some(v) => lookup(self@, path@) == Some(v@),
                None => lookup(self@, path@) is None,
            },
    {
        self.map.get(path)
    }

    /// Store `value` as the current state tree of the entity at `path`.
    pub fn set(&mut self, path: String, value: Value)
        ensures
            final(self)@ == store(old(self)@, path@, crate::value::val_of(value)),
    {
        self.map.insert(path, value);
    }

    /// Re-run unification and pruning over the entity's fresh flat
    /// attributes and replace its cached tree wholesale.
    pub fn refresh(&mut self, path: String, attrs: Vec<(String, Value)>)
        requires
            crate::unify::wf_props(crate::value::entries_of(attrs@)),
        ensures
            final(self)@ == store(
                old(self)@,
                path@,
                Val::Mapping(
                    crate::unify::prune_entries(
                        crate::unify::spec_unify(crate::value::entries_of(attrs@)),
                    ),
                ),
            ),
            crate::unify::wf_entry_vals(crate::value::entries_of(attrs@))
                ==> crate::value::wf_val(
                Val::Mapping(
                    crate::unify::prune_entries(
                        crate::unify::spec_unify(crate::value::entries_of(attrs@)),
                    ),
                ),
            ),
    {
        proof {
            if crate::unify::wf_entry_vals(crate::value::entries_of(attrs@)) {
                crate::unify::lemma_unify_wf(crate::value::entries_of(attrs@));
                crate::unify::lemma_prune_wf(
                    crate::unify::spec_unify(crate::value::entries_of(attrs@)),
                );
            }
        }
        let mut unified = crate::unify::unify(attrs);
        crate::unify::remove_empty(&mut unified);
        self.set(path, Value::Mapping(unified));
    }

    /// Stop watching the entity at `path`.
    pub fn remove(&mut self, path: &str) -> (removed: bool)
        ensures
            final(self)@ == remove_key(old(self)@, path@),
            removed == has_key(old(self)@, path@),
            crate::assoc::distinct_keys(old(self)@) ==> {
                &&& crate::assoc::distinct_keys(final(self)@)
                &&& lookup(final(self)@, path@) is None
                &&& forall|k2: Seq<char>|
                    k2 != path@ ==> lookup(final(self)@, k2) == lookup(old(self)@, k2)
            },
    {
        self.map.remove(path)
    }
}

} // verus!
