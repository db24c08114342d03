//! The dynamically-typed value tree that carries an entity's state.

use vstd::prelude::*;

verus! {

broadcast use vstd::std_specs::vec::group_vec_axioms;

/// Mathematical model of a value tree. Mappings are association sequences:
/// insertion order is part of the model, and well-formed mappings have
/// pairwise distinct keys (see [`wf_entries`]).
#[verifier::ext_equal]
pub enum Val {
    Null,
    Bool(bool),
    Number(int),
    Text(Seq<char>),
    Sequence(Seq<Val>),
    Mapping(Seq<(Seq<char>, Val)>),
    Tagged(Seq<char>, Box<Val>),
}

/// A value tree node: null, boolean, integer, text, ordered sequence,
/// insertion-ordered mapping with unique keys, or a tagged wrapper around
/// exactly one inner value. A value is never mutated in place; an update
/// replaces the whole tree.
pub enum Value {
    Null,
    Bool(bool),
    Number(i64),
    Text(String),
    Sequence(Vec<Value>),
    Mapping(Mapping),
    Tagged(String, Box<Value>),
}

/// An insertion-ordered mapping from string keys to values, with unique keys.
pub struct Mapping {
    pub entries: Vec<(String, Value)>,
}

/// The mathematical value an exec node stands for.
pub open spec fn val_of(v: Value) -> Val
    decreases v,
{
    match v {
        Value::Null => Val::Null,
        Value::Bool(b) => Val::Bool(b),
        Value::Number(n) => Val::Number(n as int),
        Value::Text(s) => Val::Text(s@),
        Value::Sequence(items) => Val::Sequence(vals_of(items@)),
        Value::Mapping(m) => Val::Mapping(entries_of(m.entries@)),
        Value::Tagged(tag, inner) => Val::Tagged(tag@, Box::new(val_of(*inner))),
    }
}

/// Element-wise model of a sequence of exec nodes.
pub open spec fn vals_of(items: Seq<Value>) -> Seq<Val>
    decreases items,
{
    if items.len() == 0 {
        Seq::empty()
    } else {
        seq![val_of(items[0])] + vals_of(items.drop_first())
    }
}

/// Element-wise model of mapping entries.
pub open spec fn entries_of(entries: Seq<(String, Value)>) -> Seq<(Seq<char>, Val)>
    decreases entries,
{
    if entries.len() == 0 {
        Seq::empty()
    } else {
        seq![(entries[0].0@, val_of(entries[0].1))] + entries_of(entries.drop_first())
    }
}

impl Value {
    /// The mathematical value this node stands for.
    pub open spec fn val(self) -> Val {
        val_of(self)
    }
}

impl View for Value {
    type V = Val;

    open spec fn view(&self) -> Val {
        self.val()
    }
}

impl View for Mapping {
    type V = Seq<(Seq<char>, Val)>;

    open spec fn view(&self) -> Seq<(Seq<char>, Val)> {
        entries_of(self.entries@)
    }
}


/// The model of an optional value.
pub open spec fn opt_val(o: Option<Value>) -> Option<Val> {
    match o {
        Some(v) => Some(val_of(v)),
        None => None,
    }
}

/// `vals_of` keeps the length.
pub broadcast proof fn lemma_vals_of_len(items: Seq<Value>)
    ensures
        (#[trigger] vals_of(items)).len() == items.len(),
    decreases items.len(),
{
    if items.len() > 0 {
        lemma_vals_of_len(items.drop_first());
    }
}

/// `vals_of` maps element-wise.
pub broadcast proof fn lemma_vals_of_index(items: Seq<Value>, i: int)
    requires
        0 <= i < items.len(),
    ensures
        (#[trigger] vals_of(items)[i]) == val_of(items[i]),
    decreases items.len(),
{
    lemma_vals_of_len(items.drop_first());
    if i > 0 {
        lemma_vals_of_index(items.drop_first(), i - 1);
    }
}

/// `entries_of` keeps the length.
pub broadcast proof fn lemma_entries_of_len(entries: Seq<(String, Value)>)
    ensures
        (#[trigger] entries_of(entries)).len() == entries.len(),
    decreases entries.len(),
{
    if entries.len() > 0 {
        lemma_entries_of_len(entries.drop_first());
    }
}

/// `entries_of` maps entry-wise.
pub broadcast proof fn lemma_entries_of_index(entries: Seq<(String, Value)>, i: int)
    requires
        0 <= i < entries.len(),
    ensures
        (#[trigger] entries_of(entries)[i]) == (entries[i].0@, val_of(entries[i].1)),
    decreases entries.len(),
{
    lemma_entries_of_len(entries.drop_first());
    if i > 0 {
        lemma_entries_of_index(entries.drop_first(), i - 1);
    }
}

/// Appending an entry appends its model.
pub proof fn lemma_entries_of_push(entries: Seq<(String, Value)>, e: (String, Value))
    ensures
        entries_of(entries.push(e)) =~= entries_of(entries).push((e.0@, val_of(e.1))),
{
    let l = entries.push(e);
    lemma_entries_of_len(entries);
    lemma_entries_of_len(l);
    assert forall|i: int| 0 <= i < l.len() implies entries_of(l)[i] == entries_of(entries).push(
        (e.0@, val_of(e.1)),
    )[i] by {
        lemma_entries_of_index(l, i);
        if i < entries.len() {
            lemma_entries_of_index(entries, i);
        }
    }
}

/// Updating an entry updates its model.
pub proof fn lemma_entries_of_update(entries: Seq<(String, Value)>, d: int, e: (String, Value))
    requires
        0 <= d < entries.len(),
    ensures
        entries_of(entries.update(d, e)) =~= entries_of(entries).update(d, (e.0@, val_of(e.1))),
{
    let l = entries.update(d, e);
    lemma_entries_of_len(entries);
    lemma_entries_of_len(l);
    assert forall|i: int| 0 <= i < l.len() implies entries_of(l)[i] == entries_of(entries).update(
        d,
        (e.0@, val_of(e.1)),
    )[i] by {
        lemma_entries_of_index(l, i);
        if i != d {
            lemma_entries_of_index(entries, i);
        }
    }
}

/// Well-formedness: every mapping in the tree has pairwise distinct keys.
pub open spec fn wf_val(v: Val) -> bool
    decreases v,
{
    match v {
        Val::Sequence(items) => forall|i: int|
            0 <= i < items.len() ==> wf_val(#[trigger] items[i]),
        Val::Mapping(es) => crate::assoc::distinct_keys(es) && forall|i: int|
            0 <= i < es.len() ==> wf_val((#[trigger] es[i]).1),
        Val::Tagged(_, inner) => wf_val(*inner),
        _ => true,
    }
}

impl Mapping {
    /// An empty mapping.
    pub fn new() -> (r: Mapping)
        ensures
            r@ == Seq::<(Seq<char>, Val)>::empty(),
    {
        let r = Mapping { entries: Vec::new() };
        proof {
            assert(r@ =~= Seq::<(Seq<char>, Val)>::empty());
        }
        r
    }

    /// Number of entries.
    pub fn len(&self) -> (n: usize)
        ensures
            n == self@.len(),
    {
        proof {
            lemma_entries_of_len(self.entries@);
        }
        self.entries.len()
    }

    /// Whether the mapping has no entries.
    pub fn is_empty(&self) -> (r: bool)
        ensures
            r == (self@.len() == 0),
    {
        self.len() == 0
    }

    /// The key of the entry at position `i`.
    pub fn key_at(&self, i: usize) -> (k: &String)
        requires
            i < self@.len(),
        ensures
            k@ == self@[i as int].0,
    {
        proof {
            lemma_entries_of_len(self.entries@);
            lemma_entries_of_index(self.entries@, i as int);
        }
        &self.entries[i].0
    }

    /// The value of the entry at position `i`.
    pub fn value_at(&self, i: usize) -> (v: &Value)
        requires
            i < self@.len(),
        ensures
            v@ == self@[i as int].1,
    {
        proof {
            lemma_entries_of_len(self.entries@);
            lemma_entries_of_index(self.entries@, i as int);
        }
        &self.entries[i].1
    }

    /// The value stored under `key`, if any.
    pub fn get<'a>(&'a self, key: &str) -> (r: Option<&'a Value>)
        ensures
            match r {
                Some(v) => crate::assoc::lookup(self@, key@) == Some(v@),
                None => crate::assoc::lookup(self@, key@) is None,
            },
    {
        proof {
            lemma_entries_of_len(self.entries@);
        }
        let n = self.entries.len();
        let mut i: usize = 0;
        while i < n
            invariant
                i <= n,
                n == self.entries@.len(),
                self@.len() == n,
                forall|j: int| 0 <= j < i ==> (#[trigger] self@[j]).0 != key@,
            decreases n - i,
        {
            proof {
                lemma_entries_of_index(self.entries@, i as int);
            }
            if crate::text::str_eq(self.entries[i].0.as_str(), key) {
                proof {
                    crate::assoc::lemma_lookup_at(self@, key@, i as int);
                }
                return Some(&self.entries[i].1);
            }
            i = i + 1;
        }
        proof {
            crate::assoc::lemma_lookup_none(self@, key@);
        }
        None
    }

    /// Store `value` under `key`: replace in place or append.
    pub fn insert(&mut self, key: String, value: Value)
        ensures
            final(self)@ == crate::assoc::store(old(self)@, key@, val_of(value)),
    {
        proof {
            lemma_entries_of_len(self.entries@);
        }
        let n = self.entries.len();
        let mut i: usize = 0;
        while i < n
            invariant
                i <= n,
                self.entries@ == old(self).entries@,
                n == self.entries@.len(),
                self@.len() == n,
                forall|j: int| 0 <= j < i ==> (#[trigger] self@[j]).0 != key@,
            decreases n - i,
        {
            proof {
                lemma_entries_of_index(self.entries@, i as int);
            }
            if crate::text::str_eq(self.entries[i].0.as_str(), key.as_str()) {
                proof {
                    assert(self@[i as int].0 == key@);
                    assert(crate::assoc::has_key(self@, key@));
                    crate::assoc::lemma_lookup_at(self@, key@, i as int);
                    lemma_entries_of_update(self.entries@, i as int, (key, value));
                }
                self.entries[i] = (key, value);
                return ;
            }
            i = i + 1;
        }
        proof {
            if crate::assoc::has_key(self@, key@) {
                let j = choose|j: int| 0 <= j < self@.len() && self@[j].0 == key@;
                assert(self@[j].0 != key@);
            }
            lemma_entries_of_push(self.entries@, (key, value));
        }
        self.entries.push((key, value));
    }

    /// Remove the entry stored under `key`, if any.
    pub fn remove(&mut self, key: &str) -> (removed: bool)
        ensures
            final(self)@ == crate::assoc::remove_key(old(self)@, key@),
            removed == crate::assoc::has_key(old(self)@, key@),
            crate::assoc::distinct_keys(old(self)@) ==> {
                &&& crate::assoc::distinct_keys(final(self)@)
                &&& crate::assoc::lookup(final(self)@, key@) is None
                &&& forall|k2: Seq<char>|
                    k2 != key@ ==> crate::assoc::lookup(final(self)@, k2) == crate::assoc::lookup(
                        old(self)@,
                        k2,
                    )
            },
    {
        proof {
            lemma_entries_of_len(self.entries@);
        }
        let n = self.entries.len();
        let mut i: usize = 0;
        while i < n
            invariant
                i <= n,
                self.entries@ == old(self).entries@,
                n == self.entries@.len(),
                self@.len() == n,
                forall|j: int| 0 <= j < i ==> (#[trigger] self@[j]).0 != key@,
            decreases n - i,
        {
            proof {
                lemma_entries_of_index(self.entries@, i as int);
            }
            if crate::text::str_eq(self.entries[i].0.as_str(), key) {
                proof {
                    assert(self@[i as int].0 == key@);
                    assert(crate::assoc::has_key(self@, key@));
                    crate::assoc::lemma_lookup_at(self@, key@, i as int);
                    lemma_entries_of_remove(self.entries@, i as int);
                    if crate::assoc::distinct_keys(self@) {
                        crate::assoc::lemma_remove_key(self@, key@);
                    }
                }
                self.entries.remove(i);
                return true;
            }
            i = i + 1;
        }
        proof {
            if crate::assoc::has_key(self@, key@) {
                let j = choose|j: int| 0 <= j < self@.len() && self@[j].0 == key@;
                assert(self@[j].0 != key@);
            }
            if crate::assoc::distinct_keys(self@) {
                crate::assoc::lemma_remove_key(self@, key@);
            }
        }
        false
    }
}


/// Removing an entry removes its model.
pub proof fn lemma_entries_of_remove(entries: Seq<(String, Value)>, d: int)
    requires
        0 <= d < entries.len(),
    ensures
        entries_of(entries.remove(d)) =~= entries_of(entries).remove(d),
{
    let l = entries.remove(d);
    lemma_entries_of_len(entries);
    lemma_entries_of_len(l);
    assert forall|i: int| 0 <= i < l.len() implies entries_of(l)[i] == entries_of(entries).remove(
        d,
    )[i] by {
        lemma_entries_of_index(l, i);
        let i0 = if i < d { i } else { i + 1 };
        assert(l[i] == entries[i0]);
        lemma_entries_of_index(entries, i0);
    }

}

/// Deep structural equality, decided through the model.
#[verifier::loop_isolation(false)]
pub fn value_eq(a: &Value, b: &Value) -> (r: bool)
    ensures
        r == (a@ == b@),
    decreases *a,
{
    match (a, b) {
        (Value::Null, Value::Null) => true,
        (Value::Bool(x), Value::Bool(y)) => x == y,
        (Value::Number(x), Value::Number(y)) => x == y,
        (Value::Text(x), Value::Text(y)) => crate::text::str_eq(x.as_str(), y.as_str()),
        (Value::Sequence(x), Value::Sequence(y)) => {
            let n = x.len();
            if n != y.len() {
                proof {
                    lemma_vals_of_len(x@);
                    lemma_vals_of_len(y@);
                }
                return false;
            }
            let mut i: usize = 0;
            while i < n
                invariant
                    i <= n,
                    n == x@.len(),
                    n == y@.len(),
                    forall|k: int| 0 <= k < i ==> val_of(#[trigger] x@[k]) == val_of(y@[k]),
                decreases n - i,
            {
                if !value_eq(&x[i], &y[i]) {
                    proof {
                        lemma_vals_of_index(x@, i as int);
                        lemma_vals_of_index(y@, i as int);
                    }
                    return false;
                }
                i = i + 1;
            }
            proof {
                lemma_vals_of_len(x@);
                lemma_vals_of_len(y@);
                assert forall|k: int| 0 <= k < n implies vals_of(x@)[k] == vals_of(y@)[k] by {
                    lemma_vals_of_index(x@, k);
                    lemma_vals_of_index(y@, k);
                }
                assert(vals_of(x@) =~= vals_of(y@));
            }
            true
        },
        (Value::Mapping(x), Value::Mapping(y)) => {
            proof {
                lemma_entries_of_len(x.entries@);
                lemma_entries_of_len(y.entries@);
            }
            let n = x.entries.len();
            if n != y.entries.len() {
                return false;
            }
            let mut i: usize = 0;
            while i < n
                invariant
                    i <= n,
                    n == x.entries@.len(),
                    n == y.entries@.len(),
                    forall|k: int|
                        0 <= k < i ==> (#[trigger] x.entries@[k]).0@ == y.entries@[k].0@
                            && val_of(x.entries@[k].1) == val_of(y.entries@[k].1),
                decreases n - i,
            {
                proof {
                    lemma_entries_of_index(x.entries@, i as int);
                    lemma_entries_of_index(y.entries@, i as int);
                }
                if !crate::text::str_eq(x.entries[i].0.as_str(), y.entries[i].0.as_str()) {
                    return false;
                }
                if !value_eq(&x.entries[i].1, &y.entries[i].1) {
                    return false;
                }
                i = i + 1;
            }
            proof {
                assert forall|k: int| 0 <= k < n implies entries_of(x.entries@)[k] == entries_of(
                    y.entries@,
                )[k] by {
                    lemma_entries_of_index(x.entries@, k);
                    lemma_entries_of_index(y.entries@, k);
                }
                assert(entries_of(x.entries@) =~= entries_of(y.entries@));
            }
            true
        },
        (Value::Tagged(tx, ix), Value::Tagged(ty, iy)) => {
            if !crate::text::str_eq(tx.as_str(), ty.as_str()) {
                return false;
            }
            value_eq(ix, iy)
        },
        _ => false,
    }
}

/// A fresh tree with the same model.
#[verifier::loop_isolation(false)]
pub fn deep_clone(v: &Value) -> (r: Value)
    ensures
        r@ == v@,
    decreases *v,
{
    match v {
        Value::Null => Value::Null,
        Value::Bool(b) => Value::Bool(*b),
        Value::Number(n) => Value::Number(*n),
        Value::Text(s) => Value::Text(s.clone()),
        Value::Sequence(items) => {
            let n = items.len();
            let mut out: Vec<Value> = Vec::new();
            let mut i: usize = 0;
            while i < n
                invariant
                    i <= n,
                    n == items@.len(),
                    out@.len() == i,
                    forall|k: int| 0 <= k < i ==> val_of(#[trigger] out@[k]) == val_of(items@[k]),
                decreases n - i,
            {
                let c = deep_clone(&items[i]);
                out.push(c);
                i = i + 1;
            }
            proof {
                lemma_vals_of_len(out@);
                lemma_vals_of_len(items@);
                assert forall|k: int| 0 <= k < n implies vals_of(out@)[k] == vals_of(items@)[k] by {
                    lemma_vals_of_index(out@, k);
                    lemma_vals_of_index(items@, k);
                }
                assert(vals_of(out@) =~= vals_of(items@));
            }
            Value::Sequence(out)
        },
        Value::Mapping(m) => {
            let n = m.entries.len();
            let mut out: Vec<(String, Value)> = Vec::new();
            let mut i: usize = 0;
            while i < n
                invariant
                    i <= n,
                    n == m.entries@.len(),
                    out@.len() == i,
                    forall|k: int|
                        0 <= k < i ==> (#[trigger] out@[k]).0@ == m.entries@[k].0@ && val_of(
                            out@[k].1,
                        ) == val_of(m.entries@[k].1),
                decreases n - i,
            {
                let key = m.entries[i].0.clone();
                let val = deep_clone(&m.entries[i].1);
                out.push((key, val));
                i = i + 1;
            }
            proof {
                lemma_entries_of_len(out@);
                lemma_entries_of_len(m.entries@);
                assert forall|k: int| 0 <= k < n implies entries_of(out@)[k] == entries_of(
                    m.entries@,
                )[k] by {
                    lemma_entries_of_index(out@, k);
                    lemma_entries_of_index(m.entries@, k);
                }
                assert(entries_of(out@) =~= entries_of(m.entries@));
            }
            Value::Mapping(Mapping { entries: out })
        },
        Value::Tagged(t, inner) => Value::Tagged(t.clone(), Box::new(deep_clone(inner))),
    }
}

} // verus!
