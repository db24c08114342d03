//! Dotted-path resolution against a value tree.
//!
//! A path addresses a sub-value. The empty path addresses the value itself.
//! At a mapping the resolver prefers the longest dot-delimited prefix that is
//! a literal key (attributes may be registered under names that themselves
//! contain dots), then shorter prefixes, then the whole path as one literal
//! key. Once a prefix matches a key the resolver commits to that branch: a
//! failure deeper down is not retried with a shorter prefix. That tie-break
//! order is deliberate and kept as is; it is known to miss some layouts where
//! the same leading segments occur both as a dotted literal key and as a
//! nested tree.
//!
//! At a sequence the path must start with a decimal index segment, optionally
//! followed by `.` and a remainder. A non-empty path at any other node
//! resolves to nothing: absence, not an error.

use vstd::prelude::*;

use crate::assoc::lookup;
use crate::text::{digits_value, find_from, is_digits, rfind_before};
use crate::value::{Val, Value, Mapping};

verus! {

/// What `resolve` returns, on the model.
pub open spec fn spec_resolve(v: Val, path: Seq<char>) -> Option<Val>
    decreases path.len(), path.len() + 1,
    via spec_resolve_decreases
{
    if path.len() == 0 {
        Some(v)
    } else {
        match v {
            Val::Mapping(es) => spec_resolve_map(es, path, path.len() as int),
            Val::Sequence(items) => {
                let d = find_from(path, '.', 0);
                let seg = path.take(d);
                if is_digits(seg) && seg.len() > 0 && digits_value(seg) < items.len() {
                    spec_resolve(
                        items[digits_value(seg) as int],
                        if d < path.len() {
                            path.skip(d + 1)
                        } else {
                            Seq::empty()
                        },
                    )
                } else {
                    None
                }
            },
            _ => None,
        }
    }
}

/// Prefix search inside a mapping: try the longest prefix that ends before a
/// dot left of `cut`, commit to it if it is a key, otherwise shrink; with no
/// dot left, try the whole path as a literal key.
pub open spec fn spec_resolve_map(
    es: Seq<(Seq<char>, Val)>,
    path: Seq<char>,
    cut: int,
) -> Option<Val>
    decreases path.len(), cut,
    when cut <= path.len()
    via spec_resolve_map_decreases
{
    let d = rfind_before(path, '.', cut);
    if d >= 0 {
        match lookup(es, path.take(d)) {
            Some(inner) => spec_resolve(inner, path.skip(d + 1)),
            None => spec_resolve_map(es, path, d),
        }
    } else {
        lookup(es, path)
    }
}

#[via_fn]
proof fn spec_resolve_decreases(v: Val, path: Seq<char>) {
    if path.len() > 0 {
        match v {
            Val::Sequence(items) => {
                crate::text::lemma_find_from(path, '.', 0);
            },
            _ => {},
        }
    }
}

#[via_fn]
proof fn spec_resolve_map_decreases(es: Seq<(Seq<char>, Val)>, path: Seq<char>, cut: int) {
    if 0 <= cut <= path.len() {
        crate::text::lemma_rfind_before(path, '.', cut);
    }
}

/// The empty path addresses the value itself.
pub proof fn lemma_resolve_empty(v: Val)
    ensures
        spec_resolve(v, Seq::<char>::empty()) == Some(v),
{
}

/// Resolve `path` against `value`, returning the addressed sub-value.
pub fn resolve<'a>(value: &'a Value, path: &str) -> (r: Option<&'a Value>)
    ensures
        match r {
            Some(v) => spec_resolve(value@, path@) == Some(v@),
            None => spec_resolve(value@, path@) is None,
        },
    decreases path@.len(), path@.len() + 1,
{
    let n = path.unicode_len();
    if n == 0 {
        return Some(value);
    }
    match value {
        Value::Mapping(m) => resolve_map(m, path, n),
        Value::Sequence(items) => {
            let count = items.len();
            let d = crate::text::find_char_from(path, '.', 0);
            let seg = path.substring_char(0, d);
            proof {
                assert(seg@ =~= path@.take(d as int));
                crate::value::lemma_vals_of_len(items@);
            }
            match crate::text::parse_index(seg) {
                Some(idx) => {
                    if idx < count {
                        proof {
                            crate::value::lemma_vals_of_index(items@, idx as int);
                        }
                        let rest = if d < n {
                            path.substring_char(d + 1, n)
                        } else {
                            path.substring_char(n, n)
                        };
                        proof {
                            if d < n {
                                assert(rest@ =~= path@.skip(d + 1));
                            } else {
                                assert(rest@ =~= Seq::<char>::empty());
                            }
                        }
                        resolve(&items[idx], rest)
                    } else {
                        None
                    }
                },
                None => {
                    proof {
                        if is_digits(seg@) && seg@.len() > 0 {
                            assert(digits_value(seg@) > usize::MAX);
                        }
                    }
                    None
                },
            }
        },
        _ => None,
    }
}

/// The mapping arm of [`resolve`]: prefix search left of `cut`.
fn resolve_map<'a>(m: &'a Mapping, path: &str, cut: usize) -> (r: Option<&'a Value>)
    requires
        cut <= path@.len(),
        path@.len() > 0,
    ensures
        match r {
            Some(v) => spec_resolve_map(m@, path@, cut as int) == Some(v@),
            None => spec_resolve_map(m@, path@, cut as int) is None,
        },
    decreases path@.len(), cut,
{
    let n = path.unicode_len();
    match crate::text::rfind_char_before(path, '.', cut) {
        Some(d) => {
            proof {
                crate::text::lemma_rfind_before(path@, '.', cut as int);
            }
            let prefix = path.substring_char(0, d);
            proof {
                assert(prefix@ =~= path@.take(d as int));
            }
            match m.get(prefix) {
                Some(inner) => {
                    let rest = path.substring_char(d + 1, n);
                    proof {
                        assert(rest@ =~= path@.skip(d + 1));
                    }
                    resolve(inner, rest)
                },
                None => resolve_map(m, path, d),
            }
        },
        None => m.get(path),
    }
}

/// Both addressing styles resolve alike: a literal dotted key, and the same
/// segments as a nested tree, both yield the addressed value.
pub proof fn lemma_resolve_both_styles(x: Val)
    ensures
        spec_resolve(Val::Mapping(seq![(seq!['a', '.', 'b'], x)]), seq!['a', '.', 'b']) == Some(x),
        spec_resolve(
            Val::Mapping(seq![(seq!['a'], Val::Mapping(seq![(seq!['b'], x)]))]),
            seq!['a', '.', 'b'],
        ) == Some(x),
{
    let p = seq!['a', '.', 'b'];
    reveal_with_fuel(rfind_before, 4);
    reveal_with_fuel(spec_resolve_map, 3);
    reveal_with_fuel(lookup, 3);
    assert(rfind_before(p, '.', 3) == 1);
    assert(p.take(1) =~= seq!['a']);
    assert(p.skip(2) =~= seq!['b']);

    let flat = seq![(seq!['a', '.', 'b'], x)];
    assert(flat[0].0 != p.take(1));
    assert(lookup(flat, p.take(1)) is None) by {
        assert(flat.drop_first() =~= Seq::<(Seq<char>, Val)>::empty());
    }
    assert(rfind_before(p, '.', 1) == -1);
    assert(flat[0].0 =~= p);
    assert(spec_resolve_map(flat, p, 1) == Some(x));
    assert(spec_resolve_map(flat, p, 3) == spec_resolve_map(flat, p, 1));
    assert(p.len() == 3);
    assert(spec_resolve(Val::Mapping(flat), p) == spec_resolve_map(flat, p, 3));

    let inner = seq![(seq!['b'], x)];
    let nested = seq![(seq!['a'], Val::Mapping(inner))];
    assert(nested[0].0 =~= p.take(1));
    assert(lookup(nested, p.take(1)) == Some(Val::Mapping(inner)));
    let q = p.skip(2);
    assert(spec_resolve(Val::Mapping(inner), q) == spec_resolve_map(inner, q, 1));
    assert(rfind_before(q, '.', 1) == -1);
    assert(inner[0].0 =~= q);
    assert(spec_resolve_map(inner, q, 1) == Some(x));
    assert(q.len() == 1);
    assert(spec_resolve(Val::Mapping(inner), q) == Some(x));
    assert(spec_resolve_map(nested, p, 3) == spec_resolve(Val::Mapping(inner), q));
    assert(spec_resolve(Val::Mapping(nested), p) == spec_resolve_map(nested, p, 3));
}

} // verus!
