//! The key unifier: folds a flat attribute listing, whose names encode
//! hierarchy with `.` and alternative selection with `@`, into one nested
//! mapping; and the companion pruning step that drops empty containers.
//!
//! A flat key splits at its first `@` into a selector and a remainder. A key
//! with an empty selector is inserted directly under the remainder name. Any
//! other key is grouped under the part of its selector before the first `.`;
//! each group's shortened keys are unified recursively, and a group whose
//! recursive result has exactly one entry is hoisted: the single entry is
//! re-keyed `group.key` (with outer dots trimmed) instead of nesting a
//! one-entry mapping. Direct entries land in the order the listing gives
//! them, then one entry per group in first-encounter order; callers must not
//! read meaning into the order across groups.

use vstd::prelude::*;

use crate::assoc::{distinct_keys, store};
use crate::text::{find_from, trim_dots_spec};
use crate::value::{entries_of, val_of, Mapping, Val, Value};

verus! {

/// Index of the first `@`, or the key's length.
pub open spec fn at_pos(k: Seq<char>) -> int {
    find_from(k, '@', 0)
}

/// The selector: everything before the first `@`.
pub open spec fn selector(k: Seq<char>) -> Seq<char> {
    k.take(at_pos(k))
}

/// A key with an empty selector is inserted directly, not grouped.
pub open spec fn is_direct(k: Seq<char>) -> bool {
    selector(k).len() == 0
}

/// The name a direct key is inserted under: what follows its `@`.
pub open spec fn direct_key(k: Seq<char>) -> Seq<char> {
    if at_pos(k) < k.len() {
        k.skip(at_pos(k) + 1)
    } else {
        Seq::empty()
    }
}

/// Index of the first `.` inside the selector, or the selector's length.
pub open spec fn dot_pos(k: Seq<char>) -> int {
    find_from(selector(k), '.', 0)
}

/// The group a non-direct key belongs to: its selector up to the first `.`.
pub open spec fn group_of(k: Seq<char>) -> Seq<char> {
    selector(k).take(dot_pos(k))
}

/// How many leading characters grouping consumes from the key.
pub open spec fn shrink_of(k: Seq<char>) -> int {
    if dot_pos(k) + 1 < selector(k).len() {
        dot_pos(k) + 1
    } else {
        dot_pos(k)
    }
}

/// What remains of a grouped key for the recursive pass.
pub open spec fn member_key(k: Seq<char>) -> Seq<char> {
    k.skip(shrink_of(k))
}

/// A well-formed flat key: empty, starting with `@`, or dotted sanely — it
/// does not begin with `.`, and every `.` is followed by a character that is
/// neither `.` nor `@`. Grouping consumes at least one character from such a
/// key, so unification of well-formed listings terminates; a listing whose
/// dots sit immediately before `@` or at a key's edge could make a group
/// reproduce itself forever.
pub open spec fn wf_flat_key(k: Seq<char>) -> bool {
    k.len() == 0 || k[0] == '@' || (k[0] != '.' && forall|i: int|
        #![trigger k[i]]
        0 <= i < k.len() && k[i] == '.' ==> i + 1 < k.len() && k[i + 1] != '.' && k[i + 1] != '@')
}

/// A listing `unify` accepts: a single attribute, or well-formed keys only.
pub open spec fn wf_props(props: Seq<(Seq<char>, Val)>) -> bool {
    props.len() == 1 || forall|i: int| 0 <= i < props.len() ==> wf_flat_key((#[trigger] props[i]).0)
}

/// All keys are well-formed.
pub open spec fn wf_keys(props: Seq<(Seq<char>, Val)>) -> bool {
    forall|i: int| 0 <= i < props.len() ==> wf_flat_key((#[trigger] props[i]).0)
}

/// Total length of the keys: the measure grouping shrinks.
pub open spec fn key_len_sum(props: Seq<(Seq<char>, Val)>) -> nat
    decreases props.len(),
{
    if props.len() == 0 {
        0
    } else {
        props[0].0.len() + key_len_sum(props.drop_first())
    }
}

/// The members of group `g`: the shortened keys of the props grouped under
/// `g`, in listing order.
pub open spec fn members_of(props: Seq<(Seq<char>, Val)>, g: Seq<char>) -> Seq<(Seq<char>, Val)>
    decreases props.len(),
{
    if props.len() == 0 {
        Seq::empty()
    } else {
        let head: Seq<(Seq<char>, Val)> = if !is_direct(props[0].0) && group_of(props[0].0) == g {
            seq![(member_key(props[0].0), props[0].1)]
        } else {
            Seq::empty()
        };
        head + members_of(props.drop_first(), g)
    }
}

/// Whether position `i` is the first occurrence of its group.
pub open spec fn first_of_group(props: Seq<(Seq<char>, Val)>, i: int) -> bool {
    &&& 0 <= i < props.len()
    &&& !is_direct(props[i].0)
    &&& forall|j: int|
        0 <= j < i ==> !(!is_direct((#[trigger] props[j]).0) && group_of(props[j].0) == group_of(
            props[i].0,
        ))
}

/// On a well-formed non-direct key, grouping consumes at least one character
/// and hands on a well-formed member key.
pub proof fn lemma_member_key(k: Seq<char>)
    requires
        wf_flat_key(k),
        !is_direct(k),
    ensures
        1 <= shrink_of(k) <= k.len(),
        member_key(k).len() == k.len() - shrink_of(k),
        wf_flat_key(member_key(k)),
{
    crate::text::lemma_find_from(k, '@', 0);
    let a = at_pos(k);
    let sel = selector(k);
    assert(sel.len() == a);
    crate::text::lemma_find_from(sel, '.', 0);
    let d = dot_pos(k);
    assert(k[0] != '@' && k.len() > 0);
    assert(k[0] != '.');
    let m = member_key(k);
    if d < sel.len() {
        // a dot exists inside the selector
        assert(sel[d] == '.');
        assert(k[d] == '.');
        assert(d + 1 < k.len() && k[d + 1] != '.' && k[d + 1] != '@');
        if d + 1 < sel.len() {
            assert(shrink_of(k) == d + 1);
            assert(m =~= k.skip(d + 1));
            assert(m[0] == k[d + 1]);
            assert(m[0] != '.' && m[0] != '@');
            if m.len() > 0 && m[0] != '@' {
                assert forall|i: int|
                    #![trigger m[i]]
                    0 <= i < m.len() && m[i] == '.' implies i + 1 < m.len() && m[i + 1] != '.'
                    && m[i + 1] != '@' by {
                    assert(m[i] == k[d + 1 + i]);
                    assert(k[d + 1 + i] == '.');
                    assert(k[d + 1 + i + 1] != '.' && k[d + 1 + i + 1] != '@');
                    assert(m[i + 1] == k[d + 1 + i + 1]);
                }
            }
        } else {
            // the dot would sit at the selector's end, which well-formedness
            // rules out: the next character is `@` or the key ends
            assert(d == sel.len() - 1);
            if a < k.len() {
                assert(k[a] == '@');
                assert(d + 1 == a);
                assert(false);
            } else {
                assert(d + 1 == k.len());
                assert(false);
            }
        }
    } else {
        // no dot in the selector: the member starts at the `@` or is empty
        assert(d == sel.len());
        assert(shrink_of(k) == sel.len());
        assert(m =~= k.skip(a));
        if a < k.len() {
            assert(k[a] == '@');
            assert(m[0] == '@');
        }
    }
}

/// Group members carry well-formed keys.
pub proof fn lemma_members_wf(props: Seq<(Seq<char>, Val)>, g: Seq<char>)
    requires
        wf_keys(props),
    ensures
        wf_keys(members_of(props, g)),
        wf_props(members_of(props, g)),
    decreases props.len(),
{
    if props.len() > 0 {
        assert(wf_keys(props.drop_first())) by {
            assert(forall|i: int|
                0 <= i < props.drop_first().len() ==> (#[trigger] props.drop_first()[i])
                    == props[i + 1]);
        }
        lemma_members_wf(props.drop_first(), g);
        let rest = members_of(props.drop_first(), g);
        let all = members_of(props, g);
        if !is_direct(props[0].0) && group_of(props[0].0) == g {
            lemma_member_key(props[0].0);
            assert(all == seq![(member_key(props[0].0), props[0].1)] + rest);
            assert(forall|i: int| 1 <= i < all.len() ==> (#[trigger] all[i]) == rest[i - 1]);
            assert(all[0].0 == member_key(props[0].0));
        } else {
            assert(all =~= rest);
        }
    }
}

/// Grouping strictly shrinks the total key length: the members of a group
/// are together shorter than the listing, by at least one character each.
pub proof fn lemma_members_sum(props: Seq<(Seq<char>, Val)>, g: Seq<char>)
    requires
        wf_keys(props),
    ensures
        key_len_sum(members_of(props, g)) + members_of(props, g).len() <= key_len_sum(props),
    decreases props.len(),
{
    if props.len() > 0 {
        assert(wf_keys(props.drop_first())) by {
            assert(forall|i: int|
                0 <= i < props.drop_first().len() ==> (#[trigger] props.drop_first()[i])
                    == props[i + 1]);
        }
        lemma_members_sum(props.drop_first(), g);
        let rest = members_of(props.drop_first(), g);
        let all = members_of(props, g);
        if !is_direct(props[0].0) && group_of(props[0].0) == g {
            lemma_member_key(props[0].0);
            let e = (member_key(props[0].0), props[0].1);
            assert(all == seq![e] + rest);
            assert(all.drop_first() =~= rest);
            assert(key_len_sum(all) == e.0.len() + key_len_sum(rest));
            assert(e.0.len() + 1 <= props[0].0.len());
        } else {
            assert(all =~= rest);
        }
    }
}

/// A grouped prop at `i` guarantees its group has at least one member.
pub proof fn lemma_members_nonempty(props: Seq<(Seq<char>, Val)>, i: int)
    requires
        0 <= i < props.len(),
        !is_direct(props[i].0),
    ensures
        members_of(props, group_of(props[i].0)).len() >= 1,
    decreases props.len(),
{
    let g = group_of(props[i].0);
    if i == 0 {
        assert(members_of(props, g).len() >= 1);
    } else {
        assert(props.drop_first()[i - 1] == props[i]);
        lemma_members_nonempty(props.drop_first(), i - 1);
        assert(members_of(props, g).len() >= members_of(props.drop_first(), g).len());
    }
}


/// Insert the direct entries of `props[i..]` into `acc`, in listing order.
pub open spec fn insert_directs(
    acc: Seq<(Seq<char>, Val)>,
    props: Seq<(Seq<char>, Val)>,
    i: int,
) -> Seq<(Seq<char>, Val)>
    decreases props.len() - i,
{
    if i < 0 || i >= props.len() {
        acc
    } else if is_direct(props[i].0) {
        insert_directs(store(acc, direct_key(props[i].0), props[i].1), props, i + 1)
    } else {
        insert_directs(acc, props, i + 1)
    }
}

/// What a unified listing looks like: a single attribute keeps its own flat
/// name; otherwise the direct entries land first, then one entry per group
/// in first-encounter order, each group unified recursively and hoisted when
/// it collapses to a single entry.
pub open spec fn spec_unify(props: Seq<(Seq<char>, Val)>) -> Seq<(Seq<char>, Val)>
    decreases key_len_sum(props), 1int, 0int,
    when wf_props(props)
    via spec_unify_decreases
{
    if props.len() == 1 {
        seq![(props[0].0, props[0].1)]
    } else {
        insert_groups(insert_directs(Seq::empty(), props, 0), props, 0)
    }
}

/// Insert one entry per group first encountered in `props[i..]` into `acc`.
pub open spec fn insert_groups(
    acc: Seq<(Seq<char>, Val)>,
    props: Seq<(Seq<char>, Val)>,
    i: int,
) -> Seq<(Seq<char>, Val)>
    decreases key_len_sum(props), 0int, props.len() - i,
    when wf_keys(props)
    via insert_groups_decreases
{
    if i < 0 || i >= props.len() {
        acc
    } else if first_of_group(props, i) {
        let g = group_of(props[i].0);
        let sub = spec_unify(members_of(props, g));
        let entry: (Seq<char>, Val) = if sub.len() == 1 {
            (trim_dots_spec(g + seq!['.'] + sub[0].0), sub[0].1)
        } else {
            (g, Val::Mapping(sub))
        };
        insert_groups(store(acc, entry.0, entry.1), props, i + 1)
    } else {
        insert_groups(acc, props, i + 1)
    }
}

#[via_fn]
proof fn spec_unify_decreases(props: Seq<(Seq<char>, Val)>) {
}

#[via_fn]
proof fn insert_groups_decreases(
    acc: Seq<(Seq<char>, Val)>,
    props: Seq<(Seq<char>, Val)>,
    i: int,
) {
    if 0 <= i < props.len() && first_of_group(props, i) {
        let g = group_of(props[i].0);
        lemma_members_wf(props, g);
        lemma_members_sum(props, g);
        lemma_members_nonempty(props, i);
    }
}


/// Post-order pruning of a mapping's entries: prune nested mappings first,
/// then drop entries whose value is an empty mapping or an empty sequence.
/// Non-empty leaves are never removed, and nothing inside sequences or
/// tagged wrappers is touched.
pub open spec fn prune_entries(es: Seq<(Seq<char>, Val)>) -> Seq<(Seq<char>, Val)>
    decreases es,
{
    if es.len() == 0 {
        Seq::empty()
    } else {
        let rest = prune_entries(es.drop_first());
        match es[0].1 {
            Val::Mapping(inner) => {
                let p = prune_entries(inner);
                if p.len() == 0 {
                    rest
                } else {
                    seq![(es[0].0, Val::Mapping(p))] + rest
                }
            },
            Val::Sequence(items) => if items.len() == 0 {
                rest
            } else {
                seq![es[0]] + rest
            },
            _ => seq![es[0]] + rest,
        }
    }
}

/// Pruning twice is pruning once.
pub proof fn lemma_prune_idempotent(es: Seq<(Seq<char>, Val)>)
    ensures
        prune_entries(prune_entries(es)) == prune_entries(es),
    decreases es,
{
    if es.len() > 0 {
        lemma_prune_idempotent(es.drop_first());
        let rest = prune_entries(es.drop_first());
        match es[0].1 {
            Val::Mapping(inner) => {
                let p = prune_entries(inner);
                lemma_prune_idempotent(inner);
                if p.len() == 0 {
                    assert(prune_entries(es) == rest);
                } else {
                    let e = (es[0].0, Val::Mapping(p));
                    let whole = seq![e] + rest;
                    assert(whole[0] == e);
                    assert(whole.drop_first() =~= rest);
                    assert(prune_entries(whole) == seq![(e.0, Val::Mapping(prune_entries(p)))]
                        + prune_entries(rest));
                    assert(prune_entries(p) == p);
                }
            },
            Val::Sequence(items) => {
                if items.len() > 0 {
                    let whole = seq![es[0]] + rest;
                    assert(whole[0] == es[0]);
                    assert(whole.drop_first() =~= rest);
                }
            },
            _ => {
                let whole = seq![es[0]] + rest;
                assert(whole[0] == es[0]);
                assert(whole.drop_first() =~= rest);
            },
        }
    }
}

/// A single attribute unifies to exactly the one-entry mapping that keeps
/// its flat name.
pub proof fn lemma_unify_single(k: Seq<char>, v: Val)
    ensures
        spec_unify(seq![(k, v)]) == seq![(k, v)],
{
    let props = seq![(k, v)];
    assert(props.len() == 1);
    assert(props[0] == (k, v));
}


/// Split positions of one key: where its `@` sits, where the selector's
/// first `.` sits, and how much grouping consumes.
fn key_shape(k: &str) -> (r: (usize, usize, usize))
    ensures
        r.0 == at_pos(k@),
        r.1 == dot_pos(k@),
        r.2 == shrink_of(k@),
        r.1 <= r.0 <= k@.len(),
        r.2 <= r.0,
{
    let at = crate::text::find_char_from(k, '@', 0);
    let dp = crate::text::find_char_from(k, '.', 0);
    let d = if dp < at {
        dp
    } else {
        at
    };
    proof {
        let sel = selector(k@);
        assert(sel =~= k@.take(at as int));
        crate::text::lemma_find_from(sel, '.', 0);
        let f = find_from(sel, '.', 0);
        if dp < at {
            assert(sel[dp as int] == k@[dp as int]);
            assert(sel[dp as int] == '.');
            if f < dp {
                assert(sel[f] == '.');
                assert(k@[f] == sel[f]);
                assert(k@[f] != '.');
            }
            if f > dp {
                assert(sel[dp as int] != '.');
            }
            assert(f == dp);
        } else {
            if f < sel.len() {
                assert(sel[f] == '.');
                assert(k@[f] == sel[f]);
                assert(f < dp);
                assert(k@[f] != '.');
            }
            assert(f == at as int);
        }
    }
    let s = if d < at && d + 1 < at {
        d + 1
    } else {
        d
    };
    proof {
        assert(selector(k@).len() == at);
        if d < at && d + 1 < at {
            assert(s == shrink_of(k@));
        } else {
            assert(!(dot_pos(k@) + 1 < selector(k@).len()));
            assert(s == shrink_of(k@));
        }
    }
    (at, d, s)
}

/// Whether `unify` accepts this flat key in a listing of several.
pub fn check_flat_key(k: &str) -> (r: bool)
    ensures
        r == wf_flat_key(k@),
{
    let n = k.unicode_len();
    if n == 0 {
        return true;
    }
    let c0 = k.get_char(0);
    if c0 == '@' {
        return true;
    }
    if c0 == '.' {
        return false;
    }
    let mut i: usize = 0;
    while i < n
        invariant
            i <= n,
            n == k@.len(),
            n > 0,
            k@[0] != '@',
            k@[0] != '.',
            forall|j: int|
                #![trigger k@[j]]
                0 <= j < i && k@[j] == '.' ==> j + 1 < n && k@[j + 1] != '.' && k@[j + 1] != '@',
        decreases n - i,
    {
        if k.get_char(i) == '.' {
            if i + 1 >= n {
                return false;
            }
            let c = k.get_char(i + 1);
            if c == '.' || c == '@' {
                return false;
            }
        }
        i = i + 1;
    }
    true
}

/// Rebuild pruned entries: prune nested mappings post-order, drop entries
/// holding an empty mapping or an empty sequence.
#[verifier::loop_isolation(false)]
fn prune_vec(entries: Vec<(String, Value)>) -> (r: Vec<(String, Value)>)
    ensures
        entries_of(r@) == prune_entries(entries_of(entries@)),
    decreases entries,
{
    let mut rest = entries;
    let mut out: Vec<(String, Value)> = Vec::new();
    let ghost orig = rest@;
    let ghost mut idx: int = 0;
    while rest.len() > 0
        invariant
            0 <= idx <= orig.len(),
            rest@ == orig.skip(idx),
            idx + rest@.len() == orig.len(),
            entries_of(out@) + prune_entries(entries_of(rest@)) == prune_entries(entries_of(orig)),
        decreases rest@.len(),
    {
        let (key, value) = rest.remove(0);
        proof {
            assert(rest@ =~= orig.skip(idx + 1));
            assert((key, value) == orig[idx]);
            assert(entries_of(orig.skip(idx))[0] == (key@, val_of(value))) by {
                crate::value::lemma_entries_of_index(orig.skip(idx), 0);
            }
            assert(entries_of(orig.skip(idx)).drop_first() =~= entries_of(orig.skip(idx + 1))) by {
                crate::value::lemma_entries_of_len(orig.skip(idx));
                crate::value::lemma_entries_of_len(orig.skip(idx + 1));
                assert forall|j: int|
                    0 <= j < entries_of(orig.skip(idx + 1)).len() implies entries_of(
                    orig.skip(idx),
                ).drop_first()[j] == entries_of(orig.skip(idx + 1))[j] by {
                    crate::value::lemma_entries_of_index(orig.skip(idx), j + 1);
                    crate::value::lemma_entries_of_index(orig.skip(idx + 1), j);
                    assert(orig.skip(idx)[j + 1] == orig.skip(idx + 1)[j]);
                }
            }
        }
        let ghost out_pre = out@;
        match value {
            Value::Mapping(m) => {
                proof {
                    assert(value == orig[idx].1);
                }
                let pruned = prune_vec(m.entries);
                if pruned.len() > 0 {
                    let kept = Value::Mapping(Mapping { entries: pruned });
                    let ghost e = (key, kept);
                    out.push((key, kept));
                    proof {
                        crate::value::lemma_entries_of_push(out_pre, e);
                        crate::value::lemma_entries_of_len(pruned@);
                    }
                } else {
                    proof {
                        crate::value::lemma_entries_of_len(pruned@);
                    }
                }
            },
            Value::Sequence(items) => {
                proof {
                    crate::value::lemma_vals_of_len(items@);
                }
                if items.len() > 0 {
                    let kept = Value::Sequence(items);
                    let ghost e = (key, kept);
                    out.push((key, kept));
                    proof {
                        crate::value::lemma_entries_of_push(out_pre, e);
                    }
                }
            },
            other => {
                let ghost e = (key, other);
                out.push((key, other));
                proof {
                    crate::value::lemma_entries_of_push(out_pre, e);
                }
            },
        }
        proof {
            idx = idx + 1;
        }
    }
    proof {
        assert(rest@ =~= Seq::<(String, Value)>::empty());
        assert(entries_of(rest@) =~= Seq::<(Seq<char>, Val)>::empty());
    }
    out
}

/// Recursively remove every entry whose value is an empty mapping or an
/// empty sequence, pruning nested mappings first.
pub fn remove_empty(mapping: &mut Mapping)
    ensures
        final(mapping)@ == prune_entries(old(mapping)@),
{
    let mut taken: Vec<(String, Value)> = Vec::new();
    core::mem::swap(&mut mapping.entries, &mut taken);
    let pruned = prune_vec(taken);
    mapping.entries = pruned;
}


/// Extending a listing by one prop extends each group's members by that
/// prop's contribution.
pub proof fn lemma_members_of_push(
    props: Seq<(Seq<char>, Val)>,
    p: (Seq<char>, Val),
    g: Seq<char>,
)
    ensures
        members_of(props.push(p), g) == members_of(props, g) + (if !is_direct(p.0) && group_of(p.0)
            == g {
            seq![(member_key(p.0), p.1)]
        } else {
            Seq::<(Seq<char>, Val)>::empty()
        }),
    decreases props.len(),
{
    let added: Seq<(Seq<char>, Val)> = if !is_direct(p.0) && group_of(p.0) == g {
        seq![(member_key(p.0), p.1)]
    } else {
        Seq::empty()
    };
    if props.len() == 0 {
        reveal_with_fuel(members_of, 2);
        assert(props.push(p)[0] == p);
        assert(props.push(p).drop_first() =~= Seq::<(Seq<char>, Val)>::empty());
        assert(members_of(props.push(p), g) =~= members_of(props, g) + added);
    } else {
        assert(props.push(p)[0] == props[0]);
        assert(props.push(p).drop_first() =~= props.drop_first().push(p));
        lemma_members_of_push(props.drop_first(), p, g);
        let head: Seq<(Seq<char>, Val)> = if !is_direct(props[0].0) && group_of(props[0].0) == g {
            seq![(member_key(props[0].0), props[0].1)]
        } else {
            Seq::empty()
        };
        assert(members_of(props.push(p), g) == head + (members_of(props.drop_first(), g)
            + added));
        assert(head + (members_of(props.drop_first(), g) + added) =~= (head + members_of(
            props.drop_first(),
            g,
        )) + added);
    }
}

/// Unify a flat attribute listing into one nested mapping. A single
/// attribute keeps its flat name; several are grouped by their selectors.
#[verifier::loop_isolation(false)]
pub fn unify(props: Vec<(String, Value)>) -> (r: Mapping)
    requires
        wf_props(entries_of(props@)),
    ensures
        r@ == spec_unify(entries_of(props@)),
        distinct_keys(r@),
        wf_entry_vals(entries_of(props@)) ==> crate::value::wf_val(Val::Mapping(r@)),
    decreases key_len_sum(entries_of(props@)),
{
    proof {
        lemma_unify_distinct(entries_of(props@));
        if wf_entry_vals(entries_of(props@)) {
            lemma_unify_wf(entries_of(props@));
        }
    }
    let ghost gvec = props@;
    let ghost gprops = entries_of(props@);
    proof {
        crate::value::lemma_entries_of_len(props@);
    }
    let n = props.len();
    if n == 1 {
        let mut single = props;
        let (k, v) = single.remove(0);
        proof {
            crate::value::lemma_entries_of_index(gvec, 0);
        }
        let mut m = Mapping::new();
        m.insert(k, v);
        proof {
            assert(gprops[0] == (k@, val_of(v)));
            assert(m@ =~= seq![(gprops[0].0, gprops[0].1)]);
        }
        return m;
    }
    proof {
        assert(wf_keys(gprops));
    }
    let mut out = Mapping::new();
    let mut i: usize = 0;
    while i < n
        invariant
            i <= n,
            insert_directs(Seq::empty(), gprops, 0) == insert_directs(out@, gprops, i as int),
        decreases n - i,
    {
        proof {
            crate::value::lemma_entries_of_index(gvec, i as int);
        }
        let (at, _, _) = key_shape(props[i].0.as_str());
        if at == 0 {
            proof {
                assert(selector(gprops[i as int].0).len() == 0);
            }
            let klen = props[i].0.unicode_len();
            let dk: String = if klen > 0 {
                let tail = props[i].0.as_str().substring_char(1, klen);
                String::from_str(tail)
            } else {
                String::new()
            };
            proof {
                if klen > 0 {
                    assert(dk@ =~= direct_key(gprops[i as int].0));
                } else {
                    assert(dk@ =~= direct_key(gprops[i as int].0));
                }
            }
            let value = crate::value::deep_clone(&props[i].1);
            let ghost out_pre = out@;
            out.insert(dk, value);
            proof {
                assert(insert_directs(out_pre, gprops, i as int) == insert_directs(
                    out@,
                    gprops,
                    i + 1,
                ));
            }
        } else {
            proof {
                assert(!is_direct(gprops[i as int].0));
            }
        }
        i = i + 1;
    }
    let ghost acc1 = out@;
    proof {
        assert(acc1 == insert_directs(Seq::empty(), gprops, 0));
    }
    let mut i2: usize = 0;
    while i2 < n
        invariant
            i2 <= n,
            insert_groups(acc1, gprops, 0) == insert_groups(out@, gprops, i2 as int),
        decreases n - i2,
    {
        proof {
            crate::value::lemma_entries_of_index(gvec, i2 as int);
        }
        let (at_i, d_i, _) = key_shape(props[i2].0.as_str());
        if at_i > 0 {
            let g: &str = props[i2].0.as_str().substring_char(0, d_i);
            proof {
                assert(g@ =~= group_of(gprops[i2 as int].0));
                assert(!is_direct(gprops[i2 as int].0));
            }
            let mut seen = false;
            let mut j: usize = 0;
            while j < i2
                invariant
                    j <= i2,
                    !seen ==> forall|jj: int|
                        0 <= jj < j ==> !(!is_direct((#[trigger] gprops[jj]).0) && group_of(
                            gprops[jj].0,
                        ) == group_of(gprops[i2 as int].0)),
                    seen ==> !first_of_group(gprops, i2 as int),
                decreases i2 - j,
            {
                proof {
                    crate::value::lemma_entries_of_index(gvec, j as int);
                }
                let (at_j, d_j, _) = key_shape(props[j].0.as_str());
                if at_j > 0 {
                    let gj: &str = props[j].0.as_str().substring_char(0, d_j);
                    proof {
                        assert(gj@ =~= group_of(gprops[j as int].0));
                        assert(!is_direct(gprops[j as int].0));
                    }
                    if crate::text::str_eq(gj, g) {
                        seen = true;
                    }
                }
                j = j + 1;
            }
            if !seen {
                proof {
                    assert(first_of_group(gprops, i2 as int));
                }
                let mut members: Vec<(String, Value)> = Vec::new();
                proof {
                    assert(gprops.take(0) =~= Seq::<(Seq<char>, Val)>::empty());
                }
                let mut j2: usize = 0;
                while j2 < n
                    invariant
                        j2 <= n,
                        entries_of(members@) == members_of(gprops.take(j2 as int), g@),
                    decreases n - j2,
                {
                    proof {
                        crate::value::lemma_entries_of_index(gvec, j2 as int);
                        assert(gprops.take(j2 + 1) =~= gprops.take(j2 as int).push(
                            gprops[j2 as int],
                        ));
                        lemma_members_of_push(gprops.take(j2 as int), gprops[j2 as int], g@);
                    }
                    let (at_j, d_j, sh_j) = key_shape(props[j2].0.as_str());
                    if at_j > 0 {
                        let gj: &str = props[j2].0.as_str().substring_char(0, d_j);
                        proof {
                            assert(gj@ =~= group_of(gprops[j2 as int].0));
                            assert(!is_direct(gprops[j2 as int].0));
                        }
                        if crate::text::str_eq(gj, g) {
                            let klen = props[j2].0.unicode_len();
                            let mstr: &str = props[j2].0.as_str().substring_char(sh_j, klen);
                            proof {
                                assert(mstr@ =~= member_key(gprops[j2 as int].0));
                            }
                            let mkey = String::from_str(mstr);
                            let mval = crate::value::deep_clone(&props[j2].1);
                            let ghost mem_pre = members@;
                            let ghost e = (mkey, mval);
                            members.push((mkey, mval));
                            proof {
                                crate::value::lemma_entries_of_push(mem_pre, e);
                                assert(entries_of(members@) =~= members_of(
                                    gprops.take(j2 + 1),
                                    g@,
                                ));
                            }
                        } else {
                            proof {
                                assert(entries_of(members@) =~= members_of(
                                    gprops.take(j2 + 1),
                                    g@,
                                ));
                            }
                        }
                    } else {
                        proof {
                            assert(is_direct(gprops[j2 as int].0));
                            assert(entries_of(members@) =~= members_of(gprops.take(j2 + 1), g@));
                        }
                    }
                    j2 = j2 + 1;
                }
                proof {
                    assert(gprops.take(n as int) =~= gprops);
                    assert(entries_of(members@) == members_of(gprops, g@));
                    lemma_members_wf(gprops, g@);
                    lemma_members_sum(gprops, g@);
                    lemma_members_nonempty(gprops, i2 as int);
                }
                let sub: Mapping = unify(members);
                let ghost gsub = sub@;
                let ghost out_pre = out@;
                if sub.len() == 1 {
                    let mut hk = String::from_str(g);
                    hk.append(".");
                    hk.append(sub.key_at(0).as_str());
                    let trimmed = crate::text::trim_dots(hk.as_str());
                    proof {
                        reveal_strlit(".");
                        assert((".")@ =~= seq!['.']);
                        assert(hk@ == group_of(gprops[i2 as int].0) + seq!['.'] + gsub[0].0);
                        assert(trimmed@ == trim_dots_spec(
                            group_of(gprops[i2 as int].0) + seq!['.'] + gsub[0].0,
                        ));
                    }
                    let v0 = crate::value::deep_clone(sub.value_at(0));
                    out.insert(trimmed, v0);
                    proof {
                        assert(insert_groups(out_pre, gprops, i2 as int) == insert_groups(
                            out@,
                            gprops,
                            i2 + 1,
                        ));
                    }
                } else {
                    let gk = String::from_str(g);
                    out.insert(gk, Value::Mapping(sub));
                    proof {
                        assert(insert_groups(out_pre, gprops, i2 as int) == insert_groups(
                            out@,
                            gprops,
                            i2 + 1,
                        ));
                    }
                }
            }
        } else {
            proof {
                assert(is_direct(gprops[i2 as int].0));
                assert(!first_of_group(gprops, i2 as int));
            }
        }
        i2 = i2 + 1;
    }
    proof {
        assert(insert_groups(out@, gprops, n as int) == out@);
    }
    out
}


/// Direct insertion keeps mapping keys pairwise distinct.
proof fn lemma_insert_directs_distinct(
    acc: Seq<(Seq<char>, Val)>,
    props: Seq<(Seq<char>, Val)>,
    i: int,
)
    requires
        distinct_keys(acc),
    ensures
        distinct_keys(insert_directs(acc, props, i)),
    decreases props.len() - i,
{
    if 0 <= i < props.len() {
        if is_direct(props[i].0) {
            crate::assoc::lemma_store(acc, direct_key(props[i].0), props[i].1);
            lemma_insert_directs_distinct(
                store(acc, direct_key(props[i].0), props[i].1),
                props,
                i + 1,
            );
        } else {
            lemma_insert_directs_distinct(acc, props, i + 1);
        }
    }
}

/// Group insertion keeps mapping keys pairwise distinct.
proof fn lemma_insert_groups_distinct(
    acc: Seq<(Seq<char>, Val)>,
    props: Seq<(Seq<char>, Val)>,
    i: int,
)
    requires
        distinct_keys(acc),
        wf_keys(props),
    ensures
        distinct_keys(insert_groups(acc, props, i)),
    decreases props.len() - i,
{
    if 0 <= i < props.len() {
        if first_of_group(props, i) {
            let g = group_of(props[i].0);
            lemma_members_wf(props, g);
            let sub = spec_unify(members_of(props, g));
            let entry: (Seq<char>, Val) = if sub.len() == 1 {
                (trim_dots_spec(g + seq!['.'] + sub[0].0), sub[0].1)
            } else {
                (g, Val::Mapping(sub))
            };
            crate::assoc::lemma_store(acc, entry.0, entry.1);
            lemma_insert_groups_distinct(store(acc, entry.0, entry.1), props, i + 1);
        } else {
            lemma_insert_groups_distinct(acc, props, i + 1);
        }
    }
}

/// A unified mapping has pairwise distinct keys, as the value-tree invariant
/// demands of every mapping.
pub proof fn lemma_unify_distinct(props: Seq<(Seq<char>, Val)>)
    requires
        wf_props(props),
    ensures
        distinct_keys(spec_unify(props)),
{
    if props.len() == 1 {
        let r = spec_unify(props);
        assert(r.len() == 1);
        assert(distinct_keys(r));
    } else {
        lemma_insert_directs_distinct(Seq::empty(), props, 0);
        lemma_insert_groups_distinct(insert_directs(Seq::empty(), props, 0), props, 0);
    }
}


/// Every entry value is a well-formed tree.
pub open spec fn wf_entry_vals(es: Seq<(Seq<char>, Val)>) -> bool {
    forall|i: int| 0 <= i < es.len() ==> crate::value::wf_val((#[trigger] es[i]).1)
}

/// Storing a well-formed value among well-formed values keeps them so.
proof fn lemma_store_wf_vals(es: Seq<(Seq<char>, Val)>, k: Seq<char>, v: Val)
    requires
        wf_entry_vals(es),
        crate::value::wf_val(v),
    ensures
        wf_entry_vals(store(es, k, v)),
{
    let r = store(es, k, v);
    if crate::assoc::has_key(es, k) {
        crate::assoc::lemma_index_of_key(es, k);
        let d = crate::assoc::index_of_key(es, k);
        assert forall|i: int| 0 <= i < r.len() implies crate::value::wf_val(
            (#[trigger] r[i]).1,
        ) by {
            if i != d {
                assert(r[i] == es[i]);
            } else {
                assert(r[i] == (k, v));
            }
        }
    } else {
        assert forall|i: int| 0 <= i < r.len() implies crate::value::wf_val(
            (#[trigger] r[i]).1,
        ) by {
            if i < es.len() {
                assert(r[i] == es[i]);
            } else {
                assert(r[i] == (k, v));
            }
        }
    }
}

/// Group members carry the listing's own values.
proof fn lemma_members_vals(props: Seq<(Seq<char>, Val)>, g: Seq<char>)
    requires
        wf_entry_vals(props),
    ensures
        wf_entry_vals(members_of(props, g)),
    decreases props.len(),
{
    if props.len() > 0 {
        assert(wf_entry_vals(props.drop_first())) by {
            assert(forall|i: int|
                0 <= i < props.drop_first().len() ==> (#[trigger] props.drop_first()[i]) == props[i
                    + 1]);
        }
        lemma_members_vals(props.drop_first(), g);
        let rest = members_of(props.drop_first(), g);
        let all = members_of(props, g);
        if !is_direct(props[0].0) && group_of(props[0].0) == g {
            assert(forall|i: int| 1 <= i < all.len() ==> (#[trigger] all[i]) == rest[i - 1]);
            assert(all[0].1 == props[0].1);
        } else {
            assert(all =~= rest);
        }
    }
}

/// Direct insertion keeps every entry value well-formed.
proof fn lemma_insert_directs_wf_vals(
    acc: Seq<(Seq<char>, Val)>,
    props: Seq<(Seq<char>, Val)>,
    i: int,
)
    requires
        wf_entry_vals(acc),
        wf_entry_vals(props),
    ensures
        wf_entry_vals(insert_directs(acc, props, i)),
    decreases props.len() - i,
{
    if 0 <= i < props.len() {
        if is_direct(props[i].0) {
            lemma_store_wf_vals(acc, direct_key(props[i].0), props[i].1);
            lemma_insert_directs_wf_vals(
                store(acc, direct_key(props[i].0), props[i].1),
                props,
                i + 1,
            );
        } else {
            lemma_insert_directs_wf_vals(acc, props, i + 1);
        }
    }
}

/// Group insertion keeps every entry value well-formed: each group's
/// recursive result is itself a well-formed mapping.
proof fn lemma_insert_groups_wf_vals(
    acc: Seq<(Seq<char>, Val)>,
    props: Seq<(Seq<char>, Val)>,
    i: int,
)
    requires
        wf_entry_vals(acc),
        wf_entry_vals(props),
        wf_keys(props),
    ensures
        wf_entry_vals(insert_groups(acc, props, i)),
    decreases key_len_sum(props), 0int, props.len() - i,
{
    if 0 <= i < props.len() {
        if first_of_group(props, i) {
            let g = group_of(props[i].0);
            lemma_members_wf(props, g);
            lemma_members_vals(props, g);
            lemma_members_sum(props, g);
            lemma_members_nonempty(props, i);
            lemma_unify_wf(members_of(props, g));
            let sub = spec_unify(members_of(props, g));
            let entry: (Seq<char>, Val) = if sub.len() == 1 {
                (trim_dots_spec(g + seq!['.'] + sub[0].0), sub[0].1)
            } else {
                (g, Val::Mapping(sub))
            };
            assert(crate::value::wf_val(entry.1));
            lemma_store_wf_vals(acc, entry.0, entry.1);
            lemma_insert_groups_wf_vals(store(acc, entry.0, entry.1), props, i + 1);
        } else {
            lemma_insert_groups_wf_vals(acc, props, i + 1);
        }
    }
}

/// Unification builds a well-formed tree: the result's keys are distinct and
/// so are the keys of every mapping nested anywhere inside it, provided the
/// attribute values themselves were well-formed.
pub proof fn lemma_unify_wf(props: Seq<(Seq<char>, Val)>)
    requires
        wf_props(props),
        wf_entry_vals(props),
    ensures
        crate::value::wf_val(Val::Mapping(spec_unify(props))),
    decreases key_len_sum(props), 1int, 0int,
{
    lemma_unify_distinct(props);
    let r = spec_unify(props);
    if props.len() == 1 {
        assert(r == seq![(props[0].0, props[0].1)]);
        assert forall|i: int| 0 <= i < r.len() implies crate::value::wf_val(
            (#[trigger] r[i]).1,
        ) by {
            assert(r[i] == (props[0].0, props[0].1));
        }
    } else {
        lemma_insert_directs_wf_vals(Seq::empty(), props, 0);
        lemma_insert_groups_wf_vals(insert_directs(Seq::empty(), props, 0), props, 0);
    }
}

/// Every key of a pruned mapping was a key of the mapping before.
proof fn lemma_prune_keys(es: Seq<(Seq<char>, Val)>)
    ensures
        forall|j: int|
            0 <= j < prune_entries(es).len() ==> crate::assoc::has_key(
                es,
                (#[trigger] prune_entries(es)[j]).0,
            ),
    decreases es,
{
    if es.len() > 0 {
        lemma_prune_keys(es.drop_first());
        let rest = prune_entries(es.drop_first());
        let p = prune_entries(es);
        assert forall|j: int| 0 <= j < p.len() implies crate::assoc::has_key(
            es,
            (#[trigger] p[j]).0,
        ) by {
            let kept = p.len() > rest.len();
            if kept && j == 0 {
                assert(p[0].0 == es[0].0);
                assert(es[0].0 == es[0].0);
            } else {
                let jr = if kept {
                    j - 1
                } else {
                    j
                };
                assert(p[j] == rest[jr]);
                assert(crate::assoc::has_key(es.drop_first(), rest[jr].0));
                let w = choose|w: int|
                    0 <= w < es.drop_first().len() && es.drop_first()[w].0 == rest[jr].0;
                assert(es[w + 1].0 == rest[jr].0);
            }
        }
    }
}

/// Pruning keeps a tree well-formed: keys stay distinct at every level and
/// the surviving values stay well-formed.
pub proof fn lemma_prune_wf(es: Seq<(Seq<char>, Val)>)
    requires
        crate::value::wf_val(Val::Mapping(es)),
    ensures
        crate::value::wf_val(Val::Mapping(prune_entries(es))),
    decreases es,
{
    if es.len() > 0 {
        let rest0 = es.drop_first();
        assert(crate::value::wf_val(Val::Mapping(rest0))) by {
            assert(forall|i: int|
                0 <= i < rest0.len() ==> (#[trigger] rest0[i]) == es[i + 1]);
        }
        lemma_prune_wf(rest0);
        lemma_prune_keys(rest0);
        let rest = prune_entries(rest0);
        let p = prune_entries(es);
        let kept = p.len() > rest.len();
        if kept {
            assert(p.drop_first() =~= rest);
            assert(crate::value::wf_val(p[0].1)) by {
                assert(crate::value::wf_val(es[0].1));
                match es[0].1 {
                    Val::Mapping(inner) => {
                        lemma_prune_wf(inner);
                    },
                    _ => {},
                }
            }
            assert(p[0].0 == es[0].0);
            assert forall|i: int, j: int| 0 <= i < j < p.len() implies p[i].0 != p[j].0 by {
                if i == 0 {
                    assert(crate::assoc::has_key(rest0, rest[j - 1].0));
                    let w = choose|w: int| 0 <= w < rest0.len() && rest0[w].0 == rest[j - 1].0;
                    assert(es[w + 1].0 == rest[j - 1].0);
                    assert(es[0].0 != es[w + 1].0);
                    assert(p[j] == rest[j - 1]);
                } else {
                    assert(p[i] == rest[i - 1] && p[j] == rest[j - 1]);
                }
            }
            assert forall|i: int| 0 <= i < p.len() implies crate::value::wf_val(
                (#[trigger] p[i]).1,
            ) by {
                if i > 0 {
                    assert(p[i] == rest[i - 1]);
                }
            }
        } else {
            assert(p =~= rest);
        }
    }
}

} // verus!
