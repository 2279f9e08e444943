//! Properties of the reader that hold of every input.
use vstd::prelude::*;
use crate::grammar::{
    insert_pos, parse_body, parse_bracketed, parse_entries, parse_index_value, parse_indexed,
    parse_key, parse_key_value, parse_member, parse_members, parse_numbered_dict, parse_quoted,
    parse_root, parse_unquoted, parse_value, sort_by_index, ws_end, MemberKind,
};
use crate::value::SVal;

verus! {

pub open spec fn sorted_by_index(s: Seq<(int, SVal)>) -> bool {
    forall|i: int, j: int| 0 <= i < j < s.len() ==> s[i].0 <= s[j].0
}

proof fn lemma_insert_pos(sorted: Seq<(int, SVal)>, x: (int, SVal))
    requires
        sorted_by_index(sorted),
    ensures
        0 <= insert_pos(sorted, x) <= sorted.len(),
        forall|i: int| 0 <= i < insert_pos(sorted, x) ==> sorted[i].0 <= x.0,
        forall|i: int| insert_pos(sorted, x) <= i < sorted.len() ==> sorted[i].0 > x.0,
    decreases sorted.len(),
{
    if sorted.len() > 0 {
        let n = sorted.len() as int;
        if sorted.last().0 <= x.0 {
            assert forall|i: int| 0 <= i < insert_pos(sorted, x) implies sorted[i].0 <= x.0 by {
                if i < n - 1 {
                    assert(sorted[i].0 <= sorted[n - 1].0);
                }
            }
        } else {
            let d = sorted.drop_last();
            assert(sorted_by_index(d));
            lemma_insert_pos(d, x);
            assert(insert_pos(sorted, x) == insert_pos(d, x));
            assert forall|i: int| 0 <= i < insert_pos(sorted, x) implies sorted[i].0 <= x.0 by {
                assert(sorted[i] == d[i]);
            }
            assert forall|i: int| insert_pos(sorted, x) <= i < sorted.len() implies sorted[i].0 > x.0 by {
                if i < n - 1 {
                    assert(sorted[i] == d[i]);
                }
            }
        }
    }
}

/// The members of an array come out ordered by their positions, each member
/// exactly once: the result is sorted by position and is a rearrangement of
/// the `position = value` pairs as they stood in the text.
pub proof fn lemma_array_index_order(pairs: Seq<(int, SVal)>)
    ensures
        sorted_by_index(sort_by_index(pairs)),
        sort_by_index(pairs).to_multiset() == pairs.to_multiset(),
        sort_by_index(pairs).len() == pairs.len(),
    decreases pairs.len(),
{
    broadcast use vstd::seq_lib::to_multiset_insert, vstd::seq_lib::to_multiset_build;
    if pairs.len() > 0 {
        let rest = pairs.drop_last();
        let x = pairs.last();
        lemma_array_index_order(rest);
        let sorted = sort_by_index(rest);
        lemma_insert_pos(sorted, x);
        let k = insert_pos(sorted, x);
        let r = sorted.insert(k, x);
        assert(sort_by_index(pairs) == r);
        assert forall|i: int, j: int| 0 <= i < j < r.len() implies r[i].0 <= r[j].0 by {
            if j < k {
            } else if j == k {
            } else if i < k {
                assert(r[j] == sorted[j - 1]);
            } else if i == k {
                assert(r[j] == sorted[j - 1]);
            } else {
                assert(r[i] == sorted[i - 1] && r[j] == sorted[j - 1]);
            }
        }
        assert(pairs =~= rest.push(x));
    }
}

/// A dict body keeps every member, equal keys included, in the order of the
/// text: the returned positions increase, the first is where the body
/// starts, and the member read at the `i`-th of them is the `i`-th entry.
pub proof fn lemma_dict_keeps_input_order(s: Seq<u8>, p: int) -> (ps: Seq<int>)
    requires
        parse_entries(s, p) is Some,
    ensures
        ps.len() == parse_entries(s, p)->Some_0.0.len(),
        ps.len() > 0 ==> ps[0] == p,
        forall|i: int, j: int| 0 <= i < j < ps.len() ==> ps[i] < ps[j],
        forall|i: int|
            0 <= i < ps.len() ==> #[trigger] parse_key_value(s, ps[i]) is Some && parse_key_value(
                s,
                ps[i],
            )->Some_0.0 == parse_entries(s, p)->Some_0.0[i],
    decreases s.len() - p,
{
    let entries = parse_entries(s, p)->Some_0.0;
    if entries.len() == 0 {
        Seq::empty()
    } else {
        let (kv, e) = parse_key_value(s, p)->Some_0;
        let w = ws_end(s, e);
        if w == s.len() || s[w] == 125 {
            seq![p]
        } else {
            let rest = lemma_dict_keeps_input_order(s, w);
            assert(entries == seq![kv] + parse_entries(s, w)->Some_0.0);
            let ps = seq![p] + rest;
            assert forall|i: int, j: int| 0 <= i < j < ps.len() implies ps[i] < ps[j] by {
                if i > 0 {
                    assert(ps[i] == rest[i - 1] && ps[j] == rest[j - 1]);
                } else if rest.len() > 0 {
                    assert(ps[j] == rest[j - 1]);
                    if j - 1 > 0 {
                        assert(rest[0] < rest[j - 1]);
                    }
                }
            }
            assert forall|i: int| 0 <= i < ps.len() implies #[trigger] parse_key_value(s, ps[i]) is Some
                && parse_key_value(s, ps[i])->Some_0.0 == entries[i] by {
                if i > 0 {
                    assert(ps[i] == rest[i - 1]);
                }
            }
            ps
        }
    }
}

/// The reader is a function of the bytes alone: equal texts give equal trees.
pub proof fn lemma_parse_deterministic(s1: Seq<u8>, s2: Seq<u8>)
    requires
        s1 == s2,
    ensures
        parse_root(s1) == parse_root(s2),
{
}


/// Whether `t` is a contiguous range of `s`.
pub open spec fn is_slice_of(t: Seq<u8>, s: Seq<u8>) -> bool {
    exists|a: int, b: int| 0 <= a <= b <= s.len() && t == s.subrange(a, b)
}

/// Whether every string, identifier and decimal leaf of `v`, and every dict
/// key in it, is a contiguous range of `s`.
pub open spec fn leaves_in(v: SVal, s: Seq<u8>) -> bool
    decreases v,
{
    match v {
        SVal::Dict(es) => forall|i: int|
            0 <= i < es.len() ==> is_slice_of(#[trigger] es[i].0, s) && leaves_in(es[i].1, s),
        SVal::NumberedDict(_, es) => forall|i: int|
            0 <= i < es.len() ==> is_slice_of(#[trigger] es[i].0, s) && leaves_in(es[i].1, s),
        SVal::Array(items) => forall|i: int| 0 <= i < items.len() ==> leaves_in(#[trigger] items[i], s),
        SVal::List(items) => forall|i: int| 0 <= i < items.len() ==> leaves_in(#[trigger] items[i], s),
        SVal::StringLiteral(t) => is_slice_of(t, s),
        SVal::Decimal(t) => is_slice_of(t, s),
        SVal::Identifier(t) => is_slice_of(t, s),
        _ => true,
    }
}

proof fn lemma_slice(s: Seq<u8>, a: int, b: int)
    requires
        0 <= a <= b <= s.len(),
    ensures
        is_slice_of(s.subrange(a, b), s),
{
    assert(s.subrange(a, b) == s.subrange(a, b));
}

pub open spec fn all_leaves_in(items: Seq<SVal>, s: Seq<u8>) -> bool {
    forall|i: int| 0 <= i < items.len() ==> leaves_in(#[trigger] items[i], s)
}

pub open spec fn all_entries_in(es: Seq<(Seq<u8>, SVal)>, s: Seq<u8>) -> bool {
    forall|i: int| 0 <= i < es.len() ==> is_slice_of(#[trigger] es[i].0, s) && leaves_in(es[i].1, s)
}

proof fn lemma_unquoted_leaves(s: Seq<u8>, p: int)
    requires
        parse_unquoted(s, p) is Some,
        0 <= p <= s.len(),
    ensures
        leaves_in(parse_unquoted(s, p)->Some_0.0, s),
{
    let d = crate::grammar::decimal_end(s, p);
    if d >= 0 {
        crate::scan::lemma_run_end_bounds(crate::scan::CharClass::Digit, s, crate::number::sign_end(s, p));
        let a = crate::number::integer_end(s, p);
        crate::scan::lemma_run_end_bounds(crate::scan::CharClass::Digit, s, a + 1);
        lemma_slice(s, p, d);
    } else if crate::number::has_integer(s, p) {
    } else {
        crate::scan::lemma_run_end_bounds(crate::scan::CharClass::Identifier, s, p);
        lemma_slice(s, p, crate::scan::run_end(crate::scan::CharClass::Identifier, s, p));
    }
}

proof fn lemma_quoted_leaves(s: Seq<u8>, p: int)
    requires
        parse_quoted(s, p) is Some,
    ensures
        leaves_in(parse_quoted(s, p)->Some_0.0, s),
{
    let e = crate::grammar::quoted_end(s, p);
    crate::scan::lemma_run_end_bounds(crate::scan::CharClass::StringLiteralContents, s, p + 1);
    lemma_slice(s, p + 1, e - 1);
}

proof fn lemma_key_leaves(s: Seq<u8>, p: int)
    requires
        parse_key(s, p) is Some,
        0 <= p <= s.len(),
    ensures
        is_slice_of(parse_key(s, p)->Some_0.0, s),
{
    if 0 <= p < s.len() && crate::grammar::is_identifier_start(s[p]) {
        crate::scan::lemma_run_end_bounds(crate::scan::CharClass::Identifier, s, p);
        lemma_slice(s, p, crate::scan::run_end(crate::scan::CharClass::Identifier, s, p));
    } else {
        let e = crate::grammar::quoted_end(s, p);
        crate::scan::lemma_run_end_bounds(crate::scan::CharClass::StringLiteralContents, s, p + 1);
        lemma_slice(s, p + 1, e - 1);
    }
}

proof fn lemma_value_leaves(s: Seq<u8>, p: int)
    requires
        parse_value(s, p) is Some,
    ensures
        leaves_in(parse_value(s, p)->Some_0.0, s),
    decreases s.len() - p, 4nat,
{
    if s[p] == 123 {
        lemma_bracketed_leaves(s, p);
    } else if s[p] == 34 {
        lemma_quoted_leaves(s, p);
    } else {
        lemma_unquoted_leaves(s, p);
    }
}

proof fn lemma_bracketed_leaves(s: Seq<u8>, p: int)
    requires
        parse_bracketed(s, p) is Some,
    ensures
        leaves_in(parse_bracketed(s, p)->Some_0.0, s),
    decreases s.len() - p, 3nat,
{
    let q = ws_end(s, p + 1);
    lemma_body_leaves(s, q);
}

proof fn lemma_body_leaves(s: Seq<u8>, q: int)
    requires
        parse_body(s, q) is Some,
    ensures
        leaves_in(parse_body(s, q)->Some_0.0, s),
    decreases s.len() - q, 9nat,
{
    let t = crate::grammar::token_search(s, q);
    if s[t] == 125 {
        lemma_members_leaves(s, q, MemberKind::Value);
    } else if s[t] == 61 {
        if crate::number::has_integer(s, q) {
            lemma_indexed_leaves(s, q);
            let pairs = parse_indexed(s, q)->Some_0.0;
            let sorted = sort_by_index(pairs);
            lemma_array_index_order(pairs);
            let items = sorted.map_values(|x: (int, SVal)| x.1);
            assert forall|i: int| 0 <= i < items.len() implies leaves_in(#[trigger] items[i], s) by {
                broadcast use vstd::seq_lib::to_multiset_contains;
                assert(sorted.contains(sorted[i]));
                assert(sorted.to_multiset().count(sorted[i]) > 0);
                assert(pairs.to_multiset().count(sorted[i]) > 0);
                assert(pairs.contains(sorted[i]));
                let j = choose|j: int| 0 <= j < pairs.len() && pairs[j] == sorted[i];
                assert(leaves_in(pairs[j].1, s));
            }
        } else {
            lemma_entries_leaves(s, q);
        }
    } else {
        if crate::number::has_integer(s, q) {
            lemma_members_leaves(s, q, MemberKind::Numbered);
        } else {
            lemma_members_leaves(s, q, MemberKind::Bracketed);
        }
    }
}

proof fn lemma_key_value_leaves(s: Seq<u8>, p: int)
    requires
        parse_key_value(s, p) is Some,
    ensures
        is_slice_of(parse_key_value(s, p)->Some_0.0.0, s),
        leaves_in(parse_key_value(s, p)->Some_0.0.1, s),
    decreases s.len() - p, 5nat,
{
    let (k, e) = parse_key(s, p)->Some_0;
    lemma_key_leaves(s, p);
    let a = ws_end(s, e);
    let b = ws_end(s, a + 1);
    lemma_value_leaves(s, b);
}

proof fn lemma_index_value_leaves(s: Seq<u8>, p: int)
    requires
        parse_index_value(s, p) is Some,
    ensures
        leaves_in(parse_index_value(s, p)->Some_0.0.1, s),
    decreases s.len() - p, 5nat,
{
    let e = crate::scan::run_end(crate::scan::CharClass::Digit, s, p);
    let a = ws_end(s, e);
    let b = ws_end(s, a + 1);
    lemma_value_leaves(s, b);
}

proof fn lemma_numbered_leaves(s: Seq<u8>, p: int)
    requires
        parse_numbered_dict(s, p) is Some,
    ensures
        leaves_in(parse_numbered_dict(s, p)->Some_0.0, s),
    decreases s.len() - p, 5nat,
{
    let e = crate::number::integer_end(s, p);
    let w = ws_end(s, e);
    let q = ws_end(s, w + 1);
    lemma_entries_leaves(s, q);
}

proof fn lemma_member_leaves(s: Seq<u8>, p: int, kind: MemberKind)
    requires
        parse_member(s, p, kind) is Some,
    ensures
        leaves_in(parse_member(s, p, kind)->Some_0.0, s),
    decreases s.len() - p, 6nat,
{
    match kind {
        MemberKind::Value => lemma_value_leaves(s, p),
        MemberKind::Bracketed => lemma_bracketed_leaves(s, p),
        MemberKind::Numbered => lemma_numbered_leaves(s, p),
    }
}

proof fn lemma_members_leaves(s: Seq<u8>, p: int, kind: MemberKind)
    requires
        parse_members(s, p, kind) is Some,
    ensures
        all_leaves_in(parse_members(s, p, kind)->Some_0.0, s),
    decreases s.len() - p, 8nat,
{
    if !crate::grammar::at_list_end(s, p) {
        let (v, e) = parse_member(s, p, kind)->Some_0;
        lemma_member_leaves(s, p, kind);
        let w = ws_end(s, e);
        if !crate::grammar::at_list_end(s, w) {
            lemma_members_leaves(s, w, kind);
            let rest = parse_members(s, w, kind)->Some_0.0;
            let all = seq![v] + rest;
            assert forall|i: int| 0 <= i < all.len() implies leaves_in(#[trigger] all[i], s) by {
                if i > 0 {
                    assert(all[i] == rest[i - 1]);
                }
            }
        } else {
            assert(seq![v][0] == v);
        }
    }
}

proof fn lemma_entries_leaves(s: Seq<u8>, p: int)
    requires
        parse_entries(s, p) is Some,
    ensures
        all_entries_in(parse_entries(s, p)->Some_0.0, s),
    decreases s.len() - p, 8nat,
{
    if !crate::grammar::at_list_end(s, p) {
        let (kv, e) = parse_key_value(s, p)->Some_0;
        lemma_key_value_leaves(s, p);
        let w = ws_end(s, e);
        if !crate::grammar::at_list_end(s, w) {
            lemma_entries_leaves(s, w);
            let rest = parse_entries(s, w)->Some_0.0;
            let all = seq![kv] + rest;
            assert forall|i: int| 0 <= i < all.len() implies is_slice_of(#[trigger] all[i].0, s) && leaves_in(all[i].1, s) by {
                if i > 0 {
                    assert(all[i] == rest[i - 1]);
                }
            }
        } else {
            assert(seq![kv][0] == kv);
        }
    }
}

proof fn lemma_indexed_leaves(s: Seq<u8>, p: int)
    requires
        parse_indexed(s, p) is Some,
    ensures
        forall|i: int| 0 <= i < parse_indexed(s, p)->Some_0.0.len() ==> leaves_in(#[trigger] parse_indexed(s, p)->Some_0.0[i].1, s),
    decreases s.len() - p, 8nat,
{
    if !crate::grammar::at_list_end(s, p) {
        let (iv, e) = parse_index_value(s, p)->Some_0;
        lemma_index_value_leaves(s, p);
        let w = ws_end(s, e);
        if !crate::grammar::at_list_end(s, w) {
            lemma_indexed_leaves(s, w);
            let rest = parse_indexed(s, w)->Some_0.0;
            let all = seq![iv] + rest;
            assert forall|i: int| 0 <= i < all.len() implies leaves_in(#[trigger] all[i].1, s) by {
                if i > 0 {
                    assert(all[i] == rest[i - 1]);
                }
            }
        } else {
            assert(seq![iv][0] == iv);
        }
    }
}

/// Every string leaf, identifier, decimal text and dict key of a parsed
/// document is a contiguous range of the text it was read from.
pub proof fn lemma_leaves_are_slices_of_input(s: Seq<u8>)
    requires
        parse_root(s) is Some,
    ensures
        leaves_in(parse_root(s)->Some_0, s),
{
    lemma_entries_leaves(s, ws_end(s, 0));
}

} // verus!
