//! Reading the canonical text of a well-formed tree gives the tree back.
use vstd::prelude::*;
use crate::date::{date_fields, date_of, is_calendar_date, is_date_shaped, date_field_ends};
use crate::format::{
    document_text, entries_text, entry_text, indexed_text, int_text, items_text, nat_text, quote,
    text_of, two_digit_text,
};
use crate::grammar::{
    at_list_end, decimal_end, insert_pos, is_identifier_start, parse_body, parse_bracketed,
    parse_entries, parse_index_value, parse_indexed, parse_key, parse_key_value, parse_member,
    parse_members, parse_numbered_dict, parse_quoted, parse_root, parse_unquoted, parse_value,
    quoted_end, sort_by_index, token_search, ws_end, MemberKind,
};
use crate::number::{digits_value, has_integer, in_i64, integer_end, integer_value, sign_end};
use crate::scan::{in_class, is_space_byte, is_token_byte, lemma_run_end_bounds, run_end, CharClass};
use crate::value::SVal;

verus! {

/// Whether every byte of `t` is in `c`.
pub open spec fn all_in(t: Seq<u8>, c: CharClass) -> bool {
    forall|k: int| 0 <= k < t.len() ==> in_class(c, #[trigger] t[k])
}

/// Whether `t` stands in `s` at `a`, followed by at least one more byte.
pub open spec fn stands_at(s: Seq<u8>, a: int, t: Seq<u8>) -> bool {
    0 <= a && a + t.len() < s.len() && s.subrange(a, a + t.len()) == t
}

proof fn lemma_byte_at(s: Seq<u8>, a: int, t: Seq<u8>, k: int)
    requires
        stands_at(s, a, t),
        0 <= k < t.len(),
    ensures
        s[a + k] == t[k],
{
    assert(s.subrange(a, a + t.len())[k] == s[a + k]);
}

/// A run over text standing in `s` ends where it ends in the text, when the
/// byte after the text is outside the class.
proof fn lemma_run_end_local(c: CharClass, s: Seq<u8>, a: int, t: Seq<u8>, k: int)
    requires
        stands_at(s, a, t),
        0 <= k <= t.len(),
        !in_class(c, s[a + t.len()]) || run_end(c, t, k) < t.len(),
    ensures
        run_end(c, s, a + k) == a + run_end(c, t, k),
    decreases t.len() - k,
{
    if k < t.len() {
        lemma_byte_at(s, a, t, k);
        if in_class(c, t[k]) {
            lemma_run_end_local(c, s, a, t, k + 1);
        }
    }
}

proof fn lemma_run_end_all(c: CharClass, t: Seq<u8>, k: int)
    requires
        all_in(t, c),
        0 <= k <= t.len(),
    ensures
        run_end(c, t, k) == t.len(),
    decreases t.len() - k,
{
    if k < t.len() {
        lemma_run_end_all(c, t, k + 1);
    }
}

proof fn lemma_nat_text(n: nat)
    ensures
        nat_text(n).len() >= 1,
        all_in(nat_text(n), CharClass::Digit),
        digits_value(nat_text(n)) == n,
    decreases n,
{
    if n >= 10 {
        lemma_nat_text(n / 10);
        let t = nat_text(n);
        assert(t.drop_last() == nat_text(n / 10));
        assert(t.last() == (48 + n % 10) as u8);
        assert((n / 10) * 10 + n % 10 == n) by (nonlinear_arith);
        assert(digits_value(t) == digits_value(t.drop_last()) * 10 + (t.last() - 48) as nat);
        assert(all_in(t, CharClass::Digit)) by {
            assert forall|k: int| 0 <= k < t.len() implies in_class(CharClass::Digit, #[trigger] t[k]) by {
                if k < t.len() - 1 {
                    assert(t[k] == nat_text(n / 10)[k]);
                }
            }
        }
    } else {
        assert(nat_text(n).drop_last() =~= Seq::<u8>::empty());
        assert(digits_value(Seq::<u8>::empty()) == 0);
    }
}


proof fn lemma_two_digit_text(n: nat)
    ensures
        two_digit_text(n).len() >= 1,
        all_in(two_digit_text(n), CharClass::Digit),
        digits_value(two_digit_text(n)) == n,
{
    if n < 10 {
        let t = two_digit_text(n);
        assert(t.drop_last() =~= seq![48u8]);
        assert(seq![48u8].drop_last() =~= Seq::<u8>::empty());
        assert(digits_value(Seq::<u8>::empty()) == 0);
        assert(seq![48u8].last() == 48);
        assert(digits_value(seq![48u8]) == digits_value(seq![48u8].drop_last()) * 10 + 0);
        assert(digits_value(seq![48u8]) == 0);
    } else {
        lemma_nat_text(n);
    }
}

proof fn lemma_run_end_to_end(c: CharClass, s: Seq<u8>, k: int)
    requires
        0 <= k <= s.len(),
        forall|j: int| k <= j < s.len() ==> in_class(c, #[trigger] s[j]),
    ensures
        run_end(c, s, k) == s.len(),
    decreases s.len() - k,
{
    if k < s.len() {
        lemma_run_end_to_end(c, s, k + 1);
    }
}

/// The text of a leaf that reads back as itself.
pub open spec fn wf_leaf(v: SVal) -> bool {
    match v {
        SVal::StringLiteral(t) => all_in(t, CharClass::StringLiteralContents) && date_of(t) is None,
        SVal::Date(y, m, d) => 0 <= y && is_calendar_date(y, m, d),
        SVal::Decimal(t) => decimal_end(t, 0) == t.len(),
        SVal::Integer(i) => in_i64(i),
        SVal::Identifier(t) => t.len() > 0 && is_identifier_start(t[0]) && run_end(
            CharClass::Identifier,
            t,
            0,
        ) == t.len(),
        _ => false,
    }
}

pub open spec fn date_text(y: int, m: int, d: int) -> Seq<u8> {
    int_text(y) + seq![46u8] + two_digit_text(m as nat) + seq![46u8] + two_digit_text(d as nat)
}

proof fn lemma_date_text(y: int, m: int, d: int)
    requires
        0 <= y,
        is_calendar_date(y, m, d),
    ensures
        all_in(date_text(y, m, d), CharClass::StringLiteralContents),
        date_of(date_text(y, m, d)) == Some((y, m, d)),
{
    let a_t = nat_text(y as nat);
    let b_t = two_digit_text(m as nat);
    let c_t = two_digit_text(d as nat);
    lemma_nat_text(y as nat);
    lemma_two_digit_text(m as nat);
    lemma_two_digit_text(d as nat);
    let c = date_text(y, m, d);
    assert(c =~= a_t + seq![46u8] + b_t + seq![46u8] + c_t);
    let la = a_t.len() as int;
    let lb = b_t.len() as int;
    let lc = c_t.len() as int;
    assert forall|k: int| 0 <= k < c.len() implies in_class(CharClass::StringLiteralContents, #[trigger] c[k]) by {
        if k < la {
            assert(c[k] == a_t[k]);
            assert(in_class(CharClass::Digit, a_t[k]));
        } else if k == la {
        } else if k < la + 1 + lb {
            assert(c[k] == b_t[k - la - 1]);
            assert(in_class(CharClass::Digit, b_t[k - la - 1]));
        } else if k == la + 1 + lb {
        } else {
            assert(c[k] == c_t[k - la - 2 - lb]);
            assert(in_class(CharClass::Digit, c_t[k - la - 2 - lb]));
        }
    }
    assert(c.subrange(0, la) =~= a_t);
    assert(c.subrange(la + 1, la + 1 + lb) =~= b_t);
    assert(c.subrange(la + 2 + lb, c.len() as int) =~= c_t);
    lemma_run_end_local(CharClass::Digit, c, 0, a_t, 0);
    lemma_run_end_all(CharClass::Digit, a_t, 0);
    lemma_run_end_local(CharClass::Digit, c, la + 1, b_t, 0);
    lemma_run_end_all(CharClass::Digit, b_t, 0);
    assert forall|j: int| la + 2 + lb <= j < c.len() implies in_class(CharClass::Digit, #[trigger] c[j]) by {
        assert(c[j] == c_t[j - la - 2 - lb]);
    }
    lemma_run_end_to_end(CharClass::Digit, c, la + 2 + lb);
    assert(date_field_ends(c) == (la, la + 1 + lb, c.len() as int));
    assert(is_date_shaped(c));
    assert(date_fields(c) == (y, m, d));
}

/// A leaf's canonical text, followed by whitespace, reads back as the leaf.
pub proof fn lemma_leaf_round_trip(v: SVal, s: Seq<u8>, a: int)
    requires
        wf_leaf(v),
        stands_at(s, a, text_of(v)),
        is_space_byte(s[a + text_of(v).len()]),
    ensures
        parse_value(s, a) == Some((v, a + text_of(v).len())),
{
    let t = text_of(v);
    let e = a + t.len();
    match v {
        SVal::Integer(i) => {
            let n = if i < 0 { (-i) as nat } else { i as nat };
            lemma_nat_text(n);
            let k: int = if i < 0 { 1 } else { 0 };
            assert forall|j: int| k <= j < t.len() implies in_class(CharClass::Digit, #[trigger] t[j]) by {
                assert(t[j] == nat_text(n)[j - k]);
            }
            lemma_run_end_to_end(CharClass::Digit, t, k);
            lemma_byte_at(s, a, t, 0);
            lemma_run_end_local(CharClass::Digit, s, a, t, k);
            assert(sign_end(s, a) == a + k);
            assert(integer_end(s, a) == e);
            assert(s.subrange(a + k, e) =~= nat_text(n)) by {
                assert forall|j: int| 0 <= j < nat_text(n).len() implies s.subrange(a + k, e)[j] == nat_text(n)[j] by {
                    lemma_byte_at(s, a, t, j + k);
                }
            }
            assert(decimal_end(s, a) == -1);
            assert(parse_unquoted(s, a) == Some((v, e)));
        },
        SVal::Decimal(d) => {
            let q = sign_end(d, 0);
            lemma_byte_at(s, a, t, 0);
            assert(sign_end(s, a) == a + q);
            lemma_run_end_local(CharClass::Digit, s, a, t, q);
            let ia = integer_end(d, 0);
            lemma_byte_at(s, a, t, ia);
            lemma_run_end_local(CharClass::Digit, s, a, t, ia + 1);
            assert(decimal_end(s, a) == e);
            assert(s.subrange(a, e) == d);
            assert(parse_unquoted(s, a) == Some((v, e)));
        },
        SVal::Identifier(d) => {
            lemma_byte_at(s, a, t, 0);
            assert(sign_end(s, a) == a);
            assert(integer_end(s, a) == a);
            lemma_run_end_local(CharClass::Identifier, s, a, t, 0);
            assert(parse_unquoted(s, a) == Some((v, e)));
        },
        SVal::StringLiteral(c) => {
            assert(t =~= seq![34u8] + c + seq![34u8]);
            lemma_byte_at(s, a, t, 0);
            lemma_byte_at(s, a, t, t.len() - 1);
            assert forall|j: int| 1 <= j < t.len() - 1 implies in_class(CharClass::StringLiteralContents, #[trigger] t[j]) by {
                assert(t[j] == c[j - 1]);
            }
            assert(t[t.len() - 1] == 34);
            lemma_run_end_tail(CharClass::StringLiteralContents, t, 1);
            lemma_run_end_local(CharClass::StringLiteralContents, s, a, t, 1);
            assert(quoted_end(s, a) == e);
            assert(s.subrange(a + 1, e - 1) =~= c) by {
                assert forall|j: int| 0 <= j < c.len() implies s.subrange(a + 1, e - 1)[j] == c[j] by {
                    lemma_byte_at(s, a, t, j + 1);
                }
            }
            assert(parse_quoted(s, a) == Some((v, e)));
        },
        SVal::Date(y, m, d) => {
            let c = date_text(y, m, d);
            lemma_date_text(y, m, d);
            assert(t =~= seq![34u8] + c + seq![34u8]);
            lemma_byte_at(s, a, t, 0);
            lemma_byte_at(s, a, t, t.len() - 1);
            assert forall|j: int| 1 <= j < t.len() - 1 implies in_class(CharClass::StringLiteralContents, #[trigger] t[j]) by {
                assert(t[j] == c[j - 1]);
            }
            assert(t[t.len() - 1] == 34);
            lemma_run_end_tail(CharClass::StringLiteralContents, t, 1);
            lemma_run_end_local(CharClass::StringLiteralContents, s, a, t, 1);
            assert(quoted_end(s, a) == e);
            assert(s.subrange(a + 1, e - 1) =~= c) by {
                assert forall|j: int| 0 <= j < c.len() implies s.subrange(a + 1, e - 1)[j] == c[j] by {
                    lemma_byte_at(s, a, t, j + 1);
                }
            }
            assert(parse_quoted(s, a) == Some((v, e)));
        },
        _ => {},
    }
}

/// A run over the inside of a quoted text stops at its closing quote.
proof fn lemma_run_end_tail(c: CharClass, t: Seq<u8>, k: int)
    requires
        1 <= k <= t.len() - 1,
        forall|j: int| 1 <= j < t.len() - 1 ==> in_class(c, #[trigger] t[j]),
        !in_class(c, t[t.len() - 1]),
    ensures
        run_end(c, t, k) == t.len() - 1,
    decreases t.len() - k,
{
    if k < t.len() - 1 {
        lemma_run_end_tail(c, t, k + 1);
    }
}


/// Whether `t` stands in `s` at `a`.
pub open spec fn occurs_at(s: Seq<u8>, a: int, t: Seq<u8>) -> bool {
    0 <= a && a + t.len() <= s.len() && s.subrange(a, a + t.len()) == t
}

proof fn lemma_occurs_byte(s: Seq<u8>, a: int, t: Seq<u8>, k: int)
    requires
        occurs_at(s, a, t),
        0 <= k < t.len(),
    ensures
        s[a + k] == t[k],
{
    assert(s.subrange(a, a + t.len())[k] == s[a + k]);
}

proof fn lemma_occurs_sub(s: Seq<u8>, a: int, t: Seq<u8>, off: int, u: Seq<u8>)
    requires
        occurs_at(s, a, t),
        0 <= off,
        off + u.len() <= t.len(),
        t.subrange(off, off + u.len()) == u,
    ensures
        occurs_at(s, a + off, u),
{
    assert(s.subrange(a + off, a + off + u.len()) =~= u) by {
        assert forall|j: int| 0 <= j < u.len() implies s.subrange(a + off, a + off + u.len())[j] == u[j] by {
            lemma_occurs_byte(s, a, t, off + j);
            assert(u[j] == t.subrange(off, off + u.len())[j]);
        }
    }
}

proof fn lemma_ws_one(s: Seq<u8>, e: int)
    requires
        0 <= e < s.len(),
        is_space_byte(s[e]),
        e + 1 == s.len() || !is_space_byte(s[e + 1]),
    ensures
        ws_end(s, e) == e + 1,
{
    assert(run_end(CharClass::Space, s, e) == run_end(CharClass::Space, s, e + 1));
}

proof fn lemma_token_skip(s: Seq<u8>, q: int, k: int)
    requires
        0 <= q <= k <= s.len(),
        forall|j: int| q <= j < k ==> !is_token_byte(#[trigger] s[j]),
    ensures
        token_search(s, q) == token_search(s, k),
    decreases k - q,
{
    if q < k {
        lemma_token_skip(s, q + 1, k);
    }
}

pub open spec fn is_scalar(v: SVal) -> bool {
    v is StringLiteral || v is Date || v is Decimal || v is Integer || v is Identifier
}

pub open spec fn is_collection(v: SVal) -> bool {
    v is Dict || v is Array || v is List
}

/// A tree whose canonical text reads back as itself: leaves that read back,
/// keys of string-literal bytes, no empty dict or array (their text is that
/// of an empty list), numbered dicts only as the members of a list, and the
/// members of a list all leaves, all braced values, or all numbered dicts.
pub open spec fn wf_tree(v: SVal) -> bool
    decreases v,
{
    match v {
        SVal::Dict(es) => es.len() > 0 && forall|i: int|
            0 <= i < es.len() ==> all_in(#[trigger] es[i].0, CharClass::StringLiteralContents)
                && wf_tree(es[i].1) && !(es[i].1 is NumberedDict),
        SVal::NumberedDict(tag, es) => in_i64(tag) && forall|i: int|
            0 <= i < es.len() ==> all_in(#[trigger] es[i].0, CharClass::StringLiteralContents)
                && wf_tree(es[i].1) && !(es[i].1 is NumberedDict),
        SVal::Array(items) => 0 < items.len() <= i64::MAX && forall|i: int|
            0 <= i < items.len() ==> wf_tree(#[trigger] items[i]) && !(items[i] is NumberedDict),
        SVal::List(items) => (forall|i: int|
            0 <= i < items.len() ==> is_scalar(#[trigger] items[i]) && wf_tree(items[i])) || (
        forall|i: int|
            0 <= i < items.len() ==> is_collection(#[trigger] items[i]) && wf_tree(items[i])) || (
        forall|i: int|
            0 <= i < items.len() ==> (#[trigger] items[i]) is NumberedDict && wf_tree(items[i])),
        _ => wf_leaf(v),
    }
}

pub open spec fn no_tokens(t: Seq<u8>) -> bool {
    forall|k: int| 0 <= k < t.len() ==> !is_token_byte(#[trigger] t[k])
}

pub open spec fn starts_value(b: u8) -> bool {
    !is_space_byte(b) && b != 125
}

/// Facts about the first byte of a canonical text, and that a leaf's text
/// holds no structural byte.
proof fn lemma_text_shape(v: SVal)
    requires
        wf_tree(v),
    ensures
        text_of(v).len() > 0,
        starts_value(text_of(v)[0]),
        is_collection(v) ==> text_of(v)[0] == 123,
        is_scalar(v) ==> no_tokens(text_of(v)),
        v is NumberedDict ==> has_integer(text_of(v), 0),
{
    match v {
        SVal::Integer(i) => {
            let n = if i < 0 { (-i) as nat } else { i as nat };
            lemma_nat_text(n);
            let t = text_of(v);
            assert forall|k: int| 0 <= k < t.len() implies !is_token_byte(#[trigger] t[k]) by {
                if i < 0 {
                    if k > 0 {
                        assert(t[k] == nat_text(n)[k - 1]);
                        assert(in_class(CharClass::Digit, nat_text(n)[k - 1]));
                    }
                } else {
                    assert(in_class(CharClass::Digit, nat_text(n)[k]));
                }
            }
            if i >= 0 {
                assert(in_class(CharClass::Digit, nat_text(n)[0]));
            }
        },
        SVal::Decimal(t) => {
            let q = sign_end(t, 0);
            lemma_run_end_bounds(CharClass::Digit, t, q);
            let a = integer_end(t, 0);
            lemma_run_end_bounds(CharClass::Digit, t, a + 1);
            assert forall|k: int| 0 <= k < t.len() implies !is_token_byte(#[trigger] t[k]) by {
                if k < q {
                } else if k < a {
                    assert(in_class(CharClass::Digit, t[k]));
                } else if k == a {
                } else {
                    assert(in_class(CharClass::Digit, t[k]));
                }
            }
            if q == 0 {
                assert(in_class(CharClass::Digit, t[0]));
            }
        },
        SVal::Identifier(t) => {
            lemma_run_end_bounds(CharClass::Identifier, t, 0);
            assert forall|k: int| 0 <= k < t.len() implies !is_token_byte(#[trigger] t[k]) by {
                assert(in_class(CharClass::Identifier, t[k]));
            }
        },
        SVal::StringLiteral(c) => {
            let t = text_of(v);
            assert(t =~= seq![34u8] + c + seq![34u8]);
            assert forall|k: int| 0 <= k < t.len() implies !is_token_byte(#[trigger] t[k]) by {
                if 0 < k < t.len() - 1 {
                    assert(t[k] == c[k - 1]);
                    assert(in_class(CharClass::StringLiteralContents, c[k - 1]));
                }
            }
        },
        SVal::Date(y, m, d) => {
            let c = date_text(y, m, d);
            lemma_date_text(y, m, d);
            let t = text_of(v);
            assert(t =~= seq![34u8] + c + seq![34u8]);
            assert forall|k: int| 0 <= k < t.len() implies !is_token_byte(#[trigger] t[k]) by {
                if 0 < k < t.len() - 1 {
                    assert(t[k] == c[k - 1]);
                    assert(in_class(CharClass::StringLiteralContents, c[k - 1]));
                }
            }
        },
        SVal::NumberedDict(tag, es) => {
            let n = if tag < 0 { (-tag) as nat } else { tag as nat };
            lemma_nat_text(n);
            let t = text_of(v);
            let it = int_text(tag);
            assert(t.subrange(0, it.len() as int) =~= it);
            let k: int = if tag < 0 { 1 } else { 0 };
            assert(t[k] == nat_text(n)[0]);
            assert(in_class(CharClass::Digit, nat_text(n)[0]));
            lemma_run_end_bounds(CharClass::Digit, t, k);
        },
        _ => {},
    }
}

proof fn lemma_items_prefix(items: Seq<SVal>, m: int, n: int)
    requires
        0 <= m <= n <= items.len(),
    ensures
        items_text(items, m).len() <= items_text(items, n).len(),
        items_text(items, n).subrange(0, items_text(items, m).len() as int) == items_text(items, m),
    decreases n - m,
{
    if m < n {
        lemma_items_prefix(items, m, n - 1);
        let a = items_text(items, n - 1);
        assert(items_text(items, n).subrange(0, a.len() as int) =~= a);
        assert(items_text(items, n).subrange(0, items_text(items, m).len() as int) =~= a.subrange(0, items_text(items, m).len() as int));
    } else {
        assert(items_text(items, n).subrange(0, items_text(items, n).len() as int) =~= items_text(items, n));
    }
}

proof fn lemma_indexed_prefix(items: Seq<SVal>, m: int, n: int)
    requires
        0 <= m <= n <= items.len(),
    ensures
        indexed_text(items, m).len() <= indexed_text(items, n).len(),
        indexed_text(items, n).subrange(0, indexed_text(items, m).len() as int) == indexed_text(items, m),
    decreases n - m,
{
    if m < n {
        lemma_indexed_prefix(items, m, n - 1);
        let a = indexed_text(items, n - 1);
        assert(indexed_text(items, n).subrange(0, a.len() as int) =~= a);
        assert(indexed_text(items, n).subrange(0, indexed_text(items, m).len() as int) =~= a.subrange(0, indexed_text(items, m).len() as int));
    } else {
        assert(indexed_text(items, n).subrange(0, indexed_text(items, n).len() as int) =~= indexed_text(items, n));
    }
}

proof fn lemma_entries_prefix(es: Seq<(Seq<u8>, SVal)>, m: int, n: int, sep: u8)
    requires
        0 <= m <= n <= es.len(),
    ensures
        entries_text(es, m, sep).len() <= entries_text(es, n, sep).len(),
        entries_text(es, n, sep).subrange(0, entries_text(es, m, sep).len() as int) == entries_text(es, m, sep),
    decreases n - m,
{
    if m < n {
        lemma_entries_prefix(es, m, n - 1, sep);
        let a = entries_text(es, n - 1, sep);
        assert(entries_text(es, n, sep).subrange(0, a.len() as int) =~= a);
        assert(entries_text(es, n, sep).subrange(0, entries_text(es, m, sep).len() as int) =~= a.subrange(0, entries_text(es, m, sep).len() as int));
    } else {
        assert(entries_text(es, n, sep).subrange(0, entries_text(es, n, sep).len() as int) =~= entries_text(es, n, sep));
    }
}


proof fn lemma_items_member(items: Seq<SVal>, j: int)
    requires
        0 <= j < items.len(),
    ensures
        items_text(items, j).len() + text_of(items[j]).len() + 1 == items_text(items, j + 1).len(),
        items_text(items, j + 1).len() <= items_text(items, items.len() as int).len(),
        items_text(items, items.len() as int).subrange(
            items_text(items, j).len() as int,
            (items_text(items, j).len() + text_of(items[j]).len()) as int,
        ) == text_of(items[j]),
        items_text(items, items.len() as int)[(items_text(items, j).len() + text_of(items[j]).len()) as int] == 32,
{
    let n = items.len() as int;
    lemma_items_prefix(items, j + 1, n);
    let big = items_text(items, n);
    let q = items_text(items, j + 1);
    let pl = items_text(items, j).len() as int;
    let u = text_of(items[j]);
    assert(q == items_text(items, j) + u + seq![32u8]);
    assert(big.subrange(pl, pl + u.len()) =~= u) by {
        assert forall|k: int| 0 <= k < u.len() implies big.subrange(pl, pl + u.len())[k] == u[k] by {
            assert(big.subrange(0, q.len() as int)[pl + k] == big[pl + k]);
            assert(q[pl + k] == u[k]);
        }
    }
    assert(big.subrange(0, q.len() as int)[pl + u.len()] == big[pl + u.len()]);
}

proof fn lemma_indexed_member(items: Seq<SVal>, j: int)
    requires
        0 <= j < items.len(),
    ensures
        indexed_text(items, j).len() + int_text(j).len() + 1 + text_of(items[j]).len() + 1
            == indexed_text(items, j + 1).len(),
        indexed_text(items, j + 1).len() <= indexed_text(items, items.len() as int).len(),
        indexed_text(items, items.len() as int).subrange(
            indexed_text(items, j).len() as int,
            (indexed_text(items, j).len() + int_text(j).len() + 1 + text_of(items[j]).len()) as int,
        ) == int_text(j) + seq![61u8] + text_of(items[j]),
        indexed_text(items, items.len() as int)[(indexed_text(items, j).len() + int_text(j).len() + 1
            + text_of(items[j]).len()) as int] == 32,
{
    let n = items.len() as int;
    lemma_indexed_prefix(items, j + 1, n);
    let big = indexed_text(items, n);
    let q = indexed_text(items, j + 1);
    let pl = indexed_text(items, j).len() as int;
    let u = int_text(j) + seq![61u8] + text_of(items[j]);
    assert(q =~= indexed_text(items, j) + u + seq![32u8]);
    assert(big.subrange(pl, pl + u.len()) =~= u) by {
        assert forall|k: int| 0 <= k < u.len() implies big.subrange(pl, pl + u.len())[k] == u[k] by {
            assert(big.subrange(0, q.len() as int)[pl + k] == big[pl + k]);
            assert(q[pl + k] == u[k]);
        }
    }
    assert(big.subrange(0, q.len() as int)[pl + u.len()] == big[pl + u.len()]);
}

proof fn lemma_entries_member(es: Seq<(Seq<u8>, SVal)>, j: int, sep: u8)
    requires
        0 <= j < es.len(),
    ensures
        entries_text(es, j, sep).len() + entry_text(es[j].0, es[j].1).len() + 1 == entries_text(
            es,
            j + 1,
            sep,
        ).len(),
        entries_text(es, j + 1, sep).len() <= entries_text(es, es.len() as int, sep).len(),
        entries_text(es, es.len() as int, sep).subrange(
            entries_text(es, j, sep).len() as int,
            (entries_text(es, j, sep).len() + entry_text(es[j].0, es[j].1).len()) as int,
        ) == entry_text(es[j].0, es[j].1),
        entries_text(es, es.len() as int, sep)[(entries_text(es, j, sep).len() + entry_text(
            es[j].0,
            es[j].1,
        ).len()) as int] == sep,
{
    let n = es.len() as int;
    lemma_entries_prefix(es, j + 1, n, sep);
    let big = entries_text(es, n, sep);
    let q = entries_text(es, j + 1, sep);
    let pl = entries_text(es, j, sep).len() as int;
    let u = entry_text(es[j].0, es[j].1);
    assert(q == entries_text(es, j, sep) + u + seq![sep]);
    assert(big.subrange(pl, pl + u.len()) =~= u) by {
        assert forall|k: int| 0 <= k < u.len() implies big.subrange(pl, pl + u.len())[k] == u[k] by {
            assert(big.subrange(0, q.len() as int)[pl + k] == big[pl + k]);
            assert(q[pl + k] == u[k]);
        }
    }
    assert(big.subrange(0, q.len() as int)[pl + u.len()] == big[pl + u.len()]);
}

pub open spec fn member_ok(v: SVal, kind: MemberKind) -> bool {
    wf_tree(v) && match kind {
        MemberKind::Value => is_scalar(v),
        MemberKind::Bracketed => is_collection(v),
        MemberKind::Numbered => v is NumberedDict,
    }
}

pub open spec fn entry_ok(e: (Seq<u8>, SVal)) -> bool {
    all_in(e.0, CharClass::StringLiteralContents) && wf_tree(e.1) && !(e.1 is NumberedDict)
}

/// Where the text stops: at `}` or at its end.
pub open spec fn closes_at(s: Seq<u8>, c: int) -> bool {
    c == s.len() || (0 <= c < s.len() && s[c] == 125)
}

proof fn lemma_value_rt(v: SVal, s: Seq<u8>, a: int)
    requires
        wf_tree(v),
        !(v is NumberedDict),
        occurs_at(s, a, text_of(v)),
        a + text_of(v).len() < s.len(),
        is_space_byte(s[a + text_of(v).len()]),
    ensures
        parse_value(s, a) == Some((v, a + text_of(v).len())),
    decreases v, 2int,
{
    if is_scalar(v) {
        lemma_leaf_round_trip(v, s, a);
    } else {
        lemma_collection_rt(v, s, a);
        lemma_text_shape(v);
        lemma_occurs_byte(s, a, text_of(v), 0);
    }
}

proof fn lemma_collection_rt(v: SVal, s: Seq<u8>, a: int)
    requires
        wf_tree(v),
        is_collection(v),
        occurs_at(s, a, text_of(v)),
        a + text_of(v).len() < s.len(),
        is_space_byte(s[a + text_of(v).len()]),
    ensures
        parse_bracketed(s, a) == Some((v, a + text_of(v).len())),
    decreases v, 1int,
{
    match v {
        SVal::List(_) => lemma_list_rt(v, s, a),
        SVal::Dict(_) => lemma_dict_rt(v, s, a),
        SVal::Array(_) => lemma_array_rt(v, s, a),
        _ => {},
    }
}

#[verifier::rlimit(100)]
#[verifier::spinoff_prover]
proof fn lemma_list_rt(v: SVal, s: Seq<u8>, a: int)
    requires
        wf_tree(v),
        v is List,
        occurs_at(s, a, text_of(v)),
        a + text_of(v).len() < s.len(),
        is_space_byte(s[a + text_of(v).len()]),
    ensures
        parse_bracketed(s, a) == Some((v, a + text_of(v).len())),
    decreases v, 0int,
{
    let t = text_of(v);
    lemma_occurs_byte(s, a, t, 0);
    lemma_occurs_byte(s, a, t, 1);
    let q = a + 2;
    let items = v->List_0;
        let n = items.len() as int;
        let inner = items_text(items, n);
        assert(t == seq![123u8, 32] + inner + seq![125u8]);
        assert(t.subrange(2, 2 + inner.len() as int) =~= inner);
        lemma_occurs_sub(s, a, t, 2, inner);
        let close = q + inner.len();
        lemma_occurs_byte(s, a, t, 2 + inner.len() as int);
        assert(s[close] == 125);
        let kind = if n == 0 {
            MemberKind::Value
        } else if is_scalar(items[0]) {
            MemberKind::Value
        } else if is_collection(items[0]) {
            MemberKind::Bracketed
        } else {
            MemberKind::Numbered
        };
        assert forall|i: int| 0 <= i < n implies member_ok(#[trigger] items[i], kind) by {
            if is_scalar(items[0]) {
            } else if is_collection(items[0]) {
            } else {
            }
        }
        if n > 0 {
            lemma_items_member(items, 0);
            assert(items_text(items, 0).len() == 0);
            lemma_occurs_sub(s, q, inner, 0, text_of(items[0]));
            lemma_text_shape(items[0]);
            lemma_occurs_byte(s, q, text_of(items[0]), 0);
        }
        lemma_ws_one(s, a + 1);
        assert(ws_end(s, a + 1) == q);
        if kind == MemberKind::Value {
            assert(no_tokens(inner)) by {
                lemma_items_no_tokens(items, n);
            }
            assert forall|j: int| q <= j < close implies !is_token_byte(#[trigger] s[j]) by {
                lemma_occurs_byte(s, q, inner, j - q);
            }
            lemma_token_skip(s, q, close);
            assert(token_search(s, q) == close);
        } else if kind == MemberKind::Bracketed {
            assert(token_search(s, q) == q);
            assert(!has_integer(s, q));
        } else {
            let u = text_of(items[0]);
            lemma_numbered_head(items[0]);
            let h = int_text(items[0]->NumberedDict_0).len() as int;
            assert forall|j: int| q <= j < q + h + 1 implies !is_token_byte(#[trigger] s[j]) by {
                lemma_occurs_byte(s, q, u, j - q);
            }
            lemma_token_skip(s, q, q + h + 1);
            lemma_occurs_byte(s, q, u, h + 1);
            assert(token_search(s, q) == q + h + 1);
            lemma_occurs_byte(s, q, u, sign_end(u, 0));
            lemma_occurs_byte(s, q, u, 0);
            assert(sign_end(s, q) == q + sign_end(u, 0));
            lemma_run_end_bounds(CharClass::Digit, u, sign_end(u, 0));
            assert(in_class(CharClass::Digit, s[sign_end(s, q)]));
            lemma_run_end_bounds(CharClass::Digit, s, sign_end(s, q) + 1);
            assert(has_integer(s, q));
        }
        lemma_members_rt(items, kind, s, q, 0);
        assert(items.skip(0) =~= items);
        assert(parse_body(s, q) == Some((v, close)));
    
}

#[verifier::rlimit(100)]
#[verifier::spinoff_prover]
proof fn lemma_dict_rt(v: SVal, s: Seq<u8>, a: int)
    requires
        wf_tree(v),
        v is Dict,
        occurs_at(s, a, text_of(v)),
        a + text_of(v).len() < s.len(),
        is_space_byte(s[a + text_of(v).len()]),
    ensures
        parse_bracketed(s, a) == Some((v, a + text_of(v).len())),
    decreases v, 0int,
{
    let t = text_of(v);
    lemma_occurs_byte(s, a, t, 0);
    lemma_occurs_byte(s, a, t, 1);
    let q = a + 2;
    let es = v->Dict_0;
        let n = es.len() as int;
        let inner = entries_text(es, n, 32);
        assert(t == seq![123u8, 32] + inner + seq![125u8]);
        assert(t.subrange(2, 2 + inner.len() as int) =~= inner);
        lemma_occurs_sub(s, a, t, 2, inner);
        let close = q + inner.len();
        lemma_occurs_byte(s, a, t, 2 + inner.len() as int);
        lemma_entries_member(es, 0, 32);
        assert(entries_text(es, 0, 32).len() == 0);
        let u = entry_text(es[0].0, es[0].1);
        lemma_occurs_sub(s, q, inner, 0, u);
        let k = es[0].0;
        assert(u == quote(k) + seq![61u8] + text_of(es[0].1));
        assert forall|j: int| q <= j < q + k.len() + 2 implies !is_token_byte(#[trigger] s[j]) by {
            lemma_occurs_byte(s, q, u, j - q);
            if 0 < j - q < k.len() + 1 {
                assert(u[j - q] == k[j - q - 1]);
                assert(in_class(CharClass::StringLiteralContents, k[j - q - 1]));
            }
        }
        lemma_token_skip(s, q, q + k.len() + 2);
        lemma_occurs_byte(s, q, u, k.len() + 2int);
        lemma_occurs_byte(s, q, u, 0);
        assert(token_search(s, q) == q + k.len() + 2);
        assert(!has_integer(s, q));
        lemma_ws_one(s, a + 1);
        assert forall|i: int| 0 <= i < n implies entry_ok(#[trigger] es[i]) by {
        }
        lemma_entries_rt(es, 32, s, q, 0);
        assert(es.skip(0) =~= es);
        assert(parse_body(s, q) == Some((v, close)));
    
}

#[verifier::rlimit(60)]
proof fn lemma_array_rt(v: SVal, s: Seq<u8>, a: int)
    requires
        wf_tree(v),
        v is Array,
        occurs_at(s, a, text_of(v)),
        a + text_of(v).len() < s.len(),
        is_space_byte(s[a + text_of(v).len()]),
    ensures
        parse_bracketed(s, a) == Some((v, a + text_of(v).len())),
    decreases v, 0int,
{
    let t = text_of(v);
    lemma_occurs_byte(s, a, t, 0);
    lemma_occurs_byte(s, a, t, 1);
    let q = a + 2;
    let items = v->Array_0;
        let n = items.len() as int;
        let inner = indexed_text(items, n);
        assert(t == seq![123u8, 32] + inner + seq![125u8]);
        assert(t.subrange(2, 2 + inner.len() as int) =~= inner);
        lemma_occurs_sub(s, a, t, 2, inner);
        let close = q + inner.len();
        lemma_occurs_byte(s, a, t, 2 + inner.len() as int);
        lemma_indexed_member(items, 0);
        assert(indexed_text(items, 0).len() == 0);
        let u = int_text(0) + seq![61u8] + text_of(items[0]);
        lemma_occurs_sub(s, q, inner, 0, u);
        assert(int_text(0) == seq![48u8]);
        assert(u[0] == 48);
        assert(u[1] == 61);
        lemma_occurs_byte(s, q, u, 0);
        lemma_occurs_byte(s, q, u, 1);
        assert(token_search(s, q) == token_search(s, q + 1));
        assert(token_search(s, q) == q + 1);
        assert(sign_end(s, q) == q);
        lemma_run_end_bounds(CharClass::Digit, s, q + 1);
        assert(in_class(CharClass::Digit, s[q]));
        assert(has_integer(s, q));
        lemma_ws_one(s, a + 1);
        lemma_indexed_rt(items, s, q, 0);
        let pairs = Seq::new(n as nat, |k: int| (k, items[k]));
        assert(Seq::new((n - 0) as nat, |k: int| (0 + k, items[0 + k])) =~= pairs);
        lemma_sort_identity(pairs);
        assert(pairs.map_values(|x: (int, SVal)| x.1) =~= items);
        assert(parse_body(s, q) == Some((v, close)));
    
}

proof fn lemma_numbered_head(v: SVal)
    requires
        wf_tree(v),
        v is NumberedDict,
    ensures
        text_of(v).subrange(0, int_text(v->NumberedDict_0).len() as int) == int_text(v->NumberedDict_0),
        text_of(v)[int_text(v->NumberedDict_0).len() as int] == 32,
        text_of(v)[int_text(v->NumberedDict_0).len() + 1int] == 123,
        no_tokens(int_text(v->NumberedDict_0)),
        has_integer(text_of(v), 0),
{
    let tag = v->NumberedDict_0;
    let t = text_of(v);
    let it = int_text(tag);
    assert(t.subrange(0, it.len() as int) =~= it);
    lemma_text_shape(SVal::Integer(tag));
    lemma_text_shape(v);
}

proof fn lemma_items_no_tokens(items: Seq<SVal>, k: int)
    requires
        0 <= k <= items.len(),
        forall|i: int| 0 <= i < items.len() ==> is_scalar(#[trigger] items[i]) && wf_tree(items[i]),
    ensures
        no_tokens(items_text(items, k)),
    decreases k,
{
    if k > 0 {
        lemma_items_no_tokens(items, k - 1);
        lemma_text_shape(items[k - 1]);
        let a = items_text(items, k - 1);
        let u = text_of(items[k - 1]);
        let t = items_text(items, k);
        assert(t == a + u + seq![32u8]);
        assert forall|j: int| 0 <= j < t.len() implies !is_token_byte(#[trigger] t[j]) by {
            if j < a.len() {
                assert(t[j] == a[j]);
            } else if j < a.len() + u.len() {
                assert(t[j] == u[j - a.len()]);
            }
        }
    }
}

proof fn lemma_sort_identity(pairs: Seq<(int, SVal)>)
    requires
        forall|i: int, j: int| 0 <= i < j < pairs.len() ==> pairs[i].0 < pairs[j].0,
    ensures
        sort_by_index(pairs) == pairs,
    decreases pairs.len(),
{
    if pairs.len() > 0 {
        let d = pairs.drop_last();
        lemma_sort_identity(d);
        assert(insert_pos(d, pairs.last()) == d.len());
        assert(d.insert(d.len() as int, pairs.last()) =~= pairs);
    }
}

proof fn lemma_members_rt(items: Seq<SVal>, kind: MemberKind, s: Seq<u8>, base: int, j: int)
    requires
        0 <= j <= items.len(),
        occurs_at(s, base, items_text(items, items.len() as int)),
        base + items_text(items, items.len() as int).len() < s.len(),
        s[base + items_text(items, items.len() as int).len()] == 125,
        forall|i: int| 0 <= i < items.len() ==> member_ok(#[trigger] items[i], kind),
    ensures
        parse_members(s, base + items_text(items, j).len(), kind) == Some(
            (items.skip(j), base + items_text(items, items.len() as int).len()),
        ),
    decreases items, items.len() - j,
{
    let n = items.len() as int;
    let inner = items_text(items, n);
    let p = base + items_text(items, j).len();
    let close = base + inner.len();
    if j == n {
        assert(items.skip(n) =~= Seq::<SVal>::empty());
    } else {
        lemma_items_member(items, j);
        let u = text_of(items[j]);
        let pl = items_text(items, j).len() as int;
        lemma_occurs_sub(s, base, inner, pl, u);
        lemma_occurs_byte(s, base, inner, pl + u.len());
        let e = p + u.len();
        assert(s[e] == 32);
        lemma_text_shape(items[j]);
        lemma_occurs_byte(s, p, u, 0);
        assert(!at_list_end(s, p));
        match kind {
            MemberKind::Value => {
                lemma_value_rt(items[j], s, p);
            },
            MemberKind::Bracketed => {
                lemma_collection_rt(items[j], s, p);
            },
            MemberKind::Numbered => {
                lemma_numbered_rt(items[j], s, p);
            },
        }
        assert(parse_member(s, p, kind) == Some((items[j], e)));
        if j + 1 < n {
            lemma_items_member(items, j + 1);
            let u2 = text_of(items[j + 1]);
            lemma_occurs_sub(s, base, inner, items_text(items, j + 1).len() as int, u2);
            lemma_text_shape(items[j + 1]);
            lemma_occurs_byte(s, e + 1, u2, 0);
            lemma_ws_one(s, e);
            lemma_members_rt(items, kind, s, base, j + 1);
            assert(seq![items[j]] + items.skip(j + 1) =~= items.skip(j));
        } else {
            lemma_ws_one(s, e);
            assert(items.skip(j) =~= seq![items[j]]);
        }
    }
}

proof fn lemma_entries_rt(es: Seq<(Seq<u8>, SVal)>, sep: u8, s: Seq<u8>, base: int, j: int)
    requires
        0 <= j <= es.len(),
        sep == 32 || sep == 10,
        occurs_at(s, base, entries_text(es, es.len() as int, sep)),
        closes_at(s, base + entries_text(es, es.len() as int, sep).len()),
        forall|i: int| 0 <= i < es.len() ==> entry_ok(#[trigger] es[i]),
    ensures
        parse_entries(s, base + entries_text(es, j, sep).len()) == Some(
            (es.skip(j), base + entries_text(es, es.len() as int, sep).len()),
        ),
    decreases es, es.len() - j,
{
    let n = es.len() as int;
    let inner = entries_text(es, n, sep);
    let p = base + entries_text(es, j, sep).len();
    if j == n {
        assert(es.skip(n) =~= Seq::<(Seq<u8>, SVal)>::empty());
    } else {
        lemma_entries_member(es, j, sep);
        let u = entry_text(es[j].0, es[j].1);
        let pl = entries_text(es, j, sep).len() as int;
        lemma_occurs_sub(s, base, inner, pl, u);
        lemma_occurs_byte(s, base, inner, pl + u.len());
        let e = p + u.len();
        lemma_occurs_byte(s, p, u, 0);
        assert(!at_list_end(s, p));
        lemma_key_value_rt(es[j], s, p);
        if j + 1 < n {
            lemma_entries_member(es, j + 1, sep);
            let u2 = entry_text(es[j + 1].0, es[j + 1].1);
            lemma_occurs_sub(s, base, inner, entries_text(es, j + 1, sep).len() as int, u2);
            lemma_occurs_byte(s, e + 1, u2, 0);
            lemma_ws_one(s, e);
            lemma_entries_rt(es, sep, s, base, j + 1);
            assert(seq![es[j]] + es.skip(j + 1) =~= es.skip(j));
        } else {
            lemma_ws_one(s, e);
            assert(es.skip(j) =~= seq![es[j]]);
        }
    }
}

proof fn lemma_key_value_rt(entry: (Seq<u8>, SVal), s: Seq<u8>, p: int)
    requires
        entry_ok(entry),
        occurs_at(s, p, entry_text(entry.0, entry.1)),
        p + entry_text(entry.0, entry.1).len() < s.len(),
        is_space_byte(s[p + entry_text(entry.0, entry.1).len()]),
    ensures
        parse_key_value(s, p) == Some((entry, p + entry_text(entry.0, entry.1).len())),
    decreases entry.1, 3int,
{
    let (k, v) = entry;
    let u = entry_text(k, v);
    let qk = quote(k);
    let tv = text_of(v);
    assert(u == qk + seq![61u8] + tv);
    assert(u.subrange(0, qk.len() as int) =~= qk);
    lemma_occurs_byte(s, p, u, 0);
    assert forall|j: int| 1 <= j < qk.len() - 1 implies in_class(CharClass::StringLiteralContents, #[trigger] qk[j]) by {
        assert(qk[j] == k[j - 1]);
    }
    assert(qk[qk.len() - 1] == 34);
    lemma_run_end_tail(CharClass::StringLiteralContents, qk, 1);
    lemma_occurs_sub(s, p, u, 0, qk);
    lemma_occurs_byte(s, p, u, qk.len() as int);
    lemma_run_end_local(CharClass::StringLiteralContents, s, p, qk, 1);
    assert(quoted_end(s, p) == p + qk.len());
    assert(s.subrange(p + 1, p + qk.len() - 1) =~= k) by {
        assert forall|j: int| 0 <= j < k.len() implies s.subrange(p + 1, p + qk.len() - 1)[j] == k[j] by {
            lemma_occurs_byte(s, p, u, j + 1);
        }
    }
    assert(parse_key(s, p) == Some((k, p + qk.len())));
    let e = p + qk.len();
    assert(ws_end(s, e) == e);
    assert(u.subrange(qk.len() + 1int, u.len() as int) =~= tv);
    lemma_occurs_sub(s, p, u, qk.len() + 1int, tv);
    lemma_text_shape(v);
    lemma_occurs_byte(s, e + 1, tv, 0);
    assert(ws_end(s, e + 1) == e + 1);
    lemma_value_rt(v, s, e + 1);
}

proof fn lemma_indexed_rt(items: Seq<SVal>, s: Seq<u8>, base: int, j: int)
    requires
        0 <= j <= items.len() <= i64::MAX,
        occurs_at(s, base, indexed_text(items, items.len() as int)),
        base + indexed_text(items, items.len() as int).len() < s.len(),
        s[base + indexed_text(items, items.len() as int).len()] == 125,
        forall|i: int| 0 <= i < items.len() ==> wf_tree(#[trigger] items[i]) && !(items[i] is NumberedDict),
    ensures
        parse_indexed(s, base + indexed_text(items, j).len()) == Some(
            (
                Seq::new((items.len() - j) as nat, |k: int| (j + k, items[j + k])),
                base + indexed_text(items, items.len() as int).len(),
            ),
        ),
    decreases items, items.len() - j,
{
    let n = items.len() as int;
    let inner = indexed_text(items, n);
    let p = base + indexed_text(items, j).len();
    let rest = Seq::new((n - j) as nat, |k: int| (j + k, items[j + k]));
    if j == n {
        assert(rest =~= Seq::<(int, SVal)>::empty());
    } else {
        lemma_indexed_member(items, j);
        let it = int_text(j);
        let tv = text_of(items[j]);
        let u = it + seq![61u8] + tv;
        let pl = indexed_text(items, j).len() as int;
        lemma_occurs_sub(s, base, inner, pl, u);
        lemma_occurs_byte(s, base, inner, pl + u.len());
        let e = p + u.len();
        lemma_nat_text(j as nat);
        assert(it == nat_text(j as nat));
        lemma_occurs_byte(s, p, u, 0);
        assert(u.subrange(0, it.len() as int) =~= it);
        lemma_occurs_sub(s, p, u, 0, it);
        lemma_occurs_byte(s, p, u, it.len() as int);
        lemma_run_end_all(CharClass::Digit, it, 0);
        lemma_run_end_local(CharClass::Digit, s, p, it, 0);
        let de = p + it.len();
        assert(run_end(CharClass::Digit, s, p) == de);
        assert(s.subrange(p, de) == it);
        assert(ws_end(s, de) == de);
        assert(u.subrange(it.len() + 1int, u.len() as int) =~= tv);
        lemma_occurs_sub(s, p, u, it.len() + 1int, tv);
        lemma_text_shape(items[j]);
        lemma_occurs_byte(s, de + 1, tv, 0);
        assert(ws_end(s, de + 1) == de + 1);
        lemma_value_rt(items[j], s, de + 1);
        assert(parse_index_value(s, p) == Some(((j, items[j]), e)));
        assert(!at_list_end(s, p));
        if j + 1 < n {
            lemma_indexed_member(items, j + 1);
            let u2 = int_text(j + 1) + seq![61u8] + text_of(items[j + 1]);
            lemma_occurs_sub(s, base, inner, indexed_text(items, j + 1).len() as int, u2);
            lemma_nat_text((j + 1) as nat);
            lemma_occurs_byte(s, e + 1, u2, 0);
            assert(u2[0] == nat_text((j + 1) as nat)[0]);
            lemma_ws_one(s, e);
            lemma_indexed_rt(items, s, base, j + 1);
            let rest2 = Seq::new((n - j - 1) as nat, |k: int| (j + 1 + k, items[j + 1 + k]));
            assert(seq![(j, items[j])] + rest2 =~= rest);
        } else {
            lemma_ws_one(s, e);
            assert(rest =~= seq![(j, items[j])]);
        }
    }
}

#[verifier::rlimit(100)]
#[verifier::spinoff_prover]
proof fn lemma_numbered_rt(v: SVal, s: Seq<u8>, a: int)
    requires
        wf_tree(v),
        v is NumberedDict,
        occurs_at(s, a, text_of(v)),
        a + text_of(v).len() < s.len(),
        is_space_byte(s[a + text_of(v).len()]),
    ensures
        parse_numbered_dict(s, a) == Some((v, a + text_of(v).len())),
    decreases v, 0int,
{
    let tag = v->NumberedDict_0;
    let es = v->NumberedDict_1;
    let t = text_of(v);
    let it = int_text(tag);
    let n = es.len() as int;
    let inner = entries_text(es, n, 32);
    assert(t == it + seq![32u8, 123, 32] + inner + seq![125u8]);
    lemma_numbered_head(v);
    lemma_occurs_sub(s, a, t, 0, it);
    lemma_occurs_byte(s, a, t, it.len() as int);
    lemma_occurs_byte(s, a, t, it.len() + 1int);
    lemma_occurs_byte(s, a, t, it.len() + 2int);
    lemma_leaf_round_trip(SVal::Integer(tag), s, a);
    let e = a + it.len();
    assert(has_integer(s, a) && in_i64(integer_value(s, a)) && integer_value(s, a) == tag
        && integer_end(s, a) == e);
    lemma_ws_one(s, e);
    let w = e + 1;
    assert(t.subrange(it.len() + 3int, (it.len() + 3 + inner.len()) as int) =~= inner);
    lemma_occurs_sub(s, a, t, it.len() + 3int, inner);
    let q = w + 2;
    let close = q + inner.len();
    lemma_occurs_byte(s, a, t, (it.len() + 3 + inner.len()) as int);
    if n > 0 {
        lemma_entries_member(es, 0, 32);
        assert(entries_text(es, 0, 32).len() == 0);
        lemma_occurs_sub(s, q, inner, 0, entry_text(es[0].0, es[0].1));
        lemma_occurs_byte(s, q, entry_text(es[0].0, es[0].1), 0);
    }
    lemma_ws_one(s, w + 1);
    assert forall|i: int| 0 <= i < n implies entry_ok(#[trigger] es[i]) by {
    }
    lemma_entries_rt(es, 32, s, q, 0);
    assert(es.skip(0) =~= es);
}

/// The canonical text of a document reads back as the same tree, for every
/// well-formed tree: keys of string-literal bytes, and values as `wf_tree`
/// describes them.
pub proof fn lemma_canonical_text_round_trip(es: Seq<(Seq<u8>, SVal)>)
    requires
        forall|i: int| 0 <= i < es.len() ==> entry_ok(#[trigger] es[i]),
    ensures
        parse_root(document_text(es)) == Some(SVal::Dict(es)),
{
    let s = document_text(es);
    let n = es.len() as int;
    assert(s.subrange(0, s.len() as int) =~= s);
    if n > 0 {
        lemma_entries_member(es, 0, 10);
        assert(entries_text(es, 0, 10).len() == 0);
        lemma_occurs_sub(s, 0, s, 0, entry_text(es[0].0, es[0].1));
        lemma_occurs_byte(s, 0, entry_text(es[0].0, es[0].1), 0);
    }
    assert(ws_end(s, 0) == 0);
    lemma_entries_rt(es, 10, s, 0, 0);
    assert(es.skip(0) =~= es);
}


/// A run over a range of `s` ends where it ends in `s`, when that is inside the range.
proof fn lemma_run_end_sub(c: CharClass, s: Seq<u8>, a: int, b: int, k: int)
    requires
        0 <= a <= a + k <= b <= s.len(),
        run_end(c, s, a + k) <= b,
    ensures
        run_end(c, s.subrange(a, b), k) == run_end(c, s, a + k) - a,
    decreases b - a - k,
{
    let t = s.subrange(a, b);
    if a + k < b {
        assert(t[k] == s[a + k]);
        if in_class(c, s[a + k]) {
            lemma_run_end_sub(c, s, a, b, k + 1);
        }
    } else {
        lemma_run_end_bounds(c, s, a + k);
    }
}

pub open spec fn tokenless(s: Seq<u8>, p: int, e: int) -> bool {
    forall|j: int| p <= j < e ==> !is_token_byte(#[trigger] s[j])
}

proof fn lemma_scalar_wf(s: Seq<u8>, p: int)
    requires
        0 <= p < s.len(),
        s[p] != 123,
        parse_value(s, p) is Some,
    ensures
        is_scalar(parse_value(s, p)->Some_0.0),
        wf_tree(parse_value(s, p)->Some_0.0),
        p < parse_value(s, p)->Some_0.1 <= s.len(),
        tokenless(s, p, parse_value(s, p)->Some_0.1),
{
    let (v, e) = parse_value(s, p)->Some_0;
    if s[p] == 34 {
        let c_end = run_end(CharClass::StringLiteralContents, s, p + 1);
        lemma_run_end_bounds(CharClass::StringLiteralContents, s, p + 1);
        let c = s.subrange(p + 1, c_end);
        assert forall|j: int| p <= j < e implies !is_token_byte(#[trigger] s[j]) by {
            if p < j < c_end {
                assert(in_class(CharClass::StringLiteralContents, s[j]));
            }
        }
        match date_of(c) {
            Some((y, m, d)) => {},
            None => {
                assert forall|k: int| 0 <= k < c.len() implies in_class(CharClass::StringLiteralContents, #[trigger] c[k]) by {
                    assert(c[k] == s[p + 1 + k]);
                }
            },
        }
    } else {
        let q = sign_end(s, p);
        lemma_run_end_bounds(CharClass::Digit, s, q);
        let ie = integer_end(s, p);
        let d = decimal_end(s, p);
        if d >= 0 {
            lemma_run_end_bounds(CharClass::Digit, s, ie + 1);
            assert forall|j: int| p <= j < e implies !is_token_byte(#[trigger] s[j]) by {
                if q <= j < ie || ie < j {
                    assert(in_class(CharClass::Digit, s[j]));
                }
            }
            let t = s.subrange(p, d);
            lemma_run_end_sub(CharClass::Digit, s, p, d, q - p);
            lemma_run_end_sub(CharClass::Digit, s, p, d, ie + 1 - p);
            assert(sign_end(t, 0) == q - p);
            assert(t[ie - p] == 46);
            assert(decimal_end(t, 0) == t.len());
        } else if has_integer(s, p) {
            assert forall|j: int| p <= j < e implies !is_token_byte(#[trigger] s[j]) by {
                if q <= j {
                    assert(in_class(CharClass::Digit, s[j]));
                }
            }
        } else {
            lemma_run_end_bounds(CharClass::Identifier, s, p);
            assert forall|j: int| p <= j < e implies !is_token_byte(#[trigger] s[j]) by {
                assert(in_class(CharClass::Identifier, s[j]));
            }
            lemma_run_end_sub(CharClass::Identifier, s, p, e, 0);
        }
    }
}

proof fn lemma_ws_stops(s: Seq<u8>, e: int, t: int)
    requires
        0 <= e <= t < s.len(),
        !is_space_byte(s[t]),
    ensures
        ws_end(s, e) <= t,
{
    lemma_run_end_bounds(CharClass::Space, s, e);
    if ws_end(s, e) > t {
        assert(is_space_byte(s[t]));
    }
}

proof fn lemma_value_wf(s: Seq<u8>, p: int)
    requires
        parse_value(s, p) is Some,
        s.len() <= i64::MAX,
    ensures
        wf_tree(parse_value(s, p)->Some_0.0),
        !(parse_value(s, p)->Some_0.0 is NumberedDict),
    decreases s.len() - p, 4nat,
{
    if s[p] == 123 {
        lemma_bracketed_wf(s, p);
    } else {
        lemma_scalar_wf(s, p);
    }
}

proof fn lemma_bracketed_wf(s: Seq<u8>, p: int)
    requires
        parse_bracketed(s, p) is Some,
        s.len() <= i64::MAX,
    ensures
        wf_tree(parse_bracketed(s, p)->Some_0.0),
        is_collection(parse_bracketed(s, p)->Some_0.0),
    decreases s.len() - p, 3nat,
{
    lemma_body_wf(s, ws_end(s, p + 1));
}

proof fn lemma_body_wf(s: Seq<u8>, q: int)
    requires
        parse_body(s, q) is Some,
        s.len() <= i64::MAX,
    ensures
        wf_tree(parse_body(s, q)->Some_0.0),
        is_collection(parse_body(s, q)->Some_0.0),
    decreases s.len() - q, 9nat,
{
    let t = token_search(s, q);
    lemma_token_search_bounds(s, q);
    if s[t] == 125 {
        lemma_members_wf(s, q, MemberKind::Value, t);
        let items = parse_members(s, q, MemberKind::Value)->Some_0.0;
        assert(forall|i: int| 0 <= i < items.len() ==> is_scalar(#[trigger] items[i]) && wf_tree(items[i]));
    } else if s[t] == 61 {
        if has_integer(s, q) {
            lemma_indexed_wf(s, q);
            let (pairs, e) = parse_indexed(s, q)->Some_0;
            let sorted = sort_by_index(pairs);
            crate::laws::lemma_array_index_order(pairs);
            let items = sorted.map_values(|x: (int, SVal)| x.1);
            assert forall|i: int| 0 <= i < items.len() implies wf_tree(#[trigger] items[i]) && !(items[i] is NumberedDict) by {
                broadcast use vstd::seq_lib::to_multiset_contains;
                assert(sorted.contains(sorted[i]));
                assert(sorted.to_multiset().count(sorted[i]) > 0);
                assert(pairs.to_multiset().count(sorted[i]) > 0);
                assert(pairs.contains(sorted[i]));
                let j = choose|j: int| 0 <= j < pairs.len() && pairs[j] == sorted[i];
                assert(wf_tree(pairs[j].1) && !(pairs[j].1 is NumberedDict));
            }
            lemma_digit_not_list_end(s, q);
        } else {
            lemma_entries_wf(s, q);
            lemma_not_list_end(s, q, t);
        }
    } else {
        if has_integer(s, q) {
            lemma_members_wf(s, q, MemberKind::Numbered, t);
        } else {
            lemma_members_wf(s, q, MemberKind::Bracketed, t);
        }
    }
}

proof fn lemma_token_search_bounds(s: Seq<u8>, q: int)
    requires
        0 <= q <= s.len(),
    ensures
        q <= token_search(s, q) <= s.len(),
        tokenless(s, q, token_search(s, q)),
    decreases s.len() - q,
{
    if q < s.len() && !is_token_byte(s[q]) {
        lemma_token_search_bounds(s, q + 1);
    }
}

proof fn lemma_digit_not_list_end(s: Seq<u8>, q: int)
    requires
        has_integer(s, q),
        0 <= q <= s.len(),
        parse_indexed(s, q) is Some,
    ensures
        parse_indexed(s, q)->Some_0.0.len() > 0,
{
    lemma_run_end_bounds(CharClass::Digit, s, sign_end(s, q));
}

proof fn lemma_not_list_end(s: Seq<u8>, q: int, t: int)
    requires
        0 <= q <= t < s.len(),
        t == token_search(s, q),
        s[t] == 61,
        parse_entries(s, q) is Some,
    ensures
        parse_entries(s, q)->Some_0.0.len() > 0,
{
    lemma_token_search_bounds(s, q);
}

proof fn lemma_key_value_wf(s: Seq<u8>, p: int)
    requires
        parse_key_value(s, p) is Some,
        s.len() <= i64::MAX,
    ensures
        entry_ok(parse_key_value(s, p)->Some_0.0),
    decreases s.len() - p, 5nat,
{
    let (k, e) = parse_key(s, p)->Some_0;
    if 0 <= p < s.len() && is_identifier_start(s[p]) {
        lemma_run_end_bounds(CharClass::Identifier, s, p);
        assert forall|j: int| 0 <= j < k.len() implies in_class(CharClass::StringLiteralContents, #[trigger] k[j]) by {
            assert(k[j] == s[p + j]);
            assert(in_class(CharClass::Identifier, s[p + j]));
        }
    } else {
        lemma_run_end_bounds(CharClass::StringLiteralContents, s, p + 1);
        assert forall|j: int| 0 <= j < k.len() implies in_class(CharClass::StringLiteralContents, #[trigger] k[j]) by {
            assert(k[j] == s[p + 1 + j]);
        }
    }
    let a = ws_end(s, e);
    lemma_value_wf(s, ws_end(s, a + 1));
}

proof fn lemma_index_value_wf(s: Seq<u8>, p: int)
    requires
        parse_index_value(s, p) is Some,
        s.len() <= i64::MAX,
    ensures
        wf_tree(parse_index_value(s, p)->Some_0.0.1),
        !(parse_index_value(s, p)->Some_0.0.1 is NumberedDict),
    decreases s.len() - p, 5nat,
{
    let e = run_end(CharClass::Digit, s, p);
    let a = ws_end(s, e);
    lemma_value_wf(s, ws_end(s, a + 1));
}

proof fn lemma_numbered_wf(s: Seq<u8>, p: int)
    requires
        parse_numbered_dict(s, p) is Some,
        s.len() <= i64::MAX,
    ensures
        wf_tree(parse_numbered_dict(s, p)->Some_0.0),
        parse_numbered_dict(s, p)->Some_0.0 is NumberedDict,
    decreases s.len() - p, 5nat,
{
    let e = integer_end(s, p);
    let w = ws_end(s, e);
    lemma_entries_wf(s, ws_end(s, w + 1));
}

proof fn lemma_members_wf(s: Seq<u8>, p: int, kind: MemberKind, t: int)
    requires
        parse_members(s, p, kind) is Some,
        s.len() <= i64::MAX,
        kind == MemberKind::Value ==> p <= t < s.len() && s[t] == 125 && tokenless(s, p, t),
    ensures
        forall|i: int| 0 <= i < parse_members(s, p, kind)->Some_0.0.len() ==> member_ok(#[trigger] parse_members(s, p, kind)->Some_0.0[i], kind),
    decreases s.len() - p, 8nat,
{
    if !at_list_end(s, p) {
        let (v, e) = parse_member(s, p, kind)->Some_0;
        match kind {
            MemberKind::Value => {
                assert(p != t);
                lemma_scalar_wf(s, p);
                if e > t {
                    assert(!is_token_byte(s[t]));
                }
            },
            MemberKind::Bracketed => lemma_bracketed_wf(s, p),
            MemberKind::Numbered => lemma_numbered_wf(s, p),
        }
        let w = ws_end(s, e);
        if !at_list_end(s, w) {
            if kind == MemberKind::Value {
                lemma_ws_stops(s, e, t);
            }
            lemma_members_wf(s, w, kind, t);
            let rest = parse_members(s, w, kind)->Some_0.0;
            let all = seq![v] + rest;
            assert forall|i: int| 0 <= i < all.len() implies member_ok(#[trigger] all[i], kind) by {
                if i > 0 {
                    assert(all[i] == rest[i - 1]);
                }
            }
        } else {
            assert(seq![v][0] == v);
        }
    }
}

proof fn lemma_entries_wf(s: Seq<u8>, p: int)
    requires
        parse_entries(s, p) is Some,
        s.len() <= i64::MAX,
    ensures
        forall|i: int| 0 <= i < parse_entries(s, p)->Some_0.0.len() ==> entry_ok(#[trigger] parse_entries(s, p)->Some_0.0[i]),
    decreases s.len() - p, 8nat,
{
    if !at_list_end(s, p) {
        let (kv, e) = parse_key_value(s, p)->Some_0;
        lemma_key_value_wf(s, p);
        let w = ws_end(s, e);
        if !at_list_end(s, w) {
            lemma_entries_wf(s, w);
            let rest = parse_entries(s, w)->Some_0.0;
            let all = seq![kv] + rest;
            assert forall|i: int| 0 <= i < all.len() implies entry_ok(#[trigger] all[i]) by {
                if i > 0 {
                    assert(all[i] == rest[i - 1]);
                }
            }
        } else {
            assert(seq![kv][0] == kv);
        }
    }
}

proof fn lemma_indexed_wf(s: Seq<u8>, p: int)
    requires
        parse_indexed(s, p) is Some,
        s.len() <= i64::MAX,
        0 <= p,
    ensures
        forall|i: int| 0 <= i < parse_indexed(s, p)->Some_0.0.len() ==> wf_tree(#[trigger] parse_indexed(s, p)->Some_0.0[i].1) && !(parse_indexed(s, p)->Some_0.0[i].1 is NumberedDict),
        parse_indexed(s, p)->Some_0.0.len() <= s.len() - p,
    decreases s.len() - p, 8nat,
{
    if !at_list_end(s, p) {
        let (iv, e) = parse_index_value(s, p)->Some_0;
        lemma_index_value_wf(s, p);
        let w = ws_end(s, e);
        if !at_list_end(s, w) {
            lemma_indexed_wf(s, w);
            let rest = parse_indexed(s, w)->Some_0.0;
            let all = seq![iv] + rest;
            assert forall|i: int| 0 <= i < all.len() implies wf_tree(#[trigger] all[i].1) && !(all[i].1 is NumberedDict) by {
                if i > 0 {
                    assert(all[i] == rest[i - 1]);
                }
            }
        } else {
            assert(seq![iv][0] == iv);
        }
    }
}

/// Projection fidelity: for every text that reads as a document (of a size
/// a signed 64-bit integer can count), its canonical text reads as the same
/// document.
pub proof fn lemma_reading_canonical_text_again(s: Seq<u8>)
    requires
        parse_root(s) is Some,
        s.len() <= i64::MAX,
    ensures
        parse_root(document_text(parse_root(s)->Some_0->Dict_0)) == parse_root(s),
{
    lemma_entries_wf(s, ws_end(s, 0));
    lemma_canonical_text_round_trip(parse_root(s)->Some_0->Dict_0);
}

} // verus!
