//! The grammar of the format, as functions from text and position to the
//! value read there and the position after it.
use vstd::prelude::*;
use crate::date::date_of;
use crate::number::{digits_value, has_integer, in_i64, integer_end, integer_value};
use crate::scan::{is_letter_byte, is_token_byte, run_end, CharClass};
use crate::value::SVal;

verus! {

pub open spec fn ws_end(s: Seq<u8>, p: int) -> int {
    run_end(CharClass::Space, s, p)
}

pub open spec fn is_identifier_start(b: u8) -> bool {
    is_letter_byte(b) || b == 95
}

/// First position at or after `p` holding `=`, `{` or `}`; `s.len()` when none does.
pub open spec fn token_search(s: Seq<u8>, p: int) -> int
    decreases s.len() - p,
{
    if 0 <= p < s.len() && !is_token_byte(s[p]) {
        token_search(s, p + 1)
    } else {
        p
    }
}

/// End of `['-'] digit+ '.' digit+` at `p`, or -1.
pub open spec fn decimal_end(s: Seq<u8>, p: int) -> int {
    let a = integer_end(s, p);
    if has_integer(s, p) && a < s.len() && s[a] == 46 {
        let b = run_end(CharClass::Digit, s, a + 1);
        if b > a + 1 {
            b
        } else {
            -1
        }
    } else {
        -1
    }
}

/// `decimal | integer | identifier`, tried in that order.
pub open spec fn parse_unquoted(s: Seq<u8>, p: int) -> Option<(SVal, int)> {
    let d = decimal_end(s, p);
    if d >= 0 {
        Some((SVal::Decimal(s.subrange(p, d)), d))
    } else if has_integer(s, p) {
        if in_i64(integer_value(s, p)) {
            Some((SVal::Integer(integer_value(s, p)), integer_end(s, p)))
        } else {
            None
        }
    } else if 0 <= p < s.len() && is_identifier_start(s[p]) {
        let e = run_end(CharClass::Identifier, s, p);
        Some((SVal::Identifier(s.subrange(p, e)), e))
    } else {
        None
    }
}

/// End of the closing quote of a quoted run whose opening quote is at `p`, or -1.
pub open spec fn quoted_end(s: Seq<u8>, p: int) -> int {
    let e = run_end(CharClass::StringLiteralContents, s, p + 1);
    if 0 <= p < s.len() && s[p] == 34 && e < s.len() && s[e] == 34 {
        e + 1
    } else {
        -1
    }
}

/// A quoted run: a date where its contents are one, else a string literal.
pub open spec fn parse_quoted(s: Seq<u8>, p: int) -> Option<(SVal, int)> {
    let e = quoted_end(s, p);
    if e >= 0 {
        let c = s.subrange(p + 1, e - 1);
        match date_of(c) {
            Some((y, m, d)) => Some((SVal::Date(y, m, d), e)),
            None => Some((SVal::StringLiteral(c), e)),
        }
    } else {
        None
    }
}

/// An identifier, or the contents of a quoted run.
pub open spec fn parse_key(s: Seq<u8>, p: int) -> Option<(Seq<u8>, int)> {
    if 0 <= p < s.len() && is_identifier_start(s[p]) {
        let e = run_end(CharClass::Identifier, s, p);
        Some((s.subrange(p, e), e))
    } else if quoted_end(s, p) >= 0 {
        Some((s.subrange(p + 1, quoted_end(s, p) - 1), quoted_end(s, p)))
    } else {
        None
    }
}

/// Which members a braced body of bare members holds.
#[derive(Clone, Copy, Debug, PartialEq, Eq)]
pub enum MemberKind {
    /// Any value.
    Value,
    /// Braced values only.
    Bracketed,
    /// `integer {dict-body}` members.
    Numbered,
}

pub open spec fn valid_pos(s: Seq<u8>, p: int) -> bool {
    0 <= p <= s.len()
}

/// A value at `p`.
pub open spec fn parse_value(s: Seq<u8>, p: int) -> Option<(SVal, int)>
    decreases s.len() - p, 4nat,
{
    if !(0 <= p < s.len()) {
        None
    } else if s[p] == 123 {
        parse_bracketed(s, p)
    } else if s[p] == 34 {
        parse_quoted(s, p)
    } else {
        parse_unquoted(s, p)
    }
}

/// `'{' body '}'` at `p`, with optional whitespace inside the braces.
pub open spec fn parse_bracketed(s: Seq<u8>, p: int) -> Option<(SVal, int)>
    decreases s.len() - p, 3nat,
{
    let q = ws_end(s, p + 1);
    if !(0 <= p < s.len() && s[p] == 123) || !(p < q <= s.len()) {
        None
    } else {
        match parse_body(s, q) {
            Some((v, e)) => {
                if 0 <= e < s.len() && s[e] == 125 {
                    Some((v, e + 1))
                } else {
                    None
                }
            },
            None => None,
        }
    }
}

/// The members of a braced body starting at `q`, shaped by the first
/// structural byte at or after `q`: `}` gives bare values, `=` an array
/// when an integer comes first and a dict otherwise, `{` numbered dicts when
/// an integer comes first and braced values otherwise.
pub open spec fn parse_body(s: Seq<u8>, q: int) -> Option<(SVal, int)>
    decreases s.len() - q, 9nat,
{
    let t = token_search(s, q);
    if !(0 <= q <= s.len()) || !(0 <= t < s.len()) {
        None
    } else if s[t] == 125 {
        match parse_members(s, q, MemberKind::Value) {
            Some((items, e)) => Some((SVal::List(items), e)),
            None => None,
        }
    } else if s[t] == 61 {
        if has_integer(s, q) {
            match parse_indexed(s, q) {
                Some((pairs, e)) => Some((SVal::Array(sort_by_index(pairs).map_values(|x: (int, SVal)| x.1)), e)),
                None => None,
            }
        } else {
            match parse_entries(s, q) {
                Some((entries, e)) => Some((SVal::Dict(entries), e)),
                None => None,
            }
        }
    } else {
        if has_integer(s, q) {
            match parse_members(s, q, MemberKind::Numbered) {
                Some((items, e)) => Some((SVal::List(items), e)),
                None => None,
            }
        } else {
            match parse_members(s, q, MemberKind::Bracketed) {
                Some((items, e)) => Some((SVal::List(items), e)),
                None => None,
            }
        }
    }
}

/// `key '=' value` at `p`, with optional whitespace around `=`.
pub open spec fn parse_key_value(s: Seq<u8>, p: int) -> Option<((Seq<u8>, SVal), int)>
    decreases s.len() - p, 5nat,
{
    match parse_key(s, p) {
        Some((k, e)) => {
            let a = ws_end(s, e);
            let b = ws_end(s, a + 1);
            if 0 <= p < e <= a < s.len() && s[a] == 61 && a < b <= s.len() {
                match parse_value(s, b) {
                    Some((v, f)) => Some(((k, v), f)),
                    None => None,
                }
            } else {
                None
            }
        },
        None => None,
    }
}

/// `digit+ '=' value` at `p`, the digits giving the position.
pub open spec fn parse_index_value(s: Seq<u8>, p: int) -> Option<((int, SVal), int)>
    decreases s.len() - p, 5nat,
{
    let e = run_end(CharClass::Digit, s, p);
    let a = ws_end(s, e);
    let b = ws_end(s, a + 1);
    let i = digits_value(s.subrange(p, e)) as int;
    if 0 <= p < e <= a < s.len() && s[a] == 61 && a < b <= s.len() && i <= i64::MAX {
        match parse_value(s, b) {
            Some((v, f)) => Some(((i, v), f)),
            None => None,
        }
    } else {
        None
    }
}

/// `integer whitespace '{' dict-body '}'` at `p`.
pub open spec fn parse_numbered_dict(s: Seq<u8>, p: int) -> Option<(SVal, int)>
    decreases s.len() - p, 5nat,
{
    let e = integer_end(s, p);
    let w = ws_end(s, e);
    let q = ws_end(s, w + 1);
    if has_integer(s, p) && in_i64(integer_value(s, p)) && 0 <= p < e < w < s.len() && s[w]
        == 123 && w < q <= s.len() {
        match parse_entries(s, q) {
            Some((entries, f)) => {
                if 0 <= f < s.len() && s[f] == 125 {
                    Some((SVal::NumberedDict(integer_value(s, p), entries), f + 1))
                } else {
                    None
                }
            },
            None => None,
        }
    } else {
        None
    }
}

pub open spec fn parse_member(s: Seq<u8>, p: int, kind: MemberKind) -> Option<(SVal, int)>
    decreases s.len() - p, 6nat,
{
    match kind {
        MemberKind::Value => parse_value(s, p),
        MemberKind::Bracketed => parse_bracketed(s, p),
        MemberKind::Numbered => parse_numbered_dict(s, p),
    }
}

/// Whether a member list ends at `p`: at `}` or at the end of the text.
pub open spec fn at_list_end(s: Seq<u8>, p: int) -> bool {
    p == s.len() || (0 <= p < s.len() && s[p] == 125)
}

/// Bare members from `p`, separated by required whitespace, up to `}` or
/// the end of the text; returns them and where the list ends.
pub open spec fn parse_members(s: Seq<u8>, p: int, kind: MemberKind) -> Option<(Seq<SVal>, int)>
    decreases s.len() - p, 8nat,
{
    if !valid_pos(s, p) {
        None
    } else if at_list_end(s, p) {
        Some((Seq::empty(), p))
    } else {
        match parse_member(s, p, kind) {
            Some((v, e)) => {
                let w = ws_end(s, e);
                if !(p < e <= w <= s.len()) {
                    None
                } else if at_list_end(s, w) {
                    Some((seq![v], w))
                } else if w == e {
                    None
                } else {
                    match parse_members(s, w, kind) {
                        Some((rest, f)) => Some((seq![v] + rest, f)),
                        None => None,
                    }
                }
            },
            None => None,
        }
    }
}

/// `key '=' value` members from `p`, as for `parse_members`.
pub open spec fn parse_entries(s: Seq<u8>, p: int) -> Option<(Seq<(Seq<u8>, SVal)>, int)>
    decreases s.len() - p, 8nat,
{
    if !valid_pos(s, p) {
        None
    } else if at_list_end(s, p) {
        Some((Seq::empty(), p))
    } else {
        match parse_key_value(s, p) {
            Some((kv, e)) => {
                let w = ws_end(s, e);
                if !(p < e <= w <= s.len()) {
                    None
                } else if at_list_end(s, w) {
                    Some((seq![kv], w))
                } else if w == e {
                    None
                } else {
                    match parse_entries(s, w) {
                        Some((rest, f)) => Some((seq![kv] + rest, f)),
                        None => None,
                    }
                }
            },
            None => None,
        }
    }
}

/// `digit+ '=' value` members from `p`, as for `parse_members`.
pub open spec fn parse_indexed(s: Seq<u8>, p: int) -> Option<(Seq<(int, SVal)>, int)>
    decreases s.len() - p, 8nat,
{
    if !valid_pos(s, p) {
        None
    } else if at_list_end(s, p) {
        Some((Seq::empty(), p))
    } else {
        match parse_index_value(s, p) {
            Some((iv, e)) => {
                let w = ws_end(s, e);
                if !(p < e <= w <= s.len()) {
                    None
                } else if at_list_end(s, w) {
                    Some((seq![iv], w))
                } else if w == e {
                    None
                } else {
                    match parse_indexed(s, w) {
                        Some((rest, f)) => Some((seq![iv] + rest, f)),
                        None => None,
                    }
                }
            },
            None => None,
        }
    }
}

/// The text as a whole: a dict body with optional surrounding whitespace.
pub open spec fn parse_root(s: Seq<u8>) -> Option<SVal> {
    match parse_entries(s, ws_end(s, 0)) {
        Some((entries, e)) => if e == s.len() {
            Some(SVal::Dict(entries))
        } else {
            None
        },
        None => None,
    }
}

/// Where `x` goes in `sorted`: after every element whose position is not
/// greater than its own, scanning from the back.
pub open spec fn insert_pos(sorted: Seq<(int, SVal)>, x: (int, SVal)) -> int
    decreases sorted.len(),
{
    if sorted.len() == 0 {
        0
    } else if sorted.last().0 <= x.0 {
        sorted.len() as int
    } else {
        insert_pos(sorted.drop_last(), x)
    }
}

/// The pairs ordered by position; pairs with equal positions keep their order.
pub open spec fn sort_by_index(pairs: Seq<(int, SVal)>) -> Seq<(int, SVal)>
    decreases pairs.len(),
{
    if pairs.len() == 0 {
        pairs
    } else {
        let sorted = sort_by_index(pairs.drop_last());
        sorted.insert(insert_pos(sorted, pairs.last()), pairs.last())
    }
}

} // verus!
