//! The recursive-descent reader, proved against the grammar.
use vstd::prelude::*;
use vstd::slice::slice_subrange;
use crate::date::map_to_date;
use crate::grammar::{
    decimal_end, insert_pos, is_identifier_start, parse_body, parse_bracketed,
    parse_entries, parse_index_value, parse_indexed, parse_key, parse_key_value, parse_member,
    parse_members, parse_numbered_dict, parse_quoted, parse_root, parse_unquoted, parse_value,
    quoted_end, sort_by_index, token_search, ws_end, MemberKind,
};
use crate::number::{
    digits_value_capped, has_integer, integer_end, integer_value, in_i64,
    read_integer,
};
use crate::scan::{is_member, lemma_run_end_bounds, run_end, run_end_simd, lemma_window_matches_scalar, CharClass};
use crate::value::{SVal, Val};

verus! {

/// What went wrong, after the error kinds of the format.
#[derive(Clone, Copy, Debug, PartialEq, Eq)]
pub enum ErrorKind {
    /// A run that had to be non-empty was empty.
    Lexical,
    /// An expected brace, equals sign or quote was not there.
    MissingDelimiter,
    /// A braced body holds no `=`, `{` or `}` before the end of the text.
    Unterminated,
    /// A digit run does not fit its integer type.
    Numeric,
}

/// The production of the grammar that failed.
#[derive(Clone, Copy, Debug, PartialEq, Eq)]
pub enum Production {
    Space,
    Decimal,
    Integer,
    Identifier,
    Quoted,
    Key,
    KeyValue,
    IndexValue,
    Value,
    Bracketed,
    Body,
    Members,
    Entries,
    Indexed,
    NumberedDict,
    Root,
}

/// A failed read: its kind, the production that failed, and the offset at
/// which it was found.
#[derive(Clone, Copy, Debug, PartialEq, Eq)]
pub struct ParseError {
    pub kind: ErrorKind,
    pub production: Production,
    pub offset: usize,
}

/// The up to three bytes before a failure's offset and the up to three from it on.
pub fn error_context<'a>(s: &'a [u8], e: &ParseError) -> (r: (&'a [u8], &'a [u8]))
    requires
        e.offset <= s@.len(),
    ensures
        r.0@ == s@.subrange(if e.offset >= 3 { e.offset - 3 } else { 0 }, e.offset as int),
        r.1@ == s@.subrange(e.offset as int, if e.offset + 3 <= s@.len() { e.offset + 3 } else { s@.len() as int }),
{
    let o = e.offset;
    let from: usize = if o >= 3 { o - 3 } else { 0 };
    let to: usize = if s.len() >= 3 && o <= s.len() - 3 { o + 3 } else { s.len() };
    (slice_subrange(s, from, o), slice_subrange(s, o, to))
}

/// Whether an executable read agrees with the grammar's answer.
pub open spec fn agrees<'a>(r: Result<(Val<'a>, usize), ParseError>, m: Option<(SVal, int)>) -> bool {
    match m {
        Some((v, e)) => r is Ok && r->Ok_0.0@ == v && r->Ok_0.1 as int == e,
        None => r is Err,
    }
}

fn err<T>(kind: ErrorKind, production: Production, offset: usize) -> (r: Result<T, ParseError>)
    ensures
        r is Err,
        r->Err_0.offset == offset,
{
    Err(ParseError { kind, production, offset })
}

/// End of the run of `class` bytes from `p`.
pub fn scan_run(class: CharClass, s: &[u8], p: usize) -> (r: usize)
    requires
        p <= s@.len(),
    ensures
        r as int == run_end(class, s@, p as int),
        p <= r <= s@.len(),
{
    proof {
        lemma_window_matches_scalar(class, s@, p as int);
        lemma_run_end_bounds(class, s@, p as int);
    }
    run_end_simd(class, s, p)
}

/// Position after the whitespace at `p`; never fails.
pub fn opt_space(s: &[u8], p: usize) -> (r: usize)
    requires
        p <= s@.len(),
    ensures
        r as int == ws_end(s@, p as int),
        p <= r <= s@.len(),
{
    scan_run(CharClass::Space, s, p)
}

/// Position after the whitespace at `p`, which must not be empty.
pub fn req_space(s: &[u8], p: usize) -> (r: Result<usize, ParseError>)
    requires
        p <= s@.len(),
    ensures
        r is Err ==> r->Err_0.offset <= s@.len(),
        match r {
            Ok(e) => e as int == ws_end(s@, p as int) && e > p,
            Err(_) => ws_end(s@, p as int) == p,
        },
{
    let e = opt_space(s, p);
    if e == p {
        err(ErrorKind::Lexical, Production::Space, p)
    } else {
        Ok(e)
    }
}

/// First position at or after `p` holding `=`, `{` or `}`, or the length.
pub fn find_token(s: &[u8], p: usize) -> (r: usize)
    requires
        p <= s@.len(),
    ensures
        r as int == token_search(s@, p as int),
        p <= r <= s@.len(),
{
    let mut i = p;
    while i < s.len() && !is_member(CharClass::Token, s[i])
        invariant
            p <= i <= s@.len(),
            token_search(s@, p as int) == token_search(s@, i as int),
        decreases s@.len() - i,
    {
        i += 1;
    }
    i
}

/// `['-'] digit+ '.' digit+` at `p`.
pub fn decimal<'a>(s: &'a [u8], p: usize) -> (r: Result<(Val<'a>, usize), ParseError>)
    requires
        p <= s@.len(),
    ensures
        r is Err ==> r->Err_0.offset <= s@.len(),
        r is Ok ==> r->Ok_0.1 <= s@.len(),
        decimal_end(s@, p as int) >= 0 ==> agrees(r, Some((SVal::Decimal(s@.subrange(p as int, decimal_end(s@, p as int))), decimal_end(s@, p as int)))),
        decimal_end(s@, p as int) < 0 ==> r is Err,
{
    let q: usize = if p < s.len() && s[p] == 45 { p + 1 } else { p };
    let a = scan_run(CharClass::Digit, s, q);
    if a > q && a < s.len() && s[a] == 46 {
        let b = scan_run(CharClass::Digit, s, a + 1);
        if b > a + 1 {
            return Ok((Val::Decimal(slice_subrange(s, p, b)), b));
        }
    }
    err(ErrorKind::Lexical, Production::Decimal, p)
}

/// `['-'] digit+` at `p`, as an `i64`.
pub fn integer<'a>(s: &'a [u8], p: usize) -> (r: Result<(Val<'a>, usize), ParseError>)
    requires
        p <= s@.len(),
    ensures
        r is Err ==> r->Err_0.offset <= s@.len(),
        r is Ok ==> r->Ok_0.1 <= s@.len(),
        has_integer(s@, p as int) && in_i64(integer_value(s@, p as int)) ==> agrees(r, Some((SVal::Integer(integer_value(s@, p as int)), integer_end(s@, p as int)))),
        !(has_integer(s@, p as int) && in_i64(integer_value(s@, p as int))) ==> r is Err,
{
    match read_integer(s, p) {
        Some((v, e)) => Ok((Val::Integer(v), e)),
        None => err(ErrorKind::Numeric, Production::Integer, p),
    }
}

/// A letter or underscore, then letters, digits and underscores.
pub fn identifier<'a>(s: &'a [u8], p: usize) -> (r: Result<(Val<'a>, usize), ParseError>)
    requires
        p <= s@.len(),
    ensures
        r is Err ==> r->Err_0.offset <= s@.len(),
        r is Ok ==> r->Ok_0.1 <= s@.len(),
        0 <= p < s@.len() && is_identifier_start(s@[p as int]) ==> agrees(r, Some((SVal::Identifier(s@.subrange(p as int, run_end(CharClass::Identifier, s@, p as int))), run_end(CharClass::Identifier, s@, p as int)))),
        !(0 <= p < s@.len() && is_identifier_start(s@[p as int])) ==> r is Err,
{
    if p < s.len() && (is_member(CharClass::Alphabetic, s[p]) || s[p] == 95) {
        let e = scan_run(CharClass::Identifier, s, p);
        Ok((Val::Identifier(slice_subrange(s, p, e)), e))
    } else {
        err(ErrorKind::Lexical, Production::Identifier, p)
    }
}

/// A decimal, an integer or an identifier, tried in that order.
pub fn unquoted<'a>(s: &'a [u8], p: usize) -> (r: Result<(Val<'a>, usize), ParseError>)
    requires
        p <= s@.len(),
    ensures
        r is Err ==> r->Err_0.offset <= s@.len(),
        r is Ok ==> r->Ok_0.1 <= s@.len(),
        agrees(r, parse_unquoted(s@, p as int)),
{
    let d = decimal(s, p);
    if d.is_ok() {
        return d;
    }
    let q: usize = if p < s.len() && s[p] == 45 { p + 1 } else { p };
    let a = scan_run(CharClass::Digit, s, q);
    if a > q {
        return integer(s, p);
    }
    identifier(s, p)
}

/// End of the quoted run whose opening quote is at `p`.
pub fn quoted_run(s: &[u8], p: usize) -> (r: Option<usize>)
    requires
        p <= s@.len(),
    ensures
        match r {
            Some(e) => e as int == quoted_end(s@, p as int) && p + 2 <= e <= s@.len(),
            None => quoted_end(s@, p as int) < 0,
        },
{
    if p < s.len() && s[p] == 34 {
        let e = scan_run(CharClass::StringLiteralContents, s, p + 1);
        if e < s.len() && s[e] == 34 {
            return Some(e + 1);
        }
    }
    None
}

/// End of the run of string-literal bytes at `p`; the run may be empty.
pub fn string_literal_contents(s: &[u8], p: usize) -> (r: usize)
    requires
        p <= s@.len(),
    ensures
        r as int == run_end(CharClass::StringLiteralContents, s@, p as int),
        p <= r <= s@.len(),
{
    scan_run(CharClass::StringLiteralContents, s, p)
}

/// The run of string-literal bytes at `p`, as a string leaf; never fails.
pub fn string_literal<'a>(s: &'a [u8], p: usize) -> (r: (Val<'a>, usize))
    requires
        p <= s@.len(),
    ensures
        r.0@ == SVal::StringLiteral(s@.subrange(p as int, run_end(CharClass::StringLiteralContents, s@, p as int))),
        r.1 as int == run_end(CharClass::StringLiteralContents, s@, p as int),
{
    let e = string_literal_contents(s, p);
    (Val::StringLiteral(slice_subrange(s, p, e)), e)
}

/// The contents of a quoted run: a date where they are one, else a string.
pub fn quoted<'a>(s: &'a [u8], p: usize) -> (r: Result<(Val<'a>, usize), ParseError>)
    requires
        p <= s@.len(),
    ensures
        r is Err ==> r->Err_0.offset <= s@.len(),
        r is Ok ==> r->Ok_0.1 <= s@.len(),
        agrees(r, parse_quoted(s@, p as int)),
{
    match quoted_run(s, p) {
        Some(e) => {
            let c = slice_subrange(s, p + 1, e - 1);
            match map_to_date(c) {
                Ok(d) => Ok((Val::Date(d), e)),
                Err(_) => Ok((Val::StringLiteral(c), e)),
            }
        },
        None => err(ErrorKind::MissingDelimiter, Production::Quoted, p),
    }
}

/// An identifier used as a key.
pub fn unquoted_key<'a>(s: &'a [u8], p: usize) -> (r: Result<(&'a [u8], usize), ParseError>)
    requires
        p <= s@.len(),
    ensures
        r is Err ==> r->Err_0.offset <= s@.len(),
        0 <= p < s@.len() && is_identifier_start(s@[p as int]) ==> r is Ok && r->Ok_0.0@ == s@.subrange(p as int, run_end(CharClass::Identifier, s@, p as int)) && r->Ok_0.1 as int == run_end(CharClass::Identifier, s@, p as int),
        !(0 <= p < s@.len() && is_identifier_start(s@[p as int])) ==> r is Err,
{
    if p < s.len() && (is_member(CharClass::Alphabetic, s[p]) || s[p] == 95) {
        let e = scan_run(CharClass::Identifier, s, p);
        Ok((slice_subrange(s, p, e), e))
    } else {
        err(ErrorKind::Lexical, Production::Key, p)
    }
}

/// The contents of a quoted run used as a key.
pub fn quoted_key<'a>(s: &'a [u8], p: usize) -> (r: Result<(&'a [u8], usize), ParseError>)
    requires
        p <= s@.len(),
    ensures
        r is Err ==> r->Err_0.offset <= s@.len(),
        quoted_end(s@, p as int) >= 0 ==> r is Ok && r->Ok_0.0@ == s@.subrange(p + 1, quoted_end(s@, p as int) - 1) && r->Ok_0.1 as int == quoted_end(s@, p as int),
        quoted_end(s@, p as int) < 0 ==> r is Err,
{
    match quoted_run(s, p) {
        Some(e) => Ok((slice_subrange(s, p + 1, e - 1), e)),
        None => err(ErrorKind::MissingDelimiter, Production::Key, p),
    }
}

/// A dict key: an identifier or the contents of a quoted run.
pub fn key<'a>(s: &'a [u8], p: usize) -> (r: Result<(&'a [u8], usize), ParseError>)
    requires
        p <= s@.len(),
    ensures
        r is Err ==> r->Err_0.offset <= s@.len(),
        r is Ok ==> r->Ok_0.1 <= s@.len(),
        match parse_key(s@, p as int) {
            Some((k, e)) => r is Ok && r->Ok_0.0@ == k && r->Ok_0.1 as int == e,
            None => r is Err,
        },
{
    if p < s.len() && (is_member(CharClass::Alphabetic, s[p]) || s[p] == 95) {
        let e = scan_run(CharClass::Identifier, s, p);
        return Ok((slice_subrange(s, p, e), e));
    }
    match quoted_run(s, p) {
        Some(e) => Ok((slice_subrange(s, p + 1, e - 1), e)),
        None => err(ErrorKind::MissingDelimiter, Production::Key, p),
    }
}


/// `m` with `acc` put before the members it found.
pub open spec fn prepend<A>(acc: Seq<A>, m: Option<(Seq<A>, int)>) -> Option<(Seq<A>, int)> {
    match m {
        Some((rest, f)) => Some((acc + rest, f)),
        None => None,
    }
}

proof fn lemma_prepend_push<A>(acc: Seq<A>, x: A, m: Option<(Seq<A>, int)>)
    ensures
        prepend(acc, prepend(seq![x], m)) == prepend(acc.push(x), m),
{
    match m {
        Some((rest, f)) => {
            assert(acc + (seq![x] + rest) =~= acc.push(x) + rest);
        },
        None => {},
    }
}

/// A value at `p`.
pub fn value<'a>(s: &'a [u8], p: usize) -> (r: Result<(Val<'a>, usize), ParseError>)
    requires
        p <= s@.len(),
    ensures
        r is Err ==> r->Err_0.offset <= s@.len(),
        r is Ok ==> r->Ok_0.1 <= s@.len(),
        agrees(r, parse_value(s@, p as int)),
    decreases s@.len() - p, 4nat,
{
    if p >= s.len() {
        err(ErrorKind::Lexical, Production::Value, p)
    } else if s[p] == 123 {
        bracketed(s, p)
    } else if s[p] == 34 {
        quoted(s, p)
    } else {
        unquoted(s, p)
    }
}

/// A braced body at `p`, shaped by what it holds.
pub fn bracketed<'a>(s: &'a [u8], p: usize) -> (r: Result<(Val<'a>, usize), ParseError>)
    requires
        p <= s@.len(),
    ensures
        r is Err ==> r->Err_0.offset <= s@.len(),
        r is Ok ==> r->Ok_0.1 <= s@.len(),
        agrees(r, parse_bracketed(s@, p as int)),
    decreases s@.len() - p, 3nat,
{
    if p >= s.len() || s[p] != 123 {
        return err(ErrorKind::MissingDelimiter, Production::Bracketed, p);
    }
    let q = opt_space(s, p + 1);
    match contents(s, q) {
        Ok((v, e)) => {
            if e < s.len() && s[e] == 125 {
                Ok((v, e + 1))
            } else {
                err(ErrorKind::MissingDelimiter, Production::Bracketed, e)
            }
        },
        Err(x) => Err(x),
    }
}

/// The members of a braced body from `q`: a list, an array or a dict, as
/// the first structural byte from `q` and an integer at `q` decide.
pub fn contents<'a>(s: &'a [u8], q: usize) -> (r: Result<(Val<'a>, usize), ParseError>)
    requires
        q <= s@.len(),
    ensures
        r is Err ==> r->Err_0.offset <= s@.len(),
        r is Ok ==> r->Ok_0.1 <= s@.len(),
        agrees(r, parse_body(s@, q as int)),
    decreases s@.len() - q, 9nat,
{
    let t = find_token(s, q);
    if t >= s.len() {
        return err(ErrorKind::Unterminated, Production::Body, q);
    }
    let q2: usize = if q < s.len() && s[q] == 45 { q + 1 } else { q };
    let a = scan_run(CharClass::Digit, s, q2);
    let integer_first = a > q2;
    if s[t] == 125 {
        match set(s, q, MemberKind::Value) {
            Ok((items, e)) => Ok((Val::List(items), e)),
            Err(x) => Err(x),
        }
    } else if s[t] == 61 {
        if integer_first {
            match array(s, q) {
                Ok((items, e)) => Ok((Val::Array(items), e)),
                Err(x) => Err(x),
            }
        } else {
            match hash_map(s, q) {
                Ok((entries, e)) => Ok((Val::Dict(entries), e)),
                Err(x) => Err(x),
            }
        }
    } else if integer_first {
        match set(s, q, MemberKind::Numbered) {
            Ok((items, e)) => Ok((Val::List(items), e)),
            Err(x) => Err(x),
        }
    } else {
        match set(s, q, MemberKind::Bracketed) {
            Ok((items, e)) => Ok((Val::List(items), e)),
            Err(x) => Err(x),
        }
    }
}

/// One member of a list of bare members.
pub fn member<'a>(s: &'a [u8], p: usize, kind: MemberKind) -> (r: Result<(Val<'a>, usize), ParseError>)
    requires
        p <= s@.len(),
    ensures
        r is Err ==> r->Err_0.offset <= s@.len(),
        r is Ok ==> r->Ok_0.1 <= s@.len(),
        agrees(r, parse_member(s@, p as int, kind)),
    decreases s@.len() - p, 6nat,
{
    match kind {
        MemberKind::Value => value(s, p),
        MemberKind::Bracketed => bracketed(s, p),
        MemberKind::Numbered => numbered_dict(s, p),
    }
}

/// Bare members from `p`, separated by required whitespace, up to `}` or
/// the end of the text.
pub fn set<'a>(s: &'a [u8], p: usize, kind: MemberKind) -> (r: Result<(Vec<Val<'a>>, usize), ParseError>)
    requires
        p <= s@.len(),
    ensures
        r is Err ==> r->Err_0.offset <= s@.len(),
        r is Ok ==> r->Ok_0.1 <= s@.len(),
        match parse_members(s@, p as int, kind) {
            Some((items, e)) => r is Ok && Val::items_view(&r->Ok_0.0) == items && r->Ok_0.1 as int == e,
            None => r is Err,
        },
    decreases s@.len() - p, 8nat,
{
    let mut out: Vec<Val<'a>> = Vec::new();
    let mut i = p;
    assert(Val::items_view(&out) =~= Seq::<SVal>::empty());
    assert(parse_members(s@, p as int, kind) == prepend(Seq::<SVal>::empty(), parse_members(s@, p as int, kind))) by {
        match parse_members(s@, p as int, kind) {
            Some((rest, f)) => { assert(Seq::<SVal>::empty() + rest =~= rest); },
            None => {},
        }
    };
    loop
        invariant
            p <= i <= s@.len(),
            parse_members(s@, p as int, kind) == prepend(Val::items_view(&out), parse_members(s@, i as int, kind)),
        decreases s@.len() - i,
    {
        if i == s.len() || s[i] == 125 {
            assert(Val::items_view(&out) + Seq::<SVal>::empty() =~= Val::items_view(&out));
            return Ok((out, i));
        }
        let (v, e) = match member(s, i, kind) {
            Ok(x) => x,
            Err(x) => return Err(x),
        };
        if e <= i {
            return err(ErrorKind::Lexical, Production::Members, i);
        }
        let w = opt_space(s, e);
        let ghost old_view = Val::items_view(&out);
        let ghost vv = v@;
        out.push(v);
        assert(Val::items_view(&out) =~= old_view.push(vv));
        proof {
            lemma_prepend_push(old_view, vv, parse_members(s@, w as int, kind));
        }
        if w == s.len() || s[w] == 125 {
            assert(old_view + seq![vv] =~= old_view.push(vv));
            return Ok((out, w));
        }
        if w == e {
            return err(ErrorKind::Lexical, Production::Members, e);
        }
        i = w;
    }
}

/// `key '=' value` at `p`.
pub fn key_value<'a>(s: &'a [u8], p: usize) -> (r: Result<((&'a [u8], Val<'a>), usize), ParseError>)
    requires
        p <= s@.len(),
    ensures
        r is Err ==> r->Err_0.offset <= s@.len(),
        r is Ok ==> r->Ok_0.1 <= s@.len(),
        match parse_key_value(s@, p as int) {
            Some(((k, v), e)) => r is Ok && r->Ok_0.0.0@ == k && r->Ok_0.0.1@ == v && r->Ok_0.1 as int == e,
            None => r is Err,
        },
    decreases s@.len() - p, 5nat,
{
    let (k, e) = match key(s, p) {
        Ok(x) => x,
        Err(x) => return Err(x),
    };
    if e <= p {
        return err(ErrorKind::Lexical, Production::KeyValue, p);
    }
    let a = opt_space(s, e);
    if a >= s.len() || s[a] != 61 {
        return err(ErrorKind::MissingDelimiter, Production::KeyValue, a);
    }
    let b = opt_space(s, a + 1);
    match value(s, b) {
        Ok((v, f)) => Ok(((k, v), f)),
        Err(x) => Err(x),
    }
}

/// `key '=' value` members from `p`, as for `set`.
pub fn hash_map<'a>(s: &'a [u8], p: usize) -> (r: Result<(Vec<(&'a [u8], Val<'a>)>, usize), ParseError>)
    requires
        p <= s@.len(),
    ensures
        r is Err ==> r->Err_0.offset <= s@.len(),
        r is Ok ==> r->Ok_0.1 <= s@.len(),
        match parse_entries(s@, p as int) {
            Some((entries, e)) => r is Ok && Val::entries_view(&r->Ok_0.0) == entries && r->Ok_0.1 as int == e,
            None => r is Err,
        },
    decreases s@.len() - p, 8nat,
{
    let mut out: Vec<(&'a [u8], Val<'a>)> = Vec::new();
    let mut i = p;
    assert(Val::entries_view(&out) =~= Seq::<(Seq<u8>, SVal)>::empty());
    assert(parse_entries(s@, p as int) == prepend(Seq::<(Seq<u8>, SVal)>::empty(), parse_entries(s@, p as int))) by {
        match parse_entries(s@, p as int) {
            Some((rest, f)) => { assert(Seq::<(Seq<u8>, SVal)>::empty() + rest =~= rest); },
            None => {},
        }
    };
    loop
        invariant
            p <= i <= s@.len(),
            parse_entries(s@, p as int) == prepend(Val::entries_view(&out), parse_entries(s@, i as int)),
        decreases s@.len() - i,
    {
        if i == s.len() || s[i] == 125 {
            assert(Val::entries_view(&out) + Seq::<(Seq<u8>, SVal)>::empty() =~= Val::entries_view(&out));
            return Ok((out, i));
        }
        let (kv, e) = match key_value(s, i) {
            Ok(x) => x,
            Err(x) => return Err(x),
        };
        if e <= i {
            return err(ErrorKind::Lexical, Production::Entries, i);
        }
        let w = opt_space(s, e);
        let ghost old_view = Val::entries_view(&out);
        let ghost vv = (kv.0@, kv.1@);
        out.push(kv);
        assert(Val::entries_view(&out) =~= old_view.push(vv));
        proof {
            lemma_prepend_push(old_view, vv, parse_entries(s@, w as int));
        }
        if w == s.len() || s[w] == 125 {
            assert(old_view + seq![vv] =~= old_view.push(vv));
            return Ok((out, w));
        }
        if w == e {
            return err(ErrorKind::Lexical, Production::Entries, e);
        }
        i = w;
    }
}

/// `key '=' value` members from `p` as a dict.
pub fn dict<'a>(s: &'a [u8], p: usize) -> (r: Result<(Val<'a>, usize), ParseError>)
    requires
        p <= s@.len(),
    ensures
        r is Err ==> r->Err_0.offset <= s@.len(),
        match parse_entries(s@, p as int) {
            Some((entries, e)) => agrees(r, Some((SVal::Dict(entries), e))),
            None => r is Err,
        },
{
    match hash_map(s, p) {
        Ok((entries, e)) => Ok((Val::Dict(entries), e)),
        Err(x) => Err(x),
    }
}

/// `integer whitespace '{' dict-body '}'` at `p`.
pub fn numbered_dict<'a>(s: &'a [u8], p: usize) -> (r: Result<(Val<'a>, usize), ParseError>)
    requires
        p <= s@.len(),
    ensures
        r is Err ==> r->Err_0.offset <= s@.len(),
        r is Ok ==> r->Ok_0.1 <= s@.len(),
        agrees(r, parse_numbered_dict(s@, p as int)),
    decreases s@.len() - p, 5nat,
{
    let (tag, e) = match read_integer(s, p) {
        Some(x) => x,
        None => return err(ErrorKind::Numeric, Production::NumberedDict, p),
    };
    let w = opt_space(s, e);
    if w == e {
        return err(ErrorKind::Lexical, Production::NumberedDict, e);
    }
    if w >= s.len() || s[w] != 123 {
        return err(ErrorKind::MissingDelimiter, Production::NumberedDict, w);
    }
    let q = opt_space(s, w + 1);
    match hash_map(s, q) {
        Ok((entries, f)) => {
            if f < s.len() && s[f] == 125 {
                Ok((Val::NumberedDict(tag, entries), f + 1))
            } else {
                err(ErrorKind::MissingDelimiter, Production::NumberedDict, f)
            }
        },
        Err(x) => Err(x),
    }
}


/// `digit+ '=' value` at `p`.
pub fn number_value<'a>(s: &'a [u8], p: usize) -> (r: Result<((i64, Val<'a>), usize), ParseError>)
    requires
        p <= s@.len(),
    ensures
        r is Err ==> r->Err_0.offset <= s@.len(),
        r is Ok ==> r->Ok_0.1 <= s@.len(),
        match parse_index_value(s@, p as int) {
            Some(((i, v), e)) => r is Ok && r->Ok_0.0.0 as int == i && r->Ok_0.0.1@ == v && r->Ok_0.1 as int == e,
            None => r is Err,
        },
    decreases s@.len() - p, 5nat,
{
    let e = scan_run(CharClass::Digit, s, p);
    if e == p {
        return err(ErrorKind::Lexical, Production::IndexValue, p);
    }
    proof {
        lemma_run_end_bounds(CharClass::Digit, s@, p as int);
    }
    let i = digits_value_capped(s, p, e, 9223372036854775808u64);
    if i == 9223372036854775808u64 {
        return err(ErrorKind::Numeric, Production::IndexValue, p);
    }
    let a = opt_space(s, e);
    if a >= s.len() || s[a] != 61 {
        return err(ErrorKind::MissingDelimiter, Production::IndexValue, a);
    }
    let b = opt_space(s, a + 1);
    match value(s, b) {
        Ok((v, f)) => Ok(((i as i64, v), f)),
        Err(x) => Err(x),
    }
}

proof fn lemma_insert_pos_prefix(sorted: Seq<(int, SVal)>, x: (int, SVal), j: int)
    requires
        0 < j <= sorted.len(),
        sorted[j - 1].0 > x.0,
    ensures
        insert_pos(sorted.subrange(0, j), x) == insert_pos(sorted.subrange(0, j - 1), x),
{
    assert(sorted.subrange(0, j).drop_last() =~= sorted.subrange(0, j - 1));
}

proof fn lemma_insert_pos_stop(sorted: Seq<(int, SVal)>, x: (int, SVal), j: int)
    requires
        0 <= j <= sorted.len(),
        j == 0 || sorted[j - 1].0 <= x.0,
    ensures
        insert_pos(sorted.subrange(0, j), x) == j,
{
}

/// `digit+ '=' value` members from `p`, as for `set`, ordered by their
/// positions; members with equal positions keep their order.
pub fn array<'a>(s: &'a [u8], p: usize) -> (r: Result<(Vec<Val<'a>>, usize), ParseError>)
    requires
        p <= s@.len(),
    ensures
        r is Err ==> r->Err_0.offset <= s@.len(),
        r is Ok ==> r->Ok_0.1 <= s@.len(),
        match parse_indexed(s@, p as int) {
            Some((pairs, e)) => r is Ok && Val::items_view(&r->Ok_0.0) == sort_by_index(pairs).map_values(|x: (int, SVal)| x.1) && r->Ok_0.1 as int == e,
            None => r is Err,
        },
    decreases s@.len() - p, 8nat,
{
    let mut keys: Vec<i64> = Vec::new();
    let mut vals: Vec<Val<'a>> = Vec::new();
    let ghost mut acc: Seq<(int, SVal)> = Seq::empty();
    let mut i = p;
    assert(Val::items_view(&vals) =~= sort_by_index(acc).map_values(|x: (int, SVal)| x.1));
    assert(parse_indexed(s@, p as int) == prepend(acc, parse_indexed(s@, p as int))) by {
        match parse_indexed(s@, p as int) {
            Some((rest, f)) => { assert(acc + rest =~= rest); },
            None => {},
        }
    };
    loop
        invariant
            p <= i <= s@.len(),
            parse_indexed(s@, p as int) == prepend(acc, parse_indexed(s@, i as int)),
            keys@.len() == vals@.len(),
            keys@.len() == sort_by_index(acc).len(),
            forall|m: int| 0 <= m < keys@.len() ==> #[trigger] keys@[m] as int == sort_by_index(acc)[m].0,
            Val::items_view(&vals) == sort_by_index(acc).map_values(|x: (int, SVal)| x.1),
        decreases s@.len() - i,
    {
        if i == s.len() || s[i] == 125 {
            assert(acc + Seq::<(int, SVal)>::empty() =~= acc);
            return Ok((vals, i));
        }
        let ((k, v), e) = match number_value(s, i) {
            Ok(x) => x,
            Err(x) => return Err(x),
        };
        if e <= i {
            return err(ErrorKind::Lexical, Production::Indexed, i);
        }
        let w = opt_space(s, e);
        let at_end = w == s.len() || s[w] == 125;
        if !at_end && w == e {
            return err(ErrorKind::Lexical, Production::Indexed, e);
        }
        let ghost sorted = sort_by_index(acc);
        let ghost x = (k as int, v@);
        let mut j = vals.len();
        assert(sorted.subrange(0, j as int) =~= sorted);
        while j > 0 && keys[j - 1] > k
            invariant
                j <= keys@.len(),
                x.0 == k as int,
                keys@.len() == sorted.len(),
                forall|m: int| 0 <= m < keys@.len() ==> #[trigger] keys@[m] as int == sorted[m].0,
                insert_pos(sorted, x) == insert_pos(sorted.subrange(0, j as int), x),
            decreases j,
        {
            proof {
                assert(keys@[j - 1] as int == sorted[j - 1].0);
                lemma_insert_pos_prefix(sorted, x, j as int);
            }
            j -= 1;
        }
        proof {
            lemma_insert_pos_stop(sorted, x, j as int);
        }
        let ghost old_view = Val::items_view(&vals);
        keys.insert(j, k);
        vals.insert(j, v);
        proof {
            let nacc = acc.push(x);
            assert(nacc.drop_last() =~= acc);
            assert(sort_by_index(nacc) == sorted.insert(j as int, x));
            assert(Val::items_view(&vals) =~= old_view.insert(j as int, x.1));
            assert(sorted.insert(j as int, x).map_values(|y: (int, SVal)| y.1) =~= sorted.map_values(|y: (int, SVal)| y.1).insert(j as int, x.1));
            lemma_prepend_push(acc, x, parse_indexed(s@, w as int));
            if at_end {
                assert(acc + seq![x] =~= nacc);
            }
            acc = nacc;
        }
        if at_end {
            return Ok((vals, w));
        }
        i = w;
    }
}

/// The whole text as a dict body, with optional surrounding whitespace.
pub fn root<'a>(s: &'a [u8]) -> (r: Result<Val<'a>, ParseError>)
    ensures
        r is Err ==> r->Err_0.offset <= s@.len(),
        match parse_root(s@) {
            Some(v) => r is Ok && r->Ok_0@ == v,
            None => r is Err,
        },
{
    let q = opt_space(s, 0);
    match hash_map(s, q) {
        Ok((entries, e)) => {
            if e == s.len() {
                Ok(Val::Dict(entries))
            } else {
                err(ErrorKind::MissingDelimiter, Production::Root, e)
            }
        },
        Err(x) => Err(x),
    }
}


/// Reads the two texts of a save file.
pub struct Parser {}

impl Parser {
    /// Reads a meta text.
    pub fn from_meta<'a>(text: &'a [u8]) -> (r: Result<Val<'a>, ParseError>)
        ensures
            match parse_root(text@) {
                Some(v) => r is Ok && r->Ok_0@ == v,
                None => r is Err,
            },
    {
        root(text)
    }

    /// Reads a gamestate text.
    pub fn from_gamestate<'a>(text: &'a [u8]) -> (r: Result<Val<'a>, ParseError>)
        ensures
            match parse_root(text@) {
                Some(v) => r is Ok && r->Ok_0@ == v,
                None => r is Err,
            },
    {
        root(text)
    }
}

} // verus!
