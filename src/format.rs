//! A canonical text for a value tree, in the format's own syntax.
use vstd::prelude::*;
use crate::value::{Date, SVal, Val};

verus! {

/// Decimal digits of a natural number.
pub open spec fn nat_text(n: nat) -> Seq<u8>
    decreases n,
{
    if n < 10 {
        seq![(48 + n) as u8]
    } else {
        nat_text(n / 10).push((48 + n % 10) as u8)
    }
}

pub open spec fn int_text(i: int) -> Seq<u8> {
    if i < 0 {
        seq![45u8] + nat_text((-i) as nat)
    } else {
        nat_text(i as nat)
    }
}

/// At least two digits: a leading zero below ten.
pub open spec fn two_digit_text(n: nat) -> Seq<u8> {
    if n < 10 {
        seq![48u8, (48 + n) as u8]
    } else {
        nat_text(n)
    }
}

pub open spec fn quote(t: Seq<u8>) -> Seq<u8> {
    seq![34u8] + t + seq![34u8]
}

/// The canonical text of a value: containers as `{ ... }` with a space after
/// each member, dict keys quoted, array members numbered from 0, dates as
/// `"year.MM.DD"`.
pub open spec fn text_of(v: SVal) -> Seq<u8>
    decreases v, 0nat,
{
    match v {
        SVal::Dict(entries) => seq![123u8, 32] + entries_text(entries, entries.len() as int, 32)
            + seq![125u8],
        SVal::NumberedDict(tag, entries) => int_text(tag) + seq![32u8, 123, 32] + entries_text(
            entries,
            entries.len() as int,
            32,
        ) + seq![125u8],
        SVal::Array(items) => seq![123u8, 32] + indexed_text(items, items.len() as int) + seq![125u8],
        SVal::List(items) => seq![123u8, 32] + items_text(items, items.len() as int) + seq![125u8],
        SVal::StringLiteral(t) => quote(t),
        SVal::Date(y, m, d) => quote(
            int_text(y) + seq![46u8] + two_digit_text(m as nat) + seq![46u8] + two_digit_text(d as nat),
        ),
        SVal::Decimal(t) => t,
        SVal::Integer(i) => int_text(i),
        SVal::Identifier(t) => t,
    }
}

/// The first `k` members, each followed by a space.
pub open spec fn items_text(items: Seq<SVal>, k: int) -> Seq<u8>
    decreases items, k,
{
    if 0 < k <= items.len() {
        items_text(items, k - 1) + text_of(items[k - 1]) + seq![32u8]
    } else {
        Seq::empty()
    }
}

/// The first `k` members as `index=value`, each followed by a space.
pub open spec fn indexed_text(items: Seq<SVal>, k: int) -> Seq<u8>
    decreases items, k,
{
    if 0 < k <= items.len() {
        indexed_text(items, k - 1) + int_text(k - 1) + seq![61u8] + text_of(items[k - 1]) + seq![32u8]
    } else {
        Seq::empty()
    }
}

pub open spec fn entry_text(key: Seq<u8>, v: SVal) -> Seq<u8>
    decreases v, 1nat,
{
    quote(key) + seq![61u8] + text_of(v)
}

/// The first `k` entries as `"key"=value`, each followed by `sep`.
pub open spec fn entries_text(entries: Seq<(Seq<u8>, SVal)>, k: int, sep: u8) -> Seq<u8>
    decreases entries, k,
{
    if 0 < k <= entries.len() {
        entries_text(entries, k - 1, sep) + entry_text(entries[k - 1].0, entries[k - 1].1) + seq![
            sep,
        ]
    } else {
        Seq::empty()
    }
}

/// The canonical text of a whole document: its entries, one per line.
pub open spec fn document_text(entries: Seq<(Seq<u8>, SVal)>) -> Seq<u8> {
    entries_text(entries, entries.len() as int, 10)
}

fn push_all(out: &mut Vec<u8>, t: &[u8])
    ensures
        final(out)@ == old(out)@ + t@,
{
    let ghost start = out@;
    let mut i: usize = 0;
    while i < t.len()
        invariant
            i <= t@.len(),
            out@ == start + t@.take(i as int),
        decreases t@.len() - i,
    {
        out.push(t[i]);
        assert(out@ =~= start + t@.take(i as int + 1));
        i += 1;
    }
    assert(t@.take(i as int) =~= t@);
}

proof fn lemma_nat_text_step(n: nat)
    requires
        n >= 10,
    ensures
        nat_text(n) == nat_text(n / 10).push((48 + n % 10) as u8),
{
}

/// Appends the digits of `n`.
fn push_nat(out: &mut Vec<u8>, n: u64)
    ensures
        final(out)@ == old(out)@ + nat_text(n as nat),
    decreases n,
{
    if n < 10 {
        out.push((48 + n) as u8);
        assert(nat_text(n as nat) =~= seq![(48 + n) as u8]);
    } else {
        let ghost start = out@;
        push_nat(out, n / 10);
        out.push((48 + n % 10) as u8);
        proof {
            lemma_nat_text_step(n as nat);
        }
        assert(out@ =~= start + nat_text(n as nat));
    }
}

/// Appends the text of an integer.
pub fn format_integer(out: &mut Vec<u8>, i: i64)
    ensures
        final(out)@ == old(out)@ + int_text(i as int),
{
    if i < 0 {
        let ghost start = out@;
        out.push(45);
        let m: u64 = if i == i64::MIN {
            9223372036854775808u64
        } else {
            (-i) as u64
        };
        push_nat(out, m);
        assert(out@ =~= start + int_text(i as int));
    } else {
        push_nat(out, i as u64);
    }
}

fn push_two_digits(out: &mut Vec<u8>, n: u8)
    ensures
        final(out)@ == old(out)@ + two_digit_text(n as nat),
{
    if n < 10 {
        let ghost start = out@;
        out.push(48);
        out.push(48 + n);
        assert(out@ =~= start + two_digit_text(n as nat));
    } else {
        push_nat(out, n as u64);
    }
}

/// Appends `"year.MM.DD"`.
pub fn format_date(out: &mut Vec<u8>, d: &Date)
    ensures
        final(out)@ == old(out)@ + text_of(SVal::Date(d.year as int, d.month as int, d.day as int)),
{
    let ghost start = out@;
    out.push(34);
    let ghost a = out@;
    format_integer(out, d.year as i64);
    out.push(46);
    push_two_digits(out, d.month);
    out.push(46);
    push_two_digits(out, d.day);
    out.push(34);
    assert(out@ =~= start + quote(
        int_text(d.year as int) + seq![46u8] + two_digit_text(d.month as nat) + seq![46u8] + two_digit_text(d.day as nat),
    ));
}

/// Appends `"t"`.
pub fn format_string_literal(out: &mut Vec<u8>, t: &[u8])
    ensures
        final(out)@ == old(out)@ + quote(t@),
{
    let ghost start = out@;
    out.push(34);
    push_all(out, t);
    out.push(34);
    assert(out@ =~= start + quote(t@));
}

/// Appends the text of a decimal as it was read.
pub fn format_decimal(out: &mut Vec<u8>, t: &[u8])
    ensures
        final(out)@ == old(out)@ + t@,
{
    push_all(out, t);
}

pub fn format_identifier(out: &mut Vec<u8>, t: &[u8])
    ensures
        final(out)@ == old(out)@ + t@,
{
    push_all(out, t);
}

/// Appends `"key"=value`.
pub fn get_key_value_pair_strings(out: &mut Vec<u8>, key: &[u8], v: &Val)
    ensures
        final(out)@ == old(out)@ + entry_text(key@, v@),
    decreases v, 1nat,
{
    let ghost start = out@;
    format_string_literal(out, key);
    out.push(61);
    format_val(out, v);
    assert(out@ =~= start + entry_text(key@, v@));
}

fn format_entries(out: &mut Vec<u8>, entries: &Vec<(&[u8], Val)>, sep: u8)
    ensures
        final(out)@ == old(out)@ + entries_text(Val::entries_view(entries), entries@.len() as int, sep),
    decreases entries, 0nat,
{
    let ghost ev = Val::entries_view(entries);
    let ghost start = out@;
    let mut i: usize = 0;
    while i < entries.len()
        invariant
            ev == Val::entries_view(entries),
            i <= entries@.len(),
            out@ == start + entries_text(ev, i as int, sep),
        decreases entries@.len() - i,
    {
        assert(ev[i as int] == (entries@[i as int].0@, entries@[i as int].1@));
        get_key_value_pair_strings(out, entries[i].0, &entries[i].1);
        out.push(sep);
        assert(out@ =~= start + entries_text(ev, i as int + 1, sep));
        i += 1;
    }
}

/// Appends `{ "key"=value ... }`.
pub fn format_dict(out: &mut Vec<u8>, entries: &Vec<(&[u8], Val)>)
    ensures
        final(out)@ == old(out)@ + text_of(SVal::Dict(Val::entries_view(entries))),
    decreases entries, 1nat,
{
    let ghost start = out@;
    out.push(123);
    out.push(32);
    format_entries(out, entries, 32);
    out.push(125);
    assert(out@ =~= start + text_of(SVal::Dict(Val::entries_view(entries))));
}

/// Appends `tag { "key"=value ... }`.
pub fn format_numbered_dict(out: &mut Vec<u8>, tag: i64, entries: &Vec<(&[u8], Val)>)
    ensures
        final(out)@ == old(out)@ + text_of(SVal::NumberedDict(tag as int, Val::entries_view(entries))),
    decreases entries, 1nat,
{
    let ghost start = out@;
    format_integer(out, tag);
    out.push(32);
    out.push(123);
    out.push(32);
    format_entries(out, entries, 32);
    out.push(125);
    assert(out@ =~= start + text_of(SVal::NumberedDict(tag as int, Val::entries_view(entries))));
}

/// Appends `{ 0=value 1=value ... }`.
pub fn format_array(out: &mut Vec<u8>, items: &Vec<Val>)
    ensures
        final(out)@ == old(out)@ + text_of(SVal::Array(Val::items_view(items))),
    decreases items, 1nat,
{
    let ghost iv = Val::items_view(items);
    let ghost start = out@;
    out.push(123);
    out.push(32);
    let ghost open = out@;
    let mut i: usize = 0;
    while i < items.len()
        invariant
            iv == Val::items_view(items),
            i <= items@.len(),
            out@ == open + indexed_text(iv, i as int),
            open == start + seq![123u8, 32],
        decreases items@.len() - i,
    {
        push_nat(out, i as u64);
        out.push(61);
        format_val(out, &items[i]);
        out.push(32);
        assert(out@ =~= open + indexed_text(iv, i as int + 1));
        i += 1;
    }
    out.push(125);
    assert(out@ =~= start + text_of(SVal::Array(iv)));
}

/// Appends `{ value value ... }`.
pub fn format_set(out: &mut Vec<u8>, items: &Vec<Val>)
    ensures
        final(out)@ == old(out)@ + text_of(SVal::List(Val::items_view(items))),
    decreases items, 1nat,
{
    let ghost iv = Val::items_view(items);
    let ghost start = out@;
    out.push(123);
    out.push(32);
    let ghost open = out@;
    let mut i: usize = 0;
    while i < items.len()
        invariant
            iv == Val::items_view(items),
            i <= items@.len(),
            out@ == open + items_text(iv, i as int),
            open == start + seq![123u8, 32],
        decreases items@.len() - i,
    {
        format_val(out, &items[i]);
        out.push(32);
        assert(out@ =~= open + items_text(iv, i as int + 1));
        i += 1;
    }
    out.push(125);
    assert(out@ =~= start + text_of(SVal::List(iv)));
}

/// Appends the canonical text of `v`.
pub fn format_val(out: &mut Vec<u8>, v: &Val)
    ensures
        final(out)@ == old(out)@ + text_of(v@),
    decreases v, 0nat,
{
    match v {
        Val::Dict(entries) => format_dict(out, entries),
        Val::NumberedDict(tag, entries) => format_numbered_dict(out, *tag, entries),
        Val::Array(items) => format_array(out, items),
        Val::List(items) => format_set(out, items),
        Val::StringLiteral(t) => format_string_literal(out, t),
        Val::Date(d) => format_date(out, d),
        Val::Decimal(t) => format_decimal(out, t),
        Val::Integer(i) => format_integer(out, *i),
        Val::Identifier(t) => format_identifier(out, t),
    }
}


/// The canonical text of a document whose top-level entries are `entries`.
pub fn format_document(entries: &Vec<(&[u8], Val)>) -> (r: Vec<u8>)
    ensures
        r@ == document_text(Val::entries_view(entries)),
{
    let mut out: Vec<u8> = Vec::new();
    format_entries(&mut out, entries, 10);
    assert(out@ =~= document_text(Val::entries_view(entries)));
    out
}

} // verus!
