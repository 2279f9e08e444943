//! The value tree and its mathematical model.
use vstd::prelude::*;

verus! {

/// A calendar date as its three fields.
#[derive(Clone, Copy, Debug, PartialEq, Eq)]
pub struct Date {
    pub year: i32,
    pub month: u8,
    pub day: u8,
}

/// A parsed value. Every string leaf, and the text of a decimal, is a
/// sub-slice of the input buffer.
#[derive(Debug, PartialEq)]
pub enum Val<'a> {
    Dict(Vec<(&'a [u8], Val<'a>)>),
    NumberedDict(i64, Vec<(&'a [u8], Val<'a>)>),
    Array(Vec<Val<'a>>),
    /// A braced body of bare values, kept in input order (the format's "set").
    List(Vec<Val<'a>>),
    StringLiteral(&'a [u8]),
    Date(Date),
    Decimal(&'a [u8]),
    Integer(i64),
    Identifier(&'a [u8]),
}

/// The model of a `Val`: leaves as byte sequences, numbers as integers.
pub enum SVal {
    Dict(Seq<(Seq<u8>, SVal)>),
    NumberedDict(int, Seq<(Seq<u8>, SVal)>),
    Array(Seq<SVal>),
    List(Seq<SVal>),
    StringLiteral(Seq<u8>),
    Date(int, int, int),
    Decimal(Seq<u8>),
    Integer(int),
    Identifier(Seq<u8>),
}

impl<'a> Val<'a> {
    pub open spec fn view(&self) -> SVal
        decreases self,
    {
        match self {
            Val::Dict(entries) => SVal::Dict(Self::entries_view(entries)),
            Val::NumberedDict(tag, entries) => SVal::NumberedDict(
                *tag as int,
                Self::entries_view(entries),
            ),
            Val::Array(items) => SVal::Array(Self::items_view(items)),
            Val::List(items) => SVal::List(Self::items_view(items)),
            Val::StringLiteral(s) => SVal::StringLiteral(s@),
            Val::Date(d) => SVal::Date(d.year as int, d.month as int, d.day as int),
            Val::Decimal(s) => SVal::Decimal(s@),
            Val::Integer(i) => SVal::Integer(*i as int),
            Val::Identifier(s) => SVal::Identifier(s@),
        }
    }

    pub open spec fn items_view(items: &Vec<Val<'a>>) -> Seq<SVal>
        decreases items,
    {
        Seq::new(
            items.len() as nat,
            |i: int|
                if 0 <= i < items.len() {
                    items[i].view()
                } else {
                    SVal::Integer(0)
                },
        )
    }

    pub open spec fn entries_view(entries: &Vec<(&'a [u8], Val<'a>)>) -> Seq<(Seq<u8>, SVal)>
        decreases entries,
    {
        Seq::new(
            entries.len() as nat,
            |i: int|
                if 0 <= i < entries.len() {
                    (entries[i].0@, entries[i].1.view())
                } else {
                    (Seq::empty(), SVal::Integer(0))
                },
        )
    }
}

} // verus!
