//! Path-addressed access to a value tree, and typed views of its nodes.
use vstd::prelude::*;
use crate::value::{SVal, Val};

verus! {

/// One step of a path: a dict key or an array index.
#[derive(Clone, Copy, Debug)]
pub enum PathComponent<'k> {
    Key(&'k [u8]),
    Index(usize),
}

pub enum SComponent {
    Key(Seq<u8>),
    Index(int),
}

impl<'k> PathComponent<'k> {
    pub open spec fn view(&self) -> SComponent {
        match self {
            PathComponent::Key(k) => SComponent::Key(k@),
            PathComponent::Index(i) => SComponent::Index(*i as int),
        }
    }
}

pub open spec fn path_view(path: Seq<PathComponent>) -> Seq<SComponent> {
    path.map_values(|c: PathComponent| c@)
}

#[derive(Clone, Copy, Debug, PartialEq, Eq)]
pub enum PathErrorKind {
    ExpectedDict,
    KeyNotFound,
    ExpectedArray,
    IndexOutOfBounds,
}

/// A failed lookup: why, and at which component of the path.
#[derive(Clone, Copy, Debug, PartialEq, Eq)]
pub struct PathParseError {
    pub kind: PathErrorKind,
    pub depth: usize,
}

/// Index of the first entry from `j` on whose key is `k`, or -1.
pub open spec fn key_index_from(entries: Seq<(Seq<u8>, SVal)>, k: Seq<u8>, j: int) -> int
    decreases entries.len() - j,
{
    if 0 <= j < entries.len() {
        if entries[j].0 == k {
            j
        } else {
            key_index_from(entries, k, j + 1)
        }
    } else {
        -1
    }
}

/// One step of a lookup.
pub open spec fn step(v: SVal, c: SComponent) -> Result<SVal, PathErrorKind> {
    match c {
        SComponent::Key(k) => match v {
            SVal::Dict(entries) => {
                let i = key_index_from(entries, k, 0);
                if i >= 0 {
                    Ok(entries[i].1)
                } else {
                    Err(PathErrorKind::KeyNotFound)
                }
            },
            _ => Err(PathErrorKind::ExpectedDict),
        },
        SComponent::Index(i) => match v {
            SVal::Array(items) => if 0 <= i < items.len() {
                Ok(items[i])
            } else {
                Err(PathErrorKind::IndexOutOfBounds)
            },
            _ => Err(PathErrorKind::ExpectedArray),
        },
    }
}

/// The node that `path`, from its component `i` on, leads to from `v`; or
/// the first failing step and its component.
pub open spec fn lookup_from(v: SVal, path: Seq<SComponent>, i: int) -> Result<SVal, (PathErrorKind, int)>
    decreases path.len() - i,
{
    if 0 <= i < path.len() {
        match step(v, path[i]) {
            Ok(w) => lookup_from(w, path, i + 1),
            Err(kind) => Err((kind, i)),
        }
    } else {
        Ok(v)
    }
}

pub open spec fn lookup(v: SVal, path: Seq<SComponent>) -> Result<SVal, (PathErrorKind, int)> {
    lookup_from(v, path, 0)
}

/// Whether two byte strings are equal.
pub fn bytes_eq(a: &[u8], b: &[u8]) -> (r: bool)
    ensures
        r == (a@ == b@),
{
    if a.len() != b.len() {
        return false;
    }
    let mut i: usize = 0;
    while i < a.len()
        invariant
            a@.len() == b@.len(),
            i <= a@.len(),
            forall|j: int| 0 <= j < i ==> a@[j] == b@[j],
        decreases a@.len() - i,
    {
        if a[i] != b[i] {
            return false;
        }
        i += 1;
    }
    assert(a@ =~= b@);
    true
}

fn step_exec<'v, 'a>(v: &'v Val<'a>, c: &PathComponent) -> (r: Result<&'v Val<'a>, PathErrorKind>)
    ensures
        match step(v@, c@) {
            Ok(w) => r is Ok && r->Ok_0@ == w,
            Err(kind) => r == Err::<&Val, PathErrorKind>(kind),
        },
{
    match c {
        PathComponent::Key(k) => match v {
            Val::Dict(entries) => {
                let ghost ev = Val::entries_view(entries);
                let mut j: usize = 0;
                while j < entries.len()
                    invariant
                        ev == Val::entries_view(entries),
                        v@ == SVal::Dict(ev),
                        c@ == SComponent::Key(k@),
                        j <= entries@.len(),
                        key_index_from(ev, k@, 0) == key_index_from(ev, k@, j as int),
                    decreases entries@.len() - j,
                {
                    if bytes_eq(entries[j].0, k) {
                        assert(ev[j as int] == (entries@[j as int].0@, entries@[j as int].1@));
                        return Ok(&entries[j].1);
                    }
                    j += 1;
                }
                Err(PathErrorKind::KeyNotFound)
            },
            _ => Err(PathErrorKind::ExpectedDict),
        },
        PathComponent::Index(i) => match v {
            Val::Array(items) => {
                if *i < items.len() {
                    Ok(&items[*i])
                } else {
                    Err(PathErrorKind::IndexOutOfBounds)
                }
            },
            _ => Err(PathErrorKind::ExpectedArray),
        },
    }
}

/// Follows `path` from `root`.
pub fn get_val_from_path<'v, 'a>(path: &[PathComponent], root: &'v Val<'a>) -> (r: Result<&'v Val<'a>, PathParseError>)
    ensures
        match lookup(root@, path_view(path@)) {
            Ok(w) => r is Ok && r->Ok_0@ == w,
            Err((kind, d)) => r is Err && r->Err_0.kind == kind && r->Err_0.depth as int == d,
        },
{
    let ghost pv = path_view(path@);
    let mut curr = root;
    let mut i: usize = 0;
    while i < path.len()
        invariant
            pv == path_view(path@),
            i <= path@.len(),
            lookup(root@, pv) == lookup_from(curr@, pv, i as int),
        decreases path@.len() - i,
    {
        match step_exec(curr, &path[i]) {
            Ok(w) => {
                curr = w;
            },
            Err(kind) => {
                return Err(PathParseError { kind, depth: i });
            },
        }
        i += 1;
    }
    Ok(curr)
}

/// The shape of a node.
#[derive(Clone, Copy, Debug, PartialEq, Eq)]
pub enum ValKind {
    Dict,
    NumberedDict,
    Array,
    List,
    StringLiteral,
    Date,
    Decimal,
    Integer,
    Identifier,
}

pub open spec fn kind_of(v: SVal) -> ValKind {
    match v {
        SVal::Dict(_) => ValKind::Dict,
        SVal::NumberedDict(_, _) => ValKind::NumberedDict,
        SVal::Array(_) => ValKind::Array,
        SVal::List(_) => ValKind::List,
        SVal::StringLiteral(_) => ValKind::StringLiteral,
        SVal::Date(_, _, _) => ValKind::Date,
        SVal::Decimal(_) => ValKind::Decimal,
        SVal::Integer(_) => ValKind::Integer,
        SVal::Identifier(_) => ValKind::Identifier,
    }
}

/// A typed view asked for one shape and found another.
#[derive(Clone, Copy, Debug, PartialEq, Eq)]
pub struct TypeMismatch {
    pub expected: ValKind,
    pub found: ValKind,
}

pub fn kind(v: &Val) -> (r: ValKind)
    ensures
        r == kind_of(v@),
{
    match v {
        Val::Dict(_) => ValKind::Dict,
        Val::NumberedDict(_, _) => ValKind::NumberedDict,
        Val::Array(_) => ValKind::Array,
        Val::List(_) => ValKind::List,
        Val::StringLiteral(_) => ValKind::StringLiteral,
        Val::Date(_) => ValKind::Date,
        Val::Decimal(_) => ValKind::Decimal,
        Val::Integer(_) => ValKind::Integer,
        Val::Identifier(_) => ValKind::Identifier,
    }
}

pub fn as_string<'a>(v: &Val<'a>) -> (r: Result<&'a [u8], TypeMismatch>)
    ensures
        match v@ {
            SVal::StringLiteral(s) => r is Ok && r->Ok_0@ == s,
            _ => r == Err::<&[u8], TypeMismatch>(TypeMismatch { expected: ValKind::StringLiteral, found: kind_of(v@) }),
        },
{
    match v {
        Val::StringLiteral(s) => Ok(s),
        _ => Err(TypeMismatch { expected: ValKind::StringLiteral, found: kind(v) }),
    }
}

pub fn as_integer(v: &Val) -> (r: Result<i64, TypeMismatch>)
    ensures
        match v@ {
            SVal::Integer(i) => r is Ok && r->Ok_0 as int == i,
            _ => r == Err::<i64, TypeMismatch>(TypeMismatch { expected: ValKind::Integer, found: kind_of(v@) }),
        },
{
    match v {
        Val::Integer(i) => Ok(*i),
        _ => Err(TypeMismatch { expected: ValKind::Integer, found: kind(v) }),
    }
}

/// The text of a decimal node.
pub fn as_decimal<'a>(v: &Val<'a>) -> (r: Result<&'a [u8], TypeMismatch>)
    ensures
        match v@ {
            SVal::Decimal(t) => r is Ok && r->Ok_0@ == t,
            _ => r == Err::<&[u8], TypeMismatch>(TypeMismatch { expected: ValKind::Decimal, found: kind_of(v@) }),
        },
{
    match v {
        Val::Decimal(t) => Ok(t),
        _ => Err(TypeMismatch { expected: ValKind::Decimal, found: kind(v) }),
    }
}

pub fn as_array<'v, 'a>(v: &'v Val<'a>) -> (r: Result<&'v Vec<Val<'a>>, TypeMismatch>)
    ensures
        match v@ {
            SVal::Array(items) => r is Ok && Val::items_view(r->Ok_0) == items,
            _ => r == Err::<&Vec<Val>, TypeMismatch>(TypeMismatch { expected: ValKind::Array, found: kind_of(v@) }),
        },
{
    match v {
        Val::Array(items) => Ok(items),
        _ => Err(TypeMismatch { expected: ValKind::Array, found: kind(v) }),
    }
}

pub fn as_dict<'v, 'a>(v: &'v Val<'a>) -> (r: Result<&'v Vec<(&'a [u8], Val<'a>)>, TypeMismatch>)
    ensures
        match v@ {
            SVal::Dict(entries) => r is Ok && Val::entries_view(r->Ok_0) == entries,
            _ => r == Err::<&Vec<(&[u8], Val)>, TypeMismatch>(TypeMismatch { expected: ValKind::Dict, found: kind_of(v@) }),
        },
{
    match v {
        Val::Dict(entries) => Ok(entries),
        _ => Err(TypeMismatch { expected: ValKind::Dict, found: kind(v) }),
    }
}

} // verus!
