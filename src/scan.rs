//! Byte classes and maximal-run scanners.
use vstd::prelude::*;
use vstd::slice::slice_subrange;

verus! {

/// The byte classes the grammar is built from.
#[derive(Clone, Copy, Debug, PartialEq, Eq)]
pub enum CharClass {
    Space,
    Digit,
    Identifier,
    Alphabetic,
    StringLiteralContents,
    Token,
    Reserved,
    Punctuation,
}

pub open spec fn is_space_byte(b: u8) -> bool {
    b == 32 || b == 9 || b == 10 || b == 13
}

pub open spec fn is_digit_byte(b: u8) -> bool {
    48 <= b <= 57
}

pub open spec fn is_letter_byte(b: u8) -> bool {
    (65 <= b <= 90) || (97 <= b <= 122)
}

pub open spec fn is_identifier_byte(b: u8) -> bool {
    is_letter_byte(b) || is_digit_byte(b) || b == 95
}

/// The structural bytes `=`, `{` and `}`.
pub open spec fn is_token_byte(b: u8) -> bool {
    b == 61 || b == 123 || b == 125
}

/// The structural bytes and the double quote.
pub open spec fn is_reserved_byte(b: u8) -> bool {
    b == 34 || is_token_byte(b)
}

pub open spec fn is_punctuation_byte(b: u8) -> bool {
    (33 <= b <= 47) || (58 <= b <= 64) || (91 <= b <= 96) || (123 <= b <= 126)
}

/// Printable ASCII and whitespace, except the reserved bytes.
pub open spec fn is_string_literal_byte(b: u8) -> bool {
    ((32 <= b <= 126) || b == 9 || b == 10 || b == 13) && !is_reserved_byte(b)
}

pub open spec fn in_class(class: CharClass, b: u8) -> bool {
    match class {
        CharClass::Space => is_space_byte(b),
        CharClass::Digit => is_digit_byte(b),
        CharClass::Identifier => is_identifier_byte(b),
        CharClass::Alphabetic => is_letter_byte(b),
        CharClass::StringLiteralContents => is_string_literal_byte(b),
        CharClass::Token => is_token_byte(b),
        CharClass::Reserved => is_reserved_byte(b),
        CharClass::Punctuation => is_punctuation_byte(b),
    }
}

/// End of the maximal run of `class` bytes in `s` that starts at `p`.
pub open spec fn run_end(class: CharClass, s: Seq<u8>, p: int) -> int
    decreases s.len() - p,
{
    if 0 <= p < s.len() && in_class(class, s[p]) {
        run_end(class, s, p + 1)
    } else {
        p
    }
}

pub proof fn lemma_run_end_bounds(class: CharClass, s: Seq<u8>, p: int)
    requires
        0 <= p <= s.len(),
    ensures
        p <= run_end(class, s, p) <= s.len(),
        forall|k: int| p <= k < run_end(class, s, p) ==> in_class(class, #[trigger] s[k]),
        run_end(class, s, p) < s.len() ==> !in_class(class, s[run_end(class, s, p)]),
    decreases s.len() - p,
{
    if p < s.len() && in_class(class, s[p]) {
        lemma_run_end_bounds(class, s, p + 1);
    }
}

/// Whether `b` belongs to `class`.
pub fn is_member(class: CharClass, b: u8) -> (r: bool)
    ensures
        r == in_class(class, b),
{
    match class {
        CharClass::Space => b == 32 || b == 9 || b == 10 || b == 13,
        CharClass::Digit => 48 <= b && b <= 57,
        CharClass::Identifier => (65 <= b && b <= 90) || (97 <= b && b <= 122) || (48 <= b && b
            <= 57) || b == 95,
        CharClass::Alphabetic => (65 <= b && b <= 90) || (97 <= b && b <= 122),
        CharClass::StringLiteralContents => ((32 <= b && b <= 126) || b == 9 || b == 10 || b
            == 13) && !(b == 34 || b == 61 || b == 123 || b == 125),
        CharClass::Token => b == 61 || b == 123 || b == 125,
        CharClass::Reserved => b == 34 || b == 61 || b == 123 || b == 125,
        CharClass::Punctuation => (33 <= b && b <= 47) || (58 <= b && b <= 64) || (91 <= b && b
            <= 96) || (123 <= b && b <= 126),
    }
}

pub fn is_string_litteral_contents(b: u8) -> (r: bool)
    ensures
        r == is_string_literal_byte(b),
{
    is_member(CharClass::StringLiteralContents, b)
}

pub fn is_identifier_char(b: u8) -> (r: bool)
    ensures
        r == is_identifier_byte(b),
{
    is_member(CharClass::Identifier, b)
}

pub fn is_alphabetic(b: u8) -> (r: bool)
    ensures
        r == is_letter_byte(b),
{
    is_member(CharClass::Alphabetic, b)
}

pub fn is_space(b: u8) -> (r: bool)
    ensures
        r == is_space_byte(b),
{
    is_member(CharClass::Space, b)
}

pub fn is_digit(b: u8) -> (r: bool)
    ensures
        r == is_digit_byte(b),
{
    is_member(CharClass::Digit, b)
}

pub fn is_token(b: u8) -> (r: bool)
    ensures
        r == is_token_byte(b),
{
    is_member(CharClass::Token, b)
}

pub fn is_reserved(b: u8) -> (r: bool)
    ensures
        r == is_reserved_byte(b),
{
    is_member(CharClass::Reserved, b)
}

/// Scalar scan: end of the run of `class` bytes starting at `p`, eight bytes
/// per step while at least eight remain, then one at a time.
pub fn run_end_unrolled(class: CharClass, s: &[u8], p: usize) -> (r: usize)
    requires
        p <= s@.len(),
    ensures
        r == run_end(class, s@, p as int),
{
    let len = s.len();
    let mut i: usize = p;
    while len - i >= 8
        invariant
            p <= i <= len,
            len == s@.len(),
            run_end(class, s@, p as int) == run_end(class, s@, i as int),
        decreases len - i,
    {
        let mut k: usize = 0;
        while k < 8
            invariant
                p <= i,
                i + 8 <= len,
                k <= 8,
                len == s@.len(),
                run_end(class, s@, p as int) == run_end(class, s@, (i + k) as int),
            decreases 8 - k,
        {
            if !is_member(class, s[i + k]) {
                return i + k;
            }
            k += 1;
        }
        i += 8;
    }
    while i < len
        invariant
            p <= i <= len,
            len == s@.len(),
            run_end(class, s@, p as int) == run_end(class, s@, i as int),
        decreases len - i,
    {
        if !is_member(class, s[i]) {
            return i;
        }
        i += 1;
    }
    i
}

/// Splits `input` after the longest prefix of `class` bytes; returns the
/// remainder and the prefix.
pub fn take_while_unrolled<'a>(class: CharClass, input: &'a [u8]) -> (r: (&'a [u8], &'a [u8]))
    ensures
        r.1@ == input@.subrange(0, run_end(class, input@, 0)),
        r.0@ == input@.subrange(run_end(class, input@, 0), input@.len() as int),
{
    let e = run_end_unrolled(class, input, 0);
    proof {
        lemma_run_end_bounds(class, input@, 0);
    }
    (slice_subrange(input, e, input.len()), slice_subrange(input, 0, e))
}


/// A 256-entry membership table for `class`.
pub fn class_table(class: CharClass) -> (r: [bool; 256])
    ensures
        forall|b: u8| #[trigger] r[b as int] == in_class(class, b),
{
    let mut table = [false; 256];
    let mut i: usize = 0;
    while i < 256
        invariant
            i <= 256,
            forall|j: int| 0 <= j < i ==> #[trigger] table[j] == in_class(class, j as u8),
        decreases 256 - i,
    {
        table[i] = is_member(class, i as u8);
        i += 1;
    }
    assert forall|b: u8| #[trigger] table[b as int] == in_class(class, b) by {
        assert(table[b as int] == in_class(class, (b as int) as u8));
    }
    table
}

pub fn punctuation_table() -> (r: [bool; 256])
    ensures
        forall|b: u8| #[trigger] r[b as int] == is_punctuation_byte(b),
{
    class_table(CharClass::Punctuation)
}

pub fn string_litteral_content_table() -> (r: [bool; 256])
    ensures
        forall|b: u8| #[trigger] r[b as int] == is_string_literal_byte(b),
{
    class_table(CharClass::StringLiteralContents)
}

pub fn identifier_table() -> (r: [bool; 256])
    ensures
        forall|b: u8| #[trigger] r[b as int] == is_identifier_byte(b),
{
    class_table(CharClass::Identifier)
}

pub fn alphabet_table() -> (r: [bool; 256])
    ensures
        forall|b: u8| #[trigger] r[b as int] == is_letter_byte(b),
{
    class_table(CharClass::Alphabetic)
}

pub fn reserved_table() -> (r: [bool; 256])
    ensures
        forall|b: u8| #[trigger] r[b as int] == is_reserved_byte(b),
{
    class_table(CharClass::Reserved)
}

pub fn number_table() -> (r: [bool; 256])
    ensures
        forall|b: u8| #[trigger] r[b as int] == is_digit_byte(b),
{
    class_table(CharClass::Digit)
}

pub fn token_table() -> (r: [bool; 256])
    ensures
        forall|b: u8| #[trigger] r[b as int] == is_token_byte(b),
{
    class_table(CharClass::Token)
}

pub fn space_table() -> (r: [bool; 256])
    ensures
        forall|b: u8| #[trigger] r[b as int] == is_space_byte(b),
{
    class_table(CharClass::Space)
}


/// The byte ranges, as inclusive `(low, high)` pairs laid out flat, that a
/// sixteen-byte window compare treats as outside `class`.
pub open spec fn class_ranges(class: CharClass) -> Seq<u8> {
    match class {
        CharClass::Space => seq![0u8, 8, 11, 12, 14, 31, 33, 255],
        CharClass::Digit => seq![0u8, 47, 58, 255],
        CharClass::Identifier => seq![0u8, 47, 58, 64, 91, 94, 96, 96, 123, 255],
        CharClass::Alphabetic => seq![0u8, 64, 91, 96, 123, 255],
        CharClass::StringLiteralContents => seq![
            0u8,
            8,
            11,
            12,
            14,
            31,
            34,
            34,
            61,
            61,
            123,
            123,
            125,
            125,
            127,
            255,
        ],
        CharClass::Token => seq![0u8, 60, 62, 122, 124, 124, 126, 255],
        CharClass::Reserved => seq![0u8, 33, 35, 60, 62, 122, 124, 124, 126, 255],
        CharClass::Punctuation => seq![0u8, 32, 48, 57, 65, 90, 97, 122, 127, 255],
    }
}

/// Whether `b` lies in one of the pairs of `ranges` from pair offset `k` on.
pub open spec fn in_ranges(ranges: Seq<u8>, k: int, b: u8) -> bool
    decreases ranges.len() - k,
{
    if 0 <= k && k + 1 < ranges.len() {
        (ranges[k] <= b <= ranges[k + 1]) || in_ranges(ranges, k + 2, b)
    } else {
        false
    }
}

/// The range pairs of each class reject exactly the bytes outside it.
pub proof fn lemma_class_ranges(class: CharClass, b: u8)
    ensures
        in_ranges(class_ranges(class), 0, b) <==> !in_class(class, b),
{
    reveal_with_fuel(in_ranges, 9);
}

/// First position in `[k, p + 16)` holding a byte that `ranges` rejects, or
/// `p + 16` when there is none.
pub open spec fn window_first_rejected(ranges: Seq<u8>, s: Seq<u8>, p: int, k: int) -> int
    decreases p + 16 - k,
{
    if k < p + 16 && 0 <= k < s.len() {
        if in_ranges(ranges, 0, s[k]) {
            k
        } else {
            window_first_rejected(ranges, s, p, k + 1)
        }
    } else {
        k
    }
}

/// End of the run of `class` bytes from `p` as the window scan finds it:
/// sixteen bytes at a time while that many remain, then byte by byte.
pub open spec fn window_run_end(class: CharClass, s: Seq<u8>, p: int) -> int
    decreases s.len() - p,
{
    if 0 <= p && s.len() - p >= 16 {
        let k = window_first_rejected(class_ranges(class), s, p, p);
        if k < p + 16 {
            k
        } else {
            window_run_end(class, s, p + 16)
        }
    } else {
        run_end(class, s, p)
    }
}

proof fn lemma_window(class: CharClass, s: Seq<u8>, p: int, k: int)
    requires
        0 <= p <= k <= p + 16 <= s.len(),
    ensures
        window_first_rejected(class_ranges(class), s, p, k) < p + 16 ==> window_first_rejected(
            class_ranges(class),
            s,
            p,
            k,
        ) == run_end(class, s, k),
        window_first_rejected(class_ranges(class), s, p, k) >= p + 16 ==> run_end(class, s, k)
            == run_end(class, s, p + 16),
    decreases p + 16 - k,
{
    if k < p + 16 {
        lemma_class_ranges(class, s[k]);
        lemma_window(class, s, p, k + 1);
    }
}

/// The window scan and the byte-by-byte scan end every run at the same place.
pub proof fn lemma_window_matches_scalar(class: CharClass, s: Seq<u8>, p: int)
    requires
        0 <= p <= s.len(),
    ensures
        window_run_end(class, s, p) == run_end(class, s, p),
    decreases s.len() - p,
{
    if s.len() - p >= 16 {
        lemma_window(class, s, p, p);
        lemma_window_matches_scalar(class, s, p + 16);
    }
}

/// The rejected ranges of `class`, flat.
pub fn rejected_ranges(class: CharClass) -> (r: Vec<u8>)
    ensures
        r@ == class_ranges(class),
{
    let r = match class {
        CharClass::Space => vec![0u8, 8, 11, 12, 14, 31, 33, 255],
        CharClass::Digit => vec![0u8, 47, 58, 255],
        CharClass::Identifier => vec![0u8, 47, 58, 64, 91, 94, 96, 96, 123, 255],
        CharClass::Alphabetic => vec![0u8, 64, 91, 96, 123, 255],
        CharClass::StringLiteralContents => vec![
            0u8,
            8,
            11,
            12,
            14,
            31,
            34,
            34,
            61,
            61,
            123,
            123,
            125,
            125,
            127,
            255,
        ],
        CharClass::Token => vec![0u8, 60, 62, 122, 124, 124, 126, 255],
        CharClass::Reserved => vec![0u8, 33, 35, 60, 62, 122, 124, 124, 126, 255],
        CharClass::Punctuation => vec![0u8, 32, 48, 57, 65, 90, 97, 122, 127, 255],
    };
    assert(r@ =~= class_ranges(class));
    r
}

/// Whether `b` falls in one of the pairs of `ranges`.
pub fn byte_in_ranges(ranges: &Vec<u8>, b: u8) -> (r: bool)
    ensures
        r == in_ranges(ranges@, 0, b),
{
    let mut k: usize = 0;
    while k + 1 < ranges.len()
        invariant
            k % 2 == 0,
            k <= ranges@.len() + 1,
            in_ranges(ranges@, 0, b) == in_ranges(ranges@, k as int, b),
        decreases ranges@.len() - k,
    {
        if ranges[k] <= b && b <= ranges[k + 1] {
            return true;
        }
        k += 2;
    }
    false
}

/// Window scan: end of the run of `class` bytes starting at `p`, comparing
/// sixteen bytes at a time against the rejected ranges while that many
/// remain, then falling back to the scalar scan.
pub fn run_end_simd(class: CharClass, s: &[u8], p: usize) -> (r: usize)
    requires
        p <= s@.len(),
    ensures
        r == window_run_end(class, s@, p as int),
{
    let ranges = rejected_ranges(class);
    let len = s.len();
    let mut i: usize = p;
    while len - i >= 16
        invariant
            p <= i <= len,
            len == s@.len(),
            ranges@ == class_ranges(class),
            window_run_end(class, s@, p as int) == window_run_end(class, s@, i as int),
        decreases len - i,
    {
        let mut k: usize = i;
        while k < i + 16
            invariant
                p <= i <= k <= i + 16,
                i + 16 <= len,
                len == s@.len(),
                ranges@ == class_ranges(class),
                window_run_end(class, s@, p as int) == window_run_end(class, s@, i as int),
                window_first_rejected(class_ranges(class), s@, i as int, i as int)
                    == window_first_rejected(class_ranges(class), s@, i as int, k as int),
            decreases i + 16 - k,
        {
            if byte_in_ranges(&ranges, s[k]) {
                return k;
            }
            k += 1;
        }
        i += 16;
    }
    run_end_unrolled(class, s, i)
}

/// Splits `input` after the longest prefix of `class` bytes, found by the
/// window scan; returns the remainder and the prefix.
pub fn take_while_simd<'a>(class: CharClass, input: &'a [u8]) -> (r: (&'a [u8], &'a [u8]))
    ensures
        r.1@ == input@.subrange(0, run_end(class, input@, 0)),
        r.0@ == input@.subrange(run_end(class, input@, 0), input@.len() as int),
{
    let e = run_end_simd(class, input, 0);
    proof {
        lemma_window_matches_scalar(class, input@, 0);
        lemma_run_end_bounds(class, input@, 0);
    }
    (slice_subrange(input, e, input.len()), slice_subrange(input, 0, e))
}

} // verus!
