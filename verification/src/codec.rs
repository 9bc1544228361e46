//! Identifier codec: conversion between a record's on-disk name and its
//! structured identifier form (a fixed type prefix followed by a
//! zero-padded digit run), and validation of that format.

use vstd::prelude::*;
use vstd::string::*;

verus! {

/// Number of digits in the canonical textual form of an identifier.
pub const ID_WIDTH: usize = 6;

/// Exclusive upper bound on identifier numeric values (ten to the `ID_WIDTH`).
pub const ID_LIMIT: usize = 1000000;

/// The fixed type prefix of every identifier in this corpus.
pub const ID_PREFIX: char = 'A';

/// A structured identifier: the numeric code that follows the type prefix.
/// Two identifiers are equal iff their numeric values are equal.
#[derive(Clone, Copy, PartialEq, Eq, Structural, Debug, Hash)]
pub struct Identifier {
    pub value: usize,
}

impl Identifier {
    /// The numeric value is representable in the fixed digit width.
    pub open spec fn wf(self) -> bool {
        self.value < ID_LIMIT
    }
}

/// Why a piece of text failed to decode as an identifier.
#[derive(Clone, Copy, PartialEq, Eq, Structural, Debug)]
pub enum FormatError {
    /// The text does not start with the fixed prefix.
    MissingPrefix,
    /// Nothing follows the prefix.
    EmptyDigits,
    /// A non-digit follows the prefix.
    NonDigit,
    /// The digits denote a value not representable in the fixed width.
    OutOfRange,
}

pub open spec fn is_digit(c: char) -> bool {
    c == '0' || c == '1' || c == '2' || c == '3' || c == '4' || c == '5' || c == '6' || c == '7'
        || c == '8' || c == '9'
}

pub open spec fn digit_val(c: char) -> int {
    if c == '0' {
        0
    } else if c == '1' {
        1
    } else if c == '2' {
        2
    } else if c == '3' {
        3
    } else if c == '4' {
        4
    } else if c == '5' {
        5
    } else if c == '6' {
        6
    } else if c == '7' {
        7
    } else if c == '8' {
        8
    } else if c == '9' {
        9
    } else {
        10
    }
}

pub open spec fn digit_char(d: int) -> char {
    if d == 0 {
        '0'
    } else if d == 1 {
        '1'
    } else if d == 2 {
        '2'
    } else if d == 3 {
        '3'
    } else if d == 4 {
        '4'
    } else if d == 5 {
        '5'
    } else if d == 6 {
        '6'
    } else if d == 7 {
        '7'
    } else if d == 8 {
        '8'
    } else {
        '9'
    }
}

pub open spec fn all_digits(s: Seq<char>) -> bool {
    forall|i: int| 0 <= i < s.len() ==> is_digit(#[trigger] s[i])
}

/// The numeric value of a digit string, most significant digit first.
pub open spec fn parse_digits(s: Seq<char>) -> int
    decreases s.len(),
{
    if s.len() == 0 {
        0
    } else {
        parse_digits(s.drop_last()) * 10 + digit_val(s.last())
    }
}

/// The `w` least significant decimal digits of `v`, zero padded.
pub open spec fn digits_text(v: int, w: nat) -> Seq<char>
    decreases w,
{
    if w == 0 {
        Seq::empty()
    } else {
        digits_text(v / 10, (w - 1) as nat).push(digit_char(v % 10))
    }
}

pub open spec fn pow10(w: nat) -> int
    decreases w,
{
    if w == 0 {
        1
    } else {
        10 * pow10((w - 1) as nat)
    }
}

/// The canonical textual form of an identifier value: the prefix followed
/// by the value in the fixed digit width.
pub open spec fn id_text(v: int) -> Seq<char> {
    seq![ID_PREFIX] + digits_text(v, ID_WIDTH as nat)
}

/// Index of the first `.` in `s` at or after `i`, or `s.len()` if none.
pub open spec fn first_dot(s: Seq<char>, i: int) -> int
    decreases s.len() - i,
{
    if i < 0 || i >= s.len() {
        s.len() as int
    } else if s[i] == '.' {
        i
    } else {
        first_dot(s, i + 1)
    }
}

/// Everything before the first `.`: the name with any extension stripped.
pub open spec fn stem_of(s: Seq<char>) -> Seq<char> {
    s.take(first_dot(s, 0))
}

/// What decoding extension-free identifier text yields.
pub open spec fn spec_decode_stem(st: Seq<char>) -> Result<Identifier, FormatError> {
    if st.len() == 0 || st[0] != ID_PREFIX {
        Err(FormatError::MissingPrefix)
    } else if st.len() == 1 {
        Err(FormatError::EmptyDigits)
    } else if !all_digits(st.skip(1)) {
        Err(FormatError::NonDigit)
    } else if parse_digits(st.skip(1)) >= ID_LIMIT {
        Err(FormatError::OutOfRange)
    } else {
        Ok(Identifier { value: parse_digits(st.skip(1)) as usize })
    }
}

/// What decoding a record's on-disk base name yields.
pub open spec fn spec_decode(text: Seq<char>) -> Result<Identifier, FormatError> {
    spec_decode_stem(stem_of(text))
}

pub proof fn lemma_parse_nonneg(s: Seq<char>)
    ensures
        parse_digits(s) >= 0,
    decreases s.len(),
{
    if s.len() > 0 {
        lemma_parse_nonneg(s.drop_last());
    }
}

/// Parsing a prefix of a digit string never exceeds parsing the whole.
pub proof fn lemma_parse_take_le(s: Seq<char>, k: int)
    requires
        0 <= k <= s.len(),
    ensures
        parse_digits(s.take(k)) <= parse_digits(s),
    decreases s.len() - k,
{
    if k == s.len() {
        assert(s.take(k) =~= s);
    } else {
        lemma_parse_take_le(s, k + 1);
        assert(s.take(k + 1).drop_last() =~= s.take(k));
        assert(s.take(k + 1).last() == s[k]);
        lemma_parse_nonneg(s.take(k));
    }
}

/// A digit string of width `w` denotes a value below ten to the `w`.
pub proof fn lemma_parse_bound(s: Seq<char>)
    requires
        all_digits(s),
    ensures
        0 <= parse_digits(s) < pow10(s.len()),
    decreases s.len(),
{
    if s.len() > 0 {
        assert(all_digits(s.drop_last())) by {
            assert(forall|i: int|
                0 <= i < s.len() - 1 ==> is_digit(#[trigger] s.drop_last()[i]) == is_digit(s[i]));
        }
        lemma_parse_bound(s.drop_last());
        assert(is_digit(s.last()));
    }
}

/// Rendering the value of a digit string at the string's own width gives
/// the string back.
pub proof fn lemma_digits_roundtrip(s: Seq<char>)
    requires
        all_digits(s),
    ensures
        digits_text(parse_digits(s), s.len()) == s,
    decreases s.len(),
{
    if s.len() == 0 {
        assert(digits_text(parse_digits(s), 0) =~= s);
    } else {
        let front = s.drop_last();
        let d = digit_val(s.last());
        assert(all_digits(front)) by {
            assert(forall|i: int|
                0 <= i < s.len() - 1 ==> is_digit(#[trigger] front[i]) == is_digit(s[i]));
        }
        lemma_digits_roundtrip(front);
        lemma_parse_nonneg(front);
        assert(is_digit(s.last()));
        assert(0 <= d < 10);
        let p = parse_digits(front);
        assert(parse_digits(s) == p * 10 + d);
        assert((p * 10 + d) / 10 == p && (p * 10 + d) % 10 == d) by (nonlinear_arith)
            requires
                p >= 0 && 0 <= d < 10,
        ;
        assert(digit_char(digit_val(s.last())) == s.last());
        assert(digits_text(parse_digits(s), s.len()) =~= s);
    }
}

pub proof fn lemma_pow10_id_width()
    ensures
        pow10(ID_WIDTH as nat) == ID_LIMIT,
        pow10(0) == 1,
        pow10(1) == 10,
        pow10(2) == 100,
        pow10(3) == 1000,
        pow10(4) == 10000,
        pow10(5) == 100000,
        pow10(6) == 1000000,
{
    assert(pow10(0) == 1);
    assert(pow10(1) == 10);
    assert(pow10(2) == 100);
    assert(pow10(3) == 1000);
    assert(pow10(4) == 10000);
    assert(pow10(5) == 100000);
    assert(pow10(6) == 1000000);
}

/// Where the first `.` stands, from the characters seen so far: if no dot
/// occurs before `i`, and `i` is the end or a dot, the first dot is at `i`.
proof fn lemma_first_dot_at(s: Seq<char>, k: int, i: int)
    requires
        0 <= k <= i <= s.len(),
        forall|j: int| k <= j < i ==> s[j] != '.',
        i == s.len() || s[i] == '.',
    ensures
        first_dot(s, k) == i,
    decreases i - k,
{
    if k < i {
        lemma_first_dot_at(s, k + 1, i);
    }
}

/// Round-trip law: for identifier text in the canonical digit width,
/// rendering the decoded identifier gives the original text back.
pub proof fn lemma_round_trip(t: Seq<char>)
    requires
        t.len() == ID_WIDTH + 1,
        t[0] == ID_PREFIX,
        all_digits(t.skip(1)),
    ensures
        spec_decode(t) is Ok,
        id_text(spec_decode(t)->Ok_0.value as int) == t,
{
    assert forall|j: int| 0 <= j < t.len() implies t[j] != '.' by {
        if j >= 1 {
            assert(is_digit(t.skip(1)[j - 1]));
        }
    }
    lemma_first_dot_at(t, 0, t.len() as int);
    assert(stem_of(t) =~= t);
    let digits = t.skip(1);
    lemma_parse_bound(digits);
    lemma_pow10_id_width();
    assert(parse_digits(digits) < ID_LIMIT);
    lemma_digits_roundtrip(digits);
    let v = parse_digits(digits);
    assert(id_text(v) =~= t);
}

pub open spec fn is_sep(c: char) -> bool {
    c == '/' || c == '\\'
}

/// The file name at the end of a path: everything after the last separator.
pub open spec fn base_of(s: Seq<char>) -> Seq<char>
    decreases s.len(),
{
    if s.len() == 0 {
        s
    } else if is_sep(s.last()) {
        Seq::empty()
    } else {
        base_of(s.drop_last()).push(s.last())
    }
}

pub open spec fn has_dot(b: Seq<char>) -> bool {
    exists|i: int| 0 <= i < b.len() && b[i] == '.'
}

/// Everything before the last `.` of a name that contains one.
pub open spec fn cut_at_last_dot(b: Seq<char>) -> Seq<char>
    decreases b.len(),
{
    if b.len() == 0 {
        b
    } else if b.last() == '.' {
        b.drop_last()
    } else {
        cut_at_last_dot(b.drop_last())
    }
}

/// A path's file stem: its file name with the last extension stripped.
pub open spec fn file_stem_of(s: Seq<char>) -> Seq<char> {
    if has_dot(base_of(s)) {
        cut_at_last_dot(base_of(s))
    } else {
        base_of(s)
    }
}

proof fn lemma_base_skip(s: Seq<char>, k: int)
    requires
        0 <= k <= s.len(),
        forall|j: int| k <= j < s.len() ==> !is_sep(#[trigger] s[j]),
        k == 0 || is_sep(s[k - 1]),
    ensures
        base_of(s) == s.skip(k),
    decreases s.len(),
{
    if s.len() == 0 {
        assert(base_of(s) =~= s.skip(0));
    } else if k == s.len() {
        assert(is_sep(s.last()));
        assert(base_of(s) =~= s.skip(k));
    } else {
        assert(!is_sep(s.last()));
        lemma_base_skip(s.drop_last(), k);
        assert(s.skip(k) =~= s.drop_last().skip(k).push(s.last()));
    }
}

proof fn lemma_cut_at(b: Seq<char>, e: int)
    requires
        0 <= e < b.len(),
        b[e] == '.',
        forall|j: int| e < j < b.len() ==> b[j] != '.',
    ensures
        cut_at_last_dot(b) == b.take(e),
    decreases b.len(),
{
    if e == b.len() - 1 {
        assert(cut_at_last_dot(b) =~= b.take(e));
    } else {
        assert(b.last() != '.');
        lemma_cut_at(b.drop_last(), e);
        assert(b.take(e) =~= b.drop_last().take(e));
    }
}

/// The record's identifier text from a path: the characters after the
/// last `/` or `\`, cut before the last `.` when the name holds one.
/// So a path ending in a separator, or a name whose only dot leads it
/// (`.seq`), yields the empty stem; no such name decodes to an
/// identifier, so corpus enumeration skips it either way.
pub fn filename_to_acode(filepath: &str) -> (r: String)
    ensures
        r@ == file_stem_of(filepath@),
{
    let len: usize = filepath.unicode_len();
    let mut start: usize = len;
    while start > 0 && !char_is_sep(filepath.get_char(start - 1))
        invariant
            0 <= start <= len,
            len == filepath@.len(),
            forall|j: int| start <= j < len ==> !is_sep(#[trigger] filepath@[j]),
        decreases start,
    {
        start = start - 1;
    }
    proof {
        lemma_base_skip(filepath@, start as int);
    }
    let ghost b = base_of(filepath@);
    let mut idx: usize = len;
    while idx > start && filepath.get_char(idx - 1) != '.'
        invariant
            start <= idx <= len,
            len == filepath@.len(),
            forall|j: int| idx <= j < len ==> filepath@[j] != '.',
        decreases idx,
    {
        idx = idx - 1;
    }
    if idx > start {
        let end: usize = idx - 1;
        proof {
            assert(filepath@[end as int] == '.');
            assert(b[end - start] == '.');
            assert(forall|j: int| end - start < j < b.len() ==> b[j] != '.');
            assert(has_dot(b));
            lemma_cut_at(b, end - start);
            assert(b.take(end - start) =~= filepath@.subrange(start as int, end as int));
        }
        let stem = filepath.substring_char(start, end);
        stem.to_owned()
    } else {
        proof {
            assert forall|i: int| 0 <= i < b.len() implies b[i] != '.' by {
                assert(b[i] == filepath@[start + i]);
            }
            assert(!has_dot(b));
            assert(b =~= filepath@.subrange(start as int, len as int));
        }
        let stem = filepath.substring_char(start, len);
        stem.to_owned()
    }
}

/// Whether one character is a path separator.
fn char_is_sep(c: char) -> (r: bool)
    ensures
        r == is_sep(c),
{
    c == '/' || c == '\\'
}

/// A single decimal digit as text.
fn digit_str(d: usize) -> (r: &'static str)
    requires
        d < 10,
    ensures
        r@ == seq![digit_char(d as int)],
{
    proof {
        reveal_strlit("0");
        reveal_strlit("1");
        reveal_strlit("2");
        reveal_strlit("3");
        reveal_strlit("4");
        reveal_strlit("5");
        reveal_strlit("6");
        reveal_strlit("7");
        reveal_strlit("8");
        reveal_strlit("9");
    }
    let r: &'static str = if d == 0 {
        "0"
    } else if d == 1 {
        "1"
    } else if d == 2 {
        "2"
    } else if d == 3 {
        "3"
    } else if d == 4 {
        "4"
    } else if d == 5 {
        "5"
    } else if d == 6 {
        "6"
    } else if d == 7 {
        "7"
    } else if d == 8 {
        "8"
    } else {
        "9"
    };
    proof {
        assert(r@ =~= seq![digit_char(d as int)]);
    }
    r
}

/// `v` rendered as `w` decimal digits, least significant last, zero padded.
fn digits_string(v: usize, w: usize) -> (r: String)
    ensures
        r@ == digits_text(v as int, w as nat),
    decreases w,
{
    if w == 0 {
        String::new()
    } else {
        let mut s = digits_string(v / 10, w - 1);
        s.append(digit_str(v % 10));
        proof {
            assert(s@ =~= digits_text(v as int, w as nat));
        }
        s
    }
}

/// Render the canonical textual form: prefix plus fixed-width digits.
pub fn to_text(id: Identifier) -> (r: String)
    requires
        id.wf(),
    ensures
        r@ == id_text(id.value as int),
{
    proof {
        reveal_strlit("A");
    }
    let mut s = String::from_str("A");
    s.append(digits_string(id.value, ID_WIDTH).as_str());
    proof {
        assert(s@ =~= id_text(id.value as int));
    }
    s
}

/// Build an identifier from a numeric value in range.
pub fn encode(value: usize) -> (r: Identifier)
    requires
        value < ID_LIMIT,
    ensures
        r.value == value,
        r.wf(),
{
    Identifier { value }
}

/// The numeric value of identifier text: everything after the one-character
/// prefix, read as decimal digits.
pub fn a_code_to_usize(acode: &str) -> (r: usize)
    requires
        acode@.len() >= 2,
        all_digits(acode@.skip(1)),
        parse_digits(acode@.skip(1)) <= usize::MAX,
    ensures
        r == parse_digits(acode@.skip(1)),
{
    let digits_len: usize = acode.unicode_len() - 1;
    let ghost digits = acode@.skip(1);
    let mut acc: usize = 0;
    let mut k: usize = 0;
    while k < digits_len
        invariant
            0 <= k <= digits_len,
            digits_len == acode@.len() - 1,
            digits == acode@.skip(1),
            all_digits(digits),
            parse_digits(digits) <= usize::MAX,
            acc == parse_digits(digits.take(k as int)),
        decreases digits_len - k,
    {
        let c = acode.get_char(k + 1);
        assert(c == digits[k as int]);
        assert(is_digit(c));
        let d: usize = digit_of_char(c);
        proof {
            assert(digits.take(k + 1).drop_last() =~= digits.take(k as int));
            assert(digits.take(k + 1).last() == digits[k as int]);
            lemma_parse_take_le(digits, k + 1);
            lemma_parse_nonneg(digits.take(k as int));
            assert(acc * 10 + d == parse_digits(digits.take(k + 1)));
        }
        acc = acc * 10 + d;
        k = k + 1;
    }
    proof {
        assert(digits.take(digits_len as int) =~= digits);
    }
    acc
}

/// The numeric value of one digit character.
fn digit_of_char(c: char) -> (d: usize)
    requires
        is_digit(c),
    ensures
        d == digit_val(c),
        d < 10,
{
    if c == '0' {
        0
    } else if c == '1' {
        1
    } else if c == '2' {
        2
    } else if c == '3' {
        3
    } else if c == '4' {
        4
    } else if c == '5' {
        5
    } else if c == '6' {
        6
    } else if c == '7' {
        7
    } else if c == '8' {
        8
    } else {
        9
    }
}

/// Parse a record's on-disk base name: strip any extension, then read the
/// prefix and the digit run. Each failure names what was malformed.
#[verifier::loop_isolation(false)]
pub fn decode(text: &str) -> (r: Result<Identifier, FormatError>)
    ensures
        r == spec_decode(text@),
        r is Ok ==> r->Ok_0.wf(),
{
    let len: usize = text.unicode_len();
    let mut stem_len: usize = 0;
    while stem_len < len && text.get_char(stem_len) != '.'
        invariant
            0 <= stem_len <= len,
            len == text@.len(),
            forall|j: int| 0 <= j < stem_len ==> text@[j] != '.',
        decreases len - stem_len,
    {
        stem_len = stem_len + 1;
    }
    proof {
        lemma_first_dot_at(text@, 0, stem_len as int);
        assert(stem_of(text@) =~= text@.take(stem_len as int));
    }
    let ghost st = stem_of(text@);
    if stem_len == 0 || text.get_char(0) != 'A' {
        return Err(FormatError::MissingPrefix);
    }
    if stem_len == 1 {
        return Err(FormatError::EmptyDigits);
    }
    let ghost digits = st.skip(1);
    let mut k: usize = 1;
    while k < stem_len
        invariant
            1 <= k <= stem_len,
            1 < stem_len <= len,
            len == text@.len(),
            st == stem_of(text@),
            st =~= text@.take(stem_len as int),
            digits == st.skip(1),
            forall|j: int| 0 <= j < k - 1 ==> is_digit(#[trigger] digits[j]),
        decreases stem_len - k,
    {
        let c = text.get_char(k);
        assert(c == digits[k - 1]);
        if !(c == '0' || c == '1' || c == '2' || c == '3' || c == '4' || c == '5' || c == '6'
            || c == '7' || c == '8' || c == '9') {
            proof {
                assert(!is_digit(digits[k - 1]));
                assert(!all_digits(digits));
                assert(st.len() == stem_len);
                assert(st[0] == text@[0]);
            }
            return Err(FormatError::NonDigit);
        }
        k = k + 1;
    }
    assert(all_digits(digits));
    let mut acc: usize = 0;
    k = 1;
    while k < stem_len
        invariant
            1 <= k <= stem_len,
            1 < stem_len <= len,
            len == text@.len(),
            st == stem_of(text@),
            st =~= text@.take(stem_len as int),
            digits == st.skip(1),
            all_digits(digits),
            acc < ID_LIMIT,
            acc == parse_digits(digits.take(k - 1)),
        decreases stem_len - k,
    {
        let c = text.get_char(k);
        assert(c == digits[k - 1]);
        let d: usize = digit_of_char(c);
        proof {
            assert(digits.take(k as int).drop_last() =~= digits.take(k - 1));
            assert(digits.take(k as int).last() == digits[k - 1]);
            assert(acc * 10 + d == parse_digits(digits.take(k as int)));
        }
        let next: usize = acc * 10 + d;
        if next >= ID_LIMIT {
            proof {
                lemma_parse_take_le(digits, k as int);
                assert(parse_digits(digits) >= ID_LIMIT);
                assert(st.len() == stem_len);
                assert(st[0] == text@[0]);
            }
            return Err(FormatError::OutOfRange);
        }
        acc = next;
        k = k + 1;
    }
    proof {
        assert(digits.take(stem_len - 1) =~= digits);
    }
    Ok(Identifier { value: acc })
}

} // verus!
