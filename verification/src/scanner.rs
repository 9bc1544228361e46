//! Record scanner: pure pattern matching over one record's raw bytes.
//!
//! Two independent lexical patterns are applied to the full text: a
//! primary-identifier marker (`%I ` followed by one identifier token) and
//! the identifier token shape itself (the prefix byte followed by a
//! fixed-width digit run), matched at every non-overlapping occurrence.
//! Any content that matches neither pattern simply yields no match.

use vstd::prelude::*;
use crate::codec::{Identifier, pow10, ID_WIDTH, ID_LIMIT};

verus! {

/// Byte length of one reference token: the prefix plus the digit run.
pub const TOKEN_LEN: usize = 7;

/// The token prefix, as a byte (`A`).
pub const PREFIX_BYTE: u8 = 65;

pub open spec fn is_digit_byte(b: u8) -> bool {
    48 <= b <= 57
}

pub open spec fn digit_byte_val(b: u8) -> int {
    b - 48
}

/// The token shape: prefix byte, then `ID_WIDTH` digit bytes.
pub open spec fn is_ref_token(t: Seq<u8>) -> bool {
    &&& t.len() == TOKEN_LEN
    &&& t[0] == PREFIX_BYTE
    &&& forall|j: int| 1 <= j < TOKEN_LEN ==> is_digit_byte(#[trigger] t[j])
}

/// The numeric value of a digit-byte string, most significant first.
pub open spec fn parse_byte_digits(s: Seq<u8>) -> int
    decreases s.len(),
{
    if s.len() == 0 {
        0
    } else {
        parse_byte_digits(s.drop_last()) * 10 + digit_byte_val(s.last())
    }
}

/// The numeric value a token denotes.
pub open spec fn token_val(t: Seq<u8>) -> int {
    parse_byte_digits(t.skip(1))
}

/// Whether a token occurrence starts at position `i` of `s`.
pub open spec fn tok_at(s: Seq<u8>, i: int) -> bool {
    &&& 0 <= i
    &&& i + TOKEN_LEN <= s.len()
    &&& s[i] == PREFIX_BYTE
    &&& forall|j: int| i < j < i + TOKEN_LEN ==> is_digit_byte(#[trigger] s[j])
}

/// All non-overlapping token occurrences of `s` from position `i` on,
/// scanning left to right, earliest match first.
pub open spec fn token_matches(s: Seq<u8>, i: int) -> Seq<Seq<u8>>
    decreases s.len() - i,
{
    if i < 0 || i + TOKEN_LEN > s.len() {
        Seq::empty()
    } else if tok_at(s, i) {
        seq![s.subrange(i, i + TOKEN_LEN)] + token_matches(s, i + TOKEN_LEN)
    } else {
        token_matches(s, i + 1)
    }
}

/// The match list with later repetitions removed: each element of `ms`
/// from position `i` on joins `acc` at its first occurrence only.
pub open spec fn dedup_first(ms: Seq<Seq<u8>>, i: int, acc: Seq<Seq<u8>>) -> Seq<Seq<u8>>
    decreases ms.len() - i,
{
    if i < 0 || i >= ms.len() {
        acc
    } else if acc.contains(ms[i]) {
        dedup_first(ms, i + 1, acc)
    } else {
        dedup_first(ms, i + 1, acc.push(ms[i]))
    }
}

/// The distinct token texts of `s`, in order of first occurrence.
pub open spec fn distinct_tokens(s: Seq<u8>) -> Seq<Seq<u8>> {
    dedup_first(token_matches(s, 0), 0, Seq::empty())
}

/// Whether the primary-identifier marker (`%I ` then a token) starts at
/// `i`, at the start of a line: at the start of the text, or right after
/// a line feed.
pub open spec fn marker_at(s: Seq<u8>, i: int) -> bool {
    &&& 0 <= i
    &&& i + 3 + TOKEN_LEN <= s.len()
    &&& (i == 0 || s[i - 1] == 10)
    &&& s[i] == 37
    &&& s[i + 1] == 73
    &&& s[i + 2] == 32
    &&& tok_at(s, i + 3)
}

/// The value of the first primary-identifier marker at or after `i`, if any.
pub open spec fn primary_from(s: Seq<u8>, i: int) -> Option<int>
    decreases s.len() - i,
{
    if i < 0 || i + 3 + TOKEN_LEN > s.len() {
        None
    } else if marker_at(s, i) {
        Some(parse_byte_digits(s.subrange(i + 4, i + 3 + TOKEN_LEN)))
    } else {
        primary_from(s, i + 1)
    }
}

/// The declared primary identifier of a record's text, if present.
pub open spec fn spec_primary(s: Seq<u8>) -> Option<int> {
    primary_from(s, 0)
}

pub proof fn lemma_byte_parse_nonneg(s: Seq<u8>)
    requires
        forall|j: int| 0 <= j < s.len() ==> is_digit_byte(#[trigger] s[j]),
    ensures
        parse_byte_digits(s) >= 0,
    decreases s.len(),
{
    if s.len() > 0 {
        assert(forall|j: int|
            0 <= j < s.len() - 1 ==> is_digit_byte(#[trigger] s.drop_last()[j]) == is_digit_byte(
                s[j],
            ));
        lemma_byte_parse_nonneg(s.drop_last());
    }
}

/// A digit-byte string of width `w` denotes a value below ten to the `w`.
pub proof fn lemma_byte_parse_bound(s: Seq<u8>)
    requires
        forall|j: int| 0 <= j < s.len() ==> is_digit_byte(#[trigger] s[j]),
    ensures
        0 <= parse_byte_digits(s) < pow10(s.len()),
    decreases s.len(),
{
    if s.len() > 0 {
        assert(forall|j: int|
            0 <= j < s.len() - 1 ==> is_digit_byte(#[trigger] s.drop_last()[j]) == is_digit_byte(
                s[j],
            ));
        lemma_byte_parse_bound(s.drop_last());
        assert(is_digit_byte(s.last()));
    }
}

/// Every token value fits the identifier range.
pub proof fn lemma_token_val_in_range(t: Seq<u8>)
    requires
        is_ref_token(t),
    ensures
        0 <= token_val(t) < ID_LIMIT,
{
    let digits = t.skip(1);
    assert(forall|j: int| 0 <= j < digits.len() ==> is_digit_byte(#[trigger] digits[j]));
    lemma_byte_parse_bound(digits);
    crate::codec::lemma_pow10_id_width();
}

/// Every element of the match list has the token shape.
pub proof fn lemma_matches_shape(s: Seq<u8>, i: int)
    ensures
        forall|k: int|
            0 <= k < token_matches(s, i).len() ==> is_ref_token(#[trigger] token_matches(s, i)[k]),
    decreases s.len() - i,
{
    if i < 0 || i + TOKEN_LEN > s.len() {
    } else if tok_at(s, i) {
        lemma_matches_shape(s, i + TOKEN_LEN);
        assert(is_ref_token(s.subrange(i, i + TOKEN_LEN)));
        assert forall|k: int| 0 <= k < token_matches(s, i).len() implies is_ref_token(
            #[trigger] token_matches(s, i)[k],
        ) by {
            if k > 0 {
                assert(token_matches(s, i)[k] == token_matches(s, i + TOKEN_LEN)[k - 1]);
            }
        }
    } else {
        lemma_matches_shape(s, i + 1);
        assert(forall|k: int|
            0 <= k < token_matches(s, i).len() ==> #[trigger] token_matches(s, i)[k]
                == token_matches(s, i + 1)[k]);
    }
}

/// Whether a token occurrence starts at `i` in `content`.
#[verifier::loop_isolation(false)]
fn is_token_at(content: &Vec<u8>, i: usize) -> (r: bool)
    requires
        i + TOKEN_LEN <= content@.len(),
    ensures
        r == tok_at(content@, i as int),
{
    let n: usize = content.len();
    if content[i] != PREFIX_BYTE {
        return false;
    }
    let mut j: usize = 1;
    while j < TOKEN_LEN
        invariant
            1 <= j <= TOKEN_LEN,
            forall|q: int| i < q < i + j ==> is_digit_byte(#[trigger] content@[q]),
        decreases TOKEN_LEN - j,
    {
        let b = content[i + j];
        if !(48 <= b && b <= 57) {
            assert(!is_digit_byte(content@[i + j]));
            return false;
        }
        j = j + 1;
    }
    true
}

/// Copy the token starting at `i` out of the content.
#[verifier::loop_isolation(false)]
fn copy_token(content: &Vec<u8>, i: usize) -> (t: Vec<u8>)
    requires
        i + TOKEN_LEN <= content@.len(),
    ensures
        t@ == content@.subrange(i as int, i + TOKEN_LEN),
{
    let n: usize = content.len();
    let mut t: Vec<u8> = Vec::new();
    let mut j: usize = 0;
    while j < TOKEN_LEN
        invariant
            0 <= j <= TOKEN_LEN,
            t@ =~= content@.subrange(i as int, i + j),
        decreases TOKEN_LEN - j,
    {
        t.push(content[i + j]);
        proof {
            assert(t@ =~= content@.subrange(i as int, i + j + 1));
        }
        j = j + 1;
    }
    t
}

/// Whether two byte strings are equal.
#[verifier::loop_isolation(false)]
fn bytes_eq(a: &Vec<u8>, b: &Vec<u8>) -> (r: bool)
    ensures
        r == (a@ == b@),
{
    if a.len() != b.len() {
        return false;
    }
    let mut k: usize = 0;
    while k < a.len()
        invariant
            0 <= k <= a@.len(),
            a@.len() == b@.len(),
            forall|q: int| 0 <= q < k ==> a@[q] == b@[q],
        decreases a@.len() - k,
    {
        if a[k] != b[k] {
            return false;
        }
        k = k + 1;
    }
    proof {
        assert(a@ =~= b@);
    }
    true
}

/// Whether some element of the token list carries exactly the bytes `x`.
pub open spec fn has_text(toks: Seq<Vec<u8>>, x: Seq<u8>) -> bool {
    exists|k: int| 0 <= k < toks.len() && #[trigger] toks[k]@ == x
}

/// Whether some element of `toks` has the same bytes as `t`.
#[verifier::loop_isolation(false)]
fn contains_bytes(toks: &Vec<Vec<u8>>, t: &Vec<u8>) -> (r: bool)
    ensures
        r == has_text(toks@, t@),
{
    let mut k: usize = 0;
    while k < toks.len()
        invariant
            0 <= k <= toks@.len(),
            forall|q: int| 0 <= q < k ==> #[trigger] toks@[q]@ != t@,
        decreases toks@.len() - k,
    {
        if bytes_eq(&toks[k], t) {
            return true;
        }
        k = k + 1;
    }
    false
}

/// Extract the distinct reference tokens of a record's text, in order of
/// first occurrence: exactly the set of non-overlapping occurrences of the
/// token shape, repeated occurrences collapsed to one.
#[verifier::loop_isolation(false)]
pub fn scan_tokens(content: &Vec<u8>) -> (r: Vec<Vec<u8>>)
    ensures
        r@.map_values(|t: Vec<u8>| t@) == distinct_tokens(content@),
        forall|k: int, m: int|
            0 <= k < m < r@.len() ==> r@[k]@ != r@[m]@,
        forall|k: int|
            0 <= k < r@.len() ==> token_matches(content@, 0).contains(#[trigger] r@[k]@),
        forall|m: int|
            0 <= m < token_matches(content@, 0).len() ==> has_text(
                r@,
                #[trigger] token_matches(content@, 0)[m],
            ),
{
    let ghost s = content@;
    let ghost all = token_matches(s, 0);
    let mut r: Vec<Vec<u8>> = Vec::new();
    let len: usize = content.len();
    if len < TOKEN_LEN {
        proof {
            assert(token_matches(s, 0) =~= Seq::<Seq<u8>>::empty());
            assert(r@.map_values(|t: Vec<u8>| t@) =~= distinct_tokens(s));
        }
        return r;
    }
    let mut i: usize = 0;
    let ghost mut seen: Seq<Seq<u8>> = Seq::empty();
    proof {
        assert(all =~= seen + token_matches(s, 0));
        assert(r@.map_values(|t: Vec<u8>| t@) =~= Seq::<Seq<u8>>::empty());
    }
    while i <= len - TOKEN_LEN
        invariant
            0 <= i <= len,
            TOKEN_LEN <= len,
            all == seen + token_matches(s, i as int),
            distinct_tokens(s) == dedup_first(all, seen.len() as int, r@.map_values(|t: Vec<u8>| t@)),
            forall|k: int, m: int| 0 <= k < m < r@.len() ==> r@[k]@ != r@[m]@,
            forall|k: int| 0 <= k < r@.len() ==> seen.contains(#[trigger] r@[k]@),
            forall|m: int| 0 <= m < seen.len() ==> has_text(r@, #[trigger] seen[m]),
        decreases len - i,
    {
        if is_token_at(content, i) {
            let ghost tv = s.subrange(i as int, i + TOKEN_LEN);
            let t = copy_token(content, i);
            let ghost r0 = r@;
            let is_new = !contains_bytes(&r, &t);
            if is_new {
                r.push(t);
            }
            proof {
                let seen0 = seen;
                let racc0 = r0.map_values(|t: Vec<u8>| t@);
                seen = seen.push(tv);
                assert(token_matches(s, i as int) =~= seq![tv] + token_matches(
                    s,
                    i + TOKEN_LEN,
                ));
                assert(all =~= seen + token_matches(s, i + TOKEN_LEN));
                assert(all[seen0.len() as int] == tv);
                assert(racc0.contains(tv) <==> has_text(r0, tv)) by {
                    if racc0.contains(tv) {
                        let k = choose|k: int| 0 <= k < racc0.len() && racc0[k] == tv;
                        assert(r0[k]@ == tv);
                        assert(has_text(r0, tv));
                    }
                    if has_text(r0, tv) {
                        let k = choose|k: int| 0 <= k < r0.len() && #[trigger] r0[k]@ == tv;
                        assert(racc0[k] == tv);
                    }
                }
                if is_new {
                    assert(r@.map_values(|t: Vec<u8>| t@) =~= racc0.push(tv));
                    assert(dedup_first(all, seen0.len() as int, racc0) == dedup_first(
                        all,
                        seen0.len() as int + 1,
                        racc0.push(tv),
                    ));
                } else {
                    assert(racc0.contains(tv));
                    assert(r@.map_values(|t: Vec<u8>| t@) == racc0);
                    assert(dedup_first(all, seen0.len() as int, racc0) == dedup_first(
                        all,
                        seen0.len() as int + 1,
                        racc0,
                    ));
                }
                assert forall|k: int| 0 <= k < r@.len() implies seen.contains(
                    #[trigger] r@[k]@,
                ) by {
                    if k < r0.len() {
                        let m = choose|m: int| 0 <= m < seen0.len() && seen0[m] == r0[k]@;
                        assert(seen[m] == r0[k]@);
                    } else {
                        assert(r@[k]@ == tv);
                        assert(seen[seen.len() - 1] == tv);
                    }
                }
                assert forall|m: int| 0 <= m < seen.len() implies has_text(
                    r@,
                    #[trigger] seen[m],
                ) by {
                    if m < seen0.len() {
                        let k = choose|k: int| 0 <= k < r0.len() && #[trigger] r0[k]@ == seen0[m];
                        assert(r@[k]@ == seen[m]);
                    } else {
                        if is_new {
                            assert(r@[r@.len() - 1]@ == tv);
                            assert(seen[m] == tv);
                        } else {
                            let k = choose|k: int| 0 <= k < r0.len() && #[trigger] r0[k]@ == t@;
                            assert(r@[k]@ == tv);
                            assert(seen[m] == tv);
                        }
                    }
                }
            }
            i = i + TOKEN_LEN;
        } else {
            i = i + 1;
        }
    }
    proof {
        assert(token_matches(s, i as int) =~= Seq::<Seq<u8>>::empty());
        assert(all =~= seen);
        assert(dedup_first(all, seen.len() as int, r@.map_values(|t: Vec<u8>| t@)) == r@.map_values(
            |t: Vec<u8>| t@,
        ));
    }
    r
}

/// The numeric value of a reference token.
#[verifier::loop_isolation(false)]
pub fn token_value(t: &Vec<u8>) -> (v: usize)
    requires
        is_ref_token(t@),
    ensures
        v == token_val(t@),
        v < ID_LIMIT,
{
    let ghost digits = t@.skip(1);
    proof {
        lemma_token_val_in_range(t@);
        crate::codec::lemma_pow10_id_width();
        assert(forall|j: int| 0 <= j < digits.len() ==> is_digit_byte(#[trigger] digits[j]));
        assert(digits.take(0) =~= Seq::<u8>::empty());
    }
    let mut acc: usize = 0;
    let mut k: usize = 1;
    while k < TOKEN_LEN
        invariant
            1 <= k <= TOKEN_LEN,
            acc == parse_byte_digits(digits.take(k - 1)),
            0 <= acc < pow10((k - 1) as nat),
        decreases TOKEN_LEN - k,
    {
        let b = t[k];
        assert(b == digits[k - 1]);
        assert(is_digit_byte(b));
        let d: usize = (b - 48) as usize;
        proof {
            assert(digits.take(k as int).drop_last() =~= digits.take(k - 1));
            assert(digits.take(k as int).last() == digits[k - 1]);
            assert(pow10(k as nat) == 10 * pow10((k - 1) as nat));
            assert(pow10((k - 1) as nat) <= pow10(5));
        }
        acc = acc * 10 + d;
        k = k + 1;
    }
    proof {
        assert(digits.take(TOKEN_LEN - 1) =~= digits);
        lemma_token_val_in_range(t@);
    }
    acc
}

/// The record's declared primary identifier: the first match of the
/// line-start marker pattern, or nothing when the marker is absent.
#[verifier::loop_isolation(false)]
pub fn extract_main_id(content: &Vec<u8>) -> (r: Option<Identifier>)
    ensures
        match r {
            Some(id) => id.wf() && spec_primary(content@) == Some(id.value as int),
            None => spec_primary(content@) is None,
        },
{
    let ghost s = content@;
    let len: usize = content.len();
    if len < 3 + TOKEN_LEN {
        return None;
    }
    let mut i: usize = 0;
    while i <= len - (3 + TOKEN_LEN)
        invariant
            0 <= i <= len,
            3 + TOKEN_LEN <= len,
            spec_primary(s) == primary_from(s, i as int),
        decreases len - i,
    {
        if (i == 0 || content[i - 1] == 10) && content[i] == 37 && content[i + 1] == 73
            && content[i + 2] == 32 && is_token_at(content, i + 3) {
            let t = copy_token(content, i + 3);
            proof {
                assert(is_ref_token(t@));
                assert(t@.skip(1) =~= s.subrange(i + 4, i + 3 + TOKEN_LEN));
            }
            let v = token_value(&t);
            return Some(Identifier { value: v });
        }
        i = i + 1;
    }
    proof {
        assert(primary_from(s, i as int) is None);
    }
    None
}

/// Scan one record's text: the declared primary identifier, if present,
/// and the distinct reference tokens found anywhere in the text. Pure
/// pattern matching: content that matches neither pattern yields no
/// match, never a failure.
pub fn scan(content: &Vec<u8>) -> (r: (Option<Identifier>, Vec<Vec<u8>>))
    ensures
        r.1@.map_values(|t: Vec<u8>| t@) == distinct_tokens(content@),
        match r.0 {
            Some(id) => id.wf() && spec_primary(content@) == Some(id.value as int),
            None => spec_primary(content@) is None,
        },
        forall|k: int, m: int| 0 <= k < m < r.1@.len() ==> r.1@[k]@ != r.1@[m]@,
        forall|k: int|
            0 <= k < r.1@.len() ==> token_matches(content@, 0).contains(#[trigger] r.1@[k]@),
        forall|m: int|
            0 <= m < token_matches(content@, 0).len() ==> has_text(
                r.1@,
                #[trigger] token_matches(content@, 0)[m],
            ),
{
    (extract_main_id(content), scan_tokens(content))
}

} // verus!
