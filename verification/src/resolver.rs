//! Reference resolver: filters extracted reference tokens against the
//! corpus allow-list, dropping tokens that do not decode, tokens whose
//! identifier is not a known record, and self-references. Self-reference
//! exclusion compares numeric values, never token text, so padding
//! differences cannot hide a self-reference.

use vstd::prelude::*;
use crate::codec::Identifier;
use crate::index::AllowList;
use crate::scanner::{is_ref_token, token_val, token_value, TOKEN_LEN, PREFIX_BYTE, is_digit_byte};

verus! {

/// Whether the identifier value `v` survives resolution: some token
/// denotes it, it is in the allow-list, and it is not the source itself.
pub open spec fn survives(src: Identifier, toks: Seq<Seq<u8>>, al: AllowList, v: int) -> bool {
    &&& exists|m: int|
        0 <= m < toks.len() && is_ref_token(#[trigger] toks[m]) && token_val(toks[m]) == v
    &&& al.contains_val(v)
    &&& v != src.value
}

/// Whether some identifier in the list has the value `v`.
pub open spec fn id_list_has(ids: Seq<Identifier>, v: int) -> bool {
    exists|k: int| 0 <= k < ids.len() && (#[trigger] ids[k]).value == v
}

/// The surviving values of the tokens from position `i` on, appended to
/// `acc` in order of first occurrence: a token's value joins when the
/// token has the reference shape, the value is allow-listed, it is not
/// the source, and it is not already present.
pub open spec fn resolved_from(
    src: Identifier,
    toks: Seq<Seq<u8>>,
    al: AllowList,
    i: int,
    acc: Seq<usize>,
) -> Seq<usize>
    decreases toks.len() - i,
{
    if i < 0 || i >= toks.len() {
        acc
    } else {
        let t = toks[i];
        if is_ref_token(t) && al.contains_val(token_val(t)) && token_val(t) != src.value
            && !acc.contains(token_val(t) as usize) {
            resolved_from(src, toks, al, i + 1, acc.push(token_val(t) as usize))
        } else {
            resolved_from(src, toks, al, i + 1, acc)
        }
    }
}

/// The exact value sequence resolution yields for a token list.
pub open spec fn resolved_values(src: Identifier, toks: Seq<Seq<u8>>, al: AllowList) -> Seq<
    usize,
> {
    resolved_from(src, toks, al, 0, Seq::empty())
}

/// Self-references never survive resolution: the source's own value is
/// never in the resolved set, whatever the tokens and the allow-list hold.
pub proof fn lemma_no_self_reference(src: Identifier, toks: Seq<Seq<u8>>, al: AllowList)
    ensures
        !survives(src, toks, al, src.value as int),
{
}

/// Only allow-listed values survive resolution: a value outside the
/// allow-list is never in the resolved set.
pub proof fn lemma_only_allowed_survive(src: Identifier, toks: Seq<Seq<u8>>, al: AllowList)
    ensures
        forall|v: int| #[trigger] survives(src, toks, al, v) ==> al.contains_val(v),
{
}

proof fn lemma_survives_extend(src: Identifier, toks: Seq<Seq<u8>>, al: AllowList, i: int)
    requires
        0 <= i < toks.len(),
    ensures
        forall|v: int|
            #[trigger] survives(src, toks.take(i + 1), al, v) <==> (survives(src, toks.take(i), al, v)
                || (is_ref_token(toks[i]) && token_val(toks[i]) == v && al.contains_val(v) && v
                != src.value)),
{
    assert forall|v: int| #[trigger] survives(src, toks.take(i + 1), al, v) implies (survives(
        src,
        toks.take(i),
        al,
        v,
    ) || (is_ref_token(toks[i]) && token_val(toks[i]) == v && al.contains_val(v) && v
        != src.value)) by {
        let m = choose|m: int|
            0 <= m < toks.take(i + 1).len() && is_ref_token(#[trigger] toks.take(i + 1)[m])
                && token_val(toks.take(i + 1)[m]) == v;
        if m < i {
            assert(toks.take(i)[m] == toks.take(i + 1)[m]);
            assert(is_ref_token(toks.take(i)[m]) && token_val(toks.take(i)[m]) == v);
        } else {
            assert(toks.take(i + 1)[m] == toks[i]);
        }
    }
    assert forall|v: int|
        (survives(src, toks.take(i), al, v) || (is_ref_token(toks[i]) && token_val(toks[i]) == v
            && al.contains_val(v) && v != src.value)) implies #[trigger] survives(
        src,
        toks.take(i + 1),
        al,
        v,
    ) by {
        if survives(src, toks.take(i), al, v) {
            let m = choose|m: int|
                0 <= m < toks.take(i).len() && is_ref_token(#[trigger] toks.take(i)[m])
                    && token_val(toks.take(i)[m]) == v;
            assert(toks.take(i + 1)[m] == toks.take(i)[m]);
            assert(is_ref_token(toks.take(i + 1)[m]) && token_val(toks.take(i + 1)[m]) == v);
        } else {
            assert(toks.take(i + 1)[i] == toks[i]);
            assert(is_ref_token(toks.take(i + 1)[i]) && token_val(toks.take(i + 1)[i]) == v);
        }
    }
}

/// Whether a byte string has the reference-token shape.
#[verifier::loop_isolation(false)]
fn is_token_text(t: &Vec<u8>) -> (r: bool)
    ensures
        r == is_ref_token(t@),
{
    if t.len() != TOKEN_LEN {
        return false;
    }
    if t[0] != PREFIX_BYTE {
        return false;
    }
    let mut j: usize = 1;
    while j < TOKEN_LEN
        invariant
            1 <= j <= TOKEN_LEN,
            t@.len() == TOKEN_LEN,
            forall|q: int| 1 <= q < j ==> is_digit_byte(#[trigger] t@[q]),
        decreases TOKEN_LEN - j,
    {
        let b = t[j];
        if !(48 <= b && b <= 57) {
            assert(!is_digit_byte(t@[j as int]));
            return false;
        }
        j = j + 1;
    }
    true
}

/// Whether some already-resolved identifier has the value `v`.
#[verifier::loop_isolation(false)]
fn ids_contain(ids: &Vec<Identifier>, v: usize) -> (r: bool)
    ensures
        r == id_list_has(ids@, v as int),
{
    let mut k: usize = 0;
    while k < ids.len()
        invariant
            0 <= k <= ids@.len(),
            forall|q: int| 0 <= q < k ==> (#[trigger] ids@[q]).value != v,
        decreases ids@.len() - k,
    {
        if ids[k].value == v {
            return true;
        }
        k = k + 1;
    }
    false
}

/// Resolve reference tokens against the allow-list: decode each token,
/// drop the ones that fail, the ones not in the allow-list, and the ones
/// equal to the source; the surviving identifier values, each once.
#[verifier::loop_isolation(false)]
pub fn resolve(source: Identifier, tokens: &Vec<Vec<u8>>, allow: &AllowList) -> (r: Vec<
    Identifier,
>)
    requires
        allow.inv(),
        source.wf(),
    ensures
        r@.map_values(|id: Identifier| id.value) == resolved_values(
            source,
            tokens.deep_view(),
            *allow,
        ),
        forall|k: int, m: int| 0 <= k < m < r@.len() ==> r@[k].value != r@[m].value,
        forall|k: int|
            0 <= k < r@.len() ==> (#[trigger] r@[k]).wf() && survives(
                source,
                tokens.deep_view(),
                *allow,
                r@[k].value as int,
            ),
        forall|v: int|
            #[trigger] survives(source, tokens.deep_view(), *allow, v) ==> id_list_has(r@, v),
        forall|k: int| 0 <= k < r@.len() ==> (#[trigger] r@[k]).value != source.value,
        forall|k: int|
            0 <= k < r@.len() ==> allow.contains_val((#[trigger] r@[k]).value as int),
{
    let ghost toks = tokens.deep_view();
    let mut r: Vec<Identifier> = Vec::new();
    proof {
        assert(toks.take(0) =~= Seq::<Seq<u8>>::empty());
        assert(forall|v: int| !survives(source, toks.take(0), *allow, v));
        assert(r@.map_values(|id: Identifier| id.value) =~= Seq::<usize>::empty());
    }
    let mut i: usize = 0;
    while i < tokens.len()
        invariant
            0 <= i <= tokens@.len(),
            toks == tokens.deep_view(),
            toks.len() == tokens@.len(),
            forall|k: int, m: int| 0 <= k < m < r@.len() ==> r@[k].value != r@[m].value,
            forall|k: int|
                0 <= k < r@.len() ==> (#[trigger] r@[k]).wf() && survives(
                    source,
                    toks.take(i as int),
                    *allow,
                    r@[k].value as int,
                ),
            forall|v: int|
                #[trigger] survives(source, toks.take(i as int), *allow, v) ==> id_list_has(r@, v),
            resolved_values(source, toks, *allow) == resolved_from(
                source,
                toks,
                *allow,
                i as int,
                r@.map_values(|id: Identifier| id.value),
            ),
        decreases tokens@.len() - i,
    {
        proof {
            assert(toks[i as int] == tokens@[i as int]@);
            lemma_survives_extend(source, toks, *allow, i as int);
        }
        let ghost r0 = r@;
        let shaped = is_token_text(&tokens[i]);
        if shaped {
            let v = token_value(&tokens[i]);
            let id = Identifier { value: v };
            let in_allow = allow.contains(id);
            let dup = ids_contain(&r, v);
            if in_allow && v != source.value && !dup {
                r.push(id);
            }
            proof {
                let racc0 = r0.map_values(|id: Identifier| id.value);
                assert(racc0.contains(v) <==> id_list_has(r0, v as int)) by {
                    if racc0.contains(v) {
                        let k = choose|k: int| 0 <= k < racc0.len() && racc0[k] == v;
                        assert(r0[k].value == v);
                    }
                    if id_list_has(r0, v as int) {
                        let k = choose|k: int|
                            0 <= k < r0.len() && (#[trigger] r0[k]).value == v as int;
                        assert(racc0[k] == v);
                    }
                }
                assert(token_val(toks[i as int]) == v);
                if in_allow && v != source.value && !dup {
                    assert(r@.map_values(|id: Identifier| id.value) =~= racc0.push(v));
                    assert(resolved_from(source, toks, *allow, i as int, racc0) == resolved_from(
                        source,
                        toks,
                        *allow,
                        i as int + 1,
                        racc0.push(v),
                    ));
                } else {
                    assert(r@.map_values(|id: Identifier| id.value) == racc0);
                    assert(resolved_from(source, toks, *allow, i as int, racc0) == resolved_from(
                        source,
                        toks,
                        *allow,
                        i as int + 1,
                        racc0,
                    ));
                }
                assert forall|w: int| #[trigger] survives(source, toks.take(i + 1), *allow, w)
                    implies id_list_has(r@, w) by {
                    if survives(source, toks.take(i as int), *allow, w) {
                        let k = choose|k: int| 0 <= k < r0.len() && (#[trigger] r0[k]).value == w;
                        assert(r@[k].value == w);
                    } else {
                        assert(w == v && allow.contains_val(w) && w != source.value);
                        if dup {
                            let k = choose|k: int|
                                0 <= k < r0.len() && (#[trigger] r0[k]).value == w;
                            assert(r@[k].value == w);
                        } else {
                            assert(r@[r@.len() - 1].value == w);
                        }
                    }
                }
                assert forall|k: int| 0 <= k < r@.len() implies (#[trigger] r@[k]).wf()
                    && survives(source, toks.take(i + 1), *allow, r@[k].value as int) by {
                    if k < r0.len() {
                        assert(survives(source, toks.take(i as int), *allow, r0[k].value as int));
                    } else {
                        assert(r@[k].value == v);
                    }
                }
            }
        } else {
            proof {
                assert(!is_ref_token(toks[i as int]));
                assert(resolved_from(
                    source,
                    toks,
                    *allow,
                    i as int,
                    r@.map_values(|id: Identifier| id.value),
                ) == resolved_from(
                    source,
                    toks,
                    *allow,
                    i as int + 1,
                    r@.map_values(|id: Identifier| id.value),
                ));
                assert forall|w: int| #[trigger] survives(source, toks.take(i + 1), *allow, w)
                    implies id_list_has(r@, w) by {
                    assert(survives(source, toks.take(i as int), *allow, w));
                }
                assert forall|k: int| 0 <= k < r@.len() implies (#[trigger] r@[k]).wf()
                    && survives(source, toks.take(i + 1), *allow, r@[k].value as int) by {
                    assert(survives(source, toks.take(i as int), *allow, r@[k].value as int));
                }
            }
        }
        i = i + 1;
    }
    proof {
        assert(toks.take(tokens@.len() as int) =~= toks);
        assert(resolved_from(
            source,
            toks,
            *allow,
            toks.len() as int,
            r@.map_values(|id: Identifier| id.value),
        ) == r@.map_values(|id: Identifier| id.value));
    }
    r
}

} // verus!
