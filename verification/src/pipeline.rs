//! The corpus pipeline: allow-list construction, per-record scanning and
//! resolution, and the two exports. The streaming `edge_table` emits rows
//! record by record without assembling a graph; `build_graph` assembles
//! the full reference graph for the graph-description export.

use vstd::prelude::*;
use crate::codec::{Identifier, spec_decode, decode, to_text, id_text};
use crate::scanner::{token_matches, token_val, is_ref_token, scan_tokens, has_text, lemma_matches_shape, distinct_tokens};
use crate::index::{AllowList, allowed_by_names, lemma_allowed_extend};
use crate::resolver::{survives, id_list_has, resolve, resolved_from, resolved_values};
use crate::assembler::GraphAssembler;
use crate::assembler::rows_for;
use vstd::string::StringExecFns;
use vstd::seq_lib::lemma_multiset_commutative;

verus! {

/// One corpus record handed to the pipeline: the record's base file name
/// (from which its identifier derives) and its raw text.
pub struct RecordData {
    pub name: String,
    pub content: Vec<u8>,
}

/// The mathematical view of a corpus: each record as its name and text.
pub open spec fn corpus_view(records: Seq<RecordData>) -> Seq<(Seq<char>, Seq<u8>)> {
    records.map_values(|r: RecordData| (r.name@, r.content@))
}

/// The record names of a corpus.
pub open spec fn corpus_names(c: Seq<(Seq<char>, Seq<u8>)>) -> Seq<Seq<char>> {
    c.map_values(|p: (Seq<char>, Seq<u8>)| p.0)
}

/// Whether record text `content`, owned by the identifier value `src`,
/// holds a reference to the value `v` that survives resolution under the
/// corpus: some token occurrence denotes `v`, `v` is in the corpus
/// allow-list, and it is not a self-reference.
pub open spec fn record_refs(
    src: int,
    content: Seq<u8>,
    c: Seq<(Seq<char>, Seq<u8>)>,
    v: int,
) -> bool {
    &&& exists|m: int|
        0 <= m < token_matches(content, 0).len() && token_val(
            #[trigger] token_matches(content, 0)[m],
        ) == v
    &&& allowed_by_names(corpus_names(c), v)
    &&& v != src
}

/// Whether one of the first `n` records contributes the reference pair
/// (s, d): it decodes to `s` and its text references `d`.
pub open spec fn table_pair_upto(c: Seq<(Seq<char>, Seq<u8>)>, n: int, s: int, d: int) -> bool {
    exists|i: int|
        0 <= i < n && n <= c.len() && (#[trigger] spec_decode(c[i].0)) is Ok && spec_decode(
            c[i].0,
        )->Ok_0.value == s && record_refs(s, c[i].1, c, d)
}

/// Whether the corpus contributes the reference pair (s, d): some record
/// decodes to `s`, and its text references `d`, with `d` in the
/// allow-list and `d != s`.
pub open spec fn table_pair(c: Seq<(Seq<char>, Seq<u8>)>, s: int, d: int) -> bool {
    table_pair_upto(c, c.len() as int, s, d)
}

/// Whether a row carries the canonical texts of some contributed pair.
pub open spec fn row_ok(c: Seq<(Seq<char>, Seq<u8>)>, a: Seq<char>, b: Seq<char>) -> bool {
    exists|s: int, d: int| #[trigger] table_pair(c, s, d) && a == id_text(s) && b == id_text(d)
}

/// Whether the row list holds the canonical texts of the pair (s, d).
pub open spec fn rows_have(rows: Seq<(String, String)>, s: int, d: int) -> bool {
    exists|k: int|
        0 <= k < rows.len() && (#[trigger] rows[k]).0@ == id_text(s) && rows[k].1@ == id_text(d)
}

/// Whether the value-pair list holds the pair (s, d).
pub open spec fn pairs_have(ps: Seq<(usize, usize)>, s: int, d: int) -> bool {
    exists|k: int| 0 <= k < ps.len() && ((#[trigger] ps[k]).0 as int) == s && (ps[k].1 as int) == d
}

/// The surviving values of the token list from position `i` on, appended
/// to `acc` in first-occurrence order, judged against the corpus
/// allow-list: the corpus-level mirror of resolution.
pub open spec fn spec_dsts_from(
    src: int,
    toks: Seq<Seq<u8>>,
    c: Seq<(Seq<char>, Seq<u8>)>,
    i: int,
    acc: Seq<usize>,
) -> Seq<usize>
    decreases toks.len() - i,
{
    if i < 0 || i >= toks.len() {
        acc
    } else {
        let t = toks[i];
        if is_ref_token(t) && allowed_by_names(corpus_names(c), token_val(t)) && token_val(t)
            != src && !acc.contains(token_val(t) as usize) {
            spec_dsts_from(src, toks, c, i + 1, acc.push(token_val(t) as usize))
        } else {
            spec_dsts_from(src, toks, c, i + 1, acc)
        }
    }
}

/// The exact destination values one record contributes: its distinct
/// tokens, resolved in first-occurrence order.
pub open spec fn spec_dsts(src: int, content: Seq<u8>, c: Seq<(Seq<char>, Seq<u8>)>) -> Seq<
    usize,
> {
    spec_dsts_from(src, distinct_tokens(content), c, 0, Seq::empty())
}

/// One row per destination value, all from the one source.
pub open spec fn pair_rows(s: usize, vals: Seq<usize>) -> Seq<(usize, usize)> {
    vals.map_values(|v: usize| (s, v))
}

/// The exact (source value, destination value) rows of the first `n`
/// records, in record order: each decodable record contributes one row
/// per distinct surviving destination; other records contribute none.
pub open spec fn spec_pairs_upto(c: Seq<(Seq<char>, Seq<u8>)>, n: int) -> Seq<(usize, usize)>
    decreases n,
{
    if n <= 0 {
        Seq::empty()
    } else {
        spec_pairs_upto(c, n - 1) + (if spec_decode(c[n - 1].0) is Ok {
            pair_rows(
                spec_decode(c[n - 1].0)->Ok_0.value,
                spec_dsts(spec_decode(c[n - 1].0)->Ok_0.value as int, c[n - 1].1, c),
            )
        } else {
            Seq::empty()
        })
    }
}

/// The exact row sequence the whole corpus yields, as value pairs.
pub open spec fn spec_pairs(c: Seq<(Seq<char>, Seq<u8>)>) -> Seq<(usize, usize)> {
    spec_pairs_upto(c, c.len() as int)
}

/// Whether the text rows carry exactly these value pairs, row for row.
pub open spec fn rows_text_match(rows: Seq<(String, String)>, ps: Seq<(usize, usize)>) -> bool {
    &&& rows.len() == ps.len()
    &&& forall|k: int|
        0 <= k < rows.len() ==> (#[trigger] rows[k]).0@ == id_text(ps[k].0 as int) && rows[k].1@
            == id_text(ps[k].1 as int)
}

/// Resolution against the allow-list table equals resolution against the
/// corpus names, when the table holds exactly the corpus's identifiers.
proof fn lemma_resolved_bridge(
    src: Identifier,
    toks: Seq<Seq<u8>>,
    al: AllowList,
    c: Seq<(Seq<char>, Seq<u8>)>,
    i: int,
    acc: Seq<usize>,
)
    requires
        forall|v: int| #[trigger] al.contains_val(v) <==> allowed_by_names(corpus_names(c), v),
    ensures
        resolved_from(src, toks, al, i, acc) == spec_dsts_from(src.value as int, toks, c, i, acc),
    decreases toks.len() - i,
{
    if 0 <= i < toks.len() {
        let t = toks[i];
        assert(al.contains_val(token_val(t)) <==> allowed_by_names(corpus_names(c), token_val(t)));
        if is_ref_token(t) && al.contains_val(token_val(t)) && token_val(t) != src.value
            && !acc.contains(token_val(t) as usize) {
            lemma_resolved_bridge(src, toks, al, c, i + 1, acc.push(token_val(t) as usize));
        } else {
            lemma_resolved_bridge(src, toks, al, c, i + 1, acc);
        }
    }
}

/// The rows one record contributes, judged against the corpus `c`.
spec fn block_of(rec: (Seq<char>, Seq<u8>), c: Seq<(Seq<char>, Seq<u8>)>) -> Seq<(usize, usize)> {
    if spec_decode(rec.0) is Ok {
        pair_rows(
            spec_decode(rec.0)->Ok_0.value,
            spec_dsts(spec_decode(rec.0)->Ok_0.value as int, rec.1, c),
        )
    } else {
        Seq::empty()
    }
}

/// The concatenated row blocks of the records `rs`, each judged against `c`.
spec fn blocks_concat(rs: Seq<(Seq<char>, Seq<u8>)>, c: Seq<(Seq<char>, Seq<u8>)>) -> Seq<
    (usize, usize),
>
    decreases rs.len(),
{
    if rs.len() == 0 {
        Seq::empty()
    } else {
        blocks_concat(rs.drop_last(), c) + block_of(rs.last(), c)
    }
}

proof fn lemma_pairs_as_blocks(c: Seq<(Seq<char>, Seq<u8>)>, n: int)
    requires
        0 <= n <= c.len(),
    ensures
        spec_pairs_upto(c, n) == blocks_concat(c.take(n), c),
    decreases n,
{
    if n == 0 {
        assert(c.take(0) =~= Seq::<(Seq<char>, Seq<u8>)>::empty());
    } else {
        lemma_pairs_as_blocks(c, n - 1);
        assert(c.take(n).drop_last() =~= c.take(n - 1));
        assert(c.take(n).last() == c[n - 1]);
    }
}

proof fn lemma_dsts_transfer(
    src: int,
    toks: Seq<Seq<u8>>,
    c1: Seq<(Seq<char>, Seq<u8>)>,
    c2: Seq<(Seq<char>, Seq<u8>)>,
    i: int,
    acc: Seq<usize>,
)
    requires
        forall|v: int|
            #[trigger] allowed_by_names(corpus_names(c1), v) <==> allowed_by_names(
                corpus_names(c2),
                v,
            ),
    ensures
        spec_dsts_from(src, toks, c1, i, acc) == spec_dsts_from(src, toks, c2, i, acc),
    decreases toks.len() - i,
{
    if 0 <= i < toks.len() {
        let t = toks[i];
        assert(allowed_by_names(corpus_names(c1), token_val(t)) <==> allowed_by_names(
            corpus_names(c2),
            token_val(t),
        ));
        if is_ref_token(t) && allowed_by_names(corpus_names(c1), token_val(t)) && token_val(t)
            != src && !acc.contains(token_val(t) as usize) {
            lemma_dsts_transfer(src, toks, c1, c2, i + 1, acc.push(token_val(t) as usize));
        } else {
            lemma_dsts_transfer(src, toks, c1, c2, i + 1, acc);
        }
    }
}

proof fn lemma_blocks_transfer(
    rs: Seq<(Seq<char>, Seq<u8>)>,
    c1: Seq<(Seq<char>, Seq<u8>)>,
    c2: Seq<(Seq<char>, Seq<u8>)>,
)
    requires
        forall|v: int|
            #[trigger] allowed_by_names(corpus_names(c1), v) <==> allowed_by_names(
                corpus_names(c2),
                v,
            ),
    ensures
        blocks_concat(rs, c1) == blocks_concat(rs, c2),
    decreases rs.len(),
{
    if rs.len() > 0 {
        lemma_blocks_transfer(rs.drop_last(), c1, c2);
        if spec_decode(rs.last().0) is Ok {
            lemma_dsts_transfer(
                spec_decode(rs.last().0)->Ok_0.value as int,
                distinct_tokens(rs.last().1),
                c1,
                c2,
                0,
                Seq::empty(),
            );
        }
    }
}

proof fn lemma_blocks_remove(rs: Seq<(Seq<char>, Seq<u8>)>, c: Seq<(Seq<char>, Seq<u8>)>, j: int)
    requires
        0 <= j < rs.len(),
    ensures
        blocks_concat(rs, c).to_multiset() == blocks_concat(rs.remove(j), c).to_multiset().add(
            block_of(rs[j], c).to_multiset(),
        ),
    decreases rs.len(),
{
    lemma_multiset_commutative(blocks_concat(rs.drop_last(), c), block_of(rs.last(), c));
    if j == rs.len() - 1 {
        assert(rs.remove(j) =~= rs.drop_last());
    } else {
        assert(rs.remove(j).drop_last() =~= rs.drop_last().remove(j));
        assert(rs.remove(j).last() == rs.last());
        assert(rs.drop_last()[j] == rs[j]);
        lemma_blocks_remove(rs.drop_last(), c, j);
        lemma_multiset_commutative(
            blocks_concat(rs.drop_last().remove(j), c),
            block_of(rs.last(), c),
        );
        assert(blocks_concat(rs, c).to_multiset() =~= blocks_concat(rs.remove(j), c).to_multiset()
            .add(block_of(rs[j], c).to_multiset()));
    }
}

proof fn lemma_blocks_permutation(
    rs1: Seq<(Seq<char>, Seq<u8>)>,
    rs2: Seq<(Seq<char>, Seq<u8>)>,
    c: Seq<(Seq<char>, Seq<u8>)>,
)
    requires
        rs1.to_multiset() == rs2.to_multiset(),
    ensures
        blocks_concat(rs1, c).to_multiset() == blocks_concat(rs2, c).to_multiset(),
    decreases rs1.len(),
{
    rs1.to_multiset_ensures();
    rs2.to_multiset_ensures();
    if rs1.len() == 0 {
        assert(rs2.len() == 0);
    } else {
        rs1.drop_last().to_multiset_ensures();
        let x = rs1.last();
        assert(rs1.contains(x));
        assert(rs1.to_multiset().count(x) > 0);
        assert(rs2.contains(x));
        let j = choose|j: int| 0 <= j < rs2.len() && rs2[j] == x;
        assert(rs2.remove(j).to_multiset() =~= rs2.to_multiset().remove(x));
        assert(rs1 =~= rs1.drop_last().push(x));
        assert(rs1.drop_last().push(x).to_multiset() =~= rs1.drop_last().to_multiset().insert(x));
        assert(rs1.drop_last().to_multiset() =~= rs2.remove(j).to_multiset());
        lemma_blocks_permutation(rs1.drop_last(), rs2.remove(j), c);
        lemma_blocks_remove(rs2, c, j);
        lemma_multiset_commutative(blocks_concat(rs1.drop_last(), c), block_of(x, c));
        assert(blocks_concat(rs1, c).to_multiset() =~= blocks_concat(rs2, c).to_multiset());
    }
}

/// Re-enumerating an unchanged corpus in any order yields the same edge
/// rows as a multiset: not only the same set of pairs, but the same pair
/// the same number of times.
pub proof fn lemma_pairs_order_independent(
    c1: Seq<(Seq<char>, Seq<u8>)>,
    c2: Seq<(Seq<char>, Seq<u8>)>,
)
    requires
        c1.to_multiset() == c2.to_multiset(),
    ensures
        spec_pairs(c1).to_multiset() == spec_pairs(c2).to_multiset(),
        forall|v: int|
            #[trigger] allowed_by_names(corpus_names(c1), v) <==> allowed_by_names(
                corpus_names(c2),
                v,
            ),
{
    c1.to_multiset_ensures();
    c2.to_multiset_ensures();
    assert forall|x: (Seq<char>, Seq<u8>)| c1.contains(x) <==> c2.contains(x) by {
        assert(c1.contains(x) <==> c1.to_multiset().count(x) > 0);
        assert(c2.contains(x) <==> c2.to_multiset().count(x) > 0);
    }
    lemma_allowed_transfer(c1, c2);
    lemma_allowed_transfer(c2, c1);
    assert forall|v: int|
        #[trigger] allowed_by_names(corpus_names(c2), v) <==> allowed_by_names(
        corpus_names(c1),
        v,
    ) by {}
    lemma_pairs_as_blocks(c1, c1.len() as int);
    lemma_pairs_as_blocks(c2, c2.len() as int);
    assert(c1.take(c1.len() as int) =~= c1);
    assert(c2.take(c2.len() as int) =~= c2);
    lemma_blocks_transfer(c2, c2, c1);
    lemma_blocks_permutation(c1, c2, c1);
}

proof fn lemma_upto_extend(c: Seq<(Seq<char>, Seq<u8>)>, i: int)
    requires
        0 <= i < c.len(),
    ensures
        forall|s: int, d: int|
            #[trigger] table_pair_upto(c, i + 1, s, d) <==> (table_pair_upto(c, i, s, d) || (
            spec_decode(c[i].0) is Ok && spec_decode(c[i].0)->Ok_0.value == s && record_refs(
                s,
                c[i].1,
                c,
                d,
            ))),
{
    assert forall|s: int, d: int| #[trigger] table_pair_upto(c, i + 1, s, d) implies (
    table_pair_upto(c, i, s, d) || (spec_decode(c[i].0) is Ok && spec_decode(c[i].0)->Ok_0.value
        == s && record_refs(s, c[i].1, c, d))) by {
        let w = choose|w: int|
            0 <= w < i + 1 && (#[trigger] spec_decode(c[w].0)) is Ok && spec_decode(
                c[w].0,
            )->Ok_0.value == s && record_refs(s, c[w].1, c, d);
        if w < i {
            assert(table_pair_upto(c, i, s, d));
        }
    }
    assert forall|s: int, d: int|
        (table_pair_upto(c, i, s, d) || (spec_decode(c[i].0) is Ok && spec_decode(
            c[i].0,
        )->Ok_0.value == s && record_refs(s, c[i].1, c, d))) implies #[trigger] table_pair_upto(
        c,
        i + 1,
        s,
        d,
    ) by {
        if table_pair_upto(c, i, s, d) {
            let w = choose|w: int|
                0 <= w < i && (#[trigger] spec_decode(c[w].0)) is Ok && spec_decode(
                    c[w].0,
                )->Ok_0.value == s && record_refs(s, c[w].1, c, d);
            assert(0 <= w < i + 1 && spec_decode(c[w].0) is Ok && spec_decode(c[w].0)->Ok_0.value
                == s && record_refs(s, c[w].1, c, d));
        }
    }
}

/// Values outside the allow-list never stand as a destination: every
/// pair the corpus contributes has a destination that some record name
/// decodes to, so no emitted edge can point at an unknown identifier.
pub proof fn lemma_destinations_allowed(c: Seq<(Seq<char>, Seq<u8>)>)
    ensures
        forall|s: int, d: int|
            #[trigger] table_pair(c, s, d) ==> allowed_by_names(corpus_names(c), d),
{
    assert forall|s: int, d: int| #[trigger] table_pair(c, s, d) implies allowed_by_names(
        corpus_names(c),
        d,
    ) by {
        let w = choose|w: int|
            0 <= w < c.len() && (#[trigger] spec_decode(c[w].0)) is Ok && spec_decode(
                c[w].0,
            )->Ok_0.value == s && record_refs(s, c[w].1, c, d);
        assert(record_refs(s, c[w].1, c, d));
    }
}

proof fn lemma_rows_have_extend(rows0: Seq<(String, String)>, rows: Seq<(String, String)>)
    requires
        rows0.len() <= rows.len(),
        forall|k: int| 0 <= k < rows0.len() ==> rows[k] == rows0[k],
    ensures
        forall|s: int, d: int| #[trigger] rows_have(rows0, s, d) ==> rows_have(rows, s, d),
{
    assert forall|s: int, d: int| #[trigger] rows_have(rows0, s, d) implies rows_have(
        rows,
        s,
        d,
    ) by {
        let k = choose|k: int|
            0 <= k < rows0.len() && (#[trigger] rows0[k]).0@ == id_text(s) && rows0[k].1@
                == id_text(d);
        assert(rows[k].0@ == id_text(s) && rows[k].1@ == id_text(d));
    }
}

/// The reference pairs a corpus contributes do not depend on the order in
/// which its records are enumerated: corpora holding the same records
/// contribute exactly the same (source, destination) pairs, so a second
/// run over an unchanged corpus yields the same edge table as a set of
/// rows, whatever order the traversal visits records in.
pub proof fn lemma_table_order_independent(
    c1: Seq<(Seq<char>, Seq<u8>)>,
    c2: Seq<(Seq<char>, Seq<u8>)>,
)
    requires
        c1.to_multiset() == c2.to_multiset(),
    ensures
        forall|s: int, d: int| #[trigger] table_pair(c1, s, d) <==> table_pair(c2, s, d),
{
    c1.to_multiset_ensures();
    c2.to_multiset_ensures();
    assert forall|x: (Seq<char>, Seq<u8>)| c1.contains(x) <==> c2.contains(x) by {
        assert(c1.contains(x) <==> c1.to_multiset().count(x) > 0);
        assert(c2.contains(x) <==> c2.to_multiset().count(x) > 0);
    }
    lemma_allowed_transfer(c1, c2);
    lemma_allowed_transfer(c2, c1);
    assert forall|s: int, d: int| #[trigger] table_pair(c1, s, d) implies table_pair(c2, s, d) by {
        lemma_pair_transfer(c1, c2, s, d);
    }
    assert forall|s: int, d: int| #[trigger] table_pair(c2, s, d) implies table_pair(c1, s, d) by {
        lemma_pair_transfer(c2, c1, s, d);
    }
}

proof fn lemma_allowed_transfer(c1: Seq<(Seq<char>, Seq<u8>)>, c2: Seq<(Seq<char>, Seq<u8>)>)
    requires
        forall|x: (Seq<char>, Seq<u8>)| c1.contains(x) ==> c2.contains(x),
    ensures
        forall|v: int|
            #[trigger] allowed_by_names(corpus_names(c1), v) ==> allowed_by_names(
                corpus_names(c2),
                v,
            ),
{
    assert forall|v: int| #[trigger] allowed_by_names(corpus_names(c1), v) implies allowed_by_names(
        corpus_names(c2),
        v,
    ) by {
        let i = choose|i: int|
            0 <= i < corpus_names(c1).len() && (#[trigger] spec_decode(corpus_names(c1)[i])) is Ok
                && spec_decode(corpus_names(c1)[i])->Ok_0.value == v;
        assert(c1.contains(c1[i]));
        let j = choose|j: int| 0 <= j < c2.len() && c2[j] == c1[i];
        assert(corpus_names(c2)[j] == c1[i].0);
        assert(spec_decode(corpus_names(c2)[j]) is Ok && spec_decode(
            corpus_names(c2)[j],
        )->Ok_0.value == v);
    }
}

proof fn lemma_pair_transfer(
    c1: Seq<(Seq<char>, Seq<u8>)>,
    c2: Seq<(Seq<char>, Seq<u8>)>,
    s: int,
    d: int,
)
    requires
        forall|x: (Seq<char>, Seq<u8>)| c1.contains(x) ==> c2.contains(x),
        forall|v: int|
            #[trigger] allowed_by_names(corpus_names(c1), v) ==> allowed_by_names(
                corpus_names(c2),
                v,
            ),
        table_pair(c1, s, d),
    ensures
        table_pair(c2, s, d),
{
    let i = choose|i: int|
        0 <= i < c1.len() && (#[trigger] spec_decode(c1[i].0)) is Ok && spec_decode(
            c1[i].0,
        )->Ok_0.value == s && record_refs(s, c1[i].1, c1, d);
    assert(c1.contains(c1[i]));
    let j = choose|j: int| 0 <= j < c2.len() && c2[j] == c1[i];
    assert(record_refs(s, c2[j].1, c2, d));
    assert(0 <= j < c2.len() && spec_decode(c2[j].0) is Ok && spec_decode(c2[j].0)->Ok_0.value == s
        && record_refs(s, c2[j].1, c2, d));
}

/// Build the corpus allow-list from the record names.
#[verifier::loop_isolation(false)]
pub fn corpus_allow_list(records: &Vec<RecordData>) -> (allow: AllowList)
    ensures
        allow.inv(),
        forall|v: int|
            #[trigger] allow.contains_val(v) <==> allowed_by_names(
                corpus_names(corpus_view(records@)),
                v,
            ),
{
    let ghost cv = corpus_view(records@);
    let mut names: Vec<String> = Vec::new();
    let mut i: usize = 0;
    while i < records.len()
        invariant
            0 <= i <= records@.len(),
            cv == corpus_view(records@),
            names.deep_view() =~= corpus_names(cv).take(i as int),
        decreases records@.len() - i,
    {
        names.push(String::from_str(records[i].name.as_str()));
        proof {
            assert(names.deep_view() =~= corpus_names(cv).take(i + 1));
        }
        i = i + 1;
    }
    proof {
        assert(corpus_names(cv).take(records@.len() as int) =~= corpus_names(cv));
        assert(names.deep_view() =~= corpus_names(cv));
    }
    AllowList::from_names(&names)
}

/// The destinations of one record: scan its text, then resolve the
/// tokens against the allow-list. The result holds exactly the values
/// the record references validly, each once.
#[verifier::loop_isolation(false)]
pub fn record_destinations(src: Identifier, content: &Vec<u8>, allow: &AllowList, records: &Vec<RecordData>) -> (dsts: Vec<Identifier>)
    requires
        allow.inv(),
        src.wf(),
        forall|v: int|
            #[trigger] allow.contains_val(v) <==> allowed_by_names(
                corpus_names(corpus_view(records@)),
                v,
            ),
    ensures
        dsts@.map_values(|d: Identifier| d.value) == spec_dsts(
            src.value as int,
            content@,
            corpus_view(records@),
        ),
        forall|k: int, m: int| 0 <= k < m < dsts@.len() ==> dsts@[k].value != dsts@[m].value,
        forall|k: int|
            0 <= k < dsts@.len() ==> (#[trigger] dsts@[k]).wf() && record_refs(
                src.value as int,
                content@,
                corpus_view(records@),
                dsts@[k].value as int,
            ),
        forall|v: int|
            #[trigger] record_refs(src.value as int, content@, corpus_view(records@), v)
                ==> id_list_has(dsts@, v),
{
    let ghost cv = corpus_view(records@);
    let toks = scan_tokens(content);
    let dsts = resolve(src, &toks, allow);
    proof {
        let s = content@;
        lemma_matches_shape(s, 0);
        let tv = toks.deep_view();
        assert forall|k: int| 0 <= k < tv.len() implies tv[k] == toks@.map_values(
            |t: Vec<u8>| t@,
        )[k] by {
            assert(tv[k] == toks@[k]@);
        }
        assert(tv =~= toks@.map_values(|t: Vec<u8>| t@));
        assert(tv == distinct_tokens(s));
        lemma_resolved_bridge(src, tv, *allow, cv, 0, Seq::empty());
        assert(resolved_values(src, tv, *allow) == resolved_from(
            src,
            tv,
            *allow,
            0,
            Seq::empty(),
        ));
        assert(dsts@.map_values(|d: Identifier| d.value) == spec_dsts(src.value as int, s, cv));
        assert forall|v: int| #[trigger] survives(src, toks.deep_view(), *allow, v) implies
        record_refs(src.value as int, s, cv, v) by {
            let m = choose|m: int|
                0 <= m < toks.deep_view().len() && is_ref_token(#[trigger] toks.deep_view()[m])
                    && token_val(toks.deep_view()[m]) == v;
            assert(toks.deep_view()[m] == toks@[m]@);
            assert(token_matches(s, 0).contains(toks@[m]@));
            let w = choose|w: int|
                0 <= w < token_matches(s, 0).len() && token_matches(s, 0)[w] == toks@[m]@;
            assert(token_val(token_matches(s, 0)[w]) == v);
        }
        assert forall|v: int| #[trigger] record_refs(src.value as int, s, cv, v) implies survives(
            src,
            toks.deep_view(),
            *allow,
            v,
        ) by {
            let w = choose|w: int|
                0 <= w < token_matches(s, 0).len() && token_val(
                    #[trigger] token_matches(s, 0)[w],
                ) == v;
            assert(has_text(toks@, token_matches(s, 0)[w]));
            let k = choose|k: int|
                0 <= k < toks@.len() && #[trigger] toks@[k]@ == token_matches(s, 0)[w];
            assert(is_ref_token(token_matches(s, 0)[w]));
            assert(toks.deep_view()[k] == toks@[k]@);
            assert(is_ref_token(toks.deep_view()[k]) && token_val(toks.deep_view()[k]) == v);
        }
    }
    dsts
}

/// The full streaming pipeline: enumerate, scan, resolve, and emit the
/// edge table, one row per surviving reference, identifiers rendered in
/// canonical text. The rows are exactly the corpus's contributed pairs:
/// every row is a contributed pair, and every contributed pair appears.
/// Records whose names fail to decode contribute no rows but do not stop
/// the run.
#[verifier::loop_isolation(false)]
pub fn edge_table(records: &Vec<RecordData>) -> (rows: Vec<(String, String)>)
    ensures
        rows_text_match(rows@, spec_pairs(corpus_view(records@))),
        forall|k: int|
            0 <= k < rows@.len() ==> row_ok(
                corpus_view(records@),
                (#[trigger] rows@[k]).0@,
                rows@[k].1@,
            ),
        forall|s: int, d: int|
            #[trigger] table_pair(corpus_view(records@), s, d) ==> rows_have(rows@, s, d),
{
    let ghost cv = corpus_view(records@);
    let allow = corpus_allow_list(records);
    let mut rows: Vec<(String, String)> = Vec::new();
    let mut i: usize = 0;
    while i < records.len()
        invariant
            0 <= i <= records@.len(),
            cv == corpus_view(records@),
            cv.len() == records@.len(),
            allow.inv(),
            forall|v: int|
                #[trigger] allow.contains_val(v) <==> allowed_by_names(corpus_names(cv), v),
            rows_text_match(rows@, spec_pairs_upto(cv, i as int)),
            forall|k: int|
                0 <= k < rows@.len() ==> row_ok(cv, (#[trigger] rows@[k]).0@, rows@[k].1@),
            forall|s: int, d: int|
                #[trigger] table_pair_upto(cv, i as int, s, d) ==> rows_have(rows@, s, d),
        decreases records@.len() - i,
    {
        proof {
            assert(cv[i as int] == (records@[i as int].name@, records@[i as int].content@));
            lemma_upto_extend(cv, i as int);
        }
        let ghost rows0 = rows@;
        match decode(records[i].name.as_str()) {
            Ok(src) => {
                let dsts = record_destinations(src, &records[i].content, &allow, records);
                let ghost dvals = dsts@.map_values(|d: Identifier| d.value);
                proof {
                    assert(dvals.take(0) =~= Seq::<usize>::empty());
                    assert(rows@ + Seq::<(String, String)>::empty() =~= rows@);
                    assert(spec_pairs_upto(cv, i as int) + pair_rows(src.value, dvals.take(0))
                        =~= spec_pairs_upto(cv, i as int));
                }
                let mut q: usize = 0;
                while q < dsts.len()
                    invariant
                        0 <= q <= dsts@.len(),
                        dvals == dsts@.map_values(|d: Identifier| d.value),
                        rows_text_match(
                            rows@,
                            spec_pairs_upto(cv, i as int) + pair_rows(
                                src.value,
                                dvals.take(q as int),
                            ),
                        ),
                        rows0.len() <= rows@.len(),
                        forall|k: int| 0 <= k < rows0.len() ==> rows@[k] == rows0[k],
                        forall|k: int|
                            0 <= k < rows@.len() ==> row_ok(
                                cv,
                                (#[trigger] rows@[k]).0@,
                                rows@[k].1@,
                            ),
                        forall|w: int|
                            0 <= w < q ==> rows_have(
                                rows@,
                                src.value as int,
                                (#[trigger] dsts@[w]).value as int,
                            ),
                    decreases dsts@.len() - q,
                {
                    let ghost rows1 = rows@;
                    let d = dsts[q];
                    rows.push((to_text(src), to_text(d)));
                    proof {
                        lemma_rows_have_extend(rows1, rows@);
                        assert(rows@[rows@.len() - 1].0@ == id_text(src.value as int));
                        assert(rows@[rows@.len() - 1].1@ == id_text(d.value as int));
                        let ps0 = spec_pairs_upto(cv, i as int) + pair_rows(
                            src.value,
                            dvals.take(q as int),
                        );
                        let ps1 = spec_pairs_upto(cv, i as int) + pair_rows(
                            src.value,
                            dvals.take(q + 1),
                        );
                        assert(dvals[q as int] == d.value);
                        assert(ps1.len() == ps0.len() + 1);
                        assert forall|k: int| 0 <= k < ps0.len() implies ps1[k] == ps0[k] by {
                            if k >= spec_pairs_upto(cv, i as int).len() {
                                let w = k - spec_pairs_upto(cv, i as int).len();
                                assert(pair_rows(src.value, dvals.take(q as int))[w] == (
                                    src.value,
                                    dvals.take(q as int)[w],
                                ));
                                assert(pair_rows(src.value, dvals.take(q + 1))[w] == (
                                    src.value,
                                    dvals.take(q + 1)[w],
                                ));
                            }
                        }
                        assert(ps1[ps1.len() - 1] == (src.value, d.value)) by {
                            assert(pair_rows(src.value, dvals.take(q + 1))[q as int] == (
                                src.value,
                                dvals.take(q + 1)[q as int],
                            ));
                        }
                        assert(rows_text_match(rows@, ps1));
                        assert(record_refs(src.value as int, records@[i as int].content@, cv, d.value as int));
                        assert(table_pair_upto(cv, i + 1, src.value as int, d.value as int)) by {
                            assert(spec_decode(cv[i as int].0) is Ok && spec_decode(
                                cv[i as int].0,
                            )->Ok_0.value == src.value);
                        }
                        assert(table_pair(cv, src.value as int, d.value as int)) by {
                            assert forall|s2: int, d2: int|
                                table_pair_upto(cv, i + 1, s2, d2) implies #[trigger] table_pair(
                                cv,
                                s2,
                                d2,
                            ) by {
                                let w = choose|w: int|
                                    0 <= w < i + 1 && (#[trigger] spec_decode(cv[w].0)) is Ok
                                        && spec_decode(cv[w].0)->Ok_0.value == s2 && record_refs(
                                        s2,
                                        cv[w].1,
                                        cv,
                                        d2,
                                    );
                                assert(0 <= w < cv.len());
                            }
                        }
                        assert(row_ok(cv, rows@[rows@.len() - 1].0@, rows@[rows@.len() - 1].1@));
                        assert forall|w: int| 0 <= w < q + 1 implies rows_have(
                            rows@,
                            src.value as int,
                            (#[trigger] dsts@[w]).value as int,
                        ) by {
                            if w < q {
                                assert(rows_have(rows1, src.value as int, dsts@[w].value as int));
                            } else {
                                assert(rows@[rows@.len() - 1].0@ == id_text(src.value as int));
                            }
                        }
                    }
                    q = q + 1;
                }
                proof {
                    assert(dvals.take(dsts@.len() as int) =~= dvals);
                    assert(dvals == spec_dsts(src.value as int, cv[i as int].1, cv));
                    assert(spec_pairs_upto(cv, i as int + 1) == spec_pairs_upto(cv, i as int)
                        + pair_rows(src.value, spec_dsts(src.value as int, cv[i as int].1, cv)))
                        by {
                        assert(spec_decode(cv[i as int].0) is Ok && spec_decode(
                            cv[i as int].0,
                        )->Ok_0.value == src.value);
                    }
                    assert(rows_text_match(rows@, spec_pairs_upto(cv, i as int + 1)));
                    assert forall|s: int, d: int| #[trigger] table_pair_upto(cv, i + 1, s, d)
                        implies rows_have(rows@, s, d) by {
                        if table_pair_upto(cv, i as int, s, d) {
                            lemma_rows_have_extend(rows0, rows@);
                        } else {
                            assert(spec_decode(cv[i as int].0) is Ok && spec_decode(
                                cv[i as int].0,
                            )->Ok_0.value == s && record_refs(s, cv[i as int].1, cv, d));
                            assert(s == src.value as int);
                            assert(id_list_has(dsts@, d));
                            let w = choose|w: int|
                                0 <= w < dsts@.len() && (#[trigger] dsts@[w]).value == d;
                            assert(rows_have(rows@, src.value as int, dsts@[w].value as int));
                        }
                    }
                }
            },
            Err(_) => {
                proof {
                    assert(spec_decode(cv[i as int].0) is Err);
                    assert(spec_pairs_upto(cv, i as int + 1) =~= spec_pairs_upto(cv, i as int));
                    assert forall|s: int, d: int| #[trigger] table_pair_upto(cv, i + 1, s, d)
                        implies rows_have(rows@, s, d) by {
                        assert(table_pair_upto(cv, i as int, s, d));
                    }
                }
            },
        }
        i = i + 1;
    }
    proof {
        assert forall|s: int, d: int| #[trigger] table_pair(cv, s, d) implies rows_have(
            rows@,
            s,
            d,
        ) by {
            assert(table_pair_upto(cv, records@.len() as int, s, d));
        }
    }
    rows
}

proof fn lemma_pairs_have_extend(ps0: Seq<(usize, usize)>, ps: Seq<(usize, usize)>)
    requires
        ps0.len() <= ps.len(),
        forall|k: int| 0 <= k < ps0.len() ==> ps[k] == ps0[k],
    ensures
        forall|s: int, d: int| #[trigger] pairs_have(ps0, s, d) ==> pairs_have(ps, s, d),
{
    assert forall|s: int, d: int| #[trigger] pairs_have(ps0, s, d) implies pairs_have(ps, s, d) by {
        let k = choose|k: int|
            0 <= k < ps0.len() && ((#[trigger] ps0[k]).0 as int) == s && (ps0[k].1 as int) == d;
        assert((ps[k].0 as int) == s && (ps[k].1 as int) == d);
    }
}

proof fn lemma_upto_full(c: Seq<(Seq<char>, Seq<u8>)>, n: int)
    requires
        0 <= n <= c.len(),
    ensures
        forall|s: int, d: int| #[trigger] table_pair_upto(c, n, s, d) ==> table_pair(c, s, d),
{
    assert forall|s: int, d: int| #[trigger] table_pair_upto(c, n, s, d) implies table_pair(
        c,
        s,
        d,
    ) by {
        let w = choose|w: int|
            0 <= w < n && (#[trigger] spec_decode(c[w].0)) is Ok && spec_decode(c[w].0)->Ok_0.value
                == s && record_refs(s, c[w].1, c, d);
        assert(0 <= w < c.len());
    }
}

/// Assemble the full reference graph over the corpus: one node per
/// identifier that appears as a source or destination, one edge per
/// contributed pair; nodes are exactly the identifiers the corpus's
/// record names decode to.
#[verifier::loop_isolation(false)]
pub fn build_graph(records: &Vec<RecordData>) -> (g: GraphAssembler)
    ensures
        g.inv(),
        g.edge_values() == spec_pairs(corpus_view(records@)),
        forall|i: int, j: int|
            0 <= i < j < g.nodes().len() ==> g.nodes()[i] != g.nodes()[j],
        forall|k: int|
            0 <= k < g.edge_values().len() ==> table_pair(
                corpus_view(records@),
                ((#[trigger] g.edge_values()[k]).0 as int),
                (g.edge_values()[k].1 as int),
            ),
        forall|s: int, d: int|
            #[trigger] table_pair(corpus_view(records@), s, d) ==> pairs_have(
                g.edge_values(),
                s,
                d,
            ),
        forall|v: int|
            #[trigger] g.has_node(v) <==> allowed_by_names(
                corpus_names(corpus_view(records@)),
                v,
            ),
{
    let ghost cv = corpus_view(records@);
    let ghost names = corpus_names(cv);
    let allow = corpus_allow_list(records);
    let mut g = GraphAssembler::new();
    proof {
        assert(names.take(0) =~= Seq::<Seq<char>>::empty());
        assert(forall|v: int| !allowed_by_names(names.take(0), v));
        assert(forall|v: int| !g.has_node(v));
        assert(g.edge_values() =~= Seq::<(usize, usize)>::empty());
    }
    let mut i: usize = 0;
    while i < records.len()
        invariant
            0 <= i <= records@.len(),
            cv == corpus_view(records@),
            names == corpus_names(cv),
            cv.len() == records@.len(),
            names.len() == records@.len(),
            allow.inv(),
            forall|v: int| #[trigger] allow.contains_val(v) <==> allowed_by_names(names, v),
            g.inv(),
            g.edge_values() == spec_pairs_upto(cv, i as int),
            forall|k: int|
                0 <= k < g.edge_values().len() ==> table_pair_upto(
                    cv,
                    i as int,
                    ((#[trigger] g.edge_values()[k]).0 as int),
                    (g.edge_values()[k].1 as int),
                ),
            forall|s: int, d: int|
                #[trigger] table_pair_upto(cv, i as int, s, d) ==> pairs_have(
                    g.edge_values(),
                    s,
                    d,
                ),
            forall|v: int|
                #[trigger] g.has_node(v) <==> (allowed_by_names(names.take(i as int), v)
                    || exists|s: int| #[trigger] table_pair_upto(cv, i as int, s, v)),
        decreases records@.len() - i,
    {
        proof {
            assert(cv[i as int] == (records@[i as int].name@, records@[i as int].content@));
            assert(names[i as int] == records@[i as int].name@);
            lemma_upto_extend(cv, i as int);
            lemma_allowed_extend(names, i as int);
        }
        let ghost g0 = g;
        match decode(records[i].name.as_str()) {
            Ok(src) => {
                let dsts = record_destinations(src, &records[i].content, &allow, records);
                g.add_record(src, &dsts);
                proof {
                    assert(g.edge_values() == g0.edge_values() + rows_for(src.value, dsts@));
                    let dvals = dsts@.map_values(|d: Identifier| d.value);
                    assert(dvals == spec_dsts(src.value as int, cv[i as int].1, cv));
                    assert(rows_for(src.value, dsts@) =~= pair_rows(src.value, dvals)) by {
                        assert forall|k: int| 0 <= k < dsts@.len() implies rows_for(
                            src.value,
                            dsts@,
                        )[k] == pair_rows(src.value, dvals)[k] by {
                            assert(rows_for(src.value, dsts@)[k] == (src.value, dsts@[k].value));
                            assert(pair_rows(src.value, dvals)[k] == (src.value, dvals[k]));
                        }
                    }
                    assert(spec_pairs_upto(cv, i as int + 1) == spec_pairs_upto(cv, i as int)
                        + pair_rows(src.value, spec_dsts(src.value as int, cv[i as int].1, cv)))
                        by {
                        assert(spec_decode(cv[i as int].0) is Ok && spec_decode(
                            cv[i as int].0,
                        )->Ok_0.value == src.value);
                    }
                    assert(g.edge_values() == spec_pairs_upto(cv, i as int + 1));
                    assert forall|k: int| 0 <= k < g.edge_values().len() implies table_pair_upto(
                        cv,
                        i + 1,
                        ((#[trigger] g.edge_values()[k]).0 as int),
                        (g.edge_values()[k].1 as int),
                    ) by {
                        if k < g0.edge_values().len() {
                            assert(g.edge_values()[k] == g0.edge_values()[k]);
                            assert(table_pair_upto(
                                cv,
                                i as int,
                                (g0.edge_values()[k].0 as int),
                                (g0.edge_values()[k].1 as int),
                            ));
                        } else {
                            let w = k - g0.edge_values().len();
                            assert(g.edge_values()[k] == rows_for(src.value, dsts@)[w]);
                            assert(rows_for(src.value, dsts@)[w] == (src.value, dsts@[w].value));
                            assert(record_refs(src.value as int, cv[i as int].1, cv, dsts@[w].value as int));
                        }
                    }
                    assert forall|s: int, d: int| #[trigger] table_pair_upto(cv, i + 1, s, d)
                        implies pairs_have(g.edge_values(), s, d) by {
                        if table_pair_upto(cv, i as int, s, d) {
                            assert(pairs_have(g0.edge_values(), s, d));
                            assert forall|k: int| 0 <= k < g0.edge_values().len() implies
                                g.edge_values()[k] == g0.edge_values()[k] by {}
                            lemma_pairs_have_extend(g0.edge_values(), g.edge_values());
                        } else {
                            assert(s == src.value as int);
                            assert(record_refs(s, cv[i as int].1, cv, d));
                            assert(id_list_has(dsts@, d));
                            let w = choose|w: int|
                                0 <= w < dsts@.len() && (#[trigger] dsts@[w]).value == d;
                            let k = g0.edge_values().len() + w;
                            assert(g.edge_values()[k] == rows_for(src.value, dsts@)[w]);
                            assert((g.edge_values()[k].0 as int) == s && (g.edge_values()[k].1 as int) == d);
                        }
                    }
                    assert forall|v: int| #[trigger] g.has_node(v) implies (allowed_by_names(
                        names.take(i + 1),
                        v,
                    ) || exists|s: int| #[trigger] table_pair_upto(cv, i + 1, s, v)) by {
                        assert(g0.has_node(v) || v == src.value || id_list_has(dsts@, v));
                        if g0.has_node(v) {
                            if allowed_by_names(names.take(i as int), v) {
                                assert(allowed_by_names(names.take(i + 1), v));
                            } else {
                                let s = choose|s: int|
                                    #[trigger] table_pair_upto(cv, i as int, s, v);
                                assert(table_pair_upto(cv, i + 1, s, v));
                            }
                        } else if v == src.value {
                            assert(allowed_by_names(names.take(i + 1), v));
                        } else {
                            assert(id_list_has(dsts@, v));
                            let w = choose|w: int|
                                0 <= w < dsts@.len() && (#[trigger] dsts@[w]).value == v;
                            assert(record_refs(src.value as int, cv[i as int].1, cv, v));
                            assert(table_pair_upto(cv, i + 1, src.value as int, v));
                        }
                    }
                    assert forall|v: int|
                        (allowed_by_names(names.take(i + 1), v) || exists|s: int|
                            #[trigger] table_pair_upto(cv, i + 1, s, v)) implies
                        #[trigger] g.has_node(v) by {
                        if allowed_by_names(names.take(i + 1), v) {
                            if allowed_by_names(names.take(i as int), v) {
                                assert(g0.has_node(v));
                            } else {
                                assert(v == src.value);
                            }
                        } else {
                            let s = choose|s: int| #[trigger] table_pair_upto(cv, i + 1, s, v);
                            if table_pair_upto(cv, i as int, s, v) {
                                assert(g0.has_node(v));
                            } else {
                                assert(record_refs(s, cv[i as int].1, cv, v));
                                assert(s == src.value as int);
                                assert(id_list_has(dsts@, v));
                            }
                        }
                        assert(g.has_node(v) <==> (g0.has_node(v) || v == src.value
                            || id_list_has(dsts@, v)));
                    }
                }
            },
            Err(_) => {
                proof {
                    assert(spec_decode(cv[i as int].0) is Err);
                    assert(spec_pairs_upto(cv, i as int + 1) =~= spec_pairs_upto(cv, i as int));
                    assert forall|s: int, d: int| #[trigger] table_pair_upto(cv, i + 1, s, d)
                        implies table_pair_upto(cv, i as int, s, d) by {}
                    assert forall|v: int| #[trigger] g.has_node(v) <==> (allowed_by_names(
                        names.take(i + 1),
                        v,
                    ) || exists|s: int| #[trigger] table_pair_upto(cv, i + 1, s, v)) by {
                        if exists|s: int| #[trigger] table_pair_upto(cv, i + 1, s, v) {
                            let s = choose|s: int| #[trigger] table_pair_upto(cv, i + 1, s, v);
                            assert(table_pair_upto(cv, i as int, s, v));
                        }
                        if exists|s: int| #[trigger] table_pair_upto(cv, i as int, s, v) {
                            let s = choose|s: int| #[trigger] table_pair_upto(cv, i as int, s, v);
                            assert(table_pair_upto(cv, i + 1, s, v));
                        }
                    }
                    assert forall|k: int| 0 <= k < g.edge_values().len() implies table_pair_upto(
                        cv,
                        i + 1,
                        ((#[trigger] g.edge_values()[k]).0 as int),
                        (g.edge_values()[k].1 as int),
                    ) by {
                        assert(table_pair_upto(
                            cv,
                            i as int,
                            (g.edge_values()[k].0 as int),
                            (g.edge_values()[k].1 as int),
                        ));
                    }
                }
            },
        }
        i = i + 1;
    }
    proof {
        lemma_upto_full(cv, records@.len() as int);
        g.lemma_nodes_distinct();
        assert(names.take(records@.len() as int) =~= names);
        assert forall|v: int| #[trigger] g.has_node(v) <==> allowed_by_names(names, v) by {
            if g.has_node(v) && !allowed_by_names(names, v) {
                let s = choose|s: int| #[trigger] table_pair_upto(cv, records@.len() as int, s, v);
                assert(record_refs(s, cv[choose|w: int|
                    0 <= w < records@.len() && (#[trigger] spec_decode(cv[w].0)) is Ok
                        && spec_decode(cv[w].0)->Ok_0.value == s && record_refs(s, cv[w].1, cv, v)].1, cv, v));
            }
        }
    }
    g
}

/// Serialize a completed reference graph as an edge table: one row per
/// edge, in edge insertion order, identifiers rendered in canonical
/// text. Pure: the graph is not changed.
#[verifier::loop_isolation(false)]
pub fn to_edge_table(g: &GraphAssembler) -> (rows: Vec<(String, String)>)
    requires
        g.inv(),
    ensures
        rows@.len() == g.edge_values().len(),
        forall|k: int|
            0 <= k < rows@.len() ==> (#[trigger] rows@[k]).0@ == id_text(
                g.edge_values()[k].0 as int,
            ) && rows@[k].1@ == id_text(g.edge_values()[k].1 as int),
{
    proof {
        g.lemma_values_wf();
    }
    let evs = g.edge_value_list();
    let mut rows: Vec<(String, String)> = Vec::new();
    let mut k: usize = 0;
    while k < evs.len()
        invariant
            0 <= k <= evs@.len(),
            evs@ == g.edge_values(),
            rows@.len() == k,
            forall|q: int|
                0 <= q < k ==> (#[trigger] rows@[q]).0@ == id_text(g.edge_values()[q].0 as int)
                    && rows@[q].1@ == id_text(g.edge_values()[q].1 as int),
        decreases evs@.len() - k,
    {
        let e = evs[k];
        rows.push((to_text(Identifier { value: e.0 }), to_text(Identifier { value: e.1 })));
        k = k + 1;
    }
    rows
}

} // verus!
