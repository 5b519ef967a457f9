//! One worker's local pass: split an owned chunk of the file into
//! lines, parse each record, and fold it into a private table.
//!
//! A worker owns exactly the bytes of its chunk and shares nothing; a
//! malformed line is fatal to the whole run and is reported with its
//! index inside the chunk.

use vstd::prelude::*;
use vstd::slice::slice_subrange;
use crate::chunk::{chunks_contiguous, Chunk};
use crate::errors::PipelineError;
use crate::numeral::{lemma_numeral_in_range, NEWLINE};
use crate::record::{
    has_semi, lemma_line_ok_len, line_key, line_ok, line_value, parse_line, LineFault,
};
use crate::stats::{
    lemma_from_wf, lemma_merge_record_assoc, lemma_record_is_merge_single, lemma_recorded_wf,
    Measurement,
};
use crate::table::{ingest, merged_maps, Table};

verus! {

/// Index of the first line break in a text, or `-1` when there is none.
pub open spec fn first_nl(s: Seq<u8>) -> int
    decreases s.len(),
{
    if s.len() == 0 {
        -1
    } else if s[0] == NEWLINE {
        0
    } else {
        let r = first_nl(s.skip(1));
        if r < 0 {
            -1
        } else {
            r + 1
        }
    }
}

pub proof fn lemma_first_nl_props(s: Seq<u8>)
    ensures
        -1 <= first_nl(s) < s.len(),
        first_nl(s) >= 0 ==> s[first_nl(s)] == NEWLINE,
        forall|q: int| 0 <= q < first_nl(s) ==> s[q] != NEWLINE,
        first_nl(s) == -1 ==> forall|q: int| 0 <= q < s.len() ==> s[q] != NEWLINE,
    decreases s.len(),
{
    if s.len() > 0 && s[0] != NEWLINE {
        lemma_first_nl_props(s.skip(1));
        assert(forall|q: int| 0 <= q < s.skip(1).len() ==> s.skip(1)[q] == s[q + 1]);
        if first_nl(s) == -1 {
            assert forall|q: int| 0 <= q < s.len() implies s[q] != NEWLINE by {
                if q > 0 {
                    assert(s.skip(1)[q - 1] == s[q]);
                }
            }
        } else {
            assert forall|q: int| 0 <= q < first_nl(s) implies s[q] != NEWLINE by {
                if q > 0 {
                    assert(s.skip(1)[q - 1] == s[q]);
                }
            }
        }
    }
}

pub proof fn lemma_first_nl_at(s: Seq<u8>, p: int)
    requires
        0 <= p < s.len(),
        s[p] == NEWLINE,
        forall|q: int| 0 <= q < p ==> s[q] != NEWLINE,
    ensures
        first_nl(s) == p,
    decreases s.len(),
{
    if p > 0 {
        assert(forall|q: int| 0 <= q < p - 1 ==> s.skip(1)[q] == s[q + 1]);
        lemma_first_nl_at(s.skip(1), p - 1);
    }
}

pub proof fn lemma_first_nl_none(s: Seq<u8>)
    requires
        forall|q: int| 0 <= q < s.len() ==> s[q] != NEWLINE,
    ensures
        first_nl(s) == -1,
    decreases s.len(),
{
    if s.len() > 0 {
        assert(forall|q: int| 0 <= q < s.skip(1).len() ==> s.skip(1)[q] == s[q + 1]);
        lemma_first_nl_none(s.skip(1));
    }
}

/// The record lines of a chunk's text: segments between line breaks,
/// with a final segment only when bytes follow the last break.
pub open spec fn lines_of(s: Seq<u8>) -> Seq<Seq<u8>>
    decreases s.len(),
{
    if s.len() == 0 {
        Seq::empty()
    } else {
        let j = first_nl(s);
        if 0 <= j < s.len() {
            seq![s.subrange(0, j)] + lines_of(s.skip(j + 1))
        } else {
            seq![s]
        }
    }
}

/// Every line of the text is a well-formed record.
pub open spec fn lines_wf(ls: Seq<Seq<u8>>) -> bool {
    forall|i: int| 0 <= i < ls.len() ==> line_ok(#[trigger] ls[i])
}

/// The mapping spelled out by a sequence of record lines, folded in
/// order.
pub open spec fn model_of_lines(ls: Seq<Seq<u8>>) -> Map<Seq<u8>, Measurement>
    decreases ls.len(),
{
    if ls.len() == 0 {
        Map::empty()
    } else {
        ingest(
            model_of_lines(ls.drop_last()),
            line_key(ls.last()),
            line_value(ls.last()) as i64,
        )
    }
}

/// Every aggregate of the mapping has counted at most `n` records.
pub open spec fn counts_bounded(m: Map<Seq<u8>, Measurement>, n: int) -> bool {
    forall|k: Seq<u8>| #[trigger] m.contains_key(k) ==> m[k].count <= n
}

/// How the lines of a text split at its first line break at or past a
/// position: the bytes before the break are one line, the rest follow.
proof fn lemma_lines_decompose(s: Seq<u8>, i: int, j: int)
    requires
        0 <= i <= j <= s.len(),
        j < s.len() ==> s[j] == NEWLINE,
        forall|m: int| i <= m < j ==> s[m] != NEWLINE,
    ensures
        j < s.len() ==> lines_of(s.skip(i)) == seq![s.subrange(i, j)] + lines_of(s.skip(j + 1)),
        j == s.len() && i < j ==> lines_of(s.skip(i)) == seq![s.subrange(i, j)],
        i == s.len() ==> lines_of(s.skip(i)) == Seq::<Seq<u8>>::empty(),
{
    let t = s.skip(i);
    assert(forall|q: int| 0 <= q < t.len() ==> t[q] == s[q + i]);
    if j < s.len() {
        lemma_first_nl_at(t, j - i);
        assert(t.subrange(0, j - i) =~= s.subrange(i, j));
        assert(t.skip(j - i + 1) =~= s.skip(j + 1));
    } else if i < j {
        lemma_first_nl_none(t);
        assert(t =~= s.subrange(i, j));
    } else {
        assert(t =~= Seq::<u8>::empty());
    }
}

/// Index of the first line break at or after `from`, or the length when
/// there is none.
pub(crate) fn find_newline(s: &[u8], from: usize) -> (r: usize)
    requires
        from <= s@.len(),
    ensures
        from <= r <= s@.len(),
        r < s@.len() ==> s@[r as int] == NEWLINE,
        forall|m: int| from <= m < r ==> s@[m] != NEWLINE,
{
    let n = s.len();
    let mut i = from;
    while i < n
        invariant
            from <= i <= n,
            n == s@.len(),
            forall|m: int| from <= m < i ==> s@[m] != NEWLINE,
        decreases n - i,
    {
        if s[i] == NEWLINE {
            return i;
        }
        i = i + 1;
    }
    n
}

/// Reads one chunk's bytes: splits them into lines, parses every
/// record, and builds this worker's private table.  Succeeds exactly
/// when every line is well formed; otherwise reports the first
/// offending line and whether its delimiter or its numeral was at
/// fault.
pub fn process_chunk(contents: &[u8]) -> (r: Result<Table, PipelineError>)
    ensures
        r is Ok <==> lines_wf(lines_of(contents@)),
        r matches Ok(t) ==> t.wf() && t.model() == model_of_lines(lines_of(contents@)),
        r matches Err(e) ==> exists|k: int|
            0 <= k < lines_of(contents@).len() && (forall|j: int|
                0 <= j < k ==> line_ok(#[trigger] lines_of(contents@)[j])) && !line_ok(
                #[trigger] lines_of(contents@)[k],
            ) && e == (if !has_semi(lines_of(contents@)[k]) {
                PipelineError::MissingDelimiter(k as usize)
            } else {
                PipelineError::BadNumeral(k as usize)
            }),
{
    let n = contents.len();
    let mut table = Table::new();
    let ghost all_lines = lines_of(contents@);
    let mut lineno: usize = 0;
    let mut i: usize = 0;
    proof {
        assert(contents@.skip(0) =~= contents@);
        assert(all_lines.take(0) + lines_of(contents@) =~= all_lines);
    }
    while i < n
        invariant
            0 <= i <= n,
            n == contents@.len(),
            all_lines == lines_of(contents@),
            0 <= lineno <= all_lines.len(),
            all_lines == all_lines.take(lineno as int) + lines_of(contents@.skip(i as int)),
            lines_wf(all_lines.take(lineno as int)),
            table.wf(),
            table.model() == model_of_lines(all_lines.take(lineno as int)),
            counts_bounded(table.model(), lineno as int),
            4 * lineno <= i,
        decreases n - i,
    {
        let j = find_newline(contents, i);
        let line = slice_subrange(contents, i, j);
        proof {
            lemma_lines_decompose(contents@, i as int, j as int);
            assert(all_lines[lineno as int] == line@);
            assert(all_lines.take(lineno as int + 1) =~= all_lines.take(lineno as int).push(
                line@,
            ));
        }
        match parse_line(line) {
            Err(f) => {
                proof {
                    assert(!line_ok(all_lines[lineno as int]));
                }
                return Err(
                    match f {
                        LineFault::MissingDelimiter => PipelineError::MissingDelimiter(lineno),
                        LineFault::BadNumeral => PipelineError::BadNumeral(lineno),
                    },
                );
            },
            Ok((key, value)) => {
                let ghost prev = table.model();
                proof {
                    lemma_line_ok_len(line@);
                }
                table.record_value(key, value);
                proof {
                    assert(all_lines.take(lineno as int).push(line@).drop_last() =~= all_lines.take(
                        lineno as int,
                    ));
                    assert(table.model() == model_of_lines(all_lines.take(lineno as int + 1)));
                    assert forall|k: Seq<u8>| #[trigger]
                        table.model().contains_key(k) implies table.model()[k].count <= lineno as int
                        + 1 by {
                        assert(prev.contains_key(k) ==> prev[k].count <= lineno as int);
                    }
                }
            },
        }
        lineno = lineno + 1;
        i = if j < n {
            j + 1
        } else {
            n
        };
        proof {
            if j == n {
                assert(lines_of(contents@.skip(i as int)) =~= Seq::<Seq<u8>>::empty());
                assert(all_lines =~= all_lines.take(lineno as int) + lines_of(
                    contents@.skip(i as int),
                ));
            }
        }
    }
    proof {
        assert(lines_of(contents@.skip(i as int)) =~= Seq::<Seq<u8>>::empty()) by {
            lemma_lines_decompose(contents@, i as int, i as int);
        }
        assert(all_lines =~= all_lines.take(lineno as int));
    }
    Ok(table)
}

/// A text has at most as many lines as bytes: every line consumes at
/// least its own line break or at least one byte.
pub proof fn lemma_lines_count(s: Seq<u8>)
    ensures
        lines_of(s).len() <= s.len(),
    decreases s.len(),
{
    if s.len() > 0 {
        let j = first_nl(s);
        lemma_first_nl_props(s);
        if 0 <= j < s.len() {
            lemma_lines_count(s.skip(j + 1));
        }
    }
}

/// The mapping built from well-formed lines holds only well-formed
/// aggregates, and none has counted more records than there are lines.
pub proof fn lemma_model_lines_wf(ls: Seq<Seq<u8>>)
    requires
        lines_wf(ls),
        ls.len() <= u64::MAX,
    ensures
        forall|k: Seq<u8>|
            #[trigger] model_of_lines(ls).contains_key(k) ==> model_of_lines(ls)[k].wf()
                && model_of_lines(ls)[k].count <= ls.len(),
    decreases ls.len(),
{
    if ls.len() > 0 {
        let pre = ls.drop_last();
        assert(lines_wf(pre)) by {
            assert(forall|i: int| 0 <= i < pre.len() ==> #[trigger] pre[i] == ls[i]);
        }
        lemma_model_lines_wf(pre);
        let last = ls.last();
        assert(line_ok(last));
        lemma_numeral_in_range(crate::record::line_value_text(last));
        let v = line_value(last) as i64;
        let m = model_of_lines(pre);
        if m.contains_key(line_key(last)) {
            lemma_recorded_wf(m[line_key(last)], v);
        } else {
            lemma_from_wf(v);
        }
    }
}

/// Splitting a text at a position just past a line break splits its
/// lines: the lines of the whole are the lines of the two parts, in
/// order.
pub proof fn lemma_lines_split(s: Seq<u8>, c: int)
    requires
        0 <= c <= s.len(),
        c == 0 || s[c - 1] == NEWLINE,
    ensures
        lines_of(s) == lines_of(s.take(c)) + lines_of(s.skip(c)),
    decreases s.len(),
{
    if c == 0 {
        assert(s.take(0) =~= Seq::<u8>::empty());
        assert(s.skip(0) =~= s);
        assert(lines_of(s.take(0)) + lines_of(s) =~= lines_of(s));
    } else {
        lemma_first_nl_props(s);
        let j = first_nl(s);
        assert(j >= 0);
        assert(j <= c - 1) by {
            if j > c - 1 {
                assert(s[c - 1] != NEWLINE);
            }
        }
        let t = s.take(c);
        assert(forall|q: int| 0 <= q < t.len() ==> t[q] == s[q]);
        lemma_first_nl_at(t, j);
        let rest = s.skip(j + 1);
        assert(t.subrange(0, j) =~= s.subrange(0, j));
        assert(t.skip(j + 1) =~= rest.take(c - j - 1));
        assert(rest.skip(c - j - 1) =~= s.skip(c));
        if c - j - 1 > 0 {
            assert(rest[c - j - 2] == s[c - 1]);
        }
        lemma_lines_split(rest, c - j - 1);
        assert(lines_of(s) =~= lines_of(t) + lines_of(s.skip(c)));
    }
}

/// Folding two runs of lines separately and merging the mappings gives
/// exactly the mapping of the two runs folded in sequence.
pub proof fn lemma_models_concat(l1: Seq<Seq<u8>>, l2: Seq<Seq<u8>>)
    requires
        lines_wf(l1),
        lines_wf(l2),
        l1.len() + l2.len() <= u64::MAX,
    ensures
        model_of_lines(l1 + l2) == merged_maps(model_of_lines(l1), model_of_lines(l2)),
    decreases l2.len(),
{
    let m1 = model_of_lines(l1);
    if l2.len() == 0 {
        assert(l1 + l2 =~= l1);
        assert(merged_maps(m1, model_of_lines(l2)) =~= m1);
    } else {
        let pre = l2.drop_last();
        assert(lines_wf(pre)) by {
            assert(forall|i: int| 0 <= i < pre.len() ==> #[trigger] pre[i] == l2[i]);
        }
        lemma_models_concat(l1, pre);
        lemma_model_lines_wf(l1);
        lemma_model_lines_wf(pre);
        let last = l2.last();
        assert(line_ok(last));
        lemma_numeral_in_range(crate::record::line_value_text(last));
        let k = line_key(last);
        let v = line_value(last) as i64;
        let m2p = model_of_lines(pre);
        assert((l1 + l2).drop_last() =~= l1 + pre);
        assert((l1 + l2).last() == last);
        assert(model_of_lines(l1 + l2) == ingest(merged_maps(m1, m2p), k, v));
        let lhs = ingest(merged_maps(m1, m2p), k, v);
        let rhs = merged_maps(m1, ingest(m2p, k, v));
        assert(lhs[k] == rhs[k]) by {
            if m1.contains_key(k) && m2p.contains_key(k) {
                lemma_merge_record_assoc(m1[k], m2p[k], v);
            } else if m1.contains_key(k) {
                lemma_record_is_merge_single(m1[k], v);
            }
        }
        assert(lhs =~= rhs);
    }
}

/// The chunked scan is as good as one sequential scan: splitting a text
/// at a line-aligned boundary, folding each part on its own and merging
/// the two mappings yields exactly the whole text's mapping.  Together
/// with the commutativity and associativity of the aggregate merge and
/// the uniqueness of the rendered report, this makes the pipeline's
/// output independent of the worker count and of merge order.
pub proof fn lemma_chunk_locality(s: Seq<u8>, c: int)
    requires
        0 <= c <= s.len(),
        c == 0 || s[c - 1] == NEWLINE,
        lines_wf(lines_of(s)),
        s.len() <= u64::MAX,
    ensures
        lines_wf(lines_of(s.take(c))),
        lines_wf(lines_of(s.skip(c))),
        model_of_lines(lines_of(s)) == merged_maps(
            model_of_lines(lines_of(s.take(c))),
            model_of_lines(lines_of(s.skip(c))),
        ),
{
    lemma_lines_split(s, c);
    let l1 = lines_of(s.take(c));
    let l2 = lines_of(s.skip(c));
    assert(lines_wf(l1)) by {
        assert(forall|i: int| 0 <= i < l1.len() ==> #[trigger] l1[i] == lines_of(s)[i]);
    }
    assert(lines_wf(l2)) by {
        assert(forall|i: int|
            0 <= i < l2.len() ==> #[trigger] l2[i] == lines_of(s)[i + l1.len()]);
    }
    lemma_lines_count(s.take(c));
    lemma_lines_count(s.skip(c));
    lemma_models_concat(l1, l2);
}

/// The mappings of a file's chunks, folded in chunk order with the
/// key-wise merge — what the merge phase computes from the workers'
/// tables.
pub open spec fn chunk_models_folded(s: Seq<u8>, cs: Seq<Chunk>) -> Map<Seq<u8>, Measurement>
    decreases cs.len(),
{
    if cs.len() == 0 {
        Map::empty()
    } else {
        merged_maps(
            chunk_models_folded(s, cs.drop_last()),
            model_of_lines(lines_of(s.subrange(cs.last().start as int, cs.last().end as int))),
        )
    }
}

/// Scanning any contiguous, line-aligned chunking of a file and folding
/// the per-chunk mappings together yields exactly the mapping of one
/// sequential scan — so the report does not depend on the worker count.
pub proof fn lemma_chunked_scan(s: Seq<u8>, cs: Seq<Chunk>)
    requires
        cs.len() > 0,
        chunks_contiguous(cs, cs.last().end as int),
        cs.last().end <= s.len(),
        forall|i: int|
            1 <= i < cs.len() ==> (#[trigger] cs[i]).start == 0 || s[cs[i].start - 1] == NEWLINE,
        lines_wf(lines_of(s.take(cs.last().end as int))),
        s.len() <= u64::MAX,
    ensures
        chunk_models_folded(s, cs) == model_of_lines(lines_of(s.take(cs.last().end as int))),
    decreases cs.len(),
{
    let e = cs.last().end as int;
    let c = cs.last().start as int;
    lemma_chunk_locality(s.take(e), c);
    assert(s.take(e).take(c) =~= s.take(c));
    assert(s.take(e).skip(c) =~= s.subrange(c, e));
    if cs.len() == 1 {
        assert(c == 0);
        assert(s.take(e).take(0) =~= Seq::<u8>::empty());
        assert(chunk_models_folded(s, cs.drop_last()) =~= Map::<Seq<u8>, Measurement>::empty());
        assert(model_of_lines(lines_of(Seq::<u8>::empty())) =~= Map::<
            Seq<u8>,
            Measurement,
        >::empty());
        assert(merged_maps(
            Map::<Seq<u8>, Measurement>::empty(),
            model_of_lines(lines_of(s.subrange(0, e))),
        ) =~= model_of_lines(lines_of(s.subrange(0, e))));
        assert(s.subrange(0, e) =~= s.take(e));
    } else {
        let pre = cs.drop_last();
        assert(forall|i: int| 0 <= i < pre.len() ==> pre[i] == cs[i]);
        assert(pre.last() == cs[cs.len() - 2]);
        assert(pre.last().end == c);
        assert(chunks_contiguous(pre, pre.last().end as int));
        assert(lines_wf(lines_of(s.take(c))));
        lemma_chunked_scan(s, pre);
    }
}

} // verus!
