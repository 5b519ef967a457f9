//! The chunk planner: line-aligned byte ranges of the input file, one
//! per worker.
//!
//! The planner never reads the whole file.  For each interior boundary
//! it is handed a small probe window read at the boundary's nominal
//! offset; the true boundary is placed just past the first line break
//! inside the probe, so no worker ever sees a partial record.  The
//! ranges are contiguous, start at zero and end exactly at the file
//! size: no byte is processed twice or skipped.

use vstd::prelude::*;
use vstd::arithmetic::div_mod::lemma_fundamental_div_mod;
use crate::errors::PipelineError;
use crate::numeral::NEWLINE;
use crate::worker::{find_newline, first_nl, lemma_first_nl_at, lemma_first_nl_none, lemma_first_nl_props};

verus! {

/// One worker's byte range, half-open.
#[derive(PartialEq, Eq, Structural, Clone, Copy, Debug)]
pub struct Chunk {
    pub start: u64,
    pub end: u64,
}

/// The ranges tile `[0, file_size)`: the first starts at zero, each
/// starts where its predecessor ends, and the last ends at the file
/// size.
pub open spec fn chunks_contiguous(cs: Seq<Chunk>, file_size: int) -> bool {
    &&& cs.len() > 0 ==> cs[0].start == 0 && cs[cs.len() - 1].end == file_size
    &&& forall|i: int| 0 <= i < cs.len() ==> (#[trigger] cs[i]).start <= cs[i].end
    &&& forall|i: int| 1 <= i < cs.len() ==> (#[trigger] cs[i]).start == cs[i - 1].end
}

/// Where an interior boundary lands: just past the first line break of
/// its probe, but never before the previous boundary.
pub open spec fn boundary_spec(prev: int, nominal: int, k: int) -> int {
    if nominal + k + 1 > prev {
        nominal + k + 1
    } else {
        prev
    }
}

/// Plans one line-aligned chunk per worker.  `probes[p]` must hold the
/// file's bytes starting at the nominal offset `(p + 1) * (file_size /
/// workers)`, as many as were available up to the window size.  Fails
/// exactly when some probe holds no line break at all, naming the
/// first such probe.
pub fn plan_chunks(file_size: u64, workers: usize, probes: &Vec<Vec<u8>>) -> (r: Result<
    Vec<Chunk>,
    PipelineError,
>)
    requires
        workers >= 1,
        probes@.len() == workers - 1,
        forall|p: int|
            0 <= p < probes@.len() ==> (p + 1) * (file_size as int / workers as int) + (
            #[trigger] probes@[p]@).len() <= file_size,
    ensures
        r is Ok <==> forall|p: int| 0 <= p < probes@.len() ==> first_nl(#[trigger] probes@[p]@) >= 0,
        r matches Ok(cs) ==> {
            &&& cs@.len() == workers
            &&& chunks_contiguous(cs@, file_size as int)
            &&& forall|p: int|
                0 <= p < workers - 1 ==> (#[trigger] cs@[p + 1]).start == boundary_spec(
                    cs@[p].start as int,
                    (p + 1) * (file_size as int / workers as int),
                    first_nl(probes@[p]@),
                )
            &&& forall|p: int|
                0 <= p < workers - 1 ==> ((#[trigger] cs@[p + 1]).start == cs@[p].start || {
                    let off = cs@[p + 1].start - (p + 1) * (file_size as int / workers as int) - 1;
                    &&& 0 <= off < probes@[p]@.len()
                    &&& probes@[p]@[off] == NEWLINE
                })
        },
        r matches Err(e) ==> exists|p: int|
            0 <= p < probes@.len() && (forall|q: int|
                0 <= q < p ==> first_nl(#[trigger] probes@[q]@) >= 0) && first_nl(
                #[trigger] probes@[p]@,
            ) < 0 && e == PipelineError::NoLineBreak(p as usize),
{
    let cs = file_size / (workers as u64);
    let ghost csz = file_size as int / workers as int;
    proof {
        lemma_fundamental_div_mod(file_size as int, workers as int);
    }
    let mut out: Vec<Chunk> = Vec::new();
    let mut prev_end: u64 = 0;
    let mut p: usize = 0;
    while p + 1 < workers
        invariant
            workers >= 1,
            0 <= p <= workers - 1,
            probes@.len() == workers - 1,
            cs == file_size as int / workers as int,
            csz == cs,
            (workers as int) * csz <= file_size,
            forall|q: int|
                0 <= q < probes@.len() ==> (q + 1) * csz + (#[trigger] probes@[q]@).len()
                    <= file_size,
            out@.len() == p,
            prev_end <= file_size,
            p == 0 ==> prev_end == 0,
            p > 0 ==> prev_end == out@[p - 1].end,
            p > 0 ==> out@[0].start == 0,
            forall|i: int| 0 <= i < p ==> (#[trigger] out@[i]).start <= out@[i].end,
            forall|i: int| 1 <= i < p ==> (#[trigger] out@[i]).start == out@[i - 1].end,
            forall|q: int| 0 <= q < p ==> first_nl(#[trigger] probes@[q]@) >= 0,
            forall|q: int|
                0 <= q < p - 1 ==> (#[trigger] out@[q + 1]).start == boundary_spec(
                    out@[q].start as int,
                    (q + 1) * csz,
                    first_nl(probes@[q]@),
                ),
            p > 0 ==> prev_end as int == boundary_spec(
                out@[p - 1].start as int,
                p as int * csz,
                first_nl(probes@[p - 1]@),
            ),
        decreases workers - p,
    {
        let probe = &probes[p];
        let k = find_newline(probe.as_slice(), 0);
        if k == probe.len() {
            proof {
                lemma_first_nl_none(probe@);
            }
            return Err(PipelineError::NoLineBreak(p));
        }
        proof {
            lemma_first_nl_at(probe@, k as int);
            // the nominal offset stays within the file
            assert((p + 1) * csz <= (workers as int) * csz) by (nonlinear_arith)
                requires
                    0 <= csz,
                    p + 1 <= workers as int,
            ;
            assert((p as int + 1) * csz + probes@[p as int]@.len() <= file_size);
        }
        let nominal = (p as u64 + 1) * cs;
        let raw = nominal + k as u64 + 1;
        let boundary = if raw > prev_end {
            raw
        } else {
            prev_end
        };
        out.push(Chunk { start: prev_end, end: boundary });
        prev_end = boundary;
        p = p + 1;
    }
    out.push(Chunk { start: prev_end, end: file_size });
    proof {
        assert(chunks_contiguous(out@, file_size as int));
        assert(forall|q: int|
            0 <= q < workers - 1 ==> (#[trigger] out@[q + 1]).start == boundary_spec(
                out@[q].start as int,
                (q + 1) * csz,
                first_nl(probes@[q]@),
            ));
        assert forall|q: int|
            0 <= q < workers - 1 implies ((#[trigger] out@[q + 1]).start == out@[q].start || {
            let off = out@[q + 1].start - (q + 1) * csz - 1;
            &&& 0 <= off < probes@[q]@.len()
            &&& probes@[q]@[off] == NEWLINE
        }) by {
            lemma_first_nl_props(probes@[q]@);
        }
    }
    Ok(out)
}

/// No byte of the file is covered twice: the planned ranges never
/// overlap, because each range ends where the next one starts and
/// boundaries never decrease.
pub proof fn lemma_chunks_disjoint(cs: Seq<Chunk>, file_size: int)
    requires
        chunks_contiguous(cs, file_size),
    ensures
        forall|i: int, j: int|
            0 <= i < j < cs.len() ==> (#[trigger] cs[i]).end <= (#[trigger] cs[j]).start,
{
    assert forall|i: int, j: int|
        0 <= i < j < cs.len() implies (#[trigger] cs[i]).end <= (#[trigger] cs[j]).start by {
        lemma_boundaries_monotone_pair(cs, i, j);
    }
}

proof fn lemma_boundaries_monotone_pair(cs: Seq<Chunk>, i: int, j: int)
    requires
        forall|i: int| 0 <= i < cs.len() ==> (#[trigger] cs[i]).start <= cs[i].end,
        forall|i: int| 1 <= i < cs.len() ==> (#[trigger] cs[i]).start == cs[i - 1].end,
        0 <= i < j < cs.len(),
    ensures
        cs[i].end <= cs[j].start,
    decreases j - i,
{
    if j > i + 1 {
        lemma_boundaries_monotone_pair(cs, i, j - 1);
    }
}

/// No byte of the file is skipped: every offset below the file size
/// lies inside some planned range.
pub proof fn lemma_chunk_covers(cs: Seq<Chunk>, file_size: int, o: int)
    requires
        chunks_contiguous(cs, file_size),
        cs.len() > 0,
        0 <= o < file_size,
    ensures
        exists|i: int| 0 <= i < cs.len() && (#[trigger] cs[i]).start <= o < cs[i].end,
    decreases cs.len(),
{
    let last = cs.len() - 1;
    if cs[last].start <= o {
        assert(cs[last].start <= o < cs[last].end);
    } else {
        let pre = cs.drop_last();
        assert(pre.len() == last);
        assert(forall|i: int| 0 <= i < pre.len() ==> pre[i] == cs[i]);
        assert(chunks_contiguous(pre, cs[last].start as int));
        lemma_chunk_covers(pre, cs[last].start as int, o);
        let i = choose|i: int| 0 <= i < pre.len() && (#[trigger] pre[i]).start <= o < pre[i].end;
        assert(cs[i].start <= o < cs[i].end);
    }
}

} // verus!
