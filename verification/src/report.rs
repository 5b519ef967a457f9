//! The report formatter: the global mapping's entries in ascending
//! byte-wise key order, each rendered as `key=min/max/mean` with one
//! fractional digit, comma-separated inside one pair of braces.
//!
//! For a given mapping the report is unique: any two sorted renderings
//! of the same mapping are byte-identical, which is what makes the
//! whole pipeline's output independent of worker count and scheduling.

use vstd::prelude::*;
use crate::keys::{bytes_lt, lemma_lex_total, lemma_lex_trans, lex_lt};
use crate::numeral::{render_tenths, round_half_up, spec_render_tenths};
use crate::stats::Measurement;
use crate::table::{distinct_keys, lemma_entries_map, stats_all_wf, Entry, Table};

verus! {

/// `{` (0x7b)
pub const LBRACE: u8 = 123;
/// `}` (0x7d)
pub const RBRACE: u8 = 125;
/// `,` (0x2c)
pub const COMMA: u8 = 44;
/// `=` (0x3d)
pub const EQUALS: u8 = 61;
/// `/` (0x2f)
pub const SLASH: u8 = 47;

/// The view of a sequence of entries: key bytes paired with stats.
pub open spec fn pairs_of(es: Seq<Entry>) -> Seq<(Seq<u8>, Measurement)> {
    es.map(|i: int, e: Entry| (e.key@, e.stats))
}

/// Strictly ascending key order.
pub open spec fn pairs_sorted(ps: Seq<(Seq<u8>, Measurement)>) -> bool {
    forall|i: int, j: int|
        0 <= i < j < ps.len() ==> lex_lt((#[trigger] ps[i]).0, (#[trigger] ps[j]).0)
}

/// The pairs spell out exactly the given mapping: every pair is an
/// entry of the mapping, and every key of the mapping appears.
pub open spec fn pairs_represent(
    ps: Seq<(Seq<u8>, Measurement)>,
    m: Map<Seq<u8>, Measurement>,
) -> bool {
    &&& forall|i: int|
        0 <= i < ps.len() ==> m.contains_key((#[trigger] ps[i]).0) && m[ps[i].0] == ps[i].1
    &&& forall|k: Seq<u8>|
        #[trigger] m.contains_key(k) ==> exists|i: int| 0 <= i < ps.len() && (#[trigger] ps[i]).0 == k
}

/// One aggregate rendered as `min/max/mean`.
pub open spec fn render_stats(s: Measurement) -> Seq<u8> {
    spec_render_tenths(s.min as int) + seq![SLASH] + spec_render_tenths(s.max as int) + seq![
        SLASH,
    ] + spec_render_tenths(round_half_up(s.sum as int, s.count as int))
}

/// One entry rendered as `key=min/max/mean`.
pub open spec fn render_pair(p: (Seq<u8>, Measurement)) -> Seq<u8> {
    p.0 + seq![EQUALS] + render_stats(p.1)
}

/// Entries joined with commas, no delimiter after the final entry.
pub open spec fn render_pairs(ps: Seq<(Seq<u8>, Measurement)>) -> Seq<u8>
    decreases ps.len(),
{
    if ps.len() == 0 {
        Seq::empty()
    } else if ps.len() == 1 {
        render_pair(ps[0])
    } else {
        render_pairs(ps.drop_last()) + seq![COMMA] + render_pair(ps.last())
    }
}

/// A whole report: the joined entries inside one pair of braces.
pub open spec fn render_report_spec(ps: Seq<(Seq<u8>, Measurement)>) -> Seq<u8> {
    seq![LBRACE] + render_pairs(ps) + seq![RBRACE]
}

/// The report relation: `out` renders the mapping's entries in strictly
/// ascending key order.
pub open spec fn report_of(m: Map<Seq<u8>, Measurement>, out: Seq<u8>) -> bool {
    exists|ps: Seq<(Seq<u8>, Measurement)>|
        #[trigger] pairs_sorted(ps) && pairs_represent(ps, m) && out == render_report_spec(ps)
}

/// Sorts a table's entries into strictly ascending key order.  The
/// result lists exactly the table's mapping.
pub fn sorted_entries(table: Table) -> (out: Vec<Entry>)
    requires
        table.wf(),
    ensures
        stats_all_wf(out@),
        distinct_keys(out@),
        pairs_sorted(pairs_of(out@)),
        pairs_represent(pairs_of(out@), table.model()),
{
    proof {
        lemma_entries_map(table.entries@);
    }
    let ghost m = table.model();
    let mut src = table.entries;
    let mut out: Vec<Entry> = Vec::new();
    while src.len() > 0
        invariant
            stats_all_wf(out@),
            stats_all_wf(src@),
            distinct_keys(out@),
            distinct_keys(src@),
            forall|i: int, j: int|
                0 <= i < out@.len() && 0 <= j < src@.len() ==> lex_lt(
                    (#[trigger] out@[i]).key@,
                    (#[trigger] src@[j]).key@,
                ),
            forall|i: int, j: int|
                0 <= i < j < out@.len() ==> lex_lt(
                    (#[trigger] out@[i]).key@,
                    (#[trigger] out@[j]).key@,
                ),
            forall|i: int|
                0 <= i < out@.len() ==> m.contains_key((#[trigger] out@[i]).key@) && m[out@[i].key@]
                    == out@[i].stats,
            forall|i: int|
                0 <= i < src@.len() ==> m.contains_key((#[trigger] src@[i]).key@) && m[src@[i].key@]
                    == src@[i].stats,
            forall|k: Seq<u8>|
                #[trigger] m.contains_key(k) ==> (exists|i: int|
                    0 <= i < out@.len() && (#[trigger] out@[i]).key@ == k) || (exists|j: int|
                    0 <= j < src@.len() && (#[trigger] src@[j]).key@ == k),
        decreases src@.len(),
    {
        // Select the entry with the least key.
        let n = src.len();
        let mut least: usize = 0;
        let mut j: usize = 1;
        while j < n
            invariant
                0 <= least < j <= n,
                n == src@.len(),
                distinct_keys(src@),
                forall|q: int|
                    0 <= q < j && q != least ==> !lex_lt(
                        (#[trigger] src@[q]).key@,
                        src@[least as int].key@,
                    ),
            decreases n - j,
        {
            if bytes_lt(src[j].key.as_slice(), src[least].key.as_slice()) {
                proof {
                    lemma_lex_total(src@[least as int].key@, src@[j as int].key@);
                    assert forall|q: int|
                        0 <= q < j && q != j implies !lex_lt(
                        (#[trigger] src@[q]).key@,
                        src@[j as int].key@,
                    ) by {
                        if q != least && lex_lt(src@[q].key@, src@[j as int].key@) {
                            lemma_lex_trans(
                                src@[q].key@,
                                src@[j as int].key@,
                                src@[least as int].key@,
                            );
                        }
                    }
                }
                least = j;
            }
            j = j + 1;
        }
        proof {
            assert forall|q: int|
                0 <= q < src@.len() && q != least implies lex_lt(
                src@[least as int].key@,
                (#[trigger] src@[q]).key@,
            ) by {
                lemma_lex_total(src@[least as int].key@, src@[q].key@);
            }
        }
        let ghost src0 = src@;
        let ghost out0 = out@;
        let e = src.remove(least);
        proof {
            assert(forall|q: int|
                0 <= q < src@.len() ==> #[trigger] src@[q] == if q < least {
                    src0[q]
                } else {
                    src0[q + 1]
                });
        }
        out.push(e);
        proof {
            assert(forall|i: int| 0 <= i < out0.len() ==> #[trigger] out@[i] == out0[i]);
            assert(out@[out@.len() - 1] == src0[least as int]);
            assert forall|i: int, j: int|
                0 <= i < j < out@.len() implies lex_lt(
                (#[trigger] out@[i]).key@,
                (#[trigger] out@[j]).key@,
            ) by {
                if j == out@.len() - 1 {
                    assert(lex_lt(out0[i].key@, src0[least as int].key@));
                }
            }
            assert forall|i: int, j: int|
                0 <= i < j < out@.len() implies (#[trigger] out@[i]).key@ != (
            #[trigger] out@[j]).key@ by {
                lemma_lex_total(out@[i].key@, out@[j].key@);
            }
            assert forall|k: Seq<u8>| #[trigger]
                m.contains_key(k) implies (exists|i: int|
                0 <= i < out@.len() && (#[trigger] out@[i]).key@ == k) || (exists|j2: int|
                0 <= j2 < src@.len() && (#[trigger] src@[j2]).key@ == k) by {
                if exists|i: int| 0 <= i < out0.len() && (#[trigger] out0[i]).key@ == k {
                    let i = choose|i: int| 0 <= i < out0.len() && (#[trigger] out0[i]).key@ == k;
                    assert(out@[i].key@ == k);
                } else {
                    let j2 = choose|j2: int|
                        0 <= j2 < src0.len() && (#[trigger] src0[j2]).key@ == k;
                    if j2 == least {
                        assert(out@[out@.len() - 1].key@ == k);
                    } else if j2 < least {
                        assert(src@[j2].key@ == k);
                    } else {
                        assert(src@[j2 - 1].key@ == k);
                    }
                }
            }
        }
    }
    proof {
        let ps = pairs_of(out@);
        assert(forall|i: int|
            0 <= i < ps.len() ==> #[trigger] ps[i] == (out@[i].key@, out@[i].stats));
        assert forall|i: int, j: int|
            0 <= i < j < ps.len() implies lex_lt((#[trigger] ps[i]).0, (#[trigger] ps[j]).0) by {
            assert(ps[i].0 == out@[i].key@ && ps[j].0 == out@[j].key@);
        }
        assert forall|k: Seq<u8>| #[trigger] m.contains_key(k) implies exists|i: int|
            0 <= i < ps.len() && (#[trigger] ps[i]).0 == k by {
            let i = choose|i: int| 0 <= i < out@.len() && (#[trigger] out@[i]).key@ == k;
            assert(ps[i].0 == k);
        }
    }
    out
}

/// Renders sorted entries as the final report text.
pub fn render_entries(es: &Vec<Entry>) -> (out: Vec<u8>)
    requires
        stats_all_wf(es@),
    ensures
        out@ == render_report_spec(pairs_of(es@)),
{
    let ghost ps = pairs_of(es@);
    let mut out: Vec<u8> = Vec::new();
    out.push(LBRACE);
    let n = es.len();
    let mut i: usize = 0;
    while i < n
        invariant
            0 <= i <= n,
            n == es@.len(),
            ps == pairs_of(es@),
            stats_all_wf(es@),
            out@ == seq![LBRACE] + render_pairs(ps.take(i as int)),
        decreases n - i,
    {
        if i > 0 {
            out.push(COMMA);
        }
        let entry = &es[i];
        out.extend_from_slice(entry.key.as_slice());
        out.push(EQUALS);
        let mut piece = render_tenths(entry.stats.min);
        out.append(&mut piece);
        out.push(SLASH);
        let mut piece = render_tenths(entry.stats.max);
        out.append(&mut piece);
        out.push(SLASH);
        let mean = entry.stats.mean_tenths();
        let mut piece = render_tenths(mean);
        out.append(&mut piece);
        proof {
            assert(ps.take(i as int + 1).drop_last() =~= ps.take(i as int));
            assert(ps.take(i as int + 1).last() == ps[i as int]);
            assert(out@ =~= seq![LBRACE] + render_pairs(ps.take(i as int + 1)));
        }
        i = i + 1;
    }
    out.push(RBRACE);
    proof {
        assert(ps.take(n as int) =~= ps);
        assert(out@ =~= render_report_spec(ps));
    }
    out
}

/// Sorts the global mapping and renders the report: `{` followed by
/// the comma-separated entries in ascending key order, then `}`.
pub fn render_report(table: Table) -> (out: Vec<u8>)
    requires
        table.wf(),
    ensures
        report_of(table.model(), out@),
{
    let ghost m = table.model();
    let es = sorted_entries(table);
    let out = render_entries(&es);
    proof {
        let ps = pairs_of(es@);
        assert(pairs_sorted(ps) && pairs_represent(ps, m) && out@ == render_report_spec(ps));
    }
    out
}

/// The report of a mapping is unique: however the entries were
/// gathered, sorted renderings of equal mappings are byte-identical.
/// This is what makes the pipeline's output deterministic for a fixed
/// input, whatever the worker count or scheduling order.
pub proof fn lemma_report_unique(m: Map<Seq<u8>, Measurement>, o1: Seq<u8>, o2: Seq<u8>)
    requires
        report_of(m, o1),
        report_of(m, o2),
    ensures
        o1 == o2,
{
    let ps1 = choose|ps: Seq<(Seq<u8>, Measurement)>|
        #[trigger] pairs_sorted(ps) && pairs_represent(ps, m) && o1 == render_report_spec(ps);
    let ps2 = choose|ps: Seq<(Seq<u8>, Measurement)>|
        #[trigger] pairs_sorted(ps) && pairs_represent(ps, m) && o2 == render_report_spec(ps);
    lemma_sorted_pairs_unique(ps1, ps2, m);
}

/// Two strictly sorted spellings of the same mapping are equal.
proof fn lemma_sorted_pairs_unique(
    ps1: Seq<(Seq<u8>, Measurement)>,
    ps2: Seq<(Seq<u8>, Measurement)>,
    m: Map<Seq<u8>, Measurement>,
)
    requires
        pairs_sorted(ps1),
        pairs_sorted(ps2),
        pairs_represent(ps1, m),
        pairs_represent(ps2, m),
    ensures
        ps1 == ps2,
    decreases ps1.len(),
{
    if ps1.len() == 0 && ps2.len() == 0 {
        assert(ps1 =~= ps2);
    } else if ps1.len() == 0 {
        assert(m.contains_key(ps2[0].0));
        let i = choose|i: int| 0 <= i < ps1.len() && (#[trigger] ps1[i]).0 == ps2[0].0;
        assert(false);
    } else if ps2.len() == 0 {
        assert(m.contains_key(ps1[0].0));
        let i = choose|i: int| 0 <= i < ps2.len() && (#[trigger] ps2[i]).0 == ps1[0].0;
        assert(false);
    } else {
        let k1 = ps1[0].0;
        let k2 = ps2[0].0;
        assert(m.contains_key(k1));
        assert(m.contains_key(k2));
        let j = choose|j: int| 0 <= j < ps2.len() && (#[trigger] ps2[j]).0 == k1;
        let i = choose|i: int| 0 <= i < ps1.len() && (#[trigger] ps1[i]).0 == k2;
        if j > 0 {
            // ps2's head is strictly below k1, yet k1 leads ps1: the
            // head key of ps2 would have to sit before ps1's head too.
            assert(lex_lt(k2, k1));
            lemma_lex_total(k1, k2);
            if i == 0 {
                assert(false);
            } else {
                assert(lex_lt(k1, ps1[i].0));
                lemma_lex_trans(k1, k2, k1);
                assert(false);
            }
        }
        assert(k1 == k2);
        assert(ps1[0].1 == m[k1] && ps2[0].1 == m[k1]);
        let t1 = ps1.skip(1);
        let t2 = ps2.skip(1);
        let m2 = m.remove(k1);
        assert forall|p: int|
            0 <= p < t1.len() implies m2.contains_key((#[trigger] t1[p]).0) && m2[t1[p].0]
            == t1[p].1 by {
            assert(t1[p] == ps1[p + 1]);
            assert(lex_lt(k1, ps1[p + 1].0));
            lemma_lex_total(k1, ps1[p + 1].0);
        }
        assert forall|p: int|
            0 <= p < t2.len() implies m2.contains_key((#[trigger] t2[p]).0) && m2[t2[p].0]
            == t2[p].1 by {
            assert(t2[p] == ps2[p + 1]);
            assert(lex_lt(k1, ps2[p + 1].0));
            lemma_lex_total(k1, ps2[p + 1].0);
        }
        assert forall|k: Seq<u8>| #[trigger] m2.contains_key(k) implies exists|p: int|
            0 <= p < t1.len() && (#[trigger] t1[p]).0 == k by {
            assert(m.contains_key(k));
            let q = choose|q: int| 0 <= q < ps1.len() && (#[trigger] ps1[q]).0 == k;
            assert(q != 0);
            assert(t1[q - 1] == ps1[q]);
        }
        assert forall|k: Seq<u8>| #[trigger] m2.contains_key(k) implies exists|p: int|
            0 <= p < t2.len() && (#[trigger] t2[p]).0 == k by {
            assert(m.contains_key(k));
            let q = choose|q: int| 0 <= q < ps2.len() && (#[trigger] ps2[q]).0 == k;
            assert(q != 0);
            assert(t2[q - 1] == ps2[q]);
        }
        assert(pairs_sorted(t1)) by {
            assert(forall|p: int, q: int|
                0 <= p < q < t1.len() ==> (#[trigger] t1[p]).0 == ps1[p + 1].0 && (
                #[trigger] t1[q]).0 == ps1[q + 1].0);
        }
        assert(pairs_sorted(t2)) by {
            assert(forall|p: int, q: int|
                0 <= p < q < t2.len() ==> (#[trigger] t2[p]).0 == ps2[p + 1].0 && (
                #[trigger] t2[q]).0 == ps2[q + 1].0);
        }
        lemma_sorted_pairs_unique(t1, t2, m2);
        assert(ps1 =~= ps2) by {
            assert(forall|p: int| 1 <= p < ps1.len() ==> #[trigger] ps1[p] == t1[p - 1]);
            assert(forall|p: int| 1 <= p < ps2.len() ==> #[trigger] ps2[p] == t2[p - 1]);
        }
    }
}

} // verus!
