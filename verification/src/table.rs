//! The key-to-aggregate mapping: one per worker during the local pass,
//! then one global mapping after the merge.
//!
//! A table is a vector of entries with pairwise distinct keys.  Its
//! meaning is the finite map from key to aggregate that the entries
//! spell out, and every operation is specified against that map.

use vstd::prelude::*;
use crate::errors::PipelineError;
use crate::keys::bytes_eq;
use crate::numeral::in_value_range;
use crate::stats::{first_stats, Measurement};

verus! {

/// One key and its running aggregate.
#[derive(Debug)]
pub struct Entry {
    pub key: Vec<u8>,
    pub stats: Measurement,
}

/// A mapping from key to aggregate.
#[derive(Debug)]
pub struct Table {
    pub entries: Vec<Entry>,
}

/// The finite map spelled out by a sequence of entries; a later entry
/// with the same key would win, though well-formed tables have none.
pub open spec fn entries_map(es: Seq<Entry>) -> Map<Seq<u8>, Measurement>
    decreases es.len(),
{
    if es.len() == 0 {
        Map::empty()
    } else {
        entries_map(es.drop_last()).insert(es.last().key@, es.last().stats)
    }
}

pub open spec fn distinct_keys(es: Seq<Entry>) -> bool {
    forall|i: int, j: int|
        0 <= i < j < es.len() ==> #[trigger] es[i].key@ != #[trigger] es[j].key@
}

pub open spec fn stats_all_wf(es: Seq<Entry>) -> bool {
    forall|i: int| 0 <= i < es.len() ==> (#[trigger] es[i].stats).wf()
}

/// One record folded into a mapping: the key's aggregate records the
/// value, or a fresh aggregate is created from it.
pub open spec fn ingest(m: Map<Seq<u8>, Measurement>, k: Seq<u8>, v: i64) -> Map<
    Seq<u8>,
    Measurement,
> {
    if m.contains_key(k) {
        m.insert(k, m[k].recorded(v))
    } else {
        m.insert(k, first_stats(v))
    }
}

/// Two mappings combined key by key: aggregates of a shared key are
/// merged, a key present on one side alone keeps its aggregate.
pub open spec fn merged_maps(
    m1: Map<Seq<u8>, Measurement>,
    m2: Map<Seq<u8>, Measurement>,
) -> Map<Seq<u8>, Measurement> {
    Map::new(
        |k: Seq<u8>| m1.contains_key(k) || m2.contains_key(k),
        |k: Seq<u8>|
            if m1.contains_key(k) && m2.contains_key(k) {
                m1[k].merged(m2[k])
            } else if m2.contains_key(k) {
                m2[k]
            } else {
                m1[k]
            },
    )
}

/// Whether combining two mappings stays within the record counter.
pub open spec fn merge_fits(m1: Map<Seq<u8>, Measurement>, m2: Map<Seq<u8>, Measurement>) -> bool {
    forall|k: Seq<u8>|
        #[trigger] m2.contains_key(k) ==> m1.contains_key(k) ==> m1[k].count + m2[k].count
            <= u64::MAX
}

/// How a sequence of entries and the map it spells out correspond.
pub proof fn lemma_entries_map(es: Seq<Entry>)
    ensures
        forall|i: int|
            0 <= i < es.len() ==> entries_map(es).contains_key(#[trigger] es[i].key@),
        forall|k: Seq<u8>|
            #[trigger] entries_map(es).contains_key(k) ==> exists|i: int|
                0 <= i < es.len() && #[trigger] es[i].key@ == k,
        distinct_keys(es) ==> forall|i: int|
            0 <= i < es.len() ==> entries_map(es)[#[trigger] es[i].key@] == es[i].stats,
    decreases es.len(),
{
    if es.len() > 0 {
        let pre = es.drop_last();
        lemma_entries_map(pre);
        assert(forall|i: int| 0 <= i < pre.len() ==> pre[i] == es[i]);
        assert forall|i: int|
            0 <= i < es.len() implies entries_map(es).contains_key(#[trigger] es[i].key@) by {
            if i < es.len() - 1 {
                assert(entries_map(pre).contains_key(pre[i].key@));
            }
        }
        assert forall|k: Seq<u8>| #[trigger]
            entries_map(es).contains_key(k) implies exists|i: int|
            0 <= i < es.len() && #[trigger] es[i].key@ == k by {
            if k == es.last().key@ {
                assert(es[es.len() - 1].key@ == k);
            } else {
                assert(entries_map(pre).contains_key(k));
                let i = choose|i: int| 0 <= i < pre.len() && #[trigger] pre[i].key@ == k;
                assert(es[i].key@ == k);
            }
        }
        if distinct_keys(es) {
            assert(distinct_keys(pre));
            assert forall|i: int|
                0 <= i < es.len() implies entries_map(es)[#[trigger] es[i].key@]
                == es[i].stats by {
                if i < es.len() - 1 {
                    assert(es[i].key@ != es.last().key@);
                    assert(entries_map(pre)[pre[i].key@] == pre[i].stats);
                }
            }
        }
    }
}

/// Replacing the entry of a key updates exactly that key in the map.
proof fn lemma_entries_map_update(es: Seq<Entry>, i: int, e: Entry)
    requires
        0 <= i < es.len(),
        distinct_keys(es),
        es[i].key@ == e.key@,
    ensures
        entries_map(es.update(i, e)) == entries_map(es).insert(e.key@, e.stats),
        distinct_keys(es.update(i, e)),
    decreases es.len(),
{
    let up = es.update(i, e);
    assert(forall|p: int, q: int|
        0 <= p < q < up.len() ==> #[trigger] up[p].key@ != #[trigger] up[q].key@);
    if i == es.len() - 1 {
        assert(up.drop_last() =~= es.drop_last());
        assert(up.last() == e);
        assert(entries_map(es).insert(e.key@, e.stats) =~= entries_map(es.drop_last()).insert(
            e.key@,
            e.stats,
        ));
    } else {
        let pre = es.drop_last();
        assert(up.drop_last() =~= pre.update(i, e));
        assert(pre[i].key@ == e.key@);
        assert(distinct_keys(pre));
        lemma_entries_map_update(pre, i, e);
        assert(up.last() == es.last());
        assert(es[i].key@ != es.last().key@);
        assert(entries_map(pre).insert(e.key@, e.stats).insert(es.last().key@, es.last().stats)
            =~= entries_map(pre).insert(es.last().key@, es.last().stats).insert(e.key@, e.stats));
    }
}

/// Appending an entry with a fresh key inserts exactly that key.
proof fn lemma_entries_map_push(es: Seq<Entry>, e: Entry)
    ensures
        entries_map(es.push(e)) == entries_map(es).insert(e.key@, e.stats),
{
    assert(es.push(e).drop_last() =~= es);
    assert(es.push(e).last() == e);
}

impl Table {
    /// The finite map this table spells out.
    pub open spec fn model(self) -> Map<Seq<u8>, Measurement> {
        entries_map(self.entries@)
    }

    /// Keys are pairwise distinct and every aggregate is well formed.
    pub open spec fn wf(self) -> bool {
        distinct_keys(self.entries@) && stats_all_wf(self.entries@)
    }

    /// An empty mapping.
    pub fn new() -> (r: Table)
        ensures
            r.wf(),
            r.model() == Map::<Seq<u8>, Measurement>::empty(),
            r.entries@.len() == 0,
    {
        Table { entries: Vec::new() }
    }

    /// Index of the entry holding a key, if any.
    fn find_key(&self, key: &[u8]) -> (r: Option<usize>)
        ensures
            r matches Some(i) ==> i < self.entries@.len() && self.entries@[i as int].key@ == key@,
            r is None ==> forall|i: int|
                0 <= i < self.entries@.len() ==> #[trigger] self.entries@[i].key@ != key@,
    {
        let n = self.entries.len();
        let mut i: usize = 0;
        while i < n
            invariant
                0 <= i <= n,
                n == self.entries@.len(),
                forall|j: int| 0 <= j < i ==> #[trigger] self.entries@[j].key@ != key@,
            decreases n - i,
        {
            if bytes_eq(self.entries[i].key.as_slice(), key) {
                return Some(i);
            }
            i = i + 1;
        }
        None
    }

    /// Number of distinct keys in the table.
    pub fn len(&self) -> (r: usize)
        ensures
            r == self.entries@.len(),
    {
        self.entries.len()
    }

    /// The aggregate recorded for a key, if any.
    pub fn lookup(&self, key: &[u8]) -> (r: Option<Measurement>)
        requires
            self.wf(),
        ensures
            r is Some <==> self.model().contains_key(key@),
            r matches Some(m) ==> m == self.model()[key@],
    {
        proof {
            lemma_entries_map(self.entries@);
        }
        match self.find_key(key) {
            Some(i) => Some(self.entries[i].stats),
            None => None,
        }
    }

    /// Folds one record into the table: the key's aggregate records the
    /// value, or the key is created with a fresh aggregate.
    pub fn record_value(&mut self, key: Vec<u8>, value: i64)
        requires
            old(self).wf(),
            in_value_range(value as int),
            old(self).model().contains_key(key@) ==> old(self).model()[key@].count < u64::MAX,
        ensures
            final(self).wf(),
            final(self).model() == ingest(old(self).model(), key@, value),
    {
        proof {
            lemma_entries_map(self.entries@);
        }
        let ghost es0 = self.entries@;
        match self.find_key(key.as_slice()) {
            Some(i) => {
                let ent = self.entries.remove(i);
                let mut st = ent.stats;
                st.record(value);
                let ent2 = Entry { key: ent.key, stats: st };
                self.entries.insert(i, ent2);
                proof {
                    assert(self.entries@ =~= es0.update(i as int, self.entries@[i as int]));
                    lemma_entries_map_update(es0, i as int, self.entries@[i as int]);
                }
            },
            None => {
                let st = Measurement::from(value);
                self.entries.push(Entry { key, stats: st });
                proof {
                    lemma_entries_map_push(es0, self.entries@.last());
                    if entries_map(es0).contains_key(self.entries@.last().key@) {
                        let i = choose|i: int|
                            0 <= i < es0.len() && #[trigger] es0[i].key@
                                == self.entries@.last().key@;
                        assert(false);
                    }
                    assert(forall|p: int|
                        0 <= p < es0.len() ==> #[trigger] self.entries@[p] == es0[p]);
                }
            },
        }
    }

    /// Folds another table into this one, key by key, using the
    /// aggregate merge.  Fails, leaving this table unchanged, exactly
    /// when some shared key's record counters cannot be added within
    /// the machine limit.
    pub fn merge_from(&mut self, other: Table) -> (r: Result<(), PipelineError>)
        requires
            old(self).wf(),
            other.wf(),
        ensures
            r is Ok <==> merge_fits(old(self).model(), other.model()),
            r is Ok ==> final(self).wf() && final(self).model() == merged_maps(
                old(self).model(),
                other.model(),
            ),
            r is Err ==> *final(self) == *old(self) && r == Err::<(), PipelineError>(
                PipelineError::StatOverflow,
            ),
    {
        proof {
            lemma_entries_map(self.entries@);
            lemma_entries_map(other.entries@);
        }
        let ghost m1 = old(self).model();
        let ghost all = other.entries@;
        // First pass: check that every shared key's counters fit, so
        // that a failure leaves this table untouched.
        let n = other.entries.len();
        let mut i: usize = 0;
        while i < n
            invariant
                0 <= i <= n,
                n == all.len(),
                *self == *old(self),
                self.wf(),
                m1 == self.model(),
                all == other.entries@,
                distinct_keys(all),
                forall|j: int|
                    0 <= j < i ==> m1.contains_key(#[trigger] all[j].key@) ==> m1[all[j].key@].count
                        + all[j].stats.count <= u64::MAX,
            decreases n - i,
        {
            let oe = &other.entries[i];
            match self.find_key(oe.key.as_slice()) {
                Some(j) => {
                    let have = self.entries[j].stats.count;
                    if oe.stats.count > u64::MAX - have {
                        proof {
                            lemma_entries_map(self.entries@);
                            lemma_entries_map(all);
                            assert(m1.contains_key(all[i as int].key@));
                            assert(m1[all[i as int].key@] == self.entries@[j as int].stats);
                            assert(other.model().contains_key(all[i as int].key@));
                            assert(other.model()[all[i as int].key@] == all[i as int].stats);
                            assert(!merge_fits(m1, other.model()));
                        }
                        return Err(PipelineError::StatOverflow);
                    }
                    proof {
                        lemma_entries_map(self.entries@);
                        assert(m1[all[i as int].key@] == self.entries@[j as int].stats);
                    }
                },
                None => {
                    proof {
                        lemma_entries_map(self.entries@);
                        if m1.contains_key(all[i as int].key@) {
                            let p = choose|p: int|
                                0 <= p < self.entries@.len() && #[trigger] self.entries@[p].key@
                                    == all[i as int].key@;
                            assert(false);
                        }
                    }
                },
            }
            i = i + 1;
        }
        proof {
            assert forall|k: Seq<u8>| #[trigger]
                other.model().contains_key(k) && m1.contains_key(k) implies m1[k].count
                + other.model()[k].count <= u64::MAX by {
                let j = choose|j: int| 0 <= j < all.len() && #[trigger] all[j].key@ == k;
                assert(other.model()[k] == all[j].stats);
            }
        }
        // Second pass: fold the other table's entries in, front to back.
        let mut rest = other.entries;
        let ghost mut t: int = 0;
        while rest.len() > 0
            invariant
                0 <= t <= all.len(),
                rest@ =~= all.skip(t),
                distinct_keys(all),
                stats_all_wf(all),
                self.wf(),
                merge_fits(m1, entries_map(all)),
                self.model() == merged_maps(m1, entries_map(all.take(t))),
                forall|j: int|
                    t <= j < all.len() ==> m1.contains_key(#[trigger] all[j].key@) ==> (
                    self.model().contains_key(all[j].key@) && self.model()[all[j].key@]
                        == m1[all[j].key@]),
            decreases rest@.len(),
        {
            let e = rest.remove(0);
            proof {
                assert(e == all[t]);
                assert(rest@ =~= all.skip(t + 1));
                lemma_entries_map(self.entries@);
                lemma_entries_map(all);
                assert(entries_map(all).contains_key(all[t].key@));
                assert(entries_map(all)[all[t].key@] == all[t].stats);
                assert(forall|p: int|
                    0 <= p < t ==> #[trigger] all.take(t)[p].key@ != all[t].key@);
                lemma_entries_map(all.take(t));
                lemma_merged_step(m1, all.take(t), all[t]);
                assert(all.take(t).push(all[t]) =~= all.take(t + 1));
            }
            let ghost es0 = self.entries@;
            let ghost prev = self.model();
            match self.find_key(e.key.as_slice()) {
                Some(j) => {
                    let ent = self.entries.remove(j);
                    let mut st = ent.stats;
                    proof {
                        assert(prev.contains_key(e.key@));
                        assert(st == prev[e.key@]);
                        assert(m1.contains_key(e.key@) ==> st == m1[e.key@]);
                        if !m1.contains_key(e.key@) {
                            // every key of the current model is in m1 or in the processed prefix
                            assert(prev.contains_key(e.key@));
                            let p = choose|p: int|
                                0 <= p < all.take(t).len() && #[trigger] all.take(t)[p].key@
                                    == e.key@;
                            assert(all[p].key@ == all[t].key@);
                            assert(false);
                        }
                    }
                    st.aggregate(&e.stats);
                    let ent2 = Entry { key: ent.key, stats: st };
                    self.entries.insert(j, ent2);
                    proof {
                        assert(self.entries@ =~= es0.update(j as int, self.entries@[j as int]));
                        lemma_entries_map_update(es0, j as int, self.entries@[j as int]);
                    }
                },
                None => {
                    proof {
                        if prev.contains_key(e.key@) {
                            let p = choose|p: int|
                                0 <= p < es0.len() && #[trigger] es0[p].key@ == e.key@;
                            assert(false);
                        }
                        assert(!m1.contains_key(e.key@));
                    }
                    self.entries.push(e);
                    proof {
                        lemma_entries_map_push(es0, self.entries@.last());
                        assert(forall|p: int|
                            0 <= p < es0.len() ==> #[trigger] self.entries@[p] == es0[p]);
                    }
                },
            }
            proof {
                t = t + 1;
                assert forall|j: int|
                    t <= j < all.len() && m1.contains_key(#[trigger] all[j].key@) implies (
                    self.model().contains_key(all[j].key@) && self.model()[all[j].key@]
                        == m1[all[j].key@]) by {
                    assert(all[j].key@ != all[t - 1].key@);
                }
            }
        }
        proof {
            assert(all.take(all.len() as int) =~= all);
        }
        Ok(())
    }
}

/// Folding one more entry into a combination extends it at exactly that
/// entry's key.
proof fn lemma_merged_step(m1: Map<Seq<u8>, Measurement>, ps: Seq<Entry>, e: Entry)
    requires
        forall|p: int| 0 <= p < ps.len() ==> #[trigger] ps[p].key@ != e.key@,
    ensures
        merged_maps(m1, entries_map(ps.push(e))) == merged_maps(m1, entries_map(ps)).insert(
            e.key@,
            if m1.contains_key(e.key@) {
                m1[e.key@].merged(e.stats)
            } else {
                e.stats
            },
        ),
{
    lemma_entries_map_push(ps, e);
    lemma_entries_map(ps);
    assert(!entries_map(ps).contains_key(e.key@)) by {
        if entries_map(ps).contains_key(e.key@) {
            let p = choose|p: int| 0 <= p < ps.len() && #[trigger] ps[p].key@ == e.key@;
            assert(false);
        }
    }
    assert(merged_maps(m1, entries_map(ps).insert(e.key@, e.stats)) =~= merged_maps(
        m1,
        entries_map(ps),
    ).insert(
        e.key@,
        if m1.contains_key(e.key@) {
            m1[e.key@].merged(e.stats)
        } else {
            e.stats
        },
    ));
}

} // verus!
