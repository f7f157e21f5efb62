//! The aggregator: folds batches of traces into two frequency tables.
//!
//! `all_counts` counts every trace; `gil_counts` counts only the traces
//! sampled while the global interpreter lock was held. Both tables key on
//! the trace's folded byte key and only ever grow.

use vstd::prelude::*;

use crate::encode::{fold_trace, key_of};
use crate::serialize::{lines_bytes, table_lines};
use crate::table::{bump_key, copy_bytes, CountTable};
use crate::trace::StackTrace;

verus! {

/// The folded keys of a trace batch, one per trace, in batch order.
pub open spec fn trace_keys(traces: Seq<StackTrace>, show_linenumbers: bool) -> Seq<Seq<u8>>
    decreases traces.len(),
{
    if traces.len() == 0 {
        Seq::<Seq<u8>>::empty()
    } else {
        trace_keys(traces.drop_last(), show_linenumbers).push(
            key_of(traces.last().frames@, show_linenumbers),
        )
    }
}

/// The folded keys of the traces that held the global interpreter lock, in
/// batch order.
pub open spec fn gil_keys(traces: Seq<StackTrace>, show_linenumbers: bool) -> Seq<Seq<u8>>
    decreases traces.len(),
{
    if traces.len() == 0 {
        Seq::<Seq<u8>>::empty()
    } else {
        gil_keys(traces.drop_last(), show_linenumbers) + (if traces.last().owns_gil {
            seq![key_of(traces.last().frames@, show_linenumbers)]
        } else {
            Seq::<Seq<u8>>::empty()
        })
    }
}

/// `m` after counting each key of `keys` once, in order.
pub open spec fn ingest(m: Map<Seq<u8>, nat>, keys: Seq<Seq<u8>>) -> Map<Seq<u8>, nat>
    decreases keys.len(),
{
    if keys.len() == 0 {
        m
    } else {
        bump_key(ingest(m, keys.drop_last()), keys.last())
    }
}

/// Counting keys that all equal `k` raises `k`'s count by their number and
/// touches no other key; counting no keys leaves the map unchanged, so `k`
/// is present afterwards exactly when it was present before or at least one
/// key was counted.
pub proof fn lemma_counting(m: Map<Seq<u8>, nat>, keys: Seq<Seq<u8>>, k: Seq<u8>)
    requires
        forall|i: int| 0 <= i < keys.len() ==> keys[i] == k,
    ensures
        keys.len() == 0 ==> ingest(m, keys) == m,
        keys.len() > 0 ==> ingest(m, keys) == m.insert(
            k,
            (if m.contains_key(k) {
                m[k]
            } else {
                0
            }) + keys.len(),
        ),
    decreases keys.len(),
{
    let base: nat = if m.contains_key(k) {
        m[k]
    } else {
        0
    };
    if keys.len() > 0 {
        lemma_counting(m, keys.drop_last(), k);
        assert(keys.last() == k);
        if keys.len() > 1 {
            assert(m.insert(k, (base + keys.len() - 1) as nat).insert(k, base + keys.len())
                =~= m.insert(k, base + keys.len()));
        }
    }
}

/// Ingestion distributes over concatenation of key batches.
pub proof fn lemma_ingest_concat(m: Map<Seq<u8>, nat>, a: Seq<Seq<u8>>, b: Seq<Seq<u8>>)
    ensures
        ingest(m, a + b) == ingest(ingest(m, a), b),
    decreases b.len(),
{
    if b.len() == 0 {
        assert(a + b =~= a);
    } else {
        lemma_ingest_concat(m, a, b.drop_last());
        assert((a + b).drop_last() =~= a + b.drop_last());
        assert((a + b).last() == b.last());
    }
}

/// The key sequences of a concatenated trace batch are the concatenated key
/// sequences, both over all traces and over the lock-holding ones.
pub proof fn lemma_trace_keys_concat(a: Seq<StackTrace>, b: Seq<StackTrace>, show_linenumbers: bool)
    ensures
        trace_keys(a + b, show_linenumbers) == trace_keys(a, show_linenumbers) + trace_keys(
            b,
            show_linenumbers,
        ),
        gil_keys(a + b, show_linenumbers) == gil_keys(a, show_linenumbers) + gil_keys(
            b,
            show_linenumbers,
        ),
    decreases b.len(),
{
    if b.len() == 0 {
        assert(a + b =~= a);
        assert(trace_keys(a, show_linenumbers) + trace_keys(b, show_linenumbers) =~= trace_keys(
            a,
            show_linenumbers,
        ));
        assert(gil_keys(a, show_linenumbers) + gil_keys(b, show_linenumbers) =~= gil_keys(
            a,
            show_linenumbers,
        ));
    } else {
        lemma_trace_keys_concat(a, b.drop_last(), show_linenumbers);
        assert((a + b).drop_last() =~= a + b.drop_last());
        assert((a + b).last() == b.last());
        let k = key_of(b.last().frames@, show_linenumbers);
        assert((trace_keys(a, show_linenumbers) + trace_keys(b.drop_last(), show_linenumbers)).push(
            k,
        ) =~= trace_keys(a, show_linenumbers) + trace_keys(b.drop_last(), show_linenumbers).push(
            k,
        ));
        let tail = if b.last().owns_gil {
            seq![k]
        } else {
            Seq::<Seq<u8>>::empty()
        };
        assert((gil_keys(a, show_linenumbers) + gil_keys(b.drop_last(), show_linenumbers)) + tail
            =~= gil_keys(a, show_linenumbers) + (gil_keys(b.drop_last(), show_linenumbers) + tail));
    }
}

/// Splitting one batch of traces into two sub-batches and ingesting them in
/// turn yields the same tables as ingesting the whole batch at once.
pub proof fn lemma_batch_split(
    all0: Map<Seq<u8>, nat>,
    gil0: Map<Seq<u8>, nat>,
    a: Seq<StackTrace>,
    b: Seq<StackTrace>,
    show_linenumbers: bool,
)
    ensures
        ingest(ingest(all0, trace_keys(a, show_linenumbers)), trace_keys(b, show_linenumbers))
            == ingest(all0, trace_keys(a + b, show_linenumbers)),
        ingest(ingest(gil0, gil_keys(a, show_linenumbers)), gil_keys(b, show_linenumbers))
            == ingest(gil0, gil_keys(a + b, show_linenumbers)),
{
    lemma_trace_keys_concat(a, b, show_linenumbers);
    lemma_ingest_concat(all0, trace_keys(a, show_linenumbers), trace_keys(b, show_linenumbers));
    lemma_ingest_concat(gil0, gil_keys(a, show_linenumbers), gil_keys(b, show_linenumbers));
}

/// In a batch whose traces all fold to one key, every entry of both key
/// sequences is that key, and the lock-holding sequence is no longer than
/// the batch.
pub proof fn lemma_uniform_keys(traces: Seq<StackTrace>, k: Seq<u8>, show_linenumbers: bool)
    requires
        forall|i: int| 0 <= i < traces.len() ==> key_of(
            (#[trigger] traces[i]).frames@,
            show_linenumbers,
        ) == k,
    ensures
        trace_keys(traces, show_linenumbers).len() == traces.len(),
        forall|i: int| 0 <= i < trace_keys(traces, show_linenumbers).len() ==> trace_keys(
            traces,
            show_linenumbers,
        )[i] == k,
        gil_keys(traces, show_linenumbers).len() <= traces.len(),
        forall|i: int| 0 <= i < gil_keys(traces, show_linenumbers).len() ==> gil_keys(
            traces,
            show_linenumbers,
        )[i] == k,
    decreases traces.len(),
{
    if traces.len() > 0 {
        assert(forall|i: int| 0 <= i < traces.drop_last().len() ==> (#[trigger] traces.drop_last()[i])
            == traces[i]);
        lemma_uniform_keys(traces.drop_last(), k, show_linenumbers);
        assert(traces.last() == traces[traces.len() - 1]);
    }
}

/// Counting correctness over a whole batch: when every trace folds to one
/// key `k`, ingesting the batch raises `k`'s count in the all-samples table
/// by the batch size and in the lock-held table by the number of
/// lock-holding traces, and touches no other key; `k` enters the lock-held
/// table only when that number is positive.
pub proof fn lemma_counting_batch(
    all0: Map<Seq<u8>, nat>,
    gil0: Map<Seq<u8>, nat>,
    traces: Seq<StackTrace>,
    k: Seq<u8>,
    show_linenumbers: bool,
)
    requires
        forall|i: int| 0 <= i < traces.len() ==> key_of(
            (#[trigger] traces[i]).frames@,
            show_linenumbers,
        ) == k,
    ensures
        traces.len() == 0 ==> ingest(all0, trace_keys(traces, show_linenumbers)) == all0,
        traces.len() > 0 ==> ingest(all0, trace_keys(traces, show_linenumbers)) == all0.insert(
            k,
            (if all0.contains_key(k) {
                all0[k]
            } else {
                0
            }) + traces.len(),
        ),
        gil_keys(traces, show_linenumbers).len() == 0 ==> ingest(
            gil0,
            gil_keys(traces, show_linenumbers),
        ) == gil0,
        gil_keys(traces, show_linenumbers).len() > 0 ==> ingest(
            gil0,
            gil_keys(traces, show_linenumbers),
        ) == gil0.insert(
            k,
            (if gil0.contains_key(k) {
                gil0[k]
            } else {
                0
            }) + gil_keys(traces, show_linenumbers).len(),
        ),
{
    lemma_uniform_keys(traces, k, show_linenumbers);
    lemma_counting(all0, trace_keys(traces, show_linenumbers), k);
    lemma_counting(gil0, gil_keys(traces, show_linenumbers), k);
}

/// The aggregator: two frequency tables over folded keys, and the
/// line-number display choice fixed at construction.
pub struct Flamegraph {
    pub all_counts: CountTable,
    pub gil_counts: CountTable,
    pub show_linenumbers: bool,
}

impl Flamegraph {
    /// Well-formed: both tables store each key once.
    pub open spec fn wf(self) -> bool {
        self.all_counts.wf() && self.gil_counts.wf()
    }

    /// A fresh aggregator with empty tables.
    pub fn new(show_linenumbers: bool) -> (fg: Flamegraph)
        ensures
            fg.wf(),
            fg.all_counts@ == Map::<Seq<u8>, nat>::empty(),
            fg.gil_counts@ == Map::<Seq<u8>, nat>::empty(),
            fg.all_counts.entries_seq() == Seq::<(Seq<u8>, nat)>::empty(),
            fg.gil_counts.entries_seq() == Seq::<(Seq<u8>, nat)>::empty(),
            fg.show_linenumbers == show_linenumbers,
    {
        Flamegraph { all_counts: CountTable::new(), gil_counts: CountTable::new(), show_linenumbers }
    }

    /// Folds each trace of the batch into its key and counts it: every trace
    /// raises the key's count in `all_counts`, and a trace that held the
    /// global interpreter lock raises it in `gil_counts` too.
    pub fn increment(&mut self, traces: &[StackTrace])
        requires
            old(self).wf(),
            forall|k: Seq<u8>| old(self).all_counts@.contains_key(k)
                ==> #[trigger] old(self).all_counts@[k] + traces@.len() <= usize::MAX,
            forall|k: Seq<u8>| old(self).gil_counts@.contains_key(k)
                ==> #[trigger] old(self).gil_counts@[k] + traces@.len() <= usize::MAX,
        ensures
            final(self).wf(),
            final(self).show_linenumbers == old(self).show_linenumbers,
            final(self).all_counts@ == ingest(
                old(self).all_counts@,
                trace_keys(traces@, old(self).show_linenumbers),
            ),
            final(self).gil_counts@ == ingest(
                old(self).gil_counts@,
                gil_keys(traces@, old(self).show_linenumbers),
            ),
    {
        let ghost all0 = old(self).all_counts@;
        let ghost gil0 = old(self).gil_counts@;
        let ghost show = old(self).show_linenumbers;
        let n = traces.len();
        let mut i: usize = 0;
        proof {
            assert(traces@.take(0) =~= Seq::<StackTrace>::empty());
        }
        while i < n
            invariant
                i <= n,
                n == traces@.len(),
                self.wf(),
                self.show_linenumbers == show,
                self.all_counts@ == ingest(all0, trace_keys(traces@.take(i as int), show)),
                self.gil_counts@ == ingest(gil0, gil_keys(traces@.take(i as int), show)),
                forall|k: Seq<u8>| self.all_counts@.contains_key(k)
                    ==> #[trigger] self.all_counts@[k] + (n - i) <= usize::MAX,
                forall|k: Seq<u8>| self.gil_counts@.contains_key(k)
                    ==> #[trigger] self.gil_counts@[k] + (n - i) <= usize::MAX,
            decreases n - i,
        {
            let trace = &traces[i];
            let key = fold_trace(trace, self.show_linenumbers);
            if trace.owns_gil {
                let key_copy = copy_bytes(&key);
                self.gil_counts.bump(key_copy);
            }
            self.all_counts.bump(key);
            i += 1;
            proof {
                let t = traces@.take(i as int);
                assert(t.drop_last() =~= traces@.take(i as int - 1));
                assert(t.last() == traces@[i as int - 1]);
                let prev = trace_keys(traces@.take(i as int - 1), show);
                let k = key_of(traces@[i as int - 1].frames@, show);
                assert(trace_keys(t, show) == prev.push(k));
                assert(prev.push(k).drop_last() =~= prev);
                assert(ingest(all0, prev.push(k)) == bump_key(ingest(all0, prev), k));
                let gil_prev = gil_keys(traces@.take(i as int - 1), show);
                if traces@[i as int - 1].owns_gil {
                    assert(gil_keys(t, show) == gil_prev + seq![k]);
                    assert(gil_prev + seq![k] =~= gil_prev.push(k));
                    assert(gil_prev.push(k).drop_last() =~= gil_prev);
                    assert(ingest(gil0, gil_prev.push(k)) == bump_key(ingest(gil0, gil_prev), k));
                } else {
                    assert(gil_keys(t, show) =~= gil_prev);
                }
            }
        }
        proof {
            assert(traces@.take(n as int) =~= traces@);
        }
    }

    /// The serialized `all_counts` table: one `key count` line per distinct
    /// key.
    pub fn all_lines(&self) -> (out: Vec<u8>)
        ensures
            out@ == lines_bytes(self.all_counts.entries_seq()),
    {
        table_lines(&self.all_counts)
    }

    /// The serialized `gil_counts` table: one `key count` line per distinct
    /// key.
    pub fn gil_lines(&self) -> (out: Vec<u8>)
        ensures
            out@ == lines_bytes(self.gil_counts.entries_seq()),
    {
        table_lines(&self.gil_counts)
    }
}

} // verus!
