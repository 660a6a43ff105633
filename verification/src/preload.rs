//! The one-time catch-up pass over existing files: order files newest first,
//! parse each fully, and forward only the records whose timestamp lies within
//! the lookback horizon; the file's offset then moves to its full length, so
//! live tailing never re-delivers a preloaded line.

use vstd::prelude::*;
use crate::record::{Record, RecordView};
use crate::clock::rfc3339_epoch_millis_of;
use crate::ingest::{records_of, ingest_chunk};

verus! {

/// A record lies within the lookback horizon when its timestamp parses and
/// denotes an instant at or after the cutoff.
pub open spec fn within_horizon(r: RecordView, cutoff_millis: int) -> bool {
    match rfc3339_epoch_millis_of(r.timestamp) {
        Some(m) => m >= cutoff_millis,
        None => false,
    }
}

/// The records of `rs` within the horizon, in order.
pub open spec fn preload_filter(rs: Seq<RecordView>, cutoff_millis: int) -> Seq<RecordView>
    decreases rs.len(),
{
    if rs.len() == 0 {
        Seq::empty()
    } else {
        preload_filter(rs.drop_last(), cutoff_millis) + if within_horizon(
            rs.last(),
            cutoff_millis,
        ) {
            seq![rs.last()]
        } else {
            Seq::empty()
        }
    }
}

/// Everything the filter keeps lies within the horizon.
pub proof fn lemma_preload_filter_within(rs: Seq<RecordView>, cutoff: int)
    ensures
        forall|i: int|
            0 <= i < preload_filter(rs, cutoff).len() ==> within_horizon(
                #[trigger] preload_filter(rs, cutoff)[i],
                cutoff,
            ),
    decreases rs.len(),
{
    if rs.len() > 0 {
        lemma_preload_filter_within(rs.drop_last(), cutoff);
        let f = preload_filter(rs, cutoff);
        let fd = preload_filter(rs.drop_last(), cutoff);
        assert forall|i: int| 0 <= i < f.len() implies within_horizon(f[i], cutoff) by {
            if within_horizon(rs.last(), cutoff) {
                if i < fd.len() {
                    assert(f[i] == fd[i]);
                } else {
                    assert(f[i] == rs.last());
                }
            } else {
                assert(f =~= fd);
                assert(f[i] == fd[i]);
            }
        }
    }
}

/// The preload boundary: preload forwards only records within the horizon,
/// and once a file's offset stands at its full length, a live read of the
/// unchanged file starts at that length and covers no bytes — and no bytes
/// carry no records.
pub proof fn lemma_preload_boundary(content: Seq<u8>, cutoff: int, len: u64)
    ensures
        crate::tail::read_start(Some(len), len) == len,
        records_of(Seq::<u8>::empty()) == Seq::<RecordView>::empty(),
        forall|i: int|
            0 <= i < preload_filter(records_of(content), cutoff).len() ==> within_horizon(
                #[trigger] preload_filter(records_of(content), cutoff)[i],
                cutoff,
            ),
{
    lemma_preload_filter_within(records_of(content), cutoff);
}

/// Parse a whole file's bytes and keep exactly the records within the
/// horizon, in order; blank and malformed lines are skipped.
pub fn preload_records(content: &[u8], cutoff_millis: i64) -> (r: Vec<Record>)
    ensures
        r.deep_view() == preload_filter(records_of(content@), cutoff_millis as int),
{
    let (recs, _bad) = ingest_chunk(content);
    let ghost all = recs.deep_view();
    let mut out: Vec<Record> = Vec::new();
    let mut i: usize = 0;
    let n = recs.len();
    let mut pending = recs;
    // Consume from the front so each kept record moves, not copies.
    while i < n
        invariant
            i <= n,
            n == all.len(),
            pending@.len() == n - i,
            forall|j: int| 0 <= j < pending@.len() ==> pending@[j]@ == all[i + j],
            out.deep_view() == preload_filter(all.take(i as int), cutoff_millis as int),
        decreases n - i,
    {
        let rec = pending.remove(0);
        proof {
            assert(rec@ == all[i as int]);
            assert(all.take(i + 1 as int).drop_last() =~= all.take(i as int));
            assert(all.take(i + 1 as int).last() == all[i as int]);
        }
        let keep = match crate::clock::parse_rfc3339_millis(rec.timestamp.as_slice()) {
            Some(m) => m >= cutoff_millis,
            None => false,
        };
        if keep {
            let ghost prev = out.deep_view();
            out.push(rec);
            proof {
                assert(out.deep_view() =~= prev.push(all[i as int]));
                assert(out.deep_view() =~= preload_filter(
                    all.take(i + 1 as int),
                    cutoff_millis as int,
                ));
            }
        } else {
            proof {
                assert(out.deep_view() =~= preload_filter(
                    all.take(i + 1 as int),
                    cutoff_millis as int,
                ));
            }
        }
        i = i + 1;
    }
    proof {
        assert(all.take(n as int) =~= all);
    }
    out
}

/// An order on file indices by modification time, newest first: a
/// duplicate-free sequence of positions into `mtimes`, sorted by decreasing
/// time, covering every file once.
pub fn order_newest_first(mtimes: &Vec<u64>) -> (order: Vec<usize>)
    ensures
        order@.len() == mtimes@.len(),
        forall|a: int| 0 <= a < order@.len() ==> order@[a] < mtimes@.len(),
        forall|a: int, b: int| 0 <= a < b < order@.len() ==> order@[a] != order@[b],
        forall|a: int, b: int|
            0 <= a < b < order@.len() ==> mtimes@[order@[a] as int] >= mtimes@[order@[b] as int],
{
    let n = mtimes.len();
    let mut order: Vec<usize> = Vec::new();
    let mut k: usize = 0;
    while k < n
        invariant
            k <= n,
            n == mtimes@.len(),
            order@.len() == k,
            forall|a: int| 0 <= a < order@.len() ==> order@[a] < k,
            forall|a: int, b: int| 0 <= a < b < order@.len() ==> order@[a] != order@[b],
            forall|a: int, b: int|
                0 <= a < b < order@.len() ==> mtimes@[order@[a] as int]
                    >= mtimes@[order@[b] as int],
        decreases n - k,
    {
        let key = mtimes[k];
        let mut p: usize = 0;
        while p < order.len() && mtimes[order[p]] >= key
            invariant
                p <= order@.len(),
                n == mtimes@.len(),
                forall|a: int| 0 <= a < order@.len() ==> order@[a] < n,
                forall|q: int| 0 <= q < p ==> mtimes@[order@[q] as int] >= key,
            decreases order@.len() - p,
        {
            p = p + 1;
        }
        order.insert(p, k);
        k = k + 1;
    }
    order
}

} // verus!
