//! The canonical interchange shape of a sketch: parallel vectors of bin
//! means and counts plus the optional observed range. Wire encodings carry
//! exactly this shape.

use crate::bins::Bin;
use crate::hist::{bins_ok, stable_sort, total_count, StreamHist};
use crate::{sorted_by_mean, COUNT_LIMIT, VALUE_LIMIT};
use vstd::prelude::*;

verus! {

/// The interchange form of a sketch: `means` and `counts` are parallel
/// arrays of equal length, and `min`/`max` are absent when the sketch never
/// received data.
pub struct SketchData {
    /// The bin means, in the stored order.
    pub means: Vec<i64>,
    /// The bin counts, parallel to `means`.
    pub counts: Vec<u64>,
    /// Smallest observed value, if any.
    pub min: Option<i64>,
    /// Largest observed value, if any.
    pub max: Option<i64>,
}

/// The bins formed from parallel sequences of means and counts.
pub open spec fn zip_bins(means: Seq<i64>, counts: Seq<u64>) -> Seq<Bin> {
    Seq::new(means.len(), |i: int| Bin { mean: means[i], count: counts[i] })
}

/// The bins an import yields: the zipped pairs, sorted stably by mean.
pub open spec fn import_bins(means: Seq<i64>, counts: Seq<u64>) -> Seq<Bin> {
    stable_sort(zip_bins(means, counts))
}

/// The observed minimum an import yields: the given one, or the smallest
/// bin mean when absent.
pub open spec fn import_min(means: Seq<i64>, counts: Seq<u64>, mn: Option<i64>) -> Option<i64> {
    if mn is Some {
        mn
    } else if means.len() > 0 {
        Some(import_bins(means, counts)[0].mean)
    } else {
        None
    }
}

/// The observed maximum an import yields: the given one, or the largest bin
/// mean when absent.
pub open spec fn import_max(means: Seq<i64>, counts: Seq<u64>, mx: Option<i64>) -> Option<i64> {
    if mx is Some {
        mx
    } else if means.len() > 0 {
        Some(import_bins(means, counts).last().mean)
    } else {
        None
    }
}

/// A sorted sequence of bins is already stably sorted.
pub proof fn lemma_stable_sort_of_sorted(s: Seq<Bin>)
    requires
        sorted_by_mean(s),
    ensures
        stable_sort(s) == s,
    decreases s.len(),
{
    if s.len() > 0 {
        let head = s.drop_last();
        assert(sorted_by_mean(head));
        lemma_stable_sort_of_sorted(head);
        if head.len() > 0 {
            assert(head.last().mean <= s.last().mean);
        }
        assert(stable_sort(s) == crate::hist::stable_insert(head, s.last()));
        assert(head.push(s.last()) =~= s);
    }
}

impl StreamHist {
    /// Export the sketch in its canonical interchange shape: the bin means
    /// and counts as parallel vectors in ascending-mean order, and the
    /// observed range.
    pub fn export(&self) -> (d: SketchData)
        ensures
            d.means@.len() == self.bins@.len(),
            d.counts@.len() == self.bins@.len(),
            forall|i: int|
                0 <= i < self.bins@.len() ==> d.means@[i] == #[trigger] self.bins@[i].mean
                    && d.counts@[i] == self.bins@[i].count,
            d.min == self.min,
            d.max == self.max,
            zip_bins(d.means@, d.counts@) =~= self.bins@,
    {
        let mut means: Vec<i64> = Vec::new();
        let mut counts: Vec<u64> = Vec::new();
        let mut i: usize = 0;
        while i < self.bins.len()
            invariant
                0 <= i <= self.bins@.len(),
                means@.len() == i,
                counts@.len() == i,
                forall|j: int| 0 <= j < i ==> #[trigger] means@[j] == self.bins@[j].mean,
                forall|j: int| 0 <= j < i ==> #[trigger] counts@[j] == self.bins@[j].count,
            decreases self.bins@.len() - i,
        {
            means.push(self.bins[i].mean);
            counts.push(self.bins[i].count);
            i = i + 1;
        }
        proof {
            assert(zip_bins(means@, counts@) =~= self.bins@) by {
                assert(forall|k: int|
                    0 <= k < self.bins@.len() ==> #[trigger] zip_bins(means@, counts@)[k] == Bin {
                        mean: means@[k],
                        count: counts@[k],
                    });
            }
        }
        SketchData { means, counts, min: self.min, max: self.max }
    }

    /// Import a sketch from its canonical interchange shape. The pairs are
    /// sorted stably by mean; an absent range defaults to the span of the
    /// bin means, and the target size becomes the number of bins supplied.
    pub fn import(data: SketchData) -> (r: StreamHist)
        requires
            data.means@.len() == data.counts@.len(),
            forall|i: int|
                0 <= i < data.means@.len() ==> -VALUE_LIMIT <= #[trigger] data.means@[i]
                    <= VALUE_LIMIT,
            forall|i: int| 0 <= i < data.counts@.len() ==> #[trigger] data.counts@[i] >= 1,
            total_count(zip_bins(data.means@, data.counts@)) <= COUNT_LIMIT,
            data.min is Some <==> data.max is Some,
            data.min is Some ==> {
                &&& -VALUE_LIMIT <= data.min.unwrap() <= VALUE_LIMIT
                &&& -VALUE_LIMIT <= data.max.unwrap() <= VALUE_LIMIT
                &&& data.min.unwrap() <= data.max.unwrap()
                &&& forall|i: int|
                    0 <= i < data.means@.len() ==> data.min.unwrap() <= #[trigger] data.means@[i]
                        <= data.max.unwrap()
            },
        ensures
            r.wf(),
            r.bins@ == import_bins(data.means@, data.counts@),
            r.min == import_min(data.means@, data.counts@, data.min),
            r.max == import_max(data.means@, data.counts@, data.max),
            r.size == data.means@.len(),
            r.total() == total_count(zip_bins(data.means@, data.counts@)),
    {
        let ghost zipped = zip_bins(data.means@, data.counts@);
        let mut built: Vec<Bin> = Vec::new();
        let mut i: usize = 0;
        while i < data.means.len()
            invariant
                0 <= i <= data.means@.len(),
                data.means@.len() == data.counts@.len(),
                zipped == zip_bins(data.means@, data.counts@),
                built@ =~= zipped.take(i as int),
            decreases data.means@.len() - i,
        {
            built.push(Bin { mean: data.means[i], count: data.counts[i] });
            i = i + 1;
        }
        proof {
            assert(built@ =~= zipped);
            assert(bins_ok(zipped)) by {
                assert(forall|k: int|
                    0 <= k < zipped.len() ==> #[trigger] zipped[k] == Bin {
                        mean: data.means@[k],
                        count: data.counts@[k],
                    });
            }
        }
        let mut hist = StreamHist::from_bins(built);
        proof {
            crate::hist::lemma_stable_sort_props(zipped);
            if zipped.len() > 0 && data.min is Some {
                assert forall|k: int| 0 <= k < hist.bins@.len() implies data.min.unwrap() <= (
                #[trigger] hist.bins@[k]).mean && data.max.unwrap() >= hist.bins@[k].mean by {
                    assert(zipped.contains(hist.bins@[k]));
                    let j = choose|j: int| 0 <= j < zipped.len() && zipped[j] == hist.bins@[k];
                    assert(zipped[j].mean == data.means@[j]);
                }
            }
        }
        match data.min {
            Some(m) => {
                hist.min = Some(m);
            },
            None => (),
        }
        match data.max {
            Some(m) => {
                hist.max = Some(m);
            },
            None => (),
        }
        hist
    }
}

/// Round trip: exporting a sketch and importing the result reproduces the
/// sketch — the same bins, the same observed range — with the target size
/// set to the number of bins, since the interchange shape does not record
/// it separately.
pub proof fn lemma_export_import_round_trip(h: StreamHist)
    requires
        h.wf(),
    ensures
        import_bins(
            Seq::new(h.bins@.len(), |i: int| h.bins@[i].mean),
            Seq::new(h.bins@.len(), |i: int| h.bins@[i].count),
        ) == h.bins@,
        import_min(
            Seq::new(h.bins@.len(), |i: int| h.bins@[i].mean),
            Seq::new(h.bins@.len(), |i: int| h.bins@[i].count),
            h.min,
        ) == h.min,
        import_max(
            Seq::new(h.bins@.len(), |i: int| h.bins@[i].mean),
            Seq::new(h.bins@.len(), |i: int| h.bins@[i].count),
            h.max,
        ) == h.max,
{
    let means = Seq::new(h.bins@.len(), |i: int| h.bins@[i].mean);
    let counts = Seq::new(h.bins@.len(), |i: int| h.bins@[i].count);
    assert(zip_bins(means, counts) =~= h.bins@);
    lemma_stable_sort_of_sorted(h.bins@);
}

} // verus!
