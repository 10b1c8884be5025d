//! Streaming histogram sketches in the style of Ben-Haim and Tom-Tov's
//! streaming decision-tree histogram.
//!
//! A sketch holds a bounded, sorted sequence of `(mean, count)` bins that
//! summarises an unbounded stream of samples. Samples are fixed-point values
//! on an integer grid chosen by the caller, so every operation of the sketch
//! is exact integer arithmetic with fully stated results: bin means are
//! floor-rounded weighted averages, and the statistical queries return exact
//! rationals ([`Ratio`]).

mod bins;
mod codec;
mod density;
mod fast;
mod hist;
mod math;
mod ratio;
mod stats;

pub use bins::Bin;
pub use codec::SketchData;
pub use density::{bin_width, epanechnikov, triangular, uniform, KernelDensity};
pub use hist::StreamHist;
pub use ratio::Ratio;

use vstd::prelude::*;
use vstd::string::StrSliceExecFns;

verus! {

/// Largest magnitude a sample value or bin mean may have. The bound keeps
/// every intermediate product of the query formulas inside `i128`.
pub const VALUE_LIMIT: i64 = 1_000_000_000;

/// Largest total number of samples a sketch may absorb. The bound keeps
/// every intermediate product of the query formulas inside `i128`.
pub const COUNT_LIMIT: u64 = 1_000_000_000;

/// The bins are in non-decreasing order of mean.
pub open spec fn sorted_by_mean(bins: Seq<Bin>) -> bool {
    forall|i: int, j: int|
        0 <= i < j < bins.len() ==> #[trigger] bins[i].mean <= #[trigger] bins[j].mean
}

/// Check that a sequence of bins is sorted in non-decreasing order of mean.
pub fn is_sorted(bins: &Vec<Bin>) -> (r: bool)
    ensures
        r == sorted_by_mean(bins@),
{
    let mut i: usize = 1;
    while i < bins.len()
        invariant
            1 <= i,
            i <= bins.len() || bins.len() == 0,
            forall|p: int, q: int|
                0 <= p < q < i && q < bins@.len() ==> #[trigger] bins@[p].mean
                    <= #[trigger] bins@[q].mean,
        decreases bins.len() - i,
    {
        if bins[i - 1].mean > bins[i].mean {
            return false;
        }
        i = i + 1;
    }
    true
}

/// The path names a JSON file: it ends in `.json`, compared without regard
/// to ASCII letter case.
pub open spec fn spec_is_json(path: Seq<char>) -> bool {
    &&& path.len() >= 5
    &&& path[path.len() - 5] == '.'
    &&& (path[path.len() - 4] == 'j' || path[path.len() - 4] == 'J')
    &&& (path[path.len() - 3] == 's' || path[path.len() - 3] == 'S')
    &&& (path[path.len() - 2] == 'o' || path[path.len() - 2] == 'O')
    &&& (path[path.len() - 1] == 'n' || path[path.len() - 1] == 'N')
}

/// Check whether a path names a JSON file by its `.json` suffix, ignoring
/// ASCII letter case.
pub fn is_json(path: &str) -> (r: bool)
    ensures
        r == spec_is_json(path@),
{
    let n = path.unicode_len();
    if n < 5 {
        return false;
    }
    let c0 = path.get_char(n - 5);
    let c1 = path.get_char(n - 4);
    let c2 = path.get_char(n - 3);
    let c3 = path.get_char(n - 2);
    let c4 = path.get_char(n - 1);
    c0 == '.' && (c1 == 'j' || c1 == 'J') && (c2 == 's' || c2 == 'S') && (c3 == 'o' || c3 == 'O')
        && (c4 == 'n' || c4 == 'N')
}

} // verus!
