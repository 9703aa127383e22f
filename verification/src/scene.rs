//! Backend-neutral scene vocabulary: glyph formats, atlas uploads,
//! clip-stack errors, and the grouping of clipped quads into clip runs.
use vstd::prelude::*;

verus! {

/// Glyph atlas pixel format.
#[derive(Clone, Copy, Debug, PartialEq, Eq, Structural)]
pub enum GlyphFormat {
    /// 8-bit alpha mask.
    Alpha8,
    /// 32-bit RGBA color.
    Rgba8,
}

/// A rectangle of alpha pixels to copy into an atlas page.
#[derive(Clone, Debug, PartialEq)]
pub struct AtlasUpload {
    pub page: u32,
    pub origin: [u32; 2],
    pub size: [u32; 2],
    pub alpha: Vec<u8>,
}

/// Why a clip stack operation failed.
#[derive(Clone, Copy, Debug, PartialEq, Eq, Structural)]
pub enum ClipError {
    /// A pop without a matching push.
    Underflow,
    /// Clips still pushed when the scene ended.
    Unbalanced,
}

/// `runs` splits `0..n` into its maximal runs of items that share their
/// clip: consecutive non-empty ranges from 0 to `n`, each item after the
/// first of a run sharing the clip of the one before it (`same[j]`), and
/// each run after the first starting at an item that does not.
pub open spec fn clip_runs_of(same: Seq<bool>, runs: Seq<(usize, usize)>) -> bool {
    let n = same.len();
    &&& (runs.len() == 0) == (n == 0)
    &&& runs.len() > 0 ==> runs[0].0 == 0 && runs[runs.len() - 1].1 == n
    &&& forall|k: int| 0 <= k < runs.len() ==> (#[trigger] runs[k]).0 < runs[k].1
    &&& forall|k: int| 0 <= k < runs.len() - 1 ==> #[trigger] runs[k + 1].0 == runs[k].1
    &&& forall|k: int, j: int| #![trigger runs[k], same[j]] 0 <= k < runs.len() && runs[k].0 < j < runs[k].1 ==> same[j]
    &&& forall|k: int| 0 < k < runs.len() ==> !same[(#[trigger] runs[k]).0 as int]
}

/// Splits the clipped quads, in order, into runs of items that share a
/// clip, given for each item whether it shares the clip of the one before.
pub fn clip_runs(same: &[bool]) -> (r: Vec<(usize, usize)>)
    ensures
        clip_runs_of(same@, r@),
{
    let n = same.len();
    let mut runs: Vec<(usize, usize)> = Vec::new();
    let mut start: usize = 0;
    while start < n
        invariant
            n == same@.len(),
            0 <= start <= n,
            (runs@.len() == 0) == (start == 0),
            runs@.len() > 0 ==> runs@[0].0 == 0 && runs@[runs@.len() - 1].1 == start,
            forall|k: int| 0 <= k < runs@.len() ==> (#[trigger] runs@[k]).0 < runs@[k].1,
            forall|k: int| 0 <= k < runs@.len() - 1 ==> #[trigger] runs@[k + 1].0 == runs@[k].1,
            forall|k: int, j: int| #![trigger runs@[k], same@[j]] 0 <= k < runs@.len() && runs@[k].0 < j < runs@[k].1 ==> same@[j],
            forall|k: int| 0 < k < runs@.len() ==> !same@[(#[trigger] runs@[k]).0 as int],
            start < n && start > 0 ==> !same@[start as int],
        decreases n - start,
    {
        let mut end = start + 1;
        while end < n && same[end]
            invariant
                start < end <= n,
                n == same@.len(),
                forall|j: int| start < j < end ==> same@[j],
            decreases n - end,
        {
            end += 1;
        }
        let ghost before = runs@;
        runs.push((start, end));
        proof {
            assert forall|k: int, j: int| #![trigger runs@[k], same@[j]] 0 <= k < runs@.len() && runs@[k].0 < j < runs@[k].1 implies same@[j] by {
                if k < before.len() {
                    assert(runs@[k] == before[k]);
                }
            }
            assert forall|k: int| 0 < k < runs@.len() implies !same@[(#[trigger] runs@[k]).0 as int] by {
                if k < before.len() {
                    assert(runs@[k] == before[k]);
                }
            }
            assert forall|k: int| 0 <= k < runs@.len() - 1 implies #[trigger] runs@[k + 1].0 == runs@[k].1 by {
                if k + 1 < before.len() {
                    assert(runs@[k + 1] == before[k + 1]);
                    assert(runs@[k] == before[k]);
                } else {
                    assert(runs@[k] == before[k]);
                }
            }
        }
        start = end;
    }
    runs
}

} // verus!
