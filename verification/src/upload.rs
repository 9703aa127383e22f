//! Planning the glyph-atlas uploads of a frame: which uploads are well
//! formed, and which of those copy a region that the frame has not written
//! yet.
use crate::text::{AtlasFormat, AtlasUpload};
use vstd::prelude::*;

verus! {

/// Width and height of each atlas texture, in pixels.
pub const ATLAS_SIZE: u32 = 2048;

/// Bytes per pixel of an atlas format.
pub open spec fn bytes_per_pixel(f: AtlasFormat) -> nat {
    match f {
        AtlasFormat::Alpha8 => 1,
        AtlasFormat::Rgba8 => 4,
    }
}

/// The region an upload writes: its position and size.
pub open spec fn region_of(u: AtlasUpload) -> (u32, u32, u32, u32) {
    (u.x, u.y, u.width, u.height)
}

/// An upload can be written: it is not empty, lies inside the atlas, and
/// carries exactly the pixels its size and format call for.
pub open spec fn upload_fits(u: AtlasUpload) -> bool {
    &&& u.width > 0
    &&& u.height > 0
    &&& u.x + u.width <= ATLAS_SIZE
    &&& u.y + u.height <= ATLAS_SIZE
    &&& u.pixels@.len() == u.width * u.height * bytes_per_pixel(u.format)
}

/// Where planning stands after some uploads: the indices to write, the
/// regions written so far, how many uploads were well formed, how many of
/// those repeated a region, and the bytes to write.
pub struct UploadTally {
    pub writes: Seq<int>,
    pub seen: Set<(u32, u32, u32, u32)>,
    pub total: nat,
    pub skipped: nat,
    pub bytes: nat,
}

/// Planning `us` in order, with the regions `seen` already written: a
/// malformed upload is passed over; a well-formed one counts, and is
/// written unless its region was, in which case it counts as skipped.
pub open spec fn tally(us: Seq<AtlasUpload>, seen: Set<(u32, u32, u32, u32)>) -> UploadTally
    decreases us.len(),
{
    if us.len() == 0 {
        UploadTally { writes: Seq::empty(), seen, total: 0, skipped: 0, bytes: 0 }
    } else {
        let t = tally(us.drop_last(), seen);
        let u = us.last();
        if !upload_fits(u) {
            t
        } else if t.seen.contains(region_of(u)) {
            UploadTally { writes: t.writes, seen: t.seen, total: t.total + 1, skipped: t.skipped + 1, bytes: t.bytes }
        } else {
            UploadTally {
                writes: t.writes.push(us.len() - 1),
                seen: t.seen.insert(region_of(u)),
                total: t.total + 1,
                skipped: t.skipped,
                bytes: t.bytes + u.pixels@.len(),
            }
        }
    }
}

/// The uploads of a frame to write, by index, and the counts behind the
/// atlas statistics.
#[derive(Clone, Debug, PartialEq, Eq)]
pub struct UploadPlan {
    pub writes: Vec<usize>,
    pub total: u64,
    pub skipped: u64,
    pub bytes: u64,
}

/// Whether `seen` holds the region `r`.
fn region_seen(seen: &Vec<(u32, u32, u32, u32)>, r: (u32, u32, u32, u32)) -> (b: bool)
    ensures
        b == seen@.contains(r),
{
    let mut i: usize = 0;
    while i < seen.len()
        invariant
            0 <= i <= seen@.len(),
            forall|j: int| 0 <= j < i ==> seen@[j] != r,
        decreases seen@.len() - i,
    {
        let s = seen[i];
        if s.0 == r.0 && s.1 == r.1 && s.2 == r.2 && s.3 == r.3 {
            assert(seen@[i as int] == r);
            return true;
        }
        i += 1;
    }
    false
}

/// Plans the uploads of `uploads`, given the regions `seen` that the frame
/// already wrote, and adds the regions it writes to `seen`: exactly the
/// plan of `tally`.
pub fn plan_atlas_uploads(uploads: &[AtlasUpload], seen: &mut Vec<(u32, u32, u32, u32)>) -> (r: UploadPlan)
    requires
        uploads@.len() <= 0x1_0000_0000,
    ensures
        ({
            let t = tally(uploads@, Set::new(|x: (u32, u32, u32, u32)| old(seen)@.contains(x)));
            &&& r.writes@.len() == t.writes.len()
            &&& forall|j: int| 0 <= j < t.writes.len() ==> r.writes@[j] == t.writes[j]
            &&& forall|x: (u32, u32, u32, u32)| #[trigger] final(seen)@.contains(x) == t.seen.contains(x)
            &&& r.total == t.total
            &&& r.skipped == t.skipped
            &&& r.bytes == t.bytes
        }),
{
    let ghost s0 = Set::new(|x: (u32, u32, u32, u32)| old(seen)@.contains(x));
    let mut writes: Vec<usize> = Vec::new();
    let mut total: u64 = 0;
    let mut skipped: u64 = 0;
    let mut bytes: u64 = 0;
    let n = uploads.len();
    let mut i: usize = 0;
    while i < n
        invariant
            n == uploads@.len(),
            n <= 0x1_0000_0000,
            0 <= i <= n,
            s0 == Set::new(|x: (u32, u32, u32, u32)| old(seen)@.contains(x)),
            ({
                let t = tally(uploads@.take(i as int), s0);
                &&& writes@.len() == t.writes.len()
                &&& forall|j: int| 0 <= j < t.writes.len() ==> writes@[j] == t.writes[j]
                &&& forall|x: (u32, u32, u32, u32)| #[trigger] seen@.contains(x) == t.seen.contains(x)
                &&& total == t.total
                &&& skipped == t.skipped
                &&& bytes == t.bytes
            }),
            total <= i,
            skipped <= i,
            bytes <= i * 0x100_0000,
        decreases n - i,
    {
        let u = &uploads[i];
        let ghost t = tally(uploads@.take(i as int), s0);
        proof {
            assert(uploads@.take(i + 1).drop_last() =~= uploads@.take(i as int));
            assert(uploads@.take(i + 1).last() == *u);
        }
        let fits_area = u.width > 0 && u.height > 0 && u.x.saturating_add(u.width) <= ATLAS_SIZE
            && u.y.saturating_add(u.height) <= ATLAS_SIZE;
        if fits_area {
            let bpp: usize = match u.format {
                AtlasFormat::Alpha8 => 1,
                AtlasFormat::Rgba8 => 4,
            };
            proof {
                assert(u.width <= 2048 && u.height <= 2048);
                assert(u.width * u.height <= 2048 * 2048) by (nonlinear_arith)
                    requires
                        u.width <= 2048,
                        u.height <= 2048,
                ;
            }
            let expected = (u.width as usize) * (u.height as usize) * bpp;
            if u.pixels.len() == expected {
                total = total + 1;
                let reg = (u.x, u.y, u.width, u.height);
                if region_seen(seen, reg) {
                    skipped = skipped + 1;
                } else {
                    let ghost sb = seen@;
                    seen.push(reg);
                    writes.push(i);
                    bytes = bytes + expected as u64;
                    proof {
                        assert forall|x: (u32, u32, u32, u32)| #[trigger] seen@.contains(x) == t.seen.insert(reg).contains(x) by {
                            if seen@.contains(x) && x != reg {
                                let w = choose|w: int| 0 <= w < seen@.len() && seen@[w] == x;
                                assert(sb[w] == x);
                                assert(sb.contains(x));
                            }
                            if sb.contains(x) {
                                let w = choose|w: int| 0 <= w < sb.len() && sb[w] == x;
                                assert(seen@[w] == x);
                            }
                            if x == reg {
                                assert(seen@[seen@.len() - 1] == reg);
                            }
                        }
                    }
                }
            }
        }
        i = i + 1;
    }
    proof {
        assert(uploads@.take(n as int) =~= uploads@);
    }
    UploadPlan { writes, total, skipped, bytes }
}

} // verus!
