//! Physical frames handed out from the memory map: the usable regions are walked in
//! order, each one frame by frame from its start.
use vstd::prelude::*;

verus! {

/// Bytes of a physical frame.
pub const FRAME_SIZE: u64 = 4096;

/// A region of the physical memory map: `[start, end)`, and whether it is free for use.
#[derive(Debug, Clone, Copy, PartialEq, Eq)]
pub struct MemRegion {
    pub start: u64,
    pub end: u64,
    pub usable: bool,
}

/// Number of frames in region `r`: one at each multiple of `FRAME_SIZE` past its start
/// that lies before its end.
pub open spec fn region_frame_count(r: MemRegion) -> nat {
    if r.end <= r.start {
        0
    } else {
        ((r.end - r.start - 1) / (FRAME_SIZE as int) + 1) as nat
    }
}

/// The start addresses of the frames of region `r`, in order.
pub open spec fn region_frames(r: MemRegion) -> Seq<u64> {
    Seq::new(region_frame_count(r), |k: int| (r.start + FRAME_SIZE * k) as u64)
}

/// The frames of the usable regions of `rs`, region after region.
pub open spec fn usable_frames(rs: Seq<MemRegion>) -> Seq<u64>
    decreases rs.len(),
{
    if rs.len() == 0 {
        Seq::empty()
    } else {
        usable_frames(rs.drop_last()) + if rs.last().usable {
            region_frames(rs.last())
        } else {
            Seq::empty()
        }
    }
}

/// The frames of the first `j` regions come first among the frames of all regions.
pub proof fn lemma_usable_frames_prefix(rs: Seq<MemRegion>, j: int)
    requires
        0 <= j <= rs.len(),
    ensures
        usable_frames(rs.take(j)).len() <= usable_frames(rs).len(),
        forall|m: int|
            0 <= m < usable_frames(rs.take(j)).len() ==> #[trigger] usable_frames(rs)[m] == usable_frames(
                rs.take(j),
            )[m],
    decreases rs.len(),
{
    if j == rs.len() {
        assert(rs.take(j) =~= rs);
    } else {
        let d = rs.drop_last();
        assert(d.take(j) =~= rs.take(j));
        lemma_usable_frames_prefix(d, j);
    }
}

/// Start address of frame `n` among the frames of the usable regions of `regions`,
/// or `None` when there are no more than `n` of them.
pub fn nth_usable_frame(regions: &[MemRegion], n: u64) -> (r: Option<u64>)
    ensures
        r == if n < usable_frames(regions@).len() {
            Some(usable_frames(regions@)[n as int])
        } else {
            None::<u64>
        },
{
    let ghost rs = regions@;
    let mut i: usize = 0;
    let mut skipped: u64 = 0;
    proof {
        assert(rs.take(0) =~= Seq::<MemRegion>::empty());
    }
    while i < regions.len()
        invariant
            rs == regions@,
            i <= rs.len(),
            skipped == usable_frames(rs.take(i as int)).len(),
            skipped <= n,
        decreases rs.len() - i,
    {
        let r = regions[i];
        let ghost before = usable_frames(rs.take(i as int));
        proof {
            assert(rs.take(i + 1).drop_last() =~= rs.take(i as int));
            assert(rs.take(i + 1).last() == r);
        }
        if r.usable && r.end > r.start {
            let count = (r.end - r.start - 1) / FRAME_SIZE + 1;
            assert(count == region_frame_count(r));
            if n - skipped < count {
                let k = n - skipped;
                assert(FRAME_SIZE * k <= r.end - r.start - 1) by (nonlinear_arith)
                    requires
                        k < count,
                        count == (r.end - r.start - 1) / (FRAME_SIZE as int) + 1,
                        r.end > r.start,
                ;
                let addr = r.start + FRAME_SIZE * k;
                proof {
                    let after = usable_frames(rs.take(i + 1));
                    assert(after == before + region_frames(r));
                    assert(after[n as int] == region_frames(r)[k as int]);
                    lemma_usable_frames_prefix(rs, i + 1);
                }
                return Some(addr);
            }
            skipped = skipped + count;
        }
        i = i + 1;
    }
    proof {
        assert(rs.take(i as int) =~= rs);
    }
    None
}

} // verus!
