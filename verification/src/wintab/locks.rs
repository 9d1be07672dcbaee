//! The attributes a client locks on its context, kept when another process changes it.
use vstd::prelude::*;
use super::words::{TABLET_X, TABLET_Y, Words, abs, axis_max, clamp, signed};

verus! {

/// A locked input size keeps the input origin on the tablet: the origin clamped so that
/// the size (at most the tablet's) still fits.
pub open spec fn locked_origin(w: Seq<u32>, axis: int) -> Seq<u32> {
    let max = axis_max(axis);
    let size = if abs(signed(w[14 + axis])) < max { abs(signed(w[14 + axis])) } else { max };
    w.update(11 + axis, clamp(signed(w[11 + axis]), 0, max - size) as u32)
}

/// The words a context of another process keeps when they are changed: the locked
/// attributes stay as they were (`prior[2]` holds the locks: 1 input size, 2 input
/// aspect, 4 sensitivity, 8 margin options, 16 system output). `scaled` is the input
/// size that keeps the locked aspect, which the caller works out in real numbers.
pub open spec fn spec_apply_locks(prior: Seq<u32>, requested: Seq<u32>, scaled: Seq<u32>) -> Seq<u32> {
    let locks = prior[2];
    let n1 = if locks & 1 != 0 {
        requested.update(14, prior[14]).update(15, prior[15]).update(16, prior[16])
    } else if locks & 2 != 0 {
        requested.update(14, scaled[0]).update(15, scaled[1])
    } else {
        requested
    };
    let n2 = if locks & 4 != 0 { n1.update(23, prior[23]).update(24, prior[24]).update(25, prior[25]) } else { n1 };
    let n3 = if locks & 8 != 0 { n2.update(0, (n2[0] & !0xc000u32) | (prior[0] & 0xc000u32)) } else { n2 };
    let n4 = if locks & 16 != 0 && prior[0] & 1 != 0 {
        Seq::new(33, |k: int| if 26 <= k < 33 { prior[k] } else { n3[k] })
    } else {
        n3
    };
    let n5 = if locks & 3 != 0 { locked_origin(locked_origin(n4, 0), 1) } else { n4 };
    n5.update(2, prior[2])
}

pub fn apply_locks(prior: &Words, requested: Words, scaled: [u32; 2]) -> (r: Words)
    ensures
        r@ == spec_apply_locks(prior@, requested@, scaled@),
{
    let locks = prior[2];
    let mut w = requested;
    if locks & 1 != 0 {
        w[14] = prior[14];
        w[15] = prior[15];
        w[16] = prior[16];
    } else if locks & 2 != 0 {
        w[14] = scaled[0];
        w[15] = scaled[1];
    }
    if locks & 4 != 0 {
        w[23] = prior[23];
        w[24] = prior[24];
        w[25] = prior[25];
    }
    if locks & 8 != 0 {
        w[0] = (w[0] & !0xc000u32) | (prior[0] & 0xc000u32);
    }
    let ghost n3 = w@;
    if locks & 16 != 0 && prior[0] & 1 != 0 {
        let mut k: usize = 26;
        while k < 33
            invariant
                26 <= k <= 33,
                w@.len() == 33,
                forall|j: int| 0 <= j < 33 ==> #[trigger] w@[j] == if 26 <= j < k { prior@[j] } else { n3[j] },
            decreases 33 - k,
        {
            w[k] = prior[k];
            k += 1;
        }
        assert(w@ =~= Seq::new(33, |j: int| if 26 <= j < 33 { prior@[j] } else { n3[j] }));
    }
    if locks & 3 != 0 {
        let ghost n4 = w@;
        let mut axis: usize = 0;
        while axis < 2
            invariant
                axis <= 2,
                w@.len() == 33,
                axis == 0 ==> w@ == n4,
                axis == 1 ==> w@ == locked_origin(n4, 0),
                axis == 2 ==> w@ == locked_origin(locked_origin(n4, 0), 1),
            decreases 2 - axis,
        {
            let ghost before = w@;
            let max: i64 = if axis == 0 { TABLET_X } else { TABLET_Y };
            let extent = (w[14 + axis] as i32) as i64;
            let magnitude = if extent < 0 { -extent } else { extent };
            let size = if magnitude < max { magnitude } else { max };
            let origin = (w[11 + axis] as i32) as i64;
            let fitted = if origin < 0 { 0 } else if origin > max - size { max - size } else { origin };
            w[11 + axis] = fitted as u32;
            assert(w@ =~= locked_origin(before, axis as int));
            axis += 1;
        }
    }
    w[2] = prior[2];
    w
}


/// The input origin on an axis lies on the tablet with room for the input size (at
/// most the tablet's).
pub open spec fn on_tablet(w: Seq<u32>, axis: int) -> bool {
    let size = if abs(signed(w[14 + axis])) < axis_max(axis) { abs(signed(w[14 + axis])) } else { axis_max(axis) };
    0 <= signed(w[11 + axis]) && signed(w[11 + axis]) + size <= axis_max(axis)
}

/// What a context of another process locked survives a change: the locks themselves,
/// a locked input size, locked sensitivities and margin options; and with a locked
/// size or aspect the input stays on the tablet.
pub proof fn lemma_locks_hold(prior: Seq<u32>, requested: Seq<u32>, scaled: Seq<u32>)
    requires
        prior.len() == 33,
        requested.len() == 33,
        scaled.len() == 2,
    ensures
        spec_apply_locks(prior, requested, scaled)[2] == prior[2],
        prior[2] & 1 != 0 ==> spec_apply_locks(prior, requested, scaled).subrange(14, 17) == prior.subrange(14, 17),
        prior[2] & 4 != 0 ==> spec_apply_locks(prior, requested, scaled).subrange(23, 26) == prior.subrange(23, 26),
        prior[2] & 8 != 0 ==> spec_apply_locks(prior, requested, scaled)[0] & 0xc000u32 == prior[0] & 0xc000u32,
        prior[2] & 3 != 0 ==> on_tablet(spec_apply_locks(prior, requested, scaled), 0) && on_tablet(
            spec_apply_locks(prior, requested, scaled),
            1,
        ),
{
    let r = spec_apply_locks(prior, requested, scaled);
    if prior[2] & 8 != 0 {
        let a = prior[0];
        let locks = prior[2];
        let n1 = if locks & 1 != 0 {
            requested.update(14, prior[14]).update(15, prior[15]).update(16, prior[16])
        } else if locks & 2 != 0 {
            requested.update(14, scaled[0]).update(15, scaled[1])
        } else {
            requested
        };
        let n2 = if locks & 4 != 0 { n1.update(23, prior[23]).update(24, prior[24]).update(25, prior[25]) } else { n1 };
        let b = n2[0];
        assert(((b & !0xc000u32) | (a & 0xc000u32)) & 0xc000u32 == a & 0xc000u32) by (bit_vector);
    }
    if prior[2] & 1 != 0 {
        assert(r.subrange(14, 17) =~= prior.subrange(14, 17));
    }
    if prior[2] & 4 != 0 {
        assert(r.subrange(23, 26) =~= prior.subrange(23, 26));
    }
}


} // verus!
