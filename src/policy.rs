//! Inputs of the splitter derived from the video: the scene length limit, the
//! frame count and the first scene start.

use vstd::prelude::*;

verus! {

/// `a / b` rounded up.
pub open spec fn div_ceil(a: nat, b: nat) -> nat {
    if a % b == 0 {
        a / b
    } else {
        a / b + 1
    }
}

/// Longest scene allowed, in frames: `max_secs` seconds at `fps_num / fps_den`
/// frames per second, rounded up, or `max_frames`, whichever is smaller. With a
/// zero denominator the rate is unknown and `max_frames` alone applies.
pub fn scene_frame_limit(fps_num: u32, fps_den: u32, max_secs: u32, max_frames: usize) -> (r: usize)
    ensures
        fps_den == 0 ==> r == max_frames,
        fps_den > 0 ==> r == vstd::math::min(
            div_ceil((fps_num * max_secs) as nat, fps_den as nat) as int,
            max_frames as int,
        ),
{
    if fps_den == 0 {
        return max_frames;
    }
    assert(fps_num * max_secs <= 0xffff_fffe_0000_0001u64) by (nonlinear_arith)
        requires
            0 <= fps_num <= 0xffff_ffffu32,
            0 <= max_secs <= 0xffff_ffffu32,
    ;
    let product: u64 = fps_num as u64 * max_secs as u64;
    let den = fps_den as u64;
    let rounding: u64 = if product % den != 0 {
        1
    } else {
        0
    };
    let frames = product / den + rounding;
    if frames < max_frames as u64 {
        frames as usize
    } else {
        max_frames
    }
}

/// Frame count used for splitting: the one given, or the one the detector
/// observed when none (zero) was given.
pub fn total_frame_count(given: usize, detected: usize) -> (r: usize)
    ensures
        r == if given > 0 {
            given
        } else {
            detected
        },
{
    if given > 0 {
        given
    } else {
        detected
    }
}

/// Scene starts with frame 0 as the first one: a list that does not begin at
/// frame 0 (or is empty) gets 0 in front.
pub fn with_first_scene(starts: Vec<usize>) -> (r: Vec<usize>)
    ensures
        r@ == if starts@.len() > 0 && starts@[0] == 0 {
            starts@
        } else {
            seq![0usize] + starts@
        },
{
    let mut r = starts;
    if r.len() == 0 || r[0] != 0 {
        r.insert(0, 0);
        assert(r@ =~= seq![0usize] + starts@);
    }
    r
}

} // verus!
