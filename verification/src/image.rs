//! Image handles, and the choice of frame for images that cycle through frames
//! over time.

use vstd::prelude::*;

verus! {

/// A handle to an image in a theme: its position in the theme's list of images.
#[derive(Copy, Clone, Debug, PartialEq, Eq, Hash, Structural)]
pub struct ImageHandle {
    pub(crate) id: usize,
}

impl View for ImageHandle {
    /// The position of the image in the theme's list of images.
    type V = nat;

    closed spec fn view(&self) -> nat {
        self.id as nat
    }
}

impl ImageHandle {
    /// The handle of the image at position `index` of the theme's list of images.
    pub fn new(index: usize) -> (h: ImageHandle)
        ensures
            h@ == index,
    {
        ImageHandle { id: index }
    }

    /// The position of the image in the theme's list of images.
    pub fn id(self) -> (r: usize)
        ensures
            r == self@,
    {
        self.id
    }
}

/// The frame that a timed image shows `time_millis` after its animation started:
/// the frames are shown in turn, each for `frame_time_millis`, and then again from
/// the first, unless the image plays only `once`, in which case it stays on its last
/// frame once the whole sequence has been shown.
pub open spec fn timed_frame(frame_time_millis: nat, frame_count: nat, once: bool, time_millis: nat) -> nat {
    let total = frame_time_millis * frame_count;
    if once && time_millis > total {
        (frame_count - 1) as nat
    } else {
        (time_millis % total) / frame_time_millis
    }
}

/// Computes which frame of a timed image to draw.  The image has `frame_count`
/// frames, each shown for `frame_time_millis`, and its animation started
/// `time_millis` ago.
pub fn timed_frame_index(frame_time_millis: u32, frame_count: usize, once: bool, time_millis: u32) -> (index: usize)
    requires
        frame_time_millis > 0,
        frame_count > 0,
        frame_time_millis * frame_count <= u32::MAX,
    ensures
        index == timed_frame(frame_time_millis as nat, frame_count as nat, once, time_millis as nat),
        index < frame_count,
{
    assert(frame_count <= frame_time_millis * frame_count) by (nonlinear_arith)
        requires
            frame_time_millis > 0,
            frame_count > 0,
    ;
    let count: u32 = frame_count as u32;
    let total: u32 = frame_time_millis * count;
    assert(total > 0) by (nonlinear_arith)
        requires
            frame_time_millis > 0,
            count > 0,
            total == frame_time_millis * count,
    ;
    if once && time_millis > total {
        frame_count - 1
    } else {
        let index = (time_millis % total) / frame_time_millis;
        assert(index < count) by (nonlinear_arith)
            requires
                frame_time_millis > 0,
                total == frame_time_millis * count,
                total > 0,
                index == (time_millis % total) / frame_time_millis,
        ;
        index as usize
    }
}

} // verus!
