//! Handles that identify the textures and fonts registered with a renderer,
//! the texture metadata kept by the library, and a draw list that only counts.

use vstd::prelude::*;

verus! {

/// The largest raw (one-based) handle value; a handle with this raw value has no successor.
pub const MAX_RAW_HANDLE: u16 = 65535;

/// A handle to a texture registered with the renderer.  Handles are allocated
/// sequentially, starting from the default handle, whose index is 0.
#[derive(Copy, Clone, Debug, PartialEq, Eq, Hash, Structural)]
pub struct TextureHandle {
    id: u16,
}

impl TextureHandle {
    #[verifier::type_invariant]
    spec fn valid(self) -> bool {
        self.id >= 1
    }
}

impl View for TextureHandle {
    /// The zero-based index of the handle.
    type V = nat;

    closed spec fn view(&self) -> nat {
        (self.id - 1) as nat
    }
}

impl Default for TextureHandle {
    fn default() -> (h: TextureHandle)
        ensures
            h@ == 0,
    {
        TextureHandle { id: 1 }
    }
}

impl TextureHandle {
    /// The zero-based index of this handle, suitable for indexing a list of textures.
    pub fn id(self) -> (r: usize)
        ensures
            r == self@,
    {
        proof {
            use_type_invariant(&self);
        }
        (self.id - 1) as usize
    }

    /// The handle that follows this one.  There are at most 65534 textures, so the
    /// last handle has no successor.
    pub fn next(self) -> (h: TextureHandle)
        requires
            self@ + 1 < MAX_RAW_HANDLE,
        ensures
            h@ == self@ + 1,
    {
        proof {
            use_type_invariant(&self);
        }
        TextureHandle { id: self.id + 1 }
    }
}

/// A handle to a font registered with the renderer.  Handles are allocated
/// sequentially, starting from the default handle, whose index is 0.
#[derive(Copy, Clone, Debug, PartialEq, Eq, Hash, Structural)]
pub struct FontHandle {
    id: u16,
}

impl FontHandle {
    #[verifier::type_invariant]
    spec fn valid(self) -> bool {
        self.id >= 1
    }
}

impl View for FontHandle {
    /// The zero-based index of the handle.
    type V = nat;

    closed spec fn view(&self) -> nat {
        (self.id - 1) as nat
    }
}

impl Default for FontHandle {
    fn default() -> (h: FontHandle)
        ensures
            h@ == 0,
    {
        FontHandle { id: 1 }
    }
}

impl FontHandle {
    /// The zero-based index of this handle, suitable for indexing a list of fonts.
    pub fn id(self) -> (r: usize)
        ensures
            r == self@,
    {
        proof {
            use_type_invariant(&self);
        }
        (self.id - 1) as usize
    }

    /// The handle with the zero-based index `index`.
    pub(crate) fn at(index: usize) -> (h: FontHandle)
        requires
            index + 1 <= MAX_RAW_HANDLE,
        ensures
            h@ == index,
    {
        FontHandle { id: (index + 1) as u16 }
    }

    /// The handle that follows this one.  There are at most 65534 fonts, so the
    /// last handle has no successor.
    pub fn next(self) -> (h: FontHandle)
        requires
            self@ + 1 < MAX_RAW_HANDLE,
        ensures
            h@ == self@ + 1,
    {
        proof {
            use_type_invariant(&self);
        }
        FontHandle { id: self.id + 1 }
    }
}

/// What a group of vertices is drawn with: a texture or a font texture.
#[derive(Copy, Clone, Debug, PartialEq, Eq, Structural)]
pub enum DrawMode {
    Image(TextureHandle),
    Font(FontHandle),
}

/// The texture metadata the library keeps once a texture has been registered:
/// its handle and its size in pixels.
pub struct TextureData {
    handle: TextureHandle,
    size: [u32; 2],
}

impl TextureData {
    pub closed spec fn spec_handle(&self) -> TextureHandle {
        self.handle
    }

    pub closed spec fn spec_width(&self) -> u32 {
        self.size[0]
    }

    pub closed spec fn spec_height(&self) -> u32 {
        self.size[1]
    }

    pub fn new(handle: TextureHandle, width: u32, height: u32) -> (t: TextureData)
        ensures
            t.spec_handle() == handle,
            t.spec_width() == width,
            t.spec_height() == height,
    {
        TextureData { handle, size: [width, height] }
    }

    pub fn handle(&self) -> (h: TextureHandle)
        ensures
            h == self.spec_handle(),
    {
        self.handle
    }

    /// The width of the texture, in pixels.
    pub fn width(&self) -> (w: u32)
        ensures
            w == self.spec_width(),
    {
        self.size[0]
    }

    /// The height of the texture, in pixels.
    pub fn height(&self) -> (h: u32)
        ensures
            h == self.spec_height(),
    {
        self.size[1]
    }
}

/// A draw list that records nothing but how many rectangles were pushed to it.
/// Used to lay out text without drawing it.
pub struct DummyDrawList {
    index: usize,
}

impl DummyDrawList {
    pub closed spec fn spec_len(&self) -> nat {
        self.index as nat
    }

    pub fn new() -> (d: DummyDrawList)
        ensures
            d.spec_len() == 0,
    {
        DummyDrawList { index: 0 }
    }

    /// Records that one rectangle was pushed.
    pub fn count_rect(&mut self)
        requires
            old(self).spec_len() < usize::MAX,
        ensures
            final(self).spec_len() == old(self).spec_len() + 1,
    {
        self.index = self.index + 1;
    }

    /// The number of rectangles pushed so far.
    pub fn len(&self) -> (n: usize)
        ensures
            n == self.spec_len(),
    {
        self.index
    }
}

} // verus!
