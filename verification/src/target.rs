//! What a backend must provide to run a project.
use vstd::prelude::*;

verus! {

/// Defines which functions a backend must provide to work with Skylite.
pub trait SkyliteTarget {
    /// The screen size as a (width, height) tuple. It stays the same for the lifetime of the
    /// target.
    spec fn screen_size(&self) -> (u16, u16);

    /// Whether the target can draw the region that a `draw_sub` call with these arguments
    /// describes.
    spec fn can_draw(
        &self,
        data: Seq<u8>,
        x: i16,
        y: i16,
        src_x: i16,
        src_y: i16,
        src_w: u16,
        src_h: u16,
        flip_h: bool,
        flip_v: bool,
        rotate: bool,
    ) -> bool;

    /// Whether the target can write `len` bytes of storage at `offset`.
    spec fn can_write_storage(&self, offset: usize, len: nat) -> bool;

    /// Whether the target can read `len` bytes of storage at `offset`.
    spec fn can_read_storage(&self, offset: usize, len: usize) -> bool;

    /// Draws a region from a texture atlas to the screen.
    ///
    /// The texture atlas is given as the `data` parameter. There is no fixed
    /// format for the data, so it is up to the implementation to interpret
    /// the remaining parameters apropriately. The data will always be the
    /// complete content of a single graphics file.
    ///
    /// The position where the region should be drawn on the screen is given by
    /// the `x` and `y` parameters, with (0, 0) being the top-left corner.
    ///
    /// The region of the atlas is defined by `src_x` and `src_y` for the
    /// position, and `src_w` and `src_h` for the width and height.
    ///
    /// If `flip_h` is true, the region should be mirrored horizontally before
    /// drawing. If `flip_v` is true, the region should be flipped
    /// vertically. If `rotate` is true, the region should be rotated 90 degrees
    /// clockwise. Rotation is applied after flipping.
    fn draw_sub(
        &mut self,
        data: &[u8],
        x: i16,
        y: i16,
        src_x: i16,
        src_y: i16,
        src_w: u16,
        src_h: u16,
        flip_h: bool,
        flip_v: bool,
        rotate: bool,
    )
        requires
            old(self).can_draw(data@, x, y, src_x, src_y, src_w, src_h, flip_h, flip_v, rotate),
        ensures
            final(self).screen_size() == old(self).screen_size(),
    ;

    /// Returns the screen size of the target as a (width, height) tuple.
    /// This must always return the same value during the lifetime of the
    /// instance.
    fn get_screen_size(&self) -> (out: (u16, u16))
        ensures
            out == self.screen_size(),
    ;

    /// Writes the given data at the given offset into persistent storage.
    fn write_storage(&mut self, offset: usize, data: &[u8])
        requires
            old(self).can_write_storage(offset, data@.len()),
        ensures
            final(self).screen_size() == old(self).screen_size(),
    ;

    /// Reads some amount of data from persistent storage, starting at the given
    /// offset.
    fn read_storage(&self, offset: usize, len: usize) -> (out: Vec<u8>)
        requires
            self.can_read_storage(offset, len),
        ensures
            out@.len() == len,
    ;
}

} // verus!
