//! One frame of the overlay: the size of its buffer, worked out from what
//! the compositor asks for, and its image.

use vstd::prelude::*;
use crate::canvas::{byte_index, clear, lemma_stamped_pixel, stamped};
use crate::color::{word_byte, Rgba};
use crate::config::Config;
use crate::crosshair::{crosshair, lemma_center_stays_clear, on_crosshair, paint_crosshair};

verus! {

/// The sizes of a frame, as plain numbers.
pub struct GeometryView {
    /// Size of the surface in logical pixels, as it is remembered for the
    /// next frame.
    pub logical_width: u32,
    pub logical_height: u32,
    /// How many buffer pixels make one logical pixel, along each axis.
    pub scale: i32,
    /// Size of the buffer in pixels.
    pub width: u32,
    pub height: u32,
    /// Distance between the rows of the buffer, in bytes.
    pub stride: u32,
}

/// One axis of the size to draw at: what the compositor asks for, or, where
/// it asks for zero, what the surface had before.
pub open spec fn resolved_axis(requested: u32, stored: u32) -> u32 {
    if requested == 0 {
        stored
    } else {
        requested
    }
}

/// The number of buffer pixels along an axis of `logical` logical pixels.
/// Neither the length nor the scale counts as less than one.
pub open spec fn physical(logical: int, scale: int) -> int {
    (if logical < 1 {
        1
    } else {
        logical
    }) * (if scale < 1 {
        1
    } else {
        scale
    })
}

/// The geometry of a frame for a surface that remembers the logical size
/// `stored` and has the scale `scale`, when the compositor asks for the
/// size `requested`. There is none where the height of the buffer or the
/// length of its rows in bytes exceeds what the display protocol can carry,
/// a signed number of 32 bits.
pub open spec fn geometry_of(stored: (u32, u32), scale: i32, requested: (u32, u32)) -> Option<
    GeometryView,
> {
    let logical_width = resolved_axis(requested.0, stored.0);
    let logical_height = resolved_axis(requested.1, stored.1);
    let width = physical(logical_width as int, scale as int);
    let height = physical(logical_height as int, scale as int);
    if width * 4 <= i32::MAX && height <= i32::MAX {
        Some(
            GeometryView {
                logical_width,
                logical_height,
                scale: if scale < 1 {
                    1
                } else {
                    scale
                },
                width: width as u32,
                height: height as u32,
                stride: (width * 4) as u32,
            },
        )
    } else {
        None
    }
}

impl GeometryView {
    /// The buffer is the logical size times the scale, at least one pixel
    /// each way, its rows lie close together, and every number fits the
    /// display protocol.
    pub open spec fn wf(self) -> bool {
        &&& self.scale >= 1
        &&& self.width == physical(self.logical_width as int, self.scale as int)
        &&& self.height == physical(self.logical_height as int, self.scale as int)
        &&& self.stride == self.width * 4
        &&& self.stride <= i32::MAX
        &&& self.height <= i32::MAX
    }
}

/// The sizes of a frame. Every value of this type is well formed, which the
/// methods that read it say again for their callers.
#[derive(Debug, Clone, Copy)]
pub struct Geometry {
    logical_width: u32,
    logical_height: u32,
    scale: i32,
    width: u32,
    height: u32,
    stride: u32,
}

impl View for Geometry {
    type V = GeometryView;

    closed spec fn view(&self) -> GeometryView {
        GeometryView {
            logical_width: self.logical_width,
            logical_height: self.logical_height,
            scale: self.scale,
            width: self.width,
            height: self.height,
            stride: self.stride,
        }
    }
}

/// A buffer never collapses: it is at least one pixel wide and high, and
/// where the logical size is not zero it is that size times the scale.
pub proof fn lemma_buffer_is_never_empty(geometry: GeometryView)
    requires
        geometry.wf(),
    ensures
        geometry.width >= 1,
        geometry.height >= 1,
        geometry.logical_width >= 1 ==> geometry.width == geometry.logical_width * geometry.scale,
        geometry.logical_height >= 1 ==> geometry.height == geometry.logical_height
            * geometry.scale,
{
    assert(physical(geometry.logical_width as int, geometry.scale as int) >= 1) by (nonlinear_arith)
        requires
            geometry.scale >= 1,
    ;
    assert(physical(geometry.logical_height as int, geometry.scale as int) >= 1)
        by (nonlinear_arith)
        requires
            geometry.scale >= 1,
    ;
}

/// A compositor that asks for no size at all gets a frame of the size that
/// the surface had before, not an empty one.
pub proof fn lemma_zero_request_keeps_size(stored: (u32, u32), scale: i32)
    ensures
        geometry_of(stored, scale, (0, 0)) matches Some(g) ==> g.logical_width == stored.0
            && g.logical_height == stored.1 && g.width >= 1 && g.height >= 1,
        geometry_of(stored, scale, (0, 0)) == geometry_of(stored, scale, stored),
{
    lemma_geometry_is_well_formed(stored, scale, (0, 0));
    if let Some(g) = geometry_of(stored, scale, (0, 0)) {
        lemma_buffer_is_never_empty(g);
    }
}

/// Whatever `geometry_of` gives is well formed.
pub proof fn lemma_geometry_is_well_formed(stored: (u32, u32), scale: i32, requested: (u32, u32))
    ensures
        geometry_of(stored, scale, requested) matches Some(g) ==> g.wf(),
{
    let logical_width = resolved_axis(requested.0, stored.0);
    let logical_height = resolved_axis(requested.1, stored.1);
    assert(physical(logical_width as int, scale as int) >= 1) by (nonlinear_arith);
    assert(physical(logical_height as int, scale as int) >= 1) by (nonlinear_arith);
}

impl Geometry {
    #[verifier::type_invariant]
    spec fn well_formed(self) -> bool {
        self@.wf()
    }

    /// Works out the geometry of a frame: see `geometry_of`.
    pub fn resolve(stored: (u32, u32), scale: i32, requested: (u32, u32)) -> (geometry: Option<
        Geometry,
    >)
        ensures
            match geometry {
                Some(g) => geometry_of(stored, scale, requested) == Some(g@),
                None => geometry_of(stored, scale, requested) is None,
            },
    {
        let logical_width = if requested.0 == 0 {
            stored.0
        } else {
            requested.0
        };
        let logical_height = if requested.1 == 0 {
            stored.1
        } else {
            requested.1
        };
        let scale: i32 = if scale < 1 {
            1
        } else {
            scale
        };
        let wide: u64 = if logical_width < 1 {
            1
        } else {
            logical_width as u64
        };
        let high: u64 = if logical_height < 1 {
            1
        } else {
            logical_height as u64
        };
        assert(wide * scale <= 0xFFFF_FFFF * 0x7FFF_FFFF && high * scale <= 0xFFFF_FFFF
            * 0x7FFF_FFFF) by (nonlinear_arith)
            requires
                1 <= wide <= 0xFFFF_FFFF,
                1 <= high <= 0xFFFF_FFFF,
                1 <= scale <= 0x7FFF_FFFF,
        ;
        let width: u64 = wide * scale as u64;
        let height: u64 = high * scale as u64;
        if width > (i32::MAX as u64) / 4 || height > i32::MAX as u64 {
            return None;
        }
        Some(
            Geometry {
                logical_width,
                logical_height,
                scale,
                width: width as u32,
                height: height as u32,
                stride: (width * 4) as u32,
            },
        )
    }

    /// Width of the surface in logical pixels.
    pub fn logical_width(&self) -> (n: u32)
        ensures
            self@.wf(),
            n == self@.logical_width,
    {
        proof {
            use_type_invariant(self);
        }
        self.logical_width
    }

    /// Height of the surface in logical pixels.
    pub fn logical_height(&self) -> (n: u32)
        ensures
            self@.wf(),
            n == self@.logical_height,
    {
        proof {
            use_type_invariant(self);
        }
        self.logical_height
    }

    /// Buffer pixels per logical pixel.
    pub fn scale(&self) -> (n: i32)
        ensures
            self@.wf(),
            n == self@.scale,
    {
        proof {
            use_type_invariant(self);
        }
        self.scale
    }

    /// Width of the buffer in pixels.
    pub fn width(&self) -> (n: u32)
        ensures
            self@.wf(),
            n == self@.width,
    {
        proof {
            use_type_invariant(self);
        }
        self.width
    }

    /// Height of the buffer in pixels.
    pub fn height(&self) -> (n: u32)
        ensures
            self@.wf(),
            n == self@.height,
    {
        proof {
            use_type_invariant(self);
        }
        self.height
    }

    /// Distance between the rows of the buffer, in bytes.
    pub fn stride(&self) -> (n: u32)
        ensures
            self@.wf(),
            n == self@.stride,
    {
        proof {
            use_type_invariant(self);
        }
        self.stride
    }
}

/// The image of a frame in a buffer of `len` bytes: the crosshair in its
/// premultiplied colour, and every other byte zero.
pub open spec fn frame_image(
    len: nat,
    geometry: GeometryView,
    color: Rgba,
    thickness: u32,
    length: u32,
    gap: u32,
) -> Seq<u8> {
    stamped(
        Seq::new(len, |i: int| 0u8),
        geometry.stride as int,
        geometry.width as int,
        geometry.height as int,
        color.premultiplied() as u32,
        crosshair(
            geometry.width as int,
            geometry.height as int,
            thickness as int,
            length as int,
            gap as int,
        ),
    )
}

/// Read pixel by pixel: pixel `(x, y)` of a frame carries the premultiplied
/// colour where it lies on the crosshair and is fully transparent where it
/// does not. Around the centre `(width / 2, height / 2)` the square of side
/// `2 * gap` is transparent.
pub proof fn lemma_frame_pixel(
    len: nat,
    geometry: GeometryView,
    color: Rgba,
    thickness: u32,
    length: u32,
    gap: u32,
    x: int,
    y: int,
    k: int,
)
    requires
        geometry.wf(),
        geometry.height * geometry.stride <= len,
        0 <= x < geometry.width,
        0 <= y < geometry.height,
        0 <= k < 4,
    ensures
        0 <= byte_index(geometry.stride as int, x, y, k) < len,
        ({
            let image = frame_image(len, geometry, color, thickness, length, gap);
            let i = byte_index(geometry.stride as int, x, y, k);
            let on = on_crosshair(
                x,
                y,
                geometry.width as int,
                geometry.height as int,
                thickness as int,
                length as int,
                gap as int,
            );
            &&& image[i] == if on {
                word_byte(color.premultiplied() as u32, k)
            } else {
                0u8
            }
            &&& geometry.width / 2 - gap <= x < geometry.width / 2 + gap && geometry.height / 2
                - gap <= y < geometry.height / 2 + gap ==> image[i] == 0u8
        }),
{
    let width = geometry.width as int;
    let height = geometry.height as int;
    lemma_stamped_pixel(
        Seq::new(len, |i: int| 0u8),
        geometry.stride as int,
        width,
        height,
        color.premultiplied() as u32,
        crosshair(width, height, thickness as int, length as int, gap as int),
        x,
        y,
        k,
    );
    if width / 2 - gap <= x < width / 2 + gap && height / 2 - gap <= y < height / 2 + gap {
        lemma_center_stays_clear(x, y, width, height, thickness as int, length as int, gap as int);
    }
}

/// Draws a frame into `canvas`: clears it, then paints the crosshair of
/// `config`. A buffer too small for the geometry is left as it is, and the
/// result says so.
pub fn render_crosshair(canvas: &mut [u8], geometry: &Geometry, config: &Config) -> (drawn: bool)
    ensures
        drawn == (geometry@.height * geometry@.stride <= old(canvas)@.len()),
        drawn ==> final(canvas)@ == frame_image(
            old(canvas)@.len(),
            geometry@,
            config.color,
            config.thickness,
            config.length,
            config.gap,
        ),
        !drawn ==> final(canvas)@ == old(canvas)@,
{
    proof {
        use_type_invariant(geometry);
    }
    assert(geometry.height * geometry.stride <= 0x7FFF_FFFF * 0x7FFF_FFFF) by (nonlinear_arith)
        requires
            geometry.height <= 0x7FFF_FFFF,
            geometry.stride <= 0x7FFF_FFFF,
    ;
    let needed: u64 = geometry.height as u64 * geometry.stride as u64;
    if needed > canvas.len() as u64 {
        return false;
    }
    clear(canvas);
    paint_crosshair(
        canvas,
        geometry.width as usize,
        geometry.height as usize,
        geometry.stride as usize,
        config,
    );
    true
}

} // verus!
