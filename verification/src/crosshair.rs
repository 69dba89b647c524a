//! The crosshair: four arms around the centre of the buffer, with a gap
//! between the centre and each arm.

use vstd::prelude::*;
use crate::canvas::{
    byte_index, column_span, draw_column_span, draw_row_span, either, holds_pixels,
    lemma_stamped_grows, lemma_stamped_nothing, lemma_stamped_pixel, lemma_stamped_same, row_span,
    stamped, Region,
};
use crate::color::{premultiplied_argb, word_byte};
use crate::config::Config;

verus! {

/// `pos` lies on one of the two arms along an axis with the given centre:
/// in `center - gap - length .. center - gap` or in
/// `center + gap .. center + gap + length`.
pub open spec fn in_arm(pos: int, center: int, gap: int, length: int) -> bool {
    center - gap - length <= pos < center - gap || center + gap <= pos < center + gap + length
}

/// `pos` is no further than half the thickness (rounded down) from the
/// centre, on either side. An even thickness therefore covers one line more
/// than its number.
pub open spec fn in_band(pos: int, center: int, thickness: int) -> bool {
    center - thickness / 2 <= pos <= center + thickness / 2
}

/// Pixel `(x, y)` belongs to the crosshair drawn in a `width` x `height`
/// buffer: to a horizontal arm or to a vertical one.
pub open spec fn on_crosshair(
    x: int,
    y: int,
    width: int,
    height: int,
    thickness: int,
    length: int,
    gap: int,
) -> bool {
    let cx = width / 2;
    let cy = height / 2;
    ||| in_band(y, cy, thickness) && in_arm(x, cx, gap, length)
    ||| in_band(x, cx, thickness) && in_arm(y, cy, gap, length)
}

/// The crosshair as a region.
pub open spec fn crosshair(
    width: int,
    height: int,
    thickness: int,
    length: int,
    gap: int,
) -> Region {
    |x: int, y: int| on_crosshair(x, y, width, height, thickness, length, gap)
}

/// No pixel is drawn between the gap boundaries around the centre: the
/// square of side `2 * gap` around `(width / 2, height / 2)` stays clear,
/// whatever the thickness and the arm length.
pub proof fn lemma_center_stays_clear(
    x: int,
    y: int,
    width: int,
    height: int,
    thickness: int,
    length: int,
    gap: int,
)
    requires
        length >= 0,
        width / 2 - gap <= x < width / 2 + gap,
        height / 2 - gap <= y < height / 2 + gap,
    ensures
        !on_crosshair(x, y, width, height, thickness, length, gap),
{
}

/// The lines that an arm covers across its direction are exactly those at
/// the offsets `-(thickness / 2) ..= thickness / 2` from the centre, which
/// are `2 * (thickness / 2) + 1` lines.
pub proof fn lemma_band_offsets(pos: int, center: int, thickness: int)
    requires
        thickness >= 0,
    ensures
        in_band(pos, center, thickness) <==> -(thickness / 2) <= pos - center <= thickness / 2,
        thickness % 2 == 1 ==> 2 * (thickness / 2) + 1 == thickness,
        thickness % 2 == 0 ==> 2 * (thickness / 2) + 1 == thickness + 1,
{
}

/// Read pixel by pixel, a buffer on which the crosshair was stamped holds
/// the word at the four bytes from `y * stride + x * 4` of every pixel
/// `(x, y)` of the crosshair, and at every other pixel what it held before.
pub proof fn lemma_crosshair_pixels(
    before: Seq<u8>,
    stride: int,
    width: int,
    height: int,
    word: u32,
    thickness: int,
    length: int,
    gap: int,
)
    requires
        holds_pixels(before.len() as int, stride, width, height),
    ensures
        forall|x: int, y: int, k: int|
            0 <= x < width && 0 <= y < height && 0 <= k < 4 ==> 0 <= #[trigger] byte_index(
                stride,
                x,
                y,
                k,
            ) < before.len() && stamped(
                before,
                stride,
                width,
                height,
                word,
                crosshair(width, height, thickness, length, gap),
            )[byte_index(stride, x, y, k)] == if on_crosshair(
                x,
                y,
                width,
                height,
                thickness,
                length,
                gap,
            ) {
                word_byte(word, k)
            } else {
                before[byte_index(stride, x, y, k)]
            },
{
    assert forall|x: int, y: int, k: int|
        0 <= x < width && 0 <= y < height && 0 <= k < 4 implies 0 <= #[trigger] byte_index(
        stride,
        x,
        y,
        k,
    ) < before.len() && stamped(
        before,
        stride,
        width,
        height,
        word,
        crosshair(width, height, thickness, length, gap),
    )[byte_index(stride, x, y, k)] == if on_crosshair(
        x,
        y,
        width,
        height,
        thickness,
        length,
        gap,
    ) {
        word_byte(word, k)
    } else {
        before[byte_index(stride, x, y, k)]
    } by {
        lemma_stamped_pixel(
            before,
            stride,
            width,
            height,
            word,
            crosshair(width, height, thickness, length, gap),
            x,
            y,
            k,
        );
    }
}

/// The rows `from..to` of the two horizontal arms.
spec fn arm_rows(center: int, gap: int, length: int, from: int, to: int) -> Region {
    |px: int, py: int| from <= py < to && in_arm(px, center, gap, length)
}

/// The columns `from..to` of the two vertical arms.
spec fn arm_columns(center: int, gap: int, length: int, from: int, to: int) -> Region {
    |px: int, py: int| from <= px < to && in_arm(py, center, gap, length)
}

/// Draws the crosshair of `config` into a buffer of `width` x `height`
/// pixels whose rows are `stride` bytes apart: pixel `(x, y)` lies at the
/// four bytes from `y * stride + x * 4`. Pixels off the crosshair keep
/// their value, and so does every byte between and behind the rows.
pub fn paint_crosshair(
    canvas: &mut [u8],
    width: usize,
    height: usize,
    stride: usize,
    config: &Config,
)
    requires
        width * 4 <= stride,
        height * stride <= old(canvas)@.len(),
    ensures
        final(canvas)@ == stamped(
            old(canvas)@,
            stride as int,
            width as int,
            height as int,
            config.color.premultiplied() as u32,
            crosshair(
                width as int,
                height as int,
                config.thickness as int,
                config.length as int,
                config.gap as int,
            ),
        ),
        forall|x: int, y: int, k: int|
            0 <= x < width && 0 <= y < height && 0 <= k < 4 ==> 0 <= #[trigger] byte_index(
                stride as int,
                x,
                y,
                k,
            ) < old(canvas)@.len() && final(canvas)@[byte_index(stride as int, x, y, k)]
                == if on_crosshair(
                x,
                y,
                width as int,
                height as int,
                config.thickness as int,
                config.length as int,
                config.gap as int,
            ) {
                word_byte(config.color.premultiplied() as u32, k)
            } else {
                old(canvas)@[byte_index(stride as int, x, y, k)]
            },
{
    proof {
        assert(canvas.len() == canvas@.len());
        assert(height * stride <= canvas@.len());
        lemma_crosshair_pixels(
            canvas@,
            stride as int,
            width as int,
            height as int,
            config.color.premultiplied() as u32,
            config.thickness as int,
            config.length as int,
            config.gap as int,
        );
    }
    let color = premultiplied_argb(&config.color);
    let ghost before = canvas@;
    let ghost whole = crosshair(
        width as int,
        height as int,
        config.thickness as int,
        config.length as int,
        config.gap as int,
    );
    if width == 0 || height == 0 {
        proof {
            lemma_stamped_nothing(
                before,
                stride as int,
                width as int,
                height as int,
                color,
                whole,
            );
        }
        return ;
    }
    proof {
        assert(canvas.len() == canvas@.len());
        assert(height * stride >= stride && height * stride >= height * 4) by (nonlinear_arith)
            requires
                height >= 1,
                stride >= 4,
        ;
    }
    let cx: i64 = (width / 2) as i64;
    let cy: i64 = (height / 2) as i64;
    let length: i64 = config.length as i64;
    let gap: i64 = config.gap as i64;
    let half: i64 = (config.thickness / 2) as i64;

    let first_row: i64 = if cy - half < 0 {
        0
    } else {
        cy - half
    };
    let end_row: i64 = if cy + half + 1 > height as i64 {
        height as i64
    } else {
        cy + half + 1
    };
    let mut y: i64 = first_row;
    proof {
        lemma_stamped_nothing(
            before,
            stride as int,
            width as int,
            height as int,
            color,
            arm_rows(cx as int, gap as int, length as int, first_row as int, first_row as int),
        );
    }
    while y < end_row
        invariant
            0 <= first_row <= y <= end_row <= height,
            first_row <= cy < end_row,
            0 <= gap <= u32::MAX,
            0 <= length <= u32::MAX,
            0 <= cx < width,
            width <= i64::MAX / 2,
            canvas@.len() == before.len(),
            holds_pixels(canvas@.len() as int, stride as int, width as int, height as int),
            canvas@ == stamped(
                before,
                stride as int,
                width as int,
                height as int,
                color,
                arm_rows(cx as int, gap as int, length as int, first_row as int, y as int),
            ),
        decreases end_row - y,
    {
        let ghost drawn = arm_rows(
            cx as int,
            gap as int,
            length as int,
            first_row as int,
            y as int,
        );
        let ghost left = row_span(y as int, cx - gap - length, cx - gap);
        let ghost right = row_span(y as int, cx + gap, cx + gap + length);
        draw_row_span(canvas, stride, y, cx - gap - length, cx - gap, color, width, height);
        draw_row_span(canvas, stride, y, cx + gap, cx + gap + length, color, width, height);
        proof {
            lemma_stamped_grows(
                before,
                stride as int,
                width as int,
                height as int,
                color,
                drawn,
                left,
                either(drawn, left),
            );
            lemma_stamped_grows(
                before,
                stride as int,
                width as int,
                height as int,
                color,
                either(drawn, left),
                right,
                arm_rows(cx as int, gap as int, length as int, first_row as int, y + 1),
            );
        }
        y += 1;
    }

    let first_column: i64 = if cx - half < 0 {
        0
    } else {
        cx - half
    };
    let end_column: i64 = if cx + half + 1 > width as i64 {
        width as i64
    } else {
        cx + half + 1
    };
    let ghost rows = arm_rows(
        cx as int,
        gap as int,
        length as int,
        first_row as int,
        end_row as int,
    );
    let mut x: i64 = first_column;
    proof {
        lemma_stamped_same(
            before,
            stride as int,
            width as int,
            height as int,
            color,
            rows,
            either(
                rows,
                arm_columns(
                    cy as int,
                    gap as int,
                    length as int,
                    first_column as int,
                    first_column as int,
                ),
            ),
        );
    }
    while x < end_column
        invariant
            0 <= first_column <= x <= end_column <= width,
            0 <= gap <= u32::MAX,
            0 <= length <= u32::MAX,
            0 <= cy < height,
            height <= i64::MAX / 2,
            canvas@.len() == before.len(),
            holds_pixels(canvas@.len() as int, stride as int, width as int, height as int),
            canvas@ == stamped(
                before,
                stride as int,
                width as int,
                height as int,
                color,
                either(
                    rows,
                    arm_columns(
                        cy as int,
                        gap as int,
                        length as int,
                        first_column as int,
                        x as int,
                    ),
                ),
            ),
        decreases end_column - x,
    {
        let ghost drawn = either(
            rows,
            arm_columns(cy as int, gap as int, length as int, first_column as int, x as int),
        );
        let ghost top = column_span(x as int, cy - gap - length, cy - gap);
        let ghost bottom = column_span(x as int, cy + gap, cy + gap + length);
        draw_column_span(canvas, stride, x, cy - gap - length, cy - gap, color, width, height);
        draw_column_span(canvas, stride, x, cy + gap, cy + gap + length, color, width, height);
        proof {
            lemma_stamped_grows(
                before,
                stride as int,
                width as int,
                height as int,
                color,
                drawn,
                top,
                either(drawn, top),
            );
            lemma_stamped_grows(
                before,
                stride as int,
                width as int,
                height as int,
                color,
                either(drawn, top),
                bottom,
                either(
                    rows,
                    arm_columns(cy as int, gap as int, length as int, first_column as int, x + 1),
                ),
            );
        }
        x += 1;
    }
    proof {
        lemma_stamped_same(
            before,
            stride as int,
            width as int,
            height as int,
            color,
            either(
                rows,
                arm_columns(cy as int, gap as int, length as int, first_column as int, x as int),
            ),
            whole,
        );
    }
}

} // verus!
