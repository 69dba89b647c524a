//! The pixel buffer: rows of 4-byte ARGB pixels, and how pixels are written
//! into it.
//!
//! A buffer is a flat byte sequence. Pixel `(x, y)` occupies the four bytes
//! from `y * stride + x * 4`, where `stride` is the distance between rows in
//! bytes, at least `width * 4` and not bound to be a multiple of four. Only
//! pixels with `x < width` and `y < height` are ever written.

use vstd::prelude::*;
use vstd::arithmetic::div_mod::{lemma_fundamental_div_mod, lemma_fundamental_div_mod_converse};
use vstd::arithmetic::mul::lemma_mul_is_commutative;
use crate::color::{word_byte, word_to_bytes};

verus! {

/// A set of pixel positions, given by its membership test on `(x, y)`.
pub type Region = spec_fn(int, int) -> bool;

/// The buffer has room for `height` rows of `stride` bytes, and a row has
/// room for `width` pixels.
pub open spec fn holds_pixels(len: int, stride: int, width: int, height: int) -> bool {
    &&& 0 <= width
    &&& width * 4 <= stride
    &&& 0 <= height
    &&& height * stride <= len
}

/// Where byte `k` of pixel `(x, y)` lies in the buffer.
pub open spec fn byte_index(stride: int, x: int, y: int, k: int) -> int {
    y * stride + x * 4 + k
}

/// The row that byte `i` of the buffer lies in.
pub open spec fn row_of(stride: int, i: int) -> int {
    i / stride
}

/// The column of the pixel that byte `i` of the buffer lies in, counted
/// from the start of its row.
pub open spec fn column_of(stride: int, i: int) -> int {
    i % stride / 4
}

/// Which of the four bytes of its pixel byte `i` of the buffer is.
pub open spec fn byte_of(stride: int, i: int) -> int {
    i % stride % 4
}

/// Byte `i` of the buffer belongs to a pixel inside the `width` x `height`
/// area, and that pixel lies in `region`.
pub open spec fn covered(
    stride: int,
    width: int,
    height: int,
    region: Region,
    i: int,
) -> bool {
    &&& stride > 0
    &&& column_of(stride, i) < width
    &&& row_of(stride, i) < height
    &&& region(column_of(stride, i), row_of(stride, i))
}

/// The buffer `before` with every pixel of `region` that lies inside the
/// `width` x `height` area set to `word`. All other bytes keep their value.
pub open spec fn stamped(
    before: Seq<u8>,
    stride: int,
    width: int,
    height: int,
    word: u32,
    region: Region,
) -> Seq<u8> {
    Seq::new(
        before.len(),
        |i: int|
            if covered(stride, width, height, region, i) {
                word_byte(word, byte_of(stride, i))
            } else {
                before[i]
            },
    )
}

/// The region that holds the single pixel `(x, y)`.
pub open spec fn point(x: int, y: int) -> Region {
    |px: int, py: int| px == x && py == y
}

/// The pixels of row `y` whose column lies in `from..to`.
pub open spec fn row_span(y: int, from: int, to: int) -> Region {
    |px: int, py: int| py == y && from <= px < to
}

/// The pixels of column `x` whose row lies in `from..to`.
pub open spec fn column_span(x: int, from: int, to: int) -> Region {
    |px: int, py: int| px == x && from <= py < to
}

/// The union of two regions.
pub open spec fn either(first: Region, second: Region) -> Region {
    |px: int, py: int| first(px, py) || second(px, py)
}

/// Two regions that agree on every pixel of the drawable area give the same
/// buffer.
pub proof fn lemma_stamped_same(
    before: Seq<u8>,
    stride: int,
    width: int,
    height: int,
    word: u32,
    first: Region,
    second: Region,
)
    requires
        forall|x: int, y: int|
            0 <= x < width && 0 <= y < height ==> #[trigger] first(x, y) == second(x, y),
    ensures
        stamped(before, stride, width, height, word, first) == stamped(
            before,
            stride,
            width,
            height,
            word,
            second,
        ),
{
    let a = stamped(before, stride, width, height, word, first);
    let b = stamped(before, stride, width, height, word, second);
    assert forall|i: int| 0 <= i < a.len() implies a[i] == b[i] by {
        if stride > 0 {
            lemma_position(stride, i);
        }
    }
    assert(a =~= b);
}

/// Stamping one region and then another with the same word is stamping
/// their union.
pub proof fn lemma_stamped_twice(
    before: Seq<u8>,
    stride: int,
    width: int,
    height: int,
    word: u32,
    first: Region,
    second: Region,
)
    ensures
        stamped(
            stamped(before, stride, width, height, word, first),
            stride,
            width,
            height,
            word,
            second,
        ) == stamped(before, stride, width, height, word, either(first, second)),
{
    let once = stamped(before, stride, width, height, word, first);
    let twice = stamped(once, stride, width, height, word, second);
    let both = stamped(before, stride, width, height, word, either(first, second));
    assert(twice =~= both);
}

/// Stamping `grown` onto a buffer that already carries `done` gives the
/// buffer that carries `total`, where `total` is their union on the
/// drawable area.
pub proof fn lemma_stamped_grows(
    before: Seq<u8>,
    stride: int,
    width: int,
    height: int,
    word: u32,
    done: Region,
    grown: Region,
    total: Region,
)
    requires
        forall|x: int, y: int|
            0 <= x < width && 0 <= y < height ==> #[trigger] total(x, y) == (done(x, y) || grown(
                x,
                y,
            )),
    ensures
        stamped(
            stamped(before, stride, width, height, word, done),
            stride,
            width,
            height,
            word,
            grown,
        ) == stamped(before, stride, width, height, word, total),
{
    lemma_stamped_twice(before, stride, width, height, word, done, grown);
    lemma_stamped_same(before, stride, width, height, word, either(done, grown), total);
}

/// Stamping the empty region changes nothing.
pub proof fn lemma_stamped_nothing(
    before: Seq<u8>,
    stride: int,
    width: int,
    height: int,
    word: u32,
    region: Region,
)
    requires
        forall|x: int, y: int| 0 <= x < width && 0 <= y < height ==> !#[trigger] region(x, y),
    ensures
        stamped(before, stride, width, height, word, region) == before,
{
    let after = stamped(before, stride, width, height, word, region);
    assert forall|i: int| 0 <= i < after.len() implies after[i] == before[i] by {
        if stride > 0 {
            lemma_position(stride, i);
        }
    }
    assert(after =~= before);
}

/// Every byte lies in a row and a column that are not negative, and is
/// found again from them: it is byte `byte_of` of the pixel in column
/// `column_of` of row `row_of`.
pub proof fn lemma_position(stride: int, i: int)
    requires
        stride > 0,
        0 <= i,
    ensures
        0 <= row_of(stride, i),
        0 <= column_of(stride, i),
        0 <= byte_of(stride, i) < 4,
        i == row_of(stride, i) * stride + column_of(stride, i) * 4 + byte_of(stride, i),
        column_of(stride, i) * 4 + byte_of(stride, i) < stride,
{
    lemma_fundamental_div_mod(i, stride);
    lemma_mul_is_commutative(stride, i / stride);
    assert(0 <= i / stride) by (nonlinear_arith)
        requires
            0 <= i,
            stride > 0,
    ;
}

/// Byte `k` of pixel `(x, y)` of a buffer that holds the pixel lies inside
/// the buffer, at the index `y * stride + x * 4 + k`, and that index names
/// no other pixel and no other byte of it.
pub proof fn lemma_pixel_index(
    len: int,
    stride: int,
    width: int,
    height: int,
    x: int,
    y: int,
    k: int,
)
    requires
        holds_pixels(len, stride, width, height),
        0 <= x < width,
        0 <= y < height,
        0 <= k < 4,
    ensures
        0 <= y * stride,
        0 <= y * stride + x * 4 + k < len,
        row_of(stride, y * stride + x * 4 + k) == y,
        column_of(stride, y * stride + x * 4 + k) == x,
        byte_of(stride, y * stride + x * 4 + k) == k,
{
    assert(y * stride <= (height - 1) * stride && 0 <= y * stride) by (nonlinear_arith)
        requires
            0 <= y <= height - 1,
            0 <= stride,
    ;
    assert((height - 1) * stride == height * stride - stride) by (nonlinear_arith);
    lemma_mul_is_commutative(y, stride);
    lemma_fundamental_div_mod_converse(y * stride + x * 4 + k, stride, y, x * 4 + k);
}

/// Read pixel by pixel: in a buffer that was stamped, byte `k` of pixel
/// `(x, y)`, which lies at `y * stride + x * 4 + k`, is that byte of the
/// word where the pixel lies in the region, and is what it was before where
/// it does not.
pub proof fn lemma_stamped_pixel(
    before: Seq<u8>,
    stride: int,
    width: int,
    height: int,
    word: u32,
    region: Region,
    x: int,
    y: int,
    k: int,
)
    requires
        holds_pixels(before.len() as int, stride, width, height),
        0 <= x < width,
        0 <= y < height,
        0 <= k < 4,
    ensures
        0 <= byte_index(stride, x, y, k) < before.len(),
        ({
            let i = byte_index(stride, x, y, k);
            stamped(before, stride, width, height, word, region)[i] == if region(x, y) {
                word_byte(word, k)
            } else {
                before[i]
            }
        }),
{
    lemma_pixel_index(before.len() as int, stride, width, height, x, y, k);
}

/// Read byte by byte: in a buffer that was stamped, a byte that belongs to
/// no pixel of the drawable area, be it in the slack at the end of a row or
/// behind the last row, is what it was before.
pub proof fn lemma_stamped_slack(
    before: Seq<u8>,
    stride: int,
    width: int,
    height: int,
    word: u32,
    region: Region,
    i: int,
)
    requires
        0 <= i < before.len(),
        stride <= 0 || column_of(stride, i) >= width || row_of(stride, i) >= height,
    ensures
        stamped(before, stride, width, height, word, region)[i] == before[i],
{
}

/// Writes `color` at pixel `(x, y)`, that is at the four bytes from
/// `y * stride + x * 4`. A position outside the `width` x `height` area is
/// skipped.
pub fn plot(
    canvas: &mut [u8],
    stride: usize,
    x: i64,
    y: i64,
    color: u32,
    width: usize,
    height: usize,
)
    requires
        holds_pixels(old(canvas)@.len() as int, stride as int, width as int, height as int),
    ensures
        final(canvas)@ == stamped(
            old(canvas)@,
            stride as int,
            width as int,
            height as int,
            color,
            point(x as int, y as int),
        ),
{
    if x < 0 || y < 0 || x as u64 >= width as u64 || y as u64 >= height as u64 {
        proof {
            lemma_stamped_nothing(
                canvas@,
                stride as int,
                width as int,
                height as int,
                color,
                point(x as int, y as int),
            );
        }
        return ;
    }
    proof {
        assert(canvas.len() == canvas@.len());
        lemma_pixel_index(
            canvas@.len() as int,
            stride as int,
            width as int,
            height as int,
            x as int,
            y as int,
            3,
        );
        assert(y as usize * stride == y * stride) by (nonlinear_arith)
            requires
                y as usize == y,
        ;
    }
    let start: usize = (y as usize) * stride + (x as usize) * 4;
    let bytes = word_to_bytes(color);
    canvas[start] = bytes[0];
    canvas[start + 1] = bytes[1];
    canvas[start + 2] = bytes[2];
    canvas[start + 3] = bytes[3];
    proof {
        let s = stride as int;
        let want = stamped(
            old(canvas)@,
            s,
            width as int,
            height as int,
            color,
            point(x as int, y as int),
        );
        assert forall|i: int| 0 <= i < want.len() implies canvas@[i] == want[i] by {
            lemma_position(s, i);
            if start <= i < start + 4 {
                lemma_pixel_index(
                    want.len() as int,
                    s,
                    width as int,
                    height as int,
                    x as int,
                    y as int,
                    i - start,
                );
            } else if row_of(s, i) == y && column_of(s, i) == x {
                assert(i == y * s + x * 4 + byte_of(s, i));
            }
        }
        assert(canvas@ =~= want);
    }
}

/// The clamped column range `from..to` of a row that is `width` pixels long.
fn clamp_span(from: i64, to: i64, limit: usize) -> (range: (u64, u64))
    ensures
        range.0 == (if from < 0 { 0 } else { from as int }),
        range.1 == (if to < 0 { 0 } else if to > limit { limit as int } else { to as int }),
{
    let lo: u64 = if from < 0 {
        0
    } else {
        from as u64
    };
    let hi: u64 = if to < 0 {
        0
    } else if to as u64 > limit as u64 {
        limit as u64
    } else {
        to as u64
    };
    (lo, hi)
}

/// Writes `color` at the pixels of row `y` whose column lies in `from..to`,
/// skipping what lies outside the drawable area.
pub fn draw_row_span(
    canvas: &mut [u8],
    stride: usize,
    y: i64,
    from: i64,
    to: i64,
    color: u32,
    width: usize,
    height: usize,
)
    requires
        holds_pixels(old(canvas)@.len() as int, stride as int, width as int, height as int),
    ensures
        final(canvas)@ == stamped(
            old(canvas)@,
            stride as int,
            width as int,
            height as int,
            color,
            row_span(y as int, from as int, to as int),
        ),
{
    let (lo, hi) = clamp_span(from, to, width);
    let mut x: u64 = lo;
    proof {
        lemma_stamped_nothing(
            canvas@,
            stride as int,
            width as int,
            height as int,
            color,
            row_span(y as int, lo as int, lo as int),
        );
    }
    while x < hi
        invariant
            lo <= x,
            x <= hi || x == lo,
            lo == (if from < 0 { 0 } else { from as int }),
            hi == (if to < 0 { 0 } else if to > width { width as int } else { to as int }),
            canvas@.len() == old(canvas)@.len(),
            holds_pixels(canvas@.len() as int, stride as int, width as int, height as int),
            canvas@ == stamped(
                old(canvas)@,
                stride as int,
                width as int,
                height as int,
                color,
                row_span(y as int, lo as int, x as int),
            ),
        decreases hi - x,
    {
        plot(canvas, stride, x as i64, y, color, width, height);
        proof {
            lemma_stamped_grows(
                old(canvas)@,
                stride as int,
                width as int,
                height as int,
                color,
                row_span(y as int, lo as int, x as int),
                point(x as int, y as int),
                row_span(y as int, lo as int, x + 1),
            );
        }
        x += 1;
    }
    proof {
        lemma_stamped_same(
            old(canvas)@,
            stride as int,
            width as int,
            height as int,
            color,
            row_span(y as int, lo as int, x as int),
            row_span(y as int, from as int, to as int),
        );
    }
}

/// Writes `color` at the pixels of column `x` whose row lies in `from..to`,
/// skipping what lies outside the drawable area.
pub fn draw_column_span(
    canvas: &mut [u8],
    stride: usize,
    x: i64,
    from: i64,
    to: i64,
    color: u32,
    width: usize,
    height: usize,
)
    requires
        holds_pixels(old(canvas)@.len() as int, stride as int, width as int, height as int),
    ensures
        final(canvas)@ == stamped(
            old(canvas)@,
            stride as int,
            width as int,
            height as int,
            color,
            column_span(x as int, from as int, to as int),
        ),
{
    let (lo, hi) = clamp_span(from, to, height);
    let mut y: u64 = lo;
    proof {
        lemma_stamped_nothing(
            canvas@,
            stride as int,
            width as int,
            height as int,
            color,
            column_span(x as int, lo as int, lo as int),
        );
    }
    while y < hi
        invariant
            lo <= y,
            y <= hi || y == lo,
            lo == (if from < 0 { 0 } else { from as int }),
            hi == (if to < 0 { 0 } else if to > height { height as int } else { to as int }),
            canvas@.len() == old(canvas)@.len(),
            holds_pixels(canvas@.len() as int, stride as int, width as int, height as int),
            canvas@ == stamped(
                old(canvas)@,
                stride as int,
                width as int,
                height as int,
                color,
                column_span(x as int, lo as int, y as int),
            ),
        decreases hi - y,
    {
        plot(canvas, stride, x, y as i64, color, width, height);
        proof {
            lemma_stamped_grows(
                old(canvas)@,
                stride as int,
                width as int,
                height as int,
                color,
                column_span(x as int, lo as int, y as int),
                point(x as int, y as int),
                column_span(x as int, lo as int, y + 1),
            );
        }
        y += 1;
    }
    proof {
        lemma_stamped_same(
            old(canvas)@,
            stride as int,
            width as int,
            height as int,
            color,
            column_span(x as int, lo as int, y as int),
            column_span(x as int, from as int, to as int),
        );
    }
}

/// Sets every byte of the buffer to zero, which makes every pixel fully
/// transparent.
pub fn clear(canvas: &mut [u8])
    ensures
        final(canvas)@ == Seq::new(old(canvas)@.len(), |i: int| 0u8),
{
    let len = canvas.len();
    let mut i: usize = 0;
    while i < len
        invariant
            i <= len,
            len == canvas@.len(),
            canvas@.len() == old(canvas)@.len(),
            forall|j: int| 0 <= j < i ==> canvas@[j] == 0u8,
        decreases len - i,
    {
        canvas[i] = 0;
        i += 1;
    }
    assert(canvas@ =~= Seq::new(old(canvas)@.len(), |i: int| 0u8));
}

} // verus!
