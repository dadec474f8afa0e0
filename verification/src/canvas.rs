//! Drawing into the overlay's pixels: four bytes each, with premultiplied colour.

use vstd::arithmetic::div_mod::{
    lemma_fundamental_div_mod, lemma_fundamental_div_mod_converse, lemma_mod_bound,
};
use vstd::arithmetic::mul::lemma_mul_is_commutative;
use vstd::endian::endianness;
use vstd::prelude::*;

use crate::overlay::{Frame, PADDING_X};
use crate::pcm::{le32, lemma_number_layout};

verus! {

/// The background's opacity.
pub const BACKGROUND_ALPHA: u8 = 0xCC;

pub const BACKGROUND_RED: u8 = 0x1E;

pub const BACKGROUND_GREEN: u8 = 0x1E;

pub const BACKGROUND_BLUE: u8 = 0x2E;

/// A colour with its opacity.
#[derive(Debug, Clone, Copy, PartialEq, Eq, Structural)]
pub struct Colour {
    pub r: u8,
    pub g: u8,
    pub b: u8,
    pub a: u8,
}

/// A channel scaled by the opacity.
pub open spec fn premultiplied(channel: u8, a: u8) -> int {
    channel * a / 255
}

/// A colour as one number: opacity, red, green and blue, from the highest byte
/// to the lowest, the last three scaled by the opacity.
pub open spec fn argb(c: Colour) -> int {
    c.a * 0x100_0000 + premultiplied(c.r, c.a) * 0x1_0000 + premultiplied(c.g, c.a) * 0x100
        + premultiplied(c.b, c.a)
}

/// The four bytes of a number from the highest to the lowest.
pub open spec fn be32(n: int) -> Seq<u8> {
    le32(n).reverse()
}

/// A scaled channel is never above the opacity.
pub proof fn lemma_premultiplied(channel: u8, a: u8)
    ensures
        0 <= premultiplied(channel, a) <= a,
        premultiplied(channel, 255) == channel,
        premultiplied(channel, 0) == 0,
{
    assert(0 <= channel * a <= 255 * a) by (nonlinear_arith)
        requires
            0 <= channel <= 255,
            0 <= a,
    ;
}

/// Scales a channel by the opacity.
fn premultiply(channel: u8, a: u8) -> (r: u32)
    ensures
        r == premultiplied(channel, a),
        r <= 255,
{
    proof {
        lemma_premultiplied(channel, a);
    }
    assert(channel * a <= 255 * 255) by (nonlinear_arith)
        requires
            channel <= 255,
            a <= 255,
    ;
    (channel as u32 * a as u32) / 255
}

/// Packs a colour into one number.
pub fn pack_argb(c: &Colour) -> (r: u32)
    ensures
        r == argb(*c),
{
    let a: u32 = c.a as u32;
    let pr: u32 = premultiply(c.r, c.a);
    let pg: u32 = premultiply(c.g, c.a);
    let pb: u32 = premultiply(c.b, c.a);
    assert((a << 24) | (pr << 16) | (pg << 8) | pb == a * 0x100_0000 + pr * 0x1_0000 + pg * 0x100
        + pb) by (bit_vector)
        requires
            a <= 255,
            pr <= 255,
            pg <= 255,
            pb <= 255,
    ;
    (a << 24) | (pr << 16) | (pg << 8) | pb
}

/// The four bytes of a number, from the lowest or from the highest.
pub open spec fn word_bytes(n: int, little_endian: bool) -> Seq<u8> {
    if little_endian {
        le32(n)
    } else {
        be32(n)
    }
}

/// Whether this machine stores the lowest byte of a number first.
pub open spec fn lowest_first() -> bool {
    endianness() is Little
}

/// `u32::to_ne_bytes`: the bytes of the number in the byte order of this machine,
/// from the lowest to the highest or the other way round.
#[verifier::external_body]
fn native_bytes(n: u32) -> (r: [u8; 4])
    ensures
        r@ == word_bytes(n as int, lowest_first()),
{
    n.to_ne_bytes()
}

/// Whether a machine that stores the number one as these bytes has the lowest
/// byte of a number first.
fn is_little_endian(one: &[u8; 4]) -> (r: bool)
    requires
        one@ == le32(1) || one@ == be32(1),
    ensures
        one@ == word_bytes(1, r),
        r == (one@ == le32(1)),
{
    one[0] == 1
}

/// The four bytes of a number, one by one.
proof fn lemma_le32_bytes(n: int)
    requires
        0 <= n < 0x1_0000_0000,
    ensures
        le32(n) == seq![
            (n % 0x100) as u8,
            (n / 0x100 % 0x100) as u8,
            (n / 0x1_0000 % 0x100) as u8,
            (n / 0x100_0000) as u8,
        ],
{
    assert(n % 0x1_0000 % 0x100 == n % 0x100);
    assert(n % 0x1_0000 / 0x100 % 0x100 == n / 0x100 % 0x100);
    assert(n / 0x1_0000 / 0x100 % 0x100 == n / 0x100_0000);
    let b = le32(n);
    assert(b.len() == 4);
    assert(b[0] == (n % 0x100) as u8);
    assert(b[1] == (n / 0x100 % 0x100) as u8);
    assert(b[2] == (n / 0x1_0000 % 0x100) as u8);
    assert(b[3] == (n / 0x100_0000) as u8);
    assert(b =~= seq![b[0], b[1], b[2], b[3]]);
}

/// The number one tells the two byte orders apart.
proof fn lemma_orders_differ()
    ensures
        le32(1) != be32(1),
{
    lemma_le32_bytes(1);
    assert(le32(1)[0] == 1 && be32(1)[0] == 0);
}

/// The bytes of a number in the given order.
fn ordered_bytes(n: u32, little_endian: bool) -> (r: [u8; 4])
    ensures
        r@ == word_bytes(n as int, little_endian),
{
    let b0: u8 = (n % 0x100) as u8;
    let b1: u8 = (n / 0x100 % 0x100) as u8;
    let b2: u8 = (n / 0x1_0000 % 0x100) as u8;
    let b3: u8 = (n / 0x100_0000) as u8;
    proof {
        lemma_le32_bytes(n as int);
    }
    assert(le32(n as int) == seq![b0, b1, b2, b3]);
    if little_endian {
        let r: [u8; 4] = [b0, b1, b2, b3];
        assert(r@ =~= seq![b0, b1, b2, b3]);
        r
    } else {
        let r: [u8; 4] = [b3, b2, b1, b0];
        assert(r@ =~= seq![b0, b1, b2, b3].reverse());
        r
    }
}

/// The canvas with every whole pixel set to the bytes of `pixel`.
pub open spec fn filled(canvas: Seq<u8>, pixel: Seq<u8>) -> Seq<u8> {
    Seq::new(
        canvas.len(),
        |i: int|
            if 4 * (i / 4) + 4 <= canvas.len() {
                pixel[i % 4]
            } else {
                canvas[i]
            },
    )
}

/// Makes every byte of the canvas zero: nothing is shown.
pub fn clear(canvas: &mut [u8])
    ensures
        final(canvas)@ == Seq::new(old(canvas)@.len(), |i: int| 0u8),
{
    let n: usize = canvas.len();
    let mut i: usize = 0;
    while i < n
        invariant
            i <= n,
            n == canvas@.len(),
            n == old(canvas)@.len(),
            forall|j: int| 0 <= j < i ==> canvas@[j] == 0,
        decreases n - i,
    {
        canvas[i] = 0;
        i = i + 1;
    }
    assert(canvas@ =~= Seq::new(old(canvas)@.len(), |i: int| 0u8));
}

/// Sets every whole pixel of the canvas.
pub fn fill(canvas: &mut [u8], pixel: &[u8; 4])
    ensures
        final(canvas)@ == filled(old(canvas)@, pixel@),
{
    let ghost before = canvas@;
    let n: usize = canvas.len();
    let mut i: usize = 0;
    while n - i >= 4
        invariant
            i <= n,
            i % 4 == 0,
            n == canvas@.len(),
            n == before.len(),
            forall|j: int| 0 <= j < i ==> canvas@[j] == pixel@[j % 4],
            forall|j: int| i <= j < n ==> canvas@[j] == before[j],
        decreases n - i,
    {
        canvas[i] = pixel[0];
        canvas[i + 1] = pixel[1];
        canvas[i + 2] = pixel[2];
        canvas[i + 3] = pixel[3];
        i = i + 4;
    }
    assert(canvas@ =~= filled(before, pixel@));
}

/// The colour of the background.
pub open spec fn background() -> Colour {
    Colour {
        r: BACKGROUND_RED,
        g: BACKGROUND_GREEN,
        b: BACKGROUND_BLUE,
        a: BACKGROUND_ALPHA,
    }
}

/// The canvas before any text: the background where the bar is shown, and nothing
/// where it is not.
pub open spec fn prepared(canvas: Seq<u8>, visible: bool, little_endian: bool) -> Seq<u8> {
    if visible {
        filled(canvas, word_bytes(argb(background()), little_endian))
    } else {
        Seq::new(canvas.len(), |i: int| 0u8)
    }
}

/// Prepares the canvas for text.
pub fn paint_background(canvas: &mut [u8], visible: bool, little_endian: bool)
    ensures
        final(canvas)@ == prepared(old(canvas)@, visible, little_endian),
{
    if !visible {
        clear(canvas);
    } else {
        let colour = Colour {
            r: BACKGROUND_RED,
            g: BACKGROUND_GREEN,
            b: BACKGROUND_BLUE,
            a: BACKGROUND_ALPHA,
        };
        let pixel: [u8; 4] = ordered_bytes(pack_argb(&colour), little_endian);
        fill(canvas, &pixel);
    }
}

/// A rectangle of text, in one colour, as the text layout gives it: its corner
/// counts from the corner of the text.
#[derive(Debug, Clone, Copy, PartialEq, Eq, Structural)]
pub struct Span {
    pub x: i32,
    pub y: i32,
    pub w: u32,
    pub h: u32,
    pub colour: Colour,
}

impl Span {
    /// The first column.
    pub open spec fn left(self) -> int {
        self.x + PADDING_X
    }

    /// The column behind the last one. The width is taken as a signed number.
    pub open spec fn right(self) -> int {
        self.left() + self.w as i32
    }

    /// The first row.
    pub open spec fn top(self, frame: Frame) -> int {
        self.y + frame.pad_y()
    }

    /// The row behind the last one. The height is taken as a signed number.
    pub open spec fn bottom(self, frame: Frame) -> int {
        self.top(frame) + self.h as i32
    }

    /// Whether a row of the rectangle lies in the frame.
    pub open spec fn has_row(self, frame: Frame) -> bool {
        &&& self.top(frame) < self.bottom(frame)
        &&& self.top(frame) < frame.height
        &&& 0 < self.bottom(frame)
    }

    /// Whether the edges of the rectangle that drawing it takes are signed 32-bit
    /// numbers: the left and the upper one in any case, the lower one unless it is
    /// transparent, and the right one where it then has a row in the frame.
    pub open spec fn in_range(self, frame: Frame) -> bool {
        &&& i32::MIN <= self.left() <= i32::MAX
        &&& i32::MIN <= self.top(frame) <= i32::MAX
        &&& self.colour.a > 0 ==> i32::MIN <= self.bottom(frame) <= i32::MAX
        &&& self.colour.a > 0 && self.has_row(frame) ==> i32::MIN <= self.right() <= i32::MAX
    }

    /// Whether the pixel in this row and column lies in the rectangle and in the
    /// frame.
    pub open spec fn covers(self, frame: Frame, row: int, col: int) -> bool {
        &&& self.top(frame) <= row < self.bottom(frame)
        &&& 0 <= row < frame.height
        &&& self.left() <= col < self.right()
        &&& 0 <= col < frame.width
    }

    /// Whether the edges of the rectangle that drawing it takes are signed 32-bit
    /// numbers.
    pub fn fits(&self, frame: &Frame) -> (r: bool)
        requires
            frame.wf(),
        ensures
            r == self.in_range(*frame),
    {
        let left: i64 = self.x as i64 + PADDING_X as i64;
        let right: i64 = left + self.w as i32 as i64;
        let top: i64 = self.y as i64 + frame.text_top() as i64;
        let bottom: i64 = top + self.h as i32 as i64;
        let low: i64 = i32::MIN as i64;
        let high: i64 = i32::MAX as i64;
        if left < low || high < left || top < low || high < top {
            return false;
        }
        if self.colour.a == 0 {
            return true;
        }
        let shown: bool = top < bottom && top < frame.height as i64 && 0 < bottom;
        low <= bottom && bottom <= high && (!shown || (low <= right && right <= high))
    }
}

/// A byte of the canvas with a byte of a colour laid over it.
pub open spec fn mixed(under: u8, over: u8, a: u8) -> u8 {
    ((over * a + under * (255 - a)) / 255) as u8
}

/// What mixing gives: the canvas where the colour is transparent, the colour
/// where it is opaque, and else something between the two.
pub proof fn lemma_mixed(under: u8, over: u8, a: u8)
    ensures
        mixed(under, over, 0) == under,
        mixed(under, over, 255) == over,
        under <= over ==> under <= mixed(under, over, a) <= over,
        over <= under ==> over <= mixed(under, over, a) <= under,
        0 <= (over * a + under * (255 - a)) / 255 <= 255,
{
    let sum = over * a + under * (255 - a);
    assert(over * 255u8 + under * (255 - 255u8) == over * 255) by (nonlinear_arith);
    assert(over * 0u8 + under * (255 - 0u8) == under * 255) by (nonlinear_arith);
    if under <= over {
        assert(under * 255 <= sum <= over * 255) by (nonlinear_arith)
            requires
                sum == over * a + under * (255 - a),
                0 <= under <= over,
                0 <= a <= 255,
        ;
    } else {
        assert(over * 255 <= sum <= under * 255) by (nonlinear_arith)
            requires
                sum == over * a + under * (255 - a),
                0 <= over <= under,
                0 <= a <= 255,
        ;
    }
}

/// Whether byte `i` belongs to a whole pixel of the canvas that the rectangle
/// covers. Pixels stand row by row.
pub open spec fn touched(len: nat, frame: Frame, span: Span, i: int) -> bool {
    &&& 4 * (i / 4) + 4 <= len
    &&& span.covers(frame, (i / 4) / frame.width as int, (i / 4) % frame.width as int)
}

/// The canvas with a rectangle laid over it whose pixels have the bytes `pixel`.
pub open spec fn painted(canvas: Seq<u8>, frame: Frame, span: Span, pixel: Seq<u8>) -> Seq<u8> {
    Seq::new(
        canvas.len(),
        |i: int|
            if touched(canvas.len(), frame, span, i) {
                mixed(canvas[i], pixel[i % 4], span.colour.a)
            } else {
                canvas[i]
            },
    )
}

/// The canvas with the part of the rectangle laid over it that comes before this
/// row and column.
spec fn partly_painted(
    canvas: Seq<u8>,
    frame: Frame,
    span: Span,
    pixel: Seq<u8>,
    row: int,
    col: int,
) -> Seq<u8> {
    Seq::new(
        canvas.len(),
        |i: int|
            {
                let r = (i / 4) / frame.width as int;
                let c = (i / 4) % frame.width as int;
                if touched(canvas.len(), frame, span, i) && (r < row || (r == row && c < col)) {
                    mixed(canvas[i], pixel[i % 4], span.colour.a)
                } else {
                    canvas[i]
                }
            },
    )
}

/// Where a pixel stands.
proof fn lemma_pixel_place(frame: Frame, row: int, col: int)
    requires
        frame.wf(),
        0 <= row < frame.height,
        0 <= col < frame.width,
    ensures
        (row * frame.width + col) / frame.width as int == row,
        (row * frame.width + col) % frame.width as int == col,
        0 <= row * frame.width + col < frame.width * frame.height,
{
    lemma_fundamental_div_mod_converse(row * frame.width + col, frame.width as int, row, col);
    assert(0 <= row * frame.width + col < frame.width * frame.height) by (nonlinear_arith)
        requires
            0 <= row < frame.height,
            0 <= col < frame.width,
    ;
}

/// Lays one byte of a colour over one byte of the canvas.
fn mix(under: u8, over: u8, a: u8) -> (r: u8)
    ensures
        r == mixed(under, over, a),
{
    let inv: u32 = 255 - a as u32;
    proof {
        lemma_mixed(under, over, a);
    }
    assert(over * a <= 255 * 255 && under * inv <= 255 * 255) by (nonlinear_arith)
        requires
            over <= 255,
            under <= 255,
            a <= 255,
            inv <= 255,
    ;
    ((over as u32 * a as u32 + under as u32 * inv) / 255) as u8
}

/// Lays one pixel over the canvas.
fn paint_pixel(
    canvas: &mut [u8],
    frame: &Frame,
    span: &Span,
    pixel: &[u8; 4],
    row: i32,
    col: i32,
    before: Ghost<Seq<u8>>,
)
    requires
        frame.wf(),
        span.covers(*frame, row as int, col as int),
        old(canvas)@ == partly_painted(before@, *frame, *span, pixel@, row as int, col as int),
    ensures
        final(canvas)@ == partly_painted(before@, *frame, *span, pixel@, row as int, col + 1),
{
    proof {
        lemma_pixel_place(*frame, row as int, col as int);
    }
    let a: u8 = span.colour.a;
    let p: i32 = row * frame.width + col;
    let ghost from = canvas@;
    let n: usize = canvas.len();
    if (p as usize) < n / 4 {
        let off: usize = p as usize * 4;
        if a == 255 {
            canvas[off] = pixel[0];
            canvas[off + 1] = pixel[1];
            canvas[off + 2] = pixel[2];
            canvas[off + 3] = pixel[3];
            proof {
                lemma_mixed(before@[off as int], pixel@[0], a);
                lemma_mixed(before@[off + 1], pixel@[1], a);
                lemma_mixed(before@[off + 2], pixel@[2], a);
                lemma_mixed(before@[off + 3], pixel@[3], a);
            }
        } else {
            let mut k: usize = 0;
            while k < 4
                invariant
                    k <= 4,
                    off + 4 <= n,
                    n == canvas@.len(),
                    n == from.len(),
                    a == span.colour.a,
                    forall|i: int|
                        off <= i < off + k ==> canvas@[i] == mixed(from[i], pixel@[i - off], a),
                    forall|i: int|
                        0 <= i < from.len() && !(off <= i < off + k) ==> canvas@[i] == from[i],
                decreases 4 - k,
            {
                canvas[off + k] = mix(canvas[off + k], pixel[k], a);
                k = k + 1;
            }
        }
    }
    proof {
        let after = partly_painted(before@, *frame, *span, pixel@, row as int, col + 1);
        assert forall|i: int| 0 <= i < from.len() implies canvas@[i] == #[trigger] after[i] by {
            let q = i / 4;
            let r = q / frame.width as int;
            let c = q % frame.width as int;
            if q == p {
                assert(r == row && c == col);
                assert(from[i] == before@[i]);
                if p < n as int / 4 {
                    assert(touched(from.len(), *frame, *span, i));
                    assert(i - 4 * p == i % 4);
                    assert(canvas@[i] == mixed(from[i], pixel@[i % 4], a));
                }
            } else {
                assert(!(4 * p <= i < 4 * p + 4));
                assert(q == r * frame.width + c) by {
                    lemma_fundamental_div_mod(q, frame.width as int);
                    lemma_mul_is_commutative(r, frame.width as int);
                }
                assert(!(r == row && c == col));
                assert(canvas@[i] == from[i]);
            }
        }
        assert(canvas@ =~= after);
    }
}

/// The greater of two numbers.
fn larger(a: i32, b: i32) -> (r: i32)
    ensures
        r == if a > b {
            a
        } else {
            b
        },
{
    if a > b {
        a
    } else {
        b
    }
}

/// The smaller of two numbers.
fn smaller(a: i32, b: i32) -> (r: i32)
    ensures
        r == if a < b {
            a
        } else {
            b
        },
{
    if a < b {
        a
    } else {
        b
    }
}

/// Lays one row of a rectangle over the canvas.
fn paint_row(
    canvas: &mut [u8],
    frame: &Frame,
    span: &Span,
    pixel: &[u8; 4],
    row: i32,
    before: Ghost<Seq<u8>>,
)
    requires
        frame.wf(),
        span.in_range(*frame),
        span.colour.a > 0,
        0 <= row < frame.height,
        span.top(*frame) <= row < span.bottom(*frame),
        old(canvas)@ == partly_painted(before@, *frame, *span, pixel@, row as int, 0),
    ensures
        final(canvas)@ == partly_painted(before@, *frame, *span, pixel@, row + 1, 0),
{
    let left: i32 = span.x + PADDING_X;
    let right: i32 = left + span.w as i32;
    let first: i32 = larger(left, 0);
    let end: i32 = smaller(right, frame.width);
    let mut col: i32 = first;
    assert(canvas@ =~= partly_painted(before@, *frame, *span, pixel@, row as int, first as int));
    while col < end
        invariant
            frame.wf(),
            0 <= row < frame.height,
            span.top(*frame) <= row < span.bottom(*frame),
            left == span.left(),
            right == span.right(),
            0 <= first <= col,
            left <= first,
            end <= right,
            end <= frame.width,
            canvas@ == partly_painted(before@, *frame, *span, pixel@, row as int, col as int),
        decreases end - col,
    {
        paint_pixel(canvas, frame, span, pixel, row, col, before);
        col = col + 1;
    }
    proof {
        let now = partly_painted(before@, *frame, *span, pixel@, row as int, col as int);
        let next = partly_painted(before@, *frame, *span, pixel@, row + 1, 0);
        assert forall|i: int| 0 <= i < now.len() implies #[trigger] now[i] == next[i] by {
            let q = i / 4;
            let c = q % frame.width as int;
            assert(0 <= c) by {
                lemma_fundamental_div_mod(q, frame.width as int);
                lemma_mod_bound(q, frame.width as int);
            }
        }
        assert(now =~= next);
    }
}

/// Lays a rectangle over the canvas whose pixels have the bytes `pixel`.
pub fn paint_span(canvas: &mut [u8], frame: &Frame, span: &Span, pixel: &[u8; 4])
    requires
        frame.wf(),
        span.in_range(*frame),
    ensures
        final(canvas)@ == painted(old(canvas)@, *frame, *span, pixel@),
{
    let ghost before = canvas@;
    if span.colour.a == 0 {
        assert forall|i: int| 0 <= i < before.len() implies #[trigger] painted(
            before,
            *frame,
            *span,
            pixel@,
        )[i] == before[i] by {
            lemma_mixed(before[i], pixel@[i % 4], 0);
        }
        assert(before =~= painted(before, *frame, *span, pixel@));
        return ;
    }
    let top: i32 = span.y + frame.text_top();
    let bottom: i32 = top + span.h as i32;
    let first: i32 = larger(top, 0);
    let end: i32 = smaller(bottom, frame.height);
    let mut row: i32 = first;
    assert(canvas@ =~= partly_painted(before, *frame, *span, pixel@, first as int, 0)) by {
        let none = partly_painted(before, *frame, *span, pixel@, first as int, 0);
        assert forall|i: int| 0 <= i < before.len() implies #[trigger] none[i] == before[i] by {
            let q = i / 4;
            lemma_mod_bound(q, frame.width as int);
        }
    }
    while row < end
        invariant
            frame.wf(),
            span.in_range(*frame),
            span.colour.a > 0,
            top == span.top(*frame),
            bottom == span.bottom(*frame),
            0 <= first <= row,
            top <= first,
            end <= bottom,
            end <= frame.height,
            canvas@ == partly_painted(before, *frame, *span, pixel@, row as int, 0),
        decreases end - row,
    {
        paint_row(canvas, frame, span, pixel, row, Ghost(before));
        row = row + 1;
    }
    assert(canvas@ =~= painted(before, *frame, *span, pixel@));
}

/// The canvas with a rectangle of text laid over it.
pub open spec fn drawn(canvas: Seq<u8>, frame: Frame, span: Span, little_endian: bool) -> Seq<u8> {
    painted(canvas, frame, span, word_bytes(argb(span.colour), little_endian))
}

/// Lays a rectangle of text over the canvas, in its colour.
pub fn draw_span(canvas: &mut [u8], frame: &Frame, span: &Span, little_endian: bool)
    requires
        frame.wf(),
        span.in_range(*frame),
    ensures
        final(canvas)@ == drawn(old(canvas)@, *frame, *span, little_endian),
{
    let pixel: [u8; 4] = ordered_bytes(pack_argb(&span.colour), little_endian);
    paint_span(canvas, frame, span, &pixel);
}

/// The canvas with rectangles of text laid over it, one after the other.
pub open spec fn all_drawn(
    canvas: Seq<u8>,
    frame: Frame,
    spans: Seq<Span>,
    little_endian: bool,
) -> Seq<u8>
    decreases spans.len(),
{
    if spans.len() == 0 {
        canvas
    } else {
        drawn(
            all_drawn(canvas, frame, spans.drop_last(), little_endian),
            frame,
            spans.last(),
            little_endian,
        )
    }
}

/// What the canvas holds once the bar is drawn: its background with the text over
/// it, or nothing at all where the bar is hidden.
pub open spec fn rendered(
    canvas: Seq<u8>,
    frame: Frame,
    visible: bool,
    spans: Seq<Span>,
    little_endian: bool,
) -> Seq<u8> {
    let ground = prepared(canvas, visible, little_endian);
    if visible {
        all_drawn(ground, frame, spans, little_endian)
    } else {
        ground
    }
}

/// Draws the bar: its background, and over it the text. All pixels have their
/// bytes in the order of a machine that stores the number one as `one`. A hidden
/// bar is blank, whatever text it has.
pub fn render_for(canvas: &mut [u8], frame: &Frame, visible: bool, spans: &[Span], one: &[u8; 4])
    requires
        frame.wf(),
        visible ==> forall|i: int|
            0 <= i < spans@.len() ==> (#[trigger] spans@[i]).in_range(*frame),
        one@ == le32(1) || one@ == be32(1),
    ensures
        final(canvas)@ == rendered(old(canvas)@, *frame, visible, spans@, one@ == le32(1)),
        !visible ==> final(canvas)@ == Seq::new(old(canvas)@.len(), |i: int| 0u8),
{
    let little_endian: bool = is_little_endian(one);
    let ghost before = canvas@;
    paint_background(canvas, visible, little_endian);
    if !visible {
        return ;
    }
    let ghost ground = canvas@;
    let mut i: usize = 0;
    while i < spans.len()
        invariant
            i <= spans@.len(),
            frame.wf(),
            forall|j: int| 0 <= j < spans@.len() ==> (#[trigger] spans@[j]).in_range(*frame),
            canvas@ == all_drawn(ground, *frame, spans@.take(i as int), little_endian),
        decreases spans@.len() - i,
    {
        assert(spans@.take(i + 1).drop_last() =~= spans@.take(i as int));
        assert(spans@.take(i + 1).last() == spans@[i as int]);
        draw_span(canvas, frame, &spans[i], little_endian);
        i = i + 1;
    }
    assert(spans@.take(i as int) =~= spans@);
    assert(canvas@ == rendered(before, *frame, visible, spans@, little_endian));
}

/// Draws the bar for this machine: `render_for`, with the bytes of the number one
/// as this machine stores them.
pub fn render(canvas: &mut [u8], frame: &Frame, visible: bool, spans: &[Span])
    requires
        frame.wf(),
        visible ==> forall|i: int|
            0 <= i < spans@.len() ==> (#[trigger] spans@[i]).in_range(*frame),
    ensures
        final(canvas)@ == rendered(old(canvas)@, *frame, visible, spans@, lowest_first()),
        !visible ==> final(canvas)@ == Seq::new(old(canvas)@.len(), |i: int| 0u8),
{
    let one: [u8; 4] = native_bytes(1);
    proof {
        lemma_orders_differ();
    }
    render_for(canvas, frame, visible, spans, &one);
}

/// Drawing the bar leaves nothing of what was on the canvas before: on a canvas
/// of whole pixels the outcome does not depend on it.
pub proof fn lemma_render_starts_afresh(
    one: Seq<u8>,
    other: Seq<u8>,
    frame: Frame,
    visible: bool,
    spans: Seq<Span>,
    little_endian: bool,
)
    requires
        one.len() == other.len(),
        one.len() % 4 == 0,
    ensures
        rendered(one, frame, visible, spans, little_endian) == rendered(
            other,
            frame,
            visible,
            spans,
            little_endian,
        ),
{
    assert(prepared(one, visible, little_endian) =~= prepared(other, visible, little_endian));
}

/// Text stays inside the bar: a byte that no rectangle touches keeps the
/// background.
pub proof fn lemma_text_stays_inside(
    canvas: Seq<u8>,
    frame: Frame,
    spans: Seq<Span>,
    little_endian: bool,
    i: int,
)
    requires
        0 <= i < canvas.len(),
        forall|j: int| 0 <= j < spans.len() ==> !touched(
            canvas.len(),
            frame,
            #[trigger] spans[j],
            i,
        ),
    ensures
        all_drawn(canvas, frame, spans, little_endian).len() == canvas.len(),
        all_drawn(canvas, frame, spans, little_endian)[i] == canvas[i],
    decreases spans.len(),
{
    if spans.len() > 0 {
        let short = spans.drop_last();
        assert forall|j: int| 0 <= j < short.len() implies !touched(
            canvas.len(),
            frame,
            #[trigger] short[j],
            i,
        ) by {
            assert(short[j] == spans[j]);
        }
        assert(!touched(canvas.len(), frame, spans[spans.len() - 1], i));
        lemma_text_stays_inside(canvas, frame, short, little_endian, i);
    }
}

/// Nothing outside the rectangle and the frame changes; a transparent rectangle
/// changes nothing at all, and an opaque one leaves nothing of what it covers.
pub proof fn lemma_painted(canvas: Seq<u8>, frame: Frame, span: Span, pixel: Seq<u8>, i: int)
    requires
        0 <= i < canvas.len(),
    ensures
        painted(canvas, frame, span, pixel).len() == canvas.len(),
        !touched(canvas.len(), frame, span, i) ==> painted(canvas, frame, span, pixel)[i]
            == canvas[i],
        span.colour.a == 0 ==> painted(canvas, frame, span, pixel)[i] == canvas[i],
        span.colour.a == 255 && touched(canvas.len(), frame, span, i) ==> painted(
            canvas,
            frame,
            span,
            pixel,
        )[i] == pixel[i % 4],
{
    lemma_mixed(canvas[i], pixel[i % 4], span.colour.a);
}

/// The opacity of the pixel that byte `i` belongs to.
pub open spec fn opacity_at(canvas: Seq<u8>, little_endian: bool, i: int) -> u8 {
    canvas[4 * (i / 4) + if little_endian {
        3int
    } else {
        0int
    }]
}

/// Whether no channel of a whole pixel is above the opacity of the pixel.
pub open spec fn scaled(canvas: Seq<u8>, little_endian: bool) -> bool {
    forall|i: int|
        0 <= i && 4 * (i / 4) + 4 <= canvas.len() ==> #[trigger] canvas[i] <= opacity_at(
            canvas,
            little_endian,
            i,
        )
}

/// The bytes of a colour: its opacity and its scaled channels, none of which is
/// above the opacity.
proof fn lemma_colour_bytes(c: Colour)
    ensures
        le32(argb(c)) == seq![
            premultiplied(c.b, c.a) as u8,
            premultiplied(c.g, c.a) as u8,
            premultiplied(c.r, c.a) as u8,
            c.a,
        ],
        0 <= premultiplied(c.r, c.a) <= c.a,
        0 <= premultiplied(c.g, c.a) <= c.a,
        0 <= premultiplied(c.b, c.a) <= c.a,
{
    lemma_premultiplied(c.r, c.a);
    lemma_premultiplied(c.g, c.a);
    lemma_premultiplied(c.b, c.a);
    let n = argb(c);
    let low = premultiplied(c.g, c.a) * 0x100 + premultiplied(c.b, c.a);
    let high = c.a * 0x100 + premultiplied(c.r, c.a);
    assert(n % 0x1_0000 == low && n / 0x1_0000 == high);
    assert(le32(n) =~= seq![
        premultiplied(c.b, c.a) as u8,
        premultiplied(c.g, c.a) as u8,
        premultiplied(c.r, c.a) as u8,
        c.a,
    ]);
}

/// The bytes of a colour in either order are scaled.
proof fn lemma_word_is_scaled(c: Colour, little_endian: bool)
    ensures
        word_bytes(argb(c), little_endian).len() == 4,
        scaled(word_bytes(argb(c), little_endian), little_endian),
{
    lemma_colour_bytes(c);
}

/// Mixing keeps order.
proof fn lemma_mixed_is_monotone(under: u8, over: u8, more_under: u8, more_over: u8, a: u8)
    requires
        under <= more_under,
        over <= more_over,
    ensures
        mixed(under, over, a) <= mixed(more_under, more_over, a),
{
    lemma_mixed(under, over, a);
    lemma_mixed(more_under, more_over, a);
    assert(over * a + under * (255 - a) <= more_over * a + more_under * (255 - a))
        by (nonlinear_arith)
        requires
            under <= more_under,
            over <= more_over,
            0 <= a <= 255,
    ;
}

/// Laying a colour over a scaled canvas leaves it scaled.
proof fn lemma_painted_is_scaled(
    canvas: Seq<u8>,
    frame: Frame,
    span: Span,
    pixel: Seq<u8>,
    little_endian: bool,
)
    requires
        scaled(canvas, little_endian),
        pixel.len() == 4,
        scaled(pixel, little_endian),
    ensures
        scaled(painted(canvas, frame, span, pixel), little_endian),
{
    let after = painted(canvas, frame, span, pixel);
    assert forall|i: int| 0 <= i && 4 * (i / 4) + 4 <= after.len() implies #[trigger] after[i]
        <= opacity_at(after, little_endian, i) by {
        let k: int = if little_endian {
            3
        } else {
            0
        };
        let o = 4 * (i / 4) + k;
        assert(o / 4 == i / 4 && o % 4 == k);
        assert(canvas[i] <= opacity_at(canvas, little_endian, i));
        if touched(canvas.len(), frame, span, i) {
            assert(touched(canvas.len(), frame, span, o));
            let m = i % 4;
            assert(m / 4 == 0);
            assert(pixel[m] <= opacity_at(pixel, little_endian, m));
            lemma_mixed_is_monotone(canvas[i], pixel[m], canvas[o], pixel[k], span.colour.a);
        } else {
            assert(!touched(canvas.len(), frame, span, o));
        }
    }
}

/// Laying rectangles of text over a scaled canvas leaves it scaled.
proof fn lemma_drawn_is_scaled(
    canvas: Seq<u8>,
    frame: Frame,
    spans: Seq<Span>,
    little_endian: bool,
)
    requires
        scaled(canvas, little_endian),
    ensures
        scaled(all_drawn(canvas, frame, spans, little_endian), little_endian),
    decreases spans.len(),
{
    if spans.len() > 0 {
        let short = spans.drop_last();
        lemma_drawn_is_scaled(canvas, frame, short, little_endian);
        lemma_word_is_scaled(spans.last().colour, little_endian);
        lemma_painted_is_scaled(
            all_drawn(canvas, frame, short, little_endian),
            frame,
            spans.last(),
            word_bytes(argb(spans.last().colour), little_endian),
            little_endian,
        );
    }
}

/// A canvas that is prepared for text is scaled.
proof fn lemma_prepared_is_scaled(canvas: Seq<u8>, visible: bool, little_endian: bool)
    ensures
        scaled(prepared(canvas, visible, little_endian), little_endian),
{
    let ground = prepared(canvas, visible, little_endian);
    let pixel = word_bytes(argb(background()), little_endian);
    lemma_word_is_scaled(background(), little_endian);
    let k: int = if little_endian {
        3
    } else {
        0
    };
    assert forall|i: int| 0 <= i && 4 * (i / 4) + 4 <= ground.len() implies #[trigger] ground[i]
        <= opacity_at(ground, little_endian, i) by {
        let o = 4 * (i / 4) + k;
        assert(o / 4 == i / 4 && o % 4 == k);
        assert(0 <= i < ground.len() && 0 <= o < ground.len());
        if visible {
            let m = i % 4;
            assert(m / 4 == 0);
            assert(pixel[m] <= opacity_at(pixel, little_endian, m));
            assert(ground[i] == pixel[m] && ground[o] == pixel[k]);
        } else {
            assert(ground[i] == 0);
        }
    }
}

/// Colours stay premultiplied: once the bar is drawn, whatever its text, no
/// channel of a pixel is above the opacity of the pixel.
pub proof fn lemma_no_channel_above_opacity(
    canvas: Seq<u8>,
    frame: Frame,
    visible: bool,
    spans: Seq<Span>,
    little_endian: bool,
)
    ensures
        scaled(rendered(canvas, frame, visible, spans, little_endian), little_endian),
{
    lemma_prepared_is_scaled(canvas, visible, little_endian);
    if visible {
        lemma_drawn_is_scaled(
            prepared(canvas, visible, little_endian),
            frame,
            spans,
            little_endian,
        );
    }
}

/// A scaled channel is the channel times the opacity in units of 255, rounded
/// down; so a full channel is as much as the opacity.
pub proof fn lemma_premultiplied_exactly(channel: u8, a: u8)
    ensures
        255 * premultiplied(channel, a) <= channel * a < 255 * premultiplied(channel, a) + 255,
        premultiplied(255, a) == a,
{
    let product = channel * a;
    assert(255 * (product / 255) <= product < 255 * (product / 255) + 255);
    assert(255u8 * a / 255 == a);
}

/// The bytes of a packed colour from the lowest to the highest: blue, green, red,
/// each scaled by the opacity and rounded down, and the opacity itself.
pub proof fn lemma_packed_colour(c: Colour)
    ensures
        0 <= argb(c) < 0x1_0000_0000,
        ({
            let bytes = le32(argb(c));
            &&& bytes.len() == 4
            &&& 255 * bytes[0] <= c.b * c.a < 255 * bytes[0] + 255
            &&& 255 * bytes[1] <= c.g * c.a < 255 * bytes[1] + 255
            &&& 255 * bytes[2] <= c.r * c.a < 255 * bytes[2] + 255
            &&& bytes[3] == c.a
        }),
{
    lemma_colour_bytes(c);
    lemma_premultiplied_exactly(c.r, c.a);
    lemma_premultiplied_exactly(c.g, c.a);
    lemma_premultiplied_exactly(c.b, c.a);
}

/// White at any opacity is packed as four bytes that all are the opacity.
pub proof fn lemma_packed_white(a: u8, little_endian: bool, k: int)
    requires
        0 <= k < 4,
    ensures
        word_bytes(argb(Colour { r: 255, g: 255, b: 255, a }), little_endian)[k] == a,
{
    let white = Colour { r: 255, g: 255, b: 255, a };
    lemma_colour_bytes(white);
    lemma_premultiplied_exactly(255, a);
}

/// The two byte orders: in the one the bytes of a number count 1, 256, 65536 and
/// 16777216 from first to last, in the other from last to first.
pub proof fn lemma_byte_orders(n: int, k: int)
    requires
        0 <= n < 0x1_0000_0000,
        0 <= k < 4,
    ensures
        ({
            let low = word_bytes(n, true);
            &&& low.len() == 4
            &&& low[0] + 0x100 * low[1] + 0x1_0000 * low[2] + 0x100_0000 * low[3] == n
            &&& word_bytes(n, false).len() == 4
            &&& word_bytes(n, false)[k] == low[3 - k]
        }),
        lowest_first() <==> endianness() is Little,
{
    lemma_number_layout(n);
}

/// A mixed byte is the colour weighted by its opacity and what is under it
/// weighted by the rest, in units of 255, rounded down.
pub proof fn lemma_mixed_exactly(under: u8, over: u8, a: u8)
    ensures
        255 * mixed(under, over, a) <= over * a + under * (255 - a) < 255 * mixed(under, over, a)
            + 255,
{
    lemma_mixed(under, over, a);
    let sum = over * a + under * (255 - a);
    assert(255 * (sum / 255) <= sum < 255 * (sum / 255) + 255);
}

/// Filling sets the four bytes of each whole pixel and leaves what is behind the
/// last one.
pub proof fn lemma_filled(canvas: Seq<u8>, pixel: Seq<u8>, p: int, k: int)
    requires
        0 <= p,
        0 <= k < 4,
        4 * p + k < canvas.len(),
    ensures
        filled(canvas, pixel).len() == canvas.len(),
        4 * p + 4 <= canvas.len() ==> filled(canvas, pixel)[4 * p + k] == pixel[k],
        4 * p + 4 > canvas.len() ==> filled(canvas, pixel)[4 * p + k] == canvas[4 * p + k],
{
    assert((4 * p + k) / 4 == p && (4 * p + k) % 4 == k);
}

/// What laying a rectangle over the canvas does to one byte of one pixel: where
/// the pixel lies in the rectangle, which stands 16 columns to the right and as
/// many rows down as there is space above the text, the byte of the colour is
/// mixed in; everywhere else the byte stays.
pub proof fn lemma_painted_pixel(
    canvas: Seq<u8>,
    frame: Frame,
    span: Span,
    pixel: Seq<u8>,
    row: int,
    col: int,
    k: int,
)
    requires
        frame.wf(),
        0 <= row < frame.height,
        0 <= col < frame.width,
        0 <= k < 4,
        4 * (row * frame.width + col) + 4 <= canvas.len(),
    ensures
        ({
            let at = 4 * (row * frame.width + col) + k;
            let left = span.x + 16;
            let top = span.y + (frame.height - 20) / 2;
            let a = span.colour.a as int;
            let under = canvas[at] as int;
            let now = painted(canvas, frame, span, pixel)[at] as int;
            if left <= col < left + span.w as i32 && top <= row < top + span.h as i32 {
                255 * now <= pixel[k] * a + under * (255 - a) < 255 * now + 255
            } else {
                now == under
            }
        }),
{
    let p = row * frame.width + col;
    let at = 4 * p + k;
    lemma_pixel_place(frame, row, col);
    assert(at / 4 == p && at % 4 == k);
    lemma_mixed_exactly(canvas[at], pixel[k], span.colour.a);
}

/// Laying a rectangle over the canvas changes nothing behind the frame, nothing
/// behind the last whole pixel, and not the length.
pub proof fn lemma_painted_inside_only(
    canvas: Seq<u8>,
    frame: Frame,
    span: Span,
    pixel: Seq<u8>,
    i: int,
)
    requires
        frame.wf(),
        0 <= i < canvas.len(),
        i >= 4 * (frame.width * frame.height) || i >= 4 * (canvas.len() / 4),
    ensures
        painted(canvas, frame, span, pixel).len() == canvas.len(),
        painted(canvas, frame, span, pixel)[i] == canvas[i],
{
    let q = i / 4;
    let w = frame.width as int;
    if i >= 4 * (frame.width * frame.height) {
        assert(q >= w * frame.height);
        lemma_fundamental_div_mod(q, w);
        lemma_mod_bound(q, w);
        assert(q / w >= frame.height) by (nonlinear_arith)
            requires
                q >= w * frame.height,
                q == w * (q / w) + q % w,
                0 <= q % w < w,
        ;
    }
}

/// A bar without text: hidden it is all zero, and shown every whole pixel has the
/// opacity 204 and the colour 30, 30, 46 scaled by it.
pub proof fn lemma_bar_without_text(canvas: Seq<u8>, frame: Frame, p: int)
    requires
        0 <= p,
        4 * p + 4 <= canvas.len(),
    ensures
        rendered(canvas, frame, true, Seq::empty(), true).len() == canvas.len(),
        rendered(canvas, frame, true, Seq::empty(), true).subrange(4 * p, 4 * p + 4) == seq![
            0x24u8,
            0x18,
            0x18,
            0xCC,
        ],
        rendered(canvas, frame, true, Seq::empty(), false).subrange(4 * p, 4 * p + 4) == seq![
            0xCCu8,
            0x18,
            0x18,
            0x24,
        ],
{
    lemma_colour_bytes(background());
    assert(premultiplied(0x1E, 0xCC) == 0x18);
    assert(premultiplied(0x2E, 0xCC) == 0x24);
    let low = word_bytes(argb(background()), true);
    let high = word_bytes(argb(background()), false);
    assert(low =~= seq![0x24u8, 0x18, 0x18, 0xCC]);
    assert(high =~= seq![0xCCu8, 0x18, 0x18, 0x24]);
    assert forall|k: int| 0 <= k < 4 implies (4 * p + k) / 4 == p && #[trigger] ((4 * p + k) % 4)
        == k by {}
    let a = rendered(canvas, frame, true, Seq::empty(), true);
    let b = rendered(canvas, frame, true, Seq::empty(), false);
    assert(a == filled(canvas, low) && b == filled(canvas, high));
    lemma_filled(canvas, low, p, 0);
    lemma_filled(canvas, low, p, 1);
    lemma_filled(canvas, low, p, 2);
    lemma_filled(canvas, low, p, 3);
    lemma_filled(canvas, high, p, 0);
    lemma_filled(canvas, high, p, 1);
    lemma_filled(canvas, high, p, 2);
    lemma_filled(canvas, high, p, 3);
    assert(a.subrange(4 * p, 4 * p + 4) =~= low);
    assert(b.subrange(4 * p, 4 * p + 4) =~= high);
}

/// A hidden bar is all zero, whatever its text, and shows nothing.
pub proof fn lemma_hidden_bar(
    canvas: Seq<u8>,
    frame: Frame,
    spans: Seq<Span>,
    little_endian: bool,
    i: int,
)
    requires
        0 <= i < canvas.len(),
    ensures
        rendered(canvas, frame, false, spans, little_endian).len() == canvas.len(),
        rendered(canvas, frame, false, spans, little_endian)[i] == 0,
{
}

/// One more rectangle of text on a bar that is shown comes over all that was drawn
/// before: in its pixels the opacity byte and the three channels of its colour,
/// scaled by its opacity, are mixed in, and everything else stays.
pub proof fn lemma_one_more_span(
    canvas: Seq<u8>,
    frame: Frame,
    spans: Seq<Span>,
    span: Span,
    little_endian: bool,
    row: int,
    col: int,
    k: int,
)
    requires
        frame.wf(),
        0 <= row < frame.height,
        0 <= col < frame.width,
        0 <= k < 4,
        4 * (row * frame.width + col) + 4 <= canvas.len(),
    ensures
        ({
            let at = 4 * (row * frame.width + col) + if little_endian {
                k
            } else {
                3 - k
            };
            let left = span.x + 16;
            let top = span.y + (frame.height - 20) / 2;
            let a = span.colour.a as int;
            let channel = if k == 0 {
                span.colour.b as int
            } else if k == 1 {
                span.colour.g as int
            } else if k == 2 {
                span.colour.r as int
            } else {
                255
            };
            let under = rendered(canvas, frame, true, spans, little_endian)[at] as int;
            let now = rendered(canvas, frame, true, spans.push(span), little_endian)[at] as int;
            if left <= col < left + span.w as i32 && top <= row < top + span.h as i32 {
                255 * now <= (channel * a / 255) * a + under * (255 - a) < 255 * now + 255
            } else {
                now == under
            }
        }),
{
    let before = rendered(canvas, frame, true, spans, little_endian);
    let pixel = word_bytes(argb(span.colour), little_endian);
    assert(spans.push(span).drop_last() =~= spans);
    assert(spans.push(span).last() == span);
    lemma_drawn_length(prepared(canvas, true, little_endian), frame, spans, little_endian);
    let j = if little_endian {
        k
    } else {
        3 - k
    };
    lemma_painted_pixel(before, frame, span, pixel, row, col, j);
    lemma_colour_bytes(span.colour);
    let a = span.colour.a as int;
    assert(255 * a / 255 == a);
}

/// Drawing keeps the length of the canvas.
proof fn lemma_drawn_length(
    canvas: Seq<u8>,
    frame: Frame,
    spans: Seq<Span>,
    little_endian: bool,
)
    ensures
        all_drawn(canvas, frame, spans, little_endian).len() == canvas.len(),
    decreases spans.len(),
{
    if spans.len() > 0 {
        lemma_drawn_length(canvas, frame, spans.drop_last(), little_endian);
    }
}

/// A canvas that is prepared for text: hidden it is all zero; shown, every whole
/// pixel has the background and what is behind the last one stays.
pub proof fn lemma_prepared_canvas(canvas: Seq<u8>, p: int, k: int)
    requires
        0 <= p,
        0 <= k < 4,
        4 * p + k < canvas.len(),
    ensures
        ({
            let at = 4 * p + k;
            let pixel = seq![0x24u8, 0x18, 0x18, 0xCC];
            &&& prepared(canvas, true, true).len() == canvas.len()
            &&& prepared(canvas, true, false).len() == canvas.len()
            &&& prepared(canvas, false, true)[at] == 0
            &&& prepared(canvas, false, false)[at] == 0
            &&& 4 * p + 4 <= canvas.len() ==> prepared(canvas, true, true)[at] == pixel[k]
                && prepared(canvas, true, false)[at] == pixel[3 - k]
            &&& 4 * p + 4 > canvas.len() ==> prepared(canvas, true, true)[at] == canvas[at]
                && prepared(canvas, true, false)[at] == canvas[at]
        }),
{
    lemma_colour_bytes(background());
    assert(premultiplied(0x1E, 0xCC) == 0x18);
    assert(premultiplied(0x2E, 0xCC) == 0x24);
    let low = word_bytes(argb(background()), true);
    let high = word_bytes(argb(background()), false);
    assert(low =~= seq![0x24u8, 0x18, 0x18, 0xCC]);
    assert(high =~= seq![0xCCu8, 0x18, 0x18, 0x24]);
    lemma_filled(canvas, low, p, k);
    lemma_filled(canvas, high, p, k);
}

/// Which rectangles can be drawn: the left and the upper edge must be signed 32-bit
/// numbers; where the rectangle is not transparent, the lower edge too; and where
/// one of its rows then lies in the frame, the right edge too.
pub proof fn lemma_which_spans_fit(span: Span, frame: Frame)
    requires
        frame.wf(),
    ensures
        ({
            let left = span.x + 16;
            let right = left + span.w as i32;
            let top = span.y + (frame.height - 20) / 2;
            let bottom = top + span.h as i32;
            span.in_range(frame) <==> {
                &&& left <= 0x7FFF_FFFF
                &&& top <= 0x7FFF_FFFF
                &&& span.colour.a != 0 ==> -0x8000_0000 <= bottom <= 0x7FFF_FFFF
                &&& span.colour.a != 0 && top < bottom && top < frame.height && bottom > 0 ==>
                    -0x8000_0000 <= right <= 0x7FFF_FFFF
            }
        }),
{
}

} // verus!
