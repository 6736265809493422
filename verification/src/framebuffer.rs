//! The monochrome frame buffer of the LED board: 160 x 40 LEDs, eight LEDs
//! per byte, the first LED of a byte in its least significant bit.

use bit::BitIndex;
use vstd::prelude::*;

verus! {

/// Width of the board in LEDs.
pub const IMAGE_WIDTH: u32 = 160;

/// Height of the board in LEDs.
pub const IMAGE_HEIGHT: u32 = 40;

/// Bytes per row of LEDs.
pub const IMAGE_WIDTH_BYTE: u32 = 20;

/// Bytes of a whole frame.
pub const IMAGE_SIZE_BYTE: usize = 800;

/// Number of LEDs of a whole frame.
pub const IMAGE_PIXELS: usize = 6400;

/// Bit `pos` of `byte`, counted from the least significant bit.
pub open spec fn bit_of(byte: u8, pos: int) -> bool {
    (byte >> (pos as u8)) & 1u8 == 1u8
}

/// `byte` with bit `pos` set to `on` and every other bit kept.
pub open spec fn with_bit(byte: u8, pos: u8, on: bool) -> u8 {
    if on {
        byte | (1u8 << pos)
    } else {
        byte & !(1u8 << pos)
    }
}

/// Writing one bit changes that bit and no other.
pub proof fn lemma_with_bit(byte: u8, pos: u8, on: bool, j: u8)
    requires
        pos < 8,
        j < 8,
    ensures
        bit_of(with_bit(byte, pos, on), j as int) == if j == pos { on } else { bit_of(byte, j as int) },
{
    if on {
        assert(((byte | (1u8 << pos)) >> j) & 1u8 == 1u8 <==> (j == pos || (byte >> j) & 1u8 == 1u8))
            by (bit_vector)
            requires pos < 8u8, j < 8u8;
    } else {
        assert(((byte & !(1u8 << pos)) >> j) & 1u8 == 1u8 <==> (j != pos && (byte >> j) & 1u8 == 1u8))
            by (bit_vector)
            requires pos < 8u8, j < 8u8;
    }
}

/// `BitIndex::set_bit` of the `bit` crate on a `u8`: the bit at `pos`
/// (0 = least significant) takes the value `on`, the other bits stay. The
/// crate asserts `pos < 8`, which the `requires` keeps.
#[verifier::external_body]
fn set_bit_u8(byte: u8, pos: usize, on: bool) -> (r: u8)
    requires
        pos < 8,
    ensures
        r == with_bit(byte, pos as u8, on),
{
    let mut b = byte;
    b.set_bit(pos, on);
    b
}

/// Whether LED `(x, y)` lies on the board.
pub open spec fn on_board(x: i32, y: i32) -> bool {
    0 <= x < IMAGE_WIDTH && 0 <= y < IMAGE_HEIGHT
}

/// Index of LED `(x, y)` in row-major order.
pub open spec fn led_index(x: i32, y: i32) -> int {
    x + y * IMAGE_WIDTH
}

/// Frame bytes after LED number `o` is set to `on`.
pub open spec fn set_led(image: Seq<u8>, o: int, on: bool) -> Seq<u8> {
    image.update(o / 8, with_bit(image[o / 8], (o % 8) as u8, on))
}

/// Frame bytes after one pixel is drawn: a pixel off the board changes nothing.
pub open spec fn draw_one(image: Seq<u8>, p: (i32, i32, bool)) -> Seq<u8> {
    if on_board(p.0, p.1) {
        set_led(image, led_index(p.0, p.1), p.2)
    } else {
        image
    }
}

/// Frame bytes after the pixels are drawn in order.
pub open spec fn draw_all(image: Seq<u8>, pixels: Seq<(i32, i32, bool)>) -> Seq<u8>
    decreases pixels.len(),
{
    if pixels.len() == 0 {
        image
    } else {
        draw_one(draw_all(image, pixels.drop_last()), pixels.last())
    }
}

/// Whether LED number `o` of the frame bytes is lit.
pub open spec fn led(image: Seq<u8>, o: int) -> bool {
    bit_of(image[o / 8], o % 8)
}

/// The LEDs of a frame, in row-major order.
pub open spec fn leds(image: Seq<u8>) -> Seq<bool> {
    Seq::new(IMAGE_PIXELS as nat, |o: int| led(image, o))
}

/// Value of LED `o` after the pixels are drawn over a frame where it had the
/// value `before`: the last pixel on the board that addresses `o` decides.
pub open spec fn led_after(before: bool, pixels: Seq<(i32, i32, bool)>, o: int) -> bool
    decreases pixels.len(),
{
    if pixels.len() == 0 {
        before
    } else if on_board(pixels.last().0, pixels.last().1) && led_index(pixels.last().0, pixels.last().1)
        == o {
        pixels.last().2
    } else {
        led_after(before, pixels.drop_last(), o)
    }
}

/// Drawing one pixel on the board lights or darkens exactly that LED; a
/// pixel off the board leaves every LED as it was.
pub proof fn lemma_draw_one_leds(image: Seq<u8>, p: (i32, i32, bool))
    requires
        image.len() == IMAGE_SIZE_BYTE,
    ensures
        draw_one(image, p).len() == IMAGE_SIZE_BYTE,
        leds(draw_one(image, p)) == if on_board(p.0, p.1) {
            leds(image).update(led_index(p.0, p.1), p.2)
        } else {
            leds(image)
        },
{
    if on_board(p.0, p.1) {
        let k = led_index(p.0, p.1);
        let after = draw_one(image, p);
        assert forall|o: int| 0 <= o < IMAGE_PIXELS implies #[trigger] led(after, o) == (if o == k {
            p.2
        } else {
            led(image, o)
        }) by {
            if o / 8 == k / 8 {
                lemma_with_bit(image[k / 8], (k % 8) as u8, p.2, (o % 8) as u8);
            }
        }
        assert(leds(after) =~= leds(image).update(k, p.2));
    }
}

/// Drawing a sequence of pixels: every LED ends with the value of the last
/// pixel on the board that addresses it, and keeps its value where none does.
pub proof fn lemma_draw_all_leds(image: Seq<u8>, pixels: Seq<(i32, i32, bool)>, o: int)
    requires
        image.len() == IMAGE_SIZE_BYTE,
        0 <= o < IMAGE_PIXELS,
    ensures
        draw_all(image, pixels).len() == IMAGE_SIZE_BYTE,
        led(draw_all(image, pixels), o) == led_after(led(image, o), pixels, o),
    decreases pixels.len(),
{
    if pixels.len() > 0 {
        let rest = pixels.drop_last();
        lemma_draw_all_leds(image, rest, o);
        let mid = draw_all(image, rest);
        lemma_draw_one_leds(mid, pixels.last());
        assert(leds(mid)[o] == led(mid, o));
        assert(leds(draw_one(mid, pixels.last()))[o] == led(draw_one(mid, pixels.last()), o));
    }
}

/// Whether some pixel on the board among `pixels` addresses LED `o`.
pub open spec fn addresses(pixels: Seq<(i32, i32, bool)>, o: int) -> bool {
    exists|i: int|
        0 <= i < pixels.len() && on_board(pixels[i].0, pixels[i].1) && #[trigger] led_index(
            pixels[i].0,
            pixels[i].1,
        ) == o
}

/// Where some pixel addresses an LED, its old value does not matter; where
/// none does, the LED keeps its old value.
proof fn lemma_led_after_cases(b1: bool, b2: bool, pixels: Seq<(i32, i32, bool)>, o: int)
    ensures
        addresses(pixels, o) ==> led_after(b1, pixels, o) == led_after(b2, pixels, o),
        !addresses(pixels, o) ==> led_after(b1, pixels, o) == b1,
    decreases pixels.len(),
{
    if pixels.len() > 0 {
        let init = pixels.drop_last();
        let n = init.len() as int;
        let p = pixels.last();
        lemma_led_after_cases(b1, b2, init, o);
        if !(on_board(p.0, p.1) && led_index(p.0, p.1) == o) {
            if addresses(pixels, o) {
                let i = choose|i: int|
                    0 <= i < pixels.len() && on_board(pixels[i].0, pixels[i].1) && #[trigger] led_index(
                        pixels[i].0,
                        pixels[i].1,
                    ) == o;
                assert(i < n);
                assert(init[i] == pixels[i]);
                assert(addresses(init, o));
            }
            if addresses(init, o) {
                let i = choose|i: int|
                    0 <= i < init.len() && on_board(init[i].0, init[i].1) && #[trigger] led_index(
                        init[i].0,
                        init[i].1,
                    ) == o;
                assert(init[i] == pixels[i]);
                assert(addresses(pixels, o));
            }
        } else {
            assert(pixels[n] == p);
            assert(addresses(pixels, o));
        }
    }
}

/// Two frames whose LEDs all agree are the same frame.
proof fn lemma_leds_determine_frame(a: Seq<u8>, b: Seq<u8>)
    requires
        a.len() == IMAGE_SIZE_BYTE,
        b.len() == IMAGE_SIZE_BYTE,
        forall|o: int| 0 <= o < IMAGE_PIXELS ==> #[trigger] led(a, o) == led(b, o),
    ensures
        a == b,
{
    assert forall|k: int| 0 <= k < IMAGE_SIZE_BYTE implies a[k] == b[k] by {
        let x = a[k];
        let y = b[k];
        assert(led(a, 8 * k) == led(b, 8 * k));
        assert(led(a, 8 * k + 1) == led(b, 8 * k + 1));
        assert(led(a, 8 * k + 2) == led(b, 8 * k + 2));
        assert(led(a, 8 * k + 3) == led(b, 8 * k + 3));
        assert(led(a, 8 * k + 4) == led(b, 8 * k + 4));
        assert(led(a, 8 * k + 5) == led(b, 8 * k + 5));
        assert(led(a, 8 * k + 6) == led(b, 8 * k + 6));
        assert(led(a, 8 * k + 7) == led(b, 8 * k + 7));
        assert(x == y) by (bit_vector)
            requires
                ((x >> 0u8) & 1u8 == 1u8) == ((y >> 0u8) & 1u8 == 1u8),
                ((x >> 1u8) & 1u8 == 1u8) == ((y >> 1u8) & 1u8 == 1u8),
                ((x >> 2u8) & 1u8 == 1u8) == ((y >> 2u8) & 1u8 == 1u8),
                ((x >> 3u8) & 1u8 == 1u8) == ((y >> 3u8) & 1u8 == 1u8),
                ((x >> 4u8) & 1u8 == 1u8) == ((y >> 4u8) & 1u8 == 1u8),
                ((x >> 5u8) & 1u8 == 1u8) == ((y >> 5u8) & 1u8 == 1u8),
                ((x >> 6u8) & 1u8 == 1u8) == ((y >> 6u8) & 1u8 == 1u8),
                ((x >> 7u8) & 1u8 == 1u8) == ((y >> 7u8) & 1u8 == 1u8),
        ;
    }
    assert(a =~= b);
}

/// Drawing the same pixels twice leaves the frame as drawing them once.
pub proof fn lemma_draw_all_idempotent(image: Seq<u8>, pixels: Seq<(i32, i32, bool)>)
    requires
        image.len() == IMAGE_SIZE_BYTE,
    ensures
        draw_all(draw_all(image, pixels), pixels) == draw_all(image, pixels),
{
    let once = draw_all(image, pixels);
    lemma_draw_all_leds(image, pixels, 0);
    assert forall|o: int| 0 <= o < IMAGE_PIXELS implies #[trigger] led(draw_all(once, pixels), o) == led(
        once,
        o,
    ) by {
        lemma_draw_all_leds(image, pixels, o);
        lemma_draw_all_leds(once, pixels, o);
        lemma_led_after_cases(led(once, o), led(image, o), pixels, o);
    }
    lemma_draw_all_leds(once, pixels, 0);
    lemma_leds_determine_frame(draw_all(once, pixels), once);
}

/// Runs of pixels whose pixels on the board address different LEDs can be
/// drawn in either order.
pub proof fn lemma_draw_all_disjoint_commute(
    image: Seq<u8>,
    ps: Seq<(i32, i32, bool)>,
    qs: Seq<(i32, i32, bool)>,
)
    requires
        image.len() == IMAGE_SIZE_BYTE,
        forall|i: int, j: int|
            0 <= i < ps.len() && 0 <= j < qs.len() && on_board(ps[i].0, ps[i].1) && on_board(
                qs[j].0,
                qs[j].1,
            ) ==> #[trigger] led_index(ps[i].0, ps[i].1) != #[trigger] led_index(qs[j].0, qs[j].1),
    ensures
        draw_all(draw_all(image, ps), qs) == draw_all(draw_all(image, qs), ps),
{
    let a = draw_all(image, ps);
    let b = draw_all(image, qs);
    lemma_draw_all_leds(image, ps, 0);
    lemma_draw_all_leds(image, qs, 0);
    lemma_draw_all_leds(a, qs, 0);
    lemma_draw_all_leds(b, ps, 0);
    assert forall|o: int| 0 <= o < IMAGE_PIXELS implies #[trigger] led(draw_all(a, qs), o) == led(
        draw_all(b, ps),
        o,
    ) by {
        lemma_draw_all_leds(image, ps, o);
        lemma_draw_all_leds(image, qs, o);
        lemma_draw_all_leds(a, qs, o);
        lemma_draw_all_leds(b, ps, o);
        let x = led(image, o);
        lemma_led_after_cases(led(a, o), x, qs, o);
        lemma_led_after_cases(led(b, o), x, ps, o);
        lemma_led_after_cases(x, x, ps, o);
        lemma_led_after_cases(x, x, qs, o);
        if addresses(ps, o) && addresses(qs, o) {
            let i = choose|i: int|
                0 <= i < ps.len() && on_board(ps[i].0, ps[i].1) && #[trigger] led_index(ps[i].0, ps[i].1)
                    == o;
            let j = choose|j: int|
                0 <= j < qs.len() && on_board(qs[j].0, qs[j].1) && #[trigger] led_index(qs[j].0, qs[j].1)
                    == o;
            assert(led_index(ps[i].0, ps[i].1) != led_index(qs[j].0, qs[j].1));
        }
    }
    lemma_leds_determine_frame(draw_all(a, qs), draw_all(b, ps));
}

/// A frame buffer in the layout that the board expects.
pub struct UdpDisplay {
    image: Vec<u8>,
}

impl View for UdpDisplay {
    type V = Seq<u8>;

    closed spec fn view(&self) -> Seq<u8> {
        self.image@
    }
}

impl UdpDisplay {
    /// A frame holds exactly `IMAGE_SIZE_BYTE` bytes.
    pub open spec fn wf(&self) -> bool {
        self@.len() == IMAGE_SIZE_BYTE
    }

    /// A dark frame.
    pub fn new() -> (d: Self)
        ensures
            d.wf(),
            d@ == Seq::new(IMAGE_SIZE_BYTE as nat, |i: int| 0u8),
    {
        let image = vec![0u8; IMAGE_SIZE_BYTE];
        UdpDisplay { image }
    }

    /// Width and height of the board in LEDs.
    pub fn size(&self) -> (r: (u32, u32))
        ensures
            r == (IMAGE_WIDTH, IMAGE_HEIGHT),
    {
        (IMAGE_WIDTH, IMAGE_HEIGHT)
    }

    /// The frame bytes.
    pub fn image(&self) -> (r: &Vec<u8>)
        ensures
            r@ == self@,
    {
        &self.image
    }

    /// Draws one pixel: an LED on the board takes the value `on`, a pixel off
    /// the board is ignored.
    pub fn draw_pixel(&mut self, x: i32, y: i32, on: bool)
        requires
            old(self).wf(),
        ensures
            final(self)@ == draw_one(old(self)@, (x, y, on)),
            final(self).wf(),
    {
        if x < 0 || y < 0 {
            return;
        }
        let ux: u32 = x as u32;
        let uy: u32 = y as u32;
        if ux > IMAGE_WIDTH - 1 || uy > IMAGE_HEIGHT - 1 {
            return;
        }
        let offset: usize = (ux + uy * IMAGE_WIDTH) as usize;
        let subbit: usize = offset % 8;
        let byte_offset: usize = offset / 8;
        let current: u8 = self.image[byte_offset];
        let updated: u8 = set_bit_u8(current, subbit, on);
        self.image.set(byte_offset, updated);
    }

    /// Draws the pixels in order (the body of `DrawTarget::draw_iter`).
    pub fn draw_iter(&mut self, pixels: &Vec<(i32, i32, bool)>)
        requires
            old(self).wf(),
        ensures
            final(self)@ == draw_all(old(self)@, pixels@),
            final(self).wf(),
    {
        let n = pixels.len();
        let mut i: usize = 0;
        while i < n
            invariant
                n == pixels@.len(),
                i <= n,
                self@ == draw_all(old(self)@, pixels@.take(i as int)),
                self.wf(),
            decreases n - i,
        {
            let p = pixels[i];
            self.draw_pixel(p.0, p.1, p.2);
            proof {
                assert(pixels@.take(i + 1).drop_last() =~= pixels@.take(i as int));
            }
            i = i + 1;
        }
        proof {
            assert(pixels@.take(n as int) =~= pixels@);
        }
    }
}

} // verus!
