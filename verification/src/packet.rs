//! The UDP packet that carries a frame to the board, and how the receiving
//! side (the board simulator) turns it back into an image.

use vstd::prelude::*;
use crate::framebuffer::{bit_of, led, UdpDisplay, IMAGE_PIXELS, IMAGE_SIZE_BYTE};

verus! {

/// Length of a frame packet: one brightness byte and the frame.
pub const PACKAGE_LENGTH: usize = 801;

/// Length of the probe packet that asks the board whether it is online: half
/// a frame packet, so the board answers instead of showing it.
pub const PROBE_LENGTH: usize = 400;

/// Brightness sent in the first byte of every frame packet.
pub const BRIGHTNESS: u8 = 128;

/// The packet that carries `frame`.
pub open spec fn package_of(frame: Seq<u8>) -> Seq<u8> {
    seq![BRIGHTNESS] + frame
}

/// `b` with its bit order reversed.
pub open spec fn reverse_byte(b: u8) -> u8 {
    ((b & 0x01u8) << 7u8) | ((b & 0x02u8) << 5u8) | ((b & 0x04u8) << 3u8) | ((b & 0x08u8) << 1u8) | ((b
        & 0x10u8) >> 1u8) | ((b & 0x20u8) >> 3u8) | ((b & 0x40u8) >> 5u8) | ((b & 0x80u8) >> 7u8)
}

/// The image that the receiving side takes out of a packet: nothing unless
/// the packet has exactly `PACKAGE_LENGTH` bytes, else every frame byte with
/// its bit order reversed (the receiver reads the first LED of a byte from
/// its most significant bit).
pub open spec fn image_of_package(packet: Seq<u8>) -> Option<Seq<u8>> {
    if packet.len() == PACKAGE_LENGTH {
        Some(Seq::new(IMAGE_SIZE_BYTE as nat, |i: int| reverse_byte(packet[i + 1])))
    } else {
        None
    }
}

/// Whether LED number `o` is lit in an image whose bytes hold the first LED
/// in their most significant bit.
pub open spec fn msb_led(image: Seq<u8>, o: int) -> bool {
    bit_of(image[o / 8], 7 - o % 8)
}

/// `u8::reverse_bits` of std: the bit order of the byte reversed.
#[verifier::external_body]
fn reverse_bits_u8(b: u8) -> (r: u8)
    ensures
        r == reverse_byte(b),
{
    b.reverse_bits()
}

/// Builds the packet for a frame: the brightness byte, then the frame bytes.
pub fn build_package(display: &UdpDisplay) -> (p: Vec<u8>)
    requires
        display.wf(),
    ensures
        p@ == package_of(display@),
        p@.len() == PACKAGE_LENGTH,
{
    let image = display.image();
    let mut package: Vec<u8> = Vec::with_capacity(PACKAGE_LENGTH);
    package.push(BRIGHTNESS);
    let mut i: usize = 0;
    while i < IMAGE_SIZE_BYTE
        invariant
            image@ == display@,
            image@.len() == IMAGE_SIZE_BYTE,
            i <= IMAGE_SIZE_BYTE,
            package@ == seq![BRIGHTNESS] + image@.take(i as int),
        decreases IMAGE_SIZE_BYTE - i,
    {
        package.push(image[i]);
        proof {
            assert(image@.take(i + 1) =~= image@.take(i as int).push(image@[i as int]));
        }
        i = i + 1;
    }
    proof {
        assert(image@.take(IMAGE_SIZE_BYTE as int) =~= image@);
    }
    package
}

/// The packet that probes whether the board is online: `PROBE_LENGTH` zero
/// bytes, which the board answers without showing them.
pub fn probe_package() -> (p: Vec<u8>)
    ensures
        p@ == Seq::new(PROBE_LENGTH as nat, |i: int| 0u8),
{
    vec![0u8; PROBE_LENGTH]
}

/// What the receiving side does with a datagram: a frame packet gives its
/// image (bit order of every byte reversed); any other length gives `None`
/// (the receiver echoes such a datagram as the answer to a probe).
pub fn image_from_package(packet: &[u8]) -> (r: Option<Vec<u8>>)
    ensures
        r matches Some(v) ==> image_of_package(packet@) == Some(v@),
        r is None ==> image_of_package(packet@) is None,
{
    if packet.len() != PACKAGE_LENGTH {
        return None;
    }
    let mut image: Vec<u8> = Vec::with_capacity(IMAGE_SIZE_BYTE);
    let mut i: usize = 0;
    while i < IMAGE_SIZE_BYTE
        invariant
            packet@.len() == PACKAGE_LENGTH,
            i <= IMAGE_SIZE_BYTE,
            image@.len() == i,
            forall|k: int| 0 <= k < i ==> image@[k] == reverse_byte(packet@[k + 1]),
        decreases IMAGE_SIZE_BYTE - i,
    {
        let b = reverse_bits_u8(packet[i + 1]);
        image.push(b);
        i = i + 1;
    }
    proof {
        assert(image@ =~= Seq::new(IMAGE_SIZE_BYTE as nat, |k: int| reverse_byte(packet@[k + 1])));
    }
    Some(image)
}

/// Reversing the bit order moves bit `j` to bit `7 - j`.
pub proof fn lemma_reverse_byte(b: u8, j: u8)
    requires
        j < 8,
    ensures
        bit_of(reverse_byte(b), 7 - j) == bit_of(b, j as int),
{
    assert((((((b & 0x01u8) << 7u8) | ((b & 0x02u8) << 5u8) | ((b & 0x04u8) << 3u8) | ((b & 0x08u8)
        << 1u8) | ((b & 0x10u8) >> 1u8) | ((b & 0x20u8) >> 3u8) | ((b & 0x40u8) >> 5u8) | ((b
        & 0x80u8) >> 7u8)) >> ((7u8 - j) as u8)) & 1u8 == 1u8) == ((b >> j) & 1u8 == 1u8)) by (bit_vector)
        requires
            j < 8u8,
    ;
}

/// What the board shows is what was drawn: the image that the receiving side
/// takes out of the packet for a frame has, read most significant bit first,
/// every LED of the frame.
pub proof fn lemma_board_shows_frame(frame: Seq<u8>)
    requires
        frame.len() == IMAGE_SIZE_BYTE,
    ensures
        image_of_package(package_of(frame)) is Some,
        forall|o: int|
            0 <= o < IMAGE_PIXELS ==> msb_led(#[trigger] image_of_package(package_of(frame))->0, o)
                == led(frame, o),
{
    let img = image_of_package(package_of(frame))->0;
    assert forall|o: int| 0 <= o < IMAGE_PIXELS implies msb_led(img, o) == led(frame, o) by {
        assert(package_of(frame)[o / 8 + 1] == frame[o / 8]);
        lemma_reverse_byte(frame[o / 8], (o % 8) as u8);
    }
}

/// The probe packet is never taken for a frame: the receiving side answers
/// it instead of showing it.
pub proof fn lemma_probe_is_not_a_frame()
    ensures
        image_of_package(Seq::new(PROBE_LENGTH as nat, |i: int| 0u8)) is None,
{
}

/// Byte `x` holds the bits of byte `y` in mirrored order: bit `j` of `y`
/// as bit `7 - j` of `x`.
pub open spec fn mirrored(x: u8, y: u8) -> bool {
    forall|j: int| 0 <= j < 8 ==> bit_of(x, 7 - j) == #[trigger] bit_of(y, j)
}

/// Every datagram of exactly `PACKAGE_LENGTH` bytes is a frame, whatever
/// its first (brightness) byte, and no other is; the image depends on
/// nothing but bytes 1 to 800, and byte `k` of the image holds bit `j` of
/// packet byte `k + 1` as its bit `7 - j`.
pub proof fn lemma_frame_packets(p: Seq<u8>, q: Seq<u8>)
    ensures
        image_of_package(p) is Some <==> p.len() == PACKAGE_LENGTH,
        p.len() == PACKAGE_LENGTH && q.len() == PACKAGE_LENGTH && p.subrange(1, PACKAGE_LENGTH as int)
            == q.subrange(1, PACKAGE_LENGTH as int) ==> image_of_package(p) == image_of_package(q),
        p.len() == PACKAGE_LENGTH ==> image_of_package(p)->0.len() == IMAGE_SIZE_BYTE,
        p.len() == PACKAGE_LENGTH ==> forall|k: int|
            0 <= k < IMAGE_SIZE_BYTE ==> mirrored(#[trigger] image_of_package(p)->0[k], p[k + 1]),
{
    if p.len() == PACKAGE_LENGTH && q.len() == PACKAGE_LENGTH && p.subrange(1, PACKAGE_LENGTH as int)
        == q.subrange(1, PACKAGE_LENGTH as int) {
        assert forall|k: int| 0 <= k < IMAGE_SIZE_BYTE implies #[trigger] p.subrange(1, PACKAGE_LENGTH as int)[k] == q[k + 1] by {
            assert(p.subrange(1, PACKAGE_LENGTH as int)[k] == q.subrange(1, PACKAGE_LENGTH as int)[k]);
        }
        assert forall|k: int| 0 <= k < IMAGE_SIZE_BYTE implies #[trigger] image_of_package(p)->0[k]
            == image_of_package(q)->0[k] by {
            assert(p.subrange(1, PACKAGE_LENGTH as int)[k] == p[k + 1]);
            assert(q.subrange(1, PACKAGE_LENGTH as int)[k] == q[k + 1]);
            assert(p[k + 1] == q[k + 1]);
        }
        assert(image_of_package(p)->0 =~= image_of_package(q)->0);
    }
    if p.len() == PACKAGE_LENGTH {
        assert forall|k: int| 0 <= k < IMAGE_SIZE_BYTE implies mirrored(
            #[trigger] image_of_package(p)->0[k],
            p[k + 1],
        ) by {
            assert forall|j: int| 0 <= j < 8 implies bit_of(image_of_package(p)->0[k], 7 - j) == #[trigger] bit_of(p[k + 1], j) by {
                lemma_reverse_byte(p[k + 1], j as u8);
            }
        }
    }
}

} // verus!
