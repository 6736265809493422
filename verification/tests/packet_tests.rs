use ledboard::framebuffer::UdpDisplay;
use ledboard::packet::{
    build_package, image_from_package, probe_package, BRIGHTNESS, PACKAGE_LENGTH, PROBE_LENGTH,
};

#[test]
fn package_starts_with_brightness_then_frame() {
    let mut d = UdpDisplay::new();
    d.draw_pixel(1, 0, true);
    let p = build_package(&d);
    assert_eq!(p.len(), PACKAGE_LENGTH);
    assert_eq!(p[0], 128);
    assert_eq!(p[0], BRIGHTNESS);
    assert_eq!(p[1], 0x02);
    assert_eq!(&p[1..], d.image().as_slice());
}

#[test]
fn probe_is_half_a_package_of_zeros() {
    let p = probe_package();
    assert_eq!(p.len(), PROBE_LENGTH);
    assert_eq!(p.len(), PACKAGE_LENGTH / 2);
    assert!(p.iter().all(|b| *b == 0));
    assert!(image_from_package(&p).is_none());
}

#[test]
fn other_lengths_are_not_frames() {
    assert!(image_from_package(&[]).is_none());
    assert!(image_from_package(&vec![0u8; 800]).is_none());
    assert!(image_from_package(&vec![0u8; 802]).is_none());
}

#[test]
fn receiver_reverses_bit_order() {
    let mut p = vec![0u8; PACKAGE_LENGTH];
    p[0] = 128;
    p[1] = 0x01;
    p[2] = 0b1100_1010;
    p[800] = 0xff;
    let img = image_from_package(&p).unwrap();
    assert_eq!(img.len(), 800);
    assert_eq!(img[0], 0x80);
    assert_eq!(img[1], 0b0101_0011);
    assert_eq!(img[799], 0xff);
    assert_eq!(img[5], 0);
}

#[test]
fn board_shows_what_was_drawn() {
    let mut d = UdpDisplay::new();
    let lit = [(0, 0), (9, 0), (17, 3), (159, 39), (80, 20)];
    for (x, y) in lit {
        d.draw_pixel(x, y, true);
    }
    let img = image_from_package(&build_package(&d)).unwrap();
    for y in 0..40 {
        for x in 0..160 {
            let o = (x + y * 160) as usize;
            let shown = (img[o / 8] >> (7 - o % 8)) & 1 == 1;
            assert_eq!(shown, lit.contains(&(x, y)), "LED {x},{y}");
        }
    }
}
