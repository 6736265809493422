use ledboard::framebuffer::{UdpDisplay, IMAGE_SIZE_BYTE};

#[test]
fn new_display_is_dark() {
    let d = UdpDisplay::new();
    assert_eq!(d.image().len(), IMAGE_SIZE_BYTE);
    assert!(d.image().iter().all(|b| *b == 0));
    assert_eq!(d.size(), (160, 40));
}

#[test]
fn first_led_of_a_byte_is_its_least_significant_bit() {
    let mut d = UdpDisplay::new();
    d.draw_pixel(0, 0, true);
    assert_eq!(d.image()[0], 0x01);
    d.draw_pixel(7, 0, true);
    assert_eq!(d.image()[0], 0x81);
    d.draw_pixel(8, 0, true);
    assert_eq!(d.image()[1], 0x01);
}

#[test]
fn rows_are_twenty_bytes_apart() {
    let mut d = UdpDisplay::new();
    d.draw_pixel(0, 1, true);
    assert_eq!(d.image()[20], 0x01);
    d.draw_pixel(159, 39, true);
    assert_eq!(d.image()[799], 0x80);
    let lit: usize = d.image().iter().map(|b| b.count_ones() as usize).sum();
    assert_eq!(lit, 2);
}

#[test]
fn pixels_off_the_board_are_ignored() {
    let mut d = UdpDisplay::new();
    d.draw_pixel(-1, 0, true);
    d.draw_pixel(0, -1, true);
    d.draw_pixel(160, 0, true);
    d.draw_pixel(0, 40, true);
    d.draw_pixel(i32::MAX, i32::MAX, true);
    d.draw_pixel(i32::MIN, 3, true);
    assert!(d.image().iter().all(|b| *b == 0));
}

#[test]
fn a_dark_pixel_clears_only_its_led() {
    let mut d = UdpDisplay::new();
    for x in 0..8 {
        d.draw_pixel(x, 0, true);
    }
    assert_eq!(d.image()[0], 0xff);
    d.draw_pixel(3, 0, false);
    assert_eq!(d.image()[0], 0xf7);
}

#[test]
fn draw_iter_last_pixel_wins() {
    let mut d = UdpDisplay::new();
    d.draw_iter(&vec![(5, 2, true), (6, 2, true), (5, 2, false), (200, 2, true)]);
    // LED 5 + 2 * 160 = 325: byte 40, bit 5; LED 326: byte 40, bit 6.
    assert_eq!(d.image()[40], 0x40);
    let lit: usize = d.image().iter().map(|b| b.count_ones() as usize).sum();
    assert_eq!(lit, 1);
}

#[test]
fn drawing_twice_equals_drawing_once() {
    let pixels = vec![(3, 4, true), (3, 4, false), (10, 0, true), (-2, 1, true), (159, 39, true)];
    let mut once = UdpDisplay::new();
    once.draw_iter(&pixels);
    let mut twice = UdpDisplay::new();
    twice.draw_iter(&pixels);
    twice.draw_iter(&pixels);
    assert_eq!(once.image(), twice.image());
}

#[test]
fn disjoint_runs_commute() {
    let ps = vec![(0, 0, true), (5, 5, true), (200, 5, true)];
    let qs = vec![(1, 0, true), (5, 6, true), (5, 6, false), (200, 5, false)];
    let mut a = UdpDisplay::new();
    a.draw_iter(&ps);
    a.draw_iter(&qs);
    let mut b = UdpDisplay::new();
    b.draw_iter(&qs);
    b.draw_iter(&ps);
    assert_eq!(a.image(), b.image());
    assert_eq!(a.image()[0], 0x03);
}
