use dictate::canvas::{
    clear, draw_span, fill, pack_argb, paint_background, paint_span, render, render_for, Colour,
    Span,
};
use dictate::overlay::{Frame, Overlay};

const WIDTH: usize = 40;
const HEIGHT: usize = 48;

fn little() -> bool {
    1u32.to_ne_bytes()[0] == 1
}

fn frame() -> Frame {
    let mut o = Overlay::new();
    o.configure(WIDTH as u32, HEIGHT as u32);
    o.redraw().unwrap()
}

fn colour(r: u8, g: u8, b: u8, a: u8) -> Colour {
    Colour { r, g, b, a }
}

fn span(x: i32, y: i32, w: u32, h: u32, a: u8) -> Span {
    Span {
        x,
        y,
        w,
        h,
        colour: colour(0xFF, 0x80, 0x00, a),
    }
}

fn noise() -> Vec<u8> {
    (0..WIDTH * HEIGHT * 4).map(|i| (i * 31 % 251) as u8).collect()
}

/// Draws pixel by pixel, straight from the definition.
fn drawn(canvas: &[u8], s: &Span, pixel: &[u8; 4]) -> Vec<u8> {
    let mut out = canvas.to_vec();
    let a = s.colour.a as u32;
    for row in 0..HEIGHT as i64 {
        for col in 0..WIDTH as i64 {
            let top = s.y as i64 + 14;
            let left = s.x as i64 + 16;
            if row >= top && row < top + s.h as i64 && col >= left && col < left + s.w as i64 {
                let off = (row as usize * WIDTH + col as usize) * 4;
                for k in 0..4 {
                    if off + 4 <= out.len() {
                        out[off + k] = ((pixel[k] as u32 * a + canvas[off + k] as u32 * (255 - a))
                            / 255) as u8;
                    }
                }
            }
        }
    }
    out
}

#[test]
fn colours_are_scaled_by_their_opacity() {
    assert_eq!(pack_argb(&colour(0xFF, 0x80, 0x01, 0xFF)), 0xFFFF8001);
    assert_eq!(pack_argb(&colour(0x1E, 0x1E, 0x2E, 0xCC)), 0xCC181824);
    assert_eq!(pack_argb(&colour(0xFF, 0xFF, 0xFF, 0x80)), 0x80808080);
    assert_eq!(pack_argb(&colour(0xFF, 0xFF, 0xFF, 0)), 0);
}

#[test]
fn a_hidden_bar_is_all_zero() {
    let mut canvas = vec![7u8; 11];
    clear(&mut canvas);
    assert_eq!(canvas, vec![0u8; 11]);
    let mut canvas = noise();
    paint_background(&mut canvas, false, little());
    assert_eq!(canvas, vec![0u8; WIDTH * HEIGHT * 4]);
}

#[test]
fn the_background_fills_whole_pixels() {
    let mut canvas = vec![7u8; 11];
    paint_background(&mut canvas, true, little());
    let bytes = 0xCC181824u32.to_ne_bytes();
    assert_eq!(canvas[..4].to_vec(), bytes.to_vec());
    assert_eq!(canvas[4..8].to_vec(), bytes.to_vec());
    assert_eq!(canvas[8..].to_vec(), vec![7, 7, 7]);
    let mut canvas = vec![9u8; 8];
    fill(&mut canvas, &[1, 2, 3, 4]);
    assert_eq!(canvas, vec![1, 2, 3, 4, 1, 2, 3, 4]);
}

#[test]
fn an_opaque_span_replaces_what_it_covers() {
    let mut canvas = noise();
    let s = span(2, 3, 5, 4, 255);
    draw_span(&mut canvas, &frame(), &s, little());
    let pixel = 0xFFFF8000u32.to_ne_bytes();
    assert_eq!(canvas, drawn(&noise(), &s, &pixel));
    let off = ((14 + 3) * WIDTH + 16 + 2) * 4;
    assert_eq!(canvas[off..off + 4].to_vec(), pixel.to_vec());
    assert_eq!(canvas[off - 4..off].to_vec(), noise()[off - 4..off].to_vec());
}

#[test]
fn a_transparent_span_changes_nothing() {
    let mut canvas = noise();
    draw_span(&mut canvas, &frame(), &span(0, 0, 20, 20, 0), little());
    assert_eq!(canvas, noise());
}

#[test]
fn a_translucent_span_is_mixed_in() {
    let mut canvas = noise();
    let s = span(-3, -2, 9, 30, 100);
    draw_span(&mut canvas, &frame(), &s, little());
    let pixel = pack_argb(&s.colour).to_ne_bytes();
    assert_eq!(canvas, drawn(&noise(), &s, &pixel));
    assert_ne!(canvas, noise());
}

#[test]
fn mixing_one_pixel_by_number() {
    let mut canvas = vec![200u8; WIDTH * HEIGHT * 4];
    paint_span(&mut canvas, &frame(), &span(0, 0, 1, 1, 51), &[10, 20, 30, 51]);
    let off = (14 * WIDTH + 16) * 4;
    // (10 * 51 + 200 * 204) / 255 and so on
    assert_eq!(canvas[off..off + 4].to_vec(), vec![162, 164, 166, 170]);
    assert_eq!(canvas[off + 4], 200);
}

#[test]
fn spans_are_clipped_to_the_frame() {
    for s in [
        span(-100, -100, 500, 500, 255),
        span(-20, 0, 6, 3, 255),
        span(23, 33, 10, 10, 90),
        span(24, 0, 5, 5, 255),
        span(0, 34, 5, 5, 255),
        span(0, -14, 1, 1, 255),
        span(5, 5, 0, 9, 255),
        span(5, 5, 9, 0, 255),
    ] {
        let mut canvas = noise();
        let f = frame();
        assert!(s.fits(&f));
        draw_span(&mut canvas, &f, &s, little());
        let pixel = pack_argb(&s.colour).to_ne_bytes();
        assert_eq!(canvas, drawn(&noise(), &s, &pixel));
    }
}

#[test]
fn a_short_canvas_is_never_overrun() {
    let full = noise();
    for len in [0, 3, 4, (20 * WIDTH + 20) * 4 + 2] {
        let mut canvas = full[..len].to_vec();
        let s = span(0, 0, 20, 20, 255);
        draw_span(&mut canvas, &frame(), &s, little());
        let pixel = 0xFFFF8000u32.to_ne_bytes();
        let mut expected = drawn(&full, &s, &pixel)[..len].to_vec();
        let whole = len / 4 * 4;
        expected[whole..].copy_from_slice(&full[whole..len]);
        assert_eq!(canvas, expected);
    }
}

#[test]
fn sizes_beyond_signed_numbers_count_as_negative() {
    let f = frame();
    let s = span(0, 0, 0xFFFF_FFFF, 5, 255);
    assert!(s.fits(&f));
    let mut canvas = noise();
    draw_span(&mut canvas, &f, &s, little());
    assert_eq!(canvas, noise());
    assert!(!span(i32::MAX, 0, 1, 1, 255).fits(&f));
    assert!(!span(0, i32::MAX, 1, 1, 255).fits(&f));
    assert!(!span(0, 0, 0x7FFF_FFFF, 1, 255).fits(&f));
    assert!(span(-16, -14, 0x7FFF_FFFF, 0x7FFF_FFFF, 255).fits(&f));
    assert!(!span(i32::MIN, 0, 0x8000_0000, 1, 255).fits(&f));
}

#[test]
fn byte_order_is_the_callers() {
    let mut canvas = vec![0u8; 4];
    paint_background(&mut canvas, true, true);
    assert_eq!(canvas, vec![0x24, 0x18, 0x18, 0xCC]);
    paint_background(&mut canvas, true, false);
    assert_eq!(canvas, vec![0xCC, 0x18, 0x18, 0x24]);
    let opaque = span(-16, -14, 1, 1, 255);
    draw_span(&mut canvas, &frame(), &opaque, false);
    assert_eq!(canvas, vec![0xFF, 0xFF, 0x80, 0x00]);
    draw_span(&mut canvas, &frame(), &opaque, true);
    assert_eq!(canvas, vec![0x00, 0x80, 0xFF, 0xFF]);
}

#[test]
fn a_bar_is_drawn_in_the_machines_byte_order() {
    let spans = [span(0, 0, 5, 5, 255), span(2, 2, 6, 6, 120)];
    let mut canvas = noise();
    render(&mut canvas, &frame(), true, &spans);
    let mut expected = noise();
    fill(&mut expected, &0xCC181824u32.to_ne_bytes());
    for s in &spans {
        expected = drawn(&expected, s, &pack_argb(&s.colour).to_ne_bytes());
    }
    assert_eq!(canvas, expected);
    let mut other = vec![0x55u8; WIDTH * HEIGHT * 4];
    render(&mut other, &frame(), true, &spans);
    assert_eq!(other, canvas);
}

#[test]
fn a_hidden_bar_without_text_is_blank() {
    let mut canvas = noise();
    render(&mut canvas, &frame(), false, &[]);
    assert_eq!(canvas, vec![0u8; WIDTH * HEIGHT * 4]);
}

#[test]
fn a_hidden_bar_is_blank_whatever_its_text() {
    let out_of_range = span(i32::MAX, 0, 1, 1, 255);
    let spans = [span(0, 0, 5, 5, 255), out_of_range];
    let mut canvas = noise();
    render(&mut canvas, &frame(), false, &spans);
    assert_eq!(canvas, vec![0u8; WIDTH * HEIGHT * 4]);
    let mut canvas = vec![7u8; 11];
    render_for(&mut canvas, &frame(), false, &spans, &[0, 0, 0, 1]);
    assert_eq!(canvas, vec![0u8; 11]);
}

#[test]
fn a_bar_is_drawn_for_either_byte_order() {
    let spans = [span(-16, -14, 1, 1, 255)];
    let mut low_first = noise();
    render_for(&mut low_first, &frame(), true, &spans, &[1, 0, 0, 0]);
    assert_eq!(low_first[..4].to_vec(), vec![0x00, 0x80, 0xFF, 0xFF]);
    assert_eq!(low_first[4..8].to_vec(), vec![0x24, 0x18, 0x18, 0xCC]);
    let mut high_first = noise();
    render_for(&mut high_first, &frame(), true, &spans, &[0, 0, 0, 1]);
    assert_eq!(high_first[..4].to_vec(), vec![0xFF, 0xFF, 0x80, 0x00]);
    assert_eq!(high_first[4..8].to_vec(), vec![0xCC, 0x18, 0x18, 0x24]);
    let mut native = noise();
    render(&mut native, &frame(), true, &spans);
    assert_eq!(native, if little() { low_first } else { high_first });
}

#[test]
fn no_channel_is_above_its_opacity() {
    let spans = [
        span(0, 0, 8, 8, 255),
        span(2, 2, 9, 9, 120),
        span(-4, 1, 9, 9, 1),
        span(3, 3, 3, 3, 254),
    ];
    let mut canvas = noise();
    render_for(&mut canvas, &frame(), true, &spans, &[1, 0, 0, 0]);
    assert!(canvas.chunks_exact(4).all(|p| p.iter().all(|c| *c <= p[3])));
    render_for(&mut canvas, &frame(), true, &spans, &[0, 0, 0, 1]);
    assert!(canvas.chunks_exact(4).all(|p| p.iter().all(|c| *c <= p[0])));
}

#[test]
fn only_the_edges_that_drawing_takes_must_be_in_range() {
    let f = frame();
    let huge: u32 = 0x7FFF_FFFF;
    // Transparent: neither the lower nor the right edge is taken.
    assert!(span(0, 0, huge, huge, 0).fits(&f));
    assert!(!span(i32::MAX, 0, 1, 1, 0).fits(&f));
    assert!(!span(0, i32::MAX, 1, 1, 0).fits(&f));
    assert!(!span(0, 0, 1, huge, 1).fits(&f));
    // No row in the frame: the right edge is not taken.
    let below = span(0, 34, huge, 5, 255);
    let above = span(0, -20, huge, 6, 255);
    let flat = span(0, 0, huge, 0, 255);
    assert!(below.fits(&f) && above.fits(&f) && flat.fits(&f));
    assert!(!span(0, 33, huge, 5, 255).fits(&f));
    assert!(!span(0, -20, huge, 7, 255).fits(&f));
    for s in [below, above, flat, span(0, 0, huge, huge, 0)] {
        let mut canvas = noise();
        draw_span(&mut canvas, &f, &s, little());
        assert_eq!(canvas, noise());
    }
}
