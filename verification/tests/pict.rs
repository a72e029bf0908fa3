use base64::prelude::Engine;
use base64::prelude::BASE64_STANDARD;
use iterm2canvas::canvas::Pict;

fn contains_sub(hay: &[u8], needle: &[u8]) -> bool {
    if needle.is_empty() {
        return true;
    }
    if hay.len() < needle.len() {
        return false;
    }
    for start in 0..=(hay.len() - needle.len()) {
        if &hay[start..start + needle.len()] == needle {
            return true;
        }
    }
    false
}

#[test]
fn test() {
    let mut pict = Pict::new(100, 100);
    for x in 0..100isize {
        for y in 0..100isize {
            pict.plot(x, y, 0xFFFF00);
        }
    }

    for x in 0..10isize {
        pict.draw_line((x * 10, 0), (0, 100), 0);
        pict.draw_line((0, x * 10), (100, 0), 0);
        pict.draw_line((x * 10, 0), (100, 100), 0);
        pict.draw_line((0, x * 10), (0, 0), 0);
    }
    let _ = pict.dump_iterm2_image(Some(25));
}

#[test]
fn new_canvas_is_black() {
    let pict = Pict::new(4, 3);
    assert_eq!(pict.width(), 4);
    assert_eq!(pict.height(), 3);
    for y in 0..3isize {
        for x in 0..4isize {
            assert_eq!(pict.pixel_at(x, y), 0);
        }
    }
}

#[test]
fn plot_out_of_bounds_is_ignored() {
    let mut pict = Pict::new(4, 3);
    pict.plot(-1, 0, 0xFF0000);
    pict.plot(4, 0, 0xFF0000);
    pict.plot(0, -1, 0xFF0000);
    pict.plot(0, 3, 0xFF0000);
    pict.plot(isize::MIN, isize::MAX, 0xFF0000);
    for y in 0..3isize {
        for x in 0..4isize {
            assert_eq!(pict.pixel_at(x, y), 0);
        }
    }
}

#[test]
fn plot_reads_back_and_touches_one_pixel() {
    let mut pict = Pict::new(4, 3);
    pict.plot(2, 1, 0xABCDEF);
    for y in 0..3isize {
        for x in 0..4isize {
            if (x, y) == (2, 1) {
                assert_eq!(pict.pixel_at(x, y), 0xABCDEF);
            } else {
                assert_eq!(pict.pixel_at(x, y), 0);
            }
        }
    }
}

#[test]
fn degenerate_line_plots_nothing() {
    let mut pict = Pict::new(4, 3);
    pict.draw_line((0, 0), (0, 0), 0x123456);
    pict.draw_line((2, 2), (2, 2), 0x123456);
    for y in 0..3isize {
        for x in 0..4isize {
            assert_eq!(pict.pixel_at(x, y), 0);
        }
    }
}

#[test]
fn horizontal_line_paints_a_contiguous_run() {
    let mut pict = Pict::new(8, 3);
    pict.draw_line((0, 0), (7, 0), 0x00FF00);
    // One pixel per unit of the driving axis, starting at the first
    // endpoint; the second endpoint itself is not plotted.
    for x in 0..7isize {
        assert_eq!(pict.pixel_at(x, 0), 0x00FF00);
    }
    assert_eq!(pict.pixel_at(7, 0), 0);
    for y in 1..3isize {
        for x in 0..8isize {
            assert_eq!(pict.pixel_at(x, y), 0);
        }
    }
}

#[test]
fn vertical_line_paints_a_contiguous_run() {
    let mut pict = Pict::new(3, 8);
    pict.draw_line((1, 0), (1, 7), 0x0000FF);
    for y in 0..7isize {
        assert_eq!(pict.pixel_at(1, y), 0x0000FF);
    }
    assert_eq!(pict.pixel_at(1, 7), 0);
}

fn count_colored(pict: &Pict, c: u32) -> usize {
    let mut n = 0;
    for y in 0..pict.height() {
        for x in 0..pict.width() {
            if pict.pixel_at(x, y) == c {
                n += 1;
            }
        }
    }
    n
}

#[test]
fn line_directions_plot_the_same_number_of_pixels() {
    let mut fwd = Pict::new(12, 7);
    fwd.draw_line((0, 0), (10, 5), 0xFFFFFF);
    let mut bwd = Pict::new(12, 7);
    bwd.draw_line((10, 5), (0, 0), 0xFFFFFF);
    // One pixel per unit of the driving extent in either direction.
    assert_eq!(count_colored(&fwd, 0xFFFFFF), 10);
    assert_eq!(count_colored(&bwd, 0xFFFFFF), 10);

    let mut dfwd = Pict::new(8, 8);
    dfwd.draw_line((0, 0), (6, 6), 0xFFFFFF);
    let mut dbwd = Pict::new(8, 8);
    dbwd.draw_line((6, 6), (0, 0), 0xFFFFFF);
    assert_eq!(count_colored(&dfwd, 0xFFFFFF), 6);
    assert_eq!(count_colored(&dbwd, 0xFFFFFF), 6);
}

#[test]
fn line_runs_off_canvas_without_panicking() {
    let mut pict = Pict::new(4, 4);
    pict.draw_line((-5, -5), (8, 8), 0x777777);
    // The in-bounds stretch of the diagonal is painted.
    assert_eq!(pict.pixel_at(0, 0), 0x777777);
    assert_eq!(pict.pixel_at(3, 3), 0x777777);
}

#[test]
fn image_buffer_has_header_then_triples() {
    let mut pict = Pict::new(2, 2);
    pict.plot(0, 0, 0x112233);
    pict.plot(1, 0, 0x445566);
    pict.plot(0, 1, 0x778899);
    pict.plot(1, 1, 0xAABBCC);
    let buf = pict.image_buffer();
    let mut expected: Vec<u8> = Vec::new();
    expected.extend_from_slice(b"P6\n2 2\n255\n");
    expected.extend_from_slice(&[0x11, 0x22, 0x33, 0x44, 0x55, 0x66, 0x77, 0x88, 0x99, 0xAA, 0xBB, 0xCC]);
    assert_eq!(buf, expected);
    // Pre-base64 buffer length: header length plus 3 bytes per pixel.
    assert_eq!(buf.len(), b"P6\n2 2\n255\n".len() + 3 * 2 * 2);
}

#[test]
fn image_buffer_discards_bits_above_23() {
    let mut pict = Pict::new(1, 1);
    pict.plot(0, 0, 0xFF123456);
    let buf = pict.image_buffer();
    let mut expected: Vec<u8> = Vec::new();
    expected.extend_from_slice(b"P6\n1 1\n255\n");
    expected.extend_from_slice(&[0x12, 0x34, 0x56]);
    assert_eq!(buf, expected);
}

#[test]
fn header_prints_dimensions_in_decimal() {
    let pict = Pict::new(123, 7);
    let buf = pict.image_buffer();
    assert!(buf.starts_with(b"P6\n123 7\n255\n"));
}

#[test]
fn dump_payload_decodes_back_to_the_buffer() {
    let mut pict = Pict::new(3, 2);
    pict.plot(0, 0, 0x010203);
    pict.plot(2, 1, 0xFEDCBA);
    let out = pict.dump_iterm2_image(None);
    // The payload sits between the colon and the trailing bell.
    let colon = out.iter().position(|&b| b == b':').expect("no colon in dump output");
    assert_eq!(*out.last().expect("empty dump output"), 0x07);
    let payload = &out[colon + 1..out.len() - 1];
    let decoded = BASE64_STANDARD.decode(payload).expect("payload is not base64");
    assert_eq!(decoded, pict.image_buffer());
}

#[test]
fn dump_payload_is_base64_of_the_buffer() {
    let mut pict = Pict::new(1, 1);
    pict.plot(0, 0, 0x040506);
    let out = pict.dump_iterm2_image(None);
    let buf = pict.image_buffer();
    let encoded = BASE64_STANDARD.encode(buf.as_slice());
    assert!(contains_sub(&out, encoded.as_bytes()));
    // The payload really is encoded, not the raw buffer.
    assert!(!contains_sub(&out, buf.as_slice()));
}

#[test]
fn dump_output_is_deterministic() {
    let mut a = Pict::new(5, 4);
    let mut b = Pict::new(5, 4);
    for x in 0..5isize {
        a.plot(x, 2, 0x00FF7F);
        b.plot(x, 2, 0x00FF7F);
    }
    assert_eq!(a.dump_iterm2_image(None), b.dump_iterm2_image(None));
    assert_eq!(a.dump_iterm2_image(Some(50)), b.dump_iterm2_image(Some(50)));
}

#[test]
fn dump_scale_controls_the_width_hint() {
    let pict = Pict::new(2, 2);
    let with_scale = pict.dump_iterm2_image(Some(50));
    assert!(contains_sub(&with_scale, b";width=50%"));
    let without_scale = pict.dump_iterm2_image(None);
    assert!(!contains_sub(&without_scale, b";width="));
}

#[test]
fn dump_starts_with_the_escape_introducer() {
    let pict = Pict::new(1, 1);
    let out = pict.dump_iterm2_image(None);
    assert!(out.starts_with(b"\x1b]1337;File=inline=1:"));
    let scaled = pict.dump_iterm2_image(Some(25));
    assert!(scaled.starts_with(b"\x1b]1337;File=inline=1;width=25%:"));
}

#[test]
fn zero_sized_canvases_still_encode() {
    let empty = Pict::new(0, 0);
    let buf = empty.image_buffer();
    assert_eq!(buf, b"P6\n0 0\n255\n".to_vec());
    let row = Pict::new(5, 0);
    assert_eq!(row.image_buffer(), b"P6\n5 0\n255\n".to_vec());
    let _ = empty.dump_iterm2_image(None);
}
