use raytrace::canvas::{canvas_to_ppm, get_index, Canvas};
use raytrace::arith::times;
use raytrace::level::{clamp_color, MAX_COLOUR, MAX_COLOUR_BITS};
use raytrace::tuples::Tuple;

fn colour(r: f32, g: f32, b: f32) -> Tuple {
    Tuple::new_colour(r.to_bits(), g.to_bits(), b.to_bits())
}

fn expected_level(c: f32) -> usize {
    (255 as f32 * c).min(255 as f32).max(0.0) as usize
}

fn next(state: &mut u32) -> u32 {
    let mut x = *state;
    x ^= x << 13;
    x ^= x >> 17;
    x ^= x << 5;
    *state = x;
    x
}

#[test]
fn build_canvas() {
    let canvas = Canvas::new(10, 20);
    let black = colour(0.0, 0.0, 0.0);
    assert_eq!(canvas.width(), 20);
    assert_eq!(canvas.height(), 10);
    assert_eq!(canvas.pixels().len(), 20 * 10);
    assert!(canvas.pixels().iter().all(|&c| c == black))
}

#[test]
fn mutate_canvas() {
    let mut canvas = Canvas::new(10, 20);
    let update_colour = colour(1.0, 0.0, 0.0);
    canvas.set_pixel(5, 5, &update_colour);
    assert_eq!(canvas.get_pixel(5, 5).unwrap(), &update_colour);
}

#[test]
fn index_is_row_major() {
    assert_eq!(get_index(20, 0, 0), 0);
    assert_eq!(get_index(20, 5, 0), 5);
    assert_eq!(get_index(20, 0, 1), 20);
    assert_eq!(get_index(20, 5, 5), 105);
    assert_eq!(get_index(20, 19, 9), 199);
}

#[test]
fn new_canvas_is_black_pattern_for_pattern() {
    let canvas = Canvas::new(3, 4);
    assert_eq!(canvas.pixels().len(), 12);
    for p in canvas.pixels() {
        assert_eq!((p.x, p.y, p.z, p.w), (0, 0, 0, 0));
    }
    for y in 0..3 {
        for x in 0..4 {
            let p = canvas.get_pixel(x, y).unwrap();
            assert_eq!((p.x, p.y, p.z, p.w), (0, 0, 0, 0));
        }
    }
}

#[test]
fn empty_canvases_have_no_pixels() {
    assert_eq!(Canvas::new(0, 7).pixels().len(), 0);
    assert_eq!(Canvas::new(7, 0).pixels().len(), 0);
    assert!(Canvas::new(0, 7).get_pixel(0, 0).is_none());
    assert!(Canvas::new(7, 0).get_pixel(0, 0).is_none());
}

#[test]
fn new_fill_sets_every_pixel() {
    let fill = colour(1.0, 0.8, 0.6);
    let canvas = Canvas::new_fill(2, 10, &fill);
    assert_eq!(canvas.width(), 10);
    assert_eq!(canvas.height(), 2);
    assert_eq!(canvas.pixels().len(), 20);
    for p in canvas.pixels() {
        assert_eq!((p.x, p.y, p.z, p.w), (fill.x, fill.y, fill.z, fill.w));
    }
}

#[test]
fn set_pixel_writes_the_row_major_position_and_nothing_else() {
    let mut canvas = Canvas::new(3, 4);
    let red = colour(1.0, 0.0, 0.0);
    canvas.set_pixel(2, 1, &red);
    for (i, p) in canvas.pixels().iter().enumerate() {
        if i == 1 * 4 + 2 {
            assert_eq!((p.x, p.y, p.z, p.w), (red.x, red.y, red.z, red.w));
        } else {
            assert_eq!((p.x, p.y, p.z, p.w), (0, 0, 0, 0));
        }
    }
    let read = canvas.get_pixel(2, 1).unwrap();
    assert_eq!((read.x, read.y, read.z, read.w), (red.x, red.y, red.z, red.w));
    assert_eq!(canvas.width(), 4);
    assert_eq!(canvas.height(), 3);
}

#[test]
fn set_pixel_calls_can_be_chained() {
    let mut canvas = Canvas::new(2, 2);
    let red = colour(1.0, 0.0, 0.0);
    let blue = colour(0.0, 0.0, 1.0);
    canvas.set_pixel(0, 0, &red).set_pixel(1, 1, &blue).set_pixel(0, 0, &blue);
    assert_eq!(canvas.get_pixel(0, 0).unwrap().z, blue.z);
    assert_eq!(canvas.get_pixel(0, 0).unwrap().x, blue.x);
    assert_eq!(canvas.get_pixel(1, 1).unwrap().z, blue.z);
    assert_eq!(canvas.get_pixel(1, 0).unwrap().z, 0);
}

#[test]
fn get_pixel_off_the_canvas_is_none() {
    let canvas = Canvas::new(10, 20);
    assert!(canvas.get_pixel(19, 9).is_some());
    assert!(canvas.get_pixel(20, 0).is_none());
    assert!(canvas.get_pixel(0, 10).is_none());
    assert!(canvas.get_pixel(20, 9).is_none());
    assert!(canvas.get_pixel(usize::MAX, usize::MAX).is_none());
    assert!(canvas.get_pixel(usize::MAX, 0).is_none());
    assert!(canvas.get_pixel(0, usize::MAX).is_none());
}

#[test]
fn levels_of_plain_channels() {
    assert_eq!(MAX_COLOUR, 255);
    assert_eq!(clamp_color(0.0f32.to_bits()), 0);
    assert_eq!(clamp_color((-0.0f32).to_bits()), 0);
    assert_eq!(clamp_color(1.0f32.to_bits()), 255);
    assert_eq!(clamp_color(0.5f32.to_bits()), 127);
    assert_eq!(clamp_color(0.8f32.to_bits()), 204);
    assert_eq!(clamp_color(0.6f32.to_bits()), 153);
    assert_eq!(clamp_color(0.2f32.to_bits()), 51);
    assert_eq!(clamp_color(1.5f32.to_bits()), 255);
    assert_eq!(clamp_color((-0.5f32).to_bits()), 0);
    assert_eq!(clamp_color(0.003f32.to_bits()), 0);
    assert_eq!(clamp_color(0.004f32.to_bits()), 1);
}

#[test]
fn levels_of_odd_channels() {
    assert_eq!(clamp_color(f32::INFINITY.to_bits()), 255);
    assert_eq!(clamp_color(f32::NEG_INFINITY.to_bits()), 0);
    assert_eq!(clamp_color(f32::NAN.to_bits()), 255);
    assert_eq!(clamp_color((-f32::NAN).to_bits()), 255);
    assert_eq!(clamp_color(f32::MAX.to_bits()), 255);
    assert_eq!(clamp_color(f32::MIN.to_bits()), 0);
    assert_eq!(clamp_color(f32::MIN_POSITIVE.to_bits()), 0);
    assert_eq!(clamp_color(1), 0);
}

#[test]
fn levels_match_the_hardware_near_whole_levels() {
    for level in 1..=255u32 {
        let exact = level as f32 / 255.0;
        for pattern in exact.to_bits() - 3..=exact.to_bits() + 3 {
            let c = f32::from_bits(pattern);
            assert_eq!(clamp_color(pattern), expected_level(c), "{:#010x}", pattern);
        }
    }
}

#[test]
fn levels_are_the_exact_product_cut_down() {
    let mut state = 0x0bad_5eedu32;
    for _ in 0..300_000 {
        let c = next(&mut state) as f32 / u32::MAX as f32 * 1.01;
        let exact = (c as f64 * 255.0).floor().min(255.0) as usize;
        assert_eq!(clamp_color(c.to_bits()), exact, "{}", c);
    }
    assert_eq!(clamp_color(0.999999f32.to_bits()), 254);
    assert_eq!(clamp_color(0.99999994f32.to_bits()), 254);
    assert_eq!(clamp_color(0.003921569f32.to_bits()), 1);
    assert_eq!(clamp_color(0.0039215684f32.to_bits()), 0);
}

#[test]
fn levels_are_the_levels_of_the_product_with_the_largest_level() {
    assert_eq!(MAX_COLOUR_BITS, 255.0f32.to_bits());
    let mut state = 0x7137_4491u32;
    for _ in 0..300_000 {
        let pattern = next(&mut state);
        let product = f32::from_bits(times(MAX_COLOUR_BITS, pattern));
        assert_eq!(clamp_color(pattern), product.min(255.0).max(0.0) as usize, "{:#010x}", pattern);
        let c = next(&mut state) as f32 / u32::MAX as f32 * 1.01;
        let product = f32::from_bits(times(MAX_COLOUR_BITS, c.to_bits()));
        assert_eq!(clamp_color(c.to_bits()), product.min(255.0).max(0.0) as usize, "{}", c);
    }
}

#[test]
fn levels_match_the_hardware_on_random_patterns() {
    let mut state = 0x1234_5678u32;
    for _ in 0..300_000 {
        let pattern = next(&mut state);
        assert_eq!(clamp_color(pattern), expected_level(f32::from_bits(pattern)), "{:#010x}", pattern);
        let c = next(&mut state) as f32 / u32::MAX as f32 * 1.01;
        assert_eq!(clamp_color(c.to_bits()), expected_level(c), "{}", c);
    }
}

#[test]
fn levels_match_the_hardware_across_exponents() {
    for exponent in 0..=255u32 {
        for fraction in [0u32, 1, 2, 0x3f_ffff, 0x40_0000, 0x40_0001, 0x7f_fffe, 0x7f_ffff] {
            for sign in [0u32, 0x8000_0000] {
                let pattern = sign | (exponent << 23) | fraction;
                assert_eq!(
                    clamp_color(pattern),
                    expected_level(f32::from_bits(pattern)),
                    "{:#010x}",
                    pattern
                );
            }
        }
    }
}

#[test]
fn ppm_of_a_two_by_two_canvas_with_one_red_pixel() {
    let mut canvas = Canvas::new(2, 2);
    canvas.set_pixel(0, 0, &colour(1.0, 0.0, 0.0));
    assert_eq!(canvas_to_ppm(&canvas), "P3\n2 2\n255\n255 0 0 0 0 0 0 0 0 0 0 0\n");
}

#[test]
fn ppm_header() {
    let ppm = canvas_to_ppm(&Canvas::new(3, 5));
    let lines: Vec<&str> = ppm.lines().collect();
    assert_eq!(lines[0], "P3");
    assert_eq!(lines[1], "5 3");
    assert_eq!(lines[2], "255");
    let wide = canvas_to_ppm(&Canvas::new(1, 1204));
    assert!(wide.starts_with("P3\n1204 1\n255\n"));
    let tall = canvas_to_ppm(&Canvas::new(100, 0));
    assert_eq!(tall, "P3\n0 100\n255\n");
}

#[test]
fn ppm_of_an_empty_canvas_is_the_header() {
    assert_eq!(canvas_to_ppm(&Canvas::new(0, 0)), "P3\n0 0\n255\n");
}

#[test]
fn ppm_writes_red_then_blue_then_green() {
    let mut canvas = Canvas::new(1, 1);
    canvas.set_pixel(0, 0, &colour(1.0, 0.5, 0.0));
    assert_eq!(canvas_to_ppm(&canvas), "P3\n1 1\n255\n255 0 127\n");
}

#[test]
fn ppm_clamps_the_levels() {
    let mut canvas = Canvas::new(3, 5);
    canvas.set_pixel(0, 0, &colour(1.5, 0.0, 0.0));
    canvas.set_pixel(2, 1, &colour(0.0, 0.5, 0.0));
    canvas.set_pixel(4, 2, &colour(-0.5, 0.0, 1.0));
    assert_eq!(
        canvas_to_ppm(&canvas),
        "P3\n5 3\n255\n\
         255 0 0 0 0 0 0 0 0 0 0 0 0 0 0\n\
         0 0 0 0 0 0 0 0 127 0 0 0 0 0 0\n\
         0 0 0 0 0 0 0 0 0 0 0 0 0 255 0\n"
    );
}

#[test]
fn ppm_puts_five_pixels_on_a_line_across_rows() {
    let mut canvas = Canvas::new(2, 3);
    canvas.set_pixel(2, 0, &colour(1.0, 1.0, 1.0));
    canvas.set_pixel(0, 1, &colour(0.2, 0.2, 0.2));
    canvas.set_pixel(2, 1, &colour(1.0, 0.0, 0.0));
    assert_eq!(
        canvas_to_ppm(&canvas),
        "P3\n3 2\n255\n\
         0 0 0 0 0 0 255 255 255 51 51 51 0 0 0\n\
         255 0 0\n"
    );
}

#[test]
fn ppm_lines_of_a_filled_canvas_are_short() {
    let canvas = Canvas::new_fill(2, 10, &colour(1.0, 0.8, 0.6));
    let ppm = canvas_to_ppm(&canvas);
    for line in ppm.lines() {
        assert!(line.len() <= 70);
    }
    assert_eq!(
        ppm,
        "P3\n10 2\n255\n\
         255 153 204 255 153 204 255 153 204 255 153 204 255 153 204\n\
         255 153 204 255 153 204 255 153 204 255 153 204 255 153 204\n\
         255 153 204 255 153 204 255 153 204 255 153 204 255 153 204\n\
         255 153 204 255 153 204 255 153 204 255 153 204 255 153 204\n"
    );
}

#[test]
fn ppm_lines_are_short_for_the_longest_levels() {
    let canvas = Canvas::new_fill(7, 13, &colour(1.0, 1.0, 1.0));
    let ppm = canvas_to_ppm(&canvas);
    let mut longest = 0;
    for line in ppm.lines() {
        assert!(line.len() <= 70);
        longest = longest.max(line.len());
    }
    assert_eq!(longest, 59);
    assert_eq!(ppm.lines().count(), 3 + 19);
}

#[test]
fn ppm_ends_with_a_newline() {
    for (height, width) in [(0, 0), (1, 1), (2, 2), (1, 5), (1, 6), (3, 3), (2, 10), (7, 13)] {
        let ppm = canvas_to_ppm(&Canvas::new(height, width));
        assert_eq!(ppm.chars().last(), Some('\n'));
        assert!(!ppm.ends_with("\n\n"));
    }
}
