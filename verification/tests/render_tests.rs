use glitch_slice::color::{Color, ONE};
use glitch_slice::config::Config;
use glitch_slice::error::Error;
use glitch_slice::geometry::Rectangle;
use glitch_slice::image::{ColorType, DecodedImage, Image};
use glitch_slice::random::RandomSource;
use glitch_slice::render::{
    composite_channel, gradient_at, interior_count, is_border_pixel, noise_after, render_cell,
    render_cell_from, HALF,
};

const BLACK: Color = Color { r: 0, g: 0, b: 0, a: ONE };

const SAMPLES: [u32; 9] = [
    0,
    0xFFFF_FFFF,
    0x8000_0000,
    0x4000_0000,
    0xC000_0000,
    123_456_789,
    4_000_000_000,
    1,
    0x7FFF_FFFF,
];

struct Tape {
    values: Vec<u32>,
    next: usize,
}

impl RandomSource for Tape {
    fn next_u32(&mut self) -> u32 {
        let value: u32 = self.values[self.next % self.values.len()];
        self.next += 1;
        value
    }
}

fn patterned(width: u32, height: u32) -> DecodedImage {
    let count: usize = (width as usize) * (height as usize) * 4;
    let mut pixels: Vec<u8> = Vec::with_capacity(count);
    for i in 0..count {
        pixels.push(((i * 13 + 5) % 256) as u8);
    }
    DecodedImage { width, height, color_type: ColorType::Rgba, bit_depth: 8, pixels }
}

#[test]
fn half_is_half_of_one() {
    assert_eq!(2 * HALF, ONE);
}

#[test]
fn default_config_has_the_standard_options() {
    let config = Config::default();
    assert_eq!(
        config,
        Config {
            strip_width: 50,
            split_min: 4,
            split_max: 8,
            border_leading: 3,
            border_trailing: 4,
            noise_scale: 10,
            noise_decay: 5,
            gradient_strength: 4,
        }
    );
    assert!(config.is_valid());
}

#[test]
fn config_with_a_zero_divisor_or_an_empty_range_is_invalid() {
    let good = Config::default();
    assert!(!Config { strip_width: 0, ..good }.is_valid());
    assert!(!Config { split_min: 9, ..good }.is_valid());
    assert!(!Config { noise_scale: 0, ..good }.is_valid());
    assert!(!Config { noise_decay: 0, ..good }.is_valid());
    assert!(!Config { gradient_strength: 0, ..good }.is_valid());
    assert!(Config { split_min: 8, border_leading: 0, border_trailing: 0, ..good }.is_valid());
}

#[test]
fn frame_is_three_pixels_at_the_leading_and_four_at_the_trailing_edge() {
    let config = Config::default();
    let cell = Rectangle { start: (10, 20), end: (40, 60) };
    // along x, at an interior row
    assert!(is_border_pixel(&cell, &config, 10, 30));
    assert!(is_border_pixel(&cell, &config, 12, 30));
    assert!(!is_border_pixel(&cell, &config, 13, 30));
    assert!(!is_border_pixel(&cell, &config, 14, 30));
    assert!(!is_border_pixel(&cell, &config, 35, 30));
    assert!(is_border_pixel(&cell, &config, 36, 30));
    assert!(is_border_pixel(&cell, &config, 39, 30));
    // along y, at an interior column
    assert!(is_border_pixel(&cell, &config, 20, 20));
    assert!(is_border_pixel(&cell, &config, 20, 22));
    assert!(!is_border_pixel(&cell, &config, 20, 23));
    assert!(!is_border_pixel(&cell, &config, 20, 24));
    assert!(!is_border_pixel(&cell, &config, 20, 55));
    assert!(is_border_pixel(&cell, &config, 20, 56));
    assert!(is_border_pixel(&cell, &config, 20, 59));
    // a corner of the interior and a corner of the frame
    assert!(!is_border_pixel(&cell, &config, 13, 23));
    assert!(is_border_pixel(&cell, &config, 12, 22));
}

#[test]
fn a_cell_no_wider_than_the_frame_is_all_border() {
    let config = Config::default();
    let cell = Rectangle { start: (0, 0), end: (7, 30) };
    for x in 0..7usize {
        for y in 0..30usize {
            assert!(is_border_pixel(&cell, &config, x, y));
        }
    }
    let wider = Rectangle { start: (0, 0), end: (8, 30) };
    assert!(!is_border_pixel(&wider, &config, 3, 10));
}

#[test]
fn a_cell_smaller_than_the_trailing_inset_is_all_border() {
    let config = Config::default();
    let cell = Rectangle { start: (0, 0), end: (2, 2) };
    assert!(is_border_pixel(&cell, &config, 0, 0));
    assert!(is_border_pixel(&cell, &config, 1, 1));
}

#[test]
fn gradient_darkens_from_the_top_down() {
    let config = Config::default();
    let cell = Rectangle { start: (0, 0), end: (5, 20) };
    assert_eq!(gradient_at(&cell, &config, 0), 0);
    assert_eq!(gradient_at(&cell, &config, 3), -626_688);
    assert_eq!(gradient_at(&cell, &config, 10), -2_088_960);
    assert_eq!(gradient_at(&cell, &config, 19), -3_969_024);
    let lower = Rectangle { start: (0, 100), end: (5, 110) };
    assert_eq!(gradient_at(&lower, &config, 103), -1_253_376);
    let strong = Config { gradient_strength: 1, ..config };
    assert_eq!(gradient_at(&cell, &strong, 10), -HALF);
}

#[test]
fn noise_adds_each_centred_sample_and_decays() {
    let config = Config::default();
    assert_eq!(noise_after(&config, &[]), 0);
    // (0 - 1/2) / 10 = -835584, of which a fifth is taken back
    assert_eq!(noise_after(&config, &[0]), -668_468);
    assert_eq!(noise_after(&config, &[0x8000_0000]), 0);
    assert_eq!(noise_after(&config, &[0xFFFF_FFFF]), 668_467);
    let expected: [i128; 9] = [
        -668_468, 133_692, 106_954, -248_671, 135_297, -521_800, 159_210, -541_100, -432_880,
    ];
    for n in 0..9usize {
        assert_eq!(noise_after(&config, &SAMPLES[..n + 1]), expected[n]);
    }
}

#[test]
fn noise_without_decay_or_scaling() {
    let config = Config { noise_scale: 1, noise_decay: u32::MAX, ..Config::default() };
    // each sample of 0 adds exactly -1/2, and nothing is taken back
    assert_eq!(noise_after(&config, &[0]), -(HALF as i128));
    assert_eq!(noise_after(&config, &[0, 0, 0]), -3 * (HALF as i128));
    let all = Config { noise_scale: 1, noise_decay: 1, ..Config::default() };
    // with a decay of 1 everything is taken back
    assert_eq!(noise_after(&all, &[0, 0xFFFF_FFFF, 5]), 0);
}

#[test]
fn composite_adds_and_clamps() {
    assert_eq!(composite_channel(8_388_608, -668_468, -1_253_376), 6_466_764);
    assert_eq!(composite_channel(ONE, 1, 0), ONE);
    assert_eq!(composite_channel(0, -1, 0), 0);
    assert_eq!(composite_channel(0, 0, 0), 0);
    assert_eq!(composite_channel(ONE, 0, 0), ONE);
    assert_eq!(composite_channel(i32::MIN, i128::MAX, i32::MIN), ONE);
    assert_eq!(composite_channel(i32::MAX, i128::MIN, i32::MAX), 0);
    assert_eq!(composite_channel(i32::MIN, 0x1_FFFF_FFFF, 0), ONE);
    assert_eq!(composite_channel(i32::MAX, -0x1_FFFF_FFFF, 0), 0);
    assert_eq!(composite_channel(-5, 10, -2), 3);
}

#[test]
fn render_cell_from_paints_frame_and_interior() {
    let input = patterned(12, 11);
    let original = Image::new_from_libpng(&input).unwrap();
    let mut image = Image::new_from_libpng(&input).unwrap();
    let config = Config::default();
    let cell = Rectangle { start: (1, 1), end: (11, 11) };
    let mean = Color { r: 8_388_608, g: 4_194_304, b: 12_582_912, a: ONE };
    assert_eq!(render_cell_from(&mut image, cell, mean, &config, &SAMPLES), Ok(()));
    let interior: [((usize, usize), (i32, i32, i32)); 9] = [
        ((3, 3), (6_466_764, 2_272_460, 10_661_068)),
        ((3, 4), (6_851_132, 2_656_828, 11_045_436)),
        ((3, 5), (6_406_602, 2_212_298, 10_600_906)),
        ((4, 3), (6_886_561, 2_692_257, 11_080_865)),
        ((4, 4), (6_852_737, 2_658_433, 11_047_041)),
        ((4, 5), (5_777_848, 1_583_544, 9_972_152)),
        ((5, 3), (7_294_442, 3_100_138, 11_488_746)),
        ((5, 4), (6_176_340, 1_982_036, 10_370_644)),
        ((5, 5), (5_866_768, 1_672_464, 10_061_072)),
    ];
    for y in 0..11usize {
        for x in 0..12usize {
            let got = *image.get(x, y).unwrap();
            if x < 1 || x >= 11 || y < 1 {
                assert_eq!(got, *original.get(x, y).unwrap());
            } else if 4 <= x && x < 7 && 4 <= y && y < 7 {
                let mut found: bool = false;
                for ((ix, iy), (r, g, b)) in interior {
                    if ix + 1 == x && iy + 1 == y {
                        assert_eq!(got, Color { r, g, b, a: ONE });
                        found = true;
                    }
                }
                assert!(found);
            } else {
                assert_eq!(got, BLACK);
            }
        }
    }
}

#[test]
fn render_cell_from_clamps_to_the_unit_range() {
    let config = Config::default();
    let cell = Rectangle { start: (0, 0), end: (10, 10) };
    let mut image = Image::new_from_libpng(&patterned(10, 10)).unwrap();
    let white = Color { r: ONE, g: ONE, b: ONE, a: ONE };
    assert_eq!(render_cell_from(&mut image, cell, white, &config, &SAMPLES), Ok(()));
    assert_eq!(
        *image.get(3, 3).unwrap(),
        Color { r: 14_789_836, g: 14_789_836, b: 14_789_836, a: ONE }
    );
    assert_eq!(
        *image.get(5, 5).unwrap(),
        Color { r: 14_189_840, g: 14_189_840, b: 14_189_840, a: ONE }
    );
    let dark = Color { r: 0, g: 0, b: 0, a: 0 };
    assert_eq!(render_cell_from(&mut image, cell, dark, &config, &SAMPLES), Ok(()));
    assert_eq!(*image.get(3, 3).unwrap(), BLACK);
    assert_eq!(*image.get(5, 5).unwrap(), BLACK);
    let bright = Color { r: i32::MAX, g: i32::MAX, b: i32::MAX, a: 0 };
    assert_eq!(render_cell_from(&mut image, cell, bright, &config, &SAMPLES), Ok(()));
    assert_eq!(*image.get(4, 4).unwrap(), Color { r: ONE, g: ONE, b: ONE, a: ONE });
}

#[test]
fn render_cell_from_beyond_the_image_fails_before_writing() {
    let input = patterned(10, 10);
    let mut image = Image::new_from_libpng(&input).unwrap();
    let config = Config::default();
    let mean = Color { r: 1, g: 2, b: 3, a: 4 };
    let wide = Rectangle { start: (1, 0), end: (11, 10) };
    assert_eq!(
        render_cell_from(&mut image, wide, mean, &config, &SAMPLES),
        Err(Error::OutOfBounds)
    );
    let tall = Rectangle { start: (0, 1), end: (10, 11) };
    assert_eq!(
        render_cell_from(&mut image, tall, mean, &config, &SAMPLES),
        Err(Error::OutOfBounds)
    );
    assert_eq!(image.to_libpng(), input);
}

#[test]
fn rendering_a_cell_without_rows_changes_nothing() {
    let input = patterned(10, 10);
    let mut image = Image::new_from_libpng(&input).unwrap();
    let config = Config::default();
    let mean = Color { r: 1, g: 2, b: 3, a: 4 };
    let flat = Rectangle { start: (0, 5), end: (10, 5) };
    assert_eq!(render_cell_from(&mut image, flat, mean, &config, &[]), Ok(()));
    let mut rng = Tape { values: vec![1, 2, 3], next: 0 };
    assert_eq!(render_cell(&mut image, flat, mean, &config, &mut rng), Ok(()));
    assert_eq!(rng.next, 0);
    assert_eq!(image.to_libpng(), input);
}

#[test]
fn render_cell_draws_one_sample_for_each_interior_pixel() {
    let input = patterned(12, 11);
    let mut by_tape = Image::new_from_libpng(&input).unwrap();
    let mut by_slice = Image::new_from_libpng(&input).unwrap();
    let config = Config::default();
    let cell = Rectangle { start: (1, 1), end: (11, 11) };
    let mean = Color { r: 8_388_608, g: 4_194_304, b: 12_582_912, a: ONE };
    let mut rng = Tape { values: SAMPLES.to_vec(), next: 0 };
    assert_eq!(render_cell(&mut by_tape, cell, mean, &config, &mut rng), Ok(()));
    assert_eq!(rng.next, 9);
    assert_eq!(render_cell_from(&mut by_slice, cell, mean, &config, &SAMPLES), Ok(()));
    assert_eq!(by_tape.to_libpng(), by_slice.to_libpng());
}

#[test]
fn render_cell_beyond_the_image_draws_nothing() {
    let input = patterned(10, 10);
    let mut image = Image::new_from_libpng(&input).unwrap();
    let config = Config::default();
    let mean = Color { r: 1, g: 2, b: 3, a: 4 };
    let mut rng = Tape { values: vec![1, 2, 3], next: 0 };
    let wide = Rectangle { start: (0, 0), end: (11, 10) };
    assert_eq!(render_cell(&mut image, wide, mean, &config, &mut rng), Err(Error::OutOfBounds));
    assert_eq!(rng.next, 0);
    assert_eq!(image.to_libpng(), input);
}

#[test]
fn a_frame_of_width_zero_leaves_no_border() {
    let config = Config { border_leading: 0, border_trailing: 0, ..Config::default() };
    let cell = Rectangle { start: (0, 0), end: (3, 3) };
    let mut image = Image::new_from_libpng(&patterned(3, 3)).unwrap();
    let mean = Color { r: HALF, g: HALF, b: HALF, a: 0 };
    let samples: [u32; 9] = [0x8000_0000; 9];
    assert_eq!(render_cell_from(&mut image, cell, mean, &config, &samples), Ok(()));
    // no noise; the gradient is a quarter of 0, 1/3 and 2/3
    for x in 0..3usize {
        assert_eq!(*image.get(x, 0).unwrap(), Color { r: HALF, g: HALF, b: HALF, a: ONE });
        assert_eq!(
            *image.get(x, 1).unwrap(),
            Color { r: HALF - 1_392_640, g: HALF - 1_392_640, b: HALF - 1_392_640, a: ONE }
        );
        assert_eq!(
            *image.get(x, 2).unwrap(),
            Color { r: HALF - 2_785_280, g: HALF - 2_785_280, b: HALF - 2_785_280, a: ONE }
        );
    }
}

#[test]
fn interior_count_is_the_area_inside_the_frame() {
    let config = Config::default();
    assert_eq!(interior_count(&Rectangle { start: (0, 0), end: (30, 20) }, &config), Some(299));
    assert_eq!(interior_count(&Rectangle { start: (1, 1), end: (11, 11) }, &config), Some(9));
    assert_eq!(interior_count(&Rectangle { start: (0, 0), end: (8, 8) }, &config), Some(1));
    assert_eq!(interior_count(&Rectangle { start: (0, 0), end: (7, 50) }, &config), Some(0));
    assert_eq!(interior_count(&Rectangle { start: (5, 5), end: (5, 5) }, &config), Some(0));
    let bare = Config { border_leading: 0, border_trailing: 0, ..config };
    assert_eq!(interior_count(&Rectangle { start: (2, 3), end: (6, 10) }, &bare), Some(28));
    let huge = Rectangle { start: (0, 0), end: (usize::MAX, usize::MAX) };
    assert_eq!(interior_count(&huge, &bare), None);
    let wide = Rectangle { start: (0, 0), end: (usize::MAX, 1) };
    assert_eq!(interior_count(&wide, &bare), Some(usize::MAX));
}
