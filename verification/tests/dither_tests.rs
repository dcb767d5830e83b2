use string_art::dither::calculate_color_distance;
use string_art::dither::calculate_quantization_error;
use string_art::dither::dither_image;
use string_art::dither::find_closest_color;
use string_art::raster::Color;
use string_art::raster::Raster;

fn rgb(r: u8, g: u8, b: u8) -> Color {
    Color { r, g, b }
}

#[test]
fn color_distance_is_the_sum_of_squared_differences() {
    let a = rgb(100, 100, 100);
    let b = rgb(110, 90, 100);
    // 10^2 + 10^2 + 0^2
    assert_eq!(calculate_color_distance(a, b), 200);
    assert_eq!(calculate_color_distance(a, a), 0);
    assert_eq!(
        calculate_color_distance(rgb(0, 0, 0), rgb(255, 255, 255)),
        3 * 255 * 255
    );
}

#[test]
fn closest_color_picks_the_nearest_palette_entry() {
    let palette = vec![rgb(0, 0, 0), rgb(255, 255, 255), rgb(90, 90, 90)];
    assert_eq!(find_closest_color(rgb(100, 100, 100), &palette), rgb(90, 90, 90));
    assert_eq!(find_closest_color(rgb(10, 10, 10), &palette), rgb(0, 0, 0));
    assert_eq!(find_closest_color(rgb(200, 220, 230), &palette), rgb(255, 255, 255));
}

#[test]
fn closest_color_takes_the_first_on_a_tie() {
    let palette = vec![rgb(10, 0, 0), rgb(30, 0, 0)];
    // (20, 0, 0) is equally far from both entries
    assert_eq!(find_closest_color(rgb(20, 0, 0), &palette), rgb(10, 0, 0));
}

#[test]
fn quantization_error_is_the_channel_difference() {
    let e = calculate_quantization_error(rgb(100, 50, 0), rgb(90, 60, 0));
    assert_eq!((e.r, e.g, e.b), (10, -10, 0));
}

#[test]
fn dither_of_an_empty_raster_is_empty() {
    let palette = vec![rgb(0, 0, 0)];
    let img = Raster { width: 0, height: 0, pixels: vec![] };
    let out = dither_image(&img, &palette);
    assert_eq!(out.width, 0);
    assert_eq!(out.height, 0);
    assert!(out.pixels.is_empty());
}

#[test]
fn dither_replaces_every_pixel_with_a_palette_color() {
    let palette = vec![rgb(0, 0, 0), rgb(255, 255, 255)];
    let mut pixels = Vec::new();
    for i in 0..9u32 {
        let v = (i * 28) as u8;
        pixels.push(rgb(v, v, v));
    }
    let img = Raster { width: 3, height: 3, pixels };
    let out = dither_image(&img, &palette);
    assert_eq!(out.width, 3);
    assert_eq!(out.height, 3);
    for p in &out.pixels {
        assert!(*p == palette[0] || *p == palette[1]);
    }
}

#[test]
fn dither_diffuses_the_error_to_the_right_neighbor() {
    // pixel 0 snaps from (100, 0, 0) to (32, 0, 0), error 68; the right
    // neighbor receives 68 * 7 / 16 = 29 and then also snaps to (32, 0, 0),
    // though its own color (0, 0, 0) alone would have stayed black
    let palette = vec![rgb(0, 0, 0), rgb(32, 0, 0)];
    let img = Raster {
        width: 2,
        height: 1,
        pixels: vec![rgb(100, 0, 0), rgb(0, 0, 0)],
    };
    let out = dither_image(&img, &palette);
    assert_eq!(out.pixels, vec![rgb(32, 0, 0), rgb(32, 0, 0)]);

    let flat = Raster {
        width: 2,
        height: 1,
        pixels: vec![rgb(0, 0, 0), rgb(0, 0, 0)],
    };
    let out_flat = dither_image(&flat, &palette);
    assert_eq!(out_flat.pixels, vec![rgb(0, 0, 0), rgb(0, 0, 0)]);
}
