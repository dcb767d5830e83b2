use string_art::board::Nail;
use string_art::raster::Color;
use string_art::raster::Raster;
use string_art::stringifier::Stringifier;
use string_art::util::Dimensions;

fn white() -> Color {
    Color { r: 255, g: 255, b: 255 }
}

fn gray() -> Color {
    Color { r: 127, g: 127, b: 127 }
}

fn black() -> Color {
    Color { r: 0, g: 0, b: 0 }
}

// NWWWN
// W  W
// G B
// GG
// N
fn create_mock_board() -> (Vec<Nail>, Vec<Vec<Vec<(u32, u32)>>>, Raster) {
    let nails = vec![Nail(0, 0), Nail(0, 4), Nail(4, 0)];

    let p01 = vec![(0, 1), (0, 2), (0, 3)];
    let p02 = vec![(1, 0), (2, 0), (3, 0)];
    let p12 = vec![(1, 3), (2, 2), (3, 1)];

    let paths = vec![
        vec![vec![], p01.clone(), p02.clone()],
        vec![p01, vec![], p12.clone()],
        vec![p02, p12, vec![]],
    ];

    let mut pixels = Vec::new();
    for y in 0..5u32 {
        for x in 0..5u32 {
            let color = if y < 2 {
                white()
            } else if x < 2 {
                gray()
            } else {
                black()
            };
            pixels.push(color);
        }
    }
    let img = Raster { width: 5, height: 5, pixels };

    (nails, paths, img)
}

fn mock_palette() -> Vec<Color> {
    vec![white(), gray(), black()]
}

fn remaining_count(s: &Stringifier) -> usize {
    s.remaining_pixels.iter().filter(|c| c.is_some()).count()
}

#[test]
fn test_choose_next_nail() {
    let (_nails, paths, img) = create_mock_board();
    let palette = mock_palette();

    // only white participates, starting at nail 0
    let current_nails = vec![Some(0), None, None];

    let remaining = Stringifier::image_to_pixel_options(&img, &palette);
    let mut stringifier = Stringifier::from_parts(
        current_nails.clone(),
        paths,
        remaining,
        Dimensions::new(5, 5),
    );

    let next_nail = stringifier
        .next_nail(&current_nails)
        .expect("No next nail found");

    // white (color 0) moves to Nail(4, 0), which is nail index 2
    assert_eq!(next_nail, (0, 2));
}

#[test]
fn choose_two_nails() {
    let (_nails, paths, img) = create_mock_board();
    let palette = mock_palette();

    let mut current_nails = vec![Some(0), Some(0), Some(0)];

    let remaining = Stringifier::image_to_pixel_options(&img, &palette);
    let mut stringifier = Stringifier::from_parts(
        current_nails.clone(),
        paths,
        remaining,
        Dimensions::new(5, 5),
    );

    let next_nail = stringifier
        .next_nail(&current_nails)
        .expect("no next nail found");
    // white to Nail(4, 0)
    assert_eq!(next_nail, (0, 2));

    current_nails[next_nail.0] = Some(next_nail.1);

    let next_nail = stringifier
        .next_nail(&current_nails)
        .expect("no next nail found");
    // gray to Nail(0, 4)
    assert_eq!(next_nail, (1, 1));
}

#[test]
fn test_choose_path() {
    let (nails, paths, img) = create_mock_board();

    let chosen_path = Stringifier::choose_path(&nails, &paths, &img, white());

    assert_eq!(chosen_path, Some((Nail(0, 0), Nail(4, 0))));
}

#[test]
fn starting_nails_take_the_best_pair_per_color() {
    let (nails, paths, img) = create_mock_board();
    let palette = mock_palette();

    let starts = Stringifier::starting_nails(&nails, &paths, &palette, &img);

    assert_eq!(starts.len(), 3);
    // white: pair (0, 2) covers three white pixels
    assert_eq!(starts[0], Some(0));
    // gray: pair (0, 1) covers two gray pixels
    assert_eq!(starts[1], Some(0));
    // black: pair (1, 2) covers one black pixel at (2, 2)
    assert_eq!(starts[2], Some(1));
}

#[test]
fn no_mismatch_only_move_is_ever_selected() {
    let (_nails, paths, img) = create_mock_board();
    let palette = mock_palette();

    // black starts at nail 0; both its candidate paths cross only
    // white or gray pixels, so every candidate has zero matches
    let current_nails = vec![None, None, Some(0)];

    let remaining = Stringifier::image_to_pixel_options(&img, &palette);
    let mut stringifier = Stringifier::from_parts(
        current_nails.clone(),
        paths,
        remaining,
        Dimensions::new(5, 5),
    );

    let before = remaining_count(&stringifier);
    let next_nail = stringifier.next_nail(&current_nails);
    assert_eq!(next_nail, None);
    assert_eq!(remaining_count(&stringifier), before);
}

#[test]
fn committed_moves_shrink_coverage_strictly() {
    let (_nails, paths, img) = create_mock_board();
    let palette = mock_palette();

    let mut current_nails = vec![Some(0), Some(0), Some(0)];

    let remaining = Stringifier::image_to_pixel_options(&img, &palette);
    let mut stringifier = Stringifier::from_parts(
        current_nails.clone(),
        paths,
        remaining,
        Dimensions::new(5, 5),
    );

    let mut count = remaining_count(&stringifier);
    loop {
        let before = count;
        match stringifier.next_nail(&current_nails) {
            Some((color, nail)) => {
                current_nails[color] = Some(nail);
                count = remaining_count(&stringifier);
                assert!(count < before);
            }
            None => {
                assert_eq!(remaining_count(&stringifier), before);
                break;
            }
        }
    }
}

#[test]
fn pixel_options_map_colors_to_palette_indices() {
    let palette = mock_palette();
    let img = Raster {
        width: 2,
        height: 2,
        pixels: vec![white(), gray(), black(), Color { r: 9, g: 9, b: 9 }],
    };
    let options = Stringifier::image_to_pixel_options(&img, &palette);
    assert_eq!(options, vec![Some(0), Some(1), Some(2), None]);
}

#[test]
fn empty_target_yields_no_move() {
    let (_nails, paths, _img) = create_mock_board();
    let current_nails = vec![Some(0), Some(0), Some(0)];
    let remaining = vec![None; 25];
    let mut stringifier = Stringifier::from_parts(
        current_nails.clone(),
        paths,
        remaining,
        Dimensions::new(5, 5),
    );
    assert_eq!(stringifier.next_nail(&current_nails), None);
}
