use string_art::art_generator::ArtGenerator;
use string_art::board::Board;
use string_art::board::Nail;
use string_art::raster::Color;
use string_art::raster::Raster;
use string_art::stringifier::Stringifier;
use string_art::util::Dimensions;

fn rgb(r: u8, g: u8, b: u8) -> Color {
    Color { r, g, b }
}

// A tiny board whose two stored paths overlap on the pixel (1, 1).
fn overlap_board() -> Board {
    let nails = vec![Nail(0, 0), Nail(3, 0), Nail(0, 3)];
    let p01 = vec![(1, 1)];
    let p02 = vec![(1, 1), (2, 1)];
    let p12 = vec![(2, 1)];
    let paths = vec![
        vec![vec![], p01.clone(), p02.clone()],
        vec![p01, vec![], p12.clone()],
        vec![p02, p12, vec![]],
    ];
    Board { width: 4, height: 4, nails, paths }
}

#[test]
fn painting_keeps_the_first_color_per_pixel() {
    let board = overlap_board();
    let paths = board.paths().clone();

    let mut remaining: Vec<Option<usize>> = vec![None; 16];
    remaining[1 * 4 + 1] = Some(0);
    remaining[1 * 4 + 2] = Some(1);

    let positions = vec![Some(0), Some(0)];
    let algo = Stringifier::from_parts(positions, paths, remaining, Dimensions::new(4, 4));
    let mut generator = ArtGenerator::new(board, algo);

    // color 0 takes the short path over (1, 1) first
    assert_eq!(generator.step(), Some((0, 1)));
    assert_eq!(generator.art().cells[1 * 4 + 1], Some(0));

    // color 1 then crosses (1, 1) on its way to (2, 1): the pixel keeps
    // the first color, the fresh pixel takes the new one
    assert_eq!(generator.step(), Some((1, 2)));
    assert_eq!(generator.art().cells[1 * 4 + 1], Some(0));
    assert_eq!(generator.art().cells[1 * 4 + 2], Some(1));

    // nothing is left to route
    assert_eq!(generator.step(), None);
}

#[test]
fn generator_records_the_committed_moves() {
    let board = overlap_board();
    let paths = board.paths().clone();

    let mut remaining: Vec<Option<usize>> = vec![None; 16];
    remaining[1 * 4 + 1] = Some(0);
    remaining[1 * 4 + 2] = Some(1);

    let positions = vec![Some(0), Some(0)];
    let algo = Stringifier::from_parts(positions, paths, remaining, Dimensions::new(4, 4));
    let mut generator = ArtGenerator::new(board, algo);

    // the starting positions are already part of the pattern
    assert_eq!(generator.pattern(), &vec![(0, 0), (1, 0)]);

    generator.run();

    assert_eq!(generator.pattern(), &vec![(0, 0), (1, 0), (0, 1), (1, 2)]);
    // after the run, the terminal state is stable
    assert_eq!(generator.step(), None);
}

fn checkerboard_pattern() -> Vec<(usize, usize)> {
    let board = Board::new(2, 16);
    let w = board.width();
    let h = board.height();
    let mut pixels = Vec::new();
    for y in 0..h {
        for x in 0..w {
            if (x + y) % 2 == 0 {
                pixels.push(rgb(0, 0, 0));
            } else {
                pixels.push(rgb(255, 255, 255));
            }
        }
    }
    let img = Raster { width: w, height: h, pixels };
    let palette = vec![rgb(0, 0, 0), rgb(255, 255, 255)];
    let algo = Stringifier::new(&board, &img, &palette);
    let mut generator = ArtGenerator::new(board, algo);
    generator.run();
    generator.pattern().clone()
}

#[test]
fn identical_runs_produce_identical_patterns() {
    let first = checkerboard_pattern();
    let second = checkerboard_pattern();
    assert!(!first.is_empty());
    assert_eq!(first, second);
}
