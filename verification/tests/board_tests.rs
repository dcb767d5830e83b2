use string_art::board::precompute_paths;
use string_art::board::Board;
use string_art::board::Nail;

#[test]
fn test_precompute_paths() {
    let nails = vec![Nail(0, 0), Nail(0, 2), Nail(2, 0), Nail(2, 2)];

    let paths = precompute_paths(&nails);

    // Check the forward paths
    assert_eq!(paths[0][1], vec![(0, 1)]);
    assert_eq!(paths[0][2], vec![(1, 0)]);
    assert_eq!(paths[0][3], vec![(1, 1)]);
    assert_eq!(paths[1][2], vec![(1, 1)]);
    assert_eq!(paths[1][3], vec![(1, 2)]);
    assert_eq!(paths[2][3], vec![(2, 1)]);

    // Check the reverse paths
    assert_eq!(paths[1][0], vec![(0, 1)]);
    assert_eq!(paths[2][0], vec![(1, 0)]);
    assert_eq!(paths[3][0], vec![(1, 1)]);
    assert_eq!(paths[2][1], vec![(1, 1)]);
    assert_eq!(paths[3][1], vec![(1, 2)]);
    assert_eq!(paths[3][2], vec![(2, 1)]);
}

#[test]
fn paths_have_no_diagonal_and_are_square() {
    let nails = vec![Nail(0, 0), Nail(0, 2), Nail(2, 0), Nail(2, 2)];
    let paths = precompute_paths(&nails);
    assert_eq!(paths.len(), 4);
    for row in &paths {
        assert_eq!(row.len(), 4);
    }
    for i in 0..4 {
        assert!(paths[i][i].is_empty());
    }
}

#[test]
fn board_diameter_for_two_hundred_nails() {
    // circumference 3 * 200 = 600; 600 / pi rounds to 191
    let board = Board::new(3, 200);
    assert_eq!(board.width(), 191);
    assert_eq!(board.height(), 191);
    assert_eq!(board.nails().len(), 200);
}

#[test]
fn board_nails_stay_inside_the_raster() {
    let board = Board::new(2, 30);
    let w = board.width();
    let h = board.height();
    for nail in board.nails() {
        assert!(nail.0 < w);
        assert!(nail.1 < h);
    }
}

#[test]
fn board_paths_are_symmetric_pixel_for_pixel() {
    let board = Board::new(2, 12);
    let n = board.nails().len();
    let paths = board.paths();
    for i in 0..n {
        for j in 0..n {
            assert_eq!(paths[i][j], paths[j][i]);
        }
    }
}

#[test]
fn board_path_pixels_stay_inside_the_raster() {
    let board = Board::new(2, 12);
    let w = board.width();
    let h = board.height();
    for row in board.paths() {
        for path in row {
            for &(x, y) in path {
                assert!(x < w);
                assert!(y < h);
            }
        }
    }
}

#[test]
fn smallest_board_is_a_single_pixel() {
    // circumference 2, diameter round(2 / pi) = 1
    let board = Board::new(1, 2);
    assert_eq!(board.width(), 1);
    assert_eq!(board.nails().len(), 2);
    // both nails land on the one pixel, so no strand crosses anything
    assert!(board.paths()[0][1].is_empty());
}
