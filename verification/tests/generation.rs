use mapgen::bsp::{check_door, BspMapGenerator};
use mapgen::chess::ChessMapGenerator;
use mapgen::error::Error;
use mapgen::geometry::{Point, Rectangle};
use mapgen::image_gen::{tile_color, ImageGenerator};
use mapgen::tiles::TileType;

#[test]
fn zero_iterations_all_wall() {
    let mut g = BspMapGenerator::with_seed(40, 30, 123);
    g.set_nb_iteration(0);
    assert!(g.generate().is_ok());
    for x in 0..40 {
        for y in 0..30 {
            assert!(g.get_title(x, y) == TileType::Wall);
        }
    }
}

#[test]
fn unsplittable_root_all_wall() {
    // the inset root is 10x10, below the 2*5 + 1 cells a cut needs
    let mut g = BspMapGenerator::with_seed(12, 12, 7);
    assert!(g.generate().is_ok());
    for x in 0..12 {
        for y in 0..12 {
            assert!(g.get_title(x, y) == TileType::Wall);
        }
    }
}

#[test]
fn same_seed_same_grid() {
    let mut a = BspMapGenerator::with_seed(64, 48, 42);
    let mut b = BspMapGenerator::with_seed(64, 48, 42);
    assert!(a.generate().is_ok());
    assert!(b.generate().is_ok());
    for x in 0..64 {
        for y in 0..48 {
            assert!(a.get_title(x, y) == b.get_title(x, y));
        }
    }
}

#[test]
fn bottom_and_left_border_stay_wall() {
    let mut g = BspMapGenerator::with_seed(64, 48, 1);
    assert!(g.generate().is_ok());
    for x in 0..64 {
        assert!(g.get_title(x, 0) == TileType::Wall);
    }
    for y in 0..48 {
        assert!(g.get_title(0, y) == TileType::Wall);
    }
}

#[test]
fn some_seed_produces_floor() {
    let mut found = false;
    for seed in 0..5u64 {
        let mut g = BspMapGenerator::with_seed(96, 64, seed);
        assert!(g.generate().is_ok());
        for x in 0..96 {
            for y in 0..64 {
                if g.get_title(x, y) == TileType::Floor {
                    found = true;
                }
            }
        }
    }
    assert!(found);
}

#[test]
fn clearance_predicate() {
    let room = Rectangle::from_corner(Point::new(2, 2), Point::new(8, 6));
    // one cell above the top edge, clear of both corners
    assert!(check_door(1, &room, &Point::new(4, 7)));
    // flush against the top-left corner: rejected while clearance is 1
    assert!(!check_door(1, &room, &Point::new(2, 7)));
    assert!(check_door(0, &room, &Point::new(2, 7)));
    // one cell right of the right edge
    assert!(check_door(1, &room, &Point::new(9, 4)));
    // not adjacent to any edge
    assert!(!check_door(1, &room, &Point::new(4, 9)));
}

#[test]
fn checkerboard_four_by_four() {
    let mut g = ChessMapGenerator::new(4, 4);
    assert!(g.generate().is_ok());
    for x in 0..4u32 {
        for y in 0..4u32 {
            if x % 2 == y % 2 {
                assert!(g.get_title(x, y) == TileType::Floor);
            } else {
                assert!(g.get_title(x, y) == TileType::Wall);
            }
        }
    }
}

#[test]
fn image_generator_tile_grid() {
    let mut ig = ImageGenerator::new(1024, 576, 8);
    assert!(ig.get_title_width() == 128);
    assert!(ig.get_title_height() == 72);
    assert!(ig.check_dimensions().is_ok());
    ig.set_grid(true);
    assert!(ig.grid);
}

#[test]
fn image_generator_rejects_unaligned_width() {
    let ig = ImageGenerator::new(1001, 576, 8);
    match ig.check_dimensions() {
        Err(Error::Argument(m)) => assert!(m == "width must be a mutiple of title size"),
        _ => panic!("expected an argument error"),
    }
}

#[test]
fn image_generator_rejects_unaligned_height() {
    let ig = ImageGenerator::new(1024, 570, 8);
    match ig.check_dimensions() {
        Err(Error::Argument(m)) => assert!(m == "height must be a mutiple of title size"),
        _ => panic!("expected an argument error"),
    }
}

#[test]
fn tile_colors_are_fixed() {
    assert!(tile_color(TileType::Floor) == (255, 0, 0));
    assert!(tile_color(TileType::Wall) == (0, 255, 0));
    assert!(tile_color(TileType::Door) == (238, 130, 238));
}

#[test]
fn argument_error_carries_message() {
    let e = Error::new_argument(String::from("bad size"));
    assert!(matches!(e, Error::Argument(m) if m == "bad size"));
}
