use netwalk::puzzle::{Alignment, Difficulty, Options, Puzzle, Wall};
use netwalk::tile::{Feature, Kind, Orientation, Tile};
use netwalk::{Grid, Vec2};

fn example_puzzle() -> Puzzle {
    let options = Options {
        board_size: 3,
        difficulty: Difficulty::Easy,
        wrapping: false,
    };

    let mut grid = Grid::<Tile>::with_size(
        3,
        3,
        Tile {
            kind: Kind::DeadEnd,
            feature: Feature::Empty,
            orientation: Orientation::Basic,
            powered: false,
        },
    );
    *grid.get_mut((0, 2).into()).unwrap() = Tile {
        kind: Kind::DeadEnd,
        feature: Feature::Drain,
        orientation: Orientation::Ccw270,
        powered: false,
    };
    *grid.get_mut((1, 2).into()).unwrap() = Tile {
        kind: Kind::TIntersection,
        feature: Feature::Empty,
        orientation: Orientation::Basic,
        powered: false,
    };
    *grid.get_mut((2, 2).into()).unwrap() = Tile {
        kind: Kind::Corner,
        feature: Feature::Empty,
        orientation: Orientation::Ccw180,
        powered: false,
    };
    *grid.get_mut((0, 1).into()).unwrap() = Tile {
        kind: Kind::DeadEnd,
        feature: Feature::Drain,
        orientation: Orientation::Ccw270,
        powered: false,
    };
    *grid.get_mut((1, 1).into()).unwrap() = Tile {
        kind: Kind::TIntersection,
        feature: Feature::Source,
        orientation: Orientation::Ccw270,
        powered: false,
    };
    *grid.get_mut((2, 1).into()).unwrap() = Tile {
        kind: Kind::Straight,
        feature: Feature::Empty,
        orientation: Orientation::Basic,
        powered: false,
    };
    *grid.get_mut((0, 0).into()).unwrap() = Tile {
        kind: Kind::DeadEnd,
        feature: Feature::Drain,
        orientation: Orientation::Ccw270,
        powered: false,
    };
    *grid.get_mut((1, 0).into()).unwrap() = Tile {
        kind: Kind::Corner,
        feature: Feature::Empty,
        orientation: Orientation::Ccw90,
        powered: false,
    };
    *grid.get_mut((2, 0).into()).unwrap() = Tile {
        kind: Kind::DeadEnd,
        feature: Feature::Drain,
        orientation: Orientation::Basic,
        powered: false,
    };

    let walls = vec![
        Wall {
            position: (0, 2).into(),
            alignment: Alignment::Horizontal,
        },
        Wall {
            position: (2, 1).into(),
            alignment: Alignment::Vertical,
        },
        Wall {
            position: (1, 1).into(),
            alignment: Alignment::Vertical,
        },
    ];

    let source = Vec2::new(1, 1);
    let expected_moves = 8;

    let mut puzzle = Puzzle::new(options, grid, walls, source, expected_moves);
    puzzle.calc_energy();
    puzzle
}

#[test]
fn verify_example_puzzle() {
    let puzzle = example_puzzle();
    assert_eq!(puzzle.solved(), false);
    assert_eq!(puzzle.size(), 3);
    assert_eq!(
        puzzle.get_tile(Vec2::new(0, 0)),
        Some(&Tile {
            kind: Kind::DeadEnd,
            feature: Feature::Drain,
            orientation: Orientation::Ccw270,
            powered: false
        })
    );
}

fn powered_flags(puzzle: &Puzzle) -> Vec<bool> {
    let mut flags = Vec::new();
    for y in 0..3 {
        for x in 0..3 {
            flags.push(puzzle.get_tile(Vec2::new(x, y)).unwrap().powered());
        }
    }
    flags
}

#[test]
fn four_rotations_restore_state() {
    let mut puzzle = example_puzzle();
    let before_tile = *puzzle.get_tile(Vec2::new(1, 1)).unwrap();
    let before_power = powered_flags(&puzzle);
    for _ in 0..4 {
        puzzle.grid_mut().get_mut(Vec2::new(1, 1)).unwrap().rotate();
        puzzle.calc_energy();
    }
    assert_eq!(*puzzle.get_tile(Vec2::new(1, 1)).unwrap(), before_tile);
    assert_eq!(powered_flags(&puzzle), before_power);
}

fn seam_puzzle(wrapping: bool, walls: Vec<Wall>) -> Puzzle {
    // A west-facing source dead end in column 0 and an east-facing drain
    // dead end in column 2: they touch only across the vertical seam.
    let options = Options {
        board_size: 3,
        difficulty: Difficulty::Easy,
        wrapping,
    };
    let mut grid = Grid::<Tile>::with_size(
        3,
        3,
        Tile {
            kind: Kind::DeadEnd,
            feature: Feature::Empty,
            orientation: Orientation::Basic,
            powered: false,
        },
    );
    *grid.get_mut(Vec2::new(0, 1)).unwrap() = Tile {
        kind: Kind::DeadEnd,
        feature: Feature::Source,
        orientation: Orientation::Ccw180,
        powered: false,
    };
    *grid.get_mut(Vec2::new(2, 1)).unwrap() = Tile {
        kind: Kind::DeadEnd,
        feature: Feature::Drain,
        orientation: Orientation::Basic,
        powered: false,
    };
    let mut puzzle = Puzzle::new(options, grid, walls, Vec2::new(0, 1), 0);
    puzzle.calc_energy();
    puzzle
}

#[test]
fn wrapping_joins_opposite_columns() {
    let puzzle = seam_puzzle(true, vec![]);
    assert!(puzzle.get_tile(Vec2::new(0, 1)).unwrap().powered());
    assert!(puzzle.get_tile(Vec2::new(2, 1)).unwrap().powered());
    assert!(!puzzle.get_tile(Vec2::new(1, 1)).unwrap().powered());
}

#[test]
fn boundary_blocks_without_wrapping() {
    let puzzle = seam_puzzle(false, vec![]);
    assert!(puzzle.get_tile(Vec2::new(0, 1)).unwrap().powered());
    assert!(!puzzle.get_tile(Vec2::new(2, 1)).unwrap().powered());
}

#[test]
fn wall_blocks_wrapped_seam() {
    // A vertical wall anchored in column 0 stands on the seam edge and
    // blocks it even on a toroidal board.
    let wall = Wall {
        position: Vec2::new(0, 1),
        alignment: Alignment::Vertical,
    };
    let puzzle = seam_puzzle(true, vec![wall]);
    assert!(puzzle.get_tile(Vec2::new(0, 1)).unwrap().powered());
    assert!(!puzzle.get_tile(Vec2::new(2, 1)).unwrap().powered());
}

#[test]
fn wall_accessors() {
    let wall = Wall {
        position: Vec2::new(2, 1),
        alignment: Alignment::Vertical,
    };
    assert_eq!(wall.position(), Vec2::new(2, 1));
    assert_eq!(wall.orientation(), Alignment::Vertical);
}
