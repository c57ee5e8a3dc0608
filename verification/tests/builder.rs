use netwalk::builder::{tiles_from_links, Builder};
use netwalk::direction::Direction;
use netwalk::puzzle::{Alignment, Difficulty, Options, Puzzle};
use netwalk::tile::{Feature, Kind};
use netwalk::Vec2;

#[test]
fn build_random_puzzle() {
    let options = Options {
        board_size: 3,
        difficulty: Difficulty::Easy,
        wrapping: false,
    };
    let builder = Builder::default().with_options(options);
    let puzzle = builder.build();
    assert_eq!(*puzzle.options(), options);
}

fn all_options() -> Vec<Options> {
    let mut cases = Vec::new();
    for board_size in [3u8, 5, 20] {
        for difficulty in [Difficulty::Easy, Difficulty::Medium, Difficulty::Hard] {
            for wrapping in [false, true] {
                cases.push(Options {
                    board_size,
                    difficulty,
                    wrapping,
                });
            }
        }
    }
    cases
}

#[test]
fn generated_puzzles_are_well_formed() {
    for options in all_options() {
        let puzzle = Builder::new().with_options(options).build();
        let size = options.board_size as i32;
        assert_eq!(puzzle.grid().rows(), options.board_size as usize);
        assert_eq!(puzzle.grid().cols(), options.board_size as usize);
        assert_eq!(puzzle.size(), options.board_size);
        let center = (options.board_size / 2) as i32;
        assert_eq!(*puzzle.source(), Vec2::new(center, center));

        let mut sources = 0;
        let mut rotatable = 0;
        for y in 0..size {
            for x in 0..size {
                let tile = puzzle.get_tile(Vec2::new(x, y)).unwrap();
                if tile.feature() == Feature::Source {
                    sources += 1;
                }
                if tile.kind() != Kind::CrossIntersection {
                    rotatable += 1;
                }
            }
        }
        assert_eq!(sources, 1);
        assert!(puzzle.expected_moves() <= rotatable);
    }
}

#[test]
fn spanning_tree_powers_whole_board() {
    // The solved (pre-scramble) layout is fully connected: before any
    // scrambling, energy reaches every tile.
    for options in all_options() {
        let builder = Builder::new().with_options(options);
        let center = (options.board_size / 2) as i32;
        let source = Vec2::new(center, center);
        let links = builder.create_grid_of_links(source);
        let tiles = tiles_from_links(&links, source);
        let walls = builder.create_walls(&tiles);
        let mut puzzle = Puzzle::new(options, tiles, walls, source, 0);
        puzzle.calc_energy();
        assert!(puzzle.solved());
    }
}

#[test]
fn spanning_tree_has_minimal_edge_count() {
    // A tree over n*n cells has n*n - 1 edges; every edge shows up as two
    // facing pipe stubs, so the solved layout carries exactly twice that
    // many active stubs: the network is cycle-free.
    for options in all_options() {
        let builder = Builder::new().with_options(options);
        let center = (options.board_size / 2) as i32;
        let source = Vec2::new(center, center);
        let links = builder.create_grid_of_links(source);
        let tiles = tiles_from_links(&links, source);
        let size = options.board_size as i32;
        let mut stubs = 0usize;
        for y in 0..size {
            for x in 0..size {
                let tile = tiles.get(Vec2::new(x, y)).unwrap();
                for dir in [
                    Direction::Right,
                    Direction::Up,
                    Direction::Left,
                    Direction::Down,
                ] {
                    if tile.has_link(dir) {
                        stubs += 1;
                    }
                }
            }
        }
        let cells = (options.board_size as usize) * (options.board_size as usize);
        assert_eq!(stubs, 2 * (cells - 1));
    }
}

#[test]
fn walls_avoid_tree_connections() {
    // No wall ever stands on an edge whose two adjacent solved tiles have
    // matching opposite links.
    for options in all_options() {
        let builder = Builder::new().with_options(options);
        let center = (options.board_size / 2) as i32;
        let source = Vec2::new(center, center);
        let links = builder.create_grid_of_links(source);
        let tiles = tiles_from_links(&links, source);
        let walls = builder.create_walls(&tiles);
        for wall in &walls {
            let pos = wall.position();
            let anchor = tiles.get(pos).unwrap();
            match wall.orientation() {
                Alignment::Horizontal => {
                    let above = tiles.wrapping_get(Vec2::new(pos.x, pos.y - 1));
                    assert!(
                        !(anchor.has_link(Direction::Up) && above.has_link(Direction::Down))
                    );
                }
                Alignment::Vertical => {
                    let left = tiles.wrapping_get(Vec2::new(pos.x - 1, pos.y));
                    assert!(
                        !(anchor.has_link(Direction::Left) && left.has_link(Direction::Right))
                    );
                }
            }
        }
    }
}

#[test]
fn large_board_is_scrambled() {
    // The scrambler touches around eighty percent of a large board's tiles,
    // so the fresh puzzle has moves to make and is not already solved.
    let options = Options {
        board_size: 20,
        difficulty: Difficulty::Easy,
        wrapping: false,
    };
    let puzzle = Builder::new().with_options(options).build();
    assert!(puzzle.expected_moves() >= 1);
    assert!(!puzzle.solved());
}
