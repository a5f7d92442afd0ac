use game_of_life::bitset::{bin_no, inner_idx};
use game_of_life::random::RandomSourceFailed;
use game_of_life::universe::Universe;

fn alive(u: &Universe, row: u32, col: u32) -> bool {
    let idx = (row as usize) * (u.width() as usize) + (col as usize);
    (u.cells()[bin_no(idx)] >> inner_idx(idx)) & 1 == 1
}

fn live_cells(u: &Universe) -> Vec<(u32, u32)> {
    let mut found = Vec::new();
    for row in 0..u.height() {
        for col in 0..u.width() {
            if alive(u, row, col) {
                found.push((row, col));
            }
        }
    }
    found
}

fn with_cells(width: u32, height: u32, cells: &[(u32, u32)]) -> Universe {
    let mut u = Universe::new(width, height);
    u.set_cells(cells);
    u
}

#[test]
fn test_live_neighbor() {
    const W: u32 = 4;
    const H: u32 = 4;
    let mut u = Universe::new(W, H);
    u.set_cell(0, 0);
    let answer = [[0, 1, 0, 1], [1, 1, 0, 1], [0, 0, 0, 0], [1, 1, 0, 1]];
    for (i, line) in answer.iter().enumerate() {
        for (j, elem) in line.iter().enumerate() {
            assert_eq!(
                *elem,
                u.live_neighbor_count(i as u32, j as u32),
                "in index ({}, {})",
                i,
                j
            );
        }
    }
}

#[test]
fn new_universe_is_empty() {
    let u = Universe::new(7, 5);
    assert_eq!(u.width(), 7);
    assert_eq!(u.height(), 5);
    assert_eq!(live_cells(&u), vec![]);
    assert_eq!(u.cells().len(), 35usize.div_ceil(usize::BITS as usize));
    assert!(u.cells().iter().all(|word| *word == 0));
}

#[test]
fn cells_are_stored_row_by_row() {
    let mut u = Universe::new(5, 3);
    u.set_cell(1, 2);
    assert_eq!(u.cells(), &[1usize << 7][..]);
    u.set_cell(0, 0);
    u.set_cell(2, 4);
    assert_eq!(u.cells(), &[(1usize << 7) | 1 | (1usize << 14)][..]);
}

#[test]
fn set_cell_brings_one_cell_to_life() {
    let mut u = Universe::new(6, 4);
    u.set_cell(3, 5);
    assert_eq!(live_cells(&u), vec![(3, 5)]);
    u.set_cell(3, 5);
    assert_eq!(live_cells(&u), vec![(3, 5)]);
    u.set_cell(0, 1);
    assert_eq!(live_cells(&u), vec![(0, 1), (3, 5)]);
}

#[test]
fn set_cells_brings_each_named_cell_to_life() {
    let mut u = Universe::new(10, 10);
    u.set_cell(9, 9);
    u.set_cells(&[(2, 3), (0, 0), (2, 3), (7, 1)]);
    assert_eq!(live_cells(&u), vec![(0, 0), (2, 3), (7, 1), (9, 9)]);
    u.set_cells(&[]);
    assert_eq!(live_cells(&u), vec![(0, 0), (2, 3), (7, 1), (9, 9)]);
}

#[test]
fn neighbors_wrap_round_every_edge() {
    let u = with_cells(5, 4, &[(3, 4)]);
    assert_eq!(u.live_neighbor_count(0, 0), 1);
    assert_eq!(u.live_neighbor_count(3, 0), 1);
    assert_eq!(u.live_neighbor_count(0, 4), 1);
    assert_eq!(u.live_neighbor_count(2, 3), 1);
    assert_eq!(u.live_neighbor_count(3, 4), 0);
    assert_eq!(u.live_neighbor_count(1, 1), 0);
    assert_eq!(u.live_neighbor_count(0, 2), 0);
}

#[test]
fn a_full_grid_gives_eight_neighbors_everywhere() {
    let mut u = Universe::new(4, 3);
    for row in 0..3 {
        for col in 0..4 {
            u.set_cell(row, col);
        }
    }
    for row in 0..3 {
        for col in 0..4 {
            assert_eq!(u.live_neighbor_count(row, col), 8);
        }
    }
}

#[test]
fn on_a_narrow_grid_a_cell_is_counted_once_for_each_direction() {
    let u = with_cells(1, 1, &[(0, 0)]);
    assert_eq!(u.live_neighbor_count(0, 0), 8);
    let u = with_cells(2, 2, &[(0, 0)]);
    assert_eq!(u.live_neighbor_count(0, 0), 0);
    assert_eq!(u.live_neighbor_count(0, 1), 2);
    assert_eq!(u.live_neighbor_count(1, 0), 2);
    assert_eq!(u.live_neighbor_count(1, 1), 4);
    let u = with_cells(3, 1, &[(0, 1)]);
    assert_eq!(u.live_neighbor_count(0, 0), 3);
    assert_eq!(u.live_neighbor_count(0, 1), 2);
}

#[test]
fn empty_universe_stays_empty() {
    for (width, height) in [(1, 1), (3, 3), (8, 8), (13, 7)] {
        let mut u = Universe::new(width, height);
        u.tick();
        assert_eq!(u, Universe::new(width, height));
        u.tick();
        assert_eq!(live_cells(&u), vec![]);
    }
}

#[test]
fn blinker_has_period_two() {
    let across = [(2, 1), (2, 2), (2, 3)];
    let down = [(1, 2), (2, 2), (3, 2)];
    let mut u = with_cells(5, 5, &across);
    u.tick();
    assert_eq!(live_cells(&u), down.to_vec());
    assert_eq!(u, with_cells(5, 5, &down));
    u.tick();
    assert_eq!(live_cells(&u), across.to_vec());
    assert_eq!(u, with_cells(5, 5, &across));
}

#[test]
fn blinker_across_the_edge_has_period_two() {
    let across = [(0, 5), (0, 0), (0, 1)];
    let mut u = with_cells(6, 6, &across);
    u.tick();
    assert_eq!(live_cells(&u), vec![(0, 0), (1, 0), (5, 0)]);
    u.tick();
    assert_eq!(u, with_cells(6, 6, &across));
}

#[test]
fn block_is_still() {
    let block = [(1, 1), (1, 2), (2, 1), (2, 2)];
    let mut u = with_cells(4, 4, &block);
    u.tick();
    assert_eq!(u, with_cells(4, 4, &block));
}

#[test]
fn lonely_cells_die() {
    let mut u = with_cells(6, 6, &[(1, 1)]);
    u.tick();
    assert_eq!(live_cells(&u), vec![]);
    let mut u = with_cells(6, 6, &[(1, 1), (1, 2)]);
    u.tick();
    assert_eq!(live_cells(&u), vec![]);
}

#[test]
fn crowded_cells_die_and_three_neighbors_give_birth() {
    // a plus sign: the centre has four live neighbours
    let mut u = with_cells(7, 7, &[(2, 3), (3, 2), (3, 3), (3, 4), (4, 3)]);
    assert_eq!(u.live_neighbor_count(3, 3), 4);
    assert_eq!(u.live_neighbor_count(2, 2), 3);
    u.tick();
    assert_eq!(
        live_cells(&u),
        vec![(2, 2), (2, 3), (2, 4), (3, 2), (3, 4), (4, 2), (4, 3), (4, 4)]
    );
}

#[test]
fn glider_moves_one_cell_diagonally_in_four_ticks() {
    let glider = [(0, 1), (1, 2), (2, 0), (2, 1), (2, 2)];
    let mut u = with_cells(8, 8, &glider);
    for _ in 0..4 {
        u.tick();
    }
    let moved: Vec<(u32, u32)> = glider.iter().map(|(r, c)| (r + 1, c + 1)).collect();
    assert_eq!(u, with_cells(8, 8, &moved));
    for _ in 0..28 {
        u.tick();
    }
    assert_eq!(u, with_cells(8, 8, &glider));
}

#[test]
fn single_cell_universe_dies_of_its_own_company() {
    let mut u = with_cells(1, 1, &[(0, 0)]);
    u.tick();
    assert_eq!(live_cells(&u), vec![]);
}

#[test]
fn tick_works_across_word_boundaries() {
    let across = [(5, 8), (5, 9), (5, 10)];
    let mut u = with_cells(13, 11, &across);
    assert!(u.cells().len() >= 3);
    u.tick();
    assert_eq!(live_cells(&u), vec![(4, 9), (5, 9), (6, 9)]);
    u.tick();
    assert_eq!(u, with_cells(13, 11, &across));
}

#[test]
fn from_seed_reads_one_byte_per_cell() {
    let seed = [0u8, 1, 16, 15, 32, 0xf0, 0x0f, 255, 48];
    let u = Universe::from_seed(3, 3, &seed);
    assert_eq!(u.width(), 3);
    assert_eq!(u.height(), 3);
    assert_eq!(live_cells(&u), vec![(0, 0), (0, 2), (1, 1), (1, 2), (2, 2)]);
    let longer = [1u8, 0, 0, 1, 0, 0, 0];
    let u = Universe::from_seed(2, 2, &longer);
    assert_eq!(live_cells(&u), vec![(0, 1), (1, 0)]);
    assert_eq!(u, with_cells(2, 2, &[(0, 1), (1, 0)]));
}

#[test]
fn random_seed_gives_a_universe_of_the_size_asked() {
    let outcome: Result<Universe, RandomSourceFailed> = Universe::with_random_seed(64, 48);
    let u = outcome.unwrap();
    assert_eq!(u.width(), 64);
    assert_eq!(u.height(), 48);
    assert_eq!(u.cells().len(), (64usize * 48).div_ceil(usize::BITS as usize));
    let living = live_cells(&u).len();
    // untouched seed bytes would bring every cell to life
    assert!(living < 64 * 48 / 2, "{} cells alive", living);
    assert!(living > 0);
}

#[test]
fn random_seeds_differ() {
    let a = Universe::with_random_seed(64, 64).unwrap();
    let b = Universe::with_random_seed(64, 64).unwrap();
    assert_ne!(a, b);
}
