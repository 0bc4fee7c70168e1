use game_of_life::gamepad::{grid_dimensions, Universe, UniverseError, CELL_SIZE};

fn live_set(u: &Universe) -> Vec<(usize, usize)> {
    let mut v = Vec::new();
    for row in 0..u.height() {
        for col in 0..u.width() {
            if u.is_cell_live(row, col) {
                v.push((row, col));
            }
        }
    }
    v
}

fn changed_set(u: &Universe) -> Vec<(usize, usize)> {
    let mut v = Vec::new();
    for row in 0..u.height() {
        for col in 0..u.width() {
            if u.is_dirty(row, col) {
                v.push((row, col));
            }
        }
    }
    v
}

#[test]
fn test_index() {
    let u = Universe::new(8, 8).unwrap();
    assert_eq!(u.index(0, 0), (0, 1));
    assert_eq!(u.index(0, 1), (0, 2));
    assert_eq!(u.index(0, 7), (0, 128));
    assert_eq!(u.index(1, 0), (1, 1));
    assert_eq!(u.index(1, 1), (1, 2));
    assert_eq!(u.index(1, 7), (1, 128));
    assert_eq!(u.index(2, 0), (2, 1));
    assert_eq!(u.index(2, 1), (2, 2));
    assert_eq!(u.index(2, 7), (2, 128));
    assert_eq!(u.index(3, 0), (3, 1));
    assert_eq!(u.index(3, 1), (3, 2));
    assert_eq!(u.index(3, 7), (3, 128));
    assert_eq!(u.index(4, 0), (4, 1));
    assert_eq!(u.index(4, 1), (4, 2));
    assert_eq!(u.index(4, 7), (4, 128));
    assert_eq!(u.index(5, 0), (5, 1));
    assert_eq!(u.index(5, 1), (5, 2));
    assert_eq!(u.index(5, 7), (5, 128));
    assert_eq!(u.index(6, 0), (6, 1));
    assert_eq!(u.index(6, 1), (6, 2));
    assert_eq!(u.index(6, 7), (6, 128));
    assert_eq!(u.index(7, 0), (7, 1));
    assert_eq!(u.index(7, 1), (7, 2));
    assert_eq!(u.index(7, 7), (7, 128));
}

#[test]
fn test_is_cell_live() {
    let mut u = Universe::new(8, 8).unwrap();
    assert!(!u.is_cell_live(0, 0));
    u.revive_cell(0, 0);
    assert!(u.is_cell_live(0, 0));
    u.kill_cell(0, 0);
    assert!(!u.is_cell_live(0, 0));
}

#[test]
fn test_toggle_cell() {
    let mut u = Universe::new(8, 8).unwrap();
    assert!(!u.is_cell_live(0, 0));
    u.toggle_cell(0, 0);
    assert!(u.is_cell_live(0, 0));
    u.toggle_cell(0, 0);
    assert!(!u.is_cell_live(0, 0));
}

#[test]
fn test_live_neighbors() {
    let mut u = Universe::new(8, 8).unwrap();
    assert_eq!(u.live_neighbors(0, 0), 0);
    u.revive_cell(0, 1);
    assert_eq!(u.live_neighbors(0, 0), 1);
    u.revive_cell(1, 0);
    assert_eq!(u.live_neighbors(0, 0), 2);
    u.revive_cell(1, 1);
    assert_eq!(u.live_neighbors(0, 0), 3);
    u.revive_cell(0, 0);
    assert_eq!(u.live_neighbors(0, 0), 3);
    u.revive_cell(0, 7);
    assert_eq!(u.live_neighbors(0, 0), 4);
    u.revive_cell(2, 0);
    assert_eq!(u.live_neighbors(0, 0), 4);
    u.revive_cell(7, 7);
    assert_eq!(u.live_neighbors(0, 0), 5);
    u.revive_cell(7, 0);
    assert_eq!(u.live_neighbors(0, 0), 6);
    u.revive_cell(7, 1);
    assert_eq!(u.live_neighbors(0, 0), 7);
    u.revive_cell(1, 7);
    assert_eq!(u.live_neighbors(0, 0), 8);
}

#[test]
fn test_tick() {
    let mut u = Universe::new(5, 5).unwrap();
    u.revive_cell(1, 2);
    u.revive_cell(2, 2);
    u.revive_cell(3, 2);
    u.tick();
    assert!(u.is_cell_live(2, 1));
    assert!(u.is_cell_live(2, 2));
    assert!(u.is_cell_live(2, 3));
    u.tick();
    assert!(u.is_cell_live(1, 2));
    assert!(u.is_cell_live(2, 2));
    assert!(u.is_cell_live(3, 2));
}

#[test]
fn test_spaceship() {
    let mut u = Universe::new(5, 5).unwrap();
    u.revive_cell(1, 2);
    u.revive_cell(2, 3);
    u.revive_cell(3, 1);
    u.revive_cell(3, 2);
    u.revive_cell(3, 3);
    u.tick();
    assert!(u.is_cell_live(2, 1));
    assert!(u.is_cell_live(2, 3));
    assert!(u.is_cell_live(3, 2));
    assert!(u.is_cell_live(3, 3));
    assert!(u.is_cell_live(4, 2));
    u.tick();
    assert!(u.is_cell_live(2, 3));
    assert!(u.is_cell_live(3, 1));
    assert!(u.is_cell_live(3, 3));
    assert!(u.is_cell_live(4, 2));
    assert!(u.is_cell_live(4, 3));
}

#[test]
fn new_grid_is_all_dead_and_unchanged() {
    let u = Universe::new(7, 3).unwrap();
    assert_eq!(u.width(), 7);
    assert_eq!(u.height(), 3);
    assert!(live_set(&u).is_empty());
    assert!(changed_set(&u).is_empty());
}

#[test]
fn zero_dimension_is_rejected() {
    assert_eq!(Universe::new(0, 4).err(), Some(UniverseError::InvalidDimension));
    assert_eq!(Universe::new(4, 0).err(), Some(UniverseError::InvalidDimension));
    assert_eq!(Universe::new(0, 0).err(), Some(UniverseError::InvalidDimension));
    assert!(Universe::new(1, 1).is_ok());
}

#[test]
fn set_alive_then_dead_restores() {
    let mut u = Universe::new(3, 4).unwrap();
    u.set_alive(2, 1, true);
    assert_eq!(live_set(&u), vec![(2, 1)]);
    u.set_alive(2, 1, false);
    assert!(live_set(&u).is_empty());
}

#[test]
fn index_follows_row_major_offset() {
    let u = Universe::new(5, 3).unwrap();
    // offset 2 * 5 + 4 = 14: byte 1, bit 6
    assert_eq!(u.index(2, 4), (1, 64));
    assert_eq!(u.index(1, 2), (0, 128));
    assert_eq!(u.index(1, 3), (1, 1));
}

#[test]
fn blinker_is_exact() {
    let mut u = Universe::new(5, 5).unwrap();
    u.revive_cell(1, 2);
    u.revive_cell(2, 2);
    u.revive_cell(3, 2);
    u.tick();
    assert_eq!(live_set(&u), vec![(2, 1), (2, 2), (2, 3)]);
    u.tick();
    assert_eq!(live_set(&u), vec![(1, 2), (2, 2), (3, 2)]);
}

#[test]
fn spaceship_is_exact() {
    let mut u = Universe::new(5, 5).unwrap();
    for (r, c) in [(1, 2), (2, 3), (3, 1), (3, 2), (3, 3)] {
        u.revive_cell(r, c);
    }
    u.tick();
    assert_eq!(live_set(&u), vec![(2, 1), (2, 3), (3, 2), (3, 3), (4, 2)]);
    u.tick();
    assert_eq!(live_set(&u), vec![(2, 3), (3, 1), (3, 3), (4, 2), (4, 3)]);
}

#[test]
fn changed_cells_are_symmetric_difference() {
    let mut u = Universe::new(5, 5).unwrap();
    u.revive_cell(1, 2);
    u.revive_cell(2, 2);
    u.revive_cell(3, 2);
    u.tick();
    assert_eq!(changed_set(&u), vec![(1, 2), (2, 1), (2, 3), (3, 2)]);
    u.tick();
    assert_eq!(changed_set(&u), vec![(1, 2), (2, 1), (2, 3), (3, 2)]);
}

#[test]
fn edits_do_not_touch_changed_bits() {
    let mut u = Universe::new(5, 5).unwrap();
    u.revive_cell(1, 2);
    u.revive_cell(2, 2);
    u.revive_cell(3, 2);
    u.tick();
    let before = changed_set(&u);
    u.toggle_cell(0, 0);
    assert_eq!(changed_set(&u), before);
}

#[test]
fn crowded_live_cell_dies() {
    // every neighbour of (1, 1) alive: 8 neighbours, so the centre dies
    let mut u = Universe::new(4, 4).unwrap();
    for r in 0..3 {
        for c in 0..3 {
            u.revive_cell(r, c);
        }
    }
    assert_eq!(u.live_neighbors(1, 1), 8);
    u.tick();
    assert!(!u.is_cell_live(1, 1));
}

#[test]
fn lone_cell_dies_and_block_survives() {
    let mut u = Universe::new(6, 6).unwrap();
    u.revive_cell(0, 0);
    u.tick();
    assert!(live_set(&u).is_empty());
    let mut b = Universe::new(6, 6).unwrap();
    for (r, c) in [(2, 2), (2, 3), (3, 2), (3, 3)] {
        b.revive_cell(r, c);
    }
    b.tick();
    assert_eq!(live_set(&b), vec![(2, 2), (2, 3), (3, 2), (3, 3)]);
    assert!(changed_set(&b).is_empty());
}

#[test]
fn one_by_one_grid_sees_itself_eight_times() {
    let mut u = Universe::new(1, 1).unwrap();
    assert_eq!(u.live_neighbors(0, 0), 0);
    u.revive_cell(0, 0);
    assert_eq!(u.live_neighbors(0, 0), 8);
}

#[test]
fn neighbors_wrap_on_small_grid() {
    let mut u = Universe::new(3, 2).unwrap();
    u.revive_cell(1, 2);
    // from (0, 0): up and down both reach row 1, left reaches column 2
    assert_eq!(u.live_neighbors(0, 0), 2);
}

#[test]
fn text_form_draws_each_row() {
    let mut u = Universe::new(3, 2).unwrap();
    u.revive_cell(0, 1);
    u.revive_cell(1, 2);
    assert_eq!(u.to_text(), "\u{25A1}\u{25A0}\u{25A1}\n\u{25A1}\u{25A1}\u{25A0}\n");
}

#[test]
fn full_pass_draws_every_cell() {
    let mut u = Universe::new(2, 2).unwrap();
    u.revive_cell(1, 0);
    assert_eq!(
        u.cells_to_draw(false),
        vec![(0, 0, false), (0, 1, false), (1, 0, true), (1, 1, false)]
    );
}

#[test]
fn later_pass_draws_only_flipped_cells() {
    let mut u = Universe::new(5, 5).unwrap();
    u.revive_cell(1, 2);
    u.revive_cell(2, 2);
    u.revive_cell(3, 2);
    u.tick();
    assert_eq!(
        u.cells_to_draw(true),
        vec![(1, 2, false), (2, 1, true), (2, 3, true), (3, 2, false)]
    );
}

#[test]
fn random_seed_keeps_shape_and_changed_bits() {
    let mut u = Universe::new(64, 64).unwrap();
    u.rand();
    assert_eq!(u.width(), 64);
    assert_eq!(u.height(), 64);
    assert!(changed_set(&u).is_empty());
    // 4096 random bits are all zero with probability 2^-4096
    assert!(!live_set(&u).is_empty());
}

#[test]
fn viewport_is_divided_into_cells() {
    assert_eq!(CELL_SIZE, 5);
    assert_eq!(grid_dimensions(1024, 768), (204, 153));
    assert_eq!(grid_dimensions(4, 9), (0, 1));
}

#[test]
fn seeding_reads_each_cell_from_its_bit() {
    // 5 x 3 grid: 15 cells in 2 bytes; bit k of the bytes is cell k in row-major order
    let mut u = Universe::new(5, 3).unwrap();
    u.seed_cells(vec![0b1000_0101, 0b0100_0010]);
    assert_eq!(live_set(&u), vec![(0, 0), (0, 2), (1, 2), (1, 4), (2, 4)]);
    assert!(changed_set(&u).is_empty());
}

#[test]
fn seeding_keeps_changed_bits() {
    let mut u = Universe::new(5, 5).unwrap();
    u.revive_cell(1, 2);
    u.revive_cell(2, 2);
    u.revive_cell(3, 2);
    u.tick();
    let before = changed_set(&u);
    u.seed_cells(vec![0xFF, 0xFF, 0xFF, 0xFF]);
    assert_eq!(changed_set(&u), before);
    assert_eq!(live_set(&u).len(), 25);
}
