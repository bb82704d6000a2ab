use tg_rcore::tetris::{self, Randomizer, BOARD_H, BOARD_W};

fn empty_board() -> [[u8; BOARD_W]; BOARD_H] {
    [[0u8; BOARD_W]; BOARD_H]
}

#[test]
fn tetris_i_piece_occupies_its_second_row() {
    assert_eq!(tetris::shape_mask(1, 0), 0x0F00);
    for x in 0..4 {
        assert!(tetris::piece_at(1, 0, x, 1));
        assert!(!tetris::piece_at(1, 0, x, 0));
    }
    assert!(!tetris::piece_at(1, 0, -1, 1));
    assert!(!tetris::piece_at(1, 0, 4, 1));
    assert_eq!(tetris::shape_mask(4, 2), 0x6600);
}

#[test]
fn tetris_kick_tables() {
    assert_eq!(tetris::get_kick_index(0, 1), 0);
    assert_eq!(tetris::get_kick_index(0, 3), 7);
    assert_eq!(tetris::get_kick_index(2, 2), 0);
    assert_eq!(tetris::kick_offset(true, 0, 1), (-2, 0));
    assert_eq!(tetris::kick_offset(false, 0, 0), (0, 0));
}

#[test]
fn tetris_collisions_with_walls_and_floor() {
    let board = empty_board();
    assert!(!tetris::check_collision(&board, 1, 0, 0, 0));
    assert!(tetris::check_collision(&board, 1, 0, -1, 0));
    assert!(tetris::check_collision(&board, 1, 0, 7, 0));
    assert!(!tetris::check_collision(&board, 1, 0, 6, 18));
    assert!(tetris::check_collision(&board, 1, 0, 0, 19));
    // rows above the board are free
    assert!(!tetris::check_collision(&board, 1, 0, 0, -2));
}

#[test]
fn tetris_collision_with_locked_cells() {
    let mut board = empty_board();
    board[10][2] = 3;
    assert!(tetris::check_collision(&board, 1, 0, 0, 9));
    assert!(!tetris::check_collision(&board, 1, 0, 3, 9));
}

#[test]
fn tetris_hard_drop_and_lock() {
    let mut board = empty_board();
    let y = tetris::drop_target(&board, 1, 0, 3, 0);
    assert_eq!(y, 18);
    tetris::lock_piece(&mut board, 1, 0, 3, y);
    for x in 3..7 {
        assert_eq!(board[19][x], 1);
    }
    assert_eq!(board[19][2], 0);
    assert_eq!(tetris::drop_target(&board, 1, 0, 3, 0), 17);
}

#[test]
fn tetris_clears_full_lines() {
    let mut board = empty_board();
    for x in 0..BOARD_W {
        board[19][x] = 2;
        board[17][x] = 5;
    }
    board[18][4] = 7;
    let cleared = tetris::clear_full_lines(&mut board);
    assert_eq!(cleared, 2);
    assert_eq!(board[19][4], 7);
    assert_eq!(board[19][0], 0);
    assert_eq!(board[18], [0u8; BOARD_W]);
}

#[test]
fn tetris_scoring_and_levels() {
    assert_eq!(tetris::apply_line_clears(0, 0, 1, 0), (0, 0, 1));
    assert_eq!(tetris::apply_line_clears(0, 0, 1, 1), (100, 1, 1));
    assert_eq!(tetris::apply_line_clears(50, 9, 1, 1), (250, 10, 2));
    assert_eq!(tetris::apply_line_clears(0, 18, 2, 4), (2400, 22, 3));
    assert_eq!(tetris::drop_delay(1), 1000);
    assert_eq!(tetris::drop_delay(5), 680);
    assert_eq!(tetris::drop_delay(20), 100);
}

#[test]
fn tetris_rotation_in_the_open_and_against_a_wall() {
    let board = empty_board();
    let mut rot = 0u8;
    let mut cx = 3i32;
    let mut cy = 5i32;
    assert!(tetris::try_rotate(&board, 6, &mut rot, &mut cx, &mut cy, true));
    assert_eq!((rot, cx, cy), (1, 3, 5));
    // the O piece turns in place
    let mut rot = 0u8;
    let mut cx = 3i32;
    let mut cy = 5i32;
    assert!(tetris::try_rotate(&board, 4, &mut rot, &mut cx, &mut cy, false));
    assert_eq!((rot, cx, cy), (3, 3, 5));
}

#[test]
fn tetris_bag_deals_each_piece_once() {
    let mut r = Randomizer::new(42);
    assert_eq!(r.peek(), 1);
    let mut seen = [false; 8];
    for _ in 0..7 {
        let p = r.next_piece();
        assert!((1..=7).contains(&p));
        assert!(!seen[p as usize]);
        seen[p as usize] = true;
    }
    let p = r.next_piece();
    assert!((1..=7).contains(&p));
}

#[test]
fn tetris_every_seven_deals_form_a_bag() {
    for seed in [0u32, 7, 42, 0xFFFF_FFFF] {
        let mut r = Randomizer::new(seed);
        for _ in 0..5 {
            let mut got: Vec<u8> = (0..7).map(|_| r.next_piece()).collect();
            got.sort();
            assert_eq!(got, vec![1, 2, 3, 4, 5, 6, 7]);
        }
    }
}

#[test]
fn tetris_each_piece_covers_four_cells() {
    for t in 1u8..=7 {
        for rot in 0u8..4 {
            let mut n = 0;
            for y in -1i32..5 {
                for x in -1i32..5 {
                    if tetris::piece_at(t, rot, x, y) {
                        n += 1;
                        assert!((0..4).contains(&x) && (0..4).contains(&y));
                    }
                }
            }
            assert_eq!(n, 4);
        }
    }
    for rot in 0u8..4 {
        assert!(!tetris::piece_at(0, rot, 1, 1));
    }
}
