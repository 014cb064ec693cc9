use sudoku::Board;
use sudoku::Pos;

fn board_from(s: &str) -> Board {
    let (board, _used) = Board::read(s.as_bytes()).expect("input holds 81 cells");
    board
}

#[test]
fn new_board_is_empty() {
    let b = Board::new();
    for i in 0..9 {
        for j in 0..9 {
            assert_eq!(b.get(i, j), 0);
        }
    }
}

#[test]
fn set_and_get() {
    let mut b = Board::new();
    b.set_pos(7, &Pos { i: 3, j: 4 });
    assert_eq!(b.get(3, 4), 7);
    assert_eq!(b.get_pos(&Pos { i: 3, j: 4 }), 7);
    assert_eq!(b.get(4, 3), 0);
    b.set_pos(0, &Pos { i: 3, j: 4 });
    assert_eq!(b.get(3, 4), 0);
}

#[test]
fn next_advances_in_raster_order() {
    let p = Board::next(Pos { i: 0, j: 0 });
    assert_eq!((p.i, p.j), (0, 1));
    let p = Board::next(Pos { i: 0, j: 8 });
    assert_eq!((p.i, p.j), (1, 0));
    let p = Board::next(Pos { i: 8, j: 8 });
    assert_eq!((p.i, p.j), (0, 0));
}

#[test]
fn next_free_finds_first_empty_after_position() {
    let mut b = Board::new();
    // The scan starts after the given position.
    let p = b.next_free(Pos { i: 0, j: 0 }).unwrap();
    assert_eq!((p.i, p.j), (0, 1));
    b.set_pos(5, &Pos { i: 0, j: 1 });
    let p = b.next_free(Pos { i: 0, j: 0 }).unwrap();
    assert_eq!((p.i, p.j), (0, 2));
    // From the last cell the scan wraps to the origin.
    let p = b.next_free(Pos { i: 8, j: 8 }).unwrap();
    assert_eq!((p.i, p.j), (0, 0));
}

#[test]
fn next_free_wraps_a_full_cycle() {
    let mut b = Board::new();
    for i in 0..9 {
        for j in 0..9 {
            b.set_pos(1, &Pos { i, j });
        }
    }
    // Only the scan's own starting cell is empty: a full cycle ends there.
    b.set_pos(0, &Pos { i: 3, j: 3 });
    let p = b.next_free(Pos { i: 3, j: 3 }).unwrap();
    assert_eq!((p.i, p.j), (3, 3));
    let p = b.next_free(Pos { i: 7, j: 0 }).unwrap();
    assert_eq!((p.i, p.j), (3, 3));
}

#[test]
fn next_free_on_full_board_is_none() {
    let mut b = Board::new();
    for i in 0..9 {
        for j in 0..9 {
            b.set_pos(1, &Pos { i, j });
        }
    }
    assert!(b.next_free(Pos { i: 0, j: 0 }).is_none());
}

#[test]
fn validity_checks_row_column_and_box() {
    let mut b = Board::new();
    b.set_pos(5, &Pos { i: 0, j: 0 });
    // Same row, same column, same box.
    assert!(!b.is_position_valid_with(&Pos { i: 0, j: 7 }, 5));
    assert!(!b.is_position_valid_with(&Pos { i: 7, j: 0 }, 5));
    assert!(!b.is_position_valid_with(&Pos { i: 1, j: 1 }, 5));
    // A different digit, or an unrelated cell, is fine.
    assert!(b.is_position_valid_with(&Pos { i: 0, j: 7 }, 6));
    assert!(b.is_position_valid_with(&Pos { i: 4, j: 4 }, 5));
    // The stored value itself.
    assert!(b.is_position_valid(&Pos { i: 0, j: 0 }));
    b.set_pos(5, &Pos { i: 0, j: 7 });
    assert!(!b.is_position_valid(&Pos { i: 0, j: 0 }));
    // An empty cell never conflicts.
    assert!(b.is_position_valid(&Pos { i: 8, j: 8 }));
}

#[test]
fn only_number_when_eight_are_present() {
    let mut b = Board::new();
    for j in 0..8 {
        b.set_pos((j + 1) as u8, &Pos { i: 0, j });
    }
    assert_eq!(b.the_only_valid_number(&Pos { i: 0, j: 8 }), 9);
}

#[test]
fn only_number_when_all_nine_are_present() {
    let mut b = Board::new();
    for j in 0..8 {
        b.set_pos((j + 1) as u8, &Pos { i: 0, j });
    }
    b.set_pos(9, &Pos { i: 1, j: 8 });
    assert_eq!(b.the_only_valid_number(&Pos { i: 0, j: 8 }), 0);
}

#[test]
fn only_number_finds_the_single_place_for_a_digit() {
    // Nothing is visible from (0,0), yet 1 fits nowhere else in its row,
    // column, or box: every other empty cell there is blocked by a 1.
    let mut b = Board::new();
    b.set_pos(1, &Pos { i: 1, j: 3 });
    b.set_pos(1, &Pos { i: 2, j: 6 });
    b.set_pos(1, &Pos { i: 3, j: 1 });
    b.set_pos(1, &Pos { i: 4, j: 2 });
    b.set_pos(1, &Pos { i: 5, j: 4 });
    b.set_pos(1, &Pos { i: 6, j: 5 });
    b.set_pos(1, &Pos { i: 7, j: 7 });
    b.set_pos(1, &Pos { i: 8, j: 8 });
    assert_eq!(b.the_only_valid_number(&Pos { i: 0, j: 0 }), 1);
}

#[test]
fn only_number_when_nothing_is_decided() {
    let b = Board::new();
    assert_eq!(b.the_only_valid_number(&Pos { i: 4, j: 4 }), 0);
}

#[test]
fn read_maps_blanks_and_digits() {
    let mut s = String::from("12 .9");
    s.push_str(&".".repeat(76));
    let (b, used) = Board::read(s.as_bytes()).unwrap();
    assert_eq!(used, 81);
    assert_eq!(b.get(0, 0), 1);
    assert_eq!(b.get(0, 1), 2);
    assert_eq!(b.get(0, 2), 0);
    assert_eq!(b.get(0, 3), 0);
    assert_eq!(b.get(0, 4), 9);
    assert_eq!(b.get(8, 8), 0);
}

#[test]
fn read_skips_other_bytes() {
    let mut s = String::from("1\n2\n3");
    s.push_str(&" ".repeat(78));
    let (b, used) = Board::read(s.as_bytes()).unwrap();
    assert_eq!(used, s.len());
    assert_eq!(b.get(0, 0), 1);
    assert_eq!(b.get(0, 1), 2);
    assert_eq!(b.get(0, 2), 3);
    assert_eq!(b.get(0, 3), 0);
}

#[test]
fn read_stops_after_the_81st_cell() {
    let mut s = ".".repeat(81);
    s.push_str("99 trailing");
    let (b, used) = Board::read(s.as_bytes()).unwrap();
    assert_eq!(used, 81);
    assert_eq!(b.get(0, 0), 0);
    assert_eq!(b.get(8, 8), 0);
}

#[test]
fn read_skips_the_digit_zero() {
    let mut s = String::from("102");
    s.push_str(&".".repeat(79));
    let (b, used) = Board::read(s.as_bytes()).unwrap();
    assert_eq!(used, s.len());
    assert_eq!(b.get(0, 0), 1);
    assert_eq!(b.get(0, 1), 2);
    assert_eq!(b.get(0, 2), 0);
    // 80 cells and a '0' are one cell short of a board.
    let mut t = ".".repeat(80);
    t.push('0');
    assert!(Board::read(t.as_bytes()).is_none());
}

#[test]
fn read_rejects_short_input() {
    let s = ".".repeat(80);
    assert!(Board::read(s.as_bytes()).is_none());
    assert!(Board::read(b"").is_none());
    // Bytes that are skipped do not count toward the 81 cells.
    let t = "x".repeat(200);
    assert!(Board::read(t.as_bytes()).is_none());
}

#[test]
fn write_renders_rows_bars_and_rules() {
    let b = Board::new();
    let text = String::from_utf8(b.write()).unwrap();
    let row = "000|000|000\n";
    let rule = "-----------\n";
    let expected = format!(
        "{r}{r}{r}{s}{r}{r}{r}{s}{r}{r}{r}",
        r = row,
        s = rule
    );
    assert_eq!(text, expected);
}

#[test]
fn write_renders_digits() {
    let mut s = String::from("123456789");
    s.push_str(&" ".repeat(72));
    let b = board_from(&s);
    let text = String::from_utf8(b.write()).unwrap();
    assert!(text.starts_with("123|456|789\n"));
}

#[test]
fn prepare_fills_a_forced_cell() {
    let mut b = Board::new();
    for j in 0..8 {
        b.set_pos((j + 1) as u8, &Pos { i: 0, j });
    }
    b.pre_solve_with_constraints();
    assert_eq!(b.get(0, 8), 9);
    for j in 0..8 {
        assert_eq!(b.get(0, j), (j + 1) as u8);
    }
}

#[test]
fn prepare_twice_equals_prepare_once() {
    let input = "53  7    6  195    98    6 8   6   34  8 3  17   2   6 6    28    419  5    8  79";
    let mut once = board_from(input);
    let mut twice = board_from(input);
    once.pre_solve_with_constraints();
    twice.pre_solve_with_constraints();
    twice.pre_solve_with_constraints();
    for i in 0..9 {
        for j in 0..9 {
            assert_eq!(once.get(i, j), twice.get(i, j));
        }
    }
}
