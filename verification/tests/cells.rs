use mines::cell::Cell;
use mines::mark::{Mark, MineGuess};

#[test]
fn cell_fields_are_read_from_their_bits() {
    let c = Cell(0b1100_0011);
    assert_eq!(c.get_warn(), 3);
    assert!(c.is_reveal());
    assert!(c.is_flagged());
    assert!(!c.is_mine());
    assert!(!c.is_empty());
    let c = Cell(9);
    assert!(c.is_mine());
    assert!(!c.is_reveal());
    assert!(!c.is_flagged());
    assert!(Cell(0x40).is_empty());
    assert!(Cell(0x80).is_empty());
}

#[test]
fn cell_bump_stops_at_both_ends() {
    let mut c = Cell(0x40 | 30);
    c.bmp(true);
    assert_eq!(c.0, 0x40 | 31);
    c.bmp(true);
    assert_eq!(c.0, 0x40 | 31);
    let mut c = Cell(0x80 | 1);
    c.bmp(false);
    assert_eq!(c.0, 0x80);
    c.bmp(false);
    assert_eq!(c.0, 0x80);
    let mut c = Cell(4);
    c.bmp(true);
    assert_eq!(c.0, 5);
}

#[test]
fn cell_reveal_is_kept_and_drops_the_flag() {
    let mut c = Cell(0x40 | 5);
    c.mark_reveal();
    assert_eq!(c.0, 0x80 | 5);
    c.mark_reveal();
    assert_eq!(c.0, 0x80 | 5);
}

#[test]
fn cell_flag_switch_undoes_itself() {
    let mut c = Cell(0x80 | 7);
    c.switch_flag();
    assert_eq!(c.0, 0xc0 | 7);
    c.switch_flag();
    assert_eq!(c.0, 0x80 | 7);
}

#[test]
fn cells_compare_by_warning() {
    assert!(Cell(0x80 | 3) == Cell(0x40 | 3));
    assert!(Cell(3) != Cell(4));
}

#[test]
fn mark_is_made_of_its_parts() {
    let m = Mark::from(0x35, MineGuess::Safe, true, false);
    assert_eq!(m.0, 0x05 | 0x40 | 0x10);
    assert_eq!(m.get_warn(), 5);
    assert!(m.is_flagged());
    assert!(!m.is_open());
    assert!(m.guess_safe());
    assert!(m.is_guess());
    let m = Mark::from(9, MineGuess::Mine, false, true);
    assert_eq!(m.0, 0x09 | 0x80 | 0x30);
    assert!(m.is_mine());
    assert!(m.is_open());
    assert!(m.guess_mine());
    let m = Mark::from(0, MineGuess::Suspicious, false, false);
    assert_eq!(m.0, 0x20);
    assert!(m.is_empty());
    assert!(m.guess_suspicious());
}

#[test]
fn mark_state_changes_leave_the_warning() {
    let mut m = Mark(0x03);
    m.set_flag();
    assert_eq!(m.0, 0x43);
    m.set_flag();
    assert_eq!(m.0, 0x03);
    m.open();
    assert_eq!(m.0, 0x83);
    m.open();
    assert_eq!(m.0, 0x83);
    m.set_safe();
    assert_eq!(m.0, 0x93);
    m.set_suspicious();
    assert_eq!(m.0, 0xb3);
    assert!(m.guess_mine());
}

#[test]
fn mark_mine_and_warning() {
    let mut m = Mark(0xc4);
    m.set_mine();
    assert_eq!(m.0, 0xc9);
    assert!(m.is_mine());
    m.set_safe();
    assert_eq!(m.0, 0xc9);
    m.set_warn(0x27);
    assert_eq!(m.0, 0xc7);
    m.set_warn(12);
    assert_eq!(m.0, 0xcc);
    assert!(!Mark(0x08).is_mine());
    assert!(Mark(0x09).is_mine());
}

#[test]
fn mark_bump_stops_at_both_ends() {
    let mut m = Mark(0x4e);
    assert_eq!(m.bump_warn(true), 15);
    assert_eq!(m.0, 0x4f);
    assert_eq!(m.bump_warn(true), 15);
    assert_eq!(m.0, 0x4f);
    let mut m = Mark(0x81);
    assert_eq!(m.bump_warn(false), 0);
    assert_eq!(m.bump_warn(false), 0);
    assert_eq!(m.0, 0x80);
}

#[test]
fn marks_compare_by_warning() {
    assert!(Mark(0x83) == Mark(0x43));
    assert!(Mark(0x03) != Mark(0x04));
    assert!(!Mark(0x10).is_guess() || Mark(0x10).guess_safe());
    assert!(!Mark(0x00).is_guess());
}
