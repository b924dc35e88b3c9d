use mines::mark::Mark;
use mines::position::Position;
use mines::{MineMap, SlotState};

/// Lays mines at the given cells of a blank board and counts the
/// warnings, as a shuffle does.
fn board_with(w: u8, h: u8, mines: &[(u8, u8)]) -> MineMap {
    let mut m = MineMap::from(mines.len() as u16, w, h);
    for &(x, y) in mines {
        m.map[y as usize][x as usize] = Mark(9);
    }
    for y in 0..h {
        for x in 0..w {
            if m.map[y as usize][x as usize].is_mine() {
                continue;
            }
            let near = Position(x, y)
                .get_around(Position(w, h))
                .to_vec()
                .into_iter()
                .filter(|p| m.map[p.1 as usize][p.0 as usize].is_mine())
                .count();
            m.map[y as usize][x as usize] = Mark(near as u8);
        }
    }
    for y in 0..256 {
        for x in 0..256 {
            m.state_map[y][x] =
                if m.map[y][x].get_warn() == 0 { SlotState::Empty } else { SlotState::Sth };
        }
    }
    m
}

fn check_laid(m: &MineMap, want: usize, ignore: Option<Position>) {
    let lim = Position(m.width, m.height);
    let mut mines = 0;
    for y in 0..=255u8 {
        for x in 0..=255u8 {
            let mark = m.get(x, y);
            assert_eq!(mark.0 & 0xf0, 0);
            let st = m.state_map[y as usize][x as usize];
            assert_eq!(st == SlotState::Empty, mark.is_empty());
            assert!(st != SlotState::Tagged);
            if x >= m.width || y >= m.height {
                assert_eq!(mark.0, 0);
                continue;
            }
            if mark.is_mine() {
                mines += 1;
                continue;
            }
            let near = Position(x, y)
                .get_around(lim)
                .to_vec()
                .into_iter()
                .filter(|p| m.get_by_pos(*p).is_mine())
                .count();
            assert_eq!(mark.get_warn() as usize, near);
        }
    }
    assert_eq!(mines, want);
    if let Some(p) = ignore {
        assert!(!m.get_by_pos(p).is_mine());
        for a in p.get_around(lim).to_vec() {
            assert!(!m.get_by_pos(a).is_mine());
        }
    }
}

#[test]
fn fresh_board_is_blank() {
    let m = MineMap::from(10, 9, 9);
    assert_eq!((m.count, m.width, m.height), (10, 9, 9));
    assert!(m.map.iter().flatten().all(|m| m.0 == 0));
    assert_eq!(m.map.len(), 256);
    assert!(m.state_map.iter().flatten().all(|&s| s == SlotState::Empty));
    assert_eq!(m.get(255, 255).0, 0);
}

#[test]
fn shuffle_lays_the_mines() {
    for (count, w, h) in [(1u16, 2u8, 2u8), (4, 2, 2), (10, 9, 9), (99, 30, 16), (300, 20, 20)] {
        let mut m = MineMap::from(count, w, h);
        m.shuffle(None);
        check_laid(&m, count as usize, None);
    }
}

#[test]
fn shuffle_keeps_the_zone_free() {
    for p in [Position(0, 0), Position(4, 4), Position(8, 3)] {
        for count in [1u16, 40, 72] {
            let mut m = MineMap::from(count, 9, 9);
            m.shuffle(Some(p));
            let zone = 1 + p.get_around(Position(9, 9)).len();
            let want = (count as usize).min(81 - zone);
            check_laid(&m, want, Some(p));
        }
    }
}

#[test]
fn shuffle_forgets_the_state() {
    let mut m = MineMap::from(5, 4, 4);
    m.open(0, 0);
    m.set_flag(1, 1);
    m.update_by(2, 2, 0x10);
    m.shuffle(None);
    check_laid(&m, 5, None);
}

#[test]
fn shuffle_without_a_valid_count_changes_nothing() {
    let mut m = MineMap::from(0, 4, 4);
    m.open(0, 0);
    m.shuffle(None);
    assert_eq!(m.get(0, 0).0, 0x80);
    let mut m = MineMap::from(17, 4, 4);
    m.set_flag(3, 3);
    m.shuffle(None);
    assert_eq!(m.get(3, 3).0, 0x40);
    assert!(m.map.iter().flatten().all(|m| !m.is_mine()));
    // no cell outside the zone
    let mut m = MineMap::from(3, 3, 3);
    m.open(0, 0);
    m.shuffle(Some(Position(1, 1)));
    assert_eq!(m.get(0, 0).0, 0x80);
    assert!(m.map.iter().flatten().all(|m| !m.is_mine()));
}

#[test]
fn shuffle_shuffles() {
    let mut m = MineMap::from(99, 30, 30);
    m.shuffle(None);
    let first: Vec<bool> = (0..99u16).map(|i| m.get((i % 30) as u8, (i / 30) as u8).is_mine()).collect();
    assert!(!first.iter().all(|&b| b));
}

#[test]
fn open_flag_and_guess() {
    let mut m = board_with(3, 3, &[(1, 1)]);
    m.open(0, 0);
    assert_eq!(m.get(0, 0).0, 0x81);
    m.open_by_pos(Position(0, 0));
    assert_eq!(m.get(0, 0).0, 0x81);
    m.set_flag(2, 2);
    assert_eq!(m.get(2, 2).0, 0x41);
    m.set_flag_by_pos(Position(2, 2));
    assert_eq!(m.get(2, 2).0, 0x01);
    // outside the board nothing happens
    m.open(3, 0);
    m.set_flag(0, 3);
    m.update_by(3, 3, 0xff);
    assert_eq!(m.get(3, 0).0, 0);
    assert_eq!(m.get(0, 3).0, 0);
    assert_eq!(m.get(3, 3).0, 0);
    assert_eq!(m.get_by_pos(Position(1, 1)).0, 9);
}

#[test]
fn update_brings_the_state_over() {
    let mut m = board_with(3, 3, &[(1, 1)]);
    // open and flag
    m.update_by(0, 0, 0xc1);
    assert_eq!(m.get(0, 0).0, 0xc1);
    // the same value again: the flag bits agree now, which is not how
    // the flag stands, so the flag is switched
    m.update_by(0, 0, 0xc1);
    assert_eq!(m.get(0, 0).0, 0x81);
    // an opened cell stays open
    m.update_by(0, 0, 0x01);
    assert_eq!(m.get(0, 0).0, 0x81);
    m.update_by(0, 0, 0x41);
    assert_eq!(m.get(0, 0).0, 0xc1);
    // guesses
    m.update_by(0, 1, 0x11);
    assert_eq!(m.get(0, 1).0, 0x11);
    m.update_by(2, 1, 0x21);
    assert_eq!(m.get(2, 1).0, 0x21);
    // a mine takes no guess of being safe
    m.update_by(1, 1, 0x19);
    assert_eq!(m.get(1, 1).0, 0x09);
    // the warning of the value plays no part
    m.update_by(2, 2, 0x07);
    assert_eq!(m.get(2, 2).0, 0x01);
}

#[test]
fn guesses_are_listed_row_by_row() {
    let mut m = board_with(4, 3, &[(0, 0)]);
    assert_eq!(m.get_all_guess(), vec![]);
    m.update_by(3, 2, 0x10);
    m.update_by(1, 0, 0x21);
    m.update_by(2, 0, 0x20);
    m.update_by(0, 1, 0x11);
    assert_eq!(
        m.get_all_guess(),
        vec![Position(1, 0), Position(2, 0), Position(0, 1), Position(3, 2)]
    );
}

#[test]
fn board_is_drawn() {
    let m = board_with(4, 3, &[(0, 0), (1, 0)]);
    assert_eq!(m.format_str(), " + + 1  \n 2 2 1  \n        \n");
    let m = MineMap::from(1, 2, 2);
    assert_eq!(m.format_str(), "    \n    \n");
}

#[test]
fn open_area_of_a_blank_cell() {
    // mines down the middle column of five
    let m = board_with(5, 5, &[(2, 0), (2, 1), (2, 2), (2, 3), (2, 4)]);
    let mut area = m.get_nearby_empty_area(0, 2);
    assert_eq!(area[0], Position(0, 2));
    area.sort_by_key(|p| (p.1, p.0));
    let want: Vec<Position> = (0..5u8).flat_map(|y| [Position(0, y), Position(1, y)]).collect();
    assert_eq!(area, want);
}

#[test]
fn open_area_of_a_numbered_cell() {
    let m = board_with(5, 5, &[(2, 0), (2, 1), (2, 2), (2, 3), (2, 4)]);
    // the cells around it, mines too, and through the blank ones the
    // whole left side; the cell itself borders a blank cell
    let mut area = m.get_nearby_empty_area(1, 2);
    area.sort_by_key(|p| (p.1, p.0));
    let mut want: Vec<Position> =
        (0..5u8).flat_map(|y| [Position(0, y), Position(1, y)]).collect();
    want.extend([Position(2, 1), Position(2, 2), Position(2, 3)]);
    want.sort_by_key(|p| (p.1, p.0));
    assert_eq!(area, want);
    // a mine with no blank cell around it: the cells around it only
    let mut area = m.get_nearby_empty_area(2, 2);
    area.sort_by_key(|p| (p.1, p.0));
    assert_eq!(
        area,
        vec![
            Position(1, 1),
            Position(2, 1),
            Position(3, 1),
            Position(1, 2),
            Position(3, 2),
            Position(1, 3),
            Position(2, 3),
            Position(3, 3),
        ]
    );
}

#[test]
fn open_area_outside_the_board() {
    let m = board_with(5, 5, &[(2, 2)]);
    assert!(m.get_nearby_empty_area(5, 0).is_empty());
    assert!(m.get_nearby_empty_area(0, 5).is_empty());
}

#[test]
fn open_area_lists_each_cell_once() {
    let mut m = MineMap::from(40, 20, 20);
    m.shuffle(Some(Position(10, 10)));
    let area = m.get_nearby_empty_area(10, 10);
    let mut seen = std::collections::HashSet::new();
    for p in &area {
        assert!(seen.insert(*p));
        assert!(p.0 < 20 && p.1 < 20);
        assert!(!m.get_by_pos(*p).is_mine());
    }
    assert!(area.len() >= 9);
    assert!(area.contains(&Position(10, 10)));
    // every blank cell of the area has all the cells around it there
    for p in &area {
        if m.get_by_pos(*p).is_empty() {
            for a in p.get_around(Position(20, 20)).to_vec() {
                assert!(seen.contains(&a));
            }
        }
    }
}

#[test]
fn a_mine_moves_to_a_cell_around_it() {
    let mut m = board_with(5, 5, &[(2, 2)]);
    let q = m.move_mine_randomly(2, 2);
    assert!(q != Position(2, 2));
    assert!((q.0 as i32 - 2).abs() <= 1 && (q.1 as i32 - 2).abs() <= 1);
    check_laid(&m, 1, None);
    assert!(m.get_by_pos(q).is_mine());
    assert!(!m.get(2, 2).is_mine());
}

#[test]
fn a_mine_moves_elsewhere_when_all_around_is_taken() {
    // the corner mine has a mine and two opened cells around it
    let mut m = board_with(4, 4, &[(0, 0), (1, 0)]);
    m.open(0, 1);
    m.open(1, 1);
    let q = m.move_mine_randomly(0, 0);
    assert!(!m.get_by_pos(q).is_open());
    assert!(q != Position(1, 0) && q != Position(0, 1) && q != Position(1, 1));
    assert!(m.get_by_pos(q).is_mine());
    let mines = m.map.iter().flatten().filter(|m| m.is_mine()).count();
    assert_eq!(mines, 2);
    // the state of the cells stays
    assert!(m.get(0, 1).is_open());
    assert!(m.get(1, 1).is_open());
}

#[test]
fn a_mine_stays_when_no_cell_can_take_it() {
    let mut m = board_with(2, 2, &[(0, 0)]);
    for (x, y) in [(0, 0), (1, 0), (0, 1), (1, 1)] {
        m.open(x, y);
    }
    let before: Vec<u8> = m.map.iter().flatten().map(|m| m.0).collect();
    let q = m.move_mine_randomly(0, 0);
    assert_eq!(q, Position(0, 0));
    let after: Vec<u8> = m.map.iter().flatten().map(|m| m.0).collect();
    assert_eq!(after, before);
}

#[test]
fn moving_mines_keeps_the_warnings_right() {
    let mut m = MineMap::from(60, 12, 12);
    m.shuffle(None);
    for _ in 0..50 {
        let (x, y) = (0..12u8)
            .flat_map(|y| (0..12u8).map(move |x| (x, y)))
            .find(|&(x, y)| m.get(x, y).is_mine())
            .unwrap();
        m.move_mine_randomly(x, y);
        check_laid(&m, 60, None);
    }
}
