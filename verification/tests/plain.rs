use mines::cell::Cell;
use mines::location::Loc;
use mines::map::MineMap;
use mines::position::Position;

fn zone_of(m: &MineMap, l: Loc) -> Vec<usize> {
    let (w, h) = (m.width as usize, m.height as usize);
    let mut zone = Vec::new();
    for y in 0..h {
        for x in 0..w {
            let near = (x as i32 - l.0 as i32).abs() <= 1 && (y as i32 - l.1 as i32).abs() <= 1;
            if near {
                zone.push(y * w + x);
            }
        }
    }
    zone
}

fn check_plain(m: &MineMap, ignore: Option<Loc>) {
    let (w, h) = (m.width as usize, m.height as usize);
    assert_eq!(m.map.len(), w * h);
    let mines = m.map.iter().filter(|&&b| Cell(b).is_mine()).count();
    assert_eq!(mines, m.count as usize);
    for y in 0..h {
        for x in 0..w {
            let v = m.map[y * w + x];
            let near = Loc(x as u8, y as u8)
                .get_around()
                .to_vec()
                .into_iter()
                .filter(|l| m.get_by_loc(*l).map_or(false, |c| c.is_mine()))
                .count();
            if Cell(v).is_mine() {
                assert_eq!(v, 9);
            } else {
                assert_eq!(v as usize, near);
            }
        }
    }
    if let Some(l) = ignore {
        let zone = zone_of(m, l);
        if m.count as usize + zone.len() <= w * h {
            for &i in &zone {
                assert!(!Cell(m.map[i]).is_mine());
            }
        } else {
            for i in 0..w * h {
                assert!(zone.contains(&i) || Cell(m.map[i]).is_mine());
            }
        }
    }
}

#[test]
fn plain_board_is_made() {
    let m = MineMap::new(10, 9, 8);
    assert_eq!((m.count, m.width, m.height), (10, 9, 8));
    assert_eq!(m.map, vec![0u8; 72]);
    assert_eq!(MineMap::new(72, 9, 8).map.len(), 72);
    assert!(MineMap::new(0, 9, 8).map.is_empty());
    assert!(MineMap::new(73, 9, 8).map.is_empty());
}

#[test]
fn plain_board_is_read() {
    let mut m = MineMap::new(1, 3, 2);
    m.map = vec![1, 9, 1, 1, 1, 0x81];
    assert_eq!(m.get(1, 0).unwrap().0, 9);
    assert_eq!(m.get(2, 1).unwrap().0, 0x81);
    assert_eq!(m.get_by_loc(Loc(0, 1)).unwrap().0, 1);
    assert!(m.get(3, 0).is_none());
    assert!(m.get(0, 2).is_none());
    // a board without cells has none to give
    assert!(MineMap::new(0, 3, 2).get(0, 0).is_none());
}

#[test]
fn plain_board_opens_and_flags() {
    let mut m = MineMap::new(1, 3, 2);
    m.map = vec![1, 9, 1, 1, 1, 1];
    m.open(0, 0);
    assert_eq!(m.map[0], 0x81);
    m.open(0, 0);
    assert_eq!(m.map[0], 0x81);
    m.switch_flag(0, 0);
    assert_eq!(m.map[0], 0xc1);
    m.open_by_loc(Loc(2, 1));
    assert_eq!(m.map[5], 0x81);
    m.switch_flag_by_loc(Loc(1, 0));
    assert_eq!(m.map[1], 0x49);
    m.switch_flag(1, 0);
    assert_eq!(m.map[1], 0x09);
    // a flagged cell keeps its flag when opened
    m.switch_flag(1, 1);
    m.open(1, 1);
    assert_eq!(m.map[4], 0xc1);
    let before = m.map.clone();
    m.open(3, 0);
    m.switch_flag(0, 2);
    assert_eq!(m.map, before);
}

#[test]
fn plain_board_is_drawn() {
    let mut m = MineMap::new(1, 3, 2);
    m.map = vec![1, 9, 1, 0, 1, 0x88];
    assert_eq!(m.format_str(), " 1 + 1\n   1 8\n");
    assert_eq!(MineMap::new(0, 3, 2).format_str(), "\n\n");
}

#[test]
fn plain_shuffle_lays_the_mines() {
    for (count, w, h) in [(1u16, 2u8, 2u8), (4, 2, 2), (10, 9, 9), (99, 30, 16)] {
        let mut m = MineMap::new(count, w, h);
        m.open(0, 0);
        m.shuffle(None);
        check_plain(&m, None);
    }
}

#[test]
fn plain_shuffle_keeps_the_first_click_safe() {
    for count in [1u16, 40, 72] {
        for l in [Loc(0, 0), Loc(4, 4), Loc(8, 8), Loc(0, 5)] {
            let mut m = MineMap::new(count, 9, 9);
            m.shuffle(Some(l));
            check_plain(&m, Some(l));
        }
    }
    // one mine on three by three, the click in a corner
    for _ in 0..50 {
        let mut m = MineMap::new(1, 3, 3);
        m.shuffle(Some(Loc(0, 0)));
        for i in [0, 1, 3, 4] {
            assert!(!Cell(m.map[i]).is_mine());
        }
    }
}

#[test]
fn plain_shuffle_without_room_fills_the_outside() {
    // the zone holds nine cells, so the 72 cells outside take 72 mines
    let mut m = MineMap::new(80, 9, 9);
    m.shuffle(Some(Loc(4, 4)));
    check_plain(&m, Some(Loc(4, 4)));
    // every cell a mine
    let mut m = MineMap::new(81, 9, 9);
    m.shuffle(Some(Loc(4, 4)));
    check_plain(&m, Some(Loc(4, 4)));
    assert!(m.map.iter().all(|&b| b == 9));
    // a click outside the board
    let mut m = MineMap::new(10, 9, 9);
    m.shuffle(Some(Loc(9, 0)));
    check_plain(&m, None);
}

#[test]
fn plain_shuffle_without_a_valid_count_changes_nothing() {
    let mut m = MineMap::new(0, 3, 3);
    m.shuffle(None);
    assert!(m.map.is_empty());
    let mut m = MineMap::new(10, 3, 3);
    m.shuffle(Some(Loc(1, 1)));
    assert!(m.map.is_empty());
    let mut m = MineMap::new(4, 3, 3);
    m.count = 0;
    m.open(0, 0);
    m.shuffle(None);
    assert_eq!(m.map, vec![0x80, 0, 0, 0, 0, 0, 0, 0, 0]);
}

#[test]
fn plain_shuffle_shuffles() {
    let mut m = MineMap::new(99, 30, 30);
    m.shuffle(None);
    assert!(!m.map[..99].iter().all(|&b| Cell(b).is_mine()));
}

#[test]
fn text_of_places_and_cells() {
    assert_eq!(Position(3, 14).to_text(), "(x:3, y:14)");
    assert_eq!(Position(0, 255).to_text(), "(x:0, y:255)");
    assert_eq!(Position(100, 109).to_text(), "(x:100, y:109)");
    assert_eq!(Loc(3, 14).to_text(), "(3, 14)");
    assert_eq!(Loc(200, 9).to_text(), "(200, 9)");
    assert_eq!(Cell(0b1000_0011).to_text(), "Cell(10000011)");
    assert_eq!(Cell(0).to_text(), "Cell(00000000)");
    assert_eq!(Cell(0xff).to_text(), "Cell(11111111)");
    assert_eq!(Cell(0x49).to_text(), "Cell(01001001)");
}
