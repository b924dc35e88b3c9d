use mines::cell::Cell;
use mines::location::Loc;
use mines::mmap::{get_around_index, MineMap};

/// Five by five, the middle column all mines.
fn split_board() -> MineMap {
    let mut bytes = vec![5u8, 5];
    for row in 0..5 {
        let n = if row == 0 || row == 4 { 2 } else { 3 };
        bytes.extend([0, n, 9, n, 0]);
    }
    MineMap::from_buffer(bytes, true).unwrap()
}

/// Three by three, one mine in the middle.
fn ring_board() -> MineMap {
    MineMap::from_buffer(vec![3, 3, 1, 1, 1, 1, 9, 1, 1, 1, 1], true).unwrap()
}

fn revealed(m: &MineMap) -> Vec<usize> {
    (0..m.map.len()).filter(|&i| Cell(m.map[i]).is_reveal()).collect()
}

#[test]
fn new_board_is_blank() {
    let m = MineMap::new(10, 9, 8).unwrap();
    assert_eq!((m.count, m.width, m.height), (10, 9, 8));
    assert_eq!(m.map, vec![0u8; 72]);
    assert_eq!(m.blanks.len(), 0);
}

#[test]
fn new_board_refused() {
    assert_eq!(MineMap::new(1, 1, 9).err().unwrap(), "请设置更大的区域！");
    assert_eq!(MineMap::new(1, 9, 1).err().unwrap(), "请设置更大的区域！");
    assert_eq!(MineMap::new(0, 1, 1).err().unwrap(), "请设置更大的区域！");
    assert_eq!(MineMap::new(0, 9, 9).err().unwrap(), "请设置更多地雷！");
    assert_eq!(MineMap::new(81, 9, 9).err().unwrap(), "请减少地雷数量！");
    assert_eq!(MineMap::new(4, 2, 2).err().unwrap(), "请减少地雷数量！");
    assert!(MineMap::new(3, 2, 2).is_ok());
    assert!(MineMap::new(65024, 255, 255).is_ok());
    assert!(MineMap::new(65025, 255, 255).is_err());
}

#[test]
fn import_refused() {
    assert_eq!(
        MineMap::from_buffer(vec![2, 2, 0, 0, 0], true).err().unwrap(),
        "输入数据太短！[宽, 高, 数据..]"
    );
    assert_eq!(
        MineMap::from_buffer(vec![], false).err().unwrap(),
        "输入数据太短！[宽, 高, 数据..]"
    );
    assert_eq!(
        MineMap::from_buffer(vec![1, 4, 0, 0, 0, 0], true).err().unwrap(),
        "请设置更大的区域！"
    );
    assert_eq!(
        MineMap::from_buffer(vec![2, 2, 0, 0, 0, 0, 0], true).err().unwrap(),
        "数据长度与宽高不符！"
    );
    assert_eq!(
        MineMap::from_buffer(vec![3, 2, 0, 0, 0, 0], false).err().unwrap(),
        "数据长度与宽高不符！"
    );
}

#[test]
fn import_keeps_or_drops_the_state() {
    let bytes = vec![2, 2, 0x80 | 1, 0x40 | 9, 0xc0 | 1, 1];
    let m = MineMap::from_buffer(bytes.clone(), true).unwrap();
    assert_eq!((m.width, m.height, m.count), (2, 2, 1));
    assert_eq!(m.map, vec![0x81, 0x49, 0xc1, 1]);
    let m = MineMap::from_buffer(bytes, false).unwrap();
    assert_eq!((m.width, m.height, m.count), (2, 2, 1));
    assert_eq!(m.map, vec![1, 9, 1, 1]);
}

#[test]
fn export_and_import_give_the_board_back() {
    let mut m = split_board();
    m.reveal_at(0, 0);
    m.switch_flag(4, 4);
    let kept = m.export(true);
    assert_eq!(kept[0], 5);
    assert_eq!(kept[1], 5);
    assert_eq!(&kept[2..], &m.map[..]);
    let back = MineMap::from_buffer(kept, true).unwrap();
    assert_eq!((back.width, back.height), (5, 5));
    assert_eq!(back.map, m.map);
    assert_eq!(back.count, 5);

    let bare = m.export(false);
    assert!(bare[2..].iter().all(|b| b & 0xc0 == 0));
    let back = MineMap::from_buffer(bare, true).unwrap();
    assert_eq!(back.map, split_board().map);
    let back = MineMap::from_buffer(m.export(true), false).unwrap();
    assert_eq!(back.map, split_board().map);
}

#[test]
fn get_reads_a_cell() {
    let m = ring_board();
    assert_eq!(m.get(1, 1).unwrap().0, 9);
    assert_eq!(m.get(2, 2).unwrap().0, 1);
    assert!(m.get(3, 0).is_none());
    assert!(m.get(0, 3).is_none());
    assert_eq!(m.get_by_loc(Loc(1, 1)).unwrap().0, 9);
    assert!(m.get_by_loc(Loc(9, 9)).is_none());
}

#[test]
fn iter_walks_the_cells() {
    let m = ring_board();
    let mut it = m.iter();
    let mut seen = Vec::new();
    while let Some(c) = it.next() {
        seen.push(c.0);
    }
    assert_eq!(seen, m.map);
    assert!(it.next().is_none());
}

#[test]
fn center_mine_scenario() {
    let mut m = ring_board();
    for i in [0, 2, 6, 8] {
        assert_eq!(Cell(m.map[i]).get_warn(), 1);
    }
    for i in [1, 3, 5, 7] {
        assert_eq!(Cell(m.map[i]).get_warn(), 1);
    }
    assert!(Cell(m.map[4]).is_mine());
    assert_eq!(m.reveal_at(0, 0), 1);
    assert_eq!(revealed(&m), vec![0]);
}

#[test]
fn reveal_opens_a_region_and_its_border() {
    for (x, y) in [(0, 0), (0, 2), (0, 4)] {
        let mut m = split_board();
        assert_eq!(m.reveal_at(x, y), 10);
        assert_eq!(revealed(&m), vec![0, 1, 5, 6, 10, 11, 15, 16, 20, 21]);
    }
    let mut m = split_board();
    assert_eq!(m.reveal_at(4, 3), 10);
    assert_eq!(revealed(&m), vec![3, 4, 8, 9, 13, 14, 18, 19, 23, 24]);
}

#[test]
fn reveal_of_a_number_opens_it_alone() {
    let mut m = split_board();
    assert_eq!(m.reveal_at(1, 2), 1);
    assert_eq!(revealed(&m), vec![11]);
    assert_eq!(m.map[11], 0x80 | 3);
}

#[test]
fn reveal_of_a_mine_opens_it_alone() {
    let mut m = split_board();
    assert_eq!(m.reveal_by_loc(Loc(2, 2)), 1);
    assert_eq!(revealed(&m), vec![12]);
}

#[test]
fn reveal_again_changes_nothing() {
    let mut m = split_board();
    m.reveal_at(1, 2);
    let before = m.map.clone();
    assert_eq!(m.reveal_at(1, 2), 0);
    assert_eq!(m.map, before);
    m.reveal_at(0, 0);
    let before = m.map.clone();
    assert_eq!(m.reveal_at(0, 0), 0);
    assert_eq!(m.reveal_at(0, 3), 0);
    assert_eq!(m.map, before);
}

#[test]
fn reveal_leaves_flagged_cells() {
    let mut m = split_board();
    m.switch_flag(1, 2);
    let before = m.map.clone();
    assert_eq!(m.reveal_at(1, 2), 0);
    assert_eq!(m.map, before);
    // a flagged cell of a region stays hidden when the region opens
    m.switch_flag(0, 4);
    assert_eq!(m.reveal_at(0, 0), 8);
    assert_eq!(revealed(&m), vec![0, 1, 5, 6, 10, 15, 16, 21]);
    // a flagged zero cell does not open its region
    let mut m = split_board();
    m.switch_flag(0, 0);
    let before = m.map.clone();
    assert_eq!(m.reveal_at(0, 0), 0);
    assert_eq!(m.map, before);
}

#[test]
fn reveal_outside_the_board_changes_nothing() {
    let mut m = split_board();
    let before = m.map.clone();
    assert_eq!(m.reveal_at(5, 0), 0);
    assert_eq!(m.reveal_at(0, 5), 0);
    assert_eq!(m.reveal_around(7, 7), 0);
    m.switch_flag(5, 5);
    assert_eq!(m.count_flagged_around(5, 0), 0);
    assert_eq!(m.map, before);
}

#[test]
fn reveal_around_a_revealed_number() {
    let mut m = split_board();
    // hidden centre: nothing happens
    assert_eq!(m.reveal_around(1, 2), 0);
    assert_eq!(revealed(&m), Vec::<usize>::new());
    m.reveal_at(1, 2);
    m.switch_flag(2, 1);
    m.switch_flag(2, 2);
    m.switch_flag(2, 3);
    // column 0 opens as a region with column 1; the flagged mines stay
    assert_eq!(m.reveal_around(1, 2), 9);
    assert_eq!(revealed(&m), vec![0, 1, 5, 6, 10, 11, 15, 16, 20, 21]);
    assert_eq!(m.reveal_around(1, 2), 0);
    // a flagged centre blocks
    let mut m = split_board();
    m.reveal_at(1, 2);
    m.switch_flag(1, 2);
    assert_eq!(m.reveal_around(1, 2), 0);
    assert_eq!(revealed(&m), vec![11]);
}

#[test]
fn reveal_around_opens_unflagged_mines_too() {
    let mut m = ring_board();
    m.reveal_at(0, 0);
    assert_eq!(m.reveal_around(0, 0), 3);
    assert_eq!(revealed(&m), vec![0, 1, 3, 4]);
}

#[test]
fn reveal_around_remembers_the_regions_it_walks() {
    // no region is remembered of a board with more regions than the cap
    let (w, h) = (64usize, 31usize);
    let mut bytes = vec![w as u8, h as u8];
    bytes.extend(vec![9u8; w * h]);
    for y in 0..h {
        for x in 0..w {
            if x % 4 == 1 && y % 4 == 1 {
                for a in get_around_index(y * w + x, w, h) {
                    if a < w * h {
                        bytes[a + 2] = 1;
                    }
                }
                bytes[y * w + x + 2] = 0;
            }
        }
    }
    // two zero cells side by side, revealed from the numbered cell between
    bytes[5 * w + 5 + 2] = 0x80 | 1;
    bytes[5 * w + 4 + 2] = 0;
    bytes[5 * w + 6 + 2] = 0;
    let mut m = MineMap::from_buffer(bytes, true).unwrap();
    assert_eq!(m.blanks.len(), 0);
    m.reveal_around(5, 5);
    // the cells at (4, 5) and (6, 5) begin two regions, walked in the
    // order of the places, east before west; each is remembered once
    assert_eq!(m.blanks.len(), 2);
    assert!(m.blanks.holds(0, 5 * w + 6));
    assert!(m.blanks.holds(1, 5 * w + 4));
    m.reveal_around(5, 5);
    assert_eq!(m.blanks.len(), 2);
}

#[test]
fn shape_is_told() {
    let mut m = split_board();
    assert!(m.is_shaped());
    m.map.pop();
    assert!(!m.is_shaped());
    let mut m = split_board();
    m.width = 1;
    assert!(!m.is_shaped());
}

#[test]
fn flags_switch_and_are_counted() {
    let mut m = split_board();
    m.switch_flag(0, 0);
    m.switch_flag(1, 1);
    m.switch_flag_by_loc(Loc(4, 4));
    assert_eq!(m.map[0], 0x40);
    assert_eq!(m.map[6], 0x40 | 3);
    assert_eq!(m.count_flagged(), 3);
    assert_eq!(m.count_flagged_around(0, 0), 2);
    assert_eq!(m.count_flagged_around(1, 0), 2);
    assert_eq!(m.count_flagged_around(3, 3), 1);
    assert_eq!(m.count_flagged_around(2, 2), 1);
    assert_eq!(m.count_flagged_around(4, 0), 0);
    m.switch_flag(0, 0);
    assert_eq!(m.map[0], 0);
    assert_eq!(m.count_flagged(), 2);
}

#[test]
fn all_revealed_is_the_win() {
    let mut m = split_board();
    assert!(!m.is_all_reveal());
    m.reveal_at(0, 0);
    assert!(!m.is_all_reveal());
    m.reveal_at(4, 0);
    assert!(m.is_all_reveal());
    // one cell hidden again: no win
    m.map[24] &= 0x1f;
    assert!(!m.is_all_reveal());
    // the mines need not be revealed
    let mut m = ring_board();
    for (x, y) in [(0, 0), (1, 0), (2, 0), (0, 1), (2, 1), (0, 2), (1, 2)] {
        m.reveal_at(x, y);
    }
    assert!(!m.is_all_reveal());
    m.reveal_at(2, 2);
    assert!(m.is_all_reveal());
}

#[test]
fn all_mines_are_revealed_at_the_end() {
    let mut m = split_board();
    m.switch_flag(2, 0);
    m.reveal_all_mines();
    assert_eq!(revealed(&m), vec![2, 7, 12, 17, 22]);
    assert_eq!(m.map[2], 0xc0 | 9);
    assert_eq!(m.map[7], 0x80 | 9);
    assert_eq!(m.map[0], 0);
}

#[test]
fn progress_is_reset() {
    let mut m = split_board();
    m.reveal_at(0, 0);
    m.switch_flag(4, 4);
    m.reset_progress();
    assert_eq!(m.map, split_board().map);
}

#[test]
fn layout_is_drawn() {
    let m = ring_board();
    assert_eq!(m.format_str(), " 1 1 1\n 1 - 1\n 1 1 1\n");
    let m = MineMap::from_buffer(vec![3, 2, 0, 8, 9, 0x80, 0x47, 31], true).unwrap();
    assert_eq!(m.format_str(), "   8 -\n   7 -\n");
}

#[test]
fn game_is_drawn() {
    let mut m = ring_board();
    assert_eq!(m.format_stat_str(), " · · ·\n · · ·\n · · ·\n");
    m.reveal_at(0, 0);
    m.switch_flag(1, 1);
    m.reveal_at(2, 2);
    assert_eq!(m.format_stat_str(), " 1 · ·\n · @ ·\n · · 1\n");
    m.switch_flag(1, 1);
    m.reveal_all_mines();
    assert_eq!(m.format_stat_str(), " 1 · ·\n · + ·\n · · 1\n");
    let m = MineMap::from_buffer(vec![2, 2, 0x80, 0x88, 0xc3, 0x40], true).unwrap();
    assert_eq!(m.format_stat_str(), "   8\n 3 @\n");
}

#[test]
fn region_is_found() {
    let m = split_board();
    let mut r: Vec<usize> = m.find_empty_region(20).into_iter().collect();
    r.sort();
    assert_eq!(r, vec![0, 1, 5, 6, 10, 11, 15, 16, 20, 21]);
    // a numbered start is its own region, a mine has none
    let r: Vec<usize> = m.find_empty_region(11).into_iter().collect();
    assert_eq!(r, vec![11]);
    assert!(m.find_empty_region(12).is_empty());
    assert!(m.find_empty_region(25).is_empty());
}

fn check_game(m: &MineMap, safe: Option<Loc>) {
    let (w, h) = (m.width as usize, m.height as usize);
    let size = w * h;
    assert_eq!(m.map.len(), size);
    let mines = m.map.iter().filter(|&&b| Cell(b).is_mine()).count();
    assert_eq!(mines, m.count as usize);
    for i in 0..size {
        let c = Cell(m.map[i]);
        assert!(!c.is_reveal() && !c.is_flagged());
        if c.is_mine() {
            assert_eq!(m.map[i], 9);
        } else {
            let around = get_around_index(i, w, h)
                .into_iter()
                .filter(|&a| a < size && Cell(m.map[a]).is_mine())
                .count();
            assert_eq!(m.map[i] as usize, around);
        }
    }
    if let Some(Loc(x, y)) = safe {
        let c = y as usize * w + x as usize;
        assert!(!Cell(m.map[c]).is_mine());
        for a in get_around_index(c, w, h) {
            if a < size {
                assert!(!Cell(m.map[a]).is_mine());
            }
        }
    }
}

#[test]
fn new_game_lays_the_mines() {
    for (count, w, h) in [(1u16, 2u8, 2u8), (3, 2, 2), (10, 9, 9), (99, 30, 16), (40, 7, 7)] {
        let mut m = MineMap::new(count, w, h).unwrap();
        m.new_game(None);
        check_game(&m, None);
    }
}

#[test]
fn new_game_keeps_the_first_click_safe() {
    for (x, y) in [(0u8, 0u8), (4, 4), (8, 8), (0, 5), (3, 8)] {
        for count in [1u16, 30, 72] {
            let mut m = MineMap::new(count, 9, 9).unwrap();
            m.new_game(Some(Loc(x, y)));
            let zone = 1 + get_around_index(y as usize * 9 + x as usize, 9, 9)
                .into_iter()
                .filter(|&a| a < 81)
                .count();
            if count as usize + zone <= 81 {
                check_game(&m, Some(Loc(x, y)));
            } else {
                check_game(&m, None);
            }
        }
    }
}

#[test]
fn new_game_without_room_fills_the_outside() {
    let mut m = MineMap::new(5, 3, 3).unwrap();
    m.new_game(Some(Loc(0, 0)));
    check_game(&m, None);
    // the zone holds four cells, so all five cells outside are mines
    for i in [2, 5, 6, 7, 8] {
        assert!(Cell(m.map[i]).is_mine());
    }
    let mut m = MineMap::new(8, 3, 3).unwrap();
    m.new_game(Some(Loc(1, 1)));
    check_game(&m, None);
}

#[test]
fn new_game_with_a_click_outside_the_board() {
    let mut m = MineMap::new(10, 5, 5).unwrap();
    m.new_game(Some(Loc(5, 0)));
    check_game(&m, None);
}

#[test]
fn new_game_shuffles() {
    let mut m = MineMap::new(99, 30, 30).unwrap();
    m.new_game(None);
    assert!(!m.map[..99].iter().all(|&b| Cell(b).is_mine()));
}

#[test]
fn new_game_forgets_progress_and_regions() {
    let mut m = MineMap::new(5, 9, 9).unwrap();
    m.new_game(Some(Loc(4, 4)));
    assert!(m.reveal_at(4, 4) >= 9);
    m.switch_flag(0, 0);
    m.new_game(Some(Loc(0, 0)));
    check_game(&m, Some(Loc(0, 0)));
    let opened = m.reveal_at(0, 0);
    assert_eq!(opened, revealed(&m).len());
    for i in revealed(&m) {
        assert!(!Cell(m.map[i]).is_mine());
    }
}

#[test]
fn new_game_on_a_board_without_a_valid_count_changes_nothing() {
    // an imported board without mines has the count zero
    let mut m = MineMap::from_buffer(vec![2, 2, 0x80, 0, 0x40, 0], true).unwrap();
    assert_eq!(m.count, 0);
    m.new_game(None);
    assert_eq!(m.map, vec![0x80, 0, 0x40, 0]);
    let mut m = MineMap::from_buffer(vec![2, 2, 9, 9, 9, 9], true).unwrap();
    assert_eq!(m.count, 4);
    m.new_game(Some(Loc(0, 0)));
    assert_eq!(m.map, vec![9, 9, 9, 9]);
}

#[test]
fn many_regions_are_left_to_the_reveals() {
    // zeros kept apart by lines of mines: 128 regions of one cell each
    let (w, h) = (64usize, 31usize);
    let mut mines = vec![false; w * h];
    for y in 0..h {
        for x in 0..w {
            mines[y * w + x] = !(x % 4 == 1 && y % 4 == 1);
        }
    }
    let mut bytes = vec![w as u8, h as u8];
    for i in 0..w * h {
        bytes.push(if mines[i] { 9 } else { 0 });
    }
    // the zeros here have mines around them; make them true zeros by
    // clearing the mines around each
    for y in 0..h {
        for x in 0..w {
            if x % 4 == 1 && y % 4 == 1 {
                for a in get_around_index(y * w + x, w, h) {
                    if a < w * h {
                        bytes[a + 2] = 1;
                    }
                }
            }
        }
    }
    let mut m = MineMap::from_buffer(bytes, true).unwrap();
    assert_eq!(m.blanks.len(), 0);
    assert_eq!(m.reveal_at(1, 1), 9);
    assert_eq!(m.blanks.len(), 1);
    assert_eq!(m.reveal_at(5, 5), 9);
    assert_eq!(m.blanks.len(), 2);
    // a board with few regions has them found at once
    assert_eq!(split_board().blanks.len(), 2);
}
