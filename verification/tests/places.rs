use mines::grid::NO_INDEX;
use mines::location::Loc;
use mines::mmap::{get_around_index, loc_to_idx};
use mines::position::Position;

const M: usize = NO_INDEX;

#[test]
fn index_of_a_place() {
    assert_eq!(loc_to_idx(0, 0, 4, 3), Some(0));
    assert_eq!(loc_to_idx(3, 2, 4, 3), Some(11));
    assert_eq!(loc_to_idx(1, 2, 4, 3), Some(9));
    assert_eq!(loc_to_idx(4, 0, 4, 3), None);
    assert_eq!(loc_to_idx(0, 3, 4, 3), None);
}

#[test]
fn around_a_corner_three_cells() {
    // 4 wide, 3 high
    assert_eq!(get_around_index(0, 4, 3), [M, M, 1, 5, 4, M, M, M]);
    assert_eq!(get_around_index(3, 4, 3), [M, M, M, M, 7, 6, 2, M]);
    assert_eq!(get_around_index(8, 4, 3), [4, 5, 9, M, M, M, M, M]);
    assert_eq!(get_around_index(11, 4, 3), [7, M, M, M, M, M, 10, 6]);
}

#[test]
fn around_an_edge_five_cells() {
    assert_eq!(get_around_index(1, 4, 3), [M, M, 2, 6, 5, 4, 0, M]);
    assert_eq!(get_around_index(4, 4, 3), [0, 1, 5, 9, 8, M, M, M]);
    assert_eq!(get_around_index(7, 4, 3), [3, M, M, M, 11, 10, 6, 2]);
    assert_eq!(get_around_index(9, 4, 3), [5, 6, 10, M, M, M, 8, 4]);
}

#[test]
fn around_an_inner_cell_eight_cells() {
    assert_eq!(get_around_index(5, 4, 3), [1, 2, 6, 10, 9, 8, 4, 0]);
    assert_eq!(get_around_index(6, 4, 3), [2, 3, 7, 11, 10, 9, 5, 1]);
}

#[test]
fn around_no_cell_nothing() {
    assert_eq!(get_around_index(12, 4, 3), [M; 8]);
    assert_eq!(get_around_index(0, 0, 0), [M; 8]);
}

#[test]
fn around_is_mutual_and_counted() {
    for (w, h) in [(2usize, 2usize), (3, 5), (7, 4)] {
        let size = w * h;
        for i in 0..size {
            let around = get_around_index(i, w, h);
            let valid: Vec<usize> = around.iter().copied().filter(|&a| a < size).collect();
            let (x, y) = (i % w, i / w);
            let on_side = x == 0 || x == w - 1;
            let on_end = y == 0 || y == h - 1;
            let want = if on_side && on_end {
                3
            } else if on_side || on_end {
                5
            } else {
                8
            };
            assert_eq!(valid.len(), want);
            for j in valid {
                assert!(get_around_index(j, w, h).contains(&i));
            }
            for a in around {
                assert!(a < size || a == M);
            }
        }
    }
}

#[test]
fn positions_around_inside() {
    let ls = Position(1, 1).get_around(Position(3, 3)).to_vec();
    assert_eq!(
        ls,
        vec![
            Position(0, 0),
            Position(1, 0),
            Position(2, 0),
            Position(0, 1),
            Position(2, 1),
            Position(0, 2),
            Position(1, 2),
            Position(2, 2),
        ]
    );
}

#[test]
fn positions_around_at_the_border() {
    let ls = Position(0, 0).get_around(Position(3, 3));
    assert_eq!(ls.to_vec(), vec![Position(1, 0), Position(0, 1), Position(1, 1)]);
    assert_eq!(ls.len(), 3);
    assert!(!ls.is_empty());
    assert!(ls.contains(Position(1, 1)));
    assert!(!ls.contains(Position(0, 0)));
    assert_eq!(ls.get(1), Some(Position(0, 1)));
    assert_eq!(ls.get(3), None);
    let ls = Position(2, 1).get_around(Position(3, 3)).to_vec();
    assert_eq!(
        ls,
        vec![Position(1, 0), Position(2, 0), Position(1, 1), Position(1, 2), Position(2, 2)]
    );
    let ls = Position(254, 254).get_around(Position(255, 255)).to_vec();
    assert_eq!(ls, vec![Position(253, 253), Position(254, 253), Position(253, 254)]);
}

#[test]
fn positions_around_outside_the_limits() {
    assert!(Position(3, 0).get_around(Position(3, 3)).is_empty());
    assert!(Position(0, 3).get_around(Position(3, 3)).is_empty());
    assert!(Position(0, 0).get_around(Position(0, 0)).is_empty());
}

#[test]
fn positions_nearby() {
    let ls = Position(1, 1).get_nearby(Position(3, 3)).to_vec();
    assert_eq!(ls, vec![Position(1, 0), Position(1, 2), Position(0, 1), Position(2, 1)]);
    let ls = Position(0, 2).get_nearby(Position(3, 3)).to_vec();
    assert_eq!(ls, vec![Position(0, 1), Position(1, 2)]);
    let ls = Position(255, 255).get_nearby(Position(255, 255)).to_vec();
    assert_eq!(ls, vec![Position(255, 254), Position(254, 255)]);
}

#[test]
fn loc_is_cut_down_to_a_byte() {
    assert_eq!(Loc::from(3, 7), Loc(3, 7));
    assert_eq!(Loc::from(255, 256), Loc(255, 255));
    assert_eq!(Loc::from(70000, 0), Loc(255, 0));
    assert_eq!(Loc::new(4, 5), Loc(4, 5));
}

#[test]
fn locs_around() {
    let ls = Loc(1, 1).get_around();
    assert_eq!(ls.len(), 8);
    assert_eq!(ls.get(0), Some(Loc(0, 0)));
    assert_eq!(ls.get(7), Some(Loc(2, 2)));
    assert_eq!(ls.get(8), None);
    assert_eq!(Loc(0, 0).get_around().to_vec(), vec![Loc(1, 0), Loc(0, 1), Loc(1, 1)]);
    assert_eq!(
        Loc(255, 255).get_around().to_vec(),
        vec![Loc(254, 254), Loc(255, 254), Loc(254, 255)]
    );
    assert_eq!(
        Loc(0, 9).get_around().to_vec(),
        vec![Loc(0, 8), Loc(1, 8), Loc(1, 9), Loc(0, 10), Loc(1, 10)]
    );
}

#[test]
fn locs_nearby() {
    assert_eq!(
        Loc(5, 6).get_nearby().to_vec(),
        vec![Loc(5, 5), Loc(4, 6), Loc(5, 7), Loc(6, 6)]
    );
    assert_eq!(
        Loc(0, 255).get_nearby().to_vec(),
        vec![Loc(0, 254), Loc(0, 255), Loc(0, 255), Loc(1, 255)]
    );
}
