use npuzzle::map::Board;
use npuzzle::state::{Point, State};

#[test]
fn points_basic() {
    let p = Point { x: 1, y: 1 };
    assert_eq!(p.x, 1);
    assert_eq!(p.y, 1);
}

#[test]
fn points_left() {
    let p = Point { x: 1, y: 1 };
    let p = p.left().unwrap();
    assert_eq!(p.x, 0);
    assert_eq!(p.y, 1);
    let p = p.left();
    match p {
        Some(_) => assert!(false),
        None => assert!(true),
    }
}

#[test]
fn points_right() {
    let p = Point { x: 1, y: 1 };
    let p = p.right(3).unwrap();
    assert_eq!(p.x, 2);
    assert_eq!(p.y, 1);
    let p = p.right(3);
    match p {
        Some(_) => assert!(false),
        None => assert!(true),
    }
}

#[test]
fn points_up() {
    let p = Point { x: 1, y: 1 };
    let p = p.up().unwrap();
    assert_eq!(p.x, 1);
    assert_eq!(p.y, 0);
    let p = p.up();
    match p {
        Some(_) => assert!(false),
        None => assert!(true),
    }
}

#[test]
fn points_down() {
    let p = Point { x: 1, y: 1 };
    let p = p.down(3).unwrap();
    assert_eq!(p.x, 1);
    assert_eq!(p.y, 2);
    let p = p.down(3);
    match p {
        Some(_) => assert!(false),
        None => assert!(true),
    }
}

#[test]
fn state_build_state() {
    let s = State::from(Board {
        board: vec![1, 2, 3, 4, 5, 6, 7, 0, 8],
        size: 3,
    });
    assert_eq!(s.zero.to_1d(3), 7);
    let s = State::from(Board {
        board: vec![0, 2, 3, 4, 5, 6, 7, 1, 8],
        size: 3,
    });
    assert_eq!(s.zero.to_1d(3), 0);
    let s = State::from(Board {
        board: vec![1, 2, 3, 4, 5, 6, 7, 8, 0],
        size: 3,
    });
    assert_eq!(s.zero.to_1d(3), 8);
}

#[test]
fn state_build_child() {
    let s = State::from(Board {
        board: vec![1, 2, 3, 4, 5, 6, 7, 0, 8],
        size: 3,
    });
    let s2 = s.build_child(&Point { x: 0, y: 0 }, 3);
    assert_eq!(s2.zero.to_1d(3), 0);
    assert_eq!(s2.board[s2.zero.to_1d(3) as usize], 0);
    assert_eq!(s2.board[7], 1);
}

#[test]
#[should_panic]
fn state_build_child_panic() {
    let s = State::from(Board {
        board: vec![1, 2, 3, 4, 5, 6, 7, 0, 8],
        size: 3,
    });
    let _s2 = s.build_child(&Point { x: 10, y: 10 }, 3);
}

#[test]
fn state_conversions() {
    let p = Point::from_1d(7, 3);
    assert_eq!((p.x, p.y), (2, 1));
    let q = Point::to_2d(7, 3);
    assert_eq!((q.x, q.y), (2, 1));
    assert_eq!(q.to_1d(3), 7);
}

#[test]
fn state_children_of_center() {
    let s = State::build_state(vec![1, 2, 3, 8, 0, 4, 7, 6, 5], 3);
    let children = s.gen_children(3);
    let present: Vec<bool> = children.iter().map(|c| c.is_some()).collect();
    assert_eq!(present, vec![true, true, true, true]);
    // row up: the blank swaps with the tile above it
    let up = children[0].as_ref().unwrap();
    assert_eq!(up.board, vec![1, 0, 3, 8, 2, 4, 7, 6, 5]);
    assert_eq!((up.zero.x, up.zero.y), (0, 1));
}

#[test]
fn state_children_of_corner() {
    let s = State::build_state(vec![0, 2, 3, 4, 5, 6, 7, 1, 8], 3);
    let children = s.gen_children(3);
    let count = children.iter().filter(|c| c.is_some()).count();
    assert_eq!(count, 2);
    assert!(children[0].is_none());
    assert!(children[2].is_none());
}
