use aoc2024::fixed_size_vec::FixedSizeVec;
use aoc2024::grid::Grid;
use aoc2024::point::{directions, Point};

#[test]
fn point_new_and_rotations() {
    let point = Point::new(1, 2);
    assert_eq!(point.x, 1);
    assert_eq!(point.y, 2);
    assert_eq!(Point::new(1, 0).cw(), Point::new(0, 1));
    assert_eq!(Point::new(0, -1).ccw(), Point::new(-1, 0));
    assert_eq!(Point::new(0, 1).ccw(), Point::new(1, 0));
}

#[test]
fn point_arithmetic() {
    let p1 = Point::new(1, 2);
    let p2 = Point::new(3, 4);
    assert_eq!(p1.add(p2), Point::new(4, 6));
    assert_eq!(p2.sub(p1), Point::new(2, 2));
    assert_eq!(p2.mul(3), Point::new(9, 12));
    let mut p4 = Point::new(5, 6);
    p4.sub_assign(p2);
    assert_eq!(p4, Point::new(2, 2));
    p4.add_assign(p1);
    assert_eq!(p4, Point::new(3, 4));
}

#[test]
fn point_directions_turn_clockwise() {
    let d = directions();
    assert_eq!(d[0], Point::new(1, 0));
    for i in 0..4 {
        assert_eq!(d[i].cw(), d[(i + 1) % 4]);
    }
}

#[test]
fn fixed_size_vec_push_pop_shift() {
    let mut v: FixedSizeVec<u32, 3> = FixedSizeVec::new();
    assert!(v.is_empty());
    v.push(1);
    v.push(2);
    v.push(3);
    assert_eq!(v.len(), 3);
    assert_eq!(v.get(1), Some(&2));
    assert_eq!(v.get(3), None);
    assert_eq!(v.shift(), Some(1));
    assert_eq!(v.iter(), vec![2, 3]);
    assert_eq!(v.pop(), Some(3));
    assert_eq!(v.pop(), Some(2));
    assert_eq!(v.pop(), None);
}

#[test]
fn grid_new_and_clone_with() {
    let grid = Grid::new(3, 3, 0);
    assert_eq!(grid.width, 3);
    assert_eq!(grid.height, 3);
    assert_eq!(grid.data, vec![0, 0, 0, 0, 0, 0, 0, 0, 0]);
    let grid2 = grid.clone_with::<u8>(b'a');
    assert_eq!(grid2.width, 3);
    assert_eq!(grid2.data, vec![b'a'; 9]);
}

#[test]
fn grid_parse() {
    let grid3 = Grid::parse("123\n456\n789").unwrap();
    assert_eq!(grid3.width, 3);
    assert_eq!(grid3.height, 3);
    assert_eq!(grid3.data, vec![b'1', b'2', b'3', b'4', b'5', b'6', b'7', b'8', b'9']);
    assert!(Grid::parse("12\n3").is_none());
    assert!(Grid::parse("").is_none());
}

#[test]
fn grid_get_set() {
    let mut grid = Grid::new(3, 3, 0);
    assert_eq!(grid.get(Point::new(0, 0)), Some(0));
    assert!(grid.set(Point::new(0, 0), 1));
    assert!(grid.set(Point::new(1, 1), 2));
    assert!(!grid.set(Point::new(3, 0), 2));
    assert_eq!(grid.get(Point::new(0, 0)), Some(1));
    assert_eq!(grid.get(Point::new(1, 1)), Some(2));
    assert_eq!(grid.get(Point::new(-1, 1)), None);
}

#[test]
fn grid_find_all_and_find() {
    let grid = Grid::parse("....\n.S..\n....\n..S.").unwrap();
    assert_eq!(grid.find_all(b'S'), vec![Point::new(1, 1), Point::new(2, 3)]);
    assert_eq!(grid.find(b'S'), Some(Point::new(1, 1)));
    assert_eq!(grid.find(b'E'), None);
}

#[test]
fn fixed_size_vec_get_mut() {
    let mut v: FixedSizeVec<i32, 4> = FixedSizeVec::new();
    v.push(1);
    v.push(2);
    if let Some(x) = v.get_mut(1) {
        *x = 20;
    }
    assert!(v.get_mut(2).is_none());
    assert_eq!(v.iter(), vec![1, 20]);
}

#[test]
fn point_division_and_remainder() {
    assert_eq!(Point::new(7, -7).div(2), Point::new(3, -3));
    assert_eq!(Point::new(7, -7).rem(2), Point::new(1, -1));
    assert_eq!(Point::new(-9, 9).div(-4), Point::new(2, -2));
    assert_eq!(Point::new(-9, 9).rem(-4), Point::new(-1, 1));
    let mut p = Point::new(5, 6);
    p.mul_assign(2);
    assert_eq!(p, Point::new(10, 12));
    p.div_assign(3);
    assert_eq!(p, Point::new(3, 4));
    p.rem_assign(3);
    assert_eq!(p, Point::new(0, 1));
}
