use scx::selection::{Coordinate, Rectangle, Selection};

#[test]
fn point_yields_one_coordinate() {
    let c = Coordinate::new(3, 7);
    let s = Selection::Point(c);
    let coords = s.coordinates();
    assert_eq!(coords.len(), 1);
    assert_eq!(coords[0], Coordinate { x: 3, y: 7 });
}

#[test]
fn rectangle_enumerates_x_outer_y_inner() {
    let r = Selection::Rect(Rectangle::new(1, 2, 2, 3));
    let coords = r.coordinates();
    let expected = vec![
        Coordinate { x: 1, y: 2 },
        Coordinate { x: 1, y: 3 },
        Coordinate { x: 1, y: 4 },
        Coordinate { x: 2, y: 2 },
        Coordinate { x: 2, y: 3 },
        Coordinate { x: 2, y: 4 },
    ];
    assert_eq!(coords, expected);
}

#[test]
fn empty_rectangle_yields_nothing() {
    let r = Selection::Rect(Rectangle::new(5, 5, 0, 4));
    assert_eq!(r.coordinates().len(), 0);
}

#[test]
fn union_concatenates_and_keeps_duplicates() {
    let a = Selection::Rect(Rectangle::new(0, 0, 2, 2));
    let b = Selection::Rect(Rectangle::new(1, 1, 2, 2));
    let u = a.and(b);
    let coords = u.coordinates();
    // 4 + 4 coordinates, the shared cell (1, 1) listed twice
    assert_eq!(coords.len(), 8);
    let dup = coords.iter().filter(|c| c.x == 1 && c.y == 1).count();
    assert_eq!(dup, 2);
    // the left operand's coordinates come first, in their own order
    assert_eq!(coords[0], Coordinate { x: 0, y: 0 });
    assert_eq!(coords[4], Coordinate { x: 1, y: 1 });
}

#[test]
fn union_length_is_sum_of_operand_lengths() {
    let a = Selection::Rect(Rectangle::new(0, 0, 3, 2));
    let b = Selection::Point(Coordinate::new(9, 9));
    let la = Selection::Rect(Rectangle::new(0, 0, 3, 2)).coordinates().len();
    let lb = Selection::Point(Coordinate::new(9, 9)).coordinates().len();
    let u = a.and(b);
    assert_eq!(u.coordinates().len(), la + lb);
}

#[test]
fn nested_unions_flatten_in_order() {
    let u = Selection::Point(Coordinate::new(1, 1))
        .and(Selection::Point(Coordinate::new(2, 2)))
        .and(Selection::Point(Coordinate::new(3, 3)));
    let coords = u.coordinates();
    assert_eq!(coords.len(), 3);
    assert_eq!(coords[0], Coordinate { x: 1, y: 1 });
    assert_eq!(coords[1], Coordinate { x: 2, y: 2 });
    assert_eq!(coords[2], Coordinate { x: 3, y: 3 });
}
