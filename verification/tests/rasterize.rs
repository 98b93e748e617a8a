use gridplot::Circle;
use gridplot::Coords;
use gridplot::Dimensions;
use gridplot::Line;
use gridplot::Plottable;
use gridplot::Representation;

#[test]
fn test_new_circle() {
    let circle = Circle::new(Coords(1, 1), 1);

    assert_eq!(Dimensions(3, 3), circle.get_dimensions());
    // the generated cells revisit coordinates; the output is deduplicated,
    // keeping first occurrences in generation order
    assert_eq!(
        vec![Coords(2, 1), Coords(1, 2), Coords(0, 1), Coords(1, 0)],
        circle.get_coords()
    );
}

#[test]
fn test_new_horizontal_line_1() {
    let line = Line::new(Coords(0, 0), Coords(3, 0));

    assert_eq!(Dimensions(4, 1), line.get_dimensions());
    assert_eq!(
        vec![Coords(0, 0), Coords(1, 0), Coords(2, 0), Coords(3, 0)],
        line.get_coords()
    );

    assert_eq!(
        Representation::HorizontalLine,
        line.get_representation_at(Coords(0, 0)).unwrap()
    );
    assert_eq!(
        Representation::HorizontalLine,
        line.get_representation_at(Coords(1, 0)).unwrap()
    );
    assert_eq!(
        Representation::HorizontalLine,
        line.get_representation_at(Coords(2, 0)).unwrap()
    );
    assert_eq!(
        Representation::HorizontalLine,
        line.get_representation_at(Coords(3, 0)).unwrap()
    );
}

#[test]
fn test_new_horizontal_line_2() {
    let line = Line::new(Coords(1, 1), Coords(3, 1));

    assert_eq!(Dimensions(4, 2), line.get_dimensions());
    assert_eq!(vec![Coords(1, 1), Coords(2, 1), Coords(3, 1)], line.get_coords());
}

#[test]
fn test_new_vertical_line() {
    let line = Line::new(Coords(0, 0), Coords(0, 3));

    assert_eq!(Dimensions(1, 4), line.get_dimensions());
    assert_eq!(
        vec![Coords(0, 0), Coords(0, 1), Coords(0, 2), Coords(0, 3)],
        line.get_coords()
    );

    assert_eq!(
        Representation::VerticalLine,
        line.get_representation_at(Coords(0, 0)).unwrap()
    );
    assert_eq!(
        Representation::VerticalLine,
        line.get_representation_at(Coords(0, 1)).unwrap()
    );
    assert_eq!(
        Representation::VerticalLine,
        line.get_representation_at(Coords(0, 2)).unwrap()
    );
    assert_eq!(
        Representation::VerticalLine,
        line.get_representation_at(Coords(0, 3)).unwrap()
    );
}

#[test]
fn test_new_diagonal_line_left_to_right() {
    let line = Line::new(Coords(0, 0), Coords(3, 3));

    assert_eq!(Dimensions(4, 4), line.get_dimensions());
    assert_eq!(
        vec![Coords(0, 0), Coords(1, 1), Coords(2, 2), Coords(3, 3)],
        line.get_coords()
    );

    assert_eq!(
        Representation::DiagonalLineLeftToRight,
        line.get_representation_at(Coords(0, 0)).unwrap()
    );
    assert_eq!(
        Representation::DiagonalLineLeftToRight,
        line.get_representation_at(Coords(1, 1)).unwrap()
    );
    assert_eq!(
        Representation::DiagonalLineLeftToRight,
        line.get_representation_at(Coords(2, 2)).unwrap()
    );
    assert_eq!(
        Representation::DiagonalLineLeftToRight,
        line.get_representation_at(Coords(3, 3)).unwrap()
    );
}

#[test]
fn test_new_diagonal_line_right_to_left() {
    let line = Line::new(Coords(0, 3), Coords(3, 0));

    assert_eq!(Dimensions(4, 4), line.get_dimensions());
    assert_eq!(
        vec![Coords(0, 3), Coords(1, 2), Coords(2, 1), Coords(3, 0)],
        line.get_coords()
    );

    assert_eq!(
        Representation::DiagonalLineRightToLeft,
        line.get_representation_at(Coords(0, 3)).unwrap()
    );
    assert_eq!(
        Representation::DiagonalLineRightToLeft,
        line.get_representation_at(Coords(1, 2)).unwrap()
    );
    assert_eq!(
        Representation::DiagonalLineRightToLeft,
        line.get_representation_at(Coords(2, 1)).unwrap()
    );
    assert_eq!(
        Representation::DiagonalLineRightToLeft,
        line.get_representation_at(Coords(3, 0)).unwrap()
    );
}

#[test]
fn test_get_dimension_from_coords() {
    let coords = vec![Coords(0, 0), Coords(2, 1), Coords(5, 9), Coords(10, 5)];
    let dimensions = Dimensions::from_coords(&coords);

    assert_eq!(11, dimensions.0);
    assert_eq!(10, dimensions.1);
}
