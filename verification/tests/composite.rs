use gridplot::Coords;
use gridplot::PlottedCoords;
use gridplot::Representation;
use gridplot::combine;
use gridplot::fixtures_circle;
use gridplot::fixtures_diagonal_line_ltr;
use gridplot::fixtures_horizontal_line;
use gridplot::fixtures_vertical_line;
use gridplot::plot;

#[test]
fn test_combine_expands_dimensions_to_fit_largest_object_line() {
    let line_1 = fixtures_diagonal_line_ltr();
    let line_2 = fixtures_horizontal_line();

    // combined object is supposed to be large enough to contain 2 lines
    let lines_combined = combine(Box::new(line_1), Box::new(line_2));

    assert_eq!((lines_combined.0).0, 3);
    assert_eq!((lines_combined.0).1, 3);

    assert_eq!(lines_combined.1.len(), 2);
}

#[test]
fn test_combine_expands_dimensions_to_fit_largest_object_circle() {
    let line_1 = fixtures_diagonal_line_ltr();
    let circle_1 = fixtures_circle();

    // combined object is supposed to be large enough to contain 2 lines
    let lines_combined = combine(Box::new(line_1), Box::new(circle_1));

    assert_eq!((lines_combined.0).0, 3);
    assert_eq!((lines_combined.0).1, 3);

    assert_eq!(lines_combined.1.len(), 2);
}

#[test]
fn test_plot_merged_object() {
    let line_1 = fixtures_diagonal_line_ltr();
    let line_2 = fixtures_horizontal_line();
    let line_3 = fixtures_vertical_line();

    // combined object is supposed to be large enough to contain 2 lines
    let lines_combined_1 = combine(Box::new(line_1), Box::new(line_2));
    let lines_combined_2 = combine(Box::new(lines_combined_1), Box::new(line_3));

    let canvas = plot(Box::new(lines_combined_2));

    assert_eq!((canvas.0).0, 3);
    assert_eq!((canvas.0).1, 4);

    assert_eq!((canvas.1).len(), 12);

    assert_eq!(canvas.1[0], PlottedCoords(0, 3, Representation::VerticalLine));
    assert_eq!(canvas.1[1], PlottedCoords(1, 3, Representation::Canvas));
    assert_eq!(canvas.1[2], PlottedCoords(2, 3, Representation::Canvas));

    assert_eq!(canvas.1[3], PlottedCoords(0, 2, Representation::VerticalLine));
    assert_eq!(canvas.1[4], PlottedCoords(1, 2, Representation::Canvas));
    assert_eq!(canvas.1[5], PlottedCoords(2, 2, Representation::DiagonalLineLeftToRight));

    assert_eq!(canvas.1[6], PlottedCoords(0, 1, Representation::VerticalLine));
    assert_eq!(canvas.1[7], PlottedCoords(1, 1, Representation::DiagonalLineLeftToRight));
    assert_eq!(canvas.1[8], PlottedCoords(2, 1, Representation::Canvas));

    // (0, 0) is shared by all three lines; the vertical line comes last in
    // the sequence and later inputs win
    assert_eq!(canvas.1[9], PlottedCoords(0, 0, Representation::VerticalLine));
    assert_eq!(canvas.1[10], PlottedCoords(1, 0, Representation::HorizontalLine));
    assert_eq!(canvas.1[11], PlottedCoords(2, 0, Representation::HorizontalLine));
}

#[test]
fn test_plot_line() {
    let line_1 = fixtures_diagonal_line_ltr();
    let line_2 = fixtures_horizontal_line();

    // combined object is supposed to be large enough to contain 2 lines
    let lines_combined = combine(Box::new(line_1), Box::new(line_2));
    let canvas = plot(Box::new(lines_combined));

    assert_eq!((canvas.0).0, 3);
    assert_eq!((canvas.0).1, 3);

    assert_eq!((canvas.1).len(), 9);

    assert_eq!(canvas.1[0], PlottedCoords(0, 2, Representation::Canvas));
    assert_eq!(canvas.1[1], PlottedCoords(1, 2, Representation::Canvas));
    assert_eq!(canvas.1[2], PlottedCoords(2, 2, Representation::DiagonalLineLeftToRight));

    assert_eq!(canvas.1[3], PlottedCoords(0, 1, Representation::Canvas));
    assert_eq!(canvas.1[4], PlottedCoords(1, 1, Representation::DiagonalLineLeftToRight));
    assert_eq!(canvas.1[5], PlottedCoords(2, 1, Representation::Canvas));

    // (0, 0) is shared by both lines; the horizontal line comes later in
    // the sequence and later inputs win
    assert_eq!(canvas.1[6], PlottedCoords(0, 0, Representation::HorizontalLine));
    assert_eq!(canvas.1[7], PlottedCoords(1, 0, Representation::HorizontalLine));
    assert_eq!(canvas.1[8], PlottedCoords(2, 0, Representation::HorizontalLine));
}

#[test]
fn test_plot_circle() {
    let line_1 = fixtures_diagonal_line_ltr();
    let circle_1 = fixtures_circle();

    // combined object is supposed to be large enough to contain 2 lines
    let lines_combined = combine(Box::new(line_1), Box::new(circle_1));
    let canvas = plot(Box::new(lines_combined));

    assert_eq!((canvas.0).0, 3);
    assert_eq!((canvas.0).1, 3);

    assert_eq!((canvas.1).len(), 9);

    assert_eq!(canvas.1[0], PlottedCoords(0, 2, Representation::Canvas));
    assert_eq!(canvas.1[1], PlottedCoords(1, 2, Representation::Circle));
    assert_eq!(canvas.1[2], PlottedCoords(2, 2, Representation::DiagonalLineLeftToRight));

    assert_eq!(canvas.1[3], PlottedCoords(0, 1, Representation::Circle));
    assert_eq!(canvas.1[4], PlottedCoords(1, 1, Representation::DiagonalLineLeftToRight));
    assert_eq!(canvas.1[5], PlottedCoords(2, 1, Representation::Circle));

    assert_eq!(canvas.1[6], PlottedCoords(0, 0, Representation::DiagonalLineLeftToRight));
    assert_eq!(canvas.1[7], PlottedCoords(1, 0, Representation::Circle));
    assert_eq!(canvas.1[8], PlottedCoords(2, 0, Representation::Canvas));
}

#[test]
fn test_plot_horizontal_line() {
    let horizontal_line = fixtures_horizontal_line();
    let canvas = plot(Box::new(horizontal_line));

    assert_eq!((canvas.0).0, 3);
    assert_eq!((canvas.0).1, 1);

    assert_eq!((canvas.1).len(), 3);

    assert_eq!(canvas.1[0], PlottedCoords(0, 0, Representation::HorizontalLine));
    assert_eq!(canvas.1[1], PlottedCoords(1, 0, Representation::HorizontalLine));
    assert_eq!(canvas.1[2], PlottedCoords(2, 0, Representation::HorizontalLine));
}
