use gridplot::Canvas;
use gridplot::Circle;
use gridplot::Coords;
use gridplot::Dimensions;
use gridplot::EmptyInputError;
use gridplot::Layer;
use gridplot::Line;
use gridplot::Plottable;
use gridplot::Representation;
use gridplot::combine;
use gridplot::composite;
use gridplot::fixtures_diagonal_line_ltr;
use gridplot::fixtures_horizontal_line;
use gridplot::plot;
use gridplot::render;

#[test]
fn test_line_endpoints_included() {
    let line = Line::new(Coords(1, 2), Coords(7, 4));
    let coords = line.get_coords();
    assert!(coords.contains(&Coords(1, 2)));
    assert!(coords.contains(&Coords(7, 4)));
    assert_eq!(coords[0], Coords(1, 2));
    assert_eq!(coords[coords.len() - 1], Coords(7, 4));
}

#[test]
fn test_line_connectivity() {
    let line = Line::new(Coords(0, 0), Coords(5, 2));
    let coords = line.get_coords();
    for pair in coords.windows(2) {
        let dx = (pair[1].0 as i64 - pair[0].0 as i64).abs();
        let dy = (pair[1].1 as i64 - pair[0].1 as i64).abs();
        assert!(dx <= 1 && dy <= 1);
        assert!(dx + dy >= 1);
    }
}

#[test]
fn test_line_labels() {
    assert_eq!(
        Representation::HorizontalLine,
        Line::get_line_representation(Coords(0, 0), Coords(3, 0))
    );
    assert_eq!(
        Representation::VerticalLine,
        Line::get_line_representation(Coords(0, 0), Coords(0, 3))
    );
    assert_eq!(
        Representation::DiagonalLineLeftToRight,
        Line::get_line_representation(Coords(0, 0), Coords(3, 3))
    );
    assert_eq!(
        Representation::DiagonalLineRightToLeft,
        Line::get_line_representation(Coords(0, 3), Coords(3, 0))
    );
}

#[test]
fn test_circle_symmetry_dedup() {
    let circle = Circle::new(Coords(1, 1), 1);
    let coords = circle.get_coords();
    let expected = [Coords(2, 1), Coords(1, 2), Coords(0, 1), Coords(1, 0)];
    assert_eq!(coords.len(), 4);
    for e in expected.iter() {
        assert!(coords.contains(e));
    }
    for (i, a) in coords.iter().enumerate() {
        for (j, b) in coords.iter().enumerate() {
            if i != j {
                assert_ne!(a, b);
            }
        }
    }
}

#[test]
fn test_circle_radius_zero() {
    let circle = Circle::new(Coords(5, 7), 0);
    assert_eq!(vec![Coords(5, 7)], circle.get_coords());
    assert_eq!(Dimensions(6, 8), circle.get_dimensions());
}

#[test]
fn test_circle_clipped_at_quadrant_edge() {
    // the center is closer to the axes than the radius: reflections that
    // would go negative are dropped, not wrapped
    let circle = Circle::new(Coords(0, 0), 1);
    assert_eq!(vec![Coords(1, 0), Coords(0, 1)], circle.get_coords());
}

#[test]
fn test_merge_precedence_later_wins() {
    let line = Layer(Representation::HorizontalLine, vec![Coords(0, 0)]);
    let circle = Layer(Representation::Circle, vec![Coords(0, 0)]);
    let canvas = composite(vec![line, circle]).unwrap();
    assert_eq!(
        canvas.1[0],
        gridplot::PlottedCoords(0, 0, Representation::Circle)
    );

    let line = Layer(Representation::HorizontalLine, vec![Coords(0, 0)]);
    let circle = Layer(Representation::Circle, vec![Coords(0, 0)]);
    let canvas = composite(vec![circle, line]).unwrap();
    assert_eq!(
        canvas.1[0],
        gridplot::PlottedCoords(0, 0, Representation::HorizontalLine)
    );
}

#[test]
fn test_composite_empty_input() {
    let result = composite(vec![]);
    assert_eq!(result.unwrap_err(), EmptyInputError);

    // layers whose union of coordinates is empty fail the same way
    let empty_layer = Layer(Representation::Circle, vec![]);
    let result = composite(vec![empty_layer]);
    assert_eq!(result.unwrap_err(), EmptyInputError);
}

#[test]
fn test_canvas_completeness() {
    let canvas = plot(Box::new(combine(
        Box::new(fixtures_diagonal_line_ltr()),
        Box::new(fixtures_horizontal_line()),
    )));
    let w = canvas.0.0;
    let h = canvas.0.1;
    assert_eq!(canvas.1.len() as u32, w * h);
    for x in 0..w {
        for y in 0..h {
            let hits = canvas
                .1
                .iter()
                .filter(|pc| pc.0 == x && pc.1 == y)
                .count();
            assert_eq!(hits, 1);
        }
    }
}

#[test]
fn test_render_deterministic() {
    let canvas = plot(Box::new(combine(
        Box::new(fixtures_diagonal_line_ltr()),
        Box::new(fixtures_horizontal_line()),
    )));
    let rows_1 = render(&canvas);
    let rows_2 = render(&canvas);
    assert_eq!(rows_1, rows_2);
}

#[test]
fn test_render_top_row_is_highest_y() {
    // a single cell at (0, 1) on a 1 x 2 canvas: the top rendered row shows
    // y == height - 1
    let layer = Layer(Representation::Circle, vec![Coords(0, 0), Coords(0, 1)]);
    let canvas: Canvas = composite(vec![layer]).unwrap();
    assert_eq!(canvas.0, Dimensions(1, 2));
    assert_eq!(canvas.1[0].1, 1);
    let rows = render(&canvas);
    assert_eq!(rows, vec![vec!['o'], vec!['o']]);
}

#[test]
fn test_end_to_end_scenario() {
    let diagonal = Line::new(Coords(0, 0), Coords(2, 2));
    let horizontal = Line::new(Coords(0, 0), Coords(2, 0));
    let canvas = plot(Box::new(combine(Box::new(diagonal), Box::new(horizontal))));
    assert_eq!(canvas.0, Dimensions(3, 3));
    let rows = render(&canvas);
    assert_eq!(
        rows,
        vec![
            vec![' ', ' ', '/'],
            vec![' ', '/', ' '],
            vec!['-', '-', '-'],
        ]
    );
}

#[test]
fn test_composite_canvas_with_shape() {
    // a canvas can be composited again: only its coordinate-to-label
    // content flows in, and the later shape wins at shared cells
    let base = plot(Box::new(fixtures_horizontal_line()));
    let vertical = Line::new(Coords(0, 0), Coords(0, 3));
    let canvas = plot(Box::new(combine(Box::new(base), Box::new(vertical))));
    assert_eq!(canvas.0, Dimensions(3, 4));
    let rows = render(&canvas);
    assert_eq!(
        rows,
        vec![
            vec!['|', ' ', ' '],
            vec!['|', ' ', ' '],
            vec!['|', ' ', ' '],
            vec!['|', '-', '-'],
        ]
    );
}

#[test]
fn test_coords_from_dimensions() {
    let cells = Coords::from_dimensions(Dimensions(2, 2));
    assert_eq!(
        vec![Coords(0, 0), Coords(1, 0), Coords(0, 1), Coords(1, 1)],
        cells
    );
}

#[test]
fn test_get_max_coord_from_coords() {
    let coords = vec![Coords(3, 9), Coords(7, 1)];
    assert_eq!(7, Dimensions::get_max_coord_from_coords(&coords, true));
    assert_eq!(9, Dimensions::get_max_coord_from_coords(&coords, false));
}

#[test]
fn test_glyph_table() {
    assert_eq!(' ', gridplot::glyph(Representation::Canvas));
    assert_eq!('o', gridplot::glyph(Representation::Circle));
    assert_eq!('-', gridplot::glyph(Representation::HorizontalLine));
    assert_eq!('|', gridplot::glyph(Representation::VerticalLine));
    assert_eq!('/', gridplot::glyph(Representation::DiagonalLineLeftToRight));
    assert_eq!('\\', gridplot::glyph(Representation::DiagonalLineRightToLeft));
}
