use puzzle::{Position, Template};

fn count(template: Template) -> usize {
    let mut iterator = template.into_iter();
    let mut n = 0;
    while iterator.next().is_some() {
        n += 1;
    }
    n
}

#[test]
fn template_templates_are_equal_on_values() {
    let a = Template::new(vec![Position::new(0, 0, 0), Position::new(1, 0, 0)]);
    let b = Template::new(vec![Position::new(0, 0, 0), Position::new(1, 0, 0)]);

    assert_eq!(a, b);
}

#[test]
fn templates_should_return_24_pieces_unsymmetric_templates() {
    let template = Template::new(vec![
        Position::new(0, 0, 0),
        Position::new(1, 0, 0),
        Position::new(1, 1, 0),
        Position::new(1, 1, 1),
        Position::new(1, 1, 2),
    ]);

    assert_eq!(count(template), 24);
}

#[test]
fn templates_should_return_less_than_24_pieces_for_symmetric_templates() {
    let template = Template::new(vec![
        Position::new(0, 0, 0),
        Position::new(0, 1, 0),
        Position::new(1, 0, 0),
        Position::new(1, 1, 0),
    ]);

    assert_eq!(count(template), 3);
}

#[test]
fn single_cell_has_one_orientation() {
    assert_eq!(count(Template::new(vec![Position::new(3, 3, 3)])), 1);
}

#[test]
fn bar_has_three_orientations() {
    let template = Template::new(vec![Position::new(0, 0, 0), Position::new(1, 0, 0)]);
    assert_eq!(count(template), 3);
}

#[test]
fn orientations_are_anchored_at_origin() {
    let template = Template::new(vec![
        Position::new(4, 4, 4),
        Position::new(5, 4, 4),
        Position::new(5, 5, 4),
        Position::new(5, 5, 5),
    ]);
    let pieces = template.orientations();
    assert!(pieces.len() <= 24);
    for piece in &pieces {
        assert_eq!(piece.minimum_position(), Some(Position::new(0, 0, 0)));
        assert_eq!(piece.size(), 4);
    }
}

#[test]
fn orientations_are_deterministic_and_distinct() {
    let make = || {
        Template::new(vec![
            Position::new(0, 0, 0),
            Position::new(1, 0, 0),
            Position::new(0, 1, 0),
            Position::new(0, 0, 1),
        ])
    };
    let first = make().orientations();
    let second = make().orientations();
    assert_eq!(first, second);
    assert_eq!(first.len(), 8);
    for i in 0..first.len() {
        for j in (i + 1)..first.len() {
            assert_ne!(first[i], first[j]);
        }
    }
}

#[test]
fn named_template_passes_name_to_pieces() {
    let template = Template::new(vec![Position::new(0, 0, 0)]).with_name(String::from("x"));
    let pieces = template.orientations();
    assert_eq!(pieces[0].to_text(), String::from("[x(0, 0, 0)]"));
}
