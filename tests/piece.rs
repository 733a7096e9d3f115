use puzzle::{CubeSymmetry, Piece, Position, Template, Translation};

fn corner() -> Piece {
    Piece::new(vec![
        Position::new(0, 0, 0),
        Position::new(1, 0, 0),
        Position::new(1, 1, 0),
        Position::new(1, 1, 1),
    ])
}

fn cells(piece: &Piece) -> Vec<Position> {
    let mut walk = piece.iter();
    let mut out = Vec::new();
    while let Some(p) = walk.next() {
        out.push(p);
    }
    out
}

#[test]
fn positions_are_equal_on_values() {
    let a = Position::new(0, 1, 2);
    let b = Position::new(0, 1, 2);

    assert_eq!(a, b);
}

#[test]
fn mod_templates_are_equal_on_values() {
    let a = Template::new(vec![Position::new(0, 0, 0), Position::new(1, 0, 0)]);
    let b = Template::new(vec![Position::new(0, 0, 0), Position::new(1, 0, 0)]);

    assert_eq!(a, b);
}

#[test]
fn piece_should_translate() {
    let mut piece = corner();
    let translation = Translation::new(5, -3, 0);

    piece.translate(&translation);

    assert_eq!(
        piece,
        Piece::new(vec![
            Position::new(5, -3, 0),
            Position::new(6, -3, 0),
            Position::new(6, -2, 0),
            Position::new(6, -2, 1),
        ])
    );
}

#[test]
fn piece_should_tranform() {
    let mut piece = corner();

    piece.transform(&CubeSymmetry::E2103);

    assert_eq!(
        piece,
        Piece::new(vec![
            Position::new(0, 0, 0),
            Position::new(0, 1, 0),
            Position::new(1, 1, 0),
            Position::new(1, 1, -1),
        ])
    );
}

#[test]
fn piece_new_sorts_and_drops_repeats() {
    let piece = Piece::new(vec![
        Position::new(1, 0, 0),
        Position::new(0, 0, 1),
        Position::new(1, 0, 0),
        Position::new(0, 0, 0),
    ]);

    assert_eq!(
        cells(&piece),
        vec![Position::new(0, 0, 0), Position::new(0, 0, 1), Position::new(1, 0, 0)]
    );
    assert_eq!(piece.size(), 3);
}

#[test]
fn piece_contains_only_its_cells() {
    let piece = corner();

    assert!(piece.contains(&Position::new(1, 1, 0)));
    assert!(!piece.contains(&Position::new(0, 1, 0)));
}

#[test]
fn piece_equality_ignores_name() {
    let named = Piece::named(vec![Position::new(0, 0, 0)], String::from("dot"));
    let plain = Piece::new(vec![Position::new(0, 0, 0)]);

    assert_eq!(named, plain);
}

#[test]
fn piece_minimum_is_least_cell() {
    let piece = Piece::new(vec![Position::new(2, -1, 0), Position::new(1, 5, 5), Position::new(1, 5, 4)]);

    assert_eq!(piece.minimum_position(), Some(Position::new(1, 5, 4)));
    assert_eq!(Piece::new(vec![]).minimum_position(), None);
}

#[test]
fn moving_there_and_back_restores_piece() {
    let mut piece = corner();
    let t = Translation::new(-7, 4, 11);

    piece.translate(&t);
    assert_ne!(piece, corner());
    piece.translate(&t.inverse());

    assert_eq!(piece, corner());
}

#[test]
fn translated_reports_leaving_the_grid() {
    let piece = corner();

    assert!(piece.translated(&Translation::new(i32::MAX as i64, 0, 0)).is_none());
    let moved = piece.translated(&Translation::new(1, 2, 3)).unwrap();
    assert!(moved.contains(&Position::new(2, 3, 3)));
}

#[test]
fn every_rotation_is_undone_by_its_inverse() {
    for s in CubeSymmetry::all() {
        let mut piece = corner();
        piece.transform(&s);
        assert_eq!(piece.size(), 4);
        piece.transform(&s.inverse());
        assert_eq!(piece, corner());
    }
}

#[test]
fn rotations_are_all_distinct() {
    let all = CubeSymmetry::all();
    assert_eq!(all.len(), 24);
    let p = Position::new(1, 2, 3);
    let mut images: Vec<Position> = all.iter().map(|s| s.apply(p)).collect();
    images.sort_by_key(|q| (q.x, q.y, q.z));
    images.dedup();
    assert_eq!(images.len(), 24);
}

#[test]
fn position_offsets() {
    let a = Position::new(1, -2, 3);
    let b = Position::new(4, 0, -1);

    assert_eq!(a.to(&b), Translation::new(3, 2, -4));
    assert_eq!(a.to_reference(), Translation::new(-1, 2, -3));
    assert!(a.precedes(&b));
    assert!(!b.precedes(&a));
}

#[test]
fn position_text_is_decimal() {
    assert_eq!(Position::new(-1, 0, 12).to_text(), String::from("(-1, 0, 12)"));
}

#[test]
fn named_piece_text_shows_name() {
    let piece = Piece::named(vec![Position::new(0, 0, 0)], String::from("a"));
    assert_eq!(piece.to_text(), String::from("[a(0, 0, 0)]"));
}
