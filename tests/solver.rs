use puzzle::{solve, solve_with, Bag, Piece, Position, Solution, Target, Template};

fn cube() -> Vec<Position> {
    vec![
        Position::new(0, 0, 0),
        Position::new(1, 0, 0),
        Position::new(0, 1, 0),
        Position::new(1, 1, 0),
        Position::new(0, 0, 1),
        Position::new(1, 0, 1),
        Position::new(0, 1, 1),
        Position::new(1, 1, 1),
    ]
}

fn tripod() -> Template {
    Template::new(vec![
        Position::new(0, 0, 0),
        Position::new(1, 0, 0),
        Position::new(0, 1, 0),
        Position::new(0, 0, 1),
    ])
}

#[test]
fn piece_should_fit_in_target() {
    let target = Target::new(cube());

    let piece = Piece::new(vec![
        Position::new(0, 0, 0),
        Position::new(1, 0, 0),
        Position::new(0, 1, 0),
        Position::new(0, 0, 1),
    ]);

    assert!(target.fits(&piece));
}

#[test]
fn solve_should_pack_pieces() {
    let target = Target::new(cube());
    let bag = Bag::new(vec![(2, tripod())]);

    let mut solutions: Vec<Solution> = vec![];
    solve(&target, bag, &mut solutions);
    assert_eq!(solutions.len(), 4);
}

#[test]
fn solutions_should_display_nicely() {
    let solution = Solution::empty()
        .record(&Piece::new(vec![
            Position::new(0, 0, 0),
            Position::new(1, 0, 0),
            Position::new(0, 1, 0),
            Position::new(0, 0, 1),
        ]))
        .record(&Piece::new(vec![
            Position::new(1, 1, 1),
            Position::new(0, 1, 1),
            Position::new(1, 0, 1),
            Position::new(1, 1, 0),
        ]));

    let output = solution.to_text();

    assert_eq!(
        output,
        String::from("<[(0, 0, 0)(0, 0, 1)(0, 1, 0)(1, 0, 0)][(0, 1, 1)(1, 0, 1)(1, 1, 0)(1, 1, 1)]>")
    );
}

#[test]
fn piece_outside_target_does_not_fit() {
    let target = Target::new(cube());
    let piece = Piece::new(vec![Position::new(1, 1, 1), Position::new(2, 1, 1)]);
    assert!(!target.fits(&piece));
}

#[test]
fn place_removes_the_cells_of_the_piece() {
    let target = Target::new(cube());
    let piece = Piece::new(vec![
        Position::new(0, 0, 0),
        Position::new(1, 0, 0),
        Position::new(0, 1, 0),
        Position::new(0, 0, 1),
    ]);
    let rest = target.place(&piece);
    assert!(!rest.is_packed());
    assert_eq!(rest.minimum_position(), Some(Position::new(0, 1, 1)));
    let other = Piece::new(vec![
        Position::new(1, 1, 1),
        Position::new(0, 1, 1),
        Position::new(1, 0, 1),
        Position::new(1, 1, 0),
    ]);
    assert!(rest.fits(&other));
    assert!(!rest.fits(&piece));
    let done = rest.place(&other);
    assert!(done.is_packed());
    assert_eq!(done.minimum_position(), None);
}

#[test]
fn reported_solutions_tile_the_target() {
    let target = Target::new(cube());
    let mut solutions: Vec<Solution> = vec![];
    solve(&target, Bag::new(vec![(2, tripod())]), &mut solutions);
    for solution in &solutions {
        assert_eq!(solution.count(), 2);
        let mut left = Target::new(cube());
        for i in 0..solution.count() {
            assert!(left.fits(solution.piece(i)));
            left = left.place(solution.piece(i));
        }
        assert!(left.is_packed());
    }
}

#[test]
fn unsolvable_target_gives_no_solution() {
    let mut cells = cube();
    cells.pop();
    let target = Target::new(cells);
    let mut solutions: Vec<Solution> = vec![];
    solve(&target, Bag::new(vec![(5, tripod())]), &mut solutions);
    assert_eq!(solutions.len(), 0);
}

#[test]
fn empty_target_gives_the_empty_solution() {
    let target = Target::new(vec![]);
    let mut solutions: Vec<Solution> = vec![];
    solve(&target, Bag::new(vec![(1, tripod())]), &mut solutions);
    assert_eq!(solutions.len(), 1);
    assert_eq!(solutions[0].count(), 0);
    assert_eq!(solutions[0].to_text(), String::from("<>"));
}

#[test]
fn exhausted_supply_gives_no_solution() {
    let target = Target::new(cube());
    let mut solutions: Vec<Solution> = vec![];
    solve(&target, Bag::new(vec![(1, tripod())]), &mut solutions);
    assert_eq!(solutions.len(), 0);
}

#[test]
fn solve_with_keeps_the_partial_solution() {
    let first = Piece::new(vec![
        Position::new(0, 0, 0),
        Position::new(1, 0, 0),
        Position::new(0, 1, 0),
        Position::new(0, 0, 1),
    ]);
    let target = Target::new(cube()).place(&first);
    let partial = Solution::empty().record(&first);
    let mut solutions: Vec<Solution> = vec![];
    solve_with(&target, Bag::new(vec![(1, tripod())]), partial, &mut solutions);
    assert_eq!(solutions.len(), 1);
    assert_eq!(
        solutions[0].to_text(),
        String::from("<[(0, 0, 0)(0, 0, 1)(0, 1, 0)(1, 0, 0)][(0, 1, 1)(1, 0, 1)(1, 1, 0)(1, 1, 1)]>")
    );
}

#[test]
fn dominoes_fill_a_bar() {
    let target = Target::new(vec![
        Position::new(0, 0, 0),
        Position::new(1, 0, 0),
        Position::new(2, 0, 0),
        Position::new(3, 0, 0),
    ]);
    let domino = Template::new(vec![Position::new(0, 0, 0), Position::new(0, 0, 1)]);
    let mut solutions: Vec<Solution> = vec![];
    solve(&target, Bag::new(vec![(2, domino)]), &mut solutions);
    assert_eq!(solutions.len(), 1);
    assert_eq!(
        solutions[0].to_text(),
        String::from("<[(0, 0, 0)(1, 0, 0)][(2, 0, 0)(3, 0, 0)]>")
    );
}

#[test]
fn cube_solutions_are_distinct_and_start_at_least_cell() {
    let target = Target::new(cube());
    let mut solutions: Vec<Solution> = vec![];
    solve(&target, Bag::new(vec![(2, tripod())]), &mut solutions);
    assert_eq!(solutions.len(), 4);
    let texts: Vec<String> = solutions.iter().map(|s| s.to_text()).collect();
    for i in 0..texts.len() {
        assert!(solutions[i].piece(0).contains(&Position::new(0, 0, 0)));
        for j in (i + 1)..texts.len() {
            assert_ne!(texts[i], texts[j]);
        }
    }
}
