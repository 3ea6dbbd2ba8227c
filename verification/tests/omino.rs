use dlx::chooser::{mrv_chooser, no_tiebreak, prefer_any};
use dlx::omino::{pentominoes, rectangle, Board, Bounds, Draw, Omino, SolutionGrid};
use dlx::x::make_problem;
use dlx::{Count, Data, OptOrder, Solver};

fn cells_of(o: &Omino) -> Vec<(Count, Count)> {
    (0..o.len()).map(|i| o.cell_at(i)).collect()
}

#[test]
fn omino_new_moves_and_sorts() {
    let o = Omino::new(&[(5, 7), (3, 7), (4, 6)]);
    assert_eq!(cells_of(&o), vec![(1, 0), (0, 1), (2, 1)]);
    assert_eq!(o.bounds(), Bounds(0, 0, 2, 1));
}

#[test]
fn bounds_contains() {
    let board = rectangle(3, 20);
    assert_eq!(board.bounds(), Bounds(0, 0, 19, 2));
    let ps = pentominoes();
    assert!(board.bounds().contains(&ps[1].bounds()));
    assert!(!board.bounds().contains(&ps[0].transform(2)[0].bounds()));
    assert!(!ps[1].bounds().contains(&board.bounds()));
}

#[test]
fn rectangle_cells_row_by_row() {
    let board = rectangle(2, 3);
    assert_eq!(cells_of(&board), vec![(0, 0), (1, 0), (2, 0), (0, 1), (1, 1), (2, 1)]);
}

#[test]
fn pentomino_symmetries() {
    let counts: Vec<usize> = pentominoes().iter().map(|p| p.transform(255).len()).collect();
    assert_eq!(counts, vec![2, 8, 8, 8, 8, 4, 4, 4, 4, 1, 8, 4]);
}

#[test]
fn transform_order_and_normalization() {
    let q = &pentominoes()[2];
    let ts = q.transform(255);
    assert_eq!(cells_of(&ts[0]), vec![(0, 0), (1, 0), (2, 0), (3, 0), (3, 1)]);
    assert_eq!(ts[0].bounds(), Bounds(0, 0, 3, 1));
    assert_eq!(cells_of(&ts[1]), vec![(1, 0), (1, 1), (1, 2), (0, 3), (1, 3)]);
    assert_eq!(ts[1].bounds(), Bounds(0, 0, 1, 3));
    assert_eq!(cells_of(&ts[2]), vec![(0, 0), (0, 1), (1, 1), (2, 1), (3, 1)]);
    assert!(q.transform(0).is_empty());
    assert!(ts[0].same(q));
}

#[test]
fn options_of_x_in_a_square() {
    let x = &pentominoes()[9];
    let info = Board { pieces: 12, cells: 9 };
    let os = x.all_options(9, &rectangle(3, 3), &info);
    assert_eq!(os, vec![vec![18, 1, 3, 4, 5, 7]]);
}

#[test]
fn options_of_a_bar() {
    let bar = &pentominoes()[0];
    let info = Board { pieces: 12, cells: 60 };
    let os = bar.all_options(0, &rectangle(3, 20), &info);
    assert_eq!(os.len(), 48);
    assert_eq!(os[0], vec![60, 0, 1, 2, 3, 4]);
    assert_eq!(os[1], vec![60, 1, 2, 3, 4, 5]);
    assert_eq!(os[2], vec![60, 2, 3, 4, 5, 6]);
    let tall = &bar.transform(2)[0];
    assert!(tall.all_options(0, &rectangle(3, 20), &info).is_empty());
}

#[test]
fn options_filtered_by_placement() {
    let bar = &pentominoes()[0];
    let info = Board { pieces: 12, cells: 60 };
    let os = bar.options_filter(0, &rectangle(3, 20), &info, |p: &Omino| p.bounds().0 == 0);
    assert_eq!(
        os,
        vec![vec![60, 0, 1, 2, 3, 4], vec![60, 20, 21, 22, 23, 24], vec![60, 40, 41, 42, 43, 44]]
    );
}

#[test]
fn options_with_a_hole_in_the_board() {
    let board = Omino::new(&[(0, 0), (1, 0), (2, 0), (0, 1), (2, 1)]);
    let domino = Omino::new(&[(0, 0), (1, 0)]);
    let info = Board { pieces: 1, cells: 5 };
    let os = domino.all_options(0, &board, &info);
    assert_eq!(os, vec![vec![5, 0, 1], vec![5, 1, 2]]);
    let upright = Omino::new(&[(0, 0), (0, 1)]);
    let os = upright.all_options(0, &board, &info);
    assert_eq!(os, vec![vec![5, 0, 3], vec![5, 2, 4]]);
}

#[test]
fn pentominoes_on_3x20() {
    let ps = pentominoes();
    let bx = rectangle(3, 20);
    let info = Board { pieces: 12, cells: 60 };
    let mut os: Vec<Vec<Count>> = Vec::new();
    for (i, p) in ps.iter().enumerate() {
        if i == 7 {
            os.extend(p.transform(2)[0].all_options(7, &bx, &info));
        } else {
            for t in p.transform(255) {
                os.extend(t.all_options(i, &bx, &info));
            }
        }
    }
    assert_eq!(os.len(), 1182);
    let problem = make_problem(72, 0, &os, OptOrder::Sequential);
    let mut solver = Solver::new(problem);
    let mut chooser = mrv_chooser(prefer_any(), no_tiebreak());
    let mut solutions: Vec<Vec<Data>> = Vec::new();
    while solver.next_solution(&mut chooser) {
        let mut sol = solver.get_solution().to_vec();
        let grid = SolutionGrid::new(&sol, &info, &os, &bx);
        let cells = grid.cells();
        assert_eq!(cells.len(), 3);
        let mut seen = vec![0; 13];
        for row in cells {
            assert_eq!(row.len(), 20);
            for &(idx, piece) in row {
                assert!(1 <= idx && idx <= 12);
                assert!(1 <= piece && piece <= 12);
                seen[idx] += 1;
            }
        }
        assert!(seen[1..].iter().all(|&n| n == 5));
        sol.sort();
        solutions.push(sol);
    }
    solutions.sort();
    assert_eq!(
        solutions,
        vec![
            vec![44, 172, 278, 484, 574, 690, 865, 866, 924, 972, 993, 1129],
            vec![44, 172, 320, 516, 584, 726, 865, 866, 892, 972, 1017, 1139],
        ]
    );
}

#[test]
fn solution_grid_passes_over_other_options() {
    let bx = rectangle(1, 3);
    let info = Board { pieces: 2, cells: 3 };
    let os: Vec<Vec<Count>> = vec![
        vec![3, 0, 1],
        vec![3, 4, 2],
        vec![2],
        vec![4, 2],
    ];
    let grid = SolutionGrid::new(&[1, 2, 0, 3], &info, &os, &bx);
    assert_eq!(grid.cells().to_vec(), vec![vec![(1, 1), (1, 1), (2, 2)]]);
}

#[test]
fn draw_one_square() {
    let bx = rectangle(1, 1);
    let info = Board { pieces: 1, cells: 1 };
    let mono = Omino::new(&[(4, 4)]);
    let os = mono.all_options(0, &bx, &info);
    assert_eq!(os, vec![vec![1, 0]]);
    let grid = SolutionGrid::new(&[0], &info, &os, &bx);
    assert_eq!(grid.cells().to_vec(), vec![vec![(1, 1)]]);
    let steps = dlx::omino::draw_steps(&grid, 10, 5, 7, &[(1, 2, 3)]);
    assert_eq!(
        steps,
        vec![
            Draw::Fill(5, 7, 10, (1, 2, 3)),
            Draw::Line(5, 7, 5, 17),
            Draw::Line(5, 7, 15, 7),
            Draw::Line(15, 7, 15, 17),
            Draw::Line(5, 17, 15, 17),
        ]
    );
}

#[test]
fn draw_two_pieces_in_a_row() {
    let bx = rectangle(1, 2);
    let info = Board { pieces: 2, cells: 2 };
    let os: Vec<Vec<Count>> = vec![vec![2, 0], vec![3, 1]];
    let grid = SolutionGrid::new(&[0, 1], &info, &os, &bx);
    assert_eq!(grid.cells().to_vec(), vec![vec![(1, 1), (2, 2)]]);
    let steps = dlx::omino::draw_steps(&grid, 2, 0, 0, &[(9, 9, 9), (8, 8, 8)]);
    assert_eq!(
        steps,
        vec![
            Draw::Fill(0, 0, 2, (9, 9, 9)),
            Draw::Line(0, 0, 0, 2),
            Draw::Line(0, 0, 2, 0),
            Draw::Fill(2, 0, 2, (8, 8, 8)),
            Draw::Line(2, 0, 2, 2),
            Draw::Line(2, 0, 4, 0),
            Draw::Line(4, 0, 4, 2),
            Draw::Line(0, 2, 2, 2),
            Draw::Line(2, 2, 4, 2),
        ]
    );
}
