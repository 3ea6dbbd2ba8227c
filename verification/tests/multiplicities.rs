use dlx::chooser::{knuth_tiebreak, mrv_chooser, no_tiebreak, prefer_any};
use dlx::{c, m, mc, x};
use dlx::{Count, Data, OptOrder, Rng, Solver, Spec};

#[test]
fn test_mc() {
    let mut ps: Vec<(Data, Data)> = Vec::new();
    for _ in 0..8 {
        ps.push((1, 1));
    }
    for _ in 0..4 {
        ps.push((2, 2));
    }
    for _ in 0..12 {
        ps.push((0, 2));
    }
    let items = m::INodes::new(&ps, 0);

    let mut os: Vec<Vec<Count>> = Vec::new();
    for i in 0..2 {
        for j in 0..2 {
            os.push(vec![i, 8 + j, 12 + i + 1 - j, 15 + i + j]);
            os.push(vec![10 + i, 2 + j, 12 + i + 1 - j, 18 + i + j]);
            os.push(vec![4 + i, 8 + j, 21 + i + 1 - j, 18 + i + j]);
            os.push(vec![10 + i, 6 + j, 21 + i + 1 - j, 15 + i + j]);
        }
    }
    let opts = x::ONodes::new(24, 24, &os, OptOrder::Rnd(Rng::new(12345678)));

    let items_init = items.clone();
    let opts_init = opts.clone();
    let problem = m::Problem::new(items, opts);
    let mut solver = Solver::new(problem);
    let mut solutions: Vec<Vec<isize>> = Vec::new();
    let mut expected = vec![
        vec![0, 1, 5, 6, 8, 11, 14, 15],
        vec![0, 2, 5, 7, 9, 11, 12, 14],
        vec![0, 3, 6, 7, 8, 9, 13, 14],
        vec![1, 2, 4, 5, 10, 11, 12, 15],
        vec![1, 3, 4, 6, 8, 10, 13, 15],
        vec![2, 3, 4, 7, 9, 10, 12, 13],
    ];
    let mut i = 0;
    let mut chooser = mrv_chooser(prefer_any(), knuth_tiebreak());
    while solver.next_solution(&mut chooser) {
        assert!(i <= expected.len(), "too many solutions");
        let mut o = solver.get_solution().to_vec();
        o.sort();
        solutions.push(o);
        i += 1;
    }
    solutions.sort();
    expected.sort();
    assert_eq!(solutions, expected, "wrong solutions");
    assert_eq!(solver.problem().items(), items_init, "items not backtracked");
    assert_eq!(solver.problem().opts(), opts_init, "options not backtracked");
    assert!(
        solver.level() == 0 && solver.restarting() == false,
        "initial state not restored"
    );
}

#[test]
fn test_mcc() {
    let ps = vec![(1, 1), (1, 1), (2, 3)];
    let items = m::INodes::new(&ps, 2);
    let os = vec![
        vec![(0, 0), (1, 0), (3, 0), (4, 0)],
        vec![(0, 0), (2, 0), (3, 1), (4, 1)],
        vec![(2, 0), (3, 0)],
        vec![(1, 0), (3, 1)],
        vec![(2, 0), (4, 1)],
    ];
    let opts = c::ONodes::new(5, 3, &os, OptOrder::Sequential);
    let items_init = items.clone();
    let opts_init = opts.clone();
    let problem = mc::Problem::new(items, opts);
    let mut solver = Solver::new(problem);
    let mut solutions: Vec<Vec<Data>> = Vec::new();
    let mut expected = vec![vec![1, 3, 4]];
    let mut i = 0;
    let mut chooser = mrv_chooser(prefer_any(), no_tiebreak());
    while solver.next_solution(&mut chooser) {
        assert!(i <= expected.len(), "too many solutions");
        let mut o = solver.get_solution().to_vec();
        o.sort();
        solutions.push(o);
        i += 1;
    }
    solutions.sort();
    expected.sort();
    assert_eq!(solutions, expected, "wrong solutions");
    assert_eq!(solver.problem().items(), items_init, "items not backtracked");
    assert_eq!(solver.problem().opts(), opts_init, "options not backtracked");
    assert!(
        solver.level() == 0 && solver.restarting() == false,
        "initial state not restored"
    );
}

#[test]
fn m_test_from_spec() {
    let spec_str = "\r\nA B 2:3|C | X Y\r\nA B X Y\r\nA C X Y\r\nC X\r\nB X\r\nC Y\r\n";
    let spec = Spec::new(spec_str, false).unwrap();
    let problem = m::Problem::from_spec(&spec, OptOrder::Sequential).unwrap();
    let ps = vec![(1, 1), (1, 1), (2, 3)];
    let items = m::INodes::new(&ps, 2);
    assert_eq!(problem.items(), items);
}
