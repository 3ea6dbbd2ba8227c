use dlx::c::{ONode, ONodes, Problem};
use dlx::chooser::{mrv_chooser, prefer_any, rnd_tiebreak};
use dlx::x::INodes;
use dlx::{Count, Data, OptOrder, Solver, Spec};

fn onodes_data() -> Vec<ONode> {
    vec![
        ONode { hdr_info: 0, up: 0, down: 0, color: 0 },
        ONode { hdr_info: 3, up: 17, down: 7, color: 0 },
        ONode { hdr_info: 2, up: 20, down: 8, color: 0 },
        ONode { hdr_info: 2, up: 23, down: 13, color: 0 },
        ONode { hdr_info: 4, up: 21, down: 9, color: 0 },
        ONode { hdr_info: 3, up: 24, down: 10, color: 0 },
        ONode { hdr_info: 0, up: 0, down: 10, color: 0 },
        ONode { hdr_info: 1, up: 1, down: 12, color: 0 },
        ONode { hdr_info: 2, up: 2, down: 20, color: 0 },
        ONode { hdr_info: 4, up: 4, down: 14, color: 0 },
        ONode { hdr_info: 5, up: 5, down: 15, color: 65 },
        ONode { hdr_info: -1, up: 7, down: 15, color: 0 },
        ONode { hdr_info: 1, up: 7, down: 17, color: 0 },
        ONode { hdr_info: 3, up: 3, down: 23, color: 0 },
        ONode { hdr_info: 4, up: 9, down: 18, color: 65 },
        ONode { hdr_info: 5, up: 10, down: 24, color: 0 },
        ONode { hdr_info: -2, up: 12, down: 18, color: 0 },
        ONode { hdr_info: 1, up: 12, down: 1, color: 0 },
        ONode { hdr_info: 4, up: 14, down: 21, color: 66 },
        ONode { hdr_info: -3, up: 17, down: 21, color: 0 },
        ONode { hdr_info: 2, up: 8, down: 2, color: 0 },
        ONode { hdr_info: 4, up: 18, down: 4, color: 65 },
        ONode { hdr_info: -4, up: 20, down: 24, color: 0 },
        ONode { hdr_info: 3, up: 13, down: 3, color: 0 },
        ONode { hdr_info: 5, up: 15, down: 5, color: 66 },
        ONode { hdr_info: -5, up: 23, down: 0, color: 0 },
    ]
}

#[test]
fn c_test_opt_init() {
    let os: Vec<Vec<(Count, Data)>> = vec![
        vec![(0, 0), (1, 0), (3, 0), (4, 65)],
        vec![(0, 0), (2, 0), (3, 65), (4, 0)],
        vec![(0, 0), (3, 66)],
        vec![(1, 0), (3, 65)],
        vec![(2, 0), (4, 66)],
    ];
    let opts = ONodes::new(5, 3, &os, OptOrder::Sequential);
    let onodes = onodes_data();
    assert_eq!(opts.nodes, onodes, "incorrect options");
}

#[test]
fn test_xcc() {
    let items = INodes::new(3, 2);
    let os: Vec<Vec<(Count, Data)>> = vec![
        vec![(0, 0), (1, 0), (3, 0), (4, 65)],
        vec![(0, 0), (2, 0), (3, 65), (4, 0)],
        vec![(0, 0), (3, 66)],
        vec![(1, 0), (3, 65)],
        vec![(2, 0), (4, 66)],
    ];
    let opts = ONodes::new(5, 3, &os, OptOrder::Sequential);
    let items_init = items.clone();
    let opts_init = opts.clone();
    let problem = Problem::new(items, opts);
    let mut solver = Solver::new(problem);
    let mut solutions: Vec<Vec<Data>> = Vec::new();
    let mut expected = vec![vec![1, 3]];
    let mut i = 0;
    let mut chooser = mrv_chooser(prefer_any(), rnd_tiebreak(12345678));
    while solver.next_solution(&mut chooser) {
        assert!(i <= expected.len(), "too many solutions");
        let mut o = solver.get_solution().to_vec();
        o.sort();
        solutions.push(o);
        i += 1;
    }
    solutions.sort();
    expected.sort();
    assert_eq!(solutions, expected, "wrong solutions");
    assert_eq!(solver.problem().items(), items_init, "items not backtracked");
    assert_eq!(solver.problem().opts(), opts_init, "options not backtracked");
    assert!(
        solver.level() == 0 && solver.restarting() == false,
        "initial state not restored"
    );
}

#[test]
fn c_test_from_spec() {
    let spec_str = "\r\np q r | x y\r\np q x y:A\r\np r x:A y\r\np x:B\r\nq x:A\r\nr y:B\r\n";
    let spec = Spec::new(spec_str, false).unwrap();
    let problem = Problem::from_spec(&spec).unwrap();
    assert_eq!(problem.opts().nodes, onodes_data());
}
