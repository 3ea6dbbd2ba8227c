use dlx::chooser::{mrv_chooser, no_tiebreak, prefer_any};
use dlx::x::{INode, INodes, ONode, ONodes, Problem};
use dlx::{Count, Data, OptOrder, Solver, Spec};

fn inodes_data() -> Vec<INode> {
    vec![
        INode { left: 3, right: 1 },
        INode { left: 0, right: 2 },
        INode { left: 1, right: 3 },
        INode { left: 2, right: 0 },
        INode { left: 6, right: 5 },
        INode { left: 4, right: 6 },
        INode { left: 5, right: 4 },
    ]
}

fn onodes_data() -> Vec<ONode> {
    vec![
        ONode { hdr_info: 0, up: 0, down: 0 },
        ONode { hdr_info: 3, up: 17, down: 7 },
        ONode { hdr_info: 2, up: 20, down: 8 },
        ONode { hdr_info: 2, up: 23, down: 13 },
        ONode { hdr_info: 4, up: 21, down: 9 },
        ONode { hdr_info: 3, up: 24, down: 10 },
        ONode { hdr_info: 0, up: 0, down: 10 },
        ONode { hdr_info: 1, up: 1, down: 12 },
        ONode { hdr_info: 2, up: 2, down: 20 },
        ONode { hdr_info: 4, up: 4, down: 14 },
        ONode { hdr_info: 5, up: 5, down: 15 },
        ONode { hdr_info: -1, up: 7, down: 15 },
        ONode { hdr_info: 1, up: 7, down: 17 },
        ONode { hdr_info: 3, up: 3, down: 23 },
        ONode { hdr_info: 4, up: 9, down: 18 },
        ONode { hdr_info: 5, up: 10, down: 24 },
        ONode { hdr_info: -2, up: 12, down: 18 },
        ONode { hdr_info: 1, up: 12, down: 1 },
        ONode { hdr_info: 4, up: 14, down: 21 },
        ONode { hdr_info: -3, up: 17, down: 21 },
        ONode { hdr_info: 2, up: 8, down: 2 },
        ONode { hdr_info: 4, up: 18, down: 4 },
        ONode { hdr_info: -4, up: 20, down: 24 },
        ONode { hdr_info: 3, up: 13, down: 3 },
        ONode { hdr_info: 5, up: 15, down: 5 },
        ONode { hdr_info: -5, up: 23, down: 0 },
    ]
}

#[test]
fn test_item_init() {
    let items = INodes::new(3, 2);
    let inodes = inodes_data();
    assert_eq!(items.nodes, inodes, "incorrect items");
}

#[test]
fn x_test_opt_init() {
    let os: Vec<Vec<Count>> = vec![
        vec![0, 1, 3, 4],
        vec![0, 2, 3, 4],
        vec![0, 3],
        vec![1, 3],
        vec![2, 4],
    ];
    let opts = ONodes::new(5, 3, &os, OptOrder::Sequential);
    let onodes = onodes_data();
    assert_eq!(opts.nodes, onodes, "incorrect options");
}

#[test]
fn test_xc() {
    let items = INodes::new(7, 0);
    let os: Vec<Vec<Count>> = vec![
        vec![2, 4],
        vec![0, 3, 6],
        vec![1, 2, 5],
        vec![0, 3, 5],
        vec![1, 6],
        vec![3, 4, 6],
    ];
    let opts = ONodes::new(7, 7, &os, OptOrder::Sequential);
    let items_init = items.clone();
    let opts_init = opts.clone();
    let problem = Problem::new(items, opts);
    let mut solver = Solver::new(problem);
    let mut solutions: Vec<Vec<Data>> = Vec::new();
    let mut expected = vec![vec![0, 3, 4]];
    let mut i = 0;
    let mut chooser = mrv_chooser(prefer_any(), no_tiebreak());
    while solver.next_solution(&mut chooser) {
        assert!(i <= expected.len(), "too many solutions");
        let mut o = solver.get_solution().to_vec();
        o.sort();
        solutions.push(o);
        i += 1;
    }
    solutions.sort();
    expected.sort();
    assert_eq!(solutions, expected, "wrong solutions");
    assert_eq!(solver.problem().items(), items_init, "items not backtracked");
    assert_eq!(solver.problem().opts(), opts_init, "options not backtracked");
    assert!(
        solver.level() == 0 && solver.restarting() == false,
        "initial state not restored"
    );
}

#[test]
fn x_test_from_spec() {
    let spec_str = "\r\n| This is a comment\r\np q r | x y\r\n\r\np q x y\r\np r x y\r\n| Another comment\r\np x\r\nq x\r\nr y";
    let spec = Spec::new(spec_str, false).unwrap();
    let problem = Problem::from_spec(&spec, OptOrder::Sequential).unwrap();
    assert_eq!(problem.items().nodes, inodes_data());
    assert_eq!(problem.opts().nodes, onodes_data());
}
