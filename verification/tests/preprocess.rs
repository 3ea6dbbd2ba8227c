use dlx::p::Preproc;
use dlx::x::INodes;
use dlx::{c, x};
use dlx::{Count, Data, OptOrder};

#[test]
fn test_preproc_color() {
    let items = INodes::new(3, 2);
    let os: Vec<Vec<(Count, Data)>> = vec![
        vec![(0, 0), (1, 0), (3, 48), (4, 48)],
        vec![(0, 0), (2, 0), (3, 49), (4, 49)],
        vec![(3, 48), (4, 49)],
        vec![(1, 0), (3, 49)],
        vec![(2, 0), (4, 49)],
    ];
    let opts = c::ONodes::new(5, 3, &os, OptOrder::Sequential);
    let problem = c::Problem::new(items, opts);
    let mut preproc = Preproc::new(&problem);
    let (np, ns, os, orig) = preproc.reduce(200).unwrap();
    assert_eq!((np, ns), (2, 2));
    assert_eq!(orig, vec![1, 3]);
    assert_eq!(
        os,
        vec![vec![(0, 0), (2, 49), (3, 49)], vec![(1, 0), (2, 49)]]
    );
}

#[test]
fn test_preproc() {
    let items = INodes::new(5, 2);
    let os: Vec<Vec<Count>> = vec![
        vec![2, 4, 5],
        vec![0, 3, 6],
        vec![1, 2, 5],
        vec![0, 3],
        vec![1, 6],
        vec![3, 4, 5],
    ];
    let opts = x::ONodes::new(7, 5, &os, OptOrder::Sequential);
    let problem = x::Problem::new(items, opts);
    let mut preproc = Preproc::new(&problem);
    let (np, ns, os, orig) = preproc.reduce(200).unwrap();
    assert_eq!((np, ns), (3, 0));
    assert_eq!(orig, vec![3, 4, 0]);
    assert_eq!(os, vec![vec![0], vec![1], vec![2]]);
}
