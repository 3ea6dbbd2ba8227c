use dlx::chooser::{knuth_tiebreak, mrv_chooser, no_tiebreak, prefer_any, prefer_first_n, Choose};
use dlx::x::{INodes, ONodes, Problem};
use dlx::{Count, Dance, DanceC, OptOrder, Solve};

fn problem() -> Problem {
    let items = INodes::new(7, 0);
    let os: Vec<Vec<Count>> = vec![
        vec![2, 4],
        vec![0, 3, 6],
        vec![1, 2, 5],
        vec![0, 3, 5],
        vec![1, 6],
        vec![3, 4, 6],
    ];
    let opts = ONodes::new(7, 7, &os, OptOrder::Sequential);
    Problem::new(items, opts)
}

fn entries(pr: &Problem) -> Vec<usize> {
    let nodes = pr.opts().nodes;
    (9..nodes.len()).filter(|&p| nodes[p].hdr_info > 0).collect()
}

#[test]
fn unhide_undoes_hide() {
    let base = problem();
    let ps = entries(&base);
    assert_eq!(ps.len(), 16);
    for p in ps {
        let mut pr = problem();
        pr.hide_option(p);
        assert_ne!(pr.opts(), base.opts(), "hiding changed nothing");
        pr.unhide(p);
        assert_eq!(pr.opts(), base.opts(), "unhide did not undo hide");
        assert_eq!(pr.items(), base.items());
    }
}

#[test]
fn uncover_undoes_cover() {
    let base = problem();
    for i in 1..=7 {
        let mut pr = problem();
        pr.cover(i);
        assert_ne!(pr.items(), base.items(), "covering left the item in its list");
        pr.uncover(i);
        assert_eq!(pr.items(), base.items(), "uncover did not undo cover");
        assert_eq!(pr.opts(), base.opts(), "uncover did not undo cover");
    }
}

#[test]
fn nested_covers_undone_in_reverse() {
    let base = problem();
    let mut pr = problem();
    pr.cover(1);
    pr.cover(4);
    pr.cover(7);
    pr.uncover(7);
    pr.uncover(4);
    pr.uncover(1);
    assert_eq!(pr.items(), base.items());
    assert_eq!(pr.opts(), base.opts());
}

#[test]
fn a_level_undoes_itself() {
    let base = problem();
    for i in 1..=7usize {
        let mut pr = problem();
        let first = pr.opts().nodes[i].down;
        assert_ne!(first, i);
        pr.prepare_to_branch(i, 0, first);
        assert_ne!(pr.opts(), base.opts());
        assert!(pr.try_item(i, 0, first));
        let mut xl = first;
        let mut tried = 1;
        while pr.try_again(i, 0, &mut xl) {
            tried += 1;
            assert_ne!(pr.opts(), base.opts());
        }
        assert_eq!(xl, i);
        let options = entries(&base).iter().filter(|&&p| base.opts().nodes[p].hdr_info == i as isize).count();
        assert_eq!(tried, options);
        assert_eq!(pr.items(), base.items(), "a level left the item list changed");
        assert_eq!(pr.opts(), base.opts(), "a level left the columns changed");
    }
}

#[test]
fn two_levels_undone_in_reverse() {
    let base = problem();
    let mut pr = problem();
    let x1 = pr.opts().nodes[1].down;
    pr.prepare_to_branch(1, 0, x1);
    assert!(pr.try_item(1, 0, x1));
    let j = pr.items().nodes[0].right;
    assert_ne!(j, 0);
    let x2 = pr.opts().nodes[j].down;
    pr.prepare_to_branch(j, 1, x2);
    if x2 == j {
        pr.restore_item(j, 1, x2);
    } else {
        assert!(pr.try_item(j, 1, x2));
        let mut y2 = x2;
        while pr.try_again(j, 1, &mut y2) {}
    }
    let mut y1 = x1;
    while pr.try_again(1, 0, &mut y1) {}
    assert_eq!(pr.items(), base.items());
    assert_eq!(pr.opts(), base.opts());
}

#[test]
fn uncommit_undoes_commit() {
    let base = problem();
    for p in entries(&base) {
        let j = base.opts().nodes[p].hdr_info as usize;
        let mut pr = problem();
        pr.commit(p, j);
        pr.uncommit(p, j);
        assert_eq!(pr.items(), base.items());
        assert_eq!(pr.opts(), base.opts());
    }
}

fn colored_problem() -> dlx::c::Problem {
    let items = INodes::new(3, 2);
    let os: Vec<Vec<(Count, dlx::Data)>> = vec![
        vec![(0, 0), (1, 0), (3, 0), (4, 65)],
        vec![(0, 0), (2, 0), (3, 65), (4, 0)],
        vec![(0, 0), (3, 66)],
        vec![(1, 0), (3, 65)],
        vec![(2, 0), (4, 66)],
    ];
    let opts = dlx::c::ONodes::new(5, 3, &os, OptOrder::Sequential);
    dlx::c::Problem::new(items, opts)
}

#[test]
fn unpurify_undoes_purify() {
    let base = colored_problem();
    let mut pr = colored_problem();
    pr.hide_option(7);
    let mid = pr.opts();
    assert_ne!(mid, base.opts());
    pr.purify(10);
    assert_ne!(pr.opts(), mid, "purifying changed nothing");
    pr.unpurify(10);
    assert_eq!(pr.opts(), mid, "unpurify did not undo purify");
    pr.unhide(7);
    assert_eq!(pr.opts(), base.opts());
    assert_eq!(pr.items(), base.items());
}

#[test]
fn colored_uncommit_undoes_commit() {
    let base = colored_problem();
    let mut pr = colored_problem();
    pr.hide_option(12);
    let mid_items = pr.items();
    let mid_opts = pr.opts();
    for p in [13usize, 14, 15] {
        let j = mid_opts.nodes[p].hdr_info as usize;
        pr.commit(p, j);
        pr.uncommit(p, j);
        assert_eq!(pr.items(), mid_items);
        assert_eq!(pr.opts(), mid_opts);
    }
    pr.unhide(12);
    assert_eq!(pr.opts(), base.opts());
}

#[test]
fn a_colored_level_undoes_itself() {
    let base = colored_problem();
    for i in 1..=3usize {
        let mut pr = colored_problem();
        let first = pr.opts().nodes[i].down;
        assert_ne!(first, i);
        pr.prepare_to_branch(i, 0, first);
        assert!(pr.try_item(i, 0, first));
        let mut xl = first;
        let mut tried = 1;
        while pr.try_again(i, 0, &mut xl) {
            tried += 1;
        }
        assert_eq!(xl, i);
        let options = (0..pr.opts().nodes.len())
            .filter(|&p| p > 6 && base.opts().nodes[p].hdr_info == i as isize)
            .count();
        assert_eq!(tried, options);
        assert_eq!(pr.items(), base.items(), "a level left the item list changed");
        assert_eq!(pr.opts(), base.opts(), "a level left the columns or colors changed");
    }
}

#[test]
fn chooser_takes_first_shortest_column() {
    let base = problem();
    let mut ch = mrv_chooser(prefer_any(), no_tiebreak());
    assert_eq!(ch.choose_next(&base), 1);
    let mut pr = problem();
    pr.cover(1);
    assert_eq!(ch.choose_next(&pr), 4);
    let mut kn = mrv_chooser(prefer_any(), knuth_tiebreak());
    assert_eq!(kn.choose_next(&pr), 4);
    let mut some = mrv_chooser(prefer_first_n(3), no_tiebreak());
    assert_eq!(some.choose_next(&base), 1);
    assert_eq!(some.choose_next(&pr), 2);
}
