use procmem::filter::{filter_errors, Filtered, ReadError};
use procmem::select::{descendant_closure, get_processes, retain_selected, Pattern, PatternError};
use procmem::tree::{link_tree, ProcNode, TreeError};

fn node(pid: i32, ppid: i32, cmdline: &str) -> ProcNode {
    ProcNode::new(pid, ppid, cmdline.to_string())
}

fn three_generations() -> Vec<ProcNode> {
    vec![node(1, 0, "init"), node(2, 1, "bash -l"), node(3, 2, "sleep 100")]
}

fn pids(nodes: &[ProcNode]) -> Vec<i32> {
    nodes.iter().map(|n| n.pid).collect()
}

#[test]
fn match_with_descendants_selects_subtree() {
    let pattern = Pattern::new("bash").unwrap();
    let selected = get_processes(three_generations(), &Some(pattern), true).unwrap();
    assert_eq!(pids(&selected), vec![2, 3]);
}

#[test]
fn match_without_descendants_selects_only_match() {
    let pattern = Pattern::new("bash").unwrap();
    let selected = get_processes(three_generations(), &Some(pattern), false).unwrap();
    assert_eq!(pids(&selected), vec![2]);
}

#[test]
fn no_pattern_keeps_every_node_unlinked() {
    let selected = get_processes(three_generations(), &None, true).unwrap();
    assert_eq!(pids(&selected), vec![1, 2, 3]);
    assert!(selected.iter().all(|n| n.children.is_empty()));
}

#[test]
fn pattern_matching_nothing_selects_nothing() {
    let pattern = Pattern::new("^nomatch$").unwrap();
    let selected = get_processes(three_generations(), &Some(pattern), true).unwrap();
    assert!(selected.is_empty());
}

#[test]
fn pattern_is_a_regular_expression() {
    let pattern = Pattern::new("^sl[e]+p [0-9]+$").unwrap();
    assert!(pattern.is_match("sleep 100"));
    assert!(!pattern.is_match("asleep 100"));
    let selected = get_processes(three_generations(), &Some(pattern), false).unwrap();
    assert_eq!(pids(&selected), vec![3]);
}

#[test]
fn invalid_pattern_is_rejected() {
    assert!(matches!(Pattern::new("foo(bar"), Err(PatternError::Invalid)));
}

#[test]
fn missing_parent_fails_linking() {
    let nodes = vec![node(1, 0, "init"), node(5, 4, "orphan"), node(6, 9, "orphan too")];
    let pattern = Pattern::new("init").unwrap();
    let r = get_processes(nodes, &Some(pattern), true);
    assert!(matches!(r, Err(TreeError::MissingParent { index: 1, ppid: 4 })));
}

#[test]
fn linking_builds_a_forest() {
    let mut nodes = vec![
        node(1, 0, "init"),
        node(7, 0, "kthreadd"),
        node(2, 1, "a"),
        node(3, 1, "b"),
        node(8, 7, "c"),
        node(4, 3, "d"),
    ];
    link_tree(&mut nodes).unwrap();
    assert_eq!(nodes[0].children, vec![2, 3]);
    assert_eq!(nodes[1].children, vec![4]);
    assert_eq!(nodes[2].children, Vec::<usize>::new());
    assert_eq!(nodes[3].children, vec![5]);
    assert_eq!(nodes[4].children, Vec::<usize>::new());
    assert_eq!(nodes[5].children, Vec::<usize>::new());
    for i in 0..nodes.len() {
        let parents = nodes.iter().filter(|n| n.children.contains(&i)).count();
        let expected = if nodes[i].ppid == 0 { 0 } else { 1 };
        assert_eq!(parents, expected);
    }
}

#[test]
fn linking_failure_leaves_nodes_unchanged() {
    let mut nodes = vec![node(1, 0, "init"), node(2, 1, "a"), node(3, 42, "b")];
    let r = link_tree(&mut nodes);
    assert_eq!(r, Err(TreeError::MissingParent { index: 2, ppid: 42 }));
    assert!(nodes.iter().all(|n| n.children.is_empty()));
}

#[test]
fn closure_is_idempotent() {
    let mut nodes = vec![
        node(1, 0, "init"),
        node(2, 1, "a"),
        node(3, 2, "b"),
        node(4, 1, "c"),
        node(5, 3, "d"),
    ];
    link_tree(&mut nodes).unwrap();
    let seeds = vec![false, true, false, false, false];
    let once = descendant_closure(&nodes, &seeds);
    assert_eq!(once, vec![false, true, true, false, true]);
    let twice = descendant_closure(&nodes, &once);
    assert_eq!(twice, once);
}

#[test]
fn closure_contains_the_seeds() {
    let mut nodes = vec![node(1, 0, "init"), node(2, 1, "a"), node(3, 0, "b"), node(4, 3, "c")];
    link_tree(&mut nodes).unwrap();
    let seeds = vec![false, true, true, false];
    let closed = descendant_closure(&nodes, &seeds);
    assert_eq!(closed, vec![false, true, true, true]);
    for i in 0..seeds.len() {
        assert!(!seeds[i] || closed[i]);
    }
}

#[test]
fn retain_keeps_order() {
    let nodes = vec![node(10, 0, "a"), node(11, 0, "b"), node(12, 0, "c"), node(13, 0, "d")];
    let kept = retain_selected(nodes, &vec![true, false, true, true]);
    assert_eq!(pids(&kept), vec![10, 12, 13]);
    assert_eq!(kept[1].cmdline, "c");
}

#[test]
fn filter_policy_table() {
    let denied: Result<u32, ReadError> = Err(ReadError::PermissionDenied(None));
    assert!(matches!(
        filter_errors(denied.clone(), true),
        Filtered::Fatal(ReadError::PermissionDenied(None))
    ));
    assert!(matches!(filter_errors(denied, false), Filtered::Skip));
    let gone: Result<u32, ReadError> = Err(ReadError::NotFound(Some("/proc/9/smaps".to_string())));
    for flag in [true, false] {
        match filter_errors(gone.clone(), flag) {
            Filtered::SkipWithWarning(Some(p)) => assert_eq!(p, "/proc/9/smaps"),
            _ => panic!("a vanished target is skipped with a warning"),
        }
    }
    let other: Result<u32, ReadError> = Err(ReadError::Other("io".to_string()));
    for flag in [true, false] {
        assert!(matches!(filter_errors(other.clone(), flag), Filtered::Fatal(ReadError::Other(_))));
    }
    assert!(matches!(filter_errors(Ok::<u32, ReadError>(7), true), Filtered::Proceed(7)));
}
