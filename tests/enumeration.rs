use procmem::enumerate::{collect_nodes, Identity};
use procmem::filter::ReadError;

fn id(pid: i32, ppid: i32, cmdline: &str) -> Result<Identity, ReadError> {
    Ok(Identity { pid, ppid, cmdline: cmdline.to_string() })
}

#[test]
fn own_process_is_left_out_unless_asked() {
    let reads = || vec![id(1, 0, "init"), id(42, 1, "procmem"), id(43, 1, "sh")];
    let without = collect_nodes(reads(), 42, false, false).unwrap();
    let pids: Vec<i32> = without.nodes.iter().map(|n| n.pid).collect();
    assert_eq!(pids, vec![1, 43]);
    let with = collect_nodes(reads(), 42, true, false).unwrap();
    let pids: Vec<i32> = with.nodes.iter().map(|n| n.pid).collect();
    assert_eq!(pids, vec![1, 42, 43]);
    assert_eq!(with.nodes[1].ppid, 1);
    assert_eq!(with.nodes[1].cmdline, "procmem");
    assert!(with.nodes.iter().all(|n| n.children.is_empty()));
}

#[test]
fn failed_reads_follow_the_policy() {
    let reads = || {
        vec![
            id(1, 0, "init"),
            Err(ReadError::NotFound(Some("/proc/7/stat".to_string()))),
            Err(ReadError::PermissionDenied(Some("/proc/8/cmdline".to_string()))),
            id(9, 1, "x"),
        ]
    };
    let e = collect_nodes(reads(), 0, false, false).unwrap();
    let pids: Vec<i32> = e.nodes.iter().map(|n| n.pid).collect();
    assert_eq!(pids, vec![1, 9]);
    assert_eq!(e.vanished, vec![Some("/proc/7/stat".to_string())]);
    let r = collect_nodes(reads(), 0, false, true);
    assert!(matches!(r, Err(ReadError::PermissionDenied(Some(_)))));
}

#[test]
fn other_failure_ends_enumeration() {
    let reads = vec![id(1, 0, "init"), Err(ReadError::Other("broken".to_string())), id(2, 1, "y")];
    let r = collect_nodes(reads, 0, false, false);
    assert!(matches!(r, Err(ReadError::Other(m)) if m == "broken"));
}
