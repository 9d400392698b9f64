use procmem::classify::{MapRecord, MapWarningKind, Region};
use procmem::filter::ReadError;
use procmem::listing::{get_smaps, CycleError, ProcessRead, SmapsWarning};
use procmem::tree::ProcNode;

fn node(pid: i32, ppid: i32, cmdline: &str) -> ProcNode {
    ProcNode::new(pid, ppid, cmdline.to_string())
}

fn heap(pss: u64) -> MapRecord {
    MapRecord { region: Region::Heap, perms: 3, pss: Some(pss), rss: Some(pss) }
}

fn ok_read(maps: Vec<MapRecord>, exe: &str) -> ProcessRead {
    ProcessRead { maps: Ok(maps), exe: Ok(exe.to_string()) }
}

#[test]
fn vanished_process_is_left_out_with_one_warning() {
    let nodes = vec![node(1, 0, "init"), node(2, 1, "gone"), node(3, 1, "still here")];
    let reads = vec![
        ok_read(vec![heap(4096)], "/sbin/init"),
        ProcessRead {
            maps: Err(ReadError::NotFound(Some("/proc/2/smaps".to_string()))),
            exe: Err(ReadError::NotFound(Some("/proc/2/exe".to_string()))),
        },
        ok_read(vec![heap(8192)], "/bin/sleep"),
    ];
    let report = get_smaps(nodes, reads, true).unwrap();
    let pids: Vec<i32> = report.listings.iter().map(|l| l.pid).collect();
    assert_eq!(pids, vec![1, 3]);
    assert_eq!(report.warnings.len(), 1);
    match &report.warnings[0] {
        SmapsWarning::Vanished { pid, path } => {
            assert_eq!(*pid, 2);
            assert_eq!(path.as_deref(), Some("/proc/2/smaps"));
        }
        other => panic!("unexpected warning {:?}", other),
    }
    assert_eq!(report.listings[1].memory_ext.heap_pss, 8192);
    assert_eq!(report.listings[1].cmdline, "still here");
    assert_eq!(report.listings[1].ppid, 1);
}

#[test]
fn permission_denied_follows_the_flag() {
    let make = || {
        (
            vec![node(1, 0, "init"), node(2, 1, "secret")],
            vec![
                ok_read(vec![heap(1)], "/sbin/init"),
                ProcessRead { maps: Ok(vec![heap(2)]), exe: Err(ReadError::PermissionDenied(None)) },
            ],
        )
    };
    let (nodes, reads) = make();
    let report = get_smaps(nodes, reads, false).unwrap();
    assert_eq!(report.listings.len(), 1);
    assert!(report.warnings.is_empty());
    let (nodes, reads) = make();
    let r = get_smaps(nodes, reads, true);
    assert!(matches!(
        r,
        Err(CycleError::Read { pid: 2, error: ReadError::PermissionDenied(None) })
    ));
}

#[test]
fn other_read_failure_is_fatal() {
    let nodes = vec![node(4, 0, "x")];
    let reads = vec![ProcessRead { maps: Err(ReadError::Other("bad".to_string())), exe: Ok("/x".to_string()) }];
    assert!(matches!(get_smaps(nodes, reads, false), Err(CycleError::Read { pid: 4, .. })));
}

#[test]
fn unaccounted_memory_ends_the_listing() {
    let nodes = vec![node(1, 0, "a"), node(2, 0, "b")];
    let bad = MapRecord { region: Region::Stack, perms: 3, pss: None, rss: Some(4096) };
    let reads = vec![ok_read(vec![heap(1)], "/a"), ok_read(vec![heap(1), bad], "/b")];
    assert!(matches!(get_smaps(nodes, reads, false), Err(CycleError::Unaccounted { pid: 2, index: 1 })));
}

#[test]
fn oversized_total_ends_the_listing() {
    let nodes = vec![node(9, 0, "big")];
    let reads = vec![ok_read(vec![heap(u64::MAX), heap(1)], "/big")];
    assert!(matches!(get_smaps(nodes, reads, false), Err(CycleError::TooLarge { pid: 9 })));
}

#[test]
fn mapping_warnings_carry_the_pid() {
    let nodes = vec![node(5, 0, "w")];
    let odd = MapRecord { region: Region::Vdso, perms: 5, pss: None, rss: Some(0) };
    let reads = vec![ok_read(vec![heap(7), odd], "/w")];
    let report = get_smaps(nodes, reads, false).unwrap();
    assert_eq!(report.listings.len(), 1);
    assert_eq!(report.listings[0].memory_ext.heap_pss, 7);
    assert_eq!(report.listings[0].memory_ext.vdso_pss, 0);
    assert_eq!(report.warnings.len(), 1);
    match &report.warnings[0] {
        SmapsWarning::Mapping { pid, warning } => {
            assert_eq!(*pid, 5);
            assert_eq!(warning.index, 1);
            assert_eq!(warning.kind, MapWarningKind::PssMissingRssZero);
        }
        other => panic!("unexpected warning {:?}", other),
    }
}
