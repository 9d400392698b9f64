use procmem::classify::{
    checked_total_pss, classify_maps, resolve_pss, ClassifyError, FileEntry, LabelEntry,
    MapRecord, MapWarning, MapWarningKind, MemoryExt, PssValue, Region,
};

const R: u8 = 1;
const W: u8 = 2;
const X: u8 = 4;
const P: u8 = 16;

fn rec(region: Region, perms: u8, pss: Option<u64>, rss: Option<u64>) -> MapRecord {
    MapRecord { region, perms, pss, rss }
}

fn file(path: &str) -> Region {
    Region::File(path.to_string())
}

#[test]
fn own_executable_text_counts_as_bin_text() {
    let exe = "/usr/bin/prog".to_string();
    let maps = vec![rec(file("/usr/bin/prog"), R | X | P, Some(8192), Some(8192))];
    let c = classify_maps(&maps, &exe).unwrap();
    let m = &c.memory;
    assert_eq!(m.bin_text_pss, 8192);
    assert_eq!(m.lib_text_pss, 0);
    assert_eq!(m.bin_data_pss, 0);
    assert_eq!(m.lib_data_pss, 0);
    assert_eq!(m.file_map.len(), 1);
    assert_eq!(m.file_map[0].path, "/usr/bin/prog");
    assert_eq!(m.file_map[0].perms, R | X | P);
    assert_eq!(m.file_map[0].pss, 8192);
    assert!(c.warnings.is_empty());
}

#[test]
fn file_mappings_split_four_ways() {
    let exe = "/usr/bin/prog".to_string();
    let maps = vec![
        rec(file("/usr/bin/prog"), R | X | P, Some(100), None),
        rec(file("/usr/bin/prog"), R | W | P, Some(20), None),
        rec(file("/lib/libc.so.6"), R | X | P, Some(3), None),
        rec(file("/lib/libc.so.6"), R | P, Some(4), None),
        rec(file("/lib/libc.so.6"), R | X | P, Some(5), None),
    ];
    let c = classify_maps(&maps, &exe).unwrap();
    let m = &c.memory;
    assert_eq!((m.bin_text_pss, m.bin_data_pss, m.lib_text_pss, m.lib_data_pss), (100, 20, 8, 4));
    assert_eq!(m.file_map.len(), 4);
    assert_eq!(m.file_map[2].path, "/lib/libc.so.6");
    assert_eq!(m.file_map[2].pss, 8);
    let detail: u64 = m.file_map.iter().map(|e| e.pss).sum();
    assert_eq!(detail, 132);
}

#[test]
fn scalar_regions_and_labels() {
    let exe = "/bin/x".to_string();
    let maps = vec![
        rec(Region::Heap, R | W | P, Some(1), None),
        rec(Region::Stack, R | W | P, Some(2), None),
        rec(Region::ThreadStack(77), R | W | P, Some(4), None),
        rec(Region::Anonymous, R | W | P, Some(8), None),
        rec(Region::Vdso, R | X | P, Some(16), None),
        rec(Region::Vvar, R | P, Some(32), None),
        rec(Region::Vsyscall, X, Some(64), None),
        rec(Region::SysvShm(5), R | W, Some(128), None),
        rec(Region::Other("[uprobes]".to_string()), R | X, Some(256), None),
        rec(Region::Other("[uprobes]".to_string()), R | X, Some(512), None),
        rec(Region::Heap, R | W | P, Some(1024), None),
    ];
    let c = classify_maps(&maps, &exe).unwrap();
    let m = &c.memory;
    assert_eq!(m.heap_pss, 1025);
    assert_eq!(m.stack_pss, 2);
    assert_eq!(m.thread_stack_pss, 4);
    assert_eq!(m.anon_map_pss, 8);
    assert_eq!(m.vdso_pss, 16);
    assert_eq!(m.vvar_pss, 32);
    assert_eq!(m.vsyscall_pss, 64);
    assert_eq!(m.vsys_pss, 128);
    assert_eq!(m.other_map.len(), 1);
    assert_eq!(m.other_map[0].label, "[uprobes]");
    assert_eq!(m.other_map[0].pss, 768);
}

#[test]
fn categories_add_up_to_total() {
    let exe = "/bin/x".to_string();
    let maps = vec![
        rec(file("/bin/x"), R | X, Some(10), None),
        rec(file("/lib/a.so"), R, Some(20), None),
        rec(Region::Heap, R | W, Some(30), None),
        rec(Region::Other("[foo]".to_string()), R, Some(40), None),
        rec(Region::Stack, R | W, None, Some(0)),
        rec(Region::Unrecognized, R, Some(999), Some(0)),
    ];
    let total = checked_total_pss(&maps).unwrap();
    assert_eq!(total, 100);
    let m = classify_maps(&maps, &exe).unwrap().memory;
    let scalars = m.bin_text_pss + m.bin_data_pss + m.lib_text_pss + m.lib_data_pss
        + m.heap_pss + m.stack_pss + m.thread_stack_pss + m.anon_map_pss + m.vdso_pss
        + m.vvar_pss + m.vsyscall_pss + m.vsys_pss;
    let labels: u64 = m.other_map.iter().map(|e| e.pss).sum();
    assert_eq!(scalars + labels, total);
    let detail: u64 = m.file_map.iter().map(|e| e.pss).sum();
    assert_eq!(detail, m.bin_text_pss + m.bin_data_pss + m.lib_text_pss + m.lib_data_pss);
}

#[test]
fn pss_resolution() {
    assert_eq!(resolve_pss(Some(5), Some(9)), PssValue::Reported(5));
    assert_eq!(resolve_pss(Some(0), None), PssValue::Reported(0));
    assert_eq!(resolve_pss(None, Some(0)), PssValue::AssumedZero(MapWarningKind::PssMissingRssZero));
    assert_eq!(resolve_pss(None, None), PssValue::AssumedZero(MapWarningKind::PssAndRssMissing));
    assert_eq!(resolve_pss(None, Some(4096)), PssValue::Unaccounted);
}

#[test]
fn missing_pss_with_zero_rss_is_zero_and_one_warning() {
    let exe = "/bin/x".to_string();
    for rss in [Some(0), None] {
        let maps = vec![rec(Region::Anonymous, R | W, None, rss)];
        let c = classify_maps(&maps, &exe).unwrap();
        assert_eq!(c.memory.anon_map_pss, 0);
        assert_eq!(c.warnings.len(), 1);
        assert_eq!(c.warnings[0].index, 0);
    }
}

#[test]
fn missing_pss_with_resident_memory_is_fatal() {
    let exe = "/bin/x".to_string();
    let maps = vec![
        rec(Region::Heap, R | W, Some(1), None),
        rec(Region::Stack, R | W, None, Some(4096)),
        rec(Region::Unrecognized, R, None, Some(8192)),
    ];
    let r = classify_maps(&maps, &exe);
    assert!(matches!(r, Err(ClassifyError::UnaccountedResident { index: 1 })));
}

#[test]
fn unrecognized_regions() {
    let exe = "/bin/x".to_string();
    let maps = vec![
        rec(Region::Unrecognized, R, Some(3), Some(0)),
        rec(Region::Unrecognized, R, Some(3), None),
        rec(Region::Heap, R | W, None, None),
    ];
    let c = classify_maps(&maps, &exe).unwrap();
    assert_eq!(
        c.warnings,
        vec![
            MapWarning { index: 0, kind: MapWarningKind::UnclassifiedRssZero },
            MapWarning { index: 1, kind: MapWarningKind::UnclassifiedNoRss },
            MapWarning { index: 2, kind: MapWarningKind::PssAndRssMissing },
        ]
    );
    assert_eq!(c.memory.heap_pss, 0);
    let r = classify_maps(&vec![rec(Region::Unrecognized, R, Some(0), Some(1))], &exe);
    assert!(matches!(r, Err(ClassifyError::UnaccountedResident { index: 0 })));
}

#[test]
fn total_that_does_not_fit() {
    let maps = vec![
        rec(Region::Heap, R, Some(u64::MAX), None),
        rec(Region::Stack, R, Some(1), None),
    ];
    assert_eq!(checked_total_pss(&maps), None);
    let fits = vec![rec(Region::Heap, R, Some(u64::MAX - 1), None), rec(Region::Stack, R, Some(1), None)];
    assert_eq!(checked_total_pss(&fits), Some(u64::MAX));
}

fn sample(stack: u64, files: &[(&str, u8, u64)], labels: &[(&str, u64)]) -> MemoryExt {
    let mut m = MemoryExt::new();
    m.stack_pss = stack;
    m.vsyscall_pss = stack * 2;
    m.vvar_pss = stack * 3;
    for (p, perms, v) in files {
        m.file_map.push(FileEntry { path: p.to_string(), perms: *perms, pss: *v });
    }
    for (l, v) in labels {
        m.other_map.push(LabelEntry { label: l.to_string(), pss: *v });
    }
    m
}

fn file_amount(m: &MemoryExt, path: &str, perms: u8) -> u64 {
    m.file_map.iter().filter(|e| e.path == path && e.perms == perms).map(|e| e.pss).sum()
}

fn label_amount(m: &MemoryExt, label: &str) -> u64 {
    m.other_map.iter().filter(|e| e.label == label).map(|e| e.pss).sum()
}

#[test]
fn combining_adds_pointwise() {
    let a = sample(1, &[("/a", R, 10), ("/b", R | X, 20)], &[("[x]", 5)]);
    let b = sample(2, &[("/b", R | X, 1), ("/a", R | W, 2)], &[("[y]", 7), ("[x]", 1)]);
    let c = a.add(&b);
    assert_eq!(c.stack_pss, 3);
    assert_eq!(c.vsyscall_pss, 6);
    assert_eq!(c.vvar_pss, 9);
    assert_eq!(c.file_map.len(), 3);
    assert_eq!(file_amount(&c, "/a", R), 10);
    assert_eq!(file_amount(&c, "/b", R | X), 21);
    assert_eq!(file_amount(&c, "/a", R | W), 2);
    assert_eq!(label_amount(&c, "[x]"), 6);
    assert_eq!(label_amount(&c, "[y]"), 7);
}

#[test]
fn combining_is_commutative_and_associative() {
    let a = || sample(1, &[("/a", R, 10)], &[("[x]", 5)]);
    let b = || sample(2, &[("/b", R, 1), ("/a", R, 2)], &[("[x]", 1)]);
    let c = || sample(4, &[("/c", X, 3)], &[("[y]", 9)]);
    let ab = a().add(&b());
    let ba = b().add(&a());
    let ab_c = a().add(&b()).add(&c());
    let a_bc = a().add(&b().add(&c()));
    for (l, r) in [(&ab, &ba), (&ab_c, &a_bc)] {
        assert_eq!(l.stack_pss, r.stack_pss);
        for (p, perms) in [("/a", R), ("/b", R), ("/c", X)] {
            assert_eq!(file_amount(l, p, perms), file_amount(r, p, perms));
        }
        for label in ["[x]", "[y]"] {
            assert_eq!(label_amount(l, label), label_amount(r, label));
        }
    }
    assert_eq!(file_amount(&ab_c, "/a", R), 12);
    assert_eq!(ab_c.stack_pss, 7);
}
