//! Classification of one process's memory-mapping table into memory categories.
use vstd::prelude::*;

verus! {

/// Bit of a mapping's permission set that marks it executable.
pub const EXECUTE_BIT: u8 = 4;

/// What backs one memory mapping.
#[derive(Clone, Debug)]
pub enum Region {
    /// A file, by its path.
    File(String),
    Heap,
    Stack,
    /// The stack of the thread with this id.
    ThreadStack(u32),
    Anonymous,
    Vdso,
    Vvar,
    Vsyscall,
    /// A System V shared memory segment, by its key.
    SysvShm(i32),
    /// Another named pseudo-region, by its label.
    Other(String),
    /// A region this classifier does not know how to place.
    Unrecognized,
}

/// One record of a mapping table: its region, its permission bits, and the
/// proportional ("Pss") and resident ("Rss") sizes the kernel reported, if any.
#[derive(Clone, Debug)]
pub struct MapRecord {
    pub region: Region,
    pub perms: u8,
    pub pss: Option<u64>,
    pub rss: Option<u64>,
}

/// A recoverable oddity met while classifying a mapping.
#[derive(Clone, Copy, Debug, PartialEq, Eq, Structural)]
pub enum MapWarningKind {
    /// No proportional size, but a resident size of zero: taken as zero.
    PssMissingRssZero,
    /// Neither size reported: taken as zero.
    PssAndRssMissing,
    /// An unrecognized region whose resident size is zero: dropped.
    UnclassifiedRssZero,
    /// An unrecognized region with no resident size: dropped.
    UnclassifiedNoRss,
}

/// A warning about the mapping at `index` of the table.
#[derive(Clone, Copy, Debug, PartialEq, Eq, Structural)]
pub struct MapWarning {
    pub index: usize,
    pub kind: MapWarningKind,
}

/// The proportional size resolved for a mapping.
#[derive(Clone, Copy, Debug, PartialEq, Eq, Structural)]
pub enum PssValue {
    /// The kernel reported it.
    Reported(u64),
    /// Taken as zero, with the warning that says why.
    AssumedZero(MapWarningKind),
    /// Resident memory that cannot be accounted for.
    Unaccounted,
}

/// A fatal condition of classification.
#[derive(Clone, Copy, Debug, PartialEq, Eq, Structural)]
pub enum ClassifyError {
    /// The mapping at `index` holds resident memory that has no usable
    /// proportional size or no category.
    UnaccountedResident { index: usize },
}

/// One entry of the per-file accumulator, keyed by path and permissions.
#[derive(Clone, Debug)]
pub struct FileEntry {
    pub path: String,
    pub perms: u8,
    pub pss: u64,
}

/// One entry of the accumulator of other named regions, keyed by label.
#[derive(Clone, Debug)]
pub struct LabelEntry {
    pub label: String,
    pub pss: u64,
}

/// The memory categories of one process (or of several, combined).
#[derive(Clone, Debug)]
pub struct MemoryExt {
    pub stack_pss: u64,
    pub heap_pss: u64,
    pub thread_stack_pss: u64,
    pub file_map: Vec<FileEntry>,
    pub bin_text_pss: u64,
    pub lib_text_pss: u64,
    pub bin_data_pss: u64,
    pub lib_data_pss: u64,
    pub anon_map_pss: u64,
    pub vdso_pss: u64,
    pub vvar_pss: u64,
    pub vsyscall_pss: u64,
    pub vsys_pss: u64,
    pub other_map: Vec<LabelEntry>,
}

/// The categories as numbers, with each keyed accumulator as a sequence of
/// (key, value) pairs in the order in which the keys first appeared.
pub ghost struct MemoryView {
    pub stack: nat,
    pub heap: nat,
    pub thread_stack: nat,
    pub bin_text: nat,
    pub bin_data: nat,
    pub lib_text: nat,
    pub lib_data: nat,
    pub anon: nat,
    pub vdso: nat,
    pub vvar: nat,
    pub vsyscall: nat,
    pub sysv_shm: nat,
    pub file_map: Seq<((Seq<char>, u8), nat)>,
    pub other_map: Seq<(Seq<char>, nat)>,
}

/// The classification of a whole table: the categories and the warnings, in
/// table order.
pub struct Classified {
    pub memory: MemoryExt,
    pub warnings: Vec<MapWarning>,
}

pub open spec fn file_entries_view(s: Seq<FileEntry>) -> Seq<((Seq<char>, u8), nat)> {
    s.map_values(|e: FileEntry| ((e.path@, e.perms), e.pss as nat))
}

pub open spec fn label_entries_view(s: Seq<LabelEntry>) -> Seq<(Seq<char>, nat)> {
    s.map_values(|e: LabelEntry| (e.label@, e.pss as nat))
}

impl View for MemoryExt {
    type V = MemoryView;

    open spec fn view(&self) -> MemoryView {
        MemoryView {
            stack: self.stack_pss as nat,
            heap: self.heap_pss as nat,
            thread_stack: self.thread_stack_pss as nat,
            bin_text: self.bin_text_pss as nat,
            bin_data: self.bin_data_pss as nat,
            lib_text: self.lib_text_pss as nat,
            lib_data: self.lib_data_pss as nat,
            anon: self.anon_map_pss as nat,
            vdso: self.vdso_pss as nat,
            vvar: self.vvar_pss as nat,
            vsyscall: self.vsyscall_pss as nat,
            sysv_shm: self.vsys_pss as nat,
            file_map: file_entries_view(self.file_map@),
            other_map: label_entries_view(self.other_map@),
        }
    }
}

pub open spec fn empty_memory() -> MemoryView {
    MemoryView {
        stack: 0,
        heap: 0,
        thread_stack: 0,
        bin_text: 0,
        bin_data: 0,
        lib_text: 0,
        lib_data: 0,
        anon: 0,
        vdso: 0,
        vvar: 0,
        vsyscall: 0,
        sysv_shm: 0,
        file_map: Seq::empty(),
        other_map: Seq::empty(),
    }
}

/// `i` is the first position of key `k` in `s`.
pub open spec fn is_first_index<K>(s: Seq<(K, nat)>, k: K, i: int) -> bool {
    &&& 0 <= i < s.len()
    &&& s[i].0 == k
    &&& forall|j: int| 0 <= j < i ==> s[j].0 != k
}

/// The first position of key `k` in `s`, or -1 if it is absent.
pub open spec fn first_index<K>(s: Seq<(K, nat)>, k: K) -> int {
    if exists|i: int| is_first_index(s, k, i) {
        choose|i: int| is_first_index(s, k, i)
    } else {
        -1
    }
}

/// Adds `v` to the value of key `k`, appending the key if it is new.
pub open spec fn add_entry<K>(s: Seq<(K, nat)>, k: K, v: nat) -> Seq<(K, nat)> {
    let i = first_index(s, k);
    if i < 0 {
        s.push((k, v))
    } else {
        s.update(i, (k, s[i].1 + v))
    }
}

/// The sum of the values of a keyed accumulator.
pub open spec fn sum_values<K>(s: Seq<(K, nat)>) -> nat
    decreases s.len(),
{
    if s.len() == 0 {
        0
    } else {
        sum_values(s.drop_last()) + s.last().1
    }
}

pub open spec fn perms_executable(perms: u8) -> bool {
    perms & EXECUTE_BIT != 0
}

/// The resolution of a mapping's proportional size from the two reported sizes.
pub open spec fn pss_spec(pss: Option<u64>, rss: Option<u64>) -> PssValue {
    match pss {
        Some(v) => PssValue::Reported(v),
        None => match rss {
            Some(r) => if r == 0 {
                PssValue::AssumedZero(MapWarningKind::PssMissingRssZero)
            } else {
                PssValue::Unaccounted
            },
            None => PssValue::AssumedZero(MapWarningKind::PssAndRssMissing),
        },
    }
}

/// The mapping makes its whole table unaccountable.
pub open spec fn map_fatal(m: MapRecord) -> bool {
    match m.region {
        Region::Unrecognized => m.rss is Some && m.rss->0 != 0,
        _ => pss_spec(m.pss, m.rss) is Unaccounted,
    }
}

/// The proportional size the mapping contributes to its category.
pub open spec fn map_pss(m: MapRecord) -> nat {
    match m.region {
        Region::Unrecognized => 0,
        _ => match m.pss {
            Some(v) => v as nat,
            None => 0,
        },
    }
}

/// The warning that the mapping raises, if any.
pub open spec fn map_warning(m: MapRecord) -> Option<MapWarningKind> {
    match m.region {
        Region::Unrecognized => match m.rss {
            None => Some(MapWarningKind::UnclassifiedNoRss),
            Some(r) => if r == 0 {
                Some(MapWarningKind::UnclassifiedRssZero)
            } else {
                None
            },
        },
        _ => match pss_spec(m.pss, m.rss) {
            PssValue::AssumedZero(k) => Some(k),
            _ => None,
        },
    }
}

/// Adds one mapping to the categories.
pub open spec fn apply_map(acc: MemoryView, m: MapRecord, exe: Seq<char>) -> MemoryView {
    let p = map_pss(m);
    match m.region {
        Region::File(path) => {
            let a = MemoryView { file_map: add_entry(acc.file_map, (path@, m.perms), p), ..acc };
            if path@ == exe {
                if perms_executable(m.perms) {
                    MemoryView { bin_text: a.bin_text + p, ..a }
                } else {
                    MemoryView { bin_data: a.bin_data + p, ..a }
                }
            } else {
                if perms_executable(m.perms) {
                    MemoryView { lib_text: a.lib_text + p, ..a }
                } else {
                    MemoryView { lib_data: a.lib_data + p, ..a }
                }
            }
        },
        Region::Heap => MemoryView { heap: acc.heap + p, ..acc },
        Region::Stack => MemoryView { stack: acc.stack + p, ..acc },
        Region::ThreadStack(_) => MemoryView { thread_stack: acc.thread_stack + p, ..acc },
        Region::Anonymous => MemoryView { anon: acc.anon + p, ..acc },
        Region::Vdso => MemoryView { vdso: acc.vdso + p, ..acc },
        Region::Vvar => MemoryView { vvar: acc.vvar + p, ..acc },
        Region::Vsyscall => MemoryView { vsyscall: acc.vsyscall + p, ..acc },
        Region::SysvShm(_) => MemoryView { sysv_shm: acc.sysv_shm + p, ..acc },
        Region::Other(label) => MemoryView { other_map: add_entry(acc.other_map, label@, p), ..acc },
        Region::Unrecognized => acc,
    }
}

/// The categories of the first `n` mappings, or the index of the first
/// mapping among them that is fatal.
pub open spec fn classify_upto(maps: Seq<MapRecord>, exe: Seq<char>, n: nat) -> Result<MemoryView, int>
    decreases n,
{
    if n == 0 {
        Ok(empty_memory())
    } else {
        match classify_upto(maps, exe, (n - 1) as nat) {
            Err(i) => Err(i),
            Ok(acc) => if map_fatal(maps[n - 1]) {
                Err(n - 1)
            } else {
                Ok(apply_map(acc, maps[n - 1], exe))
            },
        }
    }
}

pub open spec fn classify_spec(maps: Seq<MapRecord>, exe: Seq<char>) -> Result<MemoryView, int> {
    classify_upto(maps, exe, maps.len())
}

/// The warnings of the first `n` mappings, in table order.
pub open spec fn warnings_upto(maps: Seq<MapRecord>, n: nat) -> Seq<MapWarning>
    decreases n,
{
    if n == 0 {
        Seq::empty()
    } else {
        let w = warnings_upto(maps, (n - 1) as nat);
        match map_warning(maps[n - 1]) {
            Some(k) => w.push(MapWarning { index: (n - 1) as usize, kind: k }),
            None => w,
        }
    }
}

pub open spec fn warnings_spec(maps: Seq<MapRecord>) -> Seq<MapWarning> {
    warnings_upto(maps, maps.len())
}

/// The proportional size of the first `n` mappings, as the classifier counts it.
pub open spec fn total_upto(maps: Seq<MapRecord>, n: nat) -> nat
    decreases n,
{
    if n == 0 {
        0
    } else {
        total_upto(maps, (n - 1) as nat) + map_pss(maps[n - 1])
    }
}

pub open spec fn total_pss(maps: Seq<MapRecord>) -> nat {
    total_upto(maps, maps.len())
}

/// The four text/data buckets, which split the file-backed mappings.
pub open spec fn bin_lib_sum(v: MemoryView) -> nat {
    v.bin_text + v.bin_data + v.lib_text + v.lib_data
}

/// Every category once: the scalars and the labelled regions. The per-file
/// accumulator is left out, as the four text/data buckets count the same memory.
pub open spec fn categorized_total(v: MemoryView) -> nat {
    v.stack + v.heap + v.thread_stack + bin_lib_sum(v) + v.anon + v.vdso + v.vvar + v.vsyscall
        + v.sysv_shm + sum_values(v.other_map)
}

proof fn lemma_first_index<K>(s: Seq<(K, nat)>, k: K, i: int)
    requires
        is_first_index(s, k, i),
    ensures
        first_index(s, k) == i,
{
    let c = choose|c: int| is_first_index(s, k, c);
    assert(is_first_index(s, k, c));
    if c < i {
        assert(s[c].0 != k);
    } else if c > i {
        assert(s[i].0 != k);
    }
}

proof fn lemma_no_index<K>(s: Seq<(K, nat)>, k: K)
    requires
        forall|j: int| 0 <= j < s.len() ==> s[j].0 != k,
    ensures
        first_index(s, k) == -1,
{
}

proof fn lemma_sum_update<K>(s: Seq<(K, nat)>, i: int, k: K, v: nat)
    requires
        0 <= i < s.len(),
    ensures
        sum_values(s.update(i, (k, s[i].1 + v))) == sum_values(s) + v,
    decreases s.len(),
{
    let t = s.update(i, (k, s[i].1 + v));
    if i == s.len() - 1 {
        assert(t.drop_last() =~= s.drop_last());
    } else {
        lemma_sum_update(s.drop_last(), i, k, v);
        assert(t.drop_last() =~= s.drop_last().update(i, (k, s[i].1 + v)));
    }
}

proof fn lemma_entry_le_sum<K>(s: Seq<(K, nat)>, i: int)
    requires
        0 <= i < s.len(),
    ensures
        s[i].1 <= sum_values(s),
    decreases s.len(),
{
    if i < s.len() - 1 {
        lemma_entry_le_sum(s.drop_last(), i);
    }
}

proof fn lemma_add_entry_sum<K>(s: Seq<(K, nat)>, k: K, v: nat)
    ensures
        sum_values(add_entry(s, k, v)) == sum_values(s) + v,
{
    let i = first_index(s, k);
    if i < 0 {
        assert(add_entry(s, k, v).drop_last() =~= s);
    } else {
        let c = choose|c: int| is_first_index(s, k, c);
        assert(is_first_index(s, k, c));
        lemma_sum_update(s, i, k, v);
    }
}

proof fn lemma_total_monotone(maps: Seq<MapRecord>, m: nat, n: nat)
    requires
        m <= n,
    ensures
        total_upto(maps, m) <= total_upto(maps, n),
    decreases n,
{
    if m < n {
        lemma_total_monotone(maps, m, (n - 1) as nat);
    }
}

proof fn lemma_fatal_sticks(maps: Seq<MapRecord>, exe: Seq<char>, n: nat, m: nat)
    requires
        n <= m,
        classify_upto(maps, exe, n) is Err,
    ensures
        classify_upto(maps, exe, m) == classify_upto(maps, exe, n),
    decreases m,
{
    if n < m {
        lemma_fatal_sticks(maps, exe, n, (m - 1) as nat);
    }
}

/// Over any prefix of a table that classifies without a fatal mapping, the
/// categories count each mapping's proportional size exactly once, and the
/// per-file accumulator holds exactly what the four text/data buckets hold.
pub proof fn lemma_classify_upto_totals(maps: Seq<MapRecord>, exe: Seq<char>, n: nat)
    requires
        n <= maps.len(),
        classify_upto(maps, exe, n) is Ok,
    ensures
        categorized_total(classify_upto(maps, exe, n)->Ok_0) == total_upto(maps, n),
        sum_values(classify_upto(maps, exe, n)->Ok_0.file_map) == bin_lib_sum(
            classify_upto(maps, exe, n)->Ok_0,
        ),
    decreases n,
{
    if n > 0 {
        lemma_classify_upto_totals(maps, exe, (n - 1) as nat);
        let acc = classify_upto(maps, exe, (n - 1) as nat)->Ok_0;
        let m = maps[n - 1];
        match m.region {
            Region::File(path) => {
                lemma_add_entry_sum(acc.file_map, (path@, m.perms), map_pss(m));
            },
            Region::Other(label) => {
                lemma_add_entry_sum(acc.other_map, label@, map_pss(m));
            },
            _ => {},
        }
    }
}

/// Classifier additivity: when a table classifies, its categories (scalars
/// and labelled regions) add up to the table's total proportional size, and
/// the per-file detail adds up to the four text/data buckets, so no mapping
/// is counted twice.
pub proof fn lemma_classify_additive(maps: Seq<MapRecord>, exe: Seq<char>)
    requires
        classify_spec(maps, exe) is Ok,
    ensures
        categorized_total(classify_spec(maps, exe)->Ok_0) == total_pss(maps),
        sum_values(classify_spec(maps, exe)->Ok_0.file_map) == bin_lib_sum(
            classify_spec(maps, exe)->Ok_0,
        ),
{
    lemma_classify_upto_totals(maps, exe, maps.len());
}

/// Resolves a mapping's proportional size from the sizes the kernel reported:
/// the proportional size if present; else zero, with a warning, when the
/// resident size is zero or absent; else the memory cannot be accounted for.
pub fn resolve_pss(pss: Option<u64>, rss: Option<u64>) -> (r: PssValue)
    ensures
        r == pss_spec(pss, rss),
        pss is Some ==> r == PssValue::Reported(pss->0),
        pss is None && rss == Some(0u64) ==> r == PssValue::AssumedZero(
            MapWarningKind::PssMissingRssZero,
        ),
        pss is None && rss is None ==> r == PssValue::AssumedZero(
            MapWarningKind::PssAndRssMissing,
        ),
        pss is None && rss is Some && rss->0 != 0 ==> r == PssValue::Unaccounted,
{
    match pss {
        Some(v) => PssValue::Reported(v),
        None => match rss {
            Some(r) => if r == 0 {
                PssValue::AssumedZero(MapWarningKind::PssMissingRssZero)
            } else {
                PssValue::Unaccounted
            },
            None => PssValue::AssumedZero(MapWarningKind::PssAndRssMissing),
        },
    }
}

impl MemoryExt {
    /// All categories zero, both accumulators empty.
    pub fn new() -> (r: MemoryExt)
        ensures
            r@ == empty_memory(),
    {
        let r = MemoryExt {
            stack_pss: 0,
            heap_pss: 0,
            thread_stack_pss: 0,
            file_map: Vec::new(),
            bin_text_pss: 0,
            lib_text_pss: 0,
            bin_data_pss: 0,
            lib_data_pss: 0,
            anon_map_pss: 0,
            vdso_pss: 0,
            vvar_pss: 0,
            vsyscall_pss: 0,
            vsys_pss: 0,
            other_map: Vec::new(),
        };
        assert(r@.file_map =~= Seq::<((Seq<char>, u8), nat)>::empty());
        assert(r@.other_map =~= Seq::<(Seq<char>, nat)>::empty());
        r
    }
}

/// Adds `pss` to the entry of (`path`, `perms`), appending it if it is new.
pub fn add_file_entry(entries: &mut Vec<FileEntry>, path: &String, perms: u8, pss: u64)
    requires
        sum_values(file_entries_view(old(entries)@)) + pss <= u64::MAX,
    ensures
        file_entries_view(final(entries)@) == add_entry(
            file_entries_view(old(entries)@),
            (path@, perms),
            pss as nat,
        ),
{
    let ghost s = file_entries_view(entries@);
    let ghost k = (path@, perms);
    let mut i: usize = 0;
    while i < entries.len()
        invariant
            i <= entries.len(),
            entries@ == old(entries)@,
            s == file_entries_view(entries@),
            k == (path@, perms),
            sum_values(s) + pss <= u64::MAX,
            forall|j: int| 0 <= j < i ==> s[j].0 != k,
        decreases entries.len() - i,
    {
        let ghost e = entries@[i as int];
        assert(s[i as int] == ((e.path@, e.perms), e.pss as nat));
        if entries[i].path == *path && entries[i].perms == perms {
            proof {
                lemma_first_index(s, k, i as int);
                lemma_entry_le_sum(s, i as int);
            }
            let old_pss = entries[i].pss;
            entries[i].pss = old_pss + pss;
            assert(file_entries_view(entries@) =~= s.update(i as int, (k, (s[i as int].1 + pss) as nat)));
            return;
        }
        i += 1;
    }
    proof {
        lemma_no_index(s, k);
    }
    entries.push(FileEntry { path: path.clone(), perms, pss });
    assert(file_entries_view(entries@) =~= s.push((k, pss as nat)));
}

/// Adds `pss` to the entry of `label`, appending it if it is new.
pub fn add_label_entry(entries: &mut Vec<LabelEntry>, label: &String, pss: u64)
    requires
        sum_values(label_entries_view(old(entries)@)) + pss <= u64::MAX,
    ensures
        label_entries_view(final(entries)@) == add_entry(
            label_entries_view(old(entries)@),
            label@,
            pss as nat,
        ),
{
    let ghost s = label_entries_view(entries@);
    let ghost k = label@;
    let mut i: usize = 0;
    while i < entries.len()
        invariant
            i <= entries.len(),
            entries@ == old(entries)@,
            s == label_entries_view(entries@),
            k == label@,
            sum_values(s) + pss <= u64::MAX,
            forall|j: int| 0 <= j < i ==> s[j].0 != k,
        decreases entries.len() - i,
    {
        assert(s[i as int] == (entries@[i as int].label@, entries@[i as int].pss as nat));
        if entries[i].label == *label {
            proof {
                lemma_first_index(s, k, i as int);
                lemma_entry_le_sum(s, i as int);
            }
            let old_pss = entries[i].pss;
            entries[i].pss = old_pss + pss;
            assert(label_entries_view(entries@) =~= s.update(i as int, (k, (s[i as int].1 + pss) as nat)));
            return;
        }
        i += 1;
    }
    proof {
        lemma_no_index(s, k);
    }
    entries.push(LabelEntry { label: label.clone(), pss });
    assert(label_entries_view(entries@) =~= s.push((k, pss as nat)));
}

/// The total proportional size the classifier would count for `maps`, or
/// `None` if it does not fit in a `u64`.
pub fn checked_total_pss(maps: &Vec<MapRecord>) -> (r: Option<u64>)
    ensures
        r is Some <==> total_pss(maps@) <= u64::MAX,
        r is Some ==> r->0 == total_pss(maps@),
{
    let mut total: u64 = 0;
    let mut i: usize = 0;
    while i < maps.len()
        invariant
            i <= maps.len(),
            total == total_upto(maps@, i as nat),
        decreases maps.len() - i,
    {
        let m = &maps[i];
        let p: u64 = match m.region {
            Region::Unrecognized => 0,
            _ => match m.pss {
                Some(v) => v,
                None => 0,
            },
        };
        if total > u64::MAX - p {
            proof {
                lemma_total_monotone(maps@, (i + 1) as nat, maps.len() as nat);
            }
            return None;
        }
        total = total + p;
        i += 1;
    }
    Some(total)
}

/// Classifies a process's mapping table, given the path of its executable.
/// Each mapping's proportional size goes to the category of its region; a
/// file-backed one also goes to the entry of its (path, permissions) and to
/// one of the four text/data buckets, by whether its path is the
/// executable's and whether it is executable. The first mapping whose
/// resident memory cannot be accounted for makes the whole table fail.
pub fn classify_maps(maps: &Vec<MapRecord>, exe: &String) -> (r: Result<Classified, ClassifyError>)
    requires
        total_pss(maps@) <= u64::MAX,
    ensures
        match classify_spec(maps@, exe@) {
            Ok(v) => r is Ok && r->Ok_0.memory@ == v && r->Ok_0.warnings@ == warnings_spec(maps@),
            Err(i) => r == Err::<Classified, ClassifyError>(
                ClassifyError::UnaccountedResident { index: i as usize },
            ),
        },
{
    let mut acc = MemoryExt::new();
    let mut warnings: Vec<MapWarning> = Vec::new();
    let mut i: usize = 0;
    while i < maps.len()
        invariant
            i <= maps.len(),
            total_pss(maps@) <= u64::MAX,
            classify_upto(maps@, exe@, i as nat) == Ok::<MemoryView, int>(acc@),
            warnings@ == warnings_upto(maps@, i as nat),
        decreases maps.len() - i,
    {
        proof {
            lemma_classify_upto_totals(maps@, exe@, i as nat);
            lemma_total_monotone(maps@, (i + 1) as nat, maps.len() as nat);
        }
        let m = &maps[i];
        let ghost before = acc@;
        let p: u64 = match m.region {
            Region::Unrecognized => {
                match m.rss {
                    None => {
                        warnings.push(MapWarning { index: i, kind: MapWarningKind::UnclassifiedNoRss });
                    },
                    Some(r) => {
                        if r != 0 {
                            proof {
                                lemma_fatal_sticks(maps@, exe@, (i + 1) as nat, maps.len() as nat);
                            }
                            return Err(ClassifyError::UnaccountedResident { index: i });
                        }
                        warnings.push(MapWarning { index: i, kind: MapWarningKind::UnclassifiedRssZero });
                    },
                }
                0
            },
            _ => match resolve_pss(m.pss, m.rss) {
                PssValue::Reported(v) => v,
                PssValue::AssumedZero(kind) => {
                    warnings.push(MapWarning { index: i, kind });
                    0
                },
                PssValue::Unaccounted => {
                    proof {
                        lemma_fatal_sticks(maps@, exe@, (i + 1) as nat, maps.len() as nat);
                    }
                    return Err(ClassifyError::UnaccountedResident { index: i });
                },
            },
        };
        assert(p == map_pss(maps@[i as int]));
        match &m.region {
            Region::File(path) => {
                add_file_entry(&mut acc.file_map, path, m.perms, p);
                let is_self = *path == *exe;
                let is_x = m.perms & EXECUTE_BIT != 0;
                if is_self {
                    if is_x {
                        acc.bin_text_pss = acc.bin_text_pss + p;
                    } else {
                        acc.bin_data_pss = acc.bin_data_pss + p;
                    }
                } else {
                    if is_x {
                        acc.lib_text_pss = acc.lib_text_pss + p;
                    } else {
                        acc.lib_data_pss = acc.lib_data_pss + p;
                    }
                }
            },
            Region::Heap => {
                acc.heap_pss = acc.heap_pss + p;
            },
            Region::Stack => {
                acc.stack_pss = acc.stack_pss + p;
            },
            Region::ThreadStack(_) => {
                acc.thread_stack_pss = acc.thread_stack_pss + p;
            },
            Region::Anonymous => {
                acc.anon_map_pss = acc.anon_map_pss + p;
            },
            Region::Vdso => {
                acc.vdso_pss = acc.vdso_pss + p;
            },
            Region::Vvar => {
                acc.vvar_pss = acc.vvar_pss + p;
            },
            Region::Vsyscall => {
                acc.vsyscall_pss = acc.vsyscall_pss + p;
            },
            Region::SysvShm(_) => {
                acc.vsys_pss = acc.vsys_pss + p;
            },
            Region::Other(label) => {
                add_label_entry(&mut acc.other_map, label, p);
            },
            Region::Unrecognized => {},
        }
        assert(acc@ == apply_map(before, maps@[i as int], exe@));
        i += 1;
    }
    Ok(Classified { memory: acc, warnings })
}

/// The sum of the values of key `k` in a keyed accumulator.
pub open spec fn value_of<K>(s: Seq<(K, nat)>, k: K) -> nat
    decreases s.len(),
{
    if s.len() == 0 {
        0
    } else {
        value_of(s.drop_last(), k) + if s.last().0 == k {
            s.last().1
        } else {
            0nat
        }
    }
}

/// `a` with every entry of the first `n` of `b` added to it.
pub open spec fn merge_upto<K>(a: Seq<(K, nat)>, b: Seq<(K, nat)>, n: nat) -> Seq<(K, nat)>
    decreases n,
{
    if n == 0 {
        a
    } else {
        add_entry(merge_upto(a, b, (n - 1) as nat), b[n - 1].0, b[n - 1].1)
    }
}

pub open spec fn merge_entries<K>(a: Seq<(K, nat)>, b: Seq<(K, nat)>) -> Seq<(K, nat)> {
    merge_upto(a, b, b.len())
}

/// Two sets of categories combined: scalars added, accumulators merged key by key.
pub open spec fn combine(a: MemoryView, b: MemoryView) -> MemoryView {
    MemoryView {
        stack: a.stack + b.stack,
        heap: a.heap + b.heap,
        thread_stack: a.thread_stack + b.thread_stack,
        bin_text: a.bin_text + b.bin_text,
        bin_data: a.bin_data + b.bin_data,
        lib_text: a.lib_text + b.lib_text,
        lib_data: a.lib_data + b.lib_data,
        anon: a.anon + b.anon,
        vdso: a.vdso + b.vdso,
        vvar: a.vvar + b.vvar,
        vsyscall: a.vsyscall + b.vsyscall,
        sysv_shm: a.sysv_shm + b.sysv_shm,
        file_map: merge_entries(a.file_map, b.file_map),
        other_map: merge_entries(a.other_map, b.other_map),
    }
}

/// Every sum that combining `a` and `b` makes fits in a `u64`.
pub open spec fn combinable(a: MemoryView, b: MemoryView) -> bool {
    &&& a.stack + b.stack <= u64::MAX
    &&& a.heap + b.heap <= u64::MAX
    &&& a.thread_stack + b.thread_stack <= u64::MAX
    &&& a.bin_text + b.bin_text <= u64::MAX
    &&& a.bin_data + b.bin_data <= u64::MAX
    &&& a.lib_text + b.lib_text <= u64::MAX
    &&& a.lib_data + b.lib_data <= u64::MAX
    &&& a.anon + b.anon <= u64::MAX
    &&& a.vdso + b.vdso <= u64::MAX
    &&& a.vvar + b.vvar <= u64::MAX
    &&& a.vsyscall + b.vsyscall <= u64::MAX
    &&& a.sysv_shm + b.sysv_shm <= u64::MAX
    &&& sum_values(a.file_map) + sum_values(b.file_map) <= u64::MAX
    &&& sum_values(a.other_map) + sum_values(b.other_map) <= u64::MAX
}

/// The two hold the same amounts: equal scalars, and the same total for
/// every key of each accumulator (whatever the order of the keys).
pub open spec fn same_amounts(a: MemoryView, b: MemoryView) -> bool {
    &&& a.stack == b.stack
    &&& a.heap == b.heap
    &&& a.thread_stack == b.thread_stack
    &&& a.bin_text == b.bin_text
    &&& a.bin_data == b.bin_data
    &&& a.lib_text == b.lib_text
    &&& a.lib_data == b.lib_data
    &&& a.anon == b.anon
    &&& a.vdso == b.vdso
    &&& a.vvar == b.vvar
    &&& a.vsyscall == b.vsyscall
    &&& a.sysv_shm == b.sysv_shm
    &&& forall|k: (Seq<char>, u8)| value_of(a.file_map, k) == value_of(b.file_map, k)
    &&& forall|k: Seq<char>| value_of(a.other_map, k) == value_of(b.other_map, k)
}

proof fn lemma_value_of_update<K>(s: Seq<(K, nat)>, i: int, v: nat, k2: K)
    requires
        0 <= i < s.len(),
    ensures
        value_of(s.update(i, (s[i].0, s[i].1 + v)), k2) == value_of(s, k2) + if s[i].0 == k2 {
            v
        } else {
            0nat
        },
    decreases s.len(),
{
    let t = s.update(i, (s[i].0, s[i].1 + v));
    if i == s.len() - 1 {
        assert(t.drop_last() =~= s.drop_last());
    } else {
        lemma_value_of_update(s.drop_last(), i, v, k2);
        assert(t.drop_last() =~= s.drop_last().update(i, (s[i].0, s[i].1 + v)));
    }
}

proof fn lemma_value_of_add_entry<K>(s: Seq<(K, nat)>, k: K, v: nat, k2: K)
    ensures
        value_of(add_entry(s, k, v), k2) == value_of(s, k2) + if k == k2 {
            v
        } else {
            0nat
        },
{
    let i = first_index(s, k);
    if i < 0 {
        assert(add_entry(s, k, v).drop_last() =~= s);
    } else {
        let c = choose|c: int| is_first_index(s, k, c);
        assert(is_first_index(s, k, c));
        lemma_value_of_update(s, i, v, k2);
    }
}

proof fn lemma_value_of_merge_upto<K>(a: Seq<(K, nat)>, b: Seq<(K, nat)>, n: nat, k: K)
    requires
        n <= b.len(),
    ensures
        value_of(merge_upto(a, b, n), k) == value_of(a, k) + value_of(b.take(n as int), k),
        sum_values(merge_upto(a, b, n)) == sum_values(a) + sum_values(b.take(n as int)),
    decreases n,
{
    if n > 0 {
        lemma_value_of_merge_upto(a, b, (n - 1) as nat, k);
        lemma_value_of_add_entry(merge_upto(a, b, (n - 1) as nat), b[n - 1].0, b[n - 1].1, k);
        lemma_add_entry_sum(merge_upto(a, b, (n - 1) as nat), b[n - 1].0, b[n - 1].1);
        assert(b.take(n as int).drop_last() =~= b.take(n - 1));
    }
}

/// Merging accumulators adds their amounts key by key.
pub proof fn lemma_value_of_merge<K>(a: Seq<(K, nat)>, b: Seq<(K, nat)>, k: K)
    ensures
        value_of(merge_entries(a, b), k) == value_of(a, k) + value_of(b, k),
        sum_values(merge_entries(a, b)) == sum_values(a) + sum_values(b),
{
    lemma_value_of_merge_upto(a, b, b.len(), k);
    assert(b.take(b.len() as int) =~= b);
}

/// Combining categories is commutative, as to the amounts they hold.
pub proof fn lemma_combine_commutative(a: MemoryView, b: MemoryView)
    ensures
        same_amounts(combine(a, b), combine(b, a)),
{
    assert forall|k: (Seq<char>, u8)|
        value_of(combine(a, b).file_map, k) == value_of(combine(b, a).file_map, k) by {
        lemma_value_of_merge(a.file_map, b.file_map, k);
        lemma_value_of_merge(b.file_map, a.file_map, k);
    }
    assert forall|k: Seq<char>|
        value_of(combine(a, b).other_map, k) == value_of(combine(b, a).other_map, k) by {
        lemma_value_of_merge(a.other_map, b.other_map, k);
        lemma_value_of_merge(b.other_map, a.other_map, k);
    }
}

/// Combining categories is associative, as to the amounts they hold.
pub proof fn lemma_combine_associative(a: MemoryView, b: MemoryView, c: MemoryView)
    ensures
        same_amounts(combine(combine(a, b), c), combine(a, combine(b, c))),
{
    assert forall|k: (Seq<char>, u8)|
        value_of(combine(combine(a, b), c).file_map, k) == value_of(
            combine(a, combine(b, c)).file_map,
            k,
        ) by {
        lemma_value_of_merge(merge_entries(a.file_map, b.file_map), c.file_map, k);
        lemma_value_of_merge(a.file_map, b.file_map, k);
        lemma_value_of_merge(a.file_map, merge_entries(b.file_map, c.file_map), k);
        lemma_value_of_merge(b.file_map, c.file_map, k);
    }
    assert forall|k: Seq<char>|
        value_of(combine(combine(a, b), c).other_map, k) == value_of(
            combine(a, combine(b, c)).other_map,
            k,
        ) by {
        lemma_value_of_merge(merge_entries(a.other_map, b.other_map), c.other_map, k);
        lemma_value_of_merge(a.other_map, b.other_map, k);
        lemma_value_of_merge(a.other_map, merge_entries(b.other_map, c.other_map), k);
        lemma_value_of_merge(b.other_map, c.other_map, k);
    }
}

impl MemoryExt {
    /// The categories of `self` and `rhs` together: each scalar summed, and
    /// the entries of `rhs`'s accumulators added to `self`'s key by key.
    pub fn add(self, rhs: &MemoryExt) -> (r: MemoryExt)
        requires
            combinable(self@, rhs@),
        ensures
            r@ == combine(self@, rhs@),
    {
        let ghost a = self@;
        let MemoryExt {
            stack_pss,
            heap_pss,
            thread_stack_pss,
            mut file_map,
            bin_text_pss,
            lib_text_pss,
            bin_data_pss,
            lib_data_pss,
            anon_map_pss,
            vdso_pss,
            vvar_pss,
            vsyscall_pss,
            vsys_pss,
            mut other_map,
        } = self;
        let ghost bf = file_entries_view(rhs.file_map@);
        let mut i: usize = 0;
        #[verifier::loop_isolation(false)]
        while i < rhs.file_map.len()
            invariant
                i <= rhs.file_map.len(),
                bf == file_entries_view(rhs.file_map@),
                sum_values(a.file_map) + sum_values(bf) <= u64::MAX,
                file_entries_view(file_map@) == merge_upto(a.file_map, bf, i as nat),
            decreases rhs.file_map.len() - i,
        {
            proof {
                lemma_value_of_merge_upto(a.file_map, bf, i as nat, (Seq::<char>::empty(), 0u8));
                lemma_sum_prefix_le(bf, (i + 1) as nat);
            }
            let e = &rhs.file_map[i];
            add_file_entry(&mut file_map, &e.path, e.perms, e.pss);
            i += 1;
        }
        let ghost bo = label_entries_view(rhs.other_map@);
        let mut i: usize = 0;
        #[verifier::loop_isolation(false)]
        while i < rhs.other_map.len()
            invariant
                i <= rhs.other_map.len(),
                bo == label_entries_view(rhs.other_map@),
                sum_values(a.other_map) + sum_values(bo) <= u64::MAX,
                label_entries_view(other_map@) == merge_upto(a.other_map, bo, i as nat),
            decreases rhs.other_map.len() - i,
        {
            proof {
                lemma_value_of_merge_upto(a.other_map, bo, i as nat, Seq::<char>::empty());
                lemma_sum_prefix_le(bo, (i + 1) as nat);
            }
            let e = &rhs.other_map[i];
            add_label_entry(&mut other_map, &e.label, e.pss);
            i += 1;
        }
        assert(bf.take(bf.len() as int) =~= bf);
        assert(bo.take(bo.len() as int) =~= bo);
        MemoryExt {
            stack_pss: stack_pss + rhs.stack_pss,
            heap_pss: heap_pss + rhs.heap_pss,
            thread_stack_pss: thread_stack_pss + rhs.thread_stack_pss,
            file_map,
            bin_text_pss: bin_text_pss + rhs.bin_text_pss,
            lib_text_pss: lib_text_pss + rhs.lib_text_pss,
            bin_data_pss: bin_data_pss + rhs.bin_data_pss,
            lib_data_pss: lib_data_pss + rhs.lib_data_pss,
            anon_map_pss: anon_map_pss + rhs.anon_map_pss,
            vdso_pss: vdso_pss + rhs.vdso_pss,
            vvar_pss: vvar_pss + rhs.vvar_pss,
            vsyscall_pss: vsyscall_pss + rhs.vsyscall_pss,
            vsys_pss: vsys_pss + rhs.vsys_pss,
            other_map,
        }
    }
}

proof fn lemma_sum_prefix_le<K>(s: Seq<(K, nat)>, n: nat)
    requires
        n <= s.len(),
    ensures
        sum_values(s.take(n as int)) <= sum_values(s),
        sum_values(s.take(n as int)) == sum_values(s.take(n as int - 1)) + s[n - 1].1 || n == 0,
    decreases s.len() - n,
{
    if n < s.len() {
        lemma_sum_prefix_le(s, n + 1);
        assert(s.take(n as int + 1).drop_last() =~= s.take(n as int));
    } else {
        assert(s.take(n as int) =~= s);
    }
    if n > 0 {
        assert(s.take(n as int).drop_last() =~= s.take(n - 1));
    }
}

/// The fallback for a mapping without a proportional size is determined by
/// its resident size: zero or absent gives a table that classifies to zero
/// with exactly one warning; non-zero makes the table fail at that mapping.
pub proof fn lemma_pss_fallback(m: MapRecord, exe: Seq<char>)
    requires
        !(m.region is Unrecognized),
        m.pss is None,
    ensures
        (m.rss is None || m.rss == Some(0u64)) ==> {
            &&& classify_spec(seq![m], exe) is Ok
            &&& categorized_total(classify_spec(seq![m], exe)->Ok_0) == 0
            &&& warnings_spec(seq![m]).len() == 1
        },
        (m.rss is Some && m.rss->0 != 0) ==> classify_spec(seq![m], exe) == Err::<MemoryView, int>(
            0,
        ),
{
    let t = seq![m];
    assert(t[0] == m);
    assert(t.len() == 1);
    assert(classify_upto(t, exe, 0) == Ok::<MemoryView, int>(empty_memory()));
    assert(warnings_upto(t, 0).len() == 0);
    assert(classify_spec(t, exe) == classify_upto(t, exe, 1));
    assert(warnings_spec(t) == warnings_upto(t, 1));
    if !map_fatal(m) {
        lemma_classify_additive(t, exe);
        assert(total_upto(t, 0) == 0);
        assert(total_pss(t) == 0);
    }
}

} // verus!
