//! Turning selected processes and what was read of them into listings.
use crate::classify::{
    Classified, MapRecord, MapWarning, MemoryExt, MemoryView, checked_total_pss, classify_maps,
    classify_spec, total_pss, warnings_spec,
};
use crate::filter::{Filtered, ReadError, filter_errors, filter_spec};
use crate::tree::ProcNode;
use vstd::prelude::*;

verus! {

/// The memory listing of one process.
pub struct ProcListing {
    pub pid: i32,
    pub ppid: i32,
    pub cmdline: String,
    pub memory_ext: MemoryExt,
}

pub ghost struct ListingView {
    pub pid: i32,
    pub ppid: i32,
    pub cmdline: Seq<char>,
    pub memory: MemoryView,
}

impl View for ProcListing {
    type V = ListingView;

    open spec fn view(&self) -> ListingView {
        ListingView {
            pid: self.pid,
            ppid: self.ppid,
            cmdline: self.cmdline@,
            memory: self.memory_ext@,
        }
    }
}

/// What was read of one process: its mapping table and its executable's path.
#[derive(Debug)]
pub struct ProcessRead {
    pub maps: Result<Vec<MapRecord>, ReadError>,
    pub exe: Result<String, ReadError>,
}

/// A recoverable condition met while listing processes.
#[derive(Clone, Debug)]
pub enum SmapsWarning {
    /// The process's details vanished, most likely as it exited; it is left out.
    Vanished { pid: i32, path: Option<String> },
    /// A mapping of the process needed a fallback or was dropped.
    Mapping { pid: i32, warning: MapWarning },
}

/// A condition that ends the whole refresh.
#[derive(Clone, Debug)]
pub enum CycleError {
    /// Reading the process's details failed in a way the policy makes fatal.
    Read { pid: i32, error: ReadError },
    /// The mapping at `index` holds resident memory that cannot be accounted for.
    Unaccounted { pid: i32, index: usize },
    /// The process's total proportional size does not fit in a `u64`.
    TooLarge { pid: i32 },
}

/// The listings of the processes that were kept, and the warnings, in order.
pub struct SmapsReport {
    pub listings: Vec<ProcListing>,
    pub warnings: Vec<SmapsWarning>,
}

/// What becomes of one process.
pub enum ProcessResult {
    Listed(Classified),
    /// Left out; with the vanished path if a warning is due.
    Skipped(Option<Option<String>>),
    Failed(CycleError),
}

pub ghost enum ProcessOutcome {
    Listed(MemoryView, Seq<MapWarning>),
    Skipped(Option<Option<String>>),
    Failed(CycleError),
}

/// What becomes of the process `pid` given what was read of it: the mapping
/// table is filtered first, then the executable path; then the table is
/// classified.
pub open spec fn process_outcome(pid: i32, read: ProcessRead, fail_on_noperm: bool) -> ProcessOutcome {
    match filter_spec(read.maps, fail_on_noperm) {
        Filtered::Fatal(e) => ProcessOutcome::Failed(CycleError::Read { pid, error: e }),
        Filtered::Skip => ProcessOutcome::Skipped(None),
        Filtered::SkipWithWarning(p) => ProcessOutcome::Skipped(Some(p)),
        Filtered::Proceed(maps) => match filter_spec(read.exe, fail_on_noperm) {
            Filtered::Fatal(e) => ProcessOutcome::Failed(CycleError::Read { pid, error: e }),
            Filtered::Skip => ProcessOutcome::Skipped(None),
            Filtered::SkipWithWarning(p) => ProcessOutcome::Skipped(Some(p)),
            Filtered::Proceed(exe) => if total_pss(maps@) > u64::MAX {
                ProcessOutcome::Failed(CycleError::TooLarge { pid })
            } else {
                match classify_spec(maps@, exe@) {
                    Ok(v) => ProcessOutcome::Listed(v, warnings_spec(maps@)),
                    Err(i) => ProcessOutcome::Failed(CycleError::Unaccounted { pid, index: i as usize }),
                }
            },
        },
    }
}

pub open spec fn result_matches(r: ProcessResult, o: ProcessOutcome) -> bool {
    match r {
        ProcessResult::Listed(c) => o == ProcessOutcome::Listed(c.memory@, c.warnings@),
        ProcessResult::Skipped(w) => o == ProcessOutcome::Skipped(w),
        ProcessResult::Failed(e) => o == ProcessOutcome::Failed(e),
    }
}

pub open spec fn map_warnings_of(pid: i32, ws: Seq<MapWarning>) -> Seq<SmapsWarning> {
    ws.map_values(|w: MapWarning| SmapsWarning::Mapping { pid, warning: w })
}

/// The listings and warnings of the first `n` processes, or the first fatal
/// condition among them.
pub open spec fn smaps_upto(
    nodes: Seq<ProcNode>,
    reads: Seq<ProcessRead>,
    fail_on_noperm: bool,
    n: nat,
) -> Result<(Seq<ListingView>, Seq<SmapsWarning>), CycleError>
    decreases n,
{
    if n == 0 {
        Ok((Seq::empty(), Seq::empty()))
    } else {
        match smaps_upto(nodes, reads, fail_on_noperm, (n - 1) as nat) {
            Err(e) => Err(e),
            Ok((ls, ws)) => {
                let node = nodes[n - 1];
                match process_outcome(node.pid, reads[n - 1], fail_on_noperm) {
                    ProcessOutcome::Failed(e) => Err(e),
                    ProcessOutcome::Skipped(None) => Ok((ls, ws)),
                    ProcessOutcome::Skipped(Some(p)) => Ok(
                        (ls, ws.push(SmapsWarning::Vanished { pid: node.pid, path: p })),
                    ),
                    ProcessOutcome::Listed(v, mw) => Ok(
                        (
                            ls.push(
                                ListingView {
                                    pid: node.pid,
                                    ppid: node.ppid,
                                    cmdline: node.cmdline@,
                                    memory: v,
                                },
                            ),
                            ws + map_warnings_of(node.pid, mw),
                        ),
                    ),
                }
            },
        }
    }
}

proof fn lemma_smaps_fatal_sticks(
    nodes: Seq<ProcNode>,
    reads: Seq<ProcessRead>,
    f: bool,
    n: nat,
    m: nat,
)
    requires
        n <= m,
        smaps_upto(nodes, reads, f, n) is Err,
    ensures
        smaps_upto(nodes, reads, f, m) == smaps_upto(nodes, reads, f, n),
    decreases m,
{
    if n < m {
        lemma_smaps_fatal_sticks(nodes, reads, f, n, (m - 1) as nat);
    }
}

/// Decides what becomes of the process `pid` from what was read of it.
pub fn process_one(pid: i32, read: ProcessRead, fail_on_noperm: bool) -> (r: ProcessResult)
    ensures
        result_matches(r, process_outcome(pid, read, fail_on_noperm)),
{
    let ProcessRead { maps, exe } = read;
    let maps = match filter_errors(maps, fail_on_noperm) {
        Filtered::Proceed(m) => m,
        Filtered::Fatal(e) => {
            return ProcessResult::Failed(CycleError::Read { pid, error: e });
        },
        Filtered::Skip => {
            return ProcessResult::Skipped(None);
        },
        Filtered::SkipWithWarning(p) => {
            return ProcessResult::Skipped(Some(p));
        },
    };
    let exe = match filter_errors(exe, fail_on_noperm) {
        Filtered::Proceed(e) => e,
        Filtered::Fatal(e) => {
            return ProcessResult::Failed(CycleError::Read { pid, error: e });
        },
        Filtered::Skip => {
            return ProcessResult::Skipped(None);
        },
        Filtered::SkipWithWarning(p) => {
            return ProcessResult::Skipped(Some(p));
        },
    };
    if checked_total_pss(&maps).is_none() {
        return ProcessResult::Failed(CycleError::TooLarge { pid });
    }
    match classify_maps(&maps, &exe) {
        Ok(c) => ProcessResult::Listed(c),
        Err(crate::classify::ClassifyError::UnaccountedResident { index }) => ProcessResult::Failed(
            CycleError::Unaccounted { pid, index },
        ),
    }
}

/// Lists the selected processes, given what was read of each (`reads[i]` of
/// `processes[i]`). A process whose details are skipped by the error policy
/// is left out, with a warning if it vanished; the first fatal condition ends
/// the whole listing.
pub fn get_smaps(processes: Vec<ProcNode>, reads: Vec<ProcessRead>, fail_on_noperm: bool) -> (r:
    Result<SmapsReport, CycleError>)
    requires
        reads.len() == processes.len(),
    ensures
        match smaps_upto(processes@, reads@, fail_on_noperm, processes@.len()) {
            Ok((ls, ws)) => r matches Ok(rep) && rep.listings@.map_values(|l: ProcListing| l@)
                == ls && rep.warnings@ == ws,
            Err(e) => r == Err::<SmapsReport, CycleError>(e),
        },
{
    let ghost orig = reads@;
    let mut reads = reads;
    let n = processes.len();
    let mut listings: Vec<ProcListing> = Vec::new();
    let mut warnings: Vec<SmapsWarning> = Vec::new();
    let mut i: usize = 0;
    #[verifier::loop_isolation(false)]
    while i < n
        invariant
            n == processes.len(),
            reads.len() == n,
            orig.len() == n,
            i <= n,
            forall|k: int| i <= k < n ==> reads@[k] == orig[k],
            smaps_upto(processes@, orig, fail_on_noperm, i as nat) matches Ok((ls, ws))
                && listings@.map_values(|l: ProcListing| l@) == ls && warnings@ == ws,
        decreases n - i,
    {
        let mut read = ProcessRead { maps: Ok(Vec::new()), exe: Ok(String::new()) };
        std::mem::swap(&mut reads[i], &mut read);
        assert(read == orig[i as int]);
        let pid = processes[i].pid;
        let ghost prev_ls = listings@.map_values(|l: ProcListing| l@);
        let ghost prev_ws = warnings@;
        match process_one(pid, read, fail_on_noperm) {
            ProcessResult::Failed(e) => {
                assert(smaps_upto(processes@, orig, fail_on_noperm, (i + 1) as nat) == Err::<
                    (Seq<ListingView>, Seq<SmapsWarning>),
                    CycleError,
                >(e));
                proof {
                    lemma_smaps_fatal_sticks(processes@, orig, fail_on_noperm, (i + 1) as nat, n as nat);
                }
                return Err(e);
            },
            ProcessResult::Skipped(None) => {},
            ProcessResult::Skipped(Some(path)) => {
                warnings.push(SmapsWarning::Vanished { pid, path });
            },
            ProcessResult::Listed(c) => {
                let Classified { memory, warnings: map_warnings } = c;
                let ghost mw = map_warnings@;
                let mut k: usize = 0;
                while k < map_warnings.len()
                    invariant
                        k <= map_warnings.len(),
                        mw == map_warnings@,
                        warnings@ == prev_ws + map_warnings_of(pid, mw.take(k as int)),
                    decreases map_warnings.len() - k,
                {
                    warnings.push(SmapsWarning::Mapping { pid, warning: map_warnings[k] });
                    assert(map_warnings_of(pid, mw.take(k + 1)) =~= map_warnings_of(
                        pid,
                        mw.take(k as int),
                    ).push(SmapsWarning::Mapping { pid, warning: mw[k as int] }));
                    assert(warnings@ =~= prev_ws + map_warnings_of(pid, mw.take(k + 1)));
                    k += 1;
                }
                assert(mw.take(mw.len() as int) =~= mw);
                listings.push(
                    ProcListing {
                        pid,
                        ppid: processes[i].ppid,
                        cmdline: processes[i].cmdline.clone(),
                        memory_ext: memory,
                    },
                );
                assert(listings@.map_values(|l: ProcListing| l@) =~= prev_ls.push(
                    listings@[listings@.len() - 1]@,
                ));
            },
        }
        i += 1;
    }
    Ok(SmapsReport { listings, warnings })
}

} // verus!
