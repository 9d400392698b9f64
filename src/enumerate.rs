//! Turning what was read of each live process into unlinked tree nodes.
use crate::filter::{Filtered, ReadError, filter_errors, filter_spec};
use crate::tree::ProcNode;
use vstd::prelude::*;

verus! {

/// What identifies a process: its pid, its parent's pid and its command line.
#[derive(Debug)]
pub struct Identity {
    pub pid: i32,
    pub ppid: i32,
    pub cmdline: String,
}

/// The nodes of a snapshot, in the order the processes were listed, and the
/// path of each process that vanished while it was read.
pub struct Enumerated {
    pub nodes: Vec<ProcNode>,
    pub vanished: Vec<Option<String>>,
}

/// The nodes (as pid, parent pid and command line) and the vanished paths
/// from the first `n` reads, or the first fatal failure among them.
pub open spec fn enumerate_upto(
    reads: Seq<Result<Identity, ReadError>>,
    me: i32,
    include_self: bool,
    fail_on_noperm: bool,
    n: nat,
) -> Result<(Seq<(i32, i32, Seq<char>)>, Seq<Option<String>>), ReadError>
    decreases n,
{
    if n == 0 {
        Ok((Seq::empty(), Seq::empty()))
    } else {
        match enumerate_upto(reads, me, include_self, fail_on_noperm, (n - 1) as nat) {
            Err(e) => Err(e),
            Ok((ns, vs)) => match filter_spec(reads[n - 1], fail_on_noperm) {
                Filtered::Proceed(id) => if !include_self && id.pid == me {
                    Ok((ns, vs))
                } else {
                    Ok((ns.push((id.pid, id.ppid, id.cmdline@)), vs))
                },
                Filtered::Fatal(e) => Err(e),
                Filtered::Skip => Ok((ns, vs)),
                Filtered::SkipWithWarning(p) => Ok((ns, vs.push(p))),
            },
        }
    }
}

pub open spec fn node_identity(n: ProcNode) -> (i32, i32, Seq<char>) {
    (n.pid, n.ppid, n.cmdline@)
}

proof fn lemma_enumerate_fatal_sticks(
    reads: Seq<Result<Identity, ReadError>>,
    me: i32,
    include_self: bool,
    f: bool,
    n: nat,
    m: nat,
)
    requires
        n <= m,
        enumerate_upto(reads, me, include_self, f, n) is Err,
    ensures
        enumerate_upto(reads, me, include_self, f, m) == enumerate_upto(
            reads,
            me,
            include_self,
            f,
            n,
        ),
    decreases m,
{
    if n < m {
        lemma_enumerate_fatal_sticks(reads, me, include_self, f, n, (m - 1) as nat);
    }
}

/// Builds a snapshot's nodes, without children, from what was read of each
/// live process, in order. Each failed read goes through the error filter: a
/// skipped process is left out (its path noted if it vanished) and a fatal
/// failure ends the enumeration. The process `me` is left out unless
/// `include_self` is set.
pub fn collect_nodes(
    reads: Vec<Result<Identity, ReadError>>,
    me: i32,
    include_self: bool,
    fail_on_noperm: bool,
) -> (r: Result<Enumerated, ReadError>)
    ensures
        match enumerate_upto(reads@, me, include_self, fail_on_noperm, reads@.len()) {
            Ok((ns, vs)) => r matches Ok(e) && e.nodes@.map_values(|n: ProcNode| node_identity(n))
                == ns && e.vanished@ == vs && forall|j: int|
                0 <= j < e.nodes@.len() ==> (#[trigger] e.nodes@[j]).children@.len() == 0,
            Err(e) => r == Err::<Enumerated, ReadError>(e),
        },
{
    let ghost orig = reads@;
    let mut reads = reads;
    let n = reads.len();
    let mut nodes: Vec<ProcNode> = Vec::new();
    let mut vanished: Vec<Option<String>> = Vec::new();
    let mut i: usize = 0;
    #[verifier::loop_isolation(false)]
    while i < n
        invariant
            reads.len() == n,
            orig.len() == n,
            i <= n,
            forall|k: int| i <= k < n ==> reads@[k] == orig[k],
            enumerate_upto(orig, me, include_self, fail_on_noperm, i as nat) matches Ok((ns, vs))
                && nodes@.map_values(|n: ProcNode| node_identity(n)) == ns && vanished@ == vs,
            forall|j: int| 0 <= j < nodes@.len() ==> (#[trigger] nodes@[j]).children@.len() == 0,
        decreases n - i,
    {
        let mut read: Result<Identity, ReadError> = Ok(
            Identity { pid: 0, ppid: 0, cmdline: String::new() },
        );
        std::mem::swap(&mut reads[i], &mut read);
        assert(read == orig[i as int]);
        let ghost prev = nodes@.map_values(|n: ProcNode| node_identity(n));
        match filter_errors(read, fail_on_noperm) {
            Filtered::Proceed(id) => {
                if include_self || id.pid != me {
                    let Identity { pid, ppid, cmdline } = id;
                    nodes.push(ProcNode::new(pid, ppid, cmdline));
                    assert(nodes@.map_values(|n: ProcNode| node_identity(n)) =~= prev.push(
                        (pid, ppid, cmdline@),
                    ));
                }
            },
            Filtered::Fatal(e) => {
                proof {
                    lemma_enumerate_fatal_sticks(
                        orig,
                        me,
                        include_self,
                        fail_on_noperm,
                        (i + 1) as nat,
                        n as nat,
                    );
                }
                return Err(e);
            },
            Filtered::Skip => {},
            Filtered::SkipWithWarning(p) => {
                vanished.push(p);
            },
        }
        i += 1;
    }
    Ok(Enumerated { nodes, vanished })
}

} // verus!
