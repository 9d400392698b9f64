//! Process nodes and their linking into a forest by parent pid.
use std::collections::HashMap;
use vstd::prelude::*;

verus! {

broadcast use vstd::std_specs::hash::group_hash_axioms;

/// One process of a snapshot: its pid, its parent's pid (0 for a root), its
/// command line, and the indices of its children in the snapshot.
#[derive(Clone, Debug)]
pub struct ProcNode {
    pub pid: i32,
    pub ppid: i32,
    pub cmdline: String,
    pub children: Vec<usize>,
}

/// Linking failed: the parent of the node at `index` is not in the snapshot.
#[derive(Clone, Copy, Debug, PartialEq, Eq, Structural)]
pub enum TreeError {
    MissingParent { index: usize, ppid: i32 },
}

impl ProcNode {
    /// A node with no children yet.
    pub fn new(pid: i32, ppid: i32, cmdline: String) -> (r: ProcNode)
        ensures
            r.pid == pid,
            r.ppid == ppid,
            r.cmdline == cmdline,
            r.children@ == Seq::<usize>::empty(),
    {
        ProcNode { pid, ppid, cmdline, children: Vec::new() }
    }
}

pub open spec fn has_pid(s: Seq<ProcNode>, pid: i32) -> bool {
    exists|k: int| 0 <= k < s.len() && s[k].pid == pid
}

/// The node at `i` names a parent that is not in the snapshot.
pub open spec fn is_orphan(s: Seq<ProcNode>, i: int) -> bool {
    s[i].ppid != 0 && !has_pid(s, s[i].ppid)
}

/// `j` is the parent of `i`: the node with `i`'s parent pid (the last such,
/// should pids repeat).
pub open spec fn is_parent_index(s: Seq<ProcNode>, i: int, j: int) -> bool {
    &&& s[i].ppid != 0
    &&& 0 <= j < s.len()
    &&& s[j].pid == s[i].ppid
    &&& forall|k: int| j < k < s.len() ==> s[k].pid != s[i].ppid
}

/// The children that linking gives node `j` from the first `n` nodes, in order.
pub open spec fn linked_children(s: Seq<ProcNode>, j: int, n: nat) -> Seq<usize>
    decreases n,
{
    if n == 0 {
        Seq::empty()
    } else {
        let c = linked_children(s, j, (n - 1) as nat);
        if is_parent_index(s, n - 1, j) {
            c.push((n - 1) as usize)
        } else {
            c
        }
    }
}

/// `after` is `before` with each node's children extended by those linking
/// gives it, and nothing else changed.
pub open spec fn linked_from(before: Seq<ProcNode>, after: Seq<ProcNode>) -> bool {
    &&& after.len() == before.len()
    &&& forall|j: int|
        0 <= j < before.len() ==> {
            &&& #[trigger] after[j].pid == before[j].pid
            &&& after[j].ppid == before[j].ppid
            &&& after[j].cmdline == before[j].cmdline
            &&& after[j].children@ == before[j].children@ + linked_children(
                before,
                j,
                before.len(),
            )
        }
}

/// Every child index of every node is a valid index.
pub open spec fn children_in_range(s: Seq<ProcNode>) -> bool {
    forall|j: int, k: int|
        0 <= j < s.len() && 0 <= k < s[j].children@.len() ==> #[trigger] s[j].children@[k]
            < s.len()
}

/// Links the nodes into a forest: each node whose parent pid is not 0 is
/// appended to the children of the node with that pid. If some node's parent
/// is not in the snapshot, nothing changes and the first such node is named.
pub fn link_tree(nodes: &mut Vec<ProcNode>) -> (r: Result<(), TreeError>)
    ensures
        r is Ok <==> forall|i: int| 0 <= i < old(nodes)@.len() ==> !is_orphan(old(nodes)@, i),
        r is Ok ==> linked_from(old(nodes)@, final(nodes)@),
        r matches Err(TreeError::MissingParent { index, ppid }) ==> {
            &&& final(nodes)@ == old(nodes)@
            &&& index < old(nodes)@.len()
            &&& is_orphan(old(nodes)@, index as int)
            &&& ppid == old(nodes)@[index as int].ppid
            &&& forall|i: int| 0 <= i < index ==> !is_orphan(old(nodes)@, i)
        },
{
    let ghost s = nodes@;
    let n = nodes.len();
    let mut index_of: HashMap<i32, usize> = HashMap::new();
    let mut i: usize = 0;
    while i < n
        invariant
            n == nodes.len(),
            s == nodes@,
            i <= n,
            forall|p: i32| #[trigger]
                index_of@.contains_key(p) <==> exists|k: int| 0 <= k < i && s[k].pid == p,
            forall|p: i32| #[trigger]
                index_of@.contains_key(p) ==> {
                    &&& index_of@[p] < i
                    &&& s[index_of@[p] as int].pid == p
                    &&& forall|k: int| index_of@[p] < k < i ==> s[k].pid != p
                },
        decreases n - i,
    {
        let pid = nodes[i].pid;
        index_of.insert(pid, i);
        proof {
            assert forall|p: i32| #[trigger]
                index_of@.contains_key(p) implies exists|k: int|
                    0 <= k < i + 1 && s[k].pid == p by {
                if p != pid {
                    let k = choose|k: int| 0 <= k < i && s[k].pid == p;
                    assert(0 <= k < i + 1 && s[k].pid == p);
                } else {
                    assert(s[i as int].pid == p);
                }
            }
        }
        i += 1;
    }
    let mut i: usize = 0;
    while i < n
        invariant
            n == nodes.len(),
            s == nodes@,
            i <= n,
            forall|p: i32| #[trigger]
                index_of@.contains_key(p) <==> exists|k: int| 0 <= k < n && s[k].pid == p,
            forall|k: int| 0 <= k < i ==> !is_orphan(s, k),
        decreases n - i,
    {
        let ppid = nodes[i].ppid;
        if ppid != 0 && !index_of.contains_key(&ppid) {
            assert(!index_of@.contains_key(ppid));
            assert(is_orphan(s, i as int));
            return Err(TreeError::MissingParent { index: i, ppid });
        }
        i += 1;
    }
    let mut idx: usize = 0;
    while idx < n
        invariant
            n == nodes.len(),
            s.len() == n,
            idx <= n,
            forall|k: int| 0 <= k < n ==> !is_orphan(s, k),
            forall|p: i32| #[trigger]
                index_of@.contains_key(p) <==> exists|k: int| 0 <= k < n && s[k].pid == p,
            forall|p: i32| #[trigger]
                index_of@.contains_key(p) ==> {
                    &&& index_of@[p] < n
                    &&& s[index_of@[p] as int].pid == p
                    &&& forall|k: int| index_of@[p] < k < n ==> s[k].pid != p
                },
            forall|j: int|
                0 <= j < n ==> {
                    &&& #[trigger] nodes@[j].pid == s[j].pid
                    &&& nodes@[j].ppid == s[j].ppid
                    &&& nodes@[j].cmdline == s[j].cmdline
                    &&& nodes@[j].children@ == s[j].children@ + linked_children(s, j, idx as nat)
                },
        decreases n - idx,
    {
        let ppid = nodes[idx].ppid;
        let ghost before = nodes@;
        assert(nodes@[idx as int].pid == s[idx as int].pid);
        if ppid != 0 {
            assert(!is_orphan(s, idx as int));
            assert(has_pid(s, ppid));
            assert(index_of@.contains_key(ppid));
            let parent = *index_of.get(&ppid).unwrap();
            assert(parent == index_of@[ppid]);
            assert(is_parent_index(s, idx as int, parent as int));
            nodes[parent].children.push(idx);
            assert forall|j: int| 0 <= j < n implies nodes@[j].pid == s[j].pid && nodes@[j].ppid
                == s[j].ppid && nodes@[j].cmdline == s[j].cmdline && nodes@[j].children@
                == s[j].children@ + linked_children(s, j, (idx + 1) as nat) by {
                assert(before[j].pid == s[j].pid);
                if j == parent {
                    assert(nodes@[j].children@ == before[j].children@.push(idx));
                    assert(nodes@[j].children@ =~= s[j].children@ + linked_children(
                        s,
                        j,
                        (idx + 1) as nat,
                    ));
                } else {
                    assert(nodes@[j] == before[j]);
                    assert(!is_parent_index(s, idx as int, j));
                }
            }
        } else {
            assert forall|j: int| 0 <= j < n implies nodes@[j].pid == s[j].pid && nodes@[j].ppid
                == s[j].ppid && nodes@[j].cmdline == s[j].cmdline && nodes@[j].children@
                == s[j].children@ + linked_children(s, j, (idx + 1) as nat) by {
                assert(nodes@[j].pid == s[j].pid);
                assert(!is_parent_index(s, idx as int, j));
            }
        }
        idx += 1;
    }
    Ok(())
}

proof fn lemma_linked_children(s: Seq<ProcNode>, j: int, n: nat)
    requires
        n <= s.len() <= usize::MAX,
    ensures
        forall|k: int|
            0 <= k < linked_children(s, j, n).len() ==> #[trigger] linked_children(s, j, n)[k]
                < n,
        forall|i: int|
            0 <= i < n ==> (linked_children(s, j, n).contains(i as usize) <==> is_parent_index(
                s,
                i,
                j,
            )),
        linked_children(s, j, n).no_duplicates(),
    decreases n,
{
    if n > 0 {
        lemma_linked_children(s, j, (n - 1) as nat);
        let c = linked_children(s, j, (n - 1) as nat);
        if is_parent_index(s, n - 1, j) {
            let d = c.push((n - 1) as usize);
            assert(d[c.len() as int] == (n - 1) as usize);
            assert forall|i: int| 0 <= i < n implies (linked_children(s, j, n).contains(
                i as usize,
            ) <==> is_parent_index(s, i, j)) by {
                if linked_children(s, j, n).contains(i as usize) && i < n - 1 {
                    let k = choose|k: int| 0 <= k < d.len() && d[k] == i as usize;
                    if k < c.len() {
                        assert(c[k] == i as usize);
                    }
                }
                if i < n - 1 && is_parent_index(s, i, j) {
                    let k = choose|k: int| 0 <= k < c.len() && c[k] == i as usize;
                    assert(d[k] == i as usize);
                }
            }
        }
    }
}

proof fn lemma_last_with_pid(s: Seq<ProcNode>, p: i32, m: int)
    requires
        0 <= m <= s.len(),
        exists|k: int| 0 <= k < m && s[k].pid == p,
    ensures
        exists|j: int|
            0 <= j < m && s[j].pid == p && forall|k: int| j < k < m ==> s[k].pid != p,
    decreases m,
{
    if s[m - 1].pid != p {
        let k = choose|k: int| 0 <= k < m && s[k].pid == p;
        assert(0 <= k < m - 1 && s[k].pid == p);
        lemma_last_with_pid(s, p, m - 1);
        let j = choose|j: int|
            0 <= j < m - 1 && s[j].pid == p && forall|k: int| j < k < m - 1 ==> s[k].pid != p;
        assert(forall|k: int| j < k < m ==> s[k].pid != p);
    } else {
        assert(forall|k: int| m - 1 < k < m ==> s[k].pid != p);
    }
}

/// Linking makes a forest: in a snapshot whose nodes start without children
/// and whose parents are all present, linking puts every non-root node in
/// the children of exactly one node, once, and no root in any.
pub proof fn lemma_linked_forest(before: Seq<ProcNode>, after: Seq<ProcNode>)
    requires
        before.len() <= usize::MAX,
        forall|j: int| 0 <= j < before.len() ==> (#[trigger] before[j]).children@.len() == 0,
        forall|i: int| 0 <= i < before.len() ==> !is_orphan(before, i),
        linked_from(before, after),
    ensures
        forall|i: int|
            0 <= i < before.len() && before[i].ppid != 0 ==> exists|j: int|
                0 <= j < after.len() && #[trigger] after[j].children@.contains(i as usize),
        forall|i: int, j1: int, j2: int|
            0 <= i < before.len() && 0 <= j1 < after.len() && 0 <= j2 < after.len()
                && #[trigger] after[j1].children@.contains(i as usize)
                && #[trigger] after[j2].children@.contains(i as usize) ==> j1 == j2,
        forall|i: int, j: int|
            0 <= i < before.len() && 0 <= j < after.len() && before[i].ppid == 0
                ==> !#[trigger] after[j].children@.contains(i as usize),
        forall|j: int| 0 <= j < after.len() ==> (#[trigger] after[j]).children@.no_duplicates(),
{
    let n = before.len();
    assert forall|j: int| 0 <= j < n implies after[j].children@ == linked_children(
        before,
        j,
        n,
    ) by {
        assert(after[j].pid == before[j].pid);
        assert(before[j].children@.len() == 0);
        assert(after[j].children@ =~= linked_children(before, j, n));
    }
    assert forall|j: int| 0 <= j < n implies (#[trigger] after[j]).children@.no_duplicates() by {
        lemma_linked_children(before, j, n);
    }
    assert forall|i: int|
        0 <= i < n && before[i].ppid != 0 implies exists|j: int|
        0 <= j < after.len() && #[trigger] after[j].children@.contains(i as usize) by {
        assert(!is_orphan(before, i));
        lemma_last_with_pid(before, before[i].ppid, n as int);
        let j = choose|j: int|
            0 <= j < n && before[j].pid == before[i].ppid && forall|k: int|
                j < k < n ==> before[k].pid != before[i].ppid;
        assert(is_parent_index(before, i, j));
        lemma_linked_children(before, j, n);
        assert(after[j].children@.contains(i as usize));
    }
    assert forall|i: int, j1: int, j2: int|
        0 <= i < n && 0 <= j1 < after.len() && 0 <= j2 < after.len()
            && #[trigger] after[j1].children@.contains(i as usize)
            && #[trigger] after[j2].children@.contains(i as usize) implies j1 == j2 by {
        lemma_linked_children(before, j1, n);
        lemma_linked_children(before, j2, n);
        assert(is_parent_index(before, i, j1));
        assert(is_parent_index(before, i, j2));
        if j1 < j2 {
            assert(before[j2].pid != before[i].ppid);
        } else if j2 < j1 {
            assert(before[j1].pid != before[i].ppid);
        }
    }
    assert forall|i: int, j: int|
        0 <= i < n && 0 <= j < after.len() && before[i].ppid == 0 implies !#[trigger] after[
        j].children@.contains(i as usize) by {
        lemma_linked_children(before, j, n);
        assert(after[j].children@ == linked_children(before, j, n));
        assert(!is_parent_index(before, i, j));
    }
}

/// Linking a snapshot whose nodes start without children leaves only valid
/// child indices.
pub proof fn lemma_linked_in_range(before: Seq<ProcNode>, after: Seq<ProcNode>)
    requires
        before.len() <= usize::MAX,
        forall|j: int| 0 <= j < before.len() ==> (#[trigger] before[j]).children@.len() == 0,
        linked_from(before, after),
    ensures
        children_in_range(after),
{
    let n = before.len();
    assert forall|j: int, k: int|
        0 <= j < after.len() && 0 <= k < after[j].children@.len() implies #[trigger] after[
        j].children@[k] < after.len() by {
        assert(after[j].pid == before[j].pid);
        assert(before[j].children@.len() == 0);
        assert(after[j].children@ =~= linked_children(before, j, n));
        lemma_linked_children(before, j, n);
    }
}

} // verus!
