//! Selection of processes by command-line pattern, with optional inclusion
//! of every descendant of a match.
use crate::tree::{
    ProcNode, TreeError, children_in_range, is_orphan, lemma_linked_in_range, link_tree,
    linked_from,
};
use vstd::prelude::*;

verus! {

#[verifier::external_type_specification]
#[verifier::external_body]
pub struct ExRegex(regex::Regex);

#[verifier::external_type_specification]
#[verifier::external_body]
pub struct ExRegexError(regex::Error);

/// Whether the regular expression `pattern` matches anywhere in `haystack`.
pub uninterp spec fn regex_matches(pattern: Seq<char>, haystack: Seq<char>) -> bool;

/// A compiled command-line pattern, with the text it was compiled from.
pub struct Pattern {
    source: String,
    regex: regex::Regex,
}

/// The pattern text is not a valid regular expression, or compiles too large.
#[derive(Clone, Copy, Debug, PartialEq, Eq, Structural)]
pub enum PatternError {
    Invalid,
}

impl View for Pattern {
    type V = Seq<char>;

    closed spec fn view(&self) -> Seq<char> {
        self.source@
    }
}

/// Relies on regex::Regex::new to compile `source`, failing on an invalid
/// or too large pattern.
#[verifier::external_body]
fn compile_regex(source: &str) -> (r: Result<regex::Regex, regex::Error>) {
    regex::Regex::new(source)
}

/// Relies on regex::Regex::is_match: whether the pattern matches anywhere in
/// `haystack`, which depends on the pattern text and the haystack alone. The
/// regex of a `Pattern` is always the one compiled from its `source`.
#[verifier::external_body]
fn pattern_is_match(p: &Pattern, haystack: &str) -> (r: bool)
    ensures
        r == regex_matches(p@, haystack@),
{
    p.regex.is_match(haystack)
}

impl Pattern {
    /// Compiles `source` into a pattern.
    pub fn new(source: &str) -> (r: Result<Pattern, PatternError>)
        ensures
            r matches Ok(p) ==> p@ == source@,
    {
        match compile_regex(source) {
            Ok(regex) => Ok(Pattern { source: source.to_string(), regex }),
            Err(_) => Err(PatternError::Invalid),
        }
    }

    /// Whether the pattern matches anywhere in `text`.
    pub fn is_match(&self, text: &str) -> (r: bool)
        ensures
            r == regex_matches(self@, text@),
    {
        pattern_is_match(self, text)
    }
}

/// Every index marked in `small` is marked in `big`.
pub open spec fn includes(big: Seq<bool>, small: Seq<bool>) -> bool {
    &&& big.len() == small.len()
    &&& forall|i: int| 0 <= i < small.len() && #[trigger] small[i] ==> big[i]
}

/// Every child of a marked node is marked.
pub open spec fn closed_under_children(nodes: Seq<ProcNode>, sel: Seq<bool>) -> bool {
    forall|j: int, k: int|
        0 <= j < nodes.len() && 0 <= k < nodes[j].children@.len() && sel[j] ==> sel[#[trigger] nodes[j].children@[k] as int]
}

/// `sel` marks the seeds and all their descendants, and nothing else: it is
/// the least marking that holds the seeds and is closed under children.
pub open spec fn is_descendant_closure(nodes: Seq<ProcNode>, seeds: Seq<bool>, sel: Seq<bool>) -> bool {
    &&& sel.len() == nodes.len()
    &&& includes(sel, seeds)
    &&& closed_under_children(nodes, sel)
    &&& forall|t: Seq<bool>|
        #[trigger] includes(t, seeds) && closed_under_children(nodes, t) ==> includes(t, sel)
}

/// The selection from the directly matched nodes: those alone, or with
/// `include_descendants` also every descendant of one.
pub open spec fn is_selection(
    nodes: Seq<ProcNode>,
    matched: Seq<bool>,
    include_descendants: bool,
    sel: Seq<bool>,
) -> bool {
    if include_descendants {
        is_descendant_closure(nodes, matched, sel)
    } else {
        sel == matched
    }
}

/// Which nodes' command lines the pattern matches.
pub open spec fn matched_by(nodes: Seq<ProcNode>, pattern: Seq<char>) -> Seq<bool> {
    Seq::new(nodes.len(), |i: int| regex_matches(pattern, nodes[i].cmdline@))
}

/// The marked nodes of the first `n`, in order.
pub open spec fn kept(nodes: Seq<ProcNode>, sel: Seq<bool>, n: nat) -> Seq<ProcNode>
    decreases n,
{
    if n == 0 {
        Seq::empty()
    } else {
        let k = kept(nodes, sel, (n - 1) as nat);
        if sel[n - 1] {
            k.push(nodes[n - 1])
        } else {
            k
        }
    }
}

spec fn count_true(s: Seq<bool>) -> nat
    decreases s.len(),
{
    if s.len() == 0 {
        0
    } else {
        count_true(s.drop_last()) + if s.last() {
            1nat
        } else {
            0nat
        }
    }
}

proof fn lemma_count_true_bound(s: Seq<bool>)
    ensures
        count_true(s) <= s.len(),
    decreases s.len(),
{
    if s.len() > 0 {
        lemma_count_true_bound(s.drop_last());
    }
}

proof fn lemma_count_true_set(s: Seq<bool>, i: int)
    requires
        0 <= i < s.len(),
        !s[i],
    ensures
        count_true(s.update(i, true)) == count_true(s) + 1,
    decreases s.len(),
{
    let t = s.update(i, true);
    if i == s.len() - 1 {
        assert(t.drop_last() =~= s.drop_last());
    } else {
        lemma_count_true_set(s.drop_last(), i);
        assert(t.drop_last() =~= s.drop_last().update(i, true));
    }
}

/// Marks the seeds and every descendant of a seed, by a depth-first walk
/// from each seed that does not walk a node twice.
pub fn descendant_closure(nodes: &Vec<ProcNode>, seeds: &Vec<bool>) -> (sel: Vec<bool>)
    requires
        seeds.len() == nodes.len(),
        children_in_range(nodes@),
    ensures
        is_descendant_closure(nodes@, seeds@, sel@),
{
    let n = nodes.len();
    let mut visited: Vec<bool> = Vec::new();
    let mut i: usize = 0;
    while i < n
        invariant
            n == nodes.len(),
            i <= n,
            visited@ == Seq::new(i as nat, |k: int| false),
        decreases n - i,
    {
        visited.push(false);
        assert(visited@ =~= Seq::new((i + 1) as nat, |k: int| false));
        i += 1;
    }
    assert forall|t: Seq<bool>|
        #[trigger] includes(t, seeds@) && closed_under_children(nodes@, t) implies includes(
        t,
        visited@,
    ) by {}
    let mut stack: Vec<usize> = Vec::new();
    let mut i: usize = 0;
    while i < n
        invariant
            n == nodes.len(),
            n == seeds.len(),
            children_in_range(nodes@),
            i <= n,
            visited.len() == n,
            stack@.len() == 0,
            forall|k: int| 0 <= k < i && #[trigger] seeds@[k] ==> visited@[k],
            closed_under_children(nodes@, visited@),
            forall|t: Seq<bool>|
                #[trigger] includes(t, seeds@) && closed_under_children(nodes@, t) ==> includes(
                    t,
                    visited@,
                ),
        decreases n - i,
    {
        if seeds[i] && !visited[i] {
            let ghost old_visited = visited@;
            proof {
                lemma_count_true_set(visited@, i as int);
            }
            visited.set(i, true);
            stack.push(i);
            proof {
                lemma_count_true_bound(visited@);
                assert(stack@[0] == i);
                assert forall|j: int, k: int|
                    0 <= j < n && 0 <= k < nodes@[j].children@.len() && visited@[j]
                        && !stack@.contains(j as usize) implies visited@[#[trigger] nodes@[
                    j].children@[k] as int] by {
                    assert(j != i);
                    assert(old_visited[j]);
                    assert(old_visited[nodes@[j].children@[k] as int]);
                }
                assert forall|t: Seq<bool>|
                    #[trigger] includes(t, seeds@) && closed_under_children(nodes@, t) implies includes(
                    t,
                    visited@,
                ) by {
                    assert(includes(t, old_visited));
                    assert(seeds@[i as int]);
                }
            }
            while stack.len() > 0
                invariant
                    n == nodes.len(),
                    n == seeds.len(),
                    children_in_range(nodes@),
                    i < n,
                    visited.len() == n,
                    visited@[i as int],
                    count_true(visited@) <= n,
                    forall|k: int| 0 <= k < i && #[trigger] seeds@[k] ==> visited@[k],
                    forall|k: int| 0 <= k < stack@.len() ==> #[trigger] stack@[k] < n,
                    forall|k: int| 0 <= k < stack@.len() ==> visited@[#[trigger] stack@[k] as int],
                    stack@.no_duplicates(),
                    forall|j: int, k: int|
                        0 <= j < n && 0 <= k < nodes@[j].children@.len() && visited@[j]
                            && !stack@.contains(j as usize) ==> visited@[#[trigger] nodes@[j].children@[k] as int],
                    forall|t: Seq<bool>|
                        #[trigger] includes(t, seeds@) && closed_under_children(nodes@, t)
                            ==> includes(t, visited@),
                decreases 2 * (n - count_true(visited@)) + stack.len(),
            {
                let ghost m0 = 2 * (n - count_true(visited@)) + stack.len();
                let ghost before_pop = stack@;
                let j = stack.pop().unwrap();
                assert(before_pop.last() == j);
                assert(stack@ =~= before_pop.drop_last());
                assert(!stack@.contains(j)) by {
                    if stack@.contains(j) {
                        let k = choose|k: int| 0 <= k < stack@.len() && stack@[k] == j;
                        assert(before_pop[k] == before_pop[before_pop.len() - 1]);
                    }
                }
                assert(forall|k: int| 0 <= k < stack@.len() ==> stack@[k] == before_pop[k]);
                let nchildren = nodes[j].children.len();
                let mut k: usize = 0;
                while k < nchildren
                    invariant
                        n == nodes.len(),
                        n == seeds.len(),
                        children_in_range(nodes@),
                        i < n,
                        j < n,
                        nchildren == nodes@[j as int].children@.len(),
                        k <= nchildren,
                        visited.len() == n,
                        visited@[i as int],
                        visited@[j as int],
                        !stack@.contains(j),
                        count_true(visited@) <= n,
                        2 * (n - count_true(visited@)) + stack.len() < m0,
                        forall|k2: int| 0 <= k2 < i && #[trigger] seeds@[k2] ==> visited@[k2],
                        forall|k2: int| 0 <= k2 < stack@.len() ==> #[trigger] stack@[k2] < n,
                        forall|k2: int|
                            0 <= k2 < stack@.len() ==> visited@[#[trigger] stack@[k2] as int],
                        stack@.no_duplicates(),
                        forall|k2: int|
                            0 <= k2 < k ==> visited@[#[trigger] nodes@[j as int].children@[k2] as int],
                        forall|j2: int, k2: int|
                            0 <= j2 < n && 0 <= k2 < nodes@[j2].children@.len() && visited@[j2]
                                && j2 != j && !stack@.contains(j2 as usize)
                                ==> visited@[#[trigger] nodes@[j2].children@[k2] as int],
                        forall|t: Seq<bool>|
                            #[trigger] includes(t, seeds@) && closed_under_children(nodes@, t)
                                ==> includes(t, visited@),
                    decreases nchildren - k,
                {
                    let c = nodes[j].children[k];
                    assert(c < n);
                    if !visited[c] {
                        let ghost old_visited = visited@;
                        let ghost old_stack = stack@;
                        proof {
                            lemma_count_true_set(visited@, c as int);
                        }
                        visited.set(c, true);
                        stack.push(c);
                        proof {
                            lemma_count_true_bound(visited@);
                            assert(!old_stack.contains(c)) by {
                                if old_stack.contains(c) {
                                    let k2 = choose|k2: int|
                                        0 <= k2 < old_stack.len() && old_stack[k2] == c;
                                    assert(old_visited[old_stack[k2] as int]);
                                }
                            }
                            assert forall|k2: int|
                                0 <= k2 < stack@.len() implies visited@[#[trigger] stack@[
                                k2] as int] by {
                                if k2 < old_stack.len() {
                                    assert(stack@[k2] == old_stack[k2]);
                                }
                            }
                            assert forall|k2: int| 0 <= k2 < stack@.len() implies #[trigger] stack@[k2] < n by {
                                if k2 < old_stack.len() {
                                    assert(stack@[k2] == old_stack[k2]);
                                }
                            }
                            assert(!stack@.contains(j)) by {
                                if stack@.contains(j) {
                                    let k2 = choose|k2: int| 0 <= k2 < stack@.len() && stack@[k2] == j;
                                    if k2 < old_stack.len() {
                                        assert(old_stack[k2] == j);
                                    }
                                }
                            }
                            assert forall|j2: int, k2: int|
                                0 <= j2 < n && 0 <= k2 < nodes@[j2].children@.len()
                                    && visited@[j2] && j2 != j && !stack@.contains(
                                    j2 as usize,
                                ) implies visited@[#[trigger] nodes@[j2].children@[k2] as int] by {
                                if j2 != c {
                                    assert(!old_stack.contains(j2 as usize)) by {
                                        if old_stack.contains(j2 as usize) {
                                            let k3 = choose|k3: int|
                                                0 <= k3 < old_stack.len() && old_stack[k3]
                                                    == j2 as usize;
                                            assert(stack@[k3] == j2 as usize);
                                        }
                                    }
                                } else {
                                    assert(stack@[stack@.len() - 1] == c);
                                }
                            }
                            assert forall|t: Seq<bool>|
                                #[trigger] includes(t, seeds@) && closed_under_children(nodes@, t)
                                    implies includes(t, visited@) by {
                                assert(includes(t, old_visited));
                                assert(t[j as int]);
                                assert(nodes@[j as int].children@[k as int] == c);
                                assert(t[c as int]);
                            }
                        }
                    }
                    k += 1;
                }
            }
        }
        assert forall|k2: int| 0 <= k2 < i + 1 && #[trigger] seeds@[k2] implies visited@[k2] by {}
        i += 1;
    }
    visited
}

/// Moves the marked nodes out, in their order.
pub fn retain_selected(nodes: Vec<ProcNode>, sel: &Vec<bool>) -> (r: Vec<ProcNode>)
    requires
        sel.len() == nodes.len(),
    ensures
        r@ == kept(nodes@, sel@, nodes@.len()),
{
    let ghost orig = nodes@;
    let mut nodes = nodes;
    let mut out: Vec<ProcNode> = Vec::new();
    let mut i: usize = 0;
    while i < nodes.len()
        invariant
            sel.len() == orig.len(),
            nodes.len() == orig.len(),
            i <= orig.len(),
            forall|k: int| i <= k < orig.len() ==> nodes@[k] == orig[k],
            out@ == kept(orig, sel@, i as nat),
        decreases orig.len() - i,
    {
        if sel[i] {
            let mut taken = ProcNode::new(0, 0, String::new());
            std::mem::swap(&mut nodes[i], &mut taken);
            out.push(taken);
        }
        i += 1;
    }
    out
}

/// Selects from a snapshot's nodes (fresh from enumeration, with no children
/// yet). Without a pattern, every node is kept as it is. With one, the nodes
/// are first linked into a forest, failing if a parent is missing; then the
/// nodes whose command line the pattern matches are kept, with every
/// descendant of theirs if `match_children` is set, in snapshot order.
pub fn get_processes(nodes: Vec<ProcNode>, pattern: &Option<Pattern>, match_children: bool) -> (r:
    Result<Vec<ProcNode>, TreeError>)
    requires
        forall|j: int| 0 <= j < nodes@.len() ==> (#[trigger] nodes@[j]).children@.len() == 0,
    ensures
        pattern is None ==> r == Ok::<Vec<ProcNode>, TreeError>(nodes),
        pattern matches Some(p) ==> {
            &&& r is Ok <==> forall|i: int| 0 <= i < nodes@.len() ==> !is_orphan(nodes@, i)
            &&& r matches Err(TreeError::MissingParent { index, ppid }) ==> {
                &&& index < nodes@.len()
                &&& is_orphan(nodes@, index as int)
                &&& ppid == nodes@[index as int].ppid
                &&& forall|i: int| 0 <= i < index ==> !is_orphan(nodes@, i)
            }
            &&& r matches Ok(v) ==> exists|linked: Seq<ProcNode>, sel: Seq<bool>|
                {
                    &&& linked_from(nodes@, linked)
                    &&& is_selection(linked, matched_by(nodes@, p@), match_children, sel)
                    &&& v@ == kept(linked, sel, linked.len())
                }
        },
{
    match pattern {
        None => Ok(nodes),
        Some(p) => {
            let ghost before = nodes@;
            let mut nodes = nodes;
            let n0 = nodes.len();
            match link_tree(&mut nodes) {
                Err(e) => {
                    return Err(e);
                },
                Ok(()) => {},
            }
            proof {
                lemma_linked_in_range(before, nodes@);
            }
            let n = nodes.len();
            let mut matched: Vec<bool> = Vec::new();
            let mut i: usize = 0;
            while i < n
                invariant
                    n == nodes.len(),
                    i <= n,
                    linked_from(before, nodes@),
                    matched@ == matched_by(before, p@).take(i as int),
                decreases n - i,
            {
                assert(nodes@[i as int].pid == before[i as int].pid);
                let m = p.is_match(nodes[i].cmdline.as_str());
                matched.push(m);
                assert(matched@ =~= matched_by(before, p@).take(i + 1));
                i += 1;
            }
            assert(matched@ =~= matched_by(before, p@));
            let sel = if match_children {
                descendant_closure(&nodes, &matched)
            } else {
                matched
            };
            let ghost linked = nodes@;
            let out = retain_selected(nodes, &sel);
            assert(is_selection(linked, matched_by(before, p@), match_children, sel@));
            Ok(out)
        },
    }
}

/// Selecting descendants twice gives the first selection again: the closure
/// of a closure is itself.
pub proof fn lemma_selection_idempotent(
    nodes: Seq<ProcNode>,
    matched: Seq<bool>,
    once: Seq<bool>,
    twice: Seq<bool>,
)
    requires
        is_selection(nodes, matched, true, once),
        is_selection(nodes, once, true, twice),
    ensures
        twice == once,
{
    assert(includes(once, once));
    assert(includes(once, twice));
    assert(twice =~= once);
}

/// Including descendants never drops a node that is selected without them.
pub proof fn lemma_selection_monotone(
    nodes: Seq<ProcNode>,
    matched: Seq<bool>,
    without: Seq<bool>,
    with: Seq<bool>,
)
    requires
        is_selection(nodes, matched, false, without),
        is_selection(nodes, matched, true, with),
    ensures
        includes(with, without),
{
}

} // verus!
