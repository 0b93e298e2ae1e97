use vstd::prelude::*;
use crate::record::ProcessInfo;
use std::collections::HashMap;

verus! {

broadcast use vstd::std_specs::hash::group_hash_axioms;

/// One tree node: the record it was made from, and the positions of its
/// children inside the tree's node arena, in the order they were attached.
pub struct ProcessNode {
    pub proc_info: ProcessInfo,
    pub children: Vec<usize>,
}

impl ProcessNode {
    pub fn new(proc_info: ProcessInfo) -> (n: ProcessNode)
        ensures
            n.proc_info == proc_info,
            n.children@ == Seq::<usize>::empty(),
    {
        ProcessNode { proc_info, children: Vec::new() }
    }

    pub fn to_heap(self) -> (r: Box<ProcessNode>)
        ensures
            *r == self,
    {
        Box::new(self)
    }

    pub fn add_child(&mut self, child: usize)
        ensures
            final(self).proc_info == old(self).proc_info,
            final(self).children@ == old(self).children@.push(child),
    {
        self.children.push(child);
    }

    pub fn children_count(&self) -> (r: usize)
        ensures
            r == self.children@.len(),
    {
        self.children.len()
    }
}

pub open spec fn strictly_increasing(s: Seq<usize>) -> bool {
    forall|a: int, b: int| #![trigger s[a], s[b]] 0 <= a < b < s.len() ==> s[a] < s[b]
}

/// Every child position points below its parent's position and into the arena.
pub open spec fn child_slots_ok(nodes: Seq<ProcessNode>) -> bool {
    forall|i: int, k: int|
        0 <= i < nodes.len() && 0 <= k < nodes[i].children@.len() ==> i
            < #[trigger] nodes[i].children@[k] && nodes[i].children@[k] < nodes.len()
}

/// No position appears twice among all children lists: a node has at most
/// one parent.
pub open spec fn child_slots_unique(nodes: Seq<ProcessNode>) -> bool {
    forall|i: int, k: int, j: int, m: int|
        #![trigger nodes[i].children@[k], nodes[j].children@[m]]
        0 <= i < nodes.len() && 0 <= k < nodes[i].children@.len() && 0 <= j < nodes.len() && 0 <= m
            < nodes[j].children@.len() && (i != j || k != m) ==> nodes[i].children@[k]
            != nodes[j].children@[m]
}

pub open spec fn tree_wf(nodes: Seq<ProcessNode>, root: int) -> bool {
    &&& 0 <= root < nodes.len()
    &&& child_slots_ok(nodes)
    &&& child_slots_unique(nodes)
    &&& forall|j: int| 0 <= j < nodes.len() ==> strictly_increasing(#[trigger] nodes[j].children@)
}

/// The node arena plus the position of the designated root.
pub struct ProcessTree {
    pub nodes: Vec<ProcessNode>,
    pub root: usize,
}

#[derive(PartialEq, Eq, Structural, Debug)]
pub enum TreeError {
    EmptyInput,
    RootNotFound,
}

/// The position of the last record before `below` that carries `pid`,
/// if there is one.
pub open spec fn last_index_with_pid(records: Seq<ProcessInfo>, pid: u32, below: int) -> Option<
    int,
>
    decreases below,
{
    if below <= 0 {
        None
    } else if records[below - 1].pid == pid {
        Some(below - 1)
    } else {
        last_index_with_pid(records, pid, below - 1)
    }
}

pub proof fn lemma_last_index_with_pid(records: Seq<ProcessInfo>, pid: u32, below: int)
    requires
        0 <= below <= records.len(),
    ensures
        match last_index_with_pid(records, pid, below) {
            Some(j) => 0 <= j < below && records[j].pid == pid && forall|t: int|
                j < t < below ==> #[trigger] records[t].pid != pid,
            None => forall|t: int| 0 <= t < below ==> #[trigger] records[t].pid != pid,
        },
    decreases below,
{
    if below > 0 && records[below - 1].pid != pid {
        lemma_last_index_with_pid(records, pid, below - 1);
    }
}

/// The node that record `c` gets attached to: the last record before it
/// whose pid equals `c`'s parent pid — none when the parent pid is 0 or no
/// such record precedes `c`.
pub open spec fn parent_slot(records: Seq<ProcessInfo>, c: int) -> Option<int> {
    if records[c].ppid == 0 {
        None
    } else {
        last_index_with_pid(records, records[c].ppid, c)
    }
}

/// What linking leaves behind: one node per record, in record order, and
/// each node's children exactly the records attached to it, in record order.
pub open spec fn built_from(nodes: Seq<ProcessNode>, records: Seq<ProcessInfo>) -> bool {
    &&& nodes.len() == records.len()
    &&& forall|i: int| 0 <= i < nodes.len() ==> #[trigger] nodes[i].proc_info == records[i]
    &&& forall|j: int| 0 <= j < nodes.len() ==> strictly_increasing(#[trigger] nodes[j].children@)
    &&& forall|j: int, c: int|
        0 <= j < nodes.len() && 0 <= c < nodes.len() ==> (#[trigger] nodes[j].children@.contains(
            c as usize,
        ) <==> parent_slot(records, c) == Some(j))
}

/// Checks the shape that `tree_wf` asks for: root in range, every child
/// position in range and past its parent, children strictly increasing, no
/// position claimed by two parents.
pub fn wf_check(nodes: &Vec<ProcessNode>, root: usize) -> (b: bool)
    ensures
        b == tree_wf(nodes@, root as int),
{
    let n = nodes.len();
    if root >= n {
        return false;
    }
    let mut seen: Vec<bool> = Vec::new();
    let mut z: usize = 0;
    while z < n
        invariant
            seen@.len() == z <= n,
            forall|c: int| 0 <= c < z ==> !(#[trigger] seen@[c]),
        decreases n - z,
    {
        seen.push(false);
        z = z + 1;
    }
    let mut i: usize = 0;
    while i < n
        invariant
            n == nodes@.len(),
            seen@.len() == n,
            i <= n,
            forall|a: int, k: int|
                0 <= a < i && 0 <= k < nodes@[a].children@.len() ==> a
                    < #[trigger] nodes@[a].children@[k] && nodes@[a].children@[k] < n,
            forall|a: int| 0 <= a < i ==> strictly_increasing(#[trigger] nodes@[a].children@),
            forall|c: int|
                0 <= c < n ==> (#[trigger] seen@[c] <==> exists|a: int, k: int|
                    0 <= a < i && 0 <= k < nodes@[a].children@.len()
                        && nodes@[a].children@[k] == c),
            forall|a: int, k: int, b: int, m: int|
                #![trigger nodes@[a].children@[k], nodes@[b].children@[m]]
                0 <= a < i && 0 <= k < nodes@[a].children@.len() && 0 <= b < i && 0 <= m
                    < nodes@[b].children@.len() && (a != b || k != m)
                    ==> nodes@[a].children@[k] != nodes@[b].children@[m],
        decreases n - i,
    {
        let cc = nodes[i].children.len();
        let mut k: usize = 0;
        let mut prev: usize = 0;
        while k < cc
            invariant
                n == nodes@.len(),
                seen@.len() == n,
                i < n,
                cc == nodes@[i as int].children@.len(),
                k <= cc,
                forall|a: int, kk: int|
                    0 <= a < i && 0 <= kk < nodes@[a].children@.len() ==> a
                        < #[trigger] nodes@[a].children@[kk] && nodes@[a].children@[kk] < n,
                forall|a: int|
                    0 <= a < i ==> strictly_increasing(#[trigger] nodes@[a].children@),
                forall|kk: int|
                    0 <= kk < k ==> i < #[trigger] nodes@[i as int].children@[kk]
                        && nodes@[i as int].children@[kk] < n,
                k > 0 ==> prev == nodes@[i as int].children@[k - 1],
                forall|x: int, y: int|
                    #![trigger nodes@[i as int].children@[x], nodes@[i as int].children@[y]]
                    0 <= x < y < k ==> nodes@[i as int].children@[x] < nodes@[
                        i as int
                    ].children@[y],
                forall|c: int|
                    0 <= c < n ==> (#[trigger] seen@[c] <==> exists|a: int, kk: int|
                        (0 <= a < i && 0 <= kk < nodes@[a].children@.len() || a == i && 0 <= kk
                            < k) && nodes@[a].children@[kk] == c),
                forall|a: int, kk: int, b: int, m: int|
                    #![trigger nodes@[a].children@[kk], nodes@[b].children@[m]]
                    (0 <= a < i && 0 <= kk < nodes@[a].children@.len() || a == i && 0 <= kk < k)
                        && (0 <= b < i && 0 <= m < nodes@[b].children@.len() || b == i && 0 <= m
                        < k) && (a != b || kk != m) ==> nodes@[a].children@[kk]
                        != nodes@[b].children@[m],
            decreases cc - k,
        {
            let c = nodes[i].children[k];
            if c <= i || c >= n {
                proof {
                    assert(nodes@[i as int].children@[k as int] == c);
                    assert(!child_slots_ok(nodes@));
                }
                return false;
            }
            if k > 0 && c <= prev {
                proof {
                    assert(nodes@[i as int].children@[k - 1] == prev);
                    assert(nodes@[i as int].children@[k as int] == c);
                    assert(!strictly_increasing(nodes@[i as int].children@));
                }
                return false;
            }
            if seen[c] {
                proof {
                    let (a, kk): (int, int) = choose|a: int, kk: int|
                        (0 <= a < i && 0 <= kk < nodes@[a].children@.len() || a == i as int && 0
                            <= kk < k) && nodes@[a].children@[kk] == c as usize;
                    assert(nodes@[a].children@[kk] == nodes@[i as int].children@[k as int]);
                    assert(!child_slots_unique(nodes@));
                }
                return false;
            }
            seen[c] = true;
            prev = c;
            proof {
                assert forall|c2: int| 0 <= c2 < n implies (#[trigger] seen@[c2]
                    <==> exists|a: int, kk: int|
                    (0 <= a < i && 0 <= kk < nodes@[a].children@.len() || a == i as int && 0
                        <= kk < k + 1) && nodes@[a].children@[kk] == c2) by {
                    if c2 == c as int {
                        assert(nodes@[i as int].children@[k as int] == c2 as usize);
                    }
                }
            }
            k = k + 1;
        }
        i = i + 1;
    }
    true
}

impl ProcessTree {
    pub open spec fn wf(&self) -> bool {
        tree_wf(self.nodes@, self.root as int)
    }

    /// Wraps an arena and a root position, after checking that they form a
    /// well-shaped tree.
    pub fn new(nodes: Vec<ProcessNode>, root: usize) -> (r: Option<ProcessTree>)
        ensures
            match r {
                Some(t) => t.nodes == nodes && t.root == root && t.wf(),
                None => !tree_wf(nodes@, root as int),
            },
    {
        if wf_check(&nodes, root) {
            Some(ProcessTree { nodes, root })
        } else {
            None
        }
    }
}


/// Whether the child at position `c` collapses into the kept sibling at
/// position `last`: both are childless and carry the same name.
pub open spec fn dup_leaf(nodes: Seq<ProcessNode>, last: usize, c: usize) -> bool {
    &&& nodes[last as int].children@.len() == 0
    &&& nodes[c as int].children@.len() == 0
    &&& nodes[c as int].proc_info.name@ == nodes[last as int].proc_info.name@
}

/// What is kept of `s[i..]` when the last kept sibling is `last`.
pub open spec fn collapse_rec(s: Seq<usize>, nodes: Seq<ProcessNode>, last: usize, i: int) -> Seq<
    usize,
>
    decreases s.len() - i,
{
    if i < 0 || i >= s.len() {
        Seq::empty()
    } else if dup_leaf(nodes, last, s[i]) {
        collapse_rec(s, nodes, last, i + 1)
    } else {
        seq![s[i]] + collapse_rec(s, nodes, s[i], i + 1)
    }
}

/// One children list after collapsing runs of equal-named childless siblings
/// down to their first member.
pub open spec fn collapse(s: Seq<usize>, nodes: Seq<ProcessNode>) -> Seq<usize> {
    if s.len() == 0 {
        s
    } else {
        seq![s[0]] + collapse_rec(s, nodes, s[0], 1)
    }
}

/// Everything `collapse_rec` keeps comes from `s` at or after `i`, and a
/// strictly increasing list stays strictly increasing.
proof fn lemma_collapse_rec_props(s: Seq<usize>, nodes: Seq<ProcessNode>, last: usize, i: int)
    requires
        0 <= i <= s.len(),
    ensures
        forall|t: int|
            0 <= t < collapse_rec(s, nodes, last, i).len() ==> exists|w: int|
                i <= w < s.len() && #[trigger] collapse_rec(s, nodes, last, i)[t] == s[w],
        strictly_increasing(s) ==> strictly_increasing(collapse_rec(s, nodes, last, i)),
    decreases s.len() - i,
{
    if i < s.len() {
        let res = collapse_rec(s, nodes, last, i);
        if dup_leaf(nodes, last, s[i]) {
            lemma_collapse_rec_props(s, nodes, last, i + 1);
            assert forall|t: int| 0 <= t < res.len() implies exists|w: int|
                i <= w < s.len() && #[trigger] res[t] == s[w] by {
                let w = choose|w: int|
                    i + 1 <= w < s.len() && collapse_rec(s, nodes, last, i + 1)[t] == s[w];
                assert(i <= w < s.len() && res[t] == s[w]);
            }
        } else {
            lemma_collapse_rec_props(s, nodes, s[i], i + 1);
            let rest = collapse_rec(s, nodes, s[i], i + 1);
            assert forall|t: int| 0 <= t < res.len() implies exists|w: int|
                i <= w < s.len() && #[trigger] res[t] == s[w] by {
                if t == 0 {
                    assert(res[0] == s[i]);
                } else {
                    let w = choose|w: int| i + 1 <= w < s.len() && rest[t - 1] == s[w];
                    assert(i <= w < s.len() && res[t] == s[w]);
                }
            }
            if strictly_increasing(s) {
                assert forall|x: int, y: int|
                    #![trigger res[x], res[y]]
                    0 <= x < y < res.len() implies res[x] < res[y] by {
                    if x == 0 {
                        let w = choose|w: int| i + 1 <= w < s.len() && rest[y - 1] == s[w];
                        assert(s[i] < s[w]);
                        assert(res[y] == rest[y - 1]);
                    } else {
                        assert(res[x] == rest[x - 1] && res[y] == rest[y - 1]);
                    }
                }
            }
        }
    }
}

/// As `lemma_collapse_rec_props`, for the whole list.
pub proof fn lemma_collapse_props(s: Seq<usize>, nodes: Seq<ProcessNode>)
    ensures
        forall|t: int|
            0 <= t < collapse(s, nodes).len() ==> exists|w: int|
                0 <= w < s.len() && #[trigger] collapse(s, nodes)[t] == s[w],
        strictly_increasing(s) ==> strictly_increasing(collapse(s, nodes)),
        s.len() > 0 ==> collapse(s, nodes).len() > 0 && collapse(s, nodes)[0] == s[0],
        s.len() == 0 ==> collapse(s, nodes).len() == 0,
{
    if s.len() > 0 {
        lemma_collapse_rec_props(s, nodes, s[0], 1);
        let res = collapse(s, nodes);
        let rest = collapse_rec(s, nodes, s[0], 1);
        assert forall|t: int| 0 <= t < res.len() implies exists|w: int|
            0 <= w < s.len() && #[trigger] res[t] == s[w] by {
            if t == 0 {
                assert(res[0] == s[0]);
            } else {
                let w = choose|w: int| 1 <= w < s.len() && rest[t - 1] == s[w];
                assert(0 <= w < s.len() && res[t] == s[w]);
            }
        }
        if strictly_increasing(s) {
            assert forall|x: int, y: int|
                #![trigger res[x], res[y]]
                0 <= x < y < res.len() implies res[x] < res[y] by {
                if x == 0 {
                    let w = choose|w: int| 1 <= w < s.len() && rest[y - 1] == s[w];
                    assert(s[0] < s[w]);
                    assert(res[y] == rest[y - 1]);
                } else {
                    assert(res[x] == rest[x - 1] && res[y] == rest[y - 1]);
                }
            }
        }
    }
}

impl ProcessTree {
    /// Collapses, under every node, runs of adjacent childless children that
    /// share a name down to the first of the run. Branch children are never
    /// collapsed, and nothing else about the tree changes.
    #[verifier::spinoff_prover]
    #[verifier::rlimit(50)]
    pub fn filter_unique(&mut self)
        requires
            old(self).wf(),
        ensures
            final(self).wf(),
            final(self).root == old(self).root,
            final(self).nodes@.len() == old(self).nodes@.len(),
            forall|a: int|
                0 <= a < final(self).nodes@.len() ==> #[trigger] final(self).nodes@[a].proc_info
                    == old(self).nodes@[a].proc_info,
            forall|a: int|
                0 <= a < final(self).nodes@.len() ==> #[trigger] final(self).nodes@[a].children@
                    == collapse(old(self).nodes@[a].children@, old(self).nodes@),
    {
        let n = self.nodes.len();
        let ghost orig = old(self).nodes@;
        let mut a: usize = 0;
        while a < n
            invariant
                n == self.nodes@.len() == orig.len(),
                orig == old(self).nodes@,
                self.root == old(self).root,
                a <= n,
                child_slots_ok(orig),
                forall|x: int| a <= x < n ==> #[trigger] self.nodes@[x] == orig[x],
                forall|x: int|
                    0 <= x < a ==> #[trigger] self.nodes@[x].proc_info == orig[x].proc_info,
                forall|x: int|
                    0 <= x < a ==> #[trigger] self.nodes@[x].children@ == collapse(
                        orig[x].children@,
                        orig,
                    ),
            decreases n - a,
        {
            let ghost s = self.nodes@[a as int].children@;
            proof {
                assert(s == orig[a as int].children@);
            }
            let cc = self.nodes[a].children.len();
            let mut kept: Vec<usize> = Vec::new();
            let mut k: usize = 0;
            while k < cc
                invariant
                    n == self.nodes@.len() == orig.len(),
                    a < n,
                    k <= cc,
                    child_slots_ok(orig),
                    forall|x: int| a <= x < n ==> #[trigger] self.nodes@[x] == orig[x],
                    s == orig[a as int].children@,
                    cc == s.len(),
                    k == 0 ==> kept@ == Seq::<usize>::empty(),
                    k > 0 ==> kept@.len() > 0 && collapse(s, orig) == kept@ + collapse_rec(
                        s,
                        orig,
                        kept@.last(),
                        k as int,
                    ),
                    k > 0 ==> exists|w: int| 0 <= w < k && kept@.last() == s[w],
                decreases cc - k,
            {
                let c = self.nodes[a].children[k];
                proof {
                    assert(c == s[k as int]);
                    assert((a as int) < c && (c as int) < n);
                }
                if k == 0 {
                    kept.push(c);
                    proof {
                        assert(kept@ =~= seq![s[0]]);
                        assert(collapse(s, orig) == seq![s[0]] + collapse_rec(s, orig, s[0], 1));
                        assert(kept@ + collapse_rec(s, orig, s[0], 1) =~= seq![s[0]]
                            + collapse_rec(s, orig, s[0], 1));
                    }
                } else {
                    let last = kept[kept.len() - 1];
                    proof {
                        let w = choose|w: int| 0 <= w < k && kept@.last() == s[w];
                        assert((a as int) < s[w] && (s[w] as int) < n);
                        assert(self.nodes@[last as int] == orig[last as int]);
                        assert(self.nodes@[c as int] == orig[c as int]);
                    }
                    let c_leaf = self.nodes[c].children.len() == 0;
                    let l_leaf = self.nodes[last].children.len() == 0;
                    let same_name = self.nodes[c].proc_info.name == self.nodes[last].proc_info.name;
                    if c_leaf && l_leaf && same_name {
                        proof {
                            assert(dup_leaf(orig, last, c));
                            assert(collapse_rec(s, orig, last, k as int) == collapse_rec(
                                s,
                                orig,
                                last,
                                k as int + 1,
                            ));
                        }
                    } else {
                        let ghost kept_old = kept@;
                        kept.push(c);
                        proof {
                            assert(!dup_leaf(orig, last, c));
                            assert(collapse_rec(s, orig, last, k as int) == seq![c]
                                + collapse_rec(s, orig, c, k as int + 1));
                            assert(kept_old + (seq![c] + collapse_rec(s, orig, c, k as int + 1))
                                =~= kept@ + collapse_rec(s, orig, c, k as int + 1));
                        }
                    }
                }
                k = k + 1;
            }
            proof {
                if cc == 0 {
                    assert(collapse(s, orig) =~= kept@);
                } else {
                    assert(collapse_rec(s, orig, kept@.last(), cc as int) == Seq::<usize>::empty());
                    assert(kept@ + Seq::<usize>::empty() =~= kept@);
                }
            }
            self.nodes[a].children = kept;
            proof {
                assert(self.nodes@[a as int].children@ == collapse(orig[a as int].children@, orig));
            }
            a = a + 1;
        }
        proof {
            assert forall|x: int| 0 <= x < n implies strictly_increasing(
                #[trigger] self.nodes@[x].children@,
            ) by {
                lemma_collapse_props(orig[x].children@, orig);
            }
            assert(child_slots_ok(self.nodes@)) by {
                assert forall|x: int, t: int|
                    0 <= x < n && 0 <= t < self.nodes@[x].children@.len() implies x
                    < #[trigger] self.nodes@[x].children@[t] && self.nodes@[x].children@[t] < n by {
                    lemma_collapse_props(orig[x].children@, orig);
                    let w = choose|w: int|
                        0 <= w < orig[x].children@.len() && self.nodes@[x].children@[t]
                            == orig[x].children@[w];
                    assert(x < orig[x].children@[w] && (orig[x].children@[w] as int) < n);
                }
            }
            assert(child_slots_unique(self.nodes@)) by {
                assert forall|x: int, t: int, y: int, u: int|
                    #![trigger self.nodes@[x].children@[t], self.nodes@[y].children@[u]]
                    0 <= x < n && 0 <= t < self.nodes@[x].children@.len() && 0 <= y < n && 0 <= u
                        < self.nodes@[y].children@.len() && (x != y || t != u) implies self.nodes@[
                    x
                ].children@[t] != self.nodes@[y].children@[u] by {
                    lemma_collapse_props(orig[x].children@, orig);
                    lemma_collapse_props(orig[y].children@, orig);
                    let w1 = choose|w: int|
                        0 <= w < orig[x].children@.len() && self.nodes@[x].children@[t]
                            == orig[x].children@[w];
                    let w2 = choose|w: int|
                        0 <= w < orig[y].children@.len() && self.nodes@[y].children@[u]
                            == orig[y].children@[w];
                    if x != y {
                        assert(orig[x].children@[w1] != orig[y].children@[w2]);
                    } else if t != u {
                        assert(strictly_increasing(self.nodes@[x].children@));
                    }
                }
            }
        }
    }
}

/// Links a pid-ordered batch of records into a tree: one node per record, a
/// child attached to the node of the last earlier record carrying its parent
/// pid, and the root resolved from `root_pid` (0 meaning the first record).
#[verifier::spinoff_prover]
#[verifier::rlimit(50)]
pub fn treefy_proc(records: Vec<ProcessInfo>, root_pid: u32) -> (r: Result<
    ProcessTree,
    TreeError,
>)
    ensures
        match r {
            Ok(t) => {
                &&& built_from(t.nodes@, records@)
                &&& t.wf()
                &&& (root_pid == 0 ==> records@.len() > 0 && last_index_with_pid(
                    records@,
                    records@[0].pid,
                    records@.len() as int,
                ) == Some(t.root as int))
                &&& (root_pid != 0 ==> last_index_with_pid(
                    records@,
                    root_pid,
                    records@.len() as int,
                ) == Some(t.root as int))
                &&& t.nodes@[t.root as int].proc_info.pid == (if root_pid == 0 {
                    records@[0].pid
                } else {
                    root_pid
                })
            },
            Err(e) => match e {
                TreeError::EmptyInput => root_pid == 0 && records@.len() == 0,
                TreeError::RootNotFound => root_pid != 0 && forall|j: int|
                    0 <= j < records@.len() ==> #[trigger] records@[j].pid != root_pid,
            },
        },
{
    let n = records.len();
    let target: u32 = if root_pid == 0 {
        if n == 0 {
            return Err(TreeError::EmptyInput);
        }
        records[0].pid
    } else {
        root_pid
    };
    let mut nodes: Vec<ProcessNode> = Vec::new();
    let mut map: HashMap<u32, usize> = HashMap::new();
    let mut i: usize = 0;
    while i < n
        invariant
            n == records@.len(),
            i <= n,
            nodes@.len() == i,
            forall|p: u32|
                #[trigger] map@.contains_key(p) <==> last_index_with_pid(records@, p, i as int)
                    is Some,
            forall|p: u32|
                map@.contains_key(p) ==> last_index_with_pid(records@, p, i as int) == Some(
                    #[trigger] map@[p] as int,
                ) && map@[p] < i,
            forall|a: int| 0 <= a < i ==> #[trigger] nodes@[a].proc_info == records@[a],
            forall|a: int| 0 <= a < i ==> strictly_increasing(#[trigger] nodes@[a].children@),
            forall|a: int, k: int|
                0 <= a < i && 0 <= k < nodes@[a].children@.len() ==> a
                    < #[trigger] nodes@[a].children@[k] && nodes@[a].children@[k] < i,
            forall|j: int, c: int|
                0 <= j < i && 0 <= c < i ==> (#[trigger] nodes@[j].children@.contains(c as usize)
                    <==> parent_slot(records@, c) == Some(j)),
        decreases n - i,
    {
        let ghost head = nodes@;
        let info = records[i].duplicate();
        let ppid = info.ppid;
        let pid = info.pid;
        nodes.push(ProcessNode::new(info));
        let ghost nodes_before = nodes@;
        proof {
            assert(nodes_before == head.push(nodes_before[i as int]));
            assert(forall|x: int| 0 <= x < i ==> #[trigger] nodes_before[x] == head[x]);
            assert(nodes_before[i as int].children@.len() == 0);
        }
        let mut attached: bool = false;
        let mut p: usize = 0;
        if ppid != 0 {
            if let Some(pref) = map.get(&ppid) {
                p = *pref;
                attached = true;
                nodes[p].children.push(i);
            }
        }
        proof {
            assert forall|c: int| 0 <= c < i implies #[trigger] parent_slot(records@, c) != Some(
                i as int,
            ) by {
                if records@[c].ppid != 0 {
                    lemma_last_index_with_pid(records@, records@[c].ppid, c);
                }
            }
            if attached {
                assert(parent_slot(records@, i as int) == Some(p as int));
                assert(p < i);
                assert(forall|x: int|
                    0 <= x < i + 1 && x != p as int ==> #[trigger] nodes@[x] == nodes_before[x]);
                assert(nodes@ == nodes_before.update(
                    p as int,
                    ProcessNode {
                        proc_info: nodes_before[p as int].proc_info,
                        children: nodes@[p as int].children,
                    },
                ));
                assert(nodes@[p as int].children@ == nodes_before[p as int].children@.push(
                    i as usize,
                ));
                let news = nodes@[p as int].children@;
                let olds = nodes_before[p as int].children@;
                assert(olds == head[p as int].children@);
                assert(strictly_increasing(olds));
                assert(strictly_increasing(news)) by {
                    assert forall|x: int, y: int|
                        #![trigger news[x], news[y]]
                        0 <= x < y < news.len() implies news[x] < news[y] by {
                        if y < olds.len() {
                            assert(olds[x] == news[x] && olds[y] == news[y]);
                        } else {
                            assert(news[y] == i as usize);
                            assert(news[x] == olds[x]);
                            assert(head[p as int].children@[x] < i as usize);
                        }
                    }
                }
                assert forall|j: int, c: int|
                    0 <= j < i + 1 && 0 <= c < i + 1 implies (
                #[trigger] nodes@[j].children@.contains(c as usize) <==> parent_slot(records@, c)
                    == Some(j)) by {
                    if c < i && j < i {
                        assert(parent_slot(records@, c) == Some(j) <==> head[j].children@.contains(
                            c as usize,
                        ));
                        if j != p as int {
                            assert(nodes@[j] == head[j]);
                        }
                        if j == p as int {
                            assert(nodes_before[j] == head[j]);
                            assert(nodes@[j].children@.contains(c as usize)
                                <==> nodes_before[j].children@.contains(c as usize)) by {
                                if nodes@[j].children@.contains(c as usize) {
                                    let w = choose|w: int|
                                        0 <= w < news.len() && news[w] == c as usize;
                                    if w < olds.len() {
                                        assert(olds[w] == c as usize);
                                    }
                                }
                                if nodes_before[j].children@.contains(c as usize) {
                                    let w = choose|w: int|
                                        0 <= w < olds.len() && olds[w] == c as usize;
                                    assert(news[w] == c as usize);
                                }
                            }
                        }
                    } else if c == i && j < i + 1 {
                        if j == p as int {
                            assert(news.last() == i as usize);
                            assert(news.contains(i as usize));
                        } else {
                            if nodes@[j].children@.contains(i as usize) {
                                let w = choose|w: int|
                                    0 <= w < nodes@[j].children@.len() && nodes@[j].children@[w]
                                        == i as usize;
                                if j < i {
                                    assert(nodes@[j] == head[j]);
                                    assert(head[j].children@[w] < i as usize);
                                } else {
                                    assert(nodes@[j].children@.len() == 0);
                                }
                            }
                        }
                    } else if c < i && j == i {
                        assert(nodes@[j] == nodes_before[j]);
                        assert(nodes@[j].children@.len() == 0);
                    } else if c == i && j == i {
                        assert(nodes@[j] == nodes_before[j]);
                        assert(nodes@[j].children@.len() == 0);
                    }
                }
                assert forall|a2: int| 0 <= a2 < i + 1 implies strictly_increasing(
                    #[trigger] nodes@[a2].children@,
                ) by {
                    if a2 == p as int {
                        assert(strictly_increasing(news));
                    } else if a2 < i {
                        assert(nodes@[a2] == head[a2]);
                        assert(nodes@[a2].children@ == head[a2].children@);
                        assert(strictly_increasing(head[a2].children@));
                    } else {
                        assert(nodes@[a2] == nodes_before[a2]);
                        assert(nodes@[a2].children@.len() == 0);
                    }
                }
                assert forall|a2: int, k2: int|
                    0 <= a2 < i + 1 && 0 <= k2 < nodes@[a2].children@.len() implies a2
                    < #[trigger] nodes@[a2].children@[k2] && nodes@[a2].children@[k2] < i + 1 by {
                    if a2 == p as int {
                        if k2 < olds.len() {
                            assert(news[k2] == olds[k2]);
                            assert(head[a2].children@[k2] == olds[k2]);
                        } else {
                            assert(news[k2] == i as usize);
                        }
                    } else if a2 < i {
                        assert(nodes@[a2] == head[a2]);
                    } else {
                        assert(nodes@[a2] == nodes_before[a2]);
                        assert(nodes@[a2].children@.len() == 0);
                    }
                }
            } else {
                assert(parent_slot(records@, i as int) is None);
                assert(nodes@ == nodes_before);
                assert forall|j: int, c: int|
                    0 <= j < i + 1 && 0 <= c < i + 1 implies (
                #[trigger] nodes@[j].children@.contains(c as usize) <==> parent_slot(records@, c)
                    == Some(j)) by {
                    if j < i {
                        assert(nodes@[j] == head[j]);
                        if c < i {
                            assert(head[j].children@.contains(c as usize) <==> parent_slot(
                                records@,
                                c,
                            ) == Some(j));
                        } else {
                            if nodes@[j].children@.contains(c as usize) {
                                let w = choose|w: int|
                                    0 <= w < nodes@[j].children@.len() && nodes@[j].children@[w]
                                        == c as usize;
                                assert(head[j].children@[w] < i as usize);
                            }
                        }
                    } else {
                        assert(nodes@[j].children@.len() == 0);
                        if c < i {
                            if records@[c].ppid != 0 {
                                lemma_last_index_with_pid(records@, records@[c].ppid, c);
                            }
                        }
                    }
                }
                assert forall|a2: int| 0 <= a2 < i + 1 implies strictly_increasing(
                    #[trigger] nodes@[a2].children@,
                ) by {
                    if a2 < i {
                        assert(nodes@[a2] == head[a2]);
                        assert(nodes@[a2].children@ == head[a2].children@);
                        assert(strictly_increasing(head[a2].children@));
                    } else {
                        assert(nodes@[a2].children@.len() == 0);
                    }
                }
                assert forall|a2: int, k2: int|
                    0 <= a2 < i + 1 && 0 <= k2 < nodes@[a2].children@.len() implies a2
                    < #[trigger] nodes@[a2].children@[k2] && nodes@[a2].children@[k2] < i + 1 by {
                    if a2 < i {
                        assert(nodes@[a2] == head[a2]);
                        assert(nodes@[a2].children@ == head[a2].children@);
                        assert(strictly_increasing(head[a2].children@));
                    } else {
                        assert(nodes@[a2].children@.len() == 0);
                    }
                }
            }
        }
        map.insert(pid, i);
        i = i + 1;
    }
    let root: usize = match map.get(&target) {
        Some(r) => *r,
        None => {
            proof {
                if root_pid == 0 {
                    assert(records@[0].pid == target);
                    lemma_last_index_with_pid(records@, target, n as int);
                    assert(records@[0].pid != target);
                }
                lemma_last_index_with_pid(records@, target, n as int);
            }
            return Err(TreeError::RootNotFound);
        },
    };
    proof {
        lemma_last_index_with_pid(records@, target, n as int);
        assert(child_slots_unique(nodes@)) by {
            assert forall|a: int, k: int, b: int, m: int|
                #![trigger nodes@[a].children@[k], nodes@[b].children@[m]]
                0 <= a < nodes@.len() && 0 <= k < nodes@[a].children@.len() && 0 <= b
                    < nodes@.len() && 0 <= m < nodes@[b].children@.len() && (a != b || k != m)
                    implies nodes@[a].children@[k] != nodes@[b].children@[m] by {
                let c1 = nodes@[a].children@[k];
                let c2 = nodes@[b].children@[m];
                assert(nodes@[a].children@.contains(c1));
                assert(nodes@[b].children@.contains(c2));
                if c1 == c2 {
                    assert(0 <= (c1 as int) && (c1 as int) < n && ((c1 as int) as usize) == c1);
                    assert(nodes@[a].children@.contains(((c1 as int) as usize)));
                    assert(nodes@[b].children@.contains(((c1 as int) as usize)));
                    assert(parent_slot(records@, c1 as int) == Some(a));
                    assert(parent_slot(records@, c2 as int) == Some(b));
                    if a == b {
                        assert(k != m);
                        assert(nodes@[a].children@[k] != nodes@[b].children@[m]);
                    }
                }
            }
        }
    }
    Ok(ProcessTree { nodes, root })
}

} // verus!
