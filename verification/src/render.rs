use vstd::prelude::*;
use vstd::string::StringExecFns;
use crate::record::ProcessInfo;
use crate::digits::spec_decimal;
use crate::digits::u32_to_string;
use crate::tree::ProcessNode;
use crate::tree::ProcessTree;
use crate::tree::child_slots_ok;
use crate::tree::tree_wf;

verus! {

// What a builder or item holds is modelled as the sequence of moves that
// draws it: `(0, text)` opens an item labelled `text`, `(1, "")` closes the
// innermost open item.
pub open spec fn op_open(t: Seq<char>) -> (int, Seq<char>) {
    (0, t)
}

pub open spec fn op_close() -> (int, Seq<char>) {
    (1int, Seq::<char>::empty())
}

/// How many opened items a move sequence leaves unclosed.
pub open spec fn open_depth(ops: Seq<(int, Seq<char>)>) -> int
    decreases ops.len(),
{
    if ops.len() == 0 {
        0
    } else {
        open_depth(ops.drop_last()) + (if ops.last().0 == 0 {
            1int
        } else {
            -1int
        })
    }
}

/// `n` closing moves.
pub open spec fn closes(n: int) -> Seq<(int, Seq<char>)>
    decreases n,
{
    if n <= 0 {
        Seq::empty()
    } else {
        seq![op_close()] + closes(n - 1)
    }
}

#[verifier::external_type_specification]
#[verifier::external_body]
pub struct ExTreeBuilder(ptree::TreeBuilder);

#[verifier::external_type_specification]
#[verifier::external_body]
pub struct ExStringItem(ptree::item::StringItem);

/// The moves that draw what the builder holds so far, the innermost open
/// items left unclosed.
pub uninterp spec fn builder_ops(b: ptree::TreeBuilder) -> Seq<(int, Seq<char>)>;

/// The moves that draw a finished item tree, every item closed.
pub uninterp spec fn item_ops(i: ptree::item::StringItem) -> Seq<(int, Seq<char>)>;

/// Relies on ptree's TreeBuilder::new: it holds one open item labelled
/// `text`, which later children are added under.
#[verifier::external_body]
fn tb_new(text: String) -> (b: ptree::TreeBuilder)
    ensures
        builder_ops(b) == seq![op_open(text@)],
{
    ptree::TreeBuilder::new(text)
}

/// Relies on ptree's TreeBuilder::begin_child: it adds a child under the
/// innermost open item and leaves the child open.
#[verifier::external_body]
fn tb_begin_child(b: &mut ptree::TreeBuilder, text: String)
    requires
        open_depth(builder_ops(*old(b))) >= 1,
    ensures
        builder_ops(*final(b)) == builder_ops(*old(b)).push(op_open(text@)),
{
    b.begin_child(text);
}

/// Relies on ptree's TreeBuilder::add_empty_child: it adds a childless child
/// under the innermost open item and closes it at once.
#[verifier::external_body]
fn tb_add_empty_child(b: &mut ptree::TreeBuilder, text: String)
    requires
        open_depth(builder_ops(*old(b))) >= 1,
    ensures
        builder_ops(*final(b)) == builder_ops(*old(b)).push(op_open(text@)).push(op_close()),
{
    b.add_empty_child(text);
}

/// Relies on ptree's TreeBuilder::end_child: it closes the innermost open
/// item. The root item must stay open, else the builder's level underflows.
#[verifier::external_body]
fn tb_end_child(b: &mut ptree::TreeBuilder)
    requires
        open_depth(builder_ops(*old(b))) >= 2,
    ensures
        builder_ops(*final(b)) == builder_ops(*old(b)).push(op_close()),
{
    b.end_child();
}

/// Relies on ptree's TreeBuilder::build: it clones the tree built so far,
/// which closes every item still open, and leaves the builder as it was.
#[verifier::external_body]
fn tb_build(b: &mut ptree::TreeBuilder) -> (item: ptree::item::StringItem)
    ensures
        item_ops(item) == builder_ops(*old(b)) + closes(open_depth(builder_ops(*old(b)))),
        builder_ops(*final(b)) == builder_ops(*old(b)),
{
    b.build()
}

/// The label a node is rendered with: its name, prefixed by `[pid] ` when
/// pid display is on.
pub open spec fn spec_label(info: ProcessInfo, show_pid: bool) -> Seq<char> {
    if show_pid {
        seq!['['] + spec_decimal(info.pid as nat) + seq![']', ' '] + info.name@
    } else {
        info.name@
    }
}

pub fn make_label(info: &ProcessInfo, show_pid: bool) -> (s: String)
    ensures
        s@ == spec_label(*info, show_pid),
{
    if show_pid {
        let mut s = String::new();
        s.append("[");
        let digits = u32_to_string(info.pid);
        s.append(digits.as_str());
        s.append("] ");
        s.append(info.name.as_str());
        proof {
            reveal_strlit("[");
            reveal_strlit("] ");
            assert(s@ =~= spec_label(*info, show_pid));
        }
        s
    } else {
        info.name.clone()
    }
}

/// The moves that render the subtree at position `i`: open its label, render
/// each child in list order, close.
pub open spec fn node_steps(nodes: Seq<ProcessNode>, i: int, sp: bool) -> Seq<(int, Seq<char>)>
    decreases nodes.len() - i, 1int, 0int
        when 0 <= i < nodes.len() && child_slots_ok(nodes)
{
    seq![op_open(spec_label(nodes[i].proc_info, sp))] + kids_steps(nodes, i, 0, sp) + seq![
        op_close(),
    ]
}

/// The moves that render children `k..` of node `i`, left to right.
pub open spec fn kids_steps(nodes: Seq<ProcessNode>, i: int, k: int, sp: bool) -> Seq<
    (int, Seq<char>),
>
    decreases nodes.len() - i, 0int, nodes[i].children@.len() - k
        when 0 <= i < nodes.len() && 0 <= k && child_slots_ok(nodes)
{
    if k >= nodes[i].children@.len() {
        Seq::empty()
    } else {
        node_steps(nodes, nodes[i].children@[k] as int, sp) + kids_steps(nodes, i, k + 1, sp)
    }
}

/// The moves still owed when the work stack holds `st` (top last) and `lvl`
/// items are open.
spec fn rem_steps(nodes: Seq<ProcessNode>, st: Seq<(usize, usize)>, lvl: int, sp: bool) -> Seq<
    (int, Seq<char>),
>
    decreases st.len(),
{
    if st.len() == 0 {
        closes(lvl)
    } else {
        closes(lvl - st.last().1) + node_steps(nodes, st.last().0 as int, sp) + rem_steps(
            nodes,
            st.drop_last(),
            st.last().1 as int,
            sp,
        )
    }
}

/// The stack entries for children `k..cc` of node `i`, pushed deepest-first
/// so that child `k` sits on top.
spec fn rev_kid_entries(nodes: Seq<ProcessNode>, i: int, k: int, d: int) -> Seq<(usize, usize)> {
    Seq::new(
        (nodes[i].children@.len() - k) as nat,
        |t: int| (nodes[i].children@[nodes[i].children@.len() - 1 - t], d as usize),
    )
}

/// Popping the pushed children off the stack renders exactly children `k..`
/// of node `i`, and then what was owed before.
proof fn lemma_rem_kids(
    nodes: Seq<ProcessNode>,
    st0: Seq<(usize, usize)>,
    i: int,
    k: int,
    d: int,
    sp: bool,
)
    requires
        child_slots_ok(nodes),
        0 <= i < nodes.len(),
        0 <= k <= nodes[i].children@.len(),
        1 <= d <= usize::MAX,
    ensures
        rem_steps(nodes, st0 + rev_kid_entries(nodes, i, k, d), d, sp) == kids_steps(
            nodes,
            i,
            k,
            sp,
        ) + rem_steps(nodes, st0, d, sp),
    decreases nodes[i].children@.len() - k,
{
    let cc = nodes[i].children@.len() as int;
    if k == cc {
        assert(st0 + rev_kid_entries(nodes, i, k, d) =~= st0);
        assert(kids_steps(nodes, i, k, sp) + rem_steps(nodes, st0, d, sp) =~= rem_steps(
            nodes,
            st0,
            d,
            sp,
        ));
    } else {
        lemma_rem_kids(nodes, st0, i, k + 1, d, sp);
        let whole = st0 + rev_kid_entries(nodes, i, k, d);
        assert(whole.last() == (nodes[i].children@[k], d as usize));
        assert(whole.drop_last() =~= st0 + rev_kid_entries(nodes, i, k + 1, d));
        let c = nodes[i].children@[k] as int;
        assert(rem_steps(nodes, whole, d, sp) == closes(0) + node_steps(nodes, c, sp) + rem_steps(
            nodes,
            whole.drop_last(),
            d,
            sp,
        ));
        assert(closes(0) + node_steps(nodes, c, sp) =~= node_steps(nodes, c, sp));
        assert(node_steps(nodes, c, sp) + (kids_steps(nodes, i, k + 1, sp) + rem_steps(
            nodes,
            st0,
            d,
            sp,
        )) =~= (node_steps(nodes, c, sp) + kids_steps(nodes, i, k + 1, sp)) + rem_steps(
            nodes,
            st0,
            d,
            sp,
        ));
    }
}

impl ProcessTree {
    /// Renders the subtree under the configured root as a ptree item, by an
    /// iterative depth-first walk over an explicit (position, depth) stack —
    /// no recursion, so arbitrarily deep hierarchies cannot overflow the call
    /// stack. Children are pushed in reverse so they are drawn left to right.
    pub fn render(&self, show_pid: bool) -> (r: Option<ptree::item::StringItem>)
        ensures
            match r {
                Some(item) => self.wf() && item_ops(item) == node_steps(
                    self.nodes@,
                    self.root as int,
                    show_pid,
                ),
                None => !self.wf(),
            },
    {
        if !crate::tree::wf_check(&self.nodes, self.root) {
            return None;
        }
        let ghost nodes = self.nodes@;
        let ghost total = node_steps(self.nodes@, self.root as int, show_pid);
        let n = self.nodes.len();
        let root = self.root;
        let label = make_label(&self.nodes[root].proc_info, show_pid);
        let mut b = tb_new(label);
        let mut level: usize = 1;
        let mut stack: Vec<(usize, usize)> = Vec::new();
        proof {
            assert(open_depth(seq![op_open(spec_label(nodes[root as int].proc_info, show_pid))])
                == 1) by {
                let s = seq![op_open(spec_label(nodes[root as int].proc_info, show_pid))];
                assert(s.drop_last() =~= Seq::<(int, Seq<char>)>::empty());
                assert(open_depth(Seq::<(int, Seq<char>)>::empty()) == 0);
                assert(s.last().0 == 0);
            }
        }
        let cc = self.nodes[root].children.len();
        let mut k: usize = cc;
        while k > 0
            invariant
                n == nodes.len(),
                nodes == self.nodes@,
                tree_wf(nodes, root as int),
                root < n,
                k <= cc,
                cc == nodes[root as int].children@.len(),
                stack@ =~= rev_kid_entries(nodes, root as int, k as int, 1),
            decreases k,
        {
            k = k - 1;
            let child = self.nodes[root].children[k];
            stack.push((child, 1));
            proof {
                assert(stack@ =~= rev_kid_entries(nodes, root as int, k as int, 1));
            }
        }
        proof {
            lemma_rem_kids(nodes, Seq::empty(), root as int, 0, 1, show_pid);
            assert(Seq::<(usize, usize)>::empty() + rev_kid_entries(nodes, root as int, 0, 1)
                =~= stack@);
            assert(rem_steps(nodes, Seq::empty(), 1, show_pid) == closes(1));
            assert(closes(1) =~= seq![op_close()] + closes(0));
            assert(closes(0) =~= Seq::<(int, Seq<char>)>::empty());
            assert(closes(1) =~= seq![op_close()]);
            assert(total == seq![op_open(spec_label(nodes[root as int].proc_info, show_pid))]
                + kids_steps(nodes, root as int, 0, show_pid) + seq![op_close()]);
            assert(builder_ops(b) + rem_steps(nodes, stack@, 1, show_pid) =~= total);
        }
        while stack.len() > 0
            invariant
                n == nodes.len(),
                nodes == self.nodes@,
                tree_wf(nodes, root as int),
                total == node_steps(nodes, root as int, show_pid),
                1 <= level <= n,
                level as int == open_depth(builder_ops(b)),
                builder_ops(b) + rem_steps(nodes, stack@, level as int, show_pid) == total,
                forall|t: int|
                    0 <= t < stack@.len() ==> 1 <= (#[trigger] stack@[t]).1 && stack@[t].1
                        <= stack@[t].0 && stack@[t].0 < n,
                forall|t: int|
                    0 <= t < stack@.len() - 1 ==> (#[trigger] stack@[t]).1 <= stack@[t + 1].1,
                stack@.len() > 0 ==> stack@.last().1 == level,
            decreases rem_steps(nodes, stack@, level as int, show_pid).len(),
        {
            let ghost st_head = stack@;
            let ghost ops_head = builder_ops(b);
            let top = stack.pop().unwrap();
            let idx = top.0;
            let d = top.1;
            proof {
                assert(st_head.last() == top);
                assert(d == level);
                assert(stack@ =~= st_head.drop_last());
                assert(rem_steps(nodes, st_head, level as int, show_pid) == closes(0) + node_steps(
                    nodes,
                    idx as int,
                    show_pid,
                ) + rem_steps(nodes, stack@, d as int, show_pid));
                assert(closes(0) + node_steps(nodes, idx as int, show_pid) =~= node_steps(
                    nodes,
                    idx as int,
                    show_pid,
                ));
            }
            let label2 = make_label(&self.nodes[idx].proc_info, show_pid);
            let cc2 = self.nodes[idx].children.len();
            if cc2 == 0 {
                tb_add_empty_child(&mut b, label2);
                proof {
                    let lbl = spec_label(nodes[idx as int].proc_info, show_pid);
                    assert(kids_steps(nodes, idx as int, 0, show_pid) == Seq::<
                        (int, Seq<char>),
                    >::empty());
                    assert(node_steps(nodes, idx as int, show_pid) =~= seq![
                        op_open(lbl),
                        op_close(),
                    ]);
                    assert(builder_ops(b) =~= ops_head + node_steps(nodes, idx as int, show_pid));
                    assert(builder_ops(b) + rem_steps(nodes, stack@, level as int, show_pid)
                        =~= (ops_head + (node_steps(nodes, idx as int, show_pid) + rem_steps(
                        nodes,
                        stack@,
                        level as int,
                        show_pid,
                    ))));
                    assert(open_depth(builder_ops(b)) == level) by {
                        let o1 = ops_head.push(op_open(lbl));
                        assert(o1.drop_last() =~= ops_head);
                        assert(o1.last().0 == 0);
                        assert(open_depth(o1) == open_depth(ops_head) + 1);
                        assert(builder_ops(b) == o1.push(op_close()));
                        assert(builder_ops(b).drop_last() =~= o1);
                        assert(builder_ops(b).last().0 == 1);
                        assert(open_depth(builder_ops(b)) == open_depth(o1) - 1);
                    }
                }
            } else {
                tb_begin_child(&mut b, label2);
                proof {
                    let lbl = spec_label(nodes[idx as int].proc_info, show_pid);
                    assert(open_depth(builder_ops(b)) == level + 1) by {
                        assert(builder_ops(b).drop_last() =~= ops_head);
                        assert(builder_ops(b).last().0 == 0);
                    }
                }
                level = level + 1;
                let ghost st_mid = stack@;
                let mut k2: usize = cc2;
                while k2 > 0
                    invariant
                        n == nodes.len(),
                        nodes == self.nodes@,
                        tree_wf(nodes, root as int),
                        idx < n,
                        k2 <= cc2,
                        cc2 == nodes[idx as int].children@.len(),
                        d < level,
                        level == d + 1,
                        stack@ =~= st_mid + rev_kid_entries(
                            nodes,
                            idx as int,
                            k2 as int,
                            level as int,
                        ),
                    decreases k2,
                {
                    k2 = k2 - 1;
                    let child = self.nodes[idx].children[k2];
                    stack.push((child, level));
                    proof {
                        assert(stack@ =~= st_mid + rev_kid_entries(
                            nodes,
                            idx as int,
                            k2 as int,
                            level as int,
                        ));
                    }
                }
                proof {
                    let lbl = spec_label(nodes[idx as int].proc_info, show_pid);
                    lemma_rem_kids(nodes, st_mid, idx as int, 0, level as int, show_pid);
                    assert(rem_steps(nodes, stack@, level as int, show_pid) == kids_steps(
                        nodes,
                        idx as int,
                        0,
                        show_pid,
                    ) + rem_steps(nodes, st_mid, level as int, show_pid));
                    assert(rem_steps(nodes, st_mid, level as int, show_pid) == seq![op_close()]
                        + rem_steps(nodes, st_mid, d as int, show_pid)) by {
                        lemma_rem_level_step(nodes, st_mid, d as int, show_pid);
                    }
                    assert(builder_ops(b) == ops_head.push(op_open(lbl)));
                    assert(builder_ops(b) + rem_steps(nodes, stack@, level as int, show_pid)
                        =~= ops_head + ((seq![op_open(lbl)] + kids_steps(
                        nodes,
                        idx as int,
                        0,
                        show_pid,
                    ) + seq![op_close()]) + rem_steps(nodes, st_mid, d as int, show_pid)));
                    assert(builder_ops(b) + rem_steps(nodes, stack@, level as int, show_pid)
                        == total);
                    assert forall|t: int| 0 <= t < stack@.len() implies 1 <= (
                    #[trigger] stack@[t]).1 && stack@[t].1 <= stack@[t].0 && stack@[t].0 < n by {
                        if t >= st_mid.len() {
                            let j = t - st_mid.len();
                            assert(stack@[t] == (
                                nodes[idx as int].children@[nodes[idx as int].children@.len() - 1
                                    - j],
                                level as usize,
                            ));
                            assert((idx as int) < stack@[t].0 && (stack@[t].0 as int) < n);
                        }
                    }
                    assert forall|t: int| 0 <= t < stack@.len() - 1 implies (
                    #[trigger] stack@[t]).1 <= stack@[t + 1].1 by {
                        if t < st_mid.len() - 1 {
                            assert(stack@[t] == st_mid[t] && stack@[t + 1] == st_mid[t + 1]);
                            assert(st_head[t] == st_mid[t] && st_head[t + 1] == st_mid[t + 1]);
                        } else if t == st_mid.len() - 1 {
                            assert(stack@[t] == st_mid[t]);
                            assert(st_head[t] == st_mid[t]);
                            assert(st_head[t].1 <= st_head[t + 1].1);
                            assert(st_head[t + 1].1 == d);
                            assert(stack@[t + 1].1 == level as usize);
                        } else {
                            assert(stack@[t].1 == level as usize && stack@[t + 1].1
                                == level as usize);
                        }
                    }
                }
            }
            if stack.len() > 0 {
                let nd = stack[stack.len() - 1].1;
                proof {
                    assert(stack@.last().1 == nd);
                    assert(nd <= level);
                }
                while level > nd
                    invariant
                        n == nodes.len(),
                        nodes == self.nodes@,
                        tree_wf(nodes, root as int),
                        root < n,
                        total == node_steps(nodes, root as int, show_pid),
                        stack@.len() > 0,
                        stack@.last().1 == nd,
                        1 <= nd <= level,
                        level <= n,
                        level as int == open_depth(builder_ops(b)),
                        builder_ops(b) + rem_steps(nodes, stack@, level as int, show_pid) == total,
                    decreases level,
                {
                    let ghost ops0 = builder_ops(b);
                    tb_end_child(&mut b);
                    proof {
                        assert(builder_ops(b).drop_last() =~= ops0);
                        lemma_rem_level_step(nodes, stack@, level as int - 1, show_pid);
                        assert(ops0 + (seq![op_close()] + rem_steps(
                            nodes,
                            stack@,
                            level as int - 1,
                            show_pid,
                        )) =~= builder_ops(b) + rem_steps(
                            nodes,
                            stack@,
                            level as int - 1,
                            show_pid,
                        ));
                    }
                    level = level - 1;
                }
            }
        }
        proof {
            assert(rem_steps(nodes, stack@, level as int, show_pid) == closes(level as int));
            lemma_closes_len(level as int);
        }
        let item = tb_build(&mut b);
        proof {
            assert(item_ops(item) == builder_ops(b) + closes(level as int));
        }
        Some(item)
    }
}

/// Owing the moves of `st` with one more open item means one extra closing
/// move up front.
proof fn lemma_rem_level_step(
    nodes: Seq<ProcessNode>,
    st: Seq<(usize, usize)>,
    lvl: int,
    sp: bool,
)
    requires
        st.len() > 0 ==> st.last().1 <= lvl,
        st.len() == 0 ==> 0 <= lvl,
    ensures
        rem_steps(nodes, st, lvl + 1, sp) == seq![op_close()] + rem_steps(nodes, st, lvl, sp),
{
    if st.len() == 0 {
        assert(closes(lvl + 1) == seq![op_close()] + closes(lvl));
    } else {
        let d = st.last().1 as int;
        assert(closes(lvl + 1 - d) == seq![op_close()] + closes(lvl - d));
        assert((seq![op_close()] + closes(lvl - d)) + node_steps(nodes, st.last().0 as int, sp)
            + rem_steps(nodes, st.drop_last(), d, sp) =~= seq![op_close()] + (closes(lvl - d)
            + node_steps(nodes, st.last().0 as int, sp) + rem_steps(nodes, st.drop_last(), d, sp)));
    }
}

proof fn lemma_closes_len(nn: int)
    ensures
        closes(nn).len() == if nn <= 0 {
            0
        } else {
            nn
        },
    decreases nn,
{
    if nn > 0 {
        lemma_closes_len(nn - 1);
    }
}

/// A childless node renders as a single terminal label — its open move
/// directly followed by its close — while a node with children opens a
/// branch, renders each child in order, and closes it after the last child.
pub proof fn lemma_leaf_branch(nodes: Seq<ProcessNode>, i: int, sp: bool)
    requires
        child_slots_ok(nodes),
        0 <= i < nodes.len(),
    ensures
        node_steps(nodes, i, sp) == seq![op_open(spec_label(nodes[i].proc_info, sp))] + kids_steps(
            nodes,
            i,
            0,
            sp,
        ) + seq![op_close()],
        nodes[i].children@.len() == 0 ==> node_steps(nodes, i, sp) == seq![
            op_open(spec_label(nodes[i].proc_info, sp)),
            op_close(),
        ],
{
    if nodes[i].children@.len() == 0 {
        assert(kids_steps(nodes, i, 0, sp) == Seq::<(int, Seq<char>)>::empty());
        assert(seq![op_open(spec_label(nodes[i].proc_info, sp))] + kids_steps(nodes, i, 0, sp)
            + seq![op_close()] =~= seq![op_open(spec_label(nodes[i].proc_info, sp)), op_close()]);
    }
}

/// The moves that render children `x..y` of node `i`.
pub open spec fn kids_range(nodes: Seq<ProcessNode>, i: int, x: int, y: int, sp: bool) -> Seq<
    (int, Seq<char>),
>
    decreases y - x,
{
    if x < 0 || x >= y {
        Seq::empty()
    } else {
        node_steps(nodes, nodes[i].children@[x] as int, sp) + kids_range(nodes, i, x + 1, y, sp)
    }
}

/// Rendering children `x..` is rendering `x..y` and then `y..`.
pub proof fn lemma_kids_decompose(nodes: Seq<ProcessNode>, i: int, x: int, y: int, sp: bool)
    requires
        child_slots_ok(nodes),
        0 <= i < nodes.len(),
        0 <= x <= y <= nodes[i].children@.len(),
    ensures
        kids_steps(nodes, i, x, sp) == kids_range(nodes, i, x, y, sp) + kids_steps(
            nodes,
            i,
            y,
            sp,
        ),
    decreases y - x,
{
    if x == y {
        assert(kids_range(nodes, i, x, y, sp) + kids_steps(nodes, i, y, sp) =~= kids_steps(
            nodes,
            i,
            y,
            sp,
        ));
    } else {
        lemma_kids_decompose(nodes, i, x + 1, y, sp);
        let nd = node_steps(nodes, nodes[i].children@[x] as int, sp);
        assert(nd + (kids_range(nodes, i, x + 1, y, sp) + kids_steps(nodes, i, y, sp)) =~= (nd
            + kids_range(nodes, i, x + 1, y, sp)) + kids_steps(nodes, i, y, sp));
    }
}

/// The ordering law: two siblings keep their children-list order in the
/// rendered moves — everything child `x` contributes stands before
/// everything child `y` contributes. Since the builder links children in
/// record order, list order is the pid-ascending input order.
pub proof fn lemma_sibling_render_order(
    nodes: Seq<ProcessNode>,
    i: int,
    x: int,
    y: int,
    sp: bool,
)
    requires
        child_slots_ok(nodes),
        0 <= i < nodes.len(),
        0 <= x < y < nodes[i].children@.len(),
    ensures
        kids_steps(nodes, i, 0, sp) == kids_range(nodes, i, 0, x, sp) + (node_steps(
            nodes,
            nodes[i].children@[x] as int,
            sp,
        ) + (kids_range(nodes, i, x + 1, y, sp) + (node_steps(
            nodes,
            nodes[i].children@[y] as int,
            sp,
        ) + kids_steps(nodes, i, y + 1, sp)))),
{
    let cc = nodes[i].children@.len() as int;
    let ndx = node_steps(nodes, nodes[i].children@[x] as int, sp);
    let ndy = node_steps(nodes, nodes[i].children@[y] as int, sp);
    lemma_kids_decompose(nodes, i, 0, x, sp);
    lemma_kids_decompose(nodes, i, x + 1, y, sp);
    assert(kids_steps(nodes, i, x, sp) == ndx + kids_steps(nodes, i, x + 1, sp));
    assert(kids_steps(nodes, i, y, sp) == ndy + kids_steps(nodes, i, y + 1, sp));
    assert(kids_range(nodes, i, 0, x, sp) + (ndx + ((kids_range(nodes, i, x + 1, y, sp) + (ndy
        + kids_steps(nodes, i, y + 1, sp))))) =~= kids_range(nodes, i, 0, x, sp) + (ndx + (
    kids_range(nodes, i, x + 1, y, sp) + (ndy + kids_steps(nodes, i, y + 1, sp)))));
    assert(ndx + (kids_range(nodes, i, x + 1, y, sp) + (ndy + kids_steps(nodes, i, y + 1, sp)))
        =~= ndx + (kids_range(nodes, i, x + 1, y, sp) + kids_steps(nodes, i, y, sp)));
    assert(kids_range(nodes, i, 0, x, sp) + (ndx + (kids_range(nodes, i, x + 1, y, sp)
        + kids_steps(nodes, i, y, sp))) =~= kids_range(nodes, i, 0, x, sp) + (ndx + kids_steps(
        nodes,
        i,
        x + 1,
        sp,
    )));
    assert(kids_range(nodes, i, 0, x, sp) + (ndx + kids_steps(nodes, i, x + 1, sp)) =~= kids_range(
        nodes,
        i,
        0,
        x,
        sp,
    ) + kids_steps(nodes, i, x, sp));
}

/// The positions the renderer expands under `i`, in visiting order: `i`
/// itself, then each child's subtree, left to right — exactly the items
/// that `node_steps` opens.
pub open spec fn visited(nodes: Seq<ProcessNode>, i: int) -> Seq<int>
    decreases nodes.len() - i, 1int, 0int
        when 0 <= i < nodes.len() && child_slots_ok(nodes)
{
    seq![i] + kids_visited(nodes, i, 0)
}

pub open spec fn kids_visited(nodes: Seq<ProcessNode>, i: int, k: int) -> Seq<int>
    decreases nodes.len() - i, 0int, nodes[i].children@.len() - k
        when 0 <= i < nodes.len() && 0 <= k && child_slots_ok(nodes)
{
    if k >= nodes[i].children@.len() {
        Seq::empty()
    } else {
        visited(nodes, nodes[i].children@[k] as int) + kids_visited(nodes, i, k + 1)
    }
}

/// How often `x` occurs in `s`.
pub open spec fn count_of(s: Seq<int>, x: int) -> nat
    decreases s.len(),
{
    if s.len() == 0 {
        0
    } else {
        (if s[0] == x {
            1nat
        } else {
            0nat
        }) + count_of(s.drop_first(), x)
    }
}

pub proof fn lemma_count_concat(a: Seq<int>, b: Seq<int>, x: int)
    ensures
        count_of(a + b, x) == count_of(a, x) + count_of(b, x),
    decreases a.len(),
{
    if a.len() == 0 {
        assert(a + b =~= b);
    } else {
        assert((a + b).drop_first() =~= a.drop_first() + b);
        assert((a + b)[0] == a[0]);
        lemma_count_concat(a.drop_first(), b, x);
    }
}

pub proof fn lemma_count_contains(s: Seq<int>, x: int)
    ensures
        count_of(s, x) > 0 <==> s.contains(x),
    decreases s.len(),
{
    if s.len() > 0 {
        lemma_count_contains(s.drop_first(), x);
        if s.contains(x) && s[0] != x {
            let w = choose|w: int| 0 <= w < s.len() && s[w] == x;
            assert(s.drop_first()[w - 1] == x);
        }
        if s.drop_first().contains(x) {
            let w = choose|w: int| 0 <= w < s.drop_first().len() && s.drop_first()[w] == x;
            assert(s[w + 1] == x);
        }
    }
}

/// Everything visited under `i` lies at or past `i`.
proof fn lemma_visited_bounds(nodes: Seq<ProcessNode>, i: int)
    requires
        child_slots_ok(nodes),
        0 <= i < nodes.len(),
    ensures
        forall|t: int|
            0 <= t < visited(nodes, i).len() ==> i <= #[trigger] visited(nodes, i)[t]
                && visited(nodes, i)[t] < nodes.len(),
        visited(nodes, i).len() > 0 && visited(nodes, i)[0] == i,
    decreases nodes.len() - i, 1int, 0int,
{
    lemma_kids_visited_bounds(nodes, i, 0);
    assert forall|t: int| 0 <= t < visited(nodes, i).len() implies i <= #[trigger] visited(
        nodes,
        i,
    )[t] && visited(nodes, i)[t] < nodes.len() by {
        if t == 0 {
            assert(visited(nodes, i)[0] == i);
        } else {
            assert(visited(nodes, i)[t] == kids_visited(nodes, i, 0)[t - 1]);
        }
    }
}

proof fn lemma_kids_visited_bounds(nodes: Seq<ProcessNode>, i: int, k: int)
    requires
        child_slots_ok(nodes),
        0 <= i < nodes.len(),
        0 <= k,
    ensures
        forall|t: int|
            0 <= t < kids_visited(nodes, i, k).len() ==> i < #[trigger] kids_visited(
                nodes,
                i,
                k,
            )[t] && kids_visited(nodes, i, k)[t] < nodes.len(),
    decreases nodes.len() - i, 0int, nodes[i].children@.len() - k,
{
    if k < nodes[i].children@.len() {
        let c = nodes[i].children@[k] as int;
        lemma_visited_bounds(nodes, c);
        lemma_kids_visited_bounds(nodes, i, k + 1);
        assert forall|t: int| 0 <= t < kids_visited(nodes, i, k).len() implies i
            < #[trigger] kids_visited(nodes, i, k)[t] && kids_visited(nodes, i, k)[t]
            < nodes.len() by {
            if t < visited(nodes, c).len() {
                assert(kids_visited(nodes, i, k)[t] == visited(nodes, c)[t]);
            } else {
                assert(kids_visited(nodes, i, k)[t] == kids_visited(nodes, i, k + 1)[t - visited(
                    nodes,
                    c,
                ).len()]);
            }
        }
    }
}

/// `x` sits in some child subtree of `i` exactly when a child `w >= k`
/// carries it.
proof fn lemma_kids_visited_member(nodes: Seq<ProcessNode>, i: int, k: int, x: int)
    requires
        child_slots_ok(nodes),
        0 <= i < nodes.len(),
        0 <= k,
    ensures
        kids_visited(nodes, i, k).contains(x) <==> exists|w: int|
            k <= w < nodes[i].children@.len() && visited(
                nodes,
                #[trigger] nodes[i].children@[w] as int,
            ).contains(x),
    decreases nodes[i].children@.len() - k,
{
    if k < nodes[i].children@.len() {
        let c = nodes[i].children@[k] as int;
        lemma_kids_visited_member(nodes, i, k + 1, x);
        if kids_visited(nodes, i, k).contains(x) {
            let t = choose|t: int|
                0 <= t < kids_visited(nodes, i, k).len() && kids_visited(nodes, i, k)[t] == x;
            if t < visited(nodes, c).len() {
                assert(visited(nodes, c)[t] == x);
                assert(visited(nodes, nodes[i].children@[k] as int).contains(x));
            } else {
                assert(kids_visited(nodes, i, k + 1)[t - visited(nodes, c).len()] == x);
                assert(kids_visited(nodes, i, k + 1).contains(x));
            }
        }
        if exists|w: int|
            k <= w < nodes[i].children@.len() && visited(
                nodes,
                #[trigger] nodes[i].children@[w] as int,
            ).contains(x) {
            let w = choose|w: int|
                k <= w < nodes[i].children@.len() && visited(
                    nodes,
                    #[trigger] nodes[i].children@[w] as int,
                ).contains(x);
            if w == k {
                let t = choose|t: int|
                    0 <= t < visited(nodes, c).len() && visited(nodes, c)[t] == x;
                assert(kids_visited(nodes, i, k)[t] == x);
                assert(kids_visited(nodes, i, k).contains(x));
            } else {
                assert(kids_visited(nodes, i, k + 1).contains(x));
                let t = choose|t: int|
                    0 <= t < kids_visited(nodes, i, k + 1).len() && #[trigger] kids_visited(
                        nodes,
                        i,
                        k + 1,
                    )[t] == x;
                assert(kids_visited(nodes, i, k)[visited(nodes, c).len() + t] == x);
                assert(kids_visited(nodes, i, k).contains(x));
            }
        }
    }
}

/// Every visited position other than `i` is some visited position's child.
proof fn lemma_visited_parent(nodes: Seq<ProcessNode>, i: int, x: int)
    requires
        child_slots_ok(nodes),
        0 <= i < nodes.len(),
        visited(nodes, i).contains(x),
        x != i,
    ensures
        exists|j: int, kk: int|
            #![trigger nodes[j].children@[kk]]
            visited(nodes, i).contains(j) && 0 <= j < nodes.len() && 0 <= kk < nodes[
                j
            ].children@.len() && nodes[j].children@[kk] == x,
    decreases nodes.len() - i,
{
    let t0 = choose|t: int| 0 <= t < visited(nodes, i).len() && visited(nodes, i)[t] == x;
    assert(kids_visited(nodes, i, 0)[t0 - 1] == x);
    assert(kids_visited(nodes, i, 0).contains(x));
    lemma_kids_visited_member(nodes, i, 0, x);
    let w = choose|w: int|
        0 <= w < nodes[i].children@.len() && visited(
            nodes,
            #[trigger] nodes[i].children@[w] as int,
        ).contains(x);
    let c = nodes[i].children@[w] as int;
    assert(visited(nodes, i).contains(i)) by {
        assert(visited(nodes, i)[0] == i);
    }
    if x == c {
        assert(nodes[i].children@[w] == x);
    } else {
        lemma_visited_parent(nodes, c, x);
        let (j, kk): (int, int) = choose|j: int, kk: int|
            #![trigger nodes[j].children@[kk]]
            visited(nodes, c).contains(j) && 0 <= j < nodes.len() && 0 <= kk < nodes[
                j
            ].children@.len() && nodes[j].children@[kk] == x;
        assert(visited(nodes, i).contains(j)) by {
            let t = choose|t: int| 0 <= t < visited(nodes, c).len() && visited(nodes, c)[t] == j;
            lemma_kids_visited_member(nodes, i, 0, j);
            assert(visited(nodes, nodes[i].children@[w] as int).contains(j));
            let t2 = choose|t2: int|
                0 <= t2 < kids_visited(nodes, i, 0).len() && kids_visited(nodes, i, 0)[t2] == j;
            assert(visited(nodes, i)[t2 + 1] == j);
        }
    }
}

/// Two different children's subtrees never share a position.
proof fn lemma_two_kids_no_share(nodes: Seq<ProcessNode>, i: int, k1: int, k2: int, x: int)
    requires
        child_slots_ok(nodes),
        crate::tree::child_slots_unique(nodes),
        0 <= i < nodes.len(),
        0 <= k1 < k2 < nodes[i].children@.len(),
    ensures
        !(visited(nodes, nodes[i].children@[k1] as int).contains(x) && visited(
            nodes,
            nodes[i].children@[k2] as int,
        ).contains(x)),
    decreases x,
{
    if !(visited(nodes, nodes[i].children@[k1] as int).contains(x) && visited(
        nodes,
        nodes[i].children@[k2] as int,
    ).contains(x)) {
        return;
    }
    let c1 = nodes[i].children@[k1] as int;
    let c2 = nodes[i].children@[k2] as int;
    assert(nodes[i].children@[k1] != nodes[i].children@[k2]);
    lemma_visited_bounds(nodes, c1);
    lemma_visited_bounds(nodes, c2);
    let t1 = choose|t: int| 0 <= t < visited(nodes, c1).len() && visited(nodes, c1)[t] == x;
    let t2 = choose|t: int| 0 <= t < visited(nodes, c2).len() && visited(nodes, c2)[t] == x;
    assert(c1 <= x && c2 <= x);
    if x == c1 {
        lemma_visited_parent(nodes, c2, x);
        let (j, kk): (int, int) = choose|j: int, kk: int|
            #![trigger nodes[j].children@[kk]]
            visited(nodes, c2).contains(j) && 0 <= j < nodes.len() && 0 <= kk < nodes[
                j
            ].children@.len() && nodes[j].children@[kk] == x;
        assert(j == i && kk == k1);
        let tj = choose|t: int| 0 <= t < visited(nodes, c2).len() && visited(nodes, c2)[t] == i;
        assert(c2 <= i);
        assert(i < c2);
    } else if x == c2 {
        lemma_visited_parent(nodes, c1, x);
        let (j, kk): (int, int) = choose|j: int, kk: int|
            #![trigger nodes[j].children@[kk]]
            visited(nodes, c1).contains(j) && 0 <= j < nodes.len() && 0 <= kk < nodes[
                j
            ].children@.len() && nodes[j].children@[kk] == x;
        assert(j == i && kk == k2);
        let tj = choose|t: int| 0 <= t < visited(nodes, c1).len() && visited(nodes, c1)[t] == i;
        assert(c1 <= i);
        assert(i < c1);
    } else {
        lemma_visited_parent(nodes, c1, x);
        let (j1, kk1): (int, int) = choose|j: int, kk: int|
            #![trigger nodes[j].children@[kk]]
            visited(nodes, c1).contains(j) && 0 <= j < nodes.len() && 0 <= kk < nodes[
                j
            ].children@.len() && nodes[j].children@[kk] == x;
        lemma_visited_parent(nodes, c2, x);
        let (j2, kk2): (int, int) = choose|j: int, kk: int|
            #![trigger nodes[j].children@[kk]]
            visited(nodes, c2).contains(j) && 0 <= j < nodes.len() && 0 <= kk < nodes[
                j
            ].children@.len() && nodes[j].children@[kk] == x;
        assert(j1 == j2 && kk1 == kk2);
        assert(j1 < x);
        lemma_two_kids_no_share(nodes, i, k1, k2, j1);
        assert(visited(nodes, nodes[i].children@[k1] as int).contains(j1));
        assert(visited(nodes, nodes[i].children@[k2] as int).contains(j1));
    }
}

/// No position is visited twice under any node.
proof fn lemma_visited_once(nodes: Seq<ProcessNode>, i: int, x: int)
    requires
        child_slots_ok(nodes),
        crate::tree::child_slots_unique(nodes),
        0 <= i < nodes.len(),
    ensures
        count_of(visited(nodes, i), x) <= 1,
        x == i ==> count_of(kids_visited(nodes, i, 0), x) == 0,
    decreases nodes.len() - i, 1int, 0int,
{
    lemma_kids_visited_once(nodes, i, 0, x);
    lemma_count_concat(seq![i], kids_visited(nodes, i, 0), x);
    assert(count_of(seq![i], x) == if x == i {
        1nat
    } else {
        0nat
    }) by {
        assert(seq![i].drop_first() =~= Seq::<int>::empty());
        assert(count_of(seq![i].drop_first(), x) == 0);
        assert(seq![i][0] == i);
    }
    if x == i {
        lemma_kids_visited_bounds(nodes, i, 0);
        lemma_count_contains(kids_visited(nodes, i, 0), x);
        if kids_visited(nodes, i, 0).contains(x) {
            let t = choose|t: int|
                0 <= t < kids_visited(nodes, i, 0).len() && kids_visited(nodes, i, 0)[t] == x;
            assert(i < kids_visited(nodes, i, 0)[t]);
        }
    }
}

proof fn lemma_kids_visited_once(nodes: Seq<ProcessNode>, i: int, k: int, x: int)
    requires
        child_slots_ok(nodes),
        crate::tree::child_slots_unique(nodes),
        0 <= i < nodes.len(),
        0 <= k,
    ensures
        count_of(kids_visited(nodes, i, k), x) <= 1,
    decreases nodes.len() - i, 0int, nodes[i].children@.len() - k,
{
    if k < nodes[i].children@.len() {
        let c = nodes[i].children@[k] as int;
        lemma_visited_once(nodes, c, x);
        lemma_kids_visited_once(nodes, i, k + 1, x);
        lemma_count_concat(visited(nodes, c), kids_visited(nodes, i, k + 1), x);
        if count_of(visited(nodes, c), x) > 0 && count_of(kids_visited(nodes, i, k + 1), x) > 0 {
            lemma_count_contains(visited(nodes, c), x);
            lemma_count_contains(kids_visited(nodes, i, k + 1), x);
            lemma_kids_visited_member(nodes, i, k + 1, x);
            let w = choose|w: int|
                k + 1 <= w < nodes[i].children@.len() && visited(
                    nodes,
                    #[trigger] nodes[i].children@[w] as int,
                ).contains(x);
            lemma_two_kids_no_share(nodes, i, k, w, x);
        }
    }
}

/// The rootedness law: the rendered tree under the configured root begins
/// at the root, reaches only positions the arena holds at or past the root,
/// and holds no position twice.
pub proof fn lemma_rootedness(nodes: Seq<ProcessNode>, root: int)
    requires
        tree_wf(nodes, root),
    ensures
        visited(nodes, root).len() > 0 && visited(nodes, root)[0] == root,
        forall|t: int|
            0 <= t < visited(nodes, root).len() ==> root <= #[trigger] visited(nodes, root)[t]
                && visited(nodes, root)[t] < nodes.len(),
        forall|x: int| count_of(visited(nodes, root), x) <= 1,
{
    lemma_visited_bounds(nodes, root);
    assert forall|x: int| count_of(visited(nodes, root), x) <= 1 by {
        lemma_visited_once(nodes, root, x);
    }
}

/// The open moves among `ops`, in order.
pub open spec fn opens_of(ops: Seq<(int, Seq<char>)>) -> Seq<(int, Seq<char>)> {
    ops.filter(|op: (int, Seq<char>)| op.0 == 0)
}

/// What ties the rendered moves to the visited positions: the open moves of
/// a subtree's rendering are exactly the visited positions' labels, in
/// visiting order. With `lemma_rootedness`, every label of the rendered
/// tree belongs to a position reached from the root, and none is drawn
/// twice.
pub proof fn lemma_opens_are_visited(nodes: Seq<ProcessNode>, i: int, sp: bool)
    requires
        child_slots_ok(nodes),
        0 <= i < nodes.len(),
    ensures
        opens_of(node_steps(nodes, i, sp)) == visited(nodes, i).map_values(
            |x: int| op_open(spec_label(nodes[x].proc_info, sp)),
        ),
    decreases nodes.len() - i, 1int, 0int,
{
    broadcast use vstd::seq_lib::group_filter_ensures;

    let pred = |op: (int, Seq<char>)| op.0 == 0;
    lemma_opens_kids(nodes, i, 0, sp);
    let lbl = op_open(spec_label(nodes[i].proc_info, sp));
    Seq::filter_distributes_over_add(
        seq![lbl] + kids_steps(nodes, i, 0, sp),
        seq![op_close()],
        pred,
    );
    Seq::filter_distributes_over_add(seq![lbl], kids_steps(nodes, i, 0, sp), pred);
    assert(seq![lbl].filter(pred) =~= seq![lbl]) by {
        reveal(Seq::filter);
        assert(seq![lbl].drop_last() =~= Seq::<(int, Seq<char>)>::empty());
    }
    assert(seq![op_close()].filter(pred) =~= Seq::<(int, Seq<char>)>::empty()) by {
        reveal(Seq::filter);
        assert(seq![op_close()].drop_last() =~= Seq::<(int, Seq<char>)>::empty());
    }
    assert(opens_of(node_steps(nodes, i, sp)) =~= seq![lbl] + opens_of(
        kids_steps(nodes, i, 0, sp),
    ));
    assert(visited(nodes, i).map_values(|x: int| op_open(spec_label(nodes[x].proc_info, sp)))
        =~= seq![lbl] + kids_visited(nodes, i, 0).map_values(
        |x: int| op_open(spec_label(nodes[x].proc_info, sp)),
    ));
}

proof fn lemma_opens_kids(nodes: Seq<ProcessNode>, i: int, k: int, sp: bool)
    requires
        child_slots_ok(nodes),
        0 <= i < nodes.len(),
        0 <= k,
    ensures
        opens_of(kids_steps(nodes, i, k, sp)) == kids_visited(nodes, i, k).map_values(
            |x: int| op_open(spec_label(nodes[x].proc_info, sp)),
        ),
    decreases nodes.len() - i, 0int, nodes[i].children@.len() - k,
{
    let pred = |op: (int, Seq<char>)| op.0 == 0;
    if k >= nodes[i].children@.len() {
        assert(kids_steps(nodes, i, k, sp).filter(pred) =~= Seq::<(int, Seq<char>)>::empty()) by {
            reveal(Seq::filter);
        }
        assert(kids_visited(nodes, i, k).map_values(
            |x: int| op_open(spec_label(nodes[x].proc_info, sp)),
        ) =~= Seq::<(int, Seq<char>)>::empty());
    } else {
        let c = nodes[i].children@[k] as int;
        lemma_opens_are_visited(nodes, c, sp);
        lemma_opens_kids(nodes, i, k + 1, sp);
        Seq::filter_distributes_over_add(
            node_steps(nodes, c, sp),
            kids_steps(nodes, i, k + 1, sp),
            pred,
        );
        assert((visited(nodes, c) + kids_visited(nodes, i, k + 1)).map_values(
            |x: int| op_open(spec_label(nodes[x].proc_info, sp)),
        ) =~= visited(nodes, c).map_values(
            |x: int| op_open(spec_label(nodes[x].proc_info, sp)),
        ) + kids_visited(nodes, i, k + 1).map_values(
            |x: int| op_open(spec_label(nodes[x].proc_info, sp)),
        ));
    }
}

} // verus!
