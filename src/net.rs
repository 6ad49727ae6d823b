//! The net: a word heap, the stack of active pairs, and rewrite counters.

use vstd::prelude::*;

use crate::commute::{commute_result, sat_add, scan_tree};
use crate::node::{decode, encode, is_port, packable, Node, PackedNode};
use crate::tree::{kind_of, push_word, Tree};

verus! {

/// A net under reduction. Every tree lives in `heap`; `active` holds the
/// pairs of trees whose principal ports face each other, where a null second
/// tree asks for the first to be erased.
pub struct Net {
    pub heap: Vec<PackedNode>,
    pub active: Vec<(Tree, Tree)>,
    pub anni: usize,
    pub comm: usize,
    pub eras: usize,
    pub grft: usize,
}

/// A node whose address, if it has one, lies in a heap of `len` words.
pub open spec fn addr_ok(n: Node, len: nat) -> bool {
    match n {
        Node::Principal(t) => t.0 < len,
        Node::Auxiliary(t) => t.0 < len,
        _ => true,
    }
}

/// The most words the heap can hold: a vector spans at most isize::MAX
/// bytes, and a word takes at least four.
pub open spec fn heap_cap() -> int {
    isize::MAX as int / 4
}

/// `after` is `before` with zero or more pairs pushed on top.
pub open spec fn extends(after: Seq<(Tree, Tree)>, before: Seq<(Tree, Tree)>) -> bool {
    before.len() <= after.len() && after.subrange(0, before.len() as int) == before
}

/// What erasing from address `pos` on does while `n` subtrees remain: a
/// constructor adds one pending subtree, a leaf is linked to an eraser.
pub open spec fn erase_walk(h: Seq<PackedNode>, act: Seq<(Tree, Tree)>, pos: int, n: nat) -> (
    Seq<PackedNode>,
    Seq<(Tree, Tree)>,
)
    decreases (h.len() - pos) * 2 + n,
    via erase_walk_decreases
{
    if n == 0 || pos < 0 || pos >= h.len() {
        (h, act)
    } else {
        let x = decode(h[pos].0);
        match x {
            Node::Ctr(_) => erase_walk(h, act, pos + 1, n + 1),
            _ => erase_walk(
                link_heap(h, x, Node::Era),
                link_active(act, x, Node::Era),
                pos + 1,
                (n - 1) as nat,
            ),
        }
    }
}

#[via_fn]
proof fn erase_walk_decreases(h: Seq<PackedNode>, act: Seq<(Tree, Tree)>, pos: int, n: nat) {
    if !(n == 0 || pos < 0 || pos >= h.len()) {
        lemma_link_heap_len(h, decode(h[pos].0), Node::Era);
    }
}

/// Linking rewrites words in place and never changes the heap's size.
pub proof fn lemma_link_heap_len(h: Seq<PackedNode>, a: Node, b: Node)
    ensures
        link_heap(h, a, b).len() == h.len(),
{
}

/// Scanned words: every address they hold lies in a heap of `len` words.
pub open spec fn scratch_ok(t: Seq<PackedNode>, len: nat) -> bool {
    forall|k: int| 0 <= k < t.len() ==> addr_ok(#[trigger] decode(t[k].0), len)
}

/// Pushing on a stack that was pushed on extends the first stack.
pub proof fn lemma_extends_trans(c: Seq<(Tree, Tree)>, b: Seq<(Tree, Tree)>, a: Seq<(Tree, Tree)>)
    requires
        extends(c, b),
        extends(b, a),
    ensures
        extends(c, a),
{
    assert(c.subrange(0, a.len() as int) =~= b.subrange(0, a.len() as int));
}

/// What popping the top pair `(a, b)` of `before` and rewriting it did to the
/// counters and the heap: an erasure when `b` is null, an annihilation when
/// the two roots have the same kind, a commutation otherwise.
pub open spec fn popped_step(before: Net, after: Net) -> bool {
    let (a, b) = before.active@.last();
    let rest = before.active@.drop_last();
    if b.0 == 0 {
        &&& (after.heap@, after.active@) == erase_walk(before.heap@, rest, a.0 as int, 1)
        &&& after.eras == sat_inc(before.eras)
        &&& after.anni == before.anni && after.comm == before.comm && after.grft == before.grft
    } else if kind_of(before.at(a.0 as int)) == kind_of(before.at(b.0 as int)) {
        &&& (after.heap@, after.active@) == anni_walk(
            before.heap@,
            rest,
            a.0 as int,
            b.0 as int,
            1,
            0,
            0,
        )
        &&& after.heap@.len() == before.heap@.len()
        &&& after.anni == sat_inc(before.anni)
        &&& after.comm == before.comm && after.eras == before.eras && after.grft == before.grft
        &&& !(before.at(a.0 as int) is Ctr) && !(before.at(b.0 as int) is Ctr) ==> {
            &&& after.heap@ == link_heap(before.heap@, before.at(a.0 as int), before.at(b.0 as int))
            &&& after.active@ == link_active(rest, before.at(a.0 as int), before.at(b.0 as int))
        }
    } else {
        &&& (after.heap@, after.active@) == commute_result(before.heap@, rest, a, b)
        &&& after.comm == sat_inc(before.comm)
        &&& after.grft == sat_add(
            sat_add(before.grft, scan_tree(before.heap@, a).2),
            scan_tree(before.heap@, b).2,
        )
        &&& after.grft >= before.grft
        &&& after.anni == before.anni && after.eras == before.eras
    }
}

/// The heap and active pairs after one rewrite: the top pair is popped and
/// erased (a null second tree), annihilated (equal kinds at the roots) or
/// commuted (different kinds). With no pair left, nothing changes.
pub open spec fn step(h: Seq<PackedNode>, act: Seq<(Tree, Tree)>) -> (
    Seq<PackedNode>,
    Seq<(Tree, Tree)>,
) {
    if act.len() == 0 {
        (h, act)
    } else {
        let (a, b) = act.last();
        let rest = act.drop_last();
        if b.0 == 0 {
            erase_walk(h, rest, a.0 as int, 1)
        } else if kind_of(decode(h[a.0 as int].0)) == kind_of(decode(h[b.0 as int].0)) {
            anni_walk(h, rest, a.0 as int, b.0 as int, 1, 0, 0)
        } else {
            commute_result(h, rest, a, b)
        }
    }
}

/// The grafts that one rewrite makes: those of a commutation's two scans.
pub open spec fn step_grafts(h: Seq<PackedNode>, act: Seq<(Tree, Tree)>) -> nat {
    if act.len() == 0 {
        0
    } else {
        let (a, b) = act.last();
        if b.0 == 0 || kind_of(decode(h[a.0 as int].0)) == kind_of(decode(h[b.0 as int].0)) {
            0
        } else {
            scan_tree(h, a).2 + scan_tree(h, b).2
        }
    }
}

/// Which rewrite one step makes, as increments of the annihilation,
/// commutation and erasure counters: exactly one is 1 when a pair is left.
pub open spec fn step_class(h: Seq<PackedNode>, act: Seq<(Tree, Tree)>) -> (nat, nat, nat) {
    if act.len() == 0 {
        (0, 0, 0)
    } else {
        let (a, b) = act.last();
        if b.0 == 0 {
            (0, 0, 1)
        } else if kind_of(decode(h[a.0 as int].0)) == kind_of(decode(h[b.0 as int].0)) {
            (1, 0, 0)
        } else {
            (0, 1, 0)
        }
    }
}

/// The annihilations, commutations and erasures made over `k` rewrites.
pub open spec fn run_counts(h: Seq<PackedNode>, act: Seq<(Tree, Tree)>, k: nat) -> (nat, nat, nat)
    decreases k,
{
    if k == 0 {
        (0, 0, 0)
    } else {
        let prev = run(h, act, (k - 1) as nat);
        let c = run_counts(h, act, (k - 1) as nat);
        let d = step_class(prev.0, prev.1);
        (c.0 + d.0, c.1 + d.1, c.2 + d.2)
    }
}

/// The heap and active pairs after `k` rewrites.
pub open spec fn run(h: Seq<PackedNode>, act: Seq<(Tree, Tree)>, k: nat) -> (
    Seq<PackedNode>,
    Seq<(Tree, Tree)>,
)
    decreases k,
{
    if k == 0 {
        (h, act)
    } else {
        let prev = run(h, act, (k - 1) as nat);
        step(prev.0, prev.1)
    }
}

/// The grafts made over `k` rewrites.
pub open spec fn run_grafts(h: Seq<PackedNode>, act: Seq<(Tree, Tree)>, k: nat) -> nat
    decreases k,
{
    if k == 0 {
        0
    } else {
        let prev = run(h, act, (k - 1) as nat);
        run_grafts(h, act, (k - 1) as nat) + step_grafts(prev.0, prev.1)
    }
}

/// What reducing `before` gave `after`: `k` rewrites were made, each on a
/// stack that still held a pair, and reduction stopped because no pair was
/// left or a counter was full. The counters grew by the rewrites made.
pub open spec fn reduced(before: Net, after: Net) -> bool {
    &&& after.active@.len() == 0 || after.anni == usize::MAX || after.comm == usize::MAX
        || after.eras == usize::MAX
    &&& exists|k: nat|
        {
            &&& (after.heap@, after.active@) == #[trigger] run(before.heap@, before.active@, k)
            &&& steps(after) == steps(before) + k
            &&& after.anni == before.anni + run_counts(before.heap@, before.active@, k).0
            &&& after.comm == before.comm + run_counts(before.heap@, before.active@, k).1
            &&& after.eras == before.eras + run_counts(before.heap@, before.active@, k).2
            &&& after.grft == sat_add(before.grft, run_grafts(before.heap@, before.active@, k))
            &&& forall|j: nat| j < k ==> (#[trigger] run(before.heap@, before.active@, j)).1.len() > 0
        }
}

/// The three step counters together.
pub open spec fn steps(n: Net) -> int {
    n.anni + n.comm + n.eras
}

/// Two optional kinds are the same.
pub(crate) fn same_kind(x: Option<usize>, y: Option<usize>) -> (r: bool)
    ensures
        r == (x == y),
{
    match (x, y) {
        (Some(i), Some(j)) => i == j,
        (None, None) => true,
        _ => false,
    }
}

/// The address of the last word of the `n` subtrees that start at `p`,
/// found by counting: a constructor adds a pending subtree, a leaf ends one.
pub open spec fn subtree_last(h: Seq<PackedNode>, p: int, n: nat) -> int
    decreases (h.len() - p) * 2 + n,
{
    if n == 0 || p < 0 || p >= h.len() {
        p - 1
    } else {
        match decode(h[p].0) {
            Node::Ctr(_) => subtree_last(h, p + 1, n + 1),
            _ => subtree_last(h, p + 1, (n - 1) as nat),
        }
    }
}

/// The walk ends within the heap, at or after where it started.
pub proof fn lemma_subtree_last(h: Seq<PackedNode>, p: int, n: nat)
    requires
        0 <= p <= h.len(),
    ensures
        p - 1 <= subtree_last(h, p, n) < h.len(),
        n > 0 && p < h.len() ==> p <= subtree_last(h, p, n),
    decreases (h.len() - p) * 2 + n,
{
    if !(n == 0 || p >= h.len()) {
        match decode(h[p].0) {
            Node::Ctr(_) => lemma_subtree_last(h, p + 1, n + 1),
            _ => lemma_subtree_last(h, p + 1, (n - 1) as nat),
        }
    }
}

/// Where a side of the annihilation walk stands next: it stays on its
/// eraser while replicated copies of it remain, else it moves on.
pub open spec fn adv_pos(p: int, s: nat) -> int {
    if s > 0 {
        p
    } else {
        p + 1
    }
}

/// How many replicated copies of an eraser remain after one is used.
pub open spec fn adv_stack(s: nat) -> nat {
    if s > 0 {
        (s - 1) as nat
    } else {
        0
    }
}

/// The annihilation walk over two trees in lockstep, from `pa` and `pb`,
/// with `n` pairs of subtrees still to meet and `sa`, `sb` copies of an
/// eraser standing in for each side. Matching constructors open their
/// children; an eraser against a constructor is replicated onto both of its
/// children; a port against a constructor is bound to that whole subtree,
/// which is then skipped; two leaves are linked.
pub open spec fn anni_walk(
    h: Seq<PackedNode>,
    act: Seq<(Tree, Tree)>,
    pa: int,
    pb: int,
    n: nat,
    sa: nat,
    sb: nat,
) -> (Seq<PackedNode>, Seq<(Tree, Tree)>)
    decreases 3 * (h.len() - pa) + 3 * (h.len() - pb) + n + sa + sb,
    via anni_walk_decreases
{
    if n == 0 || pa < 0 || pb < 0 || pa >= h.len() || pb >= h.len() {
        (h, act)
    } else {
        let x = if sa > 0 {
            Node::Era
        } else {
            decode(h[pa].0)
        };
        let y = if sb > 0 {
            Node::Era
        } else {
            decode(h[pb].0)
        };
        if x is Ctr && y is Ctr {
            anni_walk(h, act, adv_pos(pa, sa), adv_pos(pb, sb), n + 1, adv_stack(sa), adv_stack(sb))
        } else if x is Era && y is Ctr {
            anni_walk(h, act, pa, adv_pos(pb, sb), n + 1, sa + 1, adv_stack(sb))
        } else if x is Ctr && y is Era {
            anni_walk(h, act, adv_pos(pa, sa), pb, n + 1, adv_stack(sa), sb + 1)
        } else if x is Ctr {
            let h2 = bind_heap(h, y, Tree(pa as usize));
            let pa2 = subtree_last(h2, pa, 1);
            anni_walk(
                h2,
                bind_active(act, y, Tree(pa as usize)),
                adv_pos(pa2, sa),
                adv_pos(pb, sb),
                (n - 1) as nat,
                adv_stack(sa),
                adv_stack(sb),
            )
        } else if y is Ctr {
            let h2 = bind_heap(h, x, Tree(pb as usize));
            let pb2 = subtree_last(h2, pb, 1);
            anni_walk(
                h2,
                bind_active(act, x, Tree(pb as usize)),
                adv_pos(pa, sa),
                adv_pos(pb2, sb),
                (n - 1) as nat,
                adv_stack(sa),
                adv_stack(sb),
            )
        } else {
            anni_walk(
                link_heap(h, x, y),
                link_active(act, x, y),
                adv_pos(pa, sa),
                adv_pos(pb, sb),
                (n - 1) as nat,
                adv_stack(sa),
                adv_stack(sb),
            )
        }
    }
}

#[via_fn]
proof fn anni_walk_decreases(
    h: Seq<PackedNode>,
    act: Seq<(Tree, Tree)>,
    pa: int,
    pb: int,
    n: nat,
    sa: nat,
    sb: nat,
) {
    if !(n == 0 || pa < 0 || pb < 0 || pa >= h.len() || pb >= h.len()) {
        let x = if sa > 0 {
            Node::Era
        } else {
            decode(h[pa].0)
        };
        let y = if sb > 0 {
            Node::Era
        } else {
            decode(h[pb].0)
        };
        lemma_link_heap_len(h, x, y);
        let ha = bind_heap(h, y, Tree(pa as usize));
        let hb = bind_heap(h, x, Tree(pb as usize));
        assert(ha.len() == h.len());
        assert(hb.len() == h.len());
        lemma_subtree_last(ha, pa, 1);
        lemma_subtree_last(hb, pb, 1);
    }
}

/// Every word of `h1` is still in `h2`, and every leaf of `h1` (an eraser
/// or a port) is still a leaf there.
pub open spec fn leaves_kept(h1: Seq<PackedNode>, h2: Seq<PackedNode>) -> bool {
    &&& h1.len() <= h2.len()
    &&& forall|i: int|
        0 <= i < h1.len() && !(#[trigger] decode(h1[i].0) is Ctr) ==> !(decode(h2[i].0) is Ctr)
}

/// Every word of `h1` is still in `h2`, and every constructor word of `h1`
/// is unchanged there.
pub open spec fn ctrs_kept(h1: Seq<PackedNode>, h2: Seq<PackedNode>) -> bool {
    &&& h1.len() <= h2.len()
    &&& forall|i: int| 0 <= i < h1.len() && (#[trigger] decode(h1[i].0)) is Ctr ==> h2[i] == h1[i]
}

/// Keeping constructors composes.
pub proof fn lemma_ctrs_kept_trans(h1: Seq<PackedNode>, h2: Seq<PackedNode>, h3: Seq<PackedNode>)
    requires
        ctrs_kept(h1, h2),
        ctrs_kept(h2, h3),
    ensures
        ctrs_kept(h1, h3),
{
    assert forall|i: int| 0 <= i < h1.len() && (#[trigger] decode(h1[i].0)) is Ctr implies h3[i]
        == h1[i] by {
        assert(h2[i] == h1[i]);
    }
}

/// Keeping leaves composes.
pub proof fn lemma_leaves_kept_trans(h1: Seq<PackedNode>, h2: Seq<PackedNode>, h3: Seq<PackedNode>)
    requires
        leaves_kept(h1, h2),
        leaves_kept(h2, h3),
    ensures
        leaves_kept(h1, h3),
{
    assert forall|i: int| 0 <= i < h1.len() && !(#[trigger] decode(h1[i].0) is Ctr) implies !(decode(
        h3[i].0,
    ) is Ctr) by {
        assert(!(decode(h2[i].0) is Ctr));
    }
}

/// One more, unless already at the largest value.
pub open spec fn sat_inc(x: usize) -> usize {
    if x == usize::MAX {
        x
    } else {
        (x + 1) as usize
    }
}

/// `h` with `w` written at address `i`, where `i` lies in it.
pub open spec fn put(h: Seq<PackedNode>, i: int, w: PackedNode) -> Seq<PackedNode> {
    if 0 <= i < h.len() {
        h.update(i, w)
    } else {
        h
    }
}

/// The heap after `link(a, b)`.
pub open spec fn link_heap(h: Seq<PackedNode>, a: Node, b: Node) -> Seq<PackedNode> {
    match (a, b) {
        (Node::Era, Node::Auxiliary(r)) => put(h, r.0 as int, PackedNode(0)),
        (Node::Auxiliary(r), Node::Era) => put(h, r.0 as int, PackedNode(0)),
        (Node::Principal(_), Node::Auxiliary(r)) => put(h, r.0 as int, PackedNode(encode(a))),
        (Node::Auxiliary(r), Node::Principal(_)) => put(h, r.0 as int, PackedNode(encode(b))),
        (Node::Auxiliary(x), Node::Auxiliary(y)) => put(
            put(h, x.0 as int, PackedNode(encode(b))),
            y.0 as int,
            PackedNode(encode(a)),
        ),
        _ => h,
    }
}

/// The active pairs after `link(a, b)`.
pub open spec fn link_active(act: Seq<(Tree, Tree)>, a: Node, b: Node) -> Seq<(Tree, Tree)> {
    match (a, b) {
        (Node::Era, Node::Principal(t)) => act.push((t, Tree(0))),
        (Node::Principal(t), Node::Era) => act.push((t, Tree(0))),
        (Node::Principal(x), Node::Principal(y)) => act.push((x, y)),
        _ => act,
    }
}

/// The heap after `bind(a, b)`.
pub open spec fn bind_heap(h: Seq<PackedNode>, a: Node, b: Tree) -> Seq<PackedNode> {
    match a {
        Node::Auxiliary(r) => put(h, r.0 as int, PackedNode(encode(Node::Principal(b)))),
        _ => h,
    }
}

/// The active pairs after `bind(a, b)`.
pub open spec fn bind_active(act: Seq<(Tree, Tree)>, a: Node, b: Tree) -> Seq<(Tree, Tree)> {
    match a {
        Node::Principal(t) => act.push((t, b)),
        _ => act,
    }
}

impl Net {
    /// Every address held in the heap or on the active stack lies in the
    /// heap, and the heap is small enough for every address to pack.
    pub open spec fn wf(self) -> bool {
        &&& 1 <= self.heap@.len() <= heap_cap()
        &&& forall|i: int|
            0 <= i < self.heap@.len() ==> addr_ok(#[trigger] decode(self.heap@[i].0), self.heap@.len())
        &&& forall|i: int|
            0 <= i < self.active@.len() ==> (#[trigger] self.active@[i]).0.0 < self.heap@.len()
                && self.active@[i].1.0 < self.heap@.len()
    }

    /// The sum of the four rewrite counters.
    pub open spec fn total(self) -> int {
        self.anni + self.comm + self.eras + self.grft
    }

    /// The node at address `a`.
    pub open spec fn at(self, a: int) -> Node {
        decode(self.heap@[a].0)
    }

    /// An empty net: a heap holding only the eraser at the null address.
    pub fn new() -> (r: Net)
        ensures
            r.wf(),
            r.heap@ == seq![PackedNode(0)],
            r.active@.len() == 0,
            r.anni == 0 && r.comm == 0 && r.eras == 0 && r.grft == 0,
    {
        let mut heap: Vec<PackedNode> = Vec::new();
        push_word(&mut heap, PackedNode(0));
        Net { heap, active: Vec::new(), anni: 0, comm: 0, eras: 0, grft: 0 }
    }

    /// The counters: annihilations, commutations, erasures and grafts.
    pub fn stats(&self) -> (r: (usize, usize, usize, usize))
        ensures
            r == (self.anni, self.comm, self.eras, self.grft),
    {
        (self.anni, self.comm, self.eras, self.grft)
    }

    /// Seeds an active pair.
    pub fn push_active(&mut self, a: Tree, b: Tree)
        requires
            old(self).wf(),
            a.0 < old(self).heap@.len(),
            b.0 < old(self).heap@.len(),
        ensures
            final(self).wf(),
            final(self).heap@ == old(self).heap@,
            final(self).active@ == old(self).active@.push((a, b)),
            final(self).same_counters(*old(self)),
    {
        self.active.push((a, b));
    }

    /// The counters of both nets agree.
    pub open spec fn same_counters(self, other: Net) -> bool {
        self.anni == other.anni && self.comm == other.comm && self.eras == other.eras
            && self.grft == other.grft
    }

    /// Writes `w` at address `i`.
    pub(crate) fn write(&mut self, i: usize, w: Node)
        requires
            old(self).wf(),
            0 < i < old(self).heap@.len(),
            packable(w),
            addr_ok(w, old(self).heap@.len()),
        ensures
            final(self).wf(),
            final(self).heap@ == put(old(self).heap@, i as int, PackedNode(encode(w))),
            final(self).active@ == old(self).active@,
            final(self).same_counters(*old(self)),
            !(w is Ctr) ==> leaves_kept(old(self).heap@, final(self).heap@),
            !(old(self).at(i as int) is Ctr) ==> ctrs_kept(old(self).heap@, final(self).heap@),
    {
        let p = w.pack();
        self.heap.set(i, p);
        assert forall|j: int| 0 <= j < self.heap@.len() implies addr_ok(
            #[trigger] decode(self.heap@[j].0),
            self.heap@.len(),
        ) by {
            if j != i {
                assert(addr_ok(decode(old(self).heap@[j].0), old(self).heap@.len()));
            }
        }
    }

    /// Wires two ports (or erasers) together: a wire between two auxiliary
    /// ends, a principal port into a wire, two principal ports onto the
    /// active stack, an eraser into a wire or onto a tree.
    pub fn link(&mut self, a: Node, b: Node)
        requires
            old(self).wf(),
            !(a is Ctr),
            !(b is Ctr),
            addr_ok(a, old(self).heap@.len()),
            addr_ok(b, old(self).heap@.len()),
            a is Auxiliary ==> a->Auxiliary_0.0 > 0,
            b is Auxiliary ==> b->Auxiliary_0.0 > 0,
        ensures
            final(self).wf(),
            final(self).heap@ == link_heap(old(self).heap@, a, b),
            final(self).active@ == link_active(old(self).active@, a, b),
            final(self).same_counters(*old(self)),
            leaves_kept(old(self).heap@, final(self).heap@),
    {
        let ghost h0 = self.heap@;
        match (a, b) {
            (Node::Era, Node::Auxiliary(r)) => self.write(r.0, Node::Era),
            (Node::Auxiliary(r), Node::Era) => self.write(r.0, Node::Era),
            (Node::Era, Node::Principal(r)) => self.active.push((r, Tree(0))),
            (Node::Principal(r), Node::Era) => self.active.push((r, Tree(0))),
            (Node::Principal(x), Node::Principal(y)) => self.active.push((x, y)),
            (Node::Principal(_), Node::Auxiliary(r)) => self.write(r.0, a),
            (Node::Auxiliary(r), Node::Principal(_)) => self.write(r.0, b),
            (Node::Auxiliary(x), Node::Auxiliary(y)) => {
                self.write(x.0, b);
                let ghost h1 = self.heap@;
                self.write(y.0, a);
                proof {
                    lemma_leaves_kept_trans(h0, h1, self.heap@);
                }
            },
            _ => {},
        }
    }

    /// Erases the tree at `a`: walks it in pre-order and links every leaf to
    /// an eraser, so wires are closed and principal ports are scheduled for
    /// erasure.
    pub fn erase(&mut self, a: Tree)
        requires
            old(self).wf(),
            a.0 < old(self).heap@.len(),
        ensures
            final(self).wf(),
            (final(self).heap@, final(self).active@) == erase_walk(
                old(self).heap@,
                old(self).active@,
                a.0 as int,
                1,
            ),
            final(self).heap@.len() == old(self).heap@.len(),
            leaves_kept(old(self).heap@, final(self).heap@),
            extends(final(self).active@, old(self).active@),
            final(self).eras == sat_inc(old(self).eras),
            final(self).anni == old(self).anni,
            final(self).comm == old(self).comm,
            final(self).grft == old(self).grft,
    {
        let ghost goal = erase_walk(self.heap@, self.active@, a.0 as int, 1);
        let ghost h0 = self.heap@;
        let ghost act0 = self.active@;
        let ghost anni0 = self.anni;
        let ghost comm0 = self.comm;
        let ghost grft0 = self.grft;
        let ghost eras1 = sat_inc(self.eras);
        self.eras = self.eras.saturating_add(1);
        let len = self.heap.len();
        let mut n: usize = 1;
        let mut pos: usize = a.0;
        assert(self.active@.subrange(0, act0.len() as int) =~= act0);
        while n > 0 && pos < len
            invariant
                self.wf(),
                self.heap@.len() == len,
                a.0 <= pos <= len,
                n <= pos - a.0 + 1,
                erase_walk(self.heap@, self.active@, pos as int, n as nat) == goal,
                leaves_kept(h0, self.heap@),
                extends(self.active@, act0),
                self.eras == eras1,
                self.anni == anni0,
                self.comm == comm0,
                self.grft == grft0,
            decreases (len - pos) * 2 + n,
        {
            let x = self.heap[pos].unpack();
            let ghost act1 = self.active@;
            let ghost hp = self.heap@;
            match x {
                Node::Ctr(_) => {
                    n = n + 1;
                },
                _ => {
                    self.link(x, Node::Era);
                    n = n - 1;
                },
            }
            proof {
                lemma_leaves_kept_trans(h0, hp, self.heap@);
            }
            assert(extends(self.active@, act0)) by {
                assert(self.active@.subrange(0, act0.len() as int) =~= act1.subrange(
                    0,
                    act0.len() as int,
                ));
            }
            pos = pos + 1;
        }
    }

    /// Rewrites an active pair of equal kinds. Both trees are walked in
    /// lockstep: matching constructors vanish, facing leaves are linked, a
    /// leaf facing a constructor takes that whole subtree, and an eraser
    /// facing a constructor is replicated onto both of its children.
    pub fn annihilate(&mut self, a: Tree, b: Tree)
        requires
            old(self).wf(),
            a.0 < old(self).heap@.len(),
            b.0 < old(self).heap@.len(),
        ensures
            final(self).wf(),
            final(self).heap@.len() == old(self).heap@.len(),
            leaves_kept(old(self).heap@, final(self).heap@),
            extends(final(self).active@, old(self).active@),
            (final(self).heap@, final(self).active@) == anni_walk(
                old(self).heap@,
                old(self).active@,
                a.0 as int,
                b.0 as int,
                1,
                0,
                0,
            ),
            final(self).anni == sat_inc(old(self).anni),
            final(self).comm == old(self).comm,
            final(self).eras == old(self).eras,
            final(self).grft == old(self).grft,
            !(old(self).at(a.0 as int) is Ctr) && !(old(self).at(b.0 as int) is Ctr) ==> {
                &&& final(self).heap@ == link_heap(
                    old(self).heap@,
                    old(self).at(a.0 as int),
                    old(self).at(b.0 as int),
                )
                &&& final(self).active@ == link_active(
                    old(self).active@,
                    old(self).at(a.0 as int),
                    old(self).at(b.0 as int),
                )
            },
    {
        let ghost h0 = self.heap@;
        let ghost act0 = self.active@;
        let ghost x0 = self.at(a.0 as int);
        let ghost y0 = self.at(b.0 as int);
        let ghost leaves = !(x0 is Ctr) && !(y0 is Ctr);
        let ghost comm0 = self.comm;
        let ghost eras0 = self.eras;
        let ghost grft0 = self.grft;
        let ghost anni1 = sat_inc(self.anni);
        let ghost goal = anni_walk(self.heap@, self.active@, a.0 as int, b.0 as int, 1, 0, 0);
        self.anni = self.anni.saturating_add(1);
        let len = self.heap.len();
        let mut pa: usize = a.0;
        let mut pb: usize = b.0;
        let mut n: usize = 1;
        let mut sa: usize = 0;
        let mut sb: usize = 0;
        assert(self.active@.subrange(0, act0.len() as int) =~= act0);
        while n > 0 && pa < len && pb < len
            invariant
                self.wf(),
                self.heap@.len() == len,
                pa <= len,
                pb <= len,
                3 * (len - pa) + 3 * (len - pb) + n + sa + sb <= 6 * len + 1,
                anni_walk(
                    self.heap@,
                    self.active@,
                    pa as int,
                    pb as int,
                    n as nat,
                    sa as nat,
                    sb as nat,
                ) == goal,
                leaves_kept(h0, self.heap@),
                extends(self.active@, act0),
                self.anni == anni1,
                self.comm == comm0,
                self.eras == eras0,
                self.grft == grft0,
                a.0 < h0.len() && b.0 < h0.len(),
                x0 == decode(h0[a.0 as int].0),
                y0 == decode(h0[b.0 as int].0),
                leaves == (!(x0 is Ctr) && !(y0 is Ctr)),
                leaves ==> (pa == a.0 && pb == b.0 && n == 1 && sa == 0 && sb == 0
                    && self.heap@ == h0 && self.active@ == act0) || (n == 0 && self.heap@
                    == link_heap(h0, x0, y0) && self.active@ == link_active(act0, x0, y0)),
            decreases 3 * (len - pa) + 3 * (len - pb) + n + sa + sb,
        {
            let x = if sa > 0 {
                Node::Era
            } else {
                self.heap[pa].unpack()
            };
            let y = if sb > 0 {
                Node::Era
            } else {
                self.heap[pb].unpack()
            };
            let ghost act1 = self.active@;
            let ghost hp = self.heap@;
            match (x, y) {
                (Node::Ctr(_), Node::Ctr(_)) => {
                    n = n + 2;
                },
                (Node::Era, Node::Ctr(_)) => {
                    n = n + 2;
                    sa = sa + 2;
                },
                (Node::Ctr(_), Node::Era) => {
                    n = n + 2;
                    sb = sb + 2;
                },
                (Node::Ctr(_), r) => {
                    self.bind(r, Tree(pa));
                    pa = self.subtree_end(pa);
                },
                (r, Node::Ctr(_)) => {
                    self.bind(r, Tree(pb));
                    pb = self.subtree_end(pb);
                },
                (r, s) => {
                    self.link(r, s);
                },
            }
            proof {
                lemma_leaves_kept_trans(h0, hp, self.heap@);
            }

            assert(extends(self.active@, act0)) by {
                assert(self.active@.subrange(0, act0.len() as int) =~= act1.subrange(
                    0,
                    act0.len() as int,
                ));
            }
            if sa > 0 {
                sa = sa - 1;
            } else {
                pa = pa + 1;
            }
            if sb > 0 {
                sb = sb - 1;
            } else {
                pb = pb + 1;
            }
            n = n - 1;
        }
    }

    /// Appends a copy of `words` to the heap and returns it.
    pub(crate) fn allocate(&mut self, words: &Vec<PackedNode>) -> (r: Tree)
        requires
            old(self).wf(),
            scratch_ok(words@, old(self).heap@.len()),
        ensures
            final(self).wf(),
            r.0 == old(self).heap@.len(),
            final(self).heap@ == old(self).heap@ + words@,
            final(self).active@ == old(self).active@,
            final(self).same_counters(*old(self)),
            leaves_kept(old(self).heap@, final(self).heap@),
            ctrs_kept(old(self).heap@, final(self).heap@),
    {
        let start = self.heap.len();
        let ghost h0 = self.heap@;
        let mut i: usize = 0;
        while i < words.len()
            invariant
                self.wf(),
                start == h0.len(),
                self.heap@ == h0 + words@.subrange(0, i as int),
                self.active@ == old(self).active@,
                self.same_counters(*old(self)),
                scratch_ok(words@, h0.len()),
                i <= words@.len(),
            decreases words@.len() - i,
        {
            let ghost prev = self.heap@;
            push_word(&mut self.heap, words[i]);
            assert(self.heap@ =~= h0 + words@.subrange(0, i + 1));
            assert forall|j: int| 0 <= j < self.heap@.len() implies addr_ok(
                #[trigger] decode(self.heap@[j].0),
                self.heap@.len(),
            ) by {
                if j < prev.len() {
                    assert(addr_ok(decode(prev[j].0), prev.len()));
                } else {
                    assert(self.heap@[j] == words@[i as int]);
                    assert(addr_ok(decode(words@[i as int].0), h0.len()));
                }
            }
            i = i + 1;
        }
        assert(words@.subrange(0, words@.len() as int) =~= words@);
        assert forall|i: int|
            0 <= i < h0.len() && !(#[trigger] decode(h0[i].0) is Ctr) implies !(decode(
            self.heap@[i].0,
        ) is Ctr) by {
            assert(self.heap@[i] == h0[i]);
        }
        assert forall|i: int| 0 <= i < h0.len() && (#[trigger] decode(h0[i].0)) is Ctr implies self.heap@[i]
            == h0[i] by {
            assert(self.heap@[i] == h0[i]);
        }
        Tree(start)
    }

    /// Pops the top active pair and rewrites it: a pair with a null second
    /// tree is an erasure, a pair of equal kinds annihilates, any other pair
    /// commutes. Returns none when no pair is left.
    pub fn reduce_one(&mut self) -> (r: Option<()>)
        requires
            old(self).wf(),
        ensures
            final(self).wf(),
            final(self).heap@.len() >= old(self).heap@.len(),
            leaves_kept(old(self).heap@, final(self).heap@),
            final(self).anni >= old(self).anni,
            final(self).comm >= old(self).comm,
            final(self).eras >= old(self).eras,
            final(self).grft >= old(self).grft,
            old(self).active@.len() == 0 ==> r is None && final(self).heap@ == old(self).heap@
                && final(self).active@ == old(self).active@ && final(self).same_counters(
                *old(self),
            ),
            (final(self).heap@, final(self).active@) == step(old(self).heap@, old(self).active@),
            final(self).grft == sat_add(
                old(self).grft,
                step_grafts(old(self).heap@, old(self).active@),
            ),
            old(self).active@.len() > 0 && old(self).anni < usize::MAX && old(self).comm
                < usize::MAX && old(self).eras < usize::MAX ==> steps(*final(self)) == steps(
                *old(self),
            ) + 1,
            old(self).anni < usize::MAX && old(self).comm < usize::MAX && old(self).eras
                < usize::MAX ==> ({
                let d = step_class(old(self).heap@, old(self).active@);
                &&& final(self).anni == old(self).anni + d.0
                &&& final(self).comm == old(self).comm + d.1
                &&& final(self).eras == old(self).eras + d.2
            }),
            old(self).active@.len() > 0 ==> r is Some && extends(
                final(self).active@,
                old(self).active@.drop_last(),
            ) && popped_step(*old(self), *final(self)),
    {
        let ghost act0 = self.active@;
        match self.active.pop() {
            None => None,
            Some((a, b)) => {
                proof {
                    assert(self.active@ =~= act0.drop_last());
                    assert(act0.last() == act0[act0.len() - 1]);
                }
                let ghost g0 = self.grft;
                let ghost h0 = self.heap@;
                if b.0 == 0 {
                    self.erase(a);
                } else if same_kind(a.kind(&self.heap), b.kind(&self.heap)) {
                    self.annihilate(a, b);
                } else {
                    self.commute(a, b);
                    assert(sat_add(sat_add(g0, scan_tree(h0, a).2), scan_tree(h0, b).2) == sat_add(
                        g0,
                        scan_tree(h0, a).2 + scan_tree(h0, b).2,
                    ));
                }
                Some(())
            },
        }
    }

    /// Rewrites active pairs until none is left or a counter is full.
    pub fn reduce(&mut self)
        requires
            old(self).wf(),
        ensures
            final(self).wf(),
            final(self).total() >= old(self).total(),
            leaves_kept(old(self).heap@, final(self).heap@),
            reduced(*old(self), *final(self)),
    {
        let ghost mut k: nat = 0;
        while self.active.len() > 0 && self.anni < usize::MAX && self.comm < usize::MAX
            && self.eras < usize::MAX
            invariant
                self.wf(),
                self.total() >= old(self).total(),
                leaves_kept(old(self).heap@, self.heap@),
                (self.heap@, self.active@) == run(old(self).heap@, old(self).active@, k),
                steps(*self) == steps(*old(self)) + k,
                self.anni == old(self).anni + run_counts(old(self).heap@, old(self).active@, k).0,
                self.comm == old(self).comm + run_counts(old(self).heap@, old(self).active@, k).1,
                self.eras == old(self).eras + run_counts(old(self).heap@, old(self).active@, k).2,
                self.grft == sat_add(old(self).grft, run_grafts(old(self).heap@, old(self).active@, k)),
                forall|j: nat|
                    j < k ==> (#[trigger] run(old(self).heap@, old(self).active@, j)).1.len() > 0,
            decreases 3 * usize::MAX - self.anni - self.comm - self.eras,
        {
            let ghost hp = self.heap@;
            let ghost ap = self.active@;
            let ghost gp = self.grft;
            self.reduce_one();
            proof {
                lemma_leaves_kept_trans(old(self).heap@, hp, self.heap@);
                assert(sat_add(sat_add(old(self).grft, run_grafts(old(self).heap@, old(self).active@, k)), step_grafts(hp, ap))
                    == sat_add(old(self).grft, run_grafts(old(self).heap@, old(self).active@, k) + step_grafts(hp, ap)));
                k = k + 1;
            }
        }
    }

    /// The address of the last word of the subtree at `pos`.
    fn subtree_end(&self, pos: usize) -> (r: usize)
        requires
            self.wf(),
            pos < self.heap@.len(),
        ensures
            pos <= r < self.heap@.len(),
            r == subtree_last(self.heap@, pos as int, 1),
    {
        let len = self.heap.len();
        let mut n: usize = 1;
        let mut p: usize = pos;
        while n > 0 && p < len
            invariant
                subtree_last(self.heap@, p as int, n as nat) == subtree_last(
                    self.heap@,
                    pos as int,
                    1,
                ),
                len == self.heap@.len(),
                len <= heap_cap(),
                pos < len,
                pos <= p <= len,
                n <= p - pos + 1,
                p == pos ==> n == 1,
            decreases (len - p) * 2 + n,
        {
            match self.heap[p].unpack() {
                Node::Ctr(_) => {
                    n = n + 1;
                },
                _ => {
                    n = n - 1;
                },
            }
            p = p + 1;
        }
        p - 1
    }

    /// Attaches the whole tree `b` to the port `a`: a principal port makes an
    /// active pair with it, an auxiliary end now holds `b`'s principal port.
    pub fn bind(&mut self, a: Node, b: Tree)
        requires
            old(self).wf(),
            is_port(a),
            addr_ok(a, old(self).heap@.len()),
            a is Auxiliary ==> a->Auxiliary_0.0 > 0,
            b.0 < old(self).heap@.len(),
        ensures
            final(self).wf(),
            final(self).heap@ == bind_heap(old(self).heap@, a, b),
            final(self).active@ == bind_active(old(self).active@, a, b),
            final(self).same_counters(*old(self)),
            leaves_kept(old(self).heap@, final(self).heap@),
    {
        match a {
            Node::Principal(t) => self.active.push((t, b)),
            Node::Auxiliary(r) => self.write(r.0, Node::Principal(b)),
            _ => {},
        }
    }
}

/// Runs `b` to its normal form one rewrite at a time and returns how many
/// rewrites it made; it stops early only after `usize::MAX` of them.
pub fn inner(b: &mut Net) -> (r: usize)
    requires
        old(b).wf(),
    ensures
        final(b).wf(),
        r < usize::MAX ==> final(b).active@.len() == 0,
        final(b).total() >= old(b).total(),
        leaves_kept(old(b).heap@, final(b).heap@),
        final(b).anni < usize::MAX && final(b).comm < usize::MAX && final(b).eras < usize::MAX
            ==> final(b).anni + final(b).comm + final(b).eras == old(b).anni + old(b).comm
            + old(b).eras + r,
        (final(b).heap@, final(b).active@) == run(old(b).heap@, old(b).active@, r as nat),
        final(b).anni < usize::MAX && final(b).comm < usize::MAX && final(b).eras < usize::MAX
            ==> ({
            let c = run_counts(old(b).heap@, old(b).active@, r as nat);
            &&& final(b).anni == old(b).anni + c.0
            &&& final(b).comm == old(b).comm + c.1
            &&& final(b).eras == old(b).eras + c.2
        }),
        forall|j: nat| j < r ==> (#[trigger] run(old(b).heap@, old(b).active@, j)).1.len() > 0,
        final(b).grft == sat_add(old(b).grft, run_grafts(old(b).heap@, old(b).active@, r as nat)),
{
    let mut n: usize = 0;
    let mut done = false;
    while !done && n < usize::MAX
        invariant
            b.wf(),
            done ==> b.active@.len() == 0,
            b.total() >= old(b).total(),
            leaves_kept(old(b).heap@, b.heap@),
            b.anni >= old(b).anni && b.comm >= old(b).comm && b.eras >= old(b).eras,
            b.anni < usize::MAX && b.comm < usize::MAX && b.eras < usize::MAX ==> b.anni + b.comm
                + b.eras == old(b).anni + old(b).comm + old(b).eras + n,
            (b.heap@, b.active@) == run(old(b).heap@, old(b).active@, n as nat),
            b.anni < usize::MAX && b.comm < usize::MAX && b.eras < usize::MAX ==> ({
                let c = run_counts(old(b).heap@, old(b).active@, n as nat);
                &&& b.anni == old(b).anni + c.0
                &&& b.comm == old(b).comm + c.1
                &&& b.eras == old(b).eras + c.2
            }),
            forall|j: nat| j < n ==> (#[trigger] run(old(b).heap@, old(b).active@, j)).1.len() > 0,
            b.grft == sat_add(old(b).grft, run_grafts(old(b).heap@, old(b).active@, n as nat)),
        decreases usize::MAX - n + (if done {
            0int
        } else {
            1int
        }),
    {
        let ghost hp = b.heap@;
        let ghost ap = b.active@;
        let r = b.reduce_one();
        proof {
            lemma_leaves_kept_trans(old(b).heap@, hp, b.heap@);
            let g = run_grafts(old(b).heap@, old(b).active@, n as nat);
            assert(sat_add(sat_add(old(b).grft, g), step_grafts(hp, ap)) == sat_add(
                old(b).grft,
                g + step_grafts(hp, ap),
            ));
        }
        match r {
            Some(()) => {
                n = n + 1;
            },
            None => {
                done = true;
            },
        }
    }
    n
}

} // verus!
