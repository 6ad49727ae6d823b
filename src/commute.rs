//! The commutation rewrite: each tree of an active pair of different kinds
//! is copied once for every port of the other, and the copies are wired.

use vstd::prelude::*;

use crate::net::{
    bind_active, bind_heap, extends, leaves_kept, lemma_extends_trans, lemma_leaves_kept_trans,
    link_active, link_heap, put, same_kind, sat_inc, scratch_ok, Net,
};
use crate::node::{decode, encode, is_port, Node, PackedNode};
use crate::tree::{kind_of, Tree};

verus! {

/// A port met by a scan: its address, its index among the scanned words,
/// and what faces it once placed: a copy of the other tree, or the index of
/// the word of the same tree that it is wired to.
pub type Slot = (Tree, usize, Result<Tree, usize>);

/// `x + g`, or the largest value if that does not fit.
pub open spec fn sat_add(x: usize, g: nat) -> usize {
    if x + g > usize::MAX {
        usize::MAX
    } else {
        (x + g) as usize
    }
}

/// What scanning the tree whose buffer starts at `a0` yields from address
/// `p` on, while `a_len` words of the buffer belong to the tree and `tlen`
/// words have been scanned before: the words in pre-order, the ports met,
/// the number of grafts, and the tree's final length in its buffer. A
/// principal port to a tree of the scanned kind is not a port but a graft:
/// that tree's words are scanned in its place, at most `depth` levels deep.
pub open spec fn scan_from(
    h: Seq<PackedNode>,
    kind: Option<usize>,
    a0: int,
    p: int,
    a_len: int,
    depth: nat,
    tlen: nat,
) -> (Seq<PackedNode>, Seq<Slot>, nat, int)
    decreases depth, h.len() - p,
{
    if !(p - a0 < a_len && 0 <= p < h.len()) {
        (seq![], seq![], 0, a_len)
    } else {
        let node = decode(h[p].0);
        if depth > 0 && node is Principal && node->Principal_0.0 < h.len() && kind_of(
            decode(h[node->Principal_0.0 as int].0),
        ) == kind {
            let q = node->Principal_0.0 as int;
            let inner = scan_from(h, kind, q, q, 1, (depth - 1) as nat, tlen);
            let rest = scan_from(h, kind, a0, p + 1, a_len, depth, tlen + inner.0.len());
            (inner.0 + rest.0, inner.1 + rest.1, inner.2 + 1 + rest.2, rest.3)
        } else {
            let a_len2 = if node is Ctr {
                a_len + 2
            } else {
                a_len
            };
            let slot: Seq<Slot> = if node is Ctr || node is Era {
                seq![]
            } else {
                seq![(Tree(p as usize), tlen as usize, Ok(Tree(0)))]
            };
            let rest = scan_from(h, kind, a0, p + 1, a_len2, depth, tlen + 1);
            (seq![h[p]] + rest.0, slot + rest.1, rest.2, rest.3)
        }
    }
}

/// Placing partners for the ports from the `k`-th on: a port wired into the
/// tree's own buffer (where `x` says indices match) keeps that loop; any
/// other port gets a copy of the other tree's words `bt` at the heap's end.
pub open spec fn place_from(
    h: Seq<PackedNode>,
    av: Seq<Slot>,
    k: int,
    x: bool,
    bt: Seq<PackedNode>,
    a_len: int,
    a0: int,
) -> (Seq<PackedNode>, Seq<Slot>)
    decreases av.len() - k,
{
    if k < 0 || k >= av.len() {
        (h, av)
    } else {
        let (aa, idx, _) = av[k];
        let w = decode(h[aa.0 as int].0);
        if x && w is Auxiliary && a0 <= w->Auxiliary_0.0 && w->Auxiliary_0.0 - a0 < a_len {
            place_from(
                h,
                av.update(k, (aa, idx, Err((w->Auxiliary_0.0 - a0) as usize))),
                k + 1,
                x,
                bt,
                a_len,
                a0,
            )
        } else {
            place_from(
                h + bt,
                av.update(k, (aa, idx, Ok(Tree(h.len() as usize)))),
                k + 1,
                x,
                bt,
                a_len,
                a0,
            )
        }
    }
}

/// One wiring step between the `i`-th port of one tree and the `j`-th of
/// the other: two copies are joined by a wire, or a copy's loop is closed.
pub open spec fn wire_one(h: Seq<PackedNode>, act: Seq<(Tree, Tree)>, s: Slot, t: Slot) -> (
    Seq<PackedNode>,
    Seq<(Tree, Tree)>,
) {
    let (_, ai, bc) = s;
    let (_, bj, ac) = t;
    match (ac, bc) {
        (Ok(ac), Ok(bc)) => {
            let x = Node::Auxiliary(Tree((ac.0 + ai) as usize));
            let y = Node::Auxiliary(Tree((bc.0 + bj) as usize));
            (link_heap(h, x, y), link_active(act, x, y))
        },
        (Ok(ac), Err(k)) => (
            put(h, ac.0 + ai, PackedNode(encode(Node::Auxiliary(Tree((ac.0 + k) as usize))))),
            act,
        ),
        (Err(k), Ok(bc)) => (
            put(h, bc.0 + bj, PackedNode(encode(Node::Auxiliary(Tree((bc.0 + k) as usize))))),
            act,
        ),
        _ => (h, act),
    }
}

/// Wiring every port from the `i`-th on (and, for the `i`-th, from the
/// `j`-th port of the other tree on) to every port of the other tree.
pub open spec fn wire_from(
    h: Seq<PackedNode>,
    act: Seq<(Tree, Tree)>,
    av: Seq<Slot>,
    bv: Seq<Slot>,
    i: int,
    j: int,
) -> (Seq<PackedNode>, Seq<(Tree, Tree)>)
    decreases av.len() - i, bv.len() - j,
{
    if i < 0 || i >= av.len() {
        (h, act)
    } else if j < 0 || j >= bv.len() {
        wire_from(h, act, av, bv, i + 1, 0)
    } else {
        let (h2, act2) = wire_one(h, act, av[i], bv[j]);
        wire_from(h2, act2, av, bv, i, j + 1)
    }
}

/// Binding each original port from the `k`-th on to the copy placed for it.
pub open spec fn attach_from(
    h: Seq<PackedNode>,
    act: Seq<(Tree, Tree)>,
    av: Seq<Slot>,
    k: int,
) -> (Seq<PackedNode>, Seq<(Tree, Tree)>)
    decreases av.len() - k,
{
    if k < 0 || k >= av.len() {
        (h, act)
    } else {
        match av[k].2 {
            Ok(c) => {
                let w = decode(h[av[k].0.0 as int].0);
                if is_port(w) {
                    attach_from(bind_heap(h, w, c), bind_active(act, w, c), av, k + 1)
                } else {
                    attach_from(h, act, av, k + 1)
                }
            },
            Err(_) => attach_from(h, act, av, k + 1),
        }
    }
}

/// The scan of the tree at `a` that a commutation makes.
pub open spec fn scan_tree(h: Seq<PackedNode>, a: Tree) -> (Seq<PackedNode>, Seq<Slot>, nat, int) {
    scan_from(h, kind_of(decode(h[a.0 as int].0)), a.0 as int, a.0 as int, 1, h.len(), 0)
}

/// The heap and active pairs after commuting `a` with `b`: scan both trees,
/// place copies for the ports of `a`, then of `b`, wire the copies, bind the
/// ports of `a`, then those of `b`.
pub open spec fn commute_result(h: Seq<PackedNode>, act: Seq<(Tree, Tree)>, a: Tree, b: Tree) -> (
    Seq<PackedNode>,
    Seq<(Tree, Tree)>,
) {
    let (at, av, _, a_len) = scan_tree(h, a);
    let (bt, bv, _, b_len) = scan_tree(h, b);
    let (h1, av1) = place_from(h, av, 0, a_len == at.len(), bt, a_len, a.0 as int);
    let (h2, bv1) = place_from(h1, bv, 0, b_len == bt.len(), at, b_len, b.0 as int);
    let (h3, act3) = wire_from(h2, act, av1, bv1, 0, 0);
    let (h4, act4) = attach_from(h3, act3, av1, 0);
    attach_from(h4, act4, bv1, 0)
}

/// The number of grafts a commutation of `a` with `b` makes.
pub open spec fn commute_grafts(h: Seq<PackedNode>, a: Tree, b: Tree) -> nat {
    scan_tree(h, a).2 + scan_tree(h, b).2
}

/// Ports found by a scan: each stands in the heap and indexes a scanned word.
pub open spec fn slots_ok(av: Seq<Slot>, tlen: nat, len: nat) -> bool {
    forall|k: int| 0 <= k < av.len() ==> (#[trigger] av[k]).0.0 < len && av[k].1 < tlen
}

/// Ports whose partners have been placed: a copy of the other tree of
/// `other_len` words in the heap, or a loop back to an index of this tree.
pub open spec fn placed(
    av: Seq<Slot>,
    self_len: nat,
    other_len: nat,
    len: nat,
) -> bool {
    &&& slots_ok(av, self_len, len)
    &&& forall|k: int|
        0 <= k < av.len() ==> match (#[trigger] av[k]).2 {
            Ok(c) => 1 <= c.0 && c.0 + other_len <= len,
            Err(i) => i < self_len,
        }
}

/// Placed ports stay placed as the heap grows.
proof fn lemma_placed_grow(
    av: Seq<Slot>,
    self_len: nat,
    other_len: nat,
    len1: nat,
    len2: nat,
)
    requires
        placed(av, self_len, other_len, len1),
        len1 <= len2,
    ensures
        placed(av, self_len, other_len, len2),
{
    assert forall|k: int| 0 <= k < av.len() implies match (#[trigger] av[k]).2 {
        Ok(c) => 1 <= c.0 && c.0 + other_len <= len2,
        Err(i) => i < self_len,
    } by {
        assert(0 <= k < av.len() ==> match av[k].2 {
            Ok(c) => 1 <= c.0 && c.0 + other_len <= len1,
            Err(i) => i < self_len,
        });
    }
}

impl Net {
    /// Rewrites an active pair of different kinds: each tree is copied once
    /// for every port of the other, and the copies are wired to each other
    /// and to the original ports.
    pub fn commute(&mut self, a: Tree, b: Tree)
        requires
            old(self).wf(),
            a.0 < old(self).heap@.len(),
            b.0 < old(self).heap@.len(),
        ensures
            final(self).wf(),
            final(self).heap@.len() >= old(self).heap@.len(),
            leaves_kept(old(self).heap@, final(self).heap@),
            extends(final(self).active@, old(self).active@),
            final(self).comm == sat_inc(old(self).comm),
            final(self).grft >= old(self).grft,
            (final(self).heap@, final(self).active@) == commute_result(
                old(self).heap@,
                old(self).active@,
                a,
                b,
            ),
            final(self).grft == sat_add(sat_add(old(self).grft, scan_tree(old(self).heap@, a).2), scan_tree(old(self).heap@, b).2),
            final(self).anni == old(self).anni,
            final(self).eras == old(self).eras,
    {
        let ghost h0 = self.heap@;
        self.comm = self.comm.saturating_add(1);
        let mut av: Vec<Slot> = Vec::new();
        let mut bv: Vec<Slot> = Vec::new();
        let mut at: Vec<PackedNode> = Vec::new();
        let mut bt: Vec<PackedNode> = Vec::new();
        let depth = self.heap.len();
        let ka = a.kind(&self.heap);
        let kb = b.kind(&self.heap);
        let a_len = self.scan(ka, &mut at, a, &mut av, depth);
        let b_len = self.scan(kb, &mut bt, b, &mut bv, depth);
        let x = a_len == at.len();
        self.place(x, &bt, &mut av, a_len, at.len(), a);
        let ghost h1 = self.heap@;
        let y = b_len == bt.len();
        let len1 = self.heap.len();
        self.place(y, &at, &mut bv, b_len, bt.len(), b);
        proof {
            lemma_placed_grow(av@, at@.len(), bt@.len(), len1 as nat, self.heap@.len());
        }
        let ghost act1 = self.active@;
        let ghost h2 = self.heap@;
        self.wire(&av, &bv, at.len(), bt.len());
        let ghost act2 = self.active@;
        let ghost h3 = self.heap@;
        self.attach(&av, at.len(), bt.len());
        let ghost act3 = self.active@;
        let ghost h4 = self.heap@;
        self.attach(&bv, bt.len(), at.len());
        proof {
            lemma_leaves_kept_trans(h0, h1, h2);
            lemma_leaves_kept_trans(h0, h2, h3);
            lemma_leaves_kept_trans(h0, h3, h4);
            lemma_leaves_kept_trans(h0, h4, self.heap@);
            lemma_extends_trans(act3, act2, act1);
            lemma_extends_trans(self.active@, act3, act1);
        }
    }

    /// Appends the words of the tree at `a` to `t`, in pre-order, and records
    /// each port met in `av`. A principal port to a tree of the same kind is
    /// not recorded: that tree's words are spliced in its place, up to
    /// `depth` levels deep. Returns how many words of `a`'s own buffer the
    /// tree spans.
    fn scan(
        &mut self,
        kind: Option<usize>,
        t: &mut Vec<PackedNode>,
        a: Tree,
        av: &mut Vec<Slot>,
        depth: usize,
    ) -> (a_len: usize)
        requires
            old(self).wf(),
            a.0 < old(self).heap@.len(),
            scratch_ok(old(t)@, old(self).heap@.len()),
            slots_ok(old(av)@, old(t)@.len(), old(self).heap@.len()),
        ensures
            final(self).wf(),
            final(self).heap@ == old(self).heap@,
            final(self).active@ == old(self).active@,
            final(self).anni == old(self).anni,
            final(self).comm == old(self).comm,
            final(self).eras == old(self).eras,
            final(self).grft >= old(self).grft,
            scratch_ok(final(t)@, final(self).heap@.len()),
            slots_ok(final(av)@, final(t)@.len(), final(self).heap@.len()),
            final(t)@.len() > old(t)@.len(),
            ({
                let sc = scan_from(
                    old(self).heap@,
                    kind,
                    a.0 as int,
                    a.0 as int,
                    1,
                    depth as nat,
                    old(t)@.len(),
                );
                &&& final(t)@ == old(t)@ + sc.0
                &&& final(av)@ == old(av)@ + sc.1
                &&& final(self).grft == sat_add(old(self).grft, sc.2)
                &&& a_len == sc.3
            }),
        decreases depth,
    {
        let ghost t0 = t@;
        let ghost av0 = av@;
        let ghost goal = scan_from(self.heap@, kind, a.0 as int, a.0 as int, 1, depth as nat, t0.len());
        let ghost mut g: nat = 0;
        let len = self.heap.len();
        let mut a_len: usize = 1;
        let mut p: usize = a.0;
        let ghost h0 = self.heap@;
        let ghost act0 = self.active@;
        let ghost anni0 = self.anni;
        let ghost comm0 = self.comm;
        let ghost eras0 = self.eras;
        let ghost grft0 = self.grft;
        while p - a.0 < a_len && p < len
            invariant
                self.wf(),
                self.heap@ == h0,
                self.active@ == act0,
                len == h0.len(),
                a.0 <= p <= len,
                a_len <= 2 * (p - a.0) + 1,
                self.anni == anni0,
                self.comm == comm0,
                self.eras == eras0,
                self.grft >= grft0,
                scratch_ok(t@, len as nat),
                slots_ok(av@, t@.len(), len as nat),
                a.0 < len,
                p > a.0 ==> t@.len() > old(t)@.len(),
                p == a.0 ==> a_len == 1,
                t@.len() >= old(t)@.len(),
                t0 == old(t)@,
                av0 == old(av)@,
                goal == scan_from(h0, kind, a.0 as int, a.0 as int, 1, depth as nat, t0.len()),
                ({
                    let now = scan_from(h0, kind, a.0 as int, p as int, a_len as int, depth as nat, t@.len());
                    &&& t@ + now.0 == t0 + goal.0
                    &&& av@ + now.1 == av0 + goal.1
                    &&& g + now.2 == goal.2
                    &&& now.3 == goal.3
                }),
                self.grft == sat_add(grft0, g),
            decreases len - p,
        {
            let ghost now = scan_from(h0, kind, a.0 as int, p as int, a_len as int, depth as nat, t@.len());
            let ghost tp = t@;
            let ghost avp = av@;
            let node = self.heap[p].unpack();
            let mut grafted = false;
            if depth > 0 {
                if let Node::Principal(q) = node {
                    if same_kind(q.kind(&self.heap), kind) {
                        self.grft = self.grft.saturating_add(1);
                        self.scan(kind, t, q, av, depth - 1);
                        grafted = true;
                        proof {
                            let inner = scan_from(h0, kind, q.0 as int, q.0 as int, 1, (depth - 1) as nat, tp.len());
                            let rest = scan_from(h0, kind, a.0 as int, p + 1, a_len as int, depth as nat, t@.len());
                            assert(t@ == tp + inner.0);
                            assert(now.0 == inner.0 + rest.0);
                            assert(t@ + rest.0 =~= tp + now.0);
                            assert(av@ + rest.1 =~= avp + now.1);
                            g = g + 1 + inner.2;
                        }
                    }
                }
            }
            if !grafted {
                match node {
                    Node::Ctr(_) => {
                        a_len = a_len + 2;
                    },
                    Node::Era => {},
                    _ => {
                        av.push((Tree(p), t.len(), Ok(Tree(0))));
                    },
                }
                proof {
                    crate::node::lemma_encode_decode(h0[p as int].0);
                }
                t.push(node.pack());
                proof {
                    let rest = scan_from(h0, kind, a.0 as int, p + 1, a_len as int, depth as nat, t@.len());
                    assert(t@ + rest.0 =~= tp + now.0);
                    assert(av@ + rest.1 =~= avp + now.1);
                }
            }
            p = p + 1;
        }
        proof {
            let now = scan_from(h0, kind, a.0 as int, p as int, a_len as int, depth as nat, t@.len());
            assert(t@ =~= t@ + now.0);
            assert(av@ =~= av@ + now.1);
        }
        a_len
    }

    /// Decides what faces each port in `av`: a port that is wired to another
    /// word of the same tree (`x` says the scan spliced nothing in, so that
    /// indices match) keeps that loop; every other port gets its own copy of
    /// the other tree's words `bt`.
    fn place(
        &mut self,
        x: bool,
        bt: &Vec<PackedNode>,
        av: &mut Vec<Slot>,
        a_len: usize,
        self_len: usize,
        a: Tree,
    )
        requires
            old(self).wf(),
            scratch_ok(bt@, old(self).heap@.len()),
            slots_ok(old(av)@, self_len as nat, old(self).heap@.len()),
            x ==> a_len == self_len,
        ensures
            final(self).wf(),
            final(self).heap@.len() >= old(self).heap@.len(),
            final(self).heap@.subrange(0, old(self).heap@.len() as int) == old(self).heap@,
            leaves_kept(old(self).heap@, final(self).heap@),
            final(self).active@ == old(self).active@,
            final(self).same_counters(*old(self)),
            final(av)@.len() == old(av)@.len(),
            forall|k: int|
                0 <= k < final(av)@.len() ==> (#[trigger] final(av)@[k]).0 == old(av)@[k].0
                    && final(av)@[k].1 == old(av)@[k].1,
            placed(final(av)@, self_len as nat, bt@.len(), final(self).heap@.len()),
            (final(self).heap@, final(av)@) == place_from(
                old(self).heap@,
                old(av)@,
                0,
                x,
                bt@,
                a_len as int,
                a.0 as int,
            ),
    {
        let ghost h0 = self.heap@;
        let ghost av0 = av@;
        let ghost goal = place_from(h0, av0, 0, x, bt@, a_len as int, a.0 as int);
        let mut k: usize = 0;
        while k < av.len()
            invariant
                self.wf(),
                self.heap@.len() >= h0.len(),
                self.heap@.subrange(0, h0.len() as int) == h0,
                self.active@ == old(self).active@,
                self.same_counters(*old(self)),
                scratch_ok(bt@, h0.len()),
                x ==> a_len == self_len,
                av@.len() == av0.len(),
                k <= av@.len(),
                slots_ok(av0, self_len as nat, h0.len()),
                forall|j: int|
                    0 <= j < av@.len() ==> (#[trigger] av@[j]).0 == av0[j].0 && av@[j].1
                        == av0[j].1,
                forall|j: int|
                    0 <= j < k ==> match (#[trigger] av@[j]).2 {
                        Ok(c) => 1 <= c.0 && c.0 + bt@.len() <= self.heap@.len(),
                        Err(i) => i < self_len,
                    },
                goal == place_from(h0, av0, 0, x, bt@, a_len as int, a.0 as int),
                place_from(self.heap@, av@, k as int, x, bt@, a_len as int, a.0 as int) == goal,
                leaves_kept(h0, self.heap@),
            decreases av@.len() - k,
        {
            let (aa, idx, _) = av[k];
            proof {
                assert(self.heap@[aa.0 as int] == h0[aa.0 as int]);
            }
            let mut looped = false;
            if x {
                if let Node::Auxiliary(t) = self.heap[aa.0].unpack() {
                    if a.0 <= t.0 && t.0 - a.0 < a_len {
                        av.set(k, (aa, idx, Err(t.0 - a.0)));
                        looped = true;
                    }
                }
            }
            if !looped {
                let ghost prev = self.heap@;
                assert(scratch_ok(bt@, self.heap@.len()));
                let c = self.allocate(bt);
                assert(self.heap@.subrange(0, h0.len() as int) =~= prev.subrange(
                    0,
                    h0.len() as int,
                ));
                proof {
                    lemma_leaves_kept_trans(h0, prev, self.heap@);
                }
                av.set(k, (aa, idx, Ok(c)));
            }
            k = k + 1;
        }
    }

    /// Wires every copy made for a port of one tree to every copy made for a
    /// port of the other, or closes the loops that stay inside one tree.
    fn wire(
        &mut self,
        av: &Vec<Slot>,
        bv: &Vec<Slot>,
        a_size: usize,
        b_size: usize,
    )
        requires
            old(self).wf(),
            placed(av@, a_size as nat, b_size as nat, old(self).heap@.len()),
            placed(bv@, b_size as nat, a_size as nat, old(self).heap@.len()),
        ensures
            final(self).wf(),
            final(self).heap@.len() == old(self).heap@.len(),
            extends(final(self).active@, old(self).active@),
            leaves_kept(old(self).heap@, final(self).heap@),
            final(self).same_counters(*old(self)),
            (final(self).heap@, final(self).active@) == wire_from(
                old(self).heap@,
                old(self).active@,
                av@,
                bv@,
                0,
                0,
            ),
    {
        let ghost act0 = self.active@;
        let ghost goal = wire_from(self.heap@, self.active@, av@, bv@, 0, 0);
        let len = self.heap.len();
        let mut i: usize = 0;
        assert(self.active@.subrange(0, act0.len() as int) =~= act0);
        while i < av.len()
            invariant
                self.wf(),
                self.heap@.len() == len,
                placed(av@, a_size as nat, b_size as nat, len as nat),
                placed(bv@, b_size as nat, a_size as nat, len as nat),
                extends(self.active@, act0),
                self.same_counters(*old(self)),
                i <= av@.len(),
                wire_from(self.heap@, self.active@, av@, bv@, i as int, 0) == goal,
                leaves_kept(old(self).heap@, self.heap@),
            decreases av@.len() - i,
        {
            let (_, ai, bc) = av[i];
            let mut j: usize = 0;
            while j < bv.len()
                invariant
                    self.wf(),
                    self.heap@.len() == len,
                    placed(av@, a_size as nat, b_size as nat, len as nat),
                    placed(bv@, b_size as nat, a_size as nat, len as nat),
                    extends(self.active@, act0),
                    self.same_counters(*old(self)),
                    i < av@.len(),
                    av@[i as int] == (av@[i as int].0, ai, bc),
                    j <= bv@.len(),
                    wire_from(self.heap@, self.active@, av@, bv@, i as int, j as int) == goal,
                    leaves_kept(old(self).heap@, self.heap@),
                decreases bv@.len() - j,
            {
                let (_, bj, ac) = bv[j];
                let ghost act1 = self.active@;
                let ghost hp = self.heap@;
                match (ac, bc) {
                    (Ok(ac), Ok(bc)) => {
                        self.link(
                            Node::Auxiliary(Tree(ac.0 + ai)),
                            Node::Auxiliary(Tree(bc.0 + bj)),
                        );
                    },
                    (Ok(ac), Err(k)) => {
                        self.write(ac.0 + ai, Node::Auxiliary(Tree(ac.0 + k)));
                    },
                    (Err(k), Ok(bc)) => {
                        self.write(bc.0 + bj, Node::Auxiliary(Tree(bc.0 + k)));
                    },
                    _ => {},
                }
                proof {
                    lemma_leaves_kept_trans(old(self).heap@, hp, self.heap@);
                }
                assert(extends(self.active@, act0)) by {
                    assert(self.active@.subrange(0, act0.len() as int) =~= act1.subrange(
                        0,
                        act0.len() as int,
                    ));
                }
                j = j + 1;
            }
            i = i + 1;
        }
    }

    /// Binds each original port in `av` to the copy placed for it.
    fn attach(
        &mut self,
        av: &Vec<Slot>,
        self_size: usize,
        other_size: usize,
    )
        requires
            old(self).wf(),
            placed(av@, self_size as nat, other_size as nat, old(self).heap@.len()),
            other_size >= 1,
        ensures
            final(self).wf(),
            final(self).heap@.len() == old(self).heap@.len(),
            extends(final(self).active@, old(self).active@),
            final(self).same_counters(*old(self)),
            leaves_kept(old(self).heap@, final(self).heap@),
            (final(self).heap@, final(self).active@) == attach_from(
                old(self).heap@,
                old(self).active@,
                av@,
                0,
            ),
    {
        let ghost act0 = self.active@;
        let ghost goal = attach_from(self.heap@, self.active@, av@, 0);
        let len = self.heap.len();
        let mut i: usize = 0;
        assert(self.active@.subrange(0, act0.len() as int) =~= act0);
        while i < av.len()
            invariant
                self.wf(),
                self.heap@.len() == len,
                attach_from(self.heap@, self.active@, av@, i as int) == goal,
                leaves_kept(old(self).heap@, self.heap@),
                forall|k: int|
                    0 <= k < av@.len() ==> (#[trigger] av@[k]).0.0 < len && match av@[k].2 {
                        Ok(c) => c.0 < len,
                        Err(_) => true,
                    },
                extends(self.active@, act0),
                self.same_counters(*old(self)),
                i <= av@.len(),
            decreases av@.len() - i,
        {
            let (aa, _, bc) = av[i];
            let ghost act1 = self.active@;
            let ghost hp = self.heap@;
            if let Ok(c) = bc {
                let node = self.heap[aa.0].unpack();
                match node {
                    Node::Principal(_) => self.bind(node, c),
                    Node::Auxiliary(_) => self.bind(node, c),
                    _ => {},
                }
            }
            proof {
                lemma_leaves_kept_trans(old(self).heap@, hp, self.heap@);
            }
            assert(extends(self.active@, act0)) by {
                assert(self.active@.subrange(0, act0.len() as int) =~= act1.subrange(
                    0,
                    act0.len() as int,
                ));
            }
            i = i + 1;
        }
    }
}

} // verus!
