//! Laws of the reducer, stated over the contracts of its rewrites.

use vstd::prelude::*;

use crate::commute::{
    attach_from, commute_result, place_from, sat_add, scan_from, wire_from, wire_one, Slot,
};
use crate::net::{
    adv_pos, adv_stack, anni_walk, bind_heap, link_active, erase_walk, leaves_kept, link_heap, popped_step, put,
    reduced, run, run_counts, run_grafts, sat_inc, step, step_class, step_grafts, steps, Net,
};
use crate::node::{decode, encode, is_port, Node, PackedNode};
use crate::parse::fix_word;
use crate::tree::Tree;

verus! {

/// Wire duality on a set of live words: every live auxiliary word names a
/// live word that names it back.
pub open spec fn dual_on(h: Seq<PackedNode>, live: Set<int>) -> bool {
    forall|q: int|
        #![trigger live.contains(q)]
        live.contains(q) ==> 0 <= q < h.len() && (decode(h[q].0) is Auxiliary ==> {
            let p = decode(h[q].0)->Auxiliary_0.0 as int;
            &&& live.contains(p)
            &&& 0 <= p < h.len()
            &&& decode(h[p].0) == Node::Auxiliary(Tree(q as usize))
        })
}

/// Linking keeps wire duality: when the near ends of two wires are consumed
/// by a rewrite and their far ends `x` and `y` are linked to each other,
/// every live word still ends a wire whose other end points back.
pub proof fn lemma_link_keeps_duality(
    h: Seq<PackedNode>,
    live: Set<int>,
    x: int,
    y: int,
    u: int,
    v: int,
)
    requires
        dual_on(h, live),
        h.len() <= crate::node::MAX_ADDR,
        live.contains(x) && live.contains(y) && x != y,
        0 < x && 0 < y,
        decode(h[x].0) == Node::Auxiliary(Tree(u as usize)),
        decode(h[y].0) == Node::Auxiliary(Tree(v as usize)),
        !live.contains(u) && !live.contains(v),
        0 <= u < h.len() && 0 <= v < h.len(),
    ensures
        dual_on(link_heap(h, aux_at(x), aux_at(y)), live),
{
    let h2 = link_heap(h, aux_at(x), aux_at(y));
    crate::node::lemma_decode_encode(aux_at(x));
    crate::node::lemma_decode_encode(aux_at(y));
    assert forall|q: int| #![trigger live.contains(q)] live.contains(q) implies 0 <= q < h2.len() && (
    decode(h2[q].0) is Auxiliary ==> {
        let p = decode(h2[q].0)->Auxiliary_0.0 as int;
        &&& live.contains(p)
        &&& 0 <= p < h2.len()
        &&& decode(h2[p].0) == Node::Auxiliary(Tree(q as usize))
    }) by {
        if q != x && q != y {
            if decode(h[q].0) is Auxiliary {
                let p = decode(h[q].0)->Auxiliary_0.0 as int;
                assert(live.contains(p));
                if p == x {
                    assert(decode(h[x].0) == Node::Auxiliary(Tree(q as usize)));
                    crate::node::lemma_encode_decode(h[x].0);
                }
                if p == y {
                    assert(decode(h[y].0) == Node::Auxiliary(Tree(q as usize)));
                }
            }
        }
    }
}

/// Binding keeps wire duality: when the near end of a wire is consumed and
/// its far end `x` takes a principal port (or an eraser, which links it
/// likewise), every live auxiliary word still names a word that names it
/// back.
pub proof fn lemma_close_end_keeps_duality(
    h: Seq<PackedNode>,
    live: Set<int>,
    x: int,
    u: int,
    w: PackedNode,
)
    requires
        dual_on(h, live),
        0 <= x < h.len(),
        decode(h[x].0) == Node::Auxiliary(Tree(u as usize)),
        !live.contains(u),
        0 <= u < h.len(),
        h.len() <= usize::MAX,
        !(decode(w.0) is Auxiliary),
    ensures
        dual_on(put(h, x, w), live),
{
    let h2 = put(h, x, w);
    assert forall|q: int| #![trigger live.contains(q)] live.contains(q) implies 0 <= q < h2.len() && (
    decode(h2[q].0) is Auxiliary ==> {
        let p = decode(h2[q].0)->Auxiliary_0.0 as int;
        &&& live.contains(p)
        &&& 0 <= p < h2.len()
        &&& decode(h2[p].0) == Node::Auxiliary(Tree(q as usize))
    }) by {
        if q != x && decode(h[q].0) is Auxiliary {
            let p = decode(h[q].0)->Auxiliary_0.0 as int;
            assert(live.contains(p));
            if p == x {
                assert(decode(h[x].0) == Node::Auxiliary(Tree(q as usize)));
            }
        }
    }
}

/// Linking two auxiliary ends leaves each end holding the other's address:
/// the wire is stitched in both directions.
pub proof fn lemma_link_stitches(h: Seq<PackedNode>, x: Tree, y: Tree)
    requires
        0 < x.0 < h.len(),
        0 < y.0 < h.len(),
        x.0 != y.0,
        x.0 <= crate::node::MAX_ADDR,
        y.0 <= crate::node::MAX_ADDR,
    ensures
        decode(link_heap(h, Node::Auxiliary(x), Node::Auxiliary(y))[x.0 as int].0)
            == Node::Auxiliary(y),
        decode(link_heap(h, Node::Auxiliary(x), Node::Auxiliary(y))[y.0 as int].0)
            == Node::Auxiliary(x),
{
    crate::node::lemma_decode_encode(Node::Auxiliary(x));
    crate::node::lemma_decode_encode(Node::Auxiliary(y));
}

/// Linking two auxiliary ends leaves every other wire as it was: a pair of
/// words that held each other's address, neither of them an end being
/// linked, still does.
pub proof fn lemma_link_keeps_wires(h: Seq<PackedNode>, x: Tree, y: Tree, q: Tree, p: Tree)
    requires
        0 <= q.0 < h.len(),
        0 <= p.0 < h.len(),
        decode(h[q.0 as int].0) == Node::Auxiliary(p),
        decode(h[p.0 as int].0) == Node::Auxiliary(q),
        q.0 != x.0 && q.0 != y.0 && p.0 != x.0 && p.0 != y.0,
    ensures
        decode(link_heap(h, Node::Auxiliary(x), Node::Auxiliary(y))[q.0 as int].0)
            == Node::Auxiliary(p),
        decode(link_heap(h, Node::Auxiliary(x), Node::Auxiliary(y))[p.0 as int].0)
            == Node::Auxiliary(q),
{
}

/// The word at `q` is one end of a wire whose other end is `p`, and the
/// word at `p` points back.
pub open spec fn wired(h: Seq<PackedNode>, q: int, p: int) -> bool {
    &&& 0 <= q < h.len() && 0 <= p < h.len()
    &&& decode(h[q].0) == Node::Auxiliary(Tree(p as usize))
    &&& decode(h[p].0) == Node::Auxiliary(Tree(q as usize))
}

/// Annihilating two binary constructors of one kind, in separate buffers,
/// whose four leaves are wired to distinct words outside both trees joins
/// those outer words pairwise, left with left and right with right, with
/// wires that point both ways.
pub proof fn lemma_annihilate_stitches(
    h: Seq<PackedNode>,
    act: Seq<(Tree, Tree)>,
    a: int,
    b: int,
    k: usize,
    p1: int,
    p2: int,
    q1: int,
    q2: int,
)
    requires
        0 < a && a + 2 < h.len() && 0 < b && b + 2 < h.len(),
        h.len() <= crate::node::MAX_ADDR,
        decode(h[a].0) == Node::Ctr(k),
        decode(h[b].0) == Node::Ctr(k),
        wired(h, a + 1, p1),
        wired(h, a + 2, p2),
        wired(h, b + 1, q1),
        wired(h, b + 2, q2),
        0 < p1 && 0 < p2 && 0 < q1 && 0 < q2,
        p1 != p2 && p1 != q1 && p1 != q2 && p2 != q1 && p2 != q2 && q1 != q2,
        a + 2 < b || b + 2 < a,
        !(a <= p1 <= a + 2) && !(b <= p1 <= b + 2),
        !(a <= p2 <= a + 2) && !(b <= p2 <= b + 2),
        !(a <= q1 <= a + 2) && !(b <= q1 <= b + 2),
        !(a <= q2 <= a + 2) && !(b <= q2 <= b + 2),
    ensures
        wired(anni_walk(h, act, a, b, 1, 0, 0).0, p1, q1),
        wired(anni_walk(h, act, a, b, 1, 0, 0).0, p2, q2),
        anni_walk(h, act, a, b, 1, 0, 0).1 == act,
{
    let x1 = Node::Auxiliary(Tree(p1 as usize));
    let y1 = Node::Auxiliary(Tree(q1 as usize));
    let x2 = Node::Auxiliary(Tree(p2 as usize));
    let y2 = Node::Auxiliary(Tree(q2 as usize));
    let h1 = link_heap(h, x1, y1);
    let h2 = link_heap(h1, x2, y2);
    crate::node::lemma_decode_encode(x1);
    crate::node::lemma_decode_encode(y1);
    crate::node::lemma_decode_encode(x2);
    crate::node::lemma_decode_encode(y2);
    assert(anni_walk(h, act, a, b, 1, 0, 0) == anni_walk(h, act, a + 1, b + 1, 2, 0, 0));
    assert(decode(h1[a + 2].0) == x2);
    assert(decode(h1[b + 2].0) == y2);
    assert(anni_walk(h, act, a + 1, b + 1, 2, 0, 0) == anni_walk(h1, act, a + 2, b + 2, 1, 0, 0));
    assert(anni_walk(h1, act, a + 2, b + 2, 1, 0, 0) == anni_walk(h2, act, a + 3, b + 3, 0, 0, 0));
}

/// The scan of a constructor whose two children are auxiliary leaves.
proof fn lemma_two_leaf_scan(h: Seq<PackedNode>, a: int, k: usize)
    requires
        0 < a && a + 2 < h.len(),
        decode(h[a].0) == Node::Ctr(k),
        decode(h[a + 1].0) is Auxiliary,
        decode(h[a + 2].0) is Auxiliary,
    ensures
        scan_from(h, Some(k), a, a, 1, h.len(), 0) == (
            seq![h[a], h[a + 1], h[a + 2]],
            seq![
                (Tree((a + 1) as usize), 1usize, Ok::<Tree, usize>(Tree(0))),
                (Tree((a + 2) as usize), 2usize, Ok::<Tree, usize>(Tree(0))),
            ],
            0nat,
            3int,
        ),
{
    let len = h.len();
    let av: Seq<Slot> = seq![
        (Tree((a + 1) as usize), 1usize, Ok(Tree(0))),
        (Tree((a + 2) as usize), 2usize, Ok(Tree(0))),
    ];
    assert(scan_from(h, Some(k), a, a + 3, 3, len, 3).0 == Seq::<PackedNode>::empty());
    assert(scan_from(h, Some(k), a, a + 3, 3, len, 3).1 == Seq::<Slot>::empty());
    assert(scan_from(h, Some(k), a, a + 2, 3, len, 2).0 =~= seq![h[a + 2]]);
    assert(scan_from(h, Some(k), a, a + 2, 3, len, 2).1 =~= seq![av[1]]);
    assert(scan_from(h, Some(k), a, a + 1, 3, len, 1).0 =~= seq![h[a + 1], h[a + 2]]);
    assert(scan_from(h, Some(k), a, a + 1, 3, len, 1).1 =~= av);
    assert(scan_from(h, Some(k), a, a, 1, len, 0).0 =~= seq![h[a], h[a + 1], h[a + 2]]);
    assert(scan_from(h, Some(k), a, a, 1, len, 0).1 =~= av);
}

/// Placing copies for the two leaves of a constructor wired outside it.
proof fn lemma_two_leaf_place(h: Seq<PackedNode>, a: int, p1: int, p2: int, bt: Seq<PackedNode>)
    requires
        0 < a && a + 2 < h.len(),
        bt.len() == 3,
        decode(h[a + 1].0) == Node::Auxiliary(Tree(p1 as usize)),
        decode(h[a + 2].0) == Node::Auxiliary(Tree(p2 as usize)),
        !(a <= p1 <= a + 2),
        !(a <= p2 <= a + 2),
        0 <= p1 < h.len() && 0 <= p2 < h.len(),
        h.len() + 6 <= usize::MAX,
    ensures
        place_from(
            h,
            seq![
                (Tree((a + 1) as usize), 1usize, Ok::<Tree, usize>(Tree(0))),
                (Tree((a + 2) as usize), 2usize, Ok::<Tree, usize>(Tree(0))),
            ],
            0,
            true,
            bt,
            3,
            a,
        ) == (
            h + bt + bt,
            seq![
                (Tree((a + 1) as usize), 1usize, Ok::<Tree, usize>(Tree(h.len() as usize))),
                (Tree((a + 2) as usize), 2usize, Ok::<Tree, usize>(Tree((h.len() + 3) as usize))),
            ],
        ),
{
    let l = h.len() as int;
    let av: Seq<Slot> = seq![
        (Tree((a + 1) as usize), 1usize, Ok(Tree(0))),
        (Tree((a + 2) as usize), 2usize, Ok(Tree(0))),
    ];
    let av1: Seq<Slot> = seq![
        (Tree((a + 1) as usize), 1usize, Ok(Tree(l as usize))),
        (Tree((a + 2) as usize), 2usize, Ok(Tree((l + 3) as usize))),
    ];
    assert((h + bt)[a + 2] == h[a + 2]);
    assert(place_from(h + bt + bt, av.update(0, av1[0]).update(1, av1[1]), 2, true, bt, 3, a) == (
        h + bt + bt,
        av.update(0, av1[0]).update(1, av1[1]),
    ));
    assert(place_from(h + bt, av.update(0, av1[0]), 1, true, bt, 3, a) == place_from(
        h + bt + bt,
        av.update(0, av1[0]).update(1, av1[1]),
        2,
        true,
        bt,
        3,
        a,
    ));
    assert(av.update(0, av1[0]).update(1, av1[1]) =~= av1);
}

/// The heap `h2` after the four wires between two copies of each of two
/// binary constructors, the copies standing at `l`, `l + 3`, `l + 6` and
/// `l + 9`.
pub open spec fn dup_wires(h2: Seq<PackedNode>, l: int) -> Seq<PackedNode> {
    let w1 = link_heap(h2, aux_at(l + 7), aux_at(l + 1));
    let w2 = link_heap(w1, aux_at(l + 10), aux_at(l + 2));
    let w3 = link_heap(w2, aux_at(l + 8), aux_at(l + 4));
    link_heap(w3, aux_at(l + 11), aux_at(l + 5))
}

/// An auxiliary end pointing at address `i`.
pub open spec fn aux_at(i: int) -> Node {
    Node::Auxiliary(Tree(i as usize))
}

/// Wiring two copies of each of two binary constructors.
proof fn lemma_dup_wire(
    h2: Seq<PackedNode>,
    act: Seq<(Tree, Tree)>,
    av1: Seq<Slot>,
    bv1: Seq<Slot>,
    l: int,
)
    requires
        0 <= l,
        l + 12 <= usize::MAX,
        av1.len() == 2 && bv1.len() == 2,
        av1[0].1 == 1 && av1[0].2 == Ok::<Tree, usize>(Tree(l as usize)),
        av1[1].1 == 2 && av1[1].2 == Ok::<Tree, usize>(Tree((l + 3) as usize)),
        bv1[0].1 == 1 && bv1[0].2 == Ok::<Tree, usize>(Tree((l + 6) as usize)),
        bv1[1].1 == 2 && bv1[1].2 == Ok::<Tree, usize>(Tree((l + 9) as usize)),
    ensures
        wire_from(h2, act, av1, bv1, 0, 0) == (dup_wires(h2, l), act),
{
    let w1 = link_heap(h2, aux_at(l + 7), aux_at(l + 1));
    let w2 = link_heap(w1, aux_at(l + 10), aux_at(l + 2));
    let w3 = link_heap(w2, aux_at(l + 8), aux_at(l + 4));
    let w4 = link_heap(w3, aux_at(l + 11), aux_at(l + 5));
    assert(wire_one(h2, act, av1[0], bv1[0]) == (w1, act));
    assert(wire_one(w1, act, av1[0], bv1[1]) == (w2, act));
    assert(wire_one(w2, act, av1[1], bv1[0]) == (w3, act));
    assert(wire_one(w3, act, av1[1], bv1[1]) == (w4, act));
    assert(wire_from(w4, act, av1, bv1, 2, 0) == (w4, act));
    assert(wire_from(w4, act, av1, bv1, 1, 2) == (w4, act));
    assert(wire_from(w3, act, av1, bv1, 1, 1) == (w4, act));
    assert(wire_from(w2, act, av1, bv1, 1, 0) == (w4, act));
    assert(wire_from(w2, act, av1, bv1, 0, 2) == (w4, act));
    assert(wire_from(w1, act, av1, bv1, 0, 1) == (w4, act));
}

/// What the four wires between the copies do to the heap.
proof fn lemma_dup_wires_facts(h2: Seq<PackedNode>, l: int)
    requires
        0 < l,
        l + 12 <= h2.len(),
        h2.len() <= crate::node::MAX_ADDR,
    ensures
        dup_wires(h2, l).len() == h2.len(),
        forall|i: int| 0 <= i < l ==> #[trigger] dup_wires(h2, l)[i] == h2[i],
        dup_wires(h2, l)[l] == h2[l] && dup_wires(h2, l)[l + 3] == h2[l + 3],
        dup_wires(h2, l)[l + 6] == h2[l + 6] && dup_wires(h2, l)[l + 9] == h2[l + 9],
        wired(dup_wires(h2, l), l + 7, l + 1),
        wired(dup_wires(h2, l), l + 10, l + 2),
        wired(dup_wires(h2, l), l + 8, l + 4),
        wired(dup_wires(h2, l), l + 11, l + 5),
{
    crate::node::lemma_decode_encode(aux_at(l + 1));
    crate::node::lemma_decode_encode(aux_at(l + 2));
    crate::node::lemma_decode_encode(aux_at(l + 4));
    crate::node::lemma_decode_encode(aux_at(l + 5));
    crate::node::lemma_decode_encode(aux_at(l + 7));
    crate::node::lemma_decode_encode(aux_at(l + 8));
    crate::node::lemma_decode_encode(aux_at(l + 10));
    crate::node::lemma_decode_encode(aux_at(l + 11));
}

/// Binding the four outer words to the copies placed for them.
proof fn lemma_dup_attach(
    w4: Seq<PackedNode>,
    act: Seq<(Tree, Tree)>,
    av1: Seq<Slot>,
    bv1: Seq<Slot>,
    a: int,
    b: int,
    l: int,
    p1: int,
    p2: int,
    q1: int,
    q2: int,
)
    requires
        w4.len() == l + 12,
        l + 12 <= crate::node::MAX_ADDR,
        0 < a && a + 2 < l && 0 < b && b + 2 < l,
        0 < p1 < l && 0 < p2 < l && 0 < q1 < l && 0 < q2 < l,
        p1 != p2 && p1 != q1 && p1 != q2 && p2 != q1 && p2 != q2 && q1 != q2,
        p1 != a + 2 && p1 != b + 1 && p1 != b + 2,
        p2 != b + 1 && p2 != b + 2,
        q1 != b + 2,
        decode(w4[a + 1].0) == aux_at(p1),
        decode(w4[a + 2].0) == aux_at(p2),
        decode(w4[b + 1].0) == aux_at(q1),
        decode(w4[b + 2].0) == aux_at(q2),
        av1 == seq![
            (Tree((a + 1) as usize), 1usize, Ok::<Tree, usize>(Tree(l as usize))),
            (Tree((a + 2) as usize), 2usize, Ok::<Tree, usize>(Tree((l + 3) as usize))),
        ],
        bv1 == seq![
            (Tree((b + 1) as usize), 1usize, Ok::<Tree, usize>(Tree((l + 6) as usize))),
            (Tree((b + 2) as usize), 2usize, Ok::<Tree, usize>(Tree((l + 9) as usize))),
        ],
    ensures
        ({
            let f = attach_from(w4, act, av1, 0);
            let g = attach_from(f.0, f.1, bv1, 0);
            &&& g.1 == act
            &&& g.0.len() == w4.len()
            &&& forall|i: int| l <= i < l + 12 ==> #[trigger] g.0[i] == w4[i]
            &&& decode(g.0[p1].0) == Node::Principal(Tree(l as usize))
            &&& decode(g.0[p2].0) == Node::Principal(Tree((l + 3) as usize))
            &&& decode(g.0[q1].0) == Node::Principal(Tree((l + 6) as usize))
            &&& decode(g.0[q2].0) == Node::Principal(Tree((l + 9) as usize))
        }),
{
    let f1 = bind_heap(w4, aux_at(p1), Tree(l as usize));
    let f2 = bind_heap(f1, aux_at(p2), Tree((l + 3) as usize));
    let f3 = bind_heap(f2, aux_at(q1), Tree((l + 6) as usize));
    let f4 = bind_heap(f3, aux_at(q2), Tree((l + 9) as usize));
    assert(f1[a + 2] == w4[a + 2]);
    assert(f2[b + 1] == w4[b + 1]);
    assert(f3[b + 2] == w4[b + 2]);
    assert(attach_from(f2, act, av1, 2) == (f2, act));
    assert(attach_from(f1, act, av1, 1) == (f2, act));
    assert(attach_from(w4, act, av1, 0) == (f2, act));
    assert(attach_from(f4, act, bv1, 2) == (f4, act));
    assert(attach_from(f3, act, bv1, 1) == (f4, act));
    assert(attach_from(f2, act, bv1, 0) == (f4, act));
    crate::node::lemma_decode_encode(Node::Principal(Tree(l as usize)));
    crate::node::lemma_decode_encode(Node::Principal(Tree((l + 3) as usize)));
    crate::node::lemma_decode_encode(Node::Principal(Tree((l + 6) as usize)));
    crate::node::lemma_decode_encode(Node::Principal(Tree((l + 9) as usize)));
}

/// Commuting two binary constructors of different kinds, in separate
/// buffers, whose four leaves are wired to distinct words outside both trees
/// duplicates each tree once for each leaf of the other. With `l` the heap's
/// length before: copies of `b` land at `l` and `l + 3` and face `a`'s
/// left and right leaves' outer words; copies of `a` land at `l + 6` and
/// `l + 9` and face `b`'s. Leaf `j` of the `i`-th copy of `a` and leaf `i`
/// of the `j`-th copy of `b` are wired to each other, both ways. No active
/// pair is made.
#[verifier::rlimit(60)]
#[verifier::spinoff_prover]
pub proof fn lemma_commute_duplicates(
    h: Seq<PackedNode>,
    act: Seq<(Tree, Tree)>,
    a: int,
    b: int,
    ka: usize,
    kb: usize,
    p1: int,
    p2: int,
    q1: int,
    q2: int,
)
    requires
        0 < a && a + 2 < h.len() && 0 < b && b + 2 < h.len(),
        h.len() + 12 <= crate::node::MAX_ADDR,
        ka != kb,
        decode(h[a].0) == Node::Ctr(ka),
        decode(h[b].0) == Node::Ctr(kb),
        wired(h, a + 1, p1),
        wired(h, a + 2, p2),
        wired(h, b + 1, q1),
        wired(h, b + 2, q2),
        0 < p1 && 0 < p2 && 0 < q1 && 0 < q2,
        p1 != p2 && p1 != q1 && p1 != q2 && p2 != q1 && p2 != q2 && q1 != q2,
        a + 2 < b || b + 2 < a,
        !(a <= p1 <= a + 2) && !(b <= p1 <= b + 2),
        !(a <= p2 <= a + 2) && !(b <= p2 <= b + 2),
        !(a <= q1 <= a + 2) && !(b <= q1 <= b + 2),
        !(a <= q2 <= a + 2) && !(b <= q2 <= b + 2),
    ensures
        ({
            let l = h.len() as int;
            let (hf, actf) = commute_result(h, act, Tree(a as usize), Tree(b as usize));
            &&& actf == act
            &&& hf.len() == l + 12
            &&& hf[l] == h[b] && hf[l + 3] == h[b]
            &&& hf[l + 6] == h[a] && hf[l + 9] == h[a]
            &&& decode(hf[p1].0) == Node::Principal(Tree(l as usize))
            &&& decode(hf[p2].0) == Node::Principal(Tree((l + 3) as usize))
            &&& decode(hf[q1].0) == Node::Principal(Tree((l + 6) as usize))
            &&& decode(hf[q2].0) == Node::Principal(Tree((l + 9) as usize))
            &&& wired(hf, l + 7, l + 1)
            &&& wired(hf, l + 10, l + 2)
            &&& wired(hf, l + 8, l + 4)
            &&& wired(hf, l + 11, l + 5)
        }),
{
    let l = h.len() as int;
    lemma_two_leaf_scan(h, a, ka);
    lemma_two_leaf_scan(h, b, kb);
    let at = seq![h[a], h[a + 1], h[a + 2]];
    let bt = seq![h[b], h[b + 1], h[b + 2]];
    lemma_two_leaf_place(h, a, p1, p2, bt);
    let h1 = h + bt + bt;
    assert(h1[b + 1] == h[b + 1] && h1[b + 2] == h[b + 2]);
    lemma_two_leaf_place(h1, b, q1, q2, at);
    let h2 = h1 + at + at;
    let av1: Seq<Slot> = seq![
        (Tree((a + 1) as usize), 1usize, Ok(Tree(l as usize))),
        (Tree((a + 2) as usize), 2usize, Ok(Tree((l + 3) as usize))),
    ];
    let bv1: Seq<Slot> = seq![
        (Tree((b + 1) as usize), 1usize, Ok(Tree((l + 6) as usize))),
        (Tree((b + 2) as usize), 2usize, Ok(Tree((l + 9) as usize))),
    ];
    lemma_dup_wire(h2, act, av1, bv1, l);
    lemma_dup_wires_facts(h2, l);
    let w4 = dup_wires(h2, l);
    assert(w4[a + 1] == h[a + 1] && w4[a + 2] == h[a + 2]);
    assert(w4[b + 1] == h[b + 1] && w4[b + 2] == h[b + 2]);
    assert(h2[l] == h[b] && h2[l + 3] == h[b] && h2[l + 6] == h[a] && h2[l + 9] == h[a]);
    lemma_dup_attach(w4, act, av1, bv1, a, b, l, p1, p2, q1, q2);
}

/// Placing partners for the two leaves of a constructor that are wired to
/// each other: each keeps its loop, and nothing is copied.
proof fn lemma_loop_place(h: Seq<PackedNode>, b: int, at: Seq<PackedNode>)
    requires
        0 < b && b + 2 < h.len(),
        h.len() <= usize::MAX,
        decode(h[b + 1].0) == aux_at(b + 2),
        decode(h[b + 2].0) == aux_at(b + 1),
    ensures
        place_from(
            h,
            seq![
                (Tree((b + 1) as usize), 1usize, Ok::<Tree, usize>(Tree(0))),
                (Tree((b + 2) as usize), 2usize, Ok::<Tree, usize>(Tree(0))),
            ],
            0,
            true,
            at,
            3,
            b,
        ) == (
            h,
            seq![
                (Tree((b + 1) as usize), 1usize, Err::<Tree, usize>(2)),
                (Tree((b + 2) as usize), 2usize, Err::<Tree, usize>(1)),
            ],
        ),
{
    let bv: Seq<Slot> = seq![
        (Tree((b + 1) as usize), 1usize, Ok(Tree(0))),
        (Tree((b + 2) as usize), 2usize, Ok(Tree(0))),
    ];
    let bv1: Seq<Slot> = seq![
        (Tree((b + 1) as usize), 1usize, Err(2)),
        (Tree((b + 2) as usize), 2usize, Err(1)),
    ];
    assert(bv.update(0, bv1[0]).update(1, bv1[1]) =~= bv1);
    assert(place_from(h, bv1, 2, true, at, 3, b) == (h, bv1));
    assert(place_from(h, bv.update(0, bv1[0]), 1, true, at, 3, b) == (h, bv1));
}

/// The heap `h2` after the loops of two copies, at `l` and `l + 3`, of a
/// constructor whose two leaves are wired to each other are closed.
pub open spec fn loop_wires(h2: Seq<PackedNode>, l: int) -> Seq<PackedNode> {
    let w1 = put(h2, l + 1, PackedNode(encode(aux_at(l + 2))));
    let w2 = put(w1, l + 2, PackedNode(encode(aux_at(l + 1))));
    let w3 = put(w2, l + 4, PackedNode(encode(aux_at(l + 5))));
    put(w3, l + 5, PackedNode(encode(aux_at(l + 4))))
}

/// Closing the loops inside the two copies.
proof fn lemma_loop_wire(
    h2: Seq<PackedNode>,
    act: Seq<(Tree, Tree)>,
    av1: Seq<Slot>,
    bv1: Seq<Slot>,
    l: int,
)
    requires
        0 <= l,
        l + 6 <= usize::MAX,
        av1.len() == 2 && bv1.len() == 2,
        av1[0].1 == 1 && av1[0].2 == Ok::<Tree, usize>(Tree(l as usize)),
        av1[1].1 == 2 && av1[1].2 == Ok::<Tree, usize>(Tree((l + 3) as usize)),
        bv1[0].1 == 1 && bv1[0].2 == Err::<Tree, usize>(2),
        bv1[1].1 == 2 && bv1[1].2 == Err::<Tree, usize>(1),
    ensures
        wire_from(h2, act, av1, bv1, 0, 0) == (loop_wires(h2, l), act),
{
    let w1 = put(h2, l + 1, PackedNode(encode(aux_at(l + 2))));
    let w2 = put(w1, l + 2, PackedNode(encode(aux_at(l + 1))));
    let w3 = put(w2, l + 4, PackedNode(encode(aux_at(l + 5))));
    let w4 = put(w3, l + 5, PackedNode(encode(aux_at(l + 4))));
    assert(wire_one(h2, act, av1[0], bv1[0]) == (w1, act));
    assert(wire_one(w1, act, av1[0], bv1[1]) == (w2, act));
    assert(wire_one(w2, act, av1[1], bv1[0]) == (w3, act));
    assert(wire_one(w3, act, av1[1], bv1[1]) == (w4, act));
    assert(wire_from(w4, act, av1, bv1, 2, 0) == (w4, act));
    assert(wire_from(w4, act, av1, bv1, 1, 2) == (w4, act));
    assert(wire_from(w3, act, av1, bv1, 1, 1) == (w4, act));
    assert(wire_from(w2, act, av1, bv1, 1, 0) == (w4, act));
    assert(wire_from(w2, act, av1, bv1, 0, 2) == (w4, act));
    assert(wire_from(w1, act, av1, bv1, 0, 1) == (w4, act));
}

/// Commuting a binary constructor whose two leaves are wired to distinct
/// words outside both trees with a binary constructor of another kind whose
/// two leaves are wired to each other: the second tree is copied once for
/// each leaf of the first, at `l` and `l + 3` with `l` the heap's length
/// before, and the outer words take those copies. The first tree is not
/// copied, since the loop faces no port, and each copy's two leaves are
/// wired to each other, both ways, so no end is left dangling.
#[verifier::rlimit(60)]
#[verifier::spinoff_prover]
pub proof fn lemma_commute_closes_loops(
    h: Seq<PackedNode>,
    act: Seq<(Tree, Tree)>,
    a: int,
    b: int,
    ka: usize,
    kb: usize,
    p1: int,
    p2: int,
)
    requires
        0 < a && a + 2 < h.len() && 0 < b && b + 2 < h.len(),
        h.len() + 6 <= crate::node::MAX_ADDR,
        ka != kb,
        decode(h[a].0) == Node::Ctr(ka),
        decode(h[b].0) == Node::Ctr(kb),
        wired(h, a + 1, p1),
        wired(h, a + 2, p2),
        wired(h, b + 1, b + 2),
        0 < p1 && 0 < p2 && p1 != p2,
        a + 2 < b || b + 2 < a,
        !(a <= p1 <= a + 2) && !(b <= p1 <= b + 2),
        !(a <= p2 <= a + 2) && !(b <= p2 <= b + 2),
    ensures
        ({
            let l = h.len() as int;
            let (hf, actf) = commute_result(h, act, Tree(a as usize), Tree(b as usize));
            &&& actf == act
            &&& hf.len() == l + 6
            &&& hf[l] == h[b] && hf[l + 3] == h[b]
            &&& decode(hf[p1].0) == Node::Principal(Tree(l as usize))
            &&& decode(hf[p2].0) == Node::Principal(Tree((l + 3) as usize))
            &&& wired(hf, l + 1, l + 2)
            &&& wired(hf, l + 4, l + 5)
        }),
{
    let l = h.len() as int;
    lemma_two_leaf_scan(h, a, ka);
    lemma_two_leaf_scan(h, b, kb);
    let at = seq![h[a], h[a + 1], h[a + 2]];
    let bt = seq![h[b], h[b + 1], h[b + 2]];
    lemma_two_leaf_place(h, a, p1, p2, bt);
    let h1 = h + bt + bt;
    assert(h1[b + 1] == h[b + 1] && h1[b + 2] == h[b + 2]);
    lemma_loop_place(h1, b, at);
    let av1: Seq<Slot> = seq![
        (Tree((a + 1) as usize), 1usize, Ok(Tree(l as usize))),
        (Tree((a + 2) as usize), 2usize, Ok(Tree((l + 3) as usize))),
    ];
    let bv1: Seq<Slot> = seq![
        (Tree((b + 1) as usize), 1usize, Err(2)),
        (Tree((b + 2) as usize), 2usize, Err(1)),
    ];
    lemma_loop_wire(h1, act, av1, bv1, l);
    let w4 = loop_wires(h1, l);
    assert(w4[a + 1] == h[a + 1] && w4[a + 2] == h[a + 2]);
    assert(w4[l] == h[b] && w4[l + 3] == h[b]);
    let f1 = bind_heap(w4, aux_at(p1), Tree(l as usize));
    let f2 = bind_heap(f1, aux_at(p2), Tree((l + 3) as usize));
    assert(f1[a + 2] == w4[a + 2]);
    assert(attach_from(f2, act, av1, 2) == (f2, act));
    assert(attach_from(f1, act, av1, 1) == (f2, act));
    assert(attach_from(w4, act, av1, 0) == (f2, act));
    assert(attach_from(f2, act, bv1, 2) == (f2, act));
    assert(attach_from(f2, act, bv1, 1) == (f2, act));
    assert(attach_from(f2, act, bv1, 0) == (f2, act));
    crate::node::lemma_decode_encode(aux_at(l + 1));
    crate::node::lemma_decode_encode(aux_at(l + 2));
    crate::node::lemma_decode_encode(aux_at(l + 4));
    crate::node::lemma_decode_encode(aux_at(l + 5));
    crate::node::lemma_decode_encode(Node::Principal(Tree(l as usize)));
    crate::node::lemma_decode_encode(Node::Principal(Tree((l + 3) as usize)));
}

/// Erasing a binary constructor whose two leaves are wired to words
/// outside it closes both of those words with erasers, so no end is left
/// dangling, and schedules nothing.
pub proof fn lemma_erase_closes_wires(
    h: Seq<PackedNode>,
    act: Seq<(Tree, Tree)>,
    a: int,
    k: usize,
    p1: int,
    p2: int,
)
    requires
        0 < a && a + 2 < h.len(),
        h.len() <= usize::MAX,
        decode(h[a].0) == Node::Ctr(k),
        wired(h, a + 1, p1),
        wired(h, a + 2, p2),
        0 < p1 && 0 < p2 && p1 != p2,
        !(a <= p1 <= a + 2) && !(a <= p2 <= a + 2),
    ensures
        decode(erase_walk(h, act, a, 1).0[p1].0) == Node::Era,
        decode(erase_walk(h, act, a, 1).0[p2].0) == Node::Era,
        erase_walk(h, act, a, 1).1 == act,
{
    let h1 = link_heap(h, aux_at(p1), Node::Era);
    let h2 = link_heap(h1, aux_at(p2), Node::Era);
    assert(h1[a + 2] == h[a + 2]);
    assert(erase_walk(h2, act, a + 3, 0) == (h2, act));
    assert(erase_walk(h1, act, a + 2, 1) == (h2, act));
    assert(erase_walk(h, act, a + 1, 2) == (h2, act));
    assert(erase_walk(h, act, a, 1) == (h2, act));
}

/// The address, in the copy of `a` facing the `j`-th port of `b`, of the
/// `i`-th port of `a`.
pub open spec fn a_end(av: Seq<Slot>, bv: Seq<Slot>, i: int, j: int) -> int {
    bv[j].2->Ok_0.0 + av[i].1
}

/// The address, in the copy of `b` facing the `i`-th port of `a`, of the
/// `j`-th port of `b`.
pub open spec fn b_end(av: Seq<Slot>, bv: Seq<Slot>, i: int, j: int) -> int {
    av[i].2->Ok_0.0 + bv[j].1
}

/// The ports of two trees, each with a copy of the other tree placed for
/// it: the copies of `b` (of `b_size` words) and of `a` (of `a_size` words)
/// lie in the heap, in separate places; the port indices of each tree are
/// distinct and fall inside its copies.
pub open spec fn copies_apart(
    h: Seq<PackedNode>,
    av: Seq<Slot>,
    bv: Seq<Slot>,
    a_size: int,
    b_size: int,
) -> bool {
    &&& h.len() <= crate::node::MAX_ADDR
    &&& forall|i: int|
        0 <= i < av.len() ==> (#[trigger] av[i]).2 is Ok && av[i].1 < a_size && 0 < av[i].2->Ok_0.0
            && av[i].2->Ok_0.0 + b_size <= h.len()
    &&& forall|j: int|
        0 <= j < bv.len() ==> (#[trigger] bv[j]).2 is Ok && bv[j].1 < b_size && 0 < bv[j].2->Ok_0.0
            && bv[j].2->Ok_0.0 + a_size <= h.len()
    &&& forall|i1: int, i2: int|
        0 <= i1 < av.len() && 0 <= i2 < av.len() && i1 != i2 ==> (#[trigger] av[i1]).1 != (
        #[trigger] av[i2]).1 && (av[i1].2->Ok_0.0 + b_size <= av[i2].2->Ok_0.0 || av[i2].2->Ok_0.0
            + b_size <= av[i1].2->Ok_0.0)
    &&& forall|j1: int, j2: int|
        0 <= j1 < bv.len() && 0 <= j2 < bv.len() && j1 != j2 ==> (#[trigger] bv[j1]).1 != (
        #[trigger] bv[j2]).1 && (bv[j1].2->Ok_0.0 + a_size <= bv[j2].2->Ok_0.0 || bv[j2].2->Ok_0.0
            + a_size <= bv[j1].2->Ok_0.0)
    &&& forall|i: int, j: int|
        0 <= i < av.len() && 0 <= j < bv.len() ==> ((#[trigger] av[i]).2->Ok_0.0 + b_size
            <= (#[trigger] bv[j]).2->Ok_0.0 || bv[j].2->Ok_0.0 + a_size <= av[i].2->Ok_0.0)
}

/// The wire between the `i`-th port of `a` and the `j`-th port of `b` is
/// stitched in `h`.
pub open spec fn pair_wired(h: Seq<PackedNode>, av: Seq<Slot>, bv: Seq<Slot>, i: int, j: int) -> bool {
    wired(h, a_end(av, bv, i, j), b_end(av, bv, i, j))
}

proof fn lemma_wire_from_all(
    h: Seq<PackedNode>,
    act: Seq<(Tree, Tree)>,
    av: Seq<Slot>,
    bv: Seq<Slot>,
    a_size: int,
    b_size: int,
    i: int,
    j: int,
)
    requires
        copies_apart(h, av, bv, a_size, b_size),
        0 <= i <= av.len(),
        0 <= j <= bv.len(),
        forall|i2: int, j2: int|
            0 <= i2 < av.len() && 0 <= j2 < bv.len() && (i2 < i || (i2 == i && j2 < j))
                ==> #[trigger] pair_wired(h, av, bv, i2, j2),
    ensures
        wire_from(h, act, av, bv, i, j).0.len() == h.len(),
        forall|i2: int, j2: int|
            0 <= i2 < av.len() && 0 <= j2 < bv.len() ==> #[trigger] pair_wired(
                wire_from(h, act, av, bv, i, j).0,
                av,
                bv,
                i2,
                j2,
            ),
    decreases av.len() - i, bv.len() - j,
{
    if i < av.len() {
        if j >= bv.len() {
            lemma_wire_from_all(h, act, av, bv, a_size, b_size, i + 1, 0);
        } else {
            let x = a_end(av, bv, i, j);
            let y = b_end(av, bv, i, j);
            let h2 = link_heap(h, aux_at(x), aux_at(y));
            assert(av[i].2 is Ok && bv[j].2 is Ok);
            assert(wire_one(h, act, av[i], bv[j]) == (h2, link_active(act, aux_at(x), aux_at(y))));
            crate::node::lemma_decode_encode(aux_at(x));
            crate::node::lemma_decode_encode(aux_at(y));
            assert forall|i2: int, j2: int|
                0 <= i2 < av.len() && 0 <= j2 < bv.len() && (i2 < i || (i2 == i && j2 < j + 1))
                    implies #[trigger] pair_wired(h2, av, bv, i2, j2) by {
                if i2 == i && j2 == j {
                } else {
                    assert(pair_wired(h, av, bv, i2, j2));
                    let q = a_end(av, bv, i2, j2);
                    let p = b_end(av, bv, i2, j2);
                    assert(q != x && q != y && p != x && p != y) by {
                        if j2 != j {
                            assert(bv[j2].1 != bv[j].1);
                        } else {
                            assert(i2 != i);
                            assert(av[i2].1 != av[i].1);
                        }
                    }
                    lemma_link_keeps_wires(h, Tree(x as usize), Tree(y as usize), Tree(q as usize), Tree(p as usize));
                }
            }
            lemma_wire_from_all(h2, link_active(act, aux_at(x), aux_at(y)), av, bv, a_size, b_size, i, j + 1);
        }
    }
}

/// Commuting wires every copy to every other: when each port of `a` has a
/// copy of `b` and each port of `b` a copy of `a`, placed apart, then after
/// wiring, the `i`-th port of the copy of `a` facing `b`'s `j`-th port and
/// the `j`-th port of the copy of `b` facing `a`'s `i`-th port hold each
/// other's address, for every `i` and `j`.
pub proof fn lemma_commute_wires_every_pair(
    h: Seq<PackedNode>,
    act: Seq<(Tree, Tree)>,
    av: Seq<Slot>,
    bv: Seq<Slot>,
    a_size: int,
    b_size: int,
)
    requires
        copies_apart(h, av, bv, a_size, b_size),
    ensures
        forall|i: int, j: int|
            0 <= i < av.len() && 0 <= j < bv.len() ==> #[trigger] pair_wired(
                wire_from(h, act, av, bv, 0, 0).0,
                av,
                bv,
                i,
                j,
            ),
{
    lemma_wire_from_all(h, act, av, bv, a_size, b_size, 0, 0);
}

/// Erasing a tree whose root is an eraser changes nothing: no word is
/// written and no pair is scheduled.
pub proof fn lemma_erase_eraser(h: Seq<PackedNode>, act: Seq<(Tree, Tree)>, a: int)
    requires
        0 <= a < h.len(),
        decode(h[a].0) == Node::Era,
    ensures
        erase_walk(h, act, a, 1) == (h, act),
{
    assert(erase_walk(h, act, a, 1) == erase_walk(h, act, a + 1, 0));
}

/// Reducing a net whose only active pair is an eraser facing the null tree
/// takes one erasure and ends with no pair left and the heap unchanged:
/// every run of one or more steps gives that same net.
pub proof fn lemma_run_erases_eraser(h: Seq<PackedNode>, e: Tree, k: nat)
    requires
        e.0 < h.len(),
        decode(h[e.0 as int].0) == Node::Era,
        k >= 1,
    ensures
        run(h, seq![(e, Tree(0))], k) == (h, Seq::<(Tree, Tree)>::empty()),
        run_grafts(h, seq![(e, Tree(0))], k) == 0,
    decreases k,
{
    let act = seq![(e, Tree(0))];
    assert(act.drop_last() =~= Seq::<(Tree, Tree)>::empty());
    lemma_erase_eraser(h, Seq::<(Tree, Tree)>::empty(), e.0 as int);
    assert(act.last() == (e, Tree(0)));
    assert(step(h, act) == (h, Seq::<(Tree, Tree)>::empty()));
    assert(step_grafts(h, act) == 0);
    assert(run(h, act, 0) == (h, act));
    assert(run_grafts(h, act, 0) == 0);
    if k == 1 {
        assert(run_grafts(h, act, 1) == run_grafts(h, act, 0) + step_grafts(h, act));
    }
    if k > 1 {
        lemma_run_erases_eraser(h, e, (k - 1) as nat);
        assert(step(h, Seq::<(Tree, Tree)>::empty()) == (h, Seq::<(Tree, Tree)>::empty()));
        assert(step_grafts(h, Seq::<(Tree, Tree)>::empty()) == 0);
    }
}

/// Reducing a net whose only active pair is an eraser facing the null tree
/// makes exactly one rewrite: the stack ends empty, the heap is unchanged,
/// and no graft is counted.
pub proof fn lemma_reduce_erases_eraser(before: Net, after: Net, e: Tree)
    requires
        reduced(before, after),
        before.active@ == seq![(e, Tree(0))],
        e.0 < before.heap@.len(),
        decode(before.heap@[e.0 as int].0) == Node::Era,
        before.anni + before.comm + before.eras < usize::MAX,
    ensures
        after.heap@ == before.heap@,
        after.active@.len() == 0,
        steps(after) == steps(before) + 1,
        after.eras == before.eras + 1,
        after.anni == before.anni && after.comm == before.comm,
        after.grft == before.grft,
{
    let k = choose|k: nat|
        {
            &&& (after.heap@, after.active@) == #[trigger] run(before.heap@, before.active@, k)
            &&& steps(after) == steps(before) + k
            &&& after.anni == before.anni + run_counts(before.heap@, before.active@, k).0
            &&& after.comm == before.comm + run_counts(before.heap@, before.active@, k).1
            &&& after.eras == before.eras + run_counts(before.heap@, before.active@, k).2
            &&& after.grft == sat_add(before.grft, run_grafts(before.heap@, before.active@, k))
            &&& forall|j: nat| j < k ==> (#[trigger] run(before.heap@, before.active@, j)).1.len() > 0
        };
    lemma_run_erases_eraser(before.heap@, e, 1);
    assert(run(before.heap@, before.active@, 0) == (before.heap@, before.active@));
    assert(k == 1) by {
        if k > 1 {
            assert(run(before.heap@, before.active@, 1).1.len() > 0);
        }
    }
    assert(before.active@.last() == (e, Tree(0)));
    assert(step_class(before.heap@, before.active@) == (0nat, 0nat, 1nat));
    assert(run_counts(before.heap@, before.active@, 0) == (0nat, 0nat, 0nat));
}

/// One fixup of a freshly copied auxiliary word whose slot holds another
/// auxiliary word stitches a wire: the copied word and the word it now
/// names hold each other's address.
pub proof fn lemma_fix_word_stitches(h: Seq<PackedNode>, q: int, r: int, r2: int)
    requires
        0 < q < h.len() && 0 < r < h.len() && 0 < r2 < h.len(),
        h.len() <= crate::node::MAX_ADDR,
        q != r2,
        decode(h[q].0) == Node::Auxiliary(Tree(r as usize)),
        decode(h[r].0) == Node::Auxiliary(Tree(r2 as usize)),
    ensures
        wired(fix_word(h, q), q, r2),
{
    crate::node::lemma_decode_encode(Node::Auxiliary(Tree(r2 as usize)));
    crate::node::lemma_decode_encode(Node::Auxiliary(Tree(q as usize)));
}

/// An active pair of an eraser and the null tree takes one erasure and
/// leaves the heap and the rest of the stack as they were.
pub proof fn lemma_era_null_step(before: Net, after: Net)
    requires
        before.active@.len() > 0,
        before.active@.last().1.0 == 0,
        before.active@.last().0.0 < before.heap@.len(),
        before.at(before.active@.last().0.0 as int) == Node::Era,
        popped_step(before, after),
    ensures
        after.heap@ == before.heap@,
        after.active@ == before.active@.drop_last(),
        after.eras == sat_inc(before.eras),
        after.anni == before.anni && after.comm == before.comm && after.grft == before.grft,
{
    lemma_erase_eraser(
        before.heap@,
        before.active@.drop_last(),
        before.active@.last().0.0 as int,
    );
}

/// An active pair of two erasers annihilates in one step and changes
/// nothing else.
pub proof fn lemma_era_era_step(before: Net, after: Net)
    requires
        before.active@.len() > 0,
        before.active@.last().1.0 != 0,
        before.at(before.active@.last().0.0 as int) == Node::Era,
        before.at(before.active@.last().1.0 as int) == Node::Era,
        popped_step(before, after),
    ensures
        after.heap@ == before.heap@,
        after.active@ == before.active@.drop_last(),
        after.anni == sat_inc(before.anni),
        after.comm == before.comm && after.eras == before.eras && after.grft == before.grft,
{
}

/// A rewrite step counts itself once: unless a counter is already full,
/// annihilations, commutations and erasures together grow by exactly one,
/// and the four counters together never shrink.
pub proof fn lemma_step_counts_once(before: Net, after: Net)
    requires
        before.active@.len() > 0,
        popped_step(before, after),
        before.anni < usize::MAX && before.comm < usize::MAX && before.eras < usize::MAX,
    ensures
        after.anni + after.comm + after.eras == before.anni + before.comm + before.eras + 1,
        after.total() >= before.total() + 1,
{
}

/// No free port is lost to reduction: a free port is a leaf word of the
/// heap, and as rewriting keeps every leaf a leaf and never shrinks the
/// heap, every free port is still a leaf word afterwards.
pub proof fn lemma_free_ports_kept(before: Seq<PackedNode>, after: Seq<PackedNode>, free: Seq<Tree>)
    requires
        leaves_kept(before, after),
        forall|k: int|
            0 <= k < free.len() ==> (#[trigger] free[k]).0 < before.len() && !(decode(
                before[free[k].0 as int].0,
            ) is Ctr),
    ensures
        forall|k: int|
            0 <= k < free.len() ==> (#[trigger] free[k]).0 < after.len() && !(decode(
                after[free[k].0 as int].0,
            ) is Ctr),
{
}

/// No word of the heap is a port.
pub open spec fn no_ports(h: Seq<PackedNode>) -> bool {
    forall|i: int| 0 <= i < h.len() ==> !is_port(#[trigger] decode(h[i].0))
}

/// Without ports a scan meets no port to copy for.
proof fn lemma_scan_no_ports(
    h: Seq<PackedNode>,
    kind: Option<usize>,
    a0: int,
    p: int,
    a_len: int,
    depth: nat,
    tlen: nat,
)
    requires
        no_ports(h),
    ensures
        scan_from(h, kind, a0, p, a_len, depth, tlen).1 == Seq::<Slot>::empty(),
    decreases depth, h.len() - p,
{
    if p - a0 < a_len && 0 <= p < h.len() {
        assert(!is_port(decode(h[p].0)));
        let a_len2 = if decode(h[p].0) is Ctr {
            a_len + 2
        } else {
            a_len
        };
        lemma_scan_no_ports(h, kind, a0, p + 1, a_len2, depth, tlen + 1);
        assert(scan_from(h, kind, a0, p, a_len, depth, tlen).1 =~= scan_from(
            h,
            kind,
            a0,
            p + 1,
            a_len2,
            depth,
            tlen + 1,
        ).1);
    }
}

/// Without ports an annihilation walk only meets erasers and constructors,
/// and changes nothing.
proof fn lemma_anni_no_ports(
    h: Seq<PackedNode>,
    act: Seq<(Tree, Tree)>,
    pa: int,
    pb: int,
    n: nat,
    sa: nat,
    sb: nat,
)
    requires
        no_ports(h),
    ensures
        anni_walk(h, act, pa, pb, n, sa, sb) == (h, act),
    decreases 3 * (h.len() - pa) + 3 * (h.len() - pb) + n + sa + sb,
{
    if !(n == 0 || pa < 0 || pb < 0 || pa >= h.len() || pb >= h.len()) {
        let x = if sa > 0 {
            Node::Era
        } else {
            decode(h[pa].0)
        };
        let y = if sb > 0 {
            Node::Era
        } else {
            decode(h[pb].0)
        };
        assert(!is_port(decode(h[pa].0)));
        assert(!is_port(decode(h[pb].0)));
        if x is Ctr && y is Ctr {
            lemma_anni_no_ports(
                h,
                act,
                adv_pos(pa, sa),
                adv_pos(pb, sb),
                n + 1,
                adv_stack(sa),
                adv_stack(sb),
            );
        } else if x is Era && y is Ctr {
            lemma_anni_no_ports(h, act, pa, adv_pos(pb, sb), n + 1, sa + 1, adv_stack(sb));
        } else if x is Ctr && y is Era {
            lemma_anni_no_ports(h, act, adv_pos(pa, sa), pb, n + 1, adv_stack(sa), sb + 1);
        } else {
            assert(x == Node::Era && y == Node::Era);
            lemma_anni_no_ports(
                h,
                act,
                adv_pos(pa, sa),
                adv_pos(pb, sb),
                (n - 1) as nat,
                adv_stack(sa),
                adv_stack(sb),
            );
        }
    }
}

/// In a net without ports, commuting two trees reaches the same net as
/// annihilating them: both leave the heap and the active pairs as they were.
pub proof fn lemma_commute_matches_annihilate(
    h: Seq<PackedNode>,
    act: Seq<(Tree, Tree)>,
    a: Tree,
    b: Tree,
)
    requires
        no_ports(h),
        a.0 < h.len(),
        b.0 < h.len(),
    ensures
        commute_result(h, act, a, b) == anni_walk(h, act, a.0 as int, b.0 as int, 1, 0, 0),
        commute_result(h, act, a, b) == (h, act),
{
    let ka = crate::tree::kind_of(decode(h[a.0 as int].0));
    let kb = crate::tree::kind_of(decode(h[b.0 as int].0));
    lemma_scan_no_ports(h, ka, a.0 as int, a.0 as int, 1, h.len(), 0);
    lemma_scan_no_ports(h, kb, b.0 as int, b.0 as int, 1, h.len(), 0);
    lemma_anni_no_ports(h, act, a.0 as int, b.0 as int, 1, 0, 0);
}

} // verus!
