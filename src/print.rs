//! Writing a net as program text.

use vstd::prelude::*;

use crate::net::Net;
use crate::node::{decode, Node, PackedNode};
use crate::tree::Tree;

verus! {

/// The decimal digits of `n`.
pub open spec fn digits_of(n: nat) -> Seq<u8>
    decreases n,
{
    if n < 10 {
        seq![(48 + n) as u8]
    } else {
        digits_of(n / 10).push((48 + n % 10) as u8)
    }
}

/// The name of the `k`-th wire: a letter, and past the alphabet's end a
/// number after it.
pub open spec fn name_text(k: nat) -> Seq<u8> {
    if k >= 26 {
        seq![(97 + k % 26) as u8] + digits_of(k / 26)
    } else {
        seq![(97 + k % 26) as u8]
    }
}

/// The first index from `k` on where `ws` holds `w`; -1 if there is none.
pub open spec fn find_wire(ws: Seq<(usize, usize)>, w: (usize, usize), k: int) -> int
    decreases ws.len() - k,
{
    if k < 0 || k >= ws.len() {
        -1
    } else if ws[k] == w {
        k
    } else {
        find_wire(ws, w, k + 1)
    }
}

/// The wires named after naming `w`, and `w`'s index among them.
pub open spec fn named(ws: Seq<(usize, usize)>, w: (usize, usize)) -> (Seq<(usize, usize)>, nat) {
    if find_wire(ws, w, 0) >= 0 {
        (ws, find_wire(ws, w, 0) as nat)
    } else {
        (ws.push(w), ws.len())
    }
}

/// The bytes that open a constructor of the given kind: `(`, `[`, or `{`
/// with the kind and a space.
pub open spec fn open_text(kind: usize) -> Seq<u8> {
    if kind == 0 {
        seq![40u8]
    } else if kind == 1 {
        seq![91u8]
    } else {
        seq![123u8] + digits_of(kind as nat) + seq![32u8]
    }
}

/// The byte that closes a constructor of the given kind.
pub open spec fn close_byte(kind: usize) -> u8 {
    if kind == 0 {
        41
    } else if kind == 1 {
        93
    } else {
        125
    }
}

/// The text of the tree at `pos`, the wires named once it is written, and
/// the address after the tree. An eraser is `*`; a wire end is the name of
/// its wire, numbered by first appearance; a principal port is the tree it
/// names, followed at most `depth` times; a constructor is its two subtrees
/// in the brackets of its kind. Addresses outside the heap read as `*`.
pub open spec fn print_spec(h: Seq<PackedNode>, ws: Seq<(usize, usize)>, pos: int, depth: nat) -> (
    Seq<u8>,
    Seq<(usize, usize)>,
    int,
)
    decreases depth, h.len() - pos,
{
    if pos < 0 || pos >= h.len() {
        (seq![42u8], ws, pos)
    } else {
        match decode(h[pos].0) {
            Node::Era => (seq![42u8], ws, pos + 1),
            Node::Principal(t) => if depth == 0 {
                (seq![42u8], ws, pos + 1)
            } else {
                let r = print_spec(h, ws, t.0 as int, (depth - 1) as nat);
                (r.0, r.1, pos + 1)
            },
            Node::Auxiliary(r) => {
                let w = if r.0 < pos {
                    (r.0, pos as usize)
                } else {
                    (pos as usize, r.0)
                };
                let (ws2, k) = named(ws, w);
                (name_text(k), ws2, pos + 1)
            },
            Node::Ctr(kind) => {
                let left = print_spec(h, ws, pos + 1, depth);
                let right = if pos < left.2 <= h.len() {
                    print_spec(h, left.1, left.2, depth)
                } else {
                    (seq![], left.1, left.2)
                };
                (
                    open_text(kind) + left.0 + seq![32u8] + right.0 + seq![close_byte(kind)],
                    right.1,
                    if pos < right.2 {
                        right.2
                    } else {
                        pos + 1
                    },
                )
            },
        }
    }
}

/// Writes one byte.
fn put_byte(out: &mut Vec<u8>, c: u8)
    ensures
        final(out)@ == old(out)@.push(c),
{
    out.push(c);
}

/// Writes `n` in decimal.
fn put_number(out: &mut Vec<u8>, n: usize)
    ensures
        final(out)@ == old(out)@ + digits_of(n as nat),
    decreases n,
{
    if n >= 10 {
        put_number(out, n / 10);
    }
    put_byte(out, (48 + n % 10) as u8);
    assert(out@ =~= old(out)@ + digits_of(n as nat));
}

/// Wires named so far, by the addresses of their two ends, lower first; a
/// wire's name is its place in this list.
pub struct Names {
    pub wires: Vec<(usize, usize)>,
}

/// Writes the name of the `k`-th wire.
fn put_name(out: &mut Vec<u8>, k: usize)
    ensures
        final(out)@ == old(out)@ + name_text(k as nat),
{
    put_byte(out, (97 + k % 26) as u8);
    if k >= 26 {
        put_number(out, k / 26);
    }
    assert(out@ =~= old(out)@ + name_text(k as nat));
}

/// The index of the wire between `lo` and `hi`, added if it is new.
fn name_of(names: &mut Names, lo: usize, hi: usize) -> (r: usize)
    ensures
        (final(names).wires@, r as nat) == named(old(names).wires@, (lo, hi)),
{
    let mut k: usize = 0;
    while k < names.wires.len()
        invariant
            k <= names.wires@.len(),
            names.wires@ == old(names).wires@,
            find_wire(names.wires@, (lo, hi), k as int) == find_wire(names.wires@, (lo, hi), 0),
        decreases names.wires@.len() - k,
    {
        let (a, b) = names.wires[k];
        if a == lo && b == hi {
            return k;
        }
        k = k + 1;
    }
    names.wires.push((lo, hi));
    k
}

/// Writes the tree at `pos`; a principal port is followed into the tree it
/// names, at most `depth` times. Returns the address after the tree.
pub fn print_tree(
    out: &mut Vec<u8>,
    names: &mut Names,
    heap: &Vec<PackedNode>,
    pos: usize,
    depth: usize,
) -> (r: usize)
    ensures
        ({
            let s = print_spec(heap@, old(names).wires@, pos as int, depth as nat);
            &&& final(out)@ == old(out)@ + s.0
            &&& final(names).wires@ == s.1
            &&& r == s.2
        }),
        pos < heap@.len() ==> pos < r <= heap@.len(),
        pos >= heap@.len() ==> r == pos,
    decreases depth, heap@.len() - pos,
{
    if pos >= heap.len() {
        put_byte(out, 42);
        return pos;
    }
    match heap[pos].unpack() {
        Node::Era => {
            put_byte(out, 42);
            pos + 1
        },
        Node::Principal(t) => {
            if depth == 0 {
                put_byte(out, 42);
            } else {
                print_tree(out, names, heap, t.0, depth - 1);
            }
            pos + 1
        },
        Node::Auxiliary(r) => {
            let other = r.0;
            let (lo, hi) = if other < pos {
                (other, pos)
            } else {
                (pos, other)
            };
            let k = name_of(names, lo, hi);
            put_name(out, k);
            pos + 1
        },
        Node::Ctr(kind) => {
            let ghost o0 = out@;
            if kind == 0 {
                put_byte(out, 40);
            } else if kind == 1 {
                put_byte(out, 91);
            } else {
                put_byte(out, 123);
                put_number(out, kind);
                put_byte(out, 32);
            }
            assert(out@ =~= o0 + open_text(kind));
            let ghost o1 = out@;
            let left = print_tree(out, names, heap, pos + 1, depth);
            let ghost o2 = out@;
            put_byte(out, 32);
            let ghost o3 = out@;
            let right = if pos < left && left <= heap.len() {
                print_tree(out, names, heap, left, depth)
            } else {
                left
            };
            let ghost o4 = out@;
            put_byte(out, close_byte_of(kind));
            proof {
                let sl = print_spec(heap@, old(names).wires@, pos + 1, depth as nat);
                let sr = if pos < sl.2 <= heap@.len() {
                    print_spec(heap@, sl.1, sl.2, depth as nat)
                } else {
                    (seq![], sl.1, sl.2)
                };
                assert(o2 == o1 + sl.0);
                assert(o4 == o3 + sr.0);
                assert(out@ =~= o0 + (open_text(kind) + sl.0 + seq![32u8] + sr.0 + seq![
                    close_byte(kind),
                ]));
            }
            if pos < right {
                right
            } else {
                pos + 1
            }
        },
    }
}

/// The byte that closes a constructor of the given kind.
fn close_byte_of(kind: usize) -> (r: u8)
    ensures
        r == close_byte(kind),
{
    if kind == 0 {
        41
    } else if kind == 1 {
        93
    } else {
        125
    }
}

/// The lines for the free ports from the `i`-th on, and the wires named
/// once they are written.
pub open spec fn free_text(
    h: Seq<PackedNode>,
    free: Seq<Tree>,
    i: int,
    ws: Seq<(usize, usize)>,
) -> (Seq<u8>, Seq<(usize, usize)>)
    decreases free.len() - i,
{
    if i < 0 || i >= free.len() {
        (seq![], ws)
    } else {
        let t = print_spec(h, ws, free[i].0 as int, h.len());
        let rest = free_text(h, free, i + 1, t.1);
        (t.0 + seq![10u8] + rest.0, rest.1)
    }
}

/// The lines `tree = tree` for the active pairs from the `j`-th from the top
/// of the stack down, so the top pair, the next to be rewritten, comes first.
pub open spec fn active_text(
    h: Seq<PackedNode>,
    act: Seq<(Tree, Tree)>,
    j: int,
    ws: Seq<(usize, usize)>,
) -> Seq<u8>
    decreases act.len() - j,
{
    if j < 0 || j >= act.len() {
        seq![]
    } else {
        let (a, b) = act[act.len() - 1 - j];
        let ta = print_spec(h, ws, a.0 as int, h.len());
        let tb = print_spec(h, ta.1, b.0 as int, h.len());
        ta.0 + seq![32u8, 61u8, 32u8] + tb.0 + seq![10u8] + active_text(h, act, j + 1, tb.1)
    }
}

/// A net's text: a line for each free port, then one for each active pair.
pub open spec fn net_text(h: Seq<PackedNode>, free: Seq<Tree>, act: Seq<(Tree, Tree)>) -> Seq<u8> {
    let f = free_text(h, free, 0, seq![]);
    f.0 + active_text(h, act, 0, f.1)
}

/// A net's free ports and its active pairs, ready to be written as text.
pub struct PrintNet<'a>(pub &'a Vec<Tree>, pub &'a Net);

impl<'a> PrintNet<'a> {
    /// The net as text: each free port's tree on a line, then each active
    /// pair, from the top of the stack down, as `tree = tree`.
    pub fn render(&self) -> (r: Vec<u8>)
        ensures
            r@ == net_text(self.1.heap@, self.0@, self.1.active@),
    {
        let ghost h = self.1.heap@;
        let depth = self.1.heap.len();
        let mut out: Vec<u8> = Vec::new();
        let mut names = Names { wires: Vec::new() };
        let ghost f = free_text(h, self.0@, 0, seq![]);
        let mut i: usize = 0;
        while i < self.0.len()
            invariant
                i <= self.0@.len(),
                depth == h.len(),
                h == self.1.heap@,
                f == free_text(h, self.0@, 0, seq![]),
                ({
                    let rest = free_text(h, self.0@, i as int, names.wires@);
                    &&& out@ + rest.0 == f.0
                    &&& rest.1 == f.1
                }),
            decreases self.0@.len() - i,
        {
            let ghost o = out@;
            let ghost ws = names.wires@;
            print_tree(&mut out, &mut names, &self.1.heap, self.0[i].0, depth);
            put_byte(&mut out, 10);
            proof {
                let t = print_spec(h, ws, self.0@[i as int].0 as int, h.len());
                assert(out@ =~= o + t.0 + seq![10u8]);
                let rest = free_text(h, self.0@, i + 1, names.wires@);
                assert(out@ + rest.0 =~= o + free_text(h, self.0@, i as int, ws).0);
            }
            i = i + 1;
        }
        assert(out@ =~= f.0);
        let n = self.1.active.len();
        let mut j: usize = 0;
        let ghost goal = out@ + active_text(h, self.1.active@, 0, names.wires@);
        while j < n
            invariant
                n == self.1.active@.len(),
                j <= n,
                depth == h.len(),
                h == self.1.heap@,
                out@ + active_text(h, self.1.active@, j as int, names.wires@) == goal,
            decreases n - j,
        {
            let ghost o = out@;
            let ghost ws = names.wires@;
            let (a, b) = self.1.active[n - 1 - j];
            print_tree(&mut out, &mut names, &self.1.heap, a.0, depth);
            put_byte(&mut out, 32);
            put_byte(&mut out, 61);
            put_byte(&mut out, 32);
            print_tree(&mut out, &mut names, &self.1.heap, b.0, depth);
            put_byte(&mut out, 10);
            proof {
                let ta = print_spec(h, ws, a.0 as int, h.len());
                let tb = print_spec(h, ta.1, b.0 as int, h.len());
                assert(out@ =~= o + (ta.0 + seq![32u8, 61u8, 32u8] + tb.0 + seq![10u8]));
                assert(out@ + active_text(h, self.1.active@, j + 1, names.wires@) =~= o + active_text(
                    h,
                    self.1.active@,
                    j as int,
                    ws,
                ));
            }
            j = j + 1;
        }
        assert(out@ =~= goal);
        out
    }
}

} // verus!
