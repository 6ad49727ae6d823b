//! Reading a program into a net.

use vstd::prelude::*;
use vstd::string::StringSliceAdditionalSpecFns;

use crate::lex::{lex, lex_spec};
use crate::net::{
    addr_ok, ctrs_kept, extends, leaves_kept, lemma_ctrs_kept_trans, lemma_leaves_kept_trans,
    link_heap, put, same_kind, scratch_ok, Net,
};
use crate::node::{decode, encode, Node, PackedNode, MAX_KIND};
use crate::tree::Tree;

verus! {

/// Why a program could not be read.
#[derive(Clone, Copy, Debug, PartialEq, Eq, Structural)]
pub enum Error {
    LexError,
    UnexpectedEOF,
    ExpectedNumber,
    ExpectedTree,
    InvalidClose,
    ExpectedEq,
}

impl Default for Error {
    fn default() -> (r: Self)
        ensures
            r == Error::LexError,
    {
        Error::LexError
    }
}

/// A token of program text.
#[derive(Clone, Copy, Debug, PartialEq, Eq, Structural)]
pub enum Token {
    Eq,
    Era,
    OpenParen,
    CloseParen,
    OpenBracket,
    CloseBracket,
    OpenBrace,
    CloseBrace,
    Number(usize),
    /// An identifier, by the start and end of its bytes in the source.
    Ident(usize, usize),
}

/// Where the tree that starts at token `i` ends, if it reads.
pub open spec fn tree_end(toks: Seq<Result<Token, Error>>, i: int) -> Option<int> {
    match tree_result(toks, i) {
        Ok(j) => Some(j),
        Err(_) => None,
    }
}

/// Where the children of the constructor whose opening token is at `i`
/// start and which token closes it, or the error its opening gives.
pub open spec fn open_result(toks: Seq<Result<Token, Error>>, i: int) -> Result<(int, Token), Error> {
    match toks[i] {
        Err(e) => Err(e),
        Ok(Token::OpenParen) => Ok((i + 1, Token::CloseParen)),
        Ok(Token::OpenBracket) => Ok((i + 1, Token::CloseBracket)),
        Ok(Token::OpenBrace) => if i + 1 >= toks.len() {
            Err(Error::UnexpectedEOF)
        } else {
            match toks[i + 1] {
                Err(e) => Err(e),
                Ok(Token::Number(_)) => Ok((i + 2, Token::CloseBrace)),
                _ => Err(Error::ExpectedNumber),
            }
        },
        _ => Err(Error::ExpectedTree),
    }
}

/// Reading the tree at token `i`: where it ends, or the first error met.
/// Running out of tokens is `UnexpectedEOF`; a lexical error is returned as
/// it is; a brace not followed by a number is `ExpectedNumber`; a token that
/// starts no tree is `ExpectedTree`; a wrong closing token is `InvalidClose`.
pub open spec fn tree_result(toks: Seq<Result<Token, Error>>, i: int) -> Result<int, Error>
    decreases toks.len() - i,
{
    if i < 0 || i >= toks.len() {
        Err(Error::UnexpectedEOF)
    } else if toks[i] is Ok && (toks[i]->Ok_0 is Era || toks[i]->Ok_0 is Ident) {
        Ok(i + 1)
    } else {
        match open_result(toks, i) {
            Err(e) => Err(e),
            Ok((s, close)) => if s > toks.len() {
                Err(Error::UnexpectedEOF)
            } else {
                match tree_result(toks, s) {
                    Err(e) => Err(e),
                    Ok(j) => if j <= i || j > toks.len() {
                        Err(Error::UnexpectedEOF)
                    } else {
                        match tree_result(toks, j) {
                            Err(e) => Err(e),
                            Ok(k) => if k <= i || k >= toks.len() {
                                Err(Error::UnexpectedEOF)
                            } else if toks[k] == Ok::<Token, Error>(close) {
                                Ok(k + 1)
                            } else {
                                match toks[k] {
                                    Err(e) => Err(e),
                                    Ok(_) => Err(Error::InvalidClose),
                                }
                            },
                        }
                    },
                }
            },
        }
    }
}

/// Reading the free trees from token `i`: where they end (at the first `=`
/// or the end), or the first error met.
pub open spec fn frees_result(toks: Seq<Result<Token, Error>>, i: int) -> Result<int, Error>
    decreases toks.len() - i,
{
    if i < 0 || i >= toks.len() || is_eq_at(toks, i) {
        Ok(i)
    } else {
        match tree_result(toks, i) {
            Err(e) => Err(e),
            Ok(j) => if j <= i || j > toks.len() {
                Err(Error::UnexpectedEOF)
            } else {
                frees_result(toks, j)
            },
        }
    }
}

/// Reading equations from token `i` on: none when they all read, else the
/// first error; a missing `=` is `ExpectedEq`.
pub open spec fn equations_error(toks: Seq<Result<Token, Error>>, i: int) -> Option<Error>
    decreases toks.len() - i,
{
    if i < 0 || i >= toks.len() {
        None
    } else {
        match tree_result(toks, i) {
            Err(e) => Some(e),
            Ok(j) => if j <= i {
                Some(Error::UnexpectedEOF)
            } else if !is_eq_at(toks, j) {
                Some(Error::ExpectedEq)
            } else {
                match tree_result(toks, j + 1) {
                    Err(e) => Some(e),
                    Ok(k) => if k <= j || k > toks.len() {
                        Some(Error::UnexpectedEOF)
                    } else {
                        equations_error(toks, k)
                    },
                }
            },
        }
    }
}

/// The error reading a program gives, if any: that of the free trees, an
/// `=` with no free tree before it (`ExpectedTree`), the tree after the `=`,
/// or the equations.
pub open spec fn program_error(toks: Seq<Result<Token, Error>>) -> Option<Error> {
    match frees_result(toks, 0) {
        Err(e) => Some(e),
        Ok(i) => if i >= toks.len() {
            None
        } else if i == 0 {
            Some(Error::ExpectedTree)
        } else {
            match tree_result(toks, i + 1) {
                Err(e) => Some(e),
                Ok(j) => equations_error(toks, j),
            }
        },
    }
}

/// The token at `i` is `=`.
pub open spec fn is_eq_at(toks: Seq<Result<Token, Error>>, i: int) -> bool {
    0 <= i < toks.len() && toks[i] == Ok::<Token, Error>(Token::Eq)
}

/// Where the free trees that start at `i` end: at the first `=` or at the
/// end of the tokens.
pub open spec fn frees_end(toks: Seq<Result<Token, Error>>, i: int) -> Option<int>
    decreases toks.len() - i,
{
    if i < 0 || i >= toks.len() || is_eq_at(toks, i) {
        Some(i)
    } else {
        match tree_end(toks, i) {
            None => None,
            Some(j) => if j <= i || j > toks.len() {
                None
            } else {
                frees_end(toks, j)
            },
        }
    }
}

/// How many free trees start at `i`, before the first `=` or the end.
pub open spec fn frees_count(toks: Seq<Result<Token, Error>>, i: int) -> nat
    decreases toks.len() - i,
{
    if i < 0 || i >= toks.len() || is_eq_at(toks, i) {
        0
    } else {
        match tree_end(toks, i) {
            None => 0,
            Some(j) => if j <= i || j > toks.len() {
                0
            } else {
                1 + frees_count(toks, j)
            },
        }
    }
}

/// Where the last free tree before token `i`'s run of free trees starts:
/// `last` if no free tree starts at or after `i`.
pub open spec fn last_free(toks: Seq<Result<Token, Error>>, i: int, last: int) -> int
    decreases toks.len() - i,
{
    if i < 0 || i >= toks.len() || is_eq_at(toks, i) {
        last
    } else {
        match tree_result(toks, i) {
            Err(_) => last,
            Ok(j) => if j <= i || j > toks.len() {
                last
            } else {
                last_free(toks, j, i)
            },
        }
    }
}

/// The token positions of the two sides of each equation from token `i`
/// on, in source order.
pub open spec fn eq_joins(toks: Seq<Result<Token, Error>>, i: int) -> Seq<(int, int)>
    decreases toks.len() - i,
{
    if i < 0 || i >= toks.len() {
        seq![]
    } else {
        match tree_result(toks, i) {
            Err(_) => seq![],
            Ok(j) => if j <= i || !is_eq_at(toks, j) {
                seq![]
            } else {
                match tree_result(toks, j + 1) {
                    Err(_) => seq![],
                    Ok(k) => if k <= j || k > toks.len() {
                        seq![]
                    } else {
                        seq![(i, j + 1)] + eq_joins(toks, k)
                    },
                }
            },
        }
    }
}

/// The token positions of the two sides of every join a program makes, in
/// source order: the last free tree with the tree after the first `=`,
/// then each equation.
pub open spec fn joins(toks: Seq<Result<Token, Error>>) -> Seq<(int, int)> {
    match frees_result(toks, 0) {
        Err(_) => seq![],
        Ok(i) => if i >= toks.len() {
            seq![]
        } else {
            match tree_result(toks, i + 1) {
                Err(_) => seq![],
                Ok(j) => seq![(last_free(toks, 0, -1), i + 1)] + eq_joins(toks, j),
            }
        },
    }
}

/// The tree at token `i` is a bracketed constructor.
pub open spec fn bracketed(toks: Seq<Result<Token, Error>>, i: int) -> bool {
    0 <= i < toks.len() && toks[i] is Ok && !(toks[i]->Ok_0 is Era || toks[i]->Ok_0 is Ident)
}

/// Both sides of every join are bracketed constructors.
pub open spec fn all_bracketed(toks: Seq<Result<Token, Error>>, js: Seq<(int, int)>) -> bool {
    forall|m: int| 0 <= m < js.len() ==> bracketed(toks, (#[trigger] js[m]).0) && bracketed(toks, js[m].1)
}

/// The word `w` is a principal port to a tree in `h` whose root is a
/// constructor of kind `k`.
pub open spec fn word_ok(h: Seq<PackedNode>, w: PackedNode, k: usize) -> bool {
    &&& decode(w.0) is Principal
    &&& decode(w.0)->Principal_0.0 < h.len()
    &&& ctr_of(decode(h[decode(w.0)->Principal_0.0 as int].0)) == Some(k)
}

/// The active pair `p` faces the trees of the join `j`: its first tree is
/// the join's right side, its second the left side, each a constructor of
/// the kind its opening token gives.
pub open spec fn pair_ok(h: Seq<PackedNode>, p: (Tree, Tree), j: (int, int), toks: Seq<
    Result<Token, Error>,
>) -> bool {
    &&& p.0.0 < h.len() && p.1.0 < h.len()
    &&& ctr_of(decode(h[p.0.0 as int].0)) == Some(kind_spec(toks, j.1))
    &&& ctr_of(decode(h[p.1.0 as int].0)) == Some(kind_spec(toks, j.0))
}

/// Constructor words that stay keep a principal port's target right.
proof fn lemma_word_ok_kept(h1: Seq<PackedNode>, h2: Seq<PackedNode>, w: PackedNode, k: usize)
    requires
        word_ok(h1, w, k),
        ctrs_kept(h1, h2),
    ensures
        word_ok(h2, w, k),
{
    let a = decode(w.0)->Principal_0.0 as int;
    assert(decode(h1[a].0) is Ctr);
}

/// Constructor words that stay keep an active pair's trees right.
proof fn lemma_pair_ok_kept(
    h1: Seq<PackedNode>,
    h2: Seq<PackedNode>,
    p: (Tree, Tree),
    j: (int, int),
    toks: Seq<Result<Token, Error>>,
)
    requires
        pair_ok(h1, p, j, toks),
        ctrs_kept(h1, h2),
    ensures
        pair_ok(h2, p, j, toks),
{
    assert(decode(h1[p.0.0 as int].0) is Ctr);
    assert(decode(h1[p.1.0 as int].0) is Ctr);
}

/// Each top-level word whose tree is bracketed is a principal port to a
/// constructor of that tree's kind.
pub open spec fn tops_ok(
    h: Seq<PackedNode>,
    trees: Seq<PackedNode>,
    pos_of: Seq<int>,
    toks: Seq<Result<Token, Error>>,
) -> bool {
    &&& pos_of.len() == trees.len()
    &&& forall|k: int|
        0 <= k < trees.len() && bracketed(toks, #[trigger] pos_of[k]) ==> word_ok(
            h,
            trees[k],
            kind_spec(toks, pos_of[k]),
        )
}

/// When both sides of every join so far are bracketed, the active stack
/// holds one pair per join, in the order the joins were made.
pub open spec fn pushes_ok(
    h: Seq<PackedNode>,
    act: Seq<(Tree, Tree)>,
    js: Seq<(int, int)>,
    toks: Seq<Result<Token, Error>>,
) -> bool {
    all_bracketed(toks, js) ==> {
        &&& act.len() == js.len()
        &&& forall|m: int| 0 <= m < js.len() ==> pair_ok(h, #[trigger] act[m], js[m], toks)
    }
}

proof fn lemma_tops_kept(
    h1: Seq<PackedNode>,
    h2: Seq<PackedNode>,
    trees: Seq<PackedNode>,
    pos_of: Seq<int>,
    toks: Seq<Result<Token, Error>>,
)
    requires
        tops_ok(h1, trees, pos_of, toks),
        ctrs_kept(h1, h2),
    ensures
        tops_ok(h2, trees, pos_of, toks),
{
    assert forall|k: int|
        0 <= k < trees.len() && bracketed(toks, #[trigger] pos_of[k]) implies word_ok(
        h2,
        trees[k],
        kind_spec(toks, pos_of[k]),
    ) by {
        lemma_word_ok_kept(h1, h2, trees[k], kind_spec(toks, pos_of[k]));
    }
}

proof fn lemma_pushes_kept(
    h1: Seq<PackedNode>,
    h2: Seq<PackedNode>,
    act: Seq<(Tree, Tree)>,
    js: Seq<(int, int)>,
    toks: Seq<Result<Token, Error>>,
)
    requires
        pushes_ok(h1, act, js, toks),
        ctrs_kept(h1, h2),
    ensures
        pushes_ok(h2, act, js, toks),
{
    if all_bracketed(toks, js) {
        assert forall|m: int| 0 <= m < js.len() implies pair_ok(h2, #[trigger] act[m], js[m], toks) by {
            lemma_pair_ok_kept(h1, h2, act[m], js[m], toks);
        }
    }
}

/// The word a bracketed top-level tree appends is a principal port to a
/// constructor of its kind.
proof fn lemma_top_bracket(
    h: Seq<PackedNode>,
    len0: nat,
    w: PackedNode,
    toks: Seq<Result<Token, Error>>,
    i: int,
)
    requires
        tree_result(toks, i) is Ok,
        bracketed(toks, i),
        own_buffer(h, len0, decode(w.0), tree_layout(toks, i, Some(kind_spec(toks, i)))),
    ensures
        word_ok(h, w, kind_spec(toks, i)),
{
    let k = kind_spec(toks, i);
    let lay = tree_layout(toks, i, Some(k));
    let s = open_result(toks, i)->Ok_0.0;
    assert(open_result(toks, i) is Ok);
    assert(tree_result(toks, s) is Ok);
    lemma_tree_end(toks, s);
    let j = tree_result(toks, s)->Ok_0;
    assert(lay =~= seq![Node::Ctr(k)] + tree_layout(toks, s, Some(k)) + tree_layout(toks, j, Some(k)));
    assert(lay[0] == Node::Ctr(k));
    let t = decode(w.0)->Principal_0.0 as int;
    let sub = h.subrange(t, t + lay.len());
    assert(ctrs(sub)[0] == lay.map_values(|n: Node| ctr_of(n))[0]);
    assert(sub[0] == h[t]);
}

/// A top-level tree's word keeps the top-level words right.
proof fn lemma_tops_push(
    h: Seq<PackedNode>,
    len0: nat,
    t0: Seq<PackedNode>,
    t1: Seq<PackedNode>,
    pos_of: Seq<int>,
    toks: Seq<Result<Token, Error>>,
    i: int,
)
    requires
        tops_ok(h, t0, pos_of, toks),
        tree_result(toks, i) is Ok,
        t1.len() == t0.len() + 1,
        grows(t1, t0),
        bracketed(toks, i) ==> own_buffer(
            h,
            len0,
            decode(t1[t0.len() as int].0),
            tree_layout(toks, i, Some(kind_spec(toks, i))),
        ),
    ensures
        tops_ok(h, t1, pos_of.push(i), toks),
{
    if bracketed(toks, i) {
        lemma_top_bracket(h, len0, t1[t0.len() as int], toks, i);
    }
    assert forall|k: int|
        0 <= k < t1.len() && bracketed(toks, #[trigger] pos_of.push(i)[k]) implies word_ok(
        h,
        t1[k],
        kind_spec(toks, pos_of.push(i)[k]),
    ) by {
        if k < t0.len() {
            assert(t1[k] == t1.subrange(0, t0.len() as int)[k]);
            assert(pos_of.push(i)[k] == pos_of[k]);
        }
    }
}

/// Joining the two top-level words keeps the bookkeeping right.
proof fn lemma_join_step(
    h: Seq<PackedNode>,
    h2: Seq<PackedNode>,
    act: Seq<(Tree, Tree)>,
    act2: Seq<(Tree, Tree)>,
    trees: Seq<PackedNode>,
    pos_of: Seq<int>,
    js: Seq<(int, int)>,
    toks: Seq<Result<Token, Error>>,
)
    requires
        tops_ok(h, trees, pos_of, toks),
        pushes_ok(h, act, js, toks),
        trees.len() >= 2,
        ctrs_kept(h, h2),
        ({
            let x = decode(trees[trees.len() - 2].0);
            let y = decode(trees[trees.len() - 1].0);
            x is Principal && y is Principal ==> act2 == act.push((y->Principal_0, x->Principal_0))
        }),
    ensures
        tops_ok(
            h2,
            trees.subrange(0, trees.len() - 2),
            pos_of.subrange(0, pos_of.len() - 2),
            toks,
        ),
        pushes_ok(h2, act2, js.push((pos_of[pos_of.len() - 2], pos_of[pos_of.len() - 1])), toks),
{
    let n = trees.len() as int;
    let js2 = js.push((pos_of[n - 2], pos_of[n - 1]));
    lemma_tops_kept(h, h2, trees, pos_of, toks);
    lemma_pushes_kept(h, h2, act, js, toks);
    assert forall|k: int|
        0 <= k < n - 2 && bracketed(toks, #[trigger] pos_of.subrange(0, n - 2)[k]) implies word_ok(
        h2,
        trees.subrange(0, n - 2)[k],
        kind_spec(toks, pos_of.subrange(0, n - 2)[k]),
    ) by {
        assert(pos_of.subrange(0, n - 2)[k] == pos_of[k]);
        assert(trees.subrange(0, n - 2)[k] == trees[k]);
    }
    if all_bracketed(toks, js2) {
        assert(js2[js.len() as int] == (pos_of[n - 2], pos_of[n - 1]));
        assert(all_bracketed(toks, js)) by {
            assert forall|m: int| 0 <= m < js.len() implies bracketed(toks, (#[trigger] js[m]).0)
                && bracketed(toks, js[m].1) by {
                assert(js2[m] == js[m]);
            }
        }
        assert(bracketed(toks, pos_of[n - 2]) && bracketed(toks, pos_of[n - 1]));
        assert(word_ok(h2, trees[n - 2], kind_spec(toks, pos_of[n - 2])));
        assert(word_ok(h2, trees[n - 1], kind_spec(toks, pos_of[n - 1])));
        assert forall|m: int| 0 <= m < js2.len() implies pair_ok(h2, #[trigger] act2[m], js2[m], toks) by {
            if m < js.len() {
                assert(act2[m] == act[m]);
                assert(js2[m] == js[m]);
            }
        }
    }
}

/// How many free ports a program has: its free trees, less the last one
/// when an `=` joins it to the tree after it.
pub open spec fn free_ports(toks: Seq<Result<Token, Error>>) -> int {
    if frees_end(toks, 0) is Some && frees_end(toks, 0)->Some_0 < toks.len() {
        frees_count(toks, 0) - 1
    } else {
        frees_count(toks, 0) as int
    }
}

/// The tokens from `i` on are equations `tree = tree`.
pub open spec fn equations_ok(toks: Seq<Result<Token, Error>>, i: int) -> bool
    decreases toks.len() - i,
{
    if i < 0 || i >= toks.len() {
        true
    } else {
        match tree_end(toks, i) {
            None => false,
            Some(j) => if j <= i || !is_eq_at(toks, j) {
                false
            } else {
                match tree_end(toks, j + 1) {
                    None => false,
                    Some(k) => if k <= j || k > toks.len() {
                        false
                    } else {
                        equations_ok(toks, k)
                    },
                }
            },
        }
    }
}

/// The tokens form a program: free trees, then optionally `=` and a tree
/// that is joined to the last free tree, then equations.
pub open spec fn program_ok(toks: Seq<Result<Token, Error>>) -> bool {
    match frees_end(toks, 0) {
        None => false,
        Some(i) => if i >= toks.len() {
            true
        } else {
            i > 0 && match tree_end(toks, i + 1) {
                None => false,
                Some(j) => equations_ok(toks, j),
            }
        },
    }
}

/// A tree that ends where it does ends after its first token, within the tokens.
proof fn lemma_tree_end(toks: Seq<Result<Token, Error>>, i: int)
    ensures
        tree_end(toks, i) is Some ==> i < tree_end(toks, i)->Some_0 <= toks.len(),
{
}

/// The addresses that open names are waiting at lie in a heap of `len` words.
pub open spec fn scope_ok(scope: Seq<(usize, usize, usize)>, len: nat) -> bool {
    forall|k: int| 0 <= k < scope.len() ==> 0 < (#[trigger] scope[k]).2 < len
}

/// The byte ranges from `a0` to `a1` and from `b0` to `b1` both lie in
/// `src` and hold the same name.
pub open spec fn names_equal(src: Seq<u8>, a0: usize, a1: usize, b0: usize, b1: usize) -> bool {
    a0 <= a1 <= src.len() && b0 <= b1 <= src.len() && src.subrange(a0 as int, a1 as int)
        == src.subrange(b0 as int, b1 as int)
}

/// No name is open twice in the scope.
pub open spec fn names_unique(src: Seq<u8>, scope: Seq<(usize, usize, usize)>) -> bool {
    forall|i: int, j: int|
        0 <= i < j < scope.len() ==> !names_equal(
            src,
            #[trigger] scope[i].0,
            scope[i].1,
            #[trigger] scope[j].0,
            scope[j].1,
        )
}

/// The bytes of `src` from `a0` to `a1` equal those from `b0` to `b1`.
fn same_name(src: &[u8], a0: usize, a1: usize, b0: usize, b1: usize) -> (r: bool)
    ensures
        r == names_equal(src@, a0, a1, b0, b1),
{
    if !(a0 <= a1 && a1 <= src.len() && b0 <= b1 && b1 <= src.len()) {
        return false;
    }
    if a1 - a0 != b1 - b0 {
        assert(src@.subrange(a0 as int, a1 as int).len() != src@.subrange(b0 as int, b1 as int).len());
        return false;
    }
    let mut k: usize = 0;
    assert(src@.subrange(a0 as int, a0 as int) =~= src@.subrange(b0 as int, b0 as int));
    while k < a1 - a0
        invariant
            a0 <= a1 <= src@.len(),
            b0 <= b1 <= src@.len(),
            a1 - a0 == b1 - b0,
            k <= a1 - a0,
            src@.subrange(a0 as int, a0 + k) == src@.subrange(b0 as int, b0 + k),
        decreases a1 - a0 - k,
    {
        if src[a0 + k] != src[b0 + k] {
            assert(src@.subrange(a0 as int, a1 as int)[k as int] != src@.subrange(
                b0 as int,
                b1 as int,
            )[k as int]);
            return false;
        }
        assert(src@.subrange(a0 as int, a0 + k + 1) =~= src@.subrange(a0 as int, a0 + k).push(
            src@[a0 + k],
        ));
        assert(src@.subrange(b0 as int, b0 + k + 1) =~= src@.subrange(b0 as int, b0 + k).push(
            src@[b0 + k],
        ));
        k = k + 1;
    }
    true
}

/// The kind written in a constructor's opening token: 0 for `(`, 1 for
/// `[`, the number after `{`; kinds past the largest packable one wrap
/// around.
pub open spec fn kind_spec(toks: Seq<Result<Token, Error>>, i: int) -> usize {
    match toks[i] {
        Ok(Token::OpenBrace) => if i + 1 < toks.len() {
            match toks[i + 1] {
                Ok(Token::Number(n)) => (n as int % (MAX_KIND as int + 1)) as usize,
                _ => 0,
            }
        } else {
            0
        },
        Ok(Token::OpenBracket) => 1,
        _ => 0,
    }
}

/// A node with its addresses forgotten: what a word is, not where it points.
pub open spec fn shape(n: Node) -> Node {
    match n {
        Node::Principal(_) => Node::Principal(Tree(0)),
        Node::Auxiliary(_) => Node::Auxiliary(Tree(0)),
        _ => n,
    }
}

/// The shapes of a run of words.
pub open spec fn shapes(t: Seq<PackedNode>) -> Seq<Node> {
    t.map_values(|w: PackedNode| shape(decode(w.0)))
}

/// Which words of a run are constructors, and of which kind.
pub open spec fn ctrs(t: Seq<PackedNode>) -> Seq<Option<usize>> {
    t.map_values(|w: PackedNode| ctr_of(decode(w.0)))
}

/// The parser's state before and after reading a tree: the net is well
/// formed, every address held by the list being built or the scope lies in
/// the heap, no name is open twice, and every wire end names a leaf.
pub open spec fn parse_ready(
    net: Net,
    into: Seq<PackedNode>,
    scope: Seq<(usize, usize, usize)>,
    src: Seq<u8>,
) -> bool {
    &&& net.wf()
    &&& scratch_ok(into, net.heap@.len())
    &&& scope_ok(scope, net.heap@.len())
    &&& names_unique(src, scope)
    &&& ends_at_leaves(net.heap@)
    &&& words_end_at_leaves(into, net.heap@)
    &&& slots_are_leaves(scope, net.heap@)
}

/// Reading left the active pairs and counters alone, only grew the heap,
/// and kept every leaf a leaf and every constructor word as it was.
pub open spec fn parse_kept(before: Net, after: Net) -> bool {
    &&& after.heap@.len() >= before.heap@.len()
    &&& after.active@ == before.active@
    &&& after.same_counters(before)
    &&& leaves_kept(before.heap@, after.heap@)
    &&& ctrs_kept(before.heap@, after.heap@)
}

/// `after` is `before` with words appended.
pub open spec fn grows(after: Seq<PackedNode>, before: Seq<PackedNode>) -> bool {
    after.len() >= before.len() && after.subrange(0, before.len() as int) == before
}

/// `w` is a principal port to a buffer made after the heap had `len0`
/// words, whose constructor words are laid out as `lay` says.
pub open spec fn own_buffer(h: Seq<PackedNode>, len0: nat, w: Node, lay: Seq<Node>) -> bool {
    &&& w is Principal
    &&& len0 <= w->Principal_0.0
    &&& w->Principal_0.0 + lay.len() <= h.len()
    &&& ctrs(h.subrange(w->Principal_0.0 as int, w->Principal_0.0 + lay.len())) == lay.map_values(
        |n: Node| ctr_of(n),
    )
}

/// Where the two children starting at token `s` end, or the first error.
pub open spec fn children_result(toks: Seq<Result<Token, Error>>, s: int) -> Result<int, Error> {
    match tree_result(toks, s) {
        Err(e) => Err(e),
        Ok(j) => tree_result(toks, j),
    }
}

/// The shapes of the words the two children starting at token `s` append.
pub open spec fn children_layout(toks: Seq<Result<Token, Error>>, s: int, ik: Option<usize>) -> Seq<
    Node,
> {
    match tree_result(toks, s) {
        Err(_) => seq![],
        Ok(j) => tree_layout(toks, s, ik) + tree_layout(toks, j, ik),
    }
}

proof fn lemma_parse_kept_trans(a: Net, b: Net, c: Net)
    requires
        parse_kept(a, b),
        parse_kept(b, c),
    ensures
        parse_kept(a, c),
{
    lemma_leaves_kept_trans(a.heap@, b.heap@, c.heap@);
    lemma_ctrs_kept_trans(a.heap@, b.heap@, c.heap@);
}

proof fn lemma_grows_trans(c: Seq<PackedNode>, b: Seq<PackedNode>, a: Seq<PackedNode>)
    requires
        grows(c, b),
        grows(b, a),
    ensures
        grows(c, a),
{
    assert(c.subrange(0, a.len() as int) =~= b.subrange(0, a.len() as int));
}

proof fn lemma_grows_push(a: Seq<PackedNode>, b: Seq<PackedNode>)
    requires
        b.len() == a.len() + 1,
        forall|k: int| 0 <= k < a.len() ==> b[k] == a[k],
    ensures
        grows(b, a),
{
    assert(b.subrange(0, a.len() as int) =~= a);
}

/// The state stays ready for a list and scope as the heap grows.
proof fn lemma_ready_lift(
    before: Net,
    after: Net,
    into: Seq<PackedNode>,
    scope: Seq<(usize, usize, usize)>,
    src: Seq<u8>,
)
    requires
        scratch_ok(into, before.heap@.len()),
        words_end_at_leaves(into, before.heap@),
        before.heap@.len() <= after.heap@.len(),
        after.wf(),
        ends_at_leaves(after.heap@),
        leaves_kept(before.heap@, after.heap@),
        scope_ok(scope, after.heap@.len()),
        slots_are_leaves(scope, after.heap@),
        names_unique(src, scope),
    ensures
        parse_ready(after, into, scope, src),
{
    lemma_scratch_grow(into, before.heap@.len(), after.heap@.len());
    lemma_words_end_grow(into, before.heap@, after.heap@);
}

/// Appending a word whose address lies in the heap and names a leaf keeps
/// the state ready.
proof fn lemma_push_ready(
    net: Net,
    a: Seq<PackedNode>,
    b: Seq<PackedNode>,
    scope: Seq<(usize, usize, usize)>,
    src: Seq<u8>,
)
    requires
        parse_ready(net, a, scope, src),
        b.len() == a.len() + 1,
        forall|k: int| 0 <= k < a.len() ==> b[k] == a[k],
        addr_ok(decode(b[a.len() as int].0), net.heap@.len()),
        decode(b[a.len() as int].0) is Auxiliary ==> {
            let r = decode(b[a.len() as int].0)->Auxiliary_0.0 as int;
            0 <= r < net.heap@.len() && !(decode(net.heap@[r].0) is Ctr)
        },
    ensures
        parse_ready(net, b, scope, src),
{
    assert forall|k: int| 0 <= k < b.len() implies addr_ok(#[trigger] decode(b[k].0), net.heap@.len()) by {
        if k < a.len() {
            assert(b[k] == a[k]);
        }
    }
    assert forall|k: int| 0 <= k < b.len() && decode(#[trigger] b[k].0) is Auxiliary implies {
        let r = decode(b[k].0)->Auxiliary_0.0 as int;
        0 <= r < net.heap@.len() && !(decode(net.heap@[r].0) is Ctr)
    } by {
        if k < a.len() {
            assert(b[k] == a[k]);
        }
    }
}

/// A buffer copied from `tree` and then only rewritten at leaves keeps the
/// constructor words of `tree`.
proof fn lemma_buffer_ctrs(hc: Seq<PackedNode>, tree: Seq<PackedNode>, h: Seq<PackedNode>)
    requires
        leaves_kept(hc + tree, h),
        ctrs_kept(hc + tree, h),
    ensures
        ctrs(h.subrange(hc.len() as int, (hc.len() + tree.len()) as int)) == shapes(tree).map_values(
            |n: Node| ctr_of(n),
        ),
{
    let hh = hc + tree;
    assert forall|m: int| 0 <= m < tree.len() implies #[trigger] ctr_of(decode(h[hc.len() + m].0))
        == ctr_of(decode(tree[m].0)) by {
        assert(hh[hc.len() + m] == tree[m]);
        if decode(tree[m].0) is Ctr {
            assert(h[hc.len() + m] == hh[hc.len() + m]);
        } else {
            assert(!(decode(hh[hc.len() + m].0) is Ctr));
        }
    }
    let lhs = ctrs(h.subrange(hc.len() as int, (hc.len() + tree.len()) as int));
    let rhs = shapes(tree).map_values(|n: Node| ctr_of(n));
    assert forall|m: int| 0 <= m < tree.len() implies lhs[m] == rhs[m] by {
        assert(h.subrange(hc.len() as int, (hc.len() + tree.len()) as int)[m] == h[hc.len() + m]);
        assert(ctr_of(decode(h[hc.len() + m].0)) == ctr_of(decode(tree[m].0)));
        assert(rhs[m] == ctr_of(shape(decode(tree[m].0))));
    }
    assert(lhs =~= rhs);
}

/// Shapes of consecutive runs are consecutive.
proof fn lemma_shapes_concat(a: Seq<PackedNode>, b: Seq<PackedNode>)
    ensures
        shapes(a + b) == shapes(a) + shapes(b),
{
    assert(shapes(a + b) =~= shapes(a) + shapes(b));
}

/// The kind of constructor a node is, if it is one.
pub open spec fn ctr_of(n: Node) -> Option<usize> {
    match n {
        Node::Ctr(k) => Some(k),
        _ => None,
    }
}

/// The shapes of the words the tree at token `i` appends to a list being
/// built for a constructor of kind `ik`: an eraser for `*`, a wire end for a
/// name; a constructor of kind `ik` is laid out inline, its header followed
/// by its two children in pre-order; a constructor of another kind appends
/// only a principal port (its words go to a buffer of their own, laid out as
/// `tree_layout(toks, i, Some(kind))`).
pub open spec fn tree_layout(toks: Seq<Result<Token, Error>>, i: int, ik: Option<usize>) -> Seq<
    Node,
>
    decreases toks.len() - i,
{
    if i < 0 || i >= toks.len() {
        seq![]
    } else if toks[i] is Ok && toks[i]->Ok_0 is Era {
        seq![Node::Era]
    } else if toks[i] is Ok && toks[i]->Ok_0 is Ident {
        seq![Node::Auxiliary(Tree(0))]
    } else {
        match open_result(toks, i) {
            Err(_) => seq![],
            Ok((s, _)) => {
                let k = kind_spec(toks, i);
                if ik != Some(k) {
                    seq![Node::Principal(Tree(0))]
                } else if s > toks.len() {
                    seq![]
                } else {
                    match tree_result(toks, s) {
                        Err(_) => seq![],
                        Ok(j) => if j <= i || j > toks.len() {
                            seq![]
                        } else {
                            seq![Node::Ctr(k)] + tree_layout(toks, s, ik) + tree_layout(toks, j, ik)
                        },
                    }
                }
            },
        }
    }
}

/// The kind written in a constructor's opening token; kinds past the
/// largest packable one wrap around.
fn kind_at(toks: &Vec<Result<Token, Error>>, pos: usize) -> (r: usize)
    requires
        pos < toks@.len(),
    ensures
        r <= MAX_KIND,
        r == kind_spec(toks@, pos as int),
{
    match toks[pos] {
        Ok(Token::OpenBrace) => if toks.len() - pos > 1 {
            match toks[pos + 1] {
                Ok(Token::Number(n)) => n % (MAX_KIND + 1),
                _ => 0,
            }
        } else {
            0
        },
        Ok(Token::OpenBracket) => 1,
        _ => 0,
    }
}

/// The token is the given closing bracket.
fn closes(t: Result<Token, Error>, close: Token) -> (r: bool)
    ensures
        r == (t == Ok::<Token, Error>(close)),
{
    match t {
        Ok(x) => x == close,
        Err(_) => false,
    }
}

/// Reads a program: the free trees, whose words become the net's free
/// ports, then an optional `=` that joins the last free tree to the tree
/// after it, then equations `tree = tree`, each joining its two sides. Joining
/// two principal ports seeds an active pair; the active pairs are left so
/// that they pop in the order of the source. Returns the addresses of the
/// free ports and the net.
#[verifier::rlimit(100)]
#[verifier::spinoff_prover]
pub fn parse_program(source: &str) -> (r: Result<(Vec<Tree>, Net), Error>)
    ensures
        r is Ok <==> program_ok(lex_spec(source.spec_bytes())),
        match program_error(lex_spec(source.spec_bytes())) {
            None => r is Ok,
            Some(e) => r == Err::<(Vec<Tree>, Net), Error>(e),
        },
        r is Ok ==> {
            let (free, net) = r->Ok_0;
            &&& net.wf()
            &&& free@.len() == free_ports(lex_spec(source.spec_bytes()))
            &&& net.anni == 0 && net.comm == 0 && net.eras == 0 && net.grft == 0
            &&& forall|k: int| 0 <= k < free@.len() ==> (#[trigger] free@[k]).0 < net.heap@.len()
            &&& forall|k: int|
                0 <= k < free@.len() ==> !(decode(net.heap@[(#[trigger] free@[k]).0 as int].0) is Ctr)
            &&& ends_at_leaves(net.heap@)
            &&& all_bracketed(lex_spec(source.spec_bytes()), joins(lex_spec(source.spec_bytes())))
                ==> {
                let js = joins(lex_spec(source.spec_bytes()));
                &&& net.active@.len() == js.len()
                &&& forall|m: int|
                    0 <= m < js.len() ==> pair_ok(
                        net.heap@,
                        #[trigger] net.active@[net.active@.len() - 1 - m],
                        js[m],
                        lex_spec(source.spec_bytes()),
                    )
            }
        },
{
    let src = source.as_bytes();
    let toks = lex(src);
    let ghost tk = toks@;
    let mut net = Net::new();
    let mut trees: Vec<PackedNode> = Vec::new();
    let mut scope: Vec<(usize, usize, usize)> = Vec::new();
    let mut pos: usize = 0;
    assert(ends_at_leaves(net.heap@)) by {
        assert forall|i: int| 0 <= i < net.heap@.len() && decode(#[trigger] net.heap@[i].0) is Auxiliary implies false by {
            assert(net.heap@[i] == PackedNode(0));
        }
    }
    let ghost mut pos_of: Seq<int> = seq![];
    let ghost mut last: int = -1;
    let ghost mut js: Seq<(int, int)> = seq![];
    while pos < toks.len() && !closes(toks[pos], Token::Eq)
        invariant
            net.wf(),
            tops_ok(net.heap@, trees@, pos_of, tk),
            net.active@.len() == 0,
            last_free(tk, pos as int, last) == last_free(tk, 0, -1),
            trees@.len() > 0 ==> pos_of[pos_of.len() - 1] == last,
            leafy(net.heap@, trees@, scope@),
            scratch_ok(trees@, net.heap@.len()),
            scope_ok(scope@, net.heap@.len()),
            names_unique(src@, scope@),
            toks@ == tk,
            tk == lex_spec(source.spec_bytes()),
            pos <= tk.len(),
            frees_end(tk, pos as int) == frees_end(tk, 0),
            frees_result(tk, pos as int) == frees_result(tk, 0),
            net.anni == 0 && net.comm == 0 && net.eras == 0 && net.grft == 0,
            pos > 0 ==> trees@.len() > 0,
            trees@.len() + frees_count(tk, pos as int) == frees_count(tk, 0),
        decreases tk.len() - pos,
    {
        proof {
            lemma_tree_end(tk, pos as int);
        }
        let ghost t0 = trees@;
        let ghost n0 = net;
        match net.parse_tree_into(src, None, &mut trees, &toks, pos, &mut scope) {
            Ok(p) => {
                proof {
                    lemma_top_word(t0, trees@, tk, pos as int);
                    lemma_tops_kept(n0.heap@, net.heap@, t0, pos_of, tk);
                    lemma_tops_push(net.heap@, n0.heap@.len(), t0, trees@, pos_of, tk, pos as int);
                    pos_of = pos_of.push(pos as int);
                    last = pos as int;
                }
                pos = p;
            },
            Err(e) => {
                return Err(e);
            },
        }
    }
    if pos < toks.len() {
        if pos == 0 {
            return Err(Error::ExpectedTree);
        }
        let ghost t0 = trees@;
        let ghost n0 = net;
        let ghost eqp = pos as int;
        match net.parse_tree_into(src, None, &mut trees, &toks, pos + 1, &mut scope) {
            Ok(p) => {
                proof {
                    lemma_top_word(t0, trees@, tk, pos + 1);
                    lemma_tops_kept(n0.heap@, net.heap@, t0, pos_of, tk);
                    lemma_tops_push(net.heap@, n0.heap@.len(), t0, trees@, pos_of, tk, pos + 1);
                    pos_of = pos_of.push(pos + 1);
                }
                pos = p;
            },
            Err(e) => {
                return Err(e);
            },
        }
        let ghost hj = net.heap@;
        let ghost tj = trees@;
        let ghost aj = net.active@;
        net.join(&mut trees);
        proof {
            lemma_join_leafy(hj, net.heap@, tj, trees@, scope@);
            assert(pushes_ok(hj, aj, js, tk));
            lemma_join_step(hj, net.heap@, aj, net.active@, tj, pos_of, js, tk);
            js = js.push((pos_of[pos_of.len() - 2], pos_of[pos_of.len() - 1]));
            pos_of = pos_of.subrange(0, pos_of.len() - 2);
            assert(js =~= seq![(last_free(tk, 0, -1), eqp + 1)]);
            assert(joins(tk) == js + eq_joins(tk, pos as int));
        }
    }
    while pos < toks.len()
        invariant
            net.wf(),
            leafy(net.heap@, trees@, scope@),
            scratch_ok(trees@, net.heap@.len()),
            scope_ok(scope@, net.heap@.len()),
            names_unique(src@, scope@),
            toks@ == tk,
            tk == lex_spec(source.spec_bytes()),
            pos <= tk.len(),
            equations_ok(tk, pos as int) == program_ok(tk),
            equations_error(tk, pos as int) == program_error(tk),
            net.anni == 0 && net.comm == 0 && net.eras == 0 && net.grft == 0,
            program_ok(tk) ==> trees@.len() == free_ports(tk),
            tops_ok(net.heap@, trees@, pos_of, tk),
            pushes_ok(net.heap@, net.active@, js, tk),
            js + eq_joins(tk, pos as int) == joins(tk),
        decreases tk.len() - pos,
    {
        proof {
            lemma_tree_end(tk, pos as int);
        }
        let ghost t0 = trees@;
        let ghost n0 = net;
        let p1 = match net.parse_tree_into(src, None, &mut trees, &toks, pos, &mut scope) {
            Ok(p) => p,
            Err(e) => {
                return Err(e);
            },
        };
        proof {
            lemma_top_word(t0, trees@, tk, pos as int);
            lemma_tops_kept(n0.heap@, net.heap@, t0, pos_of, tk);
            lemma_tops_push(net.heap@, n0.heap@.len(), t0, trees@, pos_of, tk, pos as int);
            lemma_pushes_kept(n0.heap@, net.heap@, n0.active@, js, tk);
            pos_of = pos_of.push(pos as int);
        }
        if p1 >= toks.len() || !closes(toks[p1], Token::Eq) {
            return Err(Error::ExpectedEq);
        }
        proof {
            lemma_tree_end(tk, p1 + 1);
        }
        let ghost t1 = trees@;
        let ghost n1 = net;
        let p2 = match net.parse_tree_into(src, None, &mut trees, &toks, p1 + 1, &mut scope) {
            Ok(p) => p,
            Err(e) => {
                return Err(e);
            },
        };
        proof {
            lemma_top_word(t1, trees@, tk, p1 + 1);
            lemma_tops_kept(n1.heap@, net.heap@, t1, pos_of, tk);
            lemma_tops_push(net.heap@, n1.heap@.len(), t1, trees@, pos_of, tk, p1 + 1);
            lemma_pushes_kept(n1.heap@, net.heap@, n1.active@, js, tk);
            pos_of = pos_of.push(p1 + 1);
        }
        let ghost hj = net.heap@;
        let ghost tj = trees@;
        let ghost aj = net.active@;
        let ghost js0 = js;
        net.join(&mut trees);
        proof {
            lemma_join_leafy(hj, net.heap@, tj, trees@, scope@);
            lemma_join_step(hj, net.heap@, aj, net.active@, tj, pos_of, js, tk);
            js = js.push((pos_of[pos_of.len() - 2], pos_of[pos_of.len() - 1]));
            pos_of = pos_of.subrange(0, pos_of.len() - 2);
            assert(eq_joins(tk, pos as int) == seq![(pos as int, p1 + 1)] + eq_joins(tk, p2 as int));
            assert(js0 + eq_joins(tk, pos as int) =~= js + eq_joins(tk, p2 as int));
        }
        pos = p2;
    }
    proof {
        if js.len() == 0 {
            assert(joins(tk) =~= js);
        }
        assert(js + eq_joins(tk, pos as int) =~= js);
    }
    let ghost hf = net.heap@;
    let ghost af = net.active@;
    let t = net.finish_tree(&trees);
    proof {
        lemma_append_keeps_ends(hf, trees@);
        lemma_ctrs_kept_trans(hf, hf + trees@, net.heap@);
        lemma_pushes_kept(hf, net.heap@, af, js, tk);
    }
    proof {
        assert forall|k: int| 0 <= k < trees@.len() implies !(decode(
            #[trigger] net.heap@[t.0 + k].0,
        ) is Ctr) by {
            assert((hf + trees@)[t.0 + k] == trees@[k]);
            assert(!(decode(trees@[k].0) is Ctr));
        }
    }
    let mut free: Vec<Tree> = Vec::new();
    let mut i: usize = 0;
    while i < trees.len()
        invariant
            net.wf(),
            net.anni == 0 && net.comm == 0 && net.eras == 0 && net.grft == 0,
            t.0 + trees@.len() == net.heap@.len(),
            i <= trees@.len(),
            free@.len() == i,
            forall|k: int| 0 <= k < i ==> (#[trigger] free@[k]).0 < net.heap@.len(),
            forall|k: int| 0 <= k < i ==> (#[trigger] free@[k]).0 == t.0 + k,
            forall|k: int| 0 <= k < trees@.len() ==> !(decode(#[trigger] net.heap@[t.0 + k].0) is Ctr),
            ends_at_leaves(net.heap@),
            pushes_ok(net.heap@, net.active@, js, tk),
            js == joins(tk),
        decreases trees@.len() - i,
    {
        free.push(Tree(t.0 + i));
        i = i + 1;
    }
    let ghost ar = net.active@;
    net.reverse_active();
    proof {
        if all_bracketed(tk, js) {
            assert forall|m: int| 0 <= m < js.len() implies pair_ok(
                net.heap@,
                #[trigger] net.active@[net.active@.len() - 1 - m],
                js[m],
                tk,
            ) by {
                assert(net.active@[net.active@.len() - 1 - m] == ar[m]);
            }
        }
    }
    Ok((free, net))
}

/// The parser's state keeps every wire end naming a leaf: in the heap, in
/// the top-level words, and at the slots of open names; and no top-level
/// word is a constructor.
pub open spec fn leafy(
    h: Seq<PackedNode>,
    trees: Seq<PackedNode>,
    scope: Seq<(usize, usize, usize)>,
) -> bool {
    &&& ends_at_leaves(h)
    &&& words_end_at_leaves(trees, h)
    &&& slots_are_leaves(scope, h)
    &&& forall|k: int| 0 <= k < trees.len() ==> !(decode(#[trigger] trees[k].0) is Ctr)
}

/// A top-level tree appends one word, which is not a constructor.
proof fn lemma_top_word(
    t0: Seq<PackedNode>,
    t1: Seq<PackedNode>,
    toks: Seq<Result<Token, Error>>,
    i: int,
)
    requires
        forall|k: int| 0 <= k < t0.len() ==> !(decode(#[trigger] t0[k].0) is Ctr),
        tree_result(toks, i) is Ok,
        grows(t1, t0),
        shapes(t1.subrange(t0.len() as int, t1.len() as int)) == tree_layout(toks, i, None),
    ensures
        t1.len() == t0.len() + 1,
        forall|k: int| 0 <= k < t1.len() ==> !(decode(#[trigger] t1[k].0) is Ctr),
{
    let lay = tree_layout(toks, i, None);
    assert(lay.len() == 1 && !(lay[0] is Ctr));
    let seg = t1.subrange(t0.len() as int, t1.len() as int);
    assert(shapes(seg).len() == seg.len());
    assert(shapes(seg)[0] == shape(decode(seg[0].0)));
    assert forall|k: int| 0 <= k < t1.len() implies !(decode(#[trigger] t1[k].0) is Ctr) by {
        if k < t0.len() {
            assert(t1[k] == t1.subrange(0, t0.len() as int)[k]);
        } else {
            assert(t1[k] == seg[0]);
        }
    }
}

/// Joining two top-level trees keeps the parser's state leafy.
proof fn lemma_join_leafy(
    h0: Seq<PackedNode>,
    h1: Seq<PackedNode>,
    t0: Seq<PackedNode>,
    t1: Seq<PackedNode>,
    scope: Seq<(usize, usize, usize)>,
)
    requires
        leafy(h0, t0, scope),
        t0.len() >= 2,
        t1 == t0.subrange(0, t0.len() - 2),
        ends_at_leaves(h1),
        words_end_at_leaves(t1, h1),
        leaves_kept(h0, h1),
    ensures
        leafy(h1, t1, scope),
{
    lemma_slots_grow(scope, h0, h1);
    assert forall|k: int| 0 <= k < t1.len() implies !(decode(#[trigger] t1[k].0) is Ctr) by {
        assert(t1[k] == t0[k]);
    }
}

/// The heap after one fixup of the word at `q`: an auxiliary word takes the
/// word its partner slot holds, and when that is itself an auxiliary word,
/// the word it names now points back at `q`.
pub open spec fn fix_word(h: Seq<PackedNode>, q: int) -> Seq<PackedNode> {
    let x = decode(h[q].0);
    if x is Auxiliary {
        let w = decode(h[x->Auxiliary_0.0 as int].0);
        let h1 = put(h, q, PackedNode(encode(w)));
        if w is Auxiliary {
            put(h1, w->Auxiliary_0.0 as int, PackedNode(encode(Node::Auxiliary(Tree(q as usize)))))
        } else {
            h1
        }
    } else {
        h
    }
}

/// The heap after fixing the words of the buffer at `t` from index `i` up
/// to `n`, in order.
pub open spec fn finish_walk(h: Seq<PackedNode>, t: int, i: int, n: int) -> Seq<PackedNode>
    decreases n - i,
{
    if i >= n {
        h
    } else {
        finish_walk(fix_word(h, t + i), t, i + 1, n)
    }
}

/// Every auxiliary word of `h` names a word of `h` that is a leaf.
pub open spec fn ends_at_leaves(h: Seq<PackedNode>) -> bool {
    forall|i: int|
        0 <= i < h.len() && decode(#[trigger] h[i].0) is Auxiliary ==> {
            let r = decode(h[i].0)->Auxiliary_0.0 as int;
            0 <= r < h.len() && !(decode(h[r].0) is Ctr)
        }
}

/// Every auxiliary word of `t` names a word of `h` that is a leaf.
pub open spec fn words_end_at_leaves(t: Seq<PackedNode>, h: Seq<PackedNode>) -> bool {
    forall|k: int|
        0 <= k < t.len() && decode(#[trigger] t[k].0) is Auxiliary ==> {
            let r = decode(t[k].0)->Auxiliary_0.0 as int;
            0 <= r < h.len() && !(decode(h[r].0) is Ctr)
        }
}

/// The words that open names wait at are leaves.
pub open spec fn slots_are_leaves(scope: Seq<(usize, usize, usize)>, h: Seq<PackedNode>) -> bool {
    forall|k: int|
        0 <= k < scope.len() ==> (#[trigger] scope[k]).2 < h.len() && !(decode(
            h[scope[k].2 as int].0,
        ) is Ctr)
}

/// Writing a leaf keeps every auxiliary word naming a leaf, provided that a
/// written auxiliary word itself names a leaf.
proof fn lemma_put_keeps_ends(h: Seq<PackedNode>, i: int, w: PackedNode)
    requires
        ends_at_leaves(h),
        0 <= i < h.len(),
        !(decode(w.0) is Ctr),
        decode(w.0) is Auxiliary ==> {
            let r = decode(w.0)->Auxiliary_0.0 as int;
            0 <= r < h.len() && (r == i || !(decode(h[r].0) is Ctr))
        },
    ensures
        ends_at_leaves(put(h, i, w)),
        leaves_kept(h, put(h, i, w)),
        !(decode(h[i].0) is Ctr) ==> ctrs_kept(h, put(h, i, w)),
{
    let h2 = put(h, i, w);
    assert forall|j: int| 0 <= j < h2.len() && decode(#[trigger] h2[j].0) is Auxiliary implies {
        let r = decode(h2[j].0)->Auxiliary_0.0 as int;
        0 <= r < h2.len() && !(decode(h2[r].0) is Ctr)
    } by {
        if j != i {
            assert(h2[j] == h[j]);
        }
    }
}

/// Linking two leaves whose auxiliary ends name leaves keeps every
/// auxiliary word naming a leaf.
proof fn lemma_link_keeps_ends(h: Seq<PackedNode>, a: Node, b: Node)
    requires
        ends_at_leaves(h),
        h.len() <= crate::node::MAX_ADDR,
        !(a is Ctr) && !(b is Ctr),
        addr_ok(a, h.len()) && addr_ok(b, h.len()),
        a is Auxiliary ==> a->Auxiliary_0.0 > 0 && !(decode(h[a->Auxiliary_0.0 as int].0) is Ctr),
        b is Auxiliary ==> b->Auxiliary_0.0 > 0 && !(decode(h[b->Auxiliary_0.0 as int].0) is Ctr),
    ensures
        ends_at_leaves(link_heap(h, a, b)),
        leaves_kept(h, link_heap(h, a, b)),
        ctrs_kept(h, link_heap(h, a, b)),
{
    crate::node::lemma_decode_encode(a);
    crate::node::lemma_decode_encode(b);
    match (a, b) {
        (Node::Era, Node::Auxiliary(r)) => lemma_put_keeps_ends(h, r.0 as int, PackedNode(0)),
        (Node::Auxiliary(r), Node::Era) => lemma_put_keeps_ends(h, r.0 as int, PackedNode(0)),
        (Node::Principal(_), Node::Auxiliary(r)) => lemma_put_keeps_ends(
            h,
            r.0 as int,
            PackedNode(encode(a)),
        ),
        (Node::Auxiliary(r), Node::Principal(_)) => lemma_put_keeps_ends(
            h,
            r.0 as int,
            PackedNode(encode(b)),
        ),
        (Node::Auxiliary(x), Node::Auxiliary(y)) => {
            lemma_put_keeps_ends(h, x.0 as int, PackedNode(encode(b)));
            let h1 = put(h, x.0 as int, PackedNode(encode(b)));
            lemma_put_keeps_ends(h1, y.0 as int, PackedNode(encode(a)));
            lemma_leaves_kept_trans(h, h1, put(h1, y.0 as int, PackedNode(encode(a))));
            assert(!(decode(h1[y.0 as int].0) is Ctr));
            lemma_ctrs_kept_trans(h, h1, put(h1, y.0 as int, PackedNode(encode(a))));
        },
        _ => {},
    }
}

/// Leaves that stay leaves keep naming leaves.
proof fn lemma_words_end_grow(t: Seq<PackedNode>, h1: Seq<PackedNode>, h2: Seq<PackedNode>)
    requires
        words_end_at_leaves(t, h1),
        leaves_kept(h1, h2),
    ensures
        words_end_at_leaves(t, h2),
{
    assert forall|k: int| 0 <= k < t.len() && decode(#[trigger] t[k].0) is Auxiliary implies {
        let r = decode(t[k].0)->Auxiliary_0.0 as int;
        0 <= r < h2.len() && !(decode(h2[r].0) is Ctr)
    } by {
        let r = decode(t[k].0)->Auxiliary_0.0 as int;
        assert(!(decode(h1[r].0) is Ctr));
    }
}

/// Open names keep waiting at leaves while leaves stay leaves.
proof fn lemma_slots_grow(scope: Seq<(usize, usize, usize)>, h1: Seq<PackedNode>, h2: Seq<PackedNode>)
    requires
        slots_are_leaves(scope, h1),
        leaves_kept(h1, h2),
    ensures
        slots_are_leaves(scope, h2),
{
    assert forall|k: int| 0 <= k < scope.len() implies (#[trigger] scope[k]).2 < h2.len() && !(decode(
        h2[scope[k].2 as int].0,
    ) is Ctr) by {
        assert(!(decode(h1[scope[k].2 as int].0) is Ctr));
    }
}

/// Appending words that name leaves keeps every auxiliary word naming a leaf.
proof fn lemma_append_keeps_ends(h: Seq<PackedNode>, t: Seq<PackedNode>)
    requires
        ends_at_leaves(h),
        words_end_at_leaves(t, h),
    ensures
        ends_at_leaves(h + t),
        leaves_kept(h, h + t),
{
    let h2 = h + t;
    assert forall|j: int| 0 <= j < h2.len() && decode(#[trigger] h2[j].0) is Auxiliary implies {
        let r = decode(h2[j].0)->Auxiliary_0.0 as int;
        0 <= r < h2.len() && !(decode(h2[r].0) is Ctr)
    } by {
        if j < h.len() {
            assert(h2[j] == h[j]);
        } else {
            assert(h2[j] == t[j - h.len()]);
        }
    }
    assert forall|i: int| 0 <= i < h.len() && !(#[trigger] decode(h[i].0) is Ctr) implies !(decode(
        h2[i].0,
    ) is Ctr) by {
        assert(h2[i] == h[i]);
    }
}

/// Scanned words stay in bounds as the heap grows.
proof fn lemma_scratch_grow(t: Seq<PackedNode>, len1: nat, len2: nat)
    requires
        scratch_ok(t, len1),
        len1 <= len2,
    ensures
        scratch_ok(t, len2),
{
    assert forall|k: int| 0 <= k < t.len() implies addr_ok(#[trigger] decode(t[k].0), len2) by {
        assert(addr_ok(decode(t[k].0), len1));
    }
}

impl Net {
    /// Makes a fresh wire: two new words that hold each other's address.
    /// Returns the address of the first.
    fn new_wire(&mut self) -> (r: usize)
        requires
            old(self).wf(),
        ensures
            final(self).wf(),
            r == old(self).heap@.len(),
            final(self).heap@.len() == old(self).heap@.len() + 2,
            final(self).active@ == old(self).active@,
            final(self).same_counters(*old(self)),
            ends_at_leaves(old(self).heap@) ==> ends_at_leaves(final(self).heap@),
            leaves_kept(old(self).heap@, final(self).heap@),
            ctrs_kept(old(self).heap@, final(self).heap@),
            !(decode(final(self).heap@[r as int].0) is Ctr),
            !(decode(final(self).heap@[r + 1].0) is Ctr),
    {
        let ghost h0 = self.heap@;
        let w: Vec<PackedNode> = vec![PackedNode(0), PackedNode(0)];
        assert(scratch_ok(w@, self.heap@.len())) by {
            assert forall|k: int| 0 <= k < w@.len() implies addr_ok(
                #[trigger] decode(w@[k].0),
                self.heap@.len(),
            ) by {
                assert(w@[k] == PackedNode(0));
            }
        }
        let p = self.allocate(&w);
        let ghost h1 = self.heap@;
        proof {
            assert(w@[0] == PackedNode(0) && w@[1] == PackedNode(0));
            if ends_at_leaves(h0) {
                assert(words_end_at_leaves(w@, h0));
                lemma_append_keeps_ends(h0, w@);
            }
            assert(h1[p.0 as int] == PackedNode(0) && h1[p.0 + 1] == PackedNode(0));
            crate::node::lemma_decode_encode(Node::Auxiliary(Tree((p.0 + 1) as usize)));
            crate::node::lemma_decode_encode(Node::Auxiliary(Tree(p.0)));
            if ends_at_leaves(h1) {
                lemma_put_keeps_ends(h1, p.0 as int, PackedNode(encode(Node::Auxiliary(Tree((p.0 + 1) as usize)))));
            }
        }
        self.write(p.0, Node::Auxiliary(Tree((p.0 + 1) as usize)));
        let ghost h2 = self.heap@;
        proof {
            if ends_at_leaves(h2) {
                lemma_put_keeps_ends(h2, p.0 + 1, PackedNode(encode(Node::Auxiliary(Tree(p.0)))));
            }
        }
        self.write(p.0 + 1, Node::Auxiliary(Tree(p.0)));
        proof {
            lemma_leaves_kept_trans(h0, h1, h2);
            lemma_leaves_kept_trans(h0, h2, self.heap@);
            lemma_ctrs_kept_trans(h0, h1, h2);
            lemma_ctrs_kept_trans(h0, h2, self.heap@);
        }
        p.0
    }

    /// The address a name's next occurrence is wired to: the waiting end of
    /// its wire if the name is open, else one end of a fresh wire whose
    /// other end now waits for the name.
    fn take_slot(
        &mut self,
        src: &[u8],
        scope: &mut Vec<(usize, usize, usize)>,
        n0: usize,
        n1: usize,
    ) -> (r: usize)
        requires
            old(self).wf(),
            scope_ok(old(scope)@, old(self).heap@.len()),
            names_unique(src@, old(scope)@),
            slots_are_leaves(old(scope)@, old(self).heap@),
        ensures
            final(self).wf(),
            scope_ok(final(scope)@, final(self).heap@.len()),
            names_unique(src@, final(scope)@),
            slots_are_leaves(final(scope)@, final(self).heap@),
            ends_at_leaves(old(self).heap@) ==> ends_at_leaves(final(self).heap@),
            leaves_kept(old(self).heap@, final(self).heap@),
            ctrs_kept(old(self).heap@, final(self).heap@),
            !(decode(final(self).heap@[r as int].0) is Ctr),
            0 < r < final(self).heap@.len(),
            final(self).heap@.len() >= old(self).heap@.len(),
            final(self).active@ == old(self).active@,
            final(self).same_counters(*old(self)),
    {
        let mut k: usize = 0;
        while k < scope.len()
            invariant
                self.wf(),
                self.heap@ == old(self).heap@,
                self.active@ == old(self).active@,
                self.same_counters(*old(self)),
                scope@ == old(scope)@,
                scope_ok(scope@, self.heap@.len()),
                names_unique(src@, scope@),
                slots_are_leaves(scope@, self.heap@),
                k <= scope@.len(),
                forall|m: int| 0 <= m < k ==> !names_equal(src@, #[trigger] scope@[m].0, scope@[m].1, n0, n1),
            decreases scope@.len() - k,
        {
            let (s0, s1, slot) = scope[k];
            if same_name(src, s0, s1, n0, n1) {
                let ghost sc = scope@;
                scope.remove(k);
                assert forall|j: int| 0 <= j < scope@.len() implies 0 < (#[trigger] scope@[j]).2
                    < self.heap@.len() by {
                    if j < k {
                        assert(scope@[j] == sc[j]);
                    } else {
                        assert(scope@[j] == sc[j + 1]);
                    }
                }
                assert forall|i: int, j: int| 0 <= i < j < scope@.len() implies !names_equal(
                    src@,
                    #[trigger] scope@[i].0,
                    scope@[i].1,
                    #[trigger] scope@[j].0,
                    scope@[j].1,
                ) by {
                    let i2 = if i < k { i } else { i + 1 };
                    let j2 = if j < k { j } else { j + 1 };
                    assert(scope@[i] == sc[i2] && scope@[j] == sc[j2]);
                    assert(!names_equal(src@, sc[i2].0, sc[i2].1, sc[j2].0, sc[j2].1));
                }
                assert(sc[k as int].2 == slot);
                assert forall|m: int| 0 <= m < scope@.len() implies (#[trigger] scope@[m]).2
                    < self.heap@.len() && !(decode(self.heap@[scope@[m].2 as int].0) is Ctr) by {
                    if m < k {
                        assert(scope@[m] == sc[m]);
                    } else {
                        assert(scope@[m] == sc[m + 1]);
                    }
                }
                return slot;
            }
            k = k + 1;
        }
        let ghost hb = self.heap@;
        let p = self.new_wire();
        proof {
            lemma_slots_grow(scope@, hb, self.heap@);
        }
        scope.push((n0, n1, p + 1));
        assert forall|m: int| 0 <= m < scope@.len() implies (#[trigger] scope@[m]).2
            < self.heap@.len() && !(decode(self.heap@[scope@[m].2 as int].0) is Ctr) by {
            if m < scope@.len() - 1 {
                assert(scope@[m] == old(scope)@[m]);
            }
        }
        assert forall|j: int| 0 <= j < scope@.len() implies 0 < (#[trigger] scope@[j]).2
            < self.heap@.len() by {
            if j < scope@.len() - 1 {
                assert(scope@[j] == old(scope)@[j]);
            }
        }
        assert forall|i: int, j: int| 0 <= i < j < scope@.len() implies !names_equal(
            src@,
            #[trigger] scope@[i].0,
            scope@[i].1,
            #[trigger] scope@[j].0,
            scope@[j].1,
        ) by {
            assert(scope@[i] == old(scope)@[i]);
            if j < scope@.len() - 1 {
                assert(scope@[j] == old(scope)@[j]);
                assert(!names_equal(src@, old(scope)@[i].0, old(scope)@[i].1, old(scope)@[j].0, old(scope)@[j].1));
            } else {
                assert(scope@[j].0 == n0 && scope@[j].1 == n1);
                assert(!names_equal(src@, old(scope)@[i].0, old(scope)@[i].1, n0, n1));
            }
        }
        p
    }

    /// Copies a finished tree's words into a fresh buffer and stitches each
    /// auxiliary word with its partner, which now points into the buffer.
    fn finish_tree(&mut self, tree: &Vec<PackedNode>) -> (r: Tree)
        requires
            old(self).wf(),
            scratch_ok(tree@, old(self).heap@.len()),
        ensures
            final(self).wf(),
            r.0 == old(self).heap@.len(),
            final(self).heap@.len() == old(self).heap@.len() + tree@.len(),
            final(self).heap@ == finish_walk(
                old(self).heap@ + tree@,
                old(self).heap@.len() as int,
                0,
                tree@.len() as int,
            ),
            final(self).active@ == old(self).active@,
            final(self).same_counters(*old(self)),
            ends_at_leaves(old(self).heap@) && words_end_at_leaves(tree@, old(self).heap@) ==> {
                &&& ends_at_leaves(final(self).heap@)
                &&& leaves_kept(old(self).heap@ + tree@, final(self).heap@)
                &&& ctrs_kept(old(self).heap@ + tree@, final(self).heap@)
            },
    {
        let ghost inv = ends_at_leaves(self.heap@) && words_end_at_leaves(tree@, self.heap@);
        proof {
            if inv {
                lemma_append_keeps_ends(self.heap@, tree@);
            }
        }
        let ghost goal = finish_walk(self.heap@ + tree@, self.heap@.len() as int, 0, tree@.len() as int);
        let t = self.allocate(tree);
        let len = self.heap.len();
        let mut i: usize = 0;
        while i < tree.len()
            invariant
                self.wf(),
                self.heap@.len() == len,
                t.0 + tree@.len() == len,
                t.0 >= 1,
                i <= tree@.len(),
                self.active@ == old(self).active@,
                self.same_counters(*old(self)),
                goal == finish_walk(old(self).heap@ + tree@, t.0 as int, 0, tree@.len() as int),
                finish_walk(self.heap@, t.0 as int, i as int, tree@.len() as int) == goal,
                inv == (ends_at_leaves(old(self).heap@) && words_end_at_leaves(tree@, old(self).heap@)),
                inv ==> ends_at_leaves(self.heap@) && leaves_kept(old(self).heap@ + tree@, self.heap@)
                    && ctrs_kept(old(self).heap@ + tree@, self.heap@),
            decreases tree@.len() - i,
        {
            let ghost hp = self.heap@;
            if let Node::Auxiliary(r) = self.heap[t.0 + i].unpack() {
                let w = self.heap[r.0].unpack();
                proof {
                    crate::node::lemma_encode_decode(hp[r.0 as int].0);
                    if inv {
                        assert(decode(hp[(t.0 + i) as int].0) is Auxiliary);
                        if w is Auxiliary {
                            assert(decode(hp[r.0 as int].0) is Auxiliary);
                        }
                        lemma_put_keeps_ends(hp, (t.0 + i) as int, PackedNode(encode(w)));
                    }
                }
                self.write(t.0 + i, w);
                let ghost hq = self.heap@;
                if let Node::Auxiliary(r2) = w {
                    proof {
                        crate::node::lemma_decode_encode(Node::Auxiliary(Tree((t.0 + i) as usize)));
                        if inv {
                            lemma_put_keeps_ends(hq, r2.0 as int, PackedNode(encode(Node::Auxiliary(Tree((t.0 + i) as usize)))));
                        }
                    }
                    self.write(r2.0, Node::Auxiliary(Tree((t.0 + i) as usize)));
                }
                proof {
                    if inv {
                        lemma_leaves_kept_trans(old(self).heap@ + tree@, hp, hq);
                        lemma_leaves_kept_trans(old(self).heap@ + tree@, hq, self.heap@);
                        lemma_ctrs_kept_trans(old(self).heap@ + tree@, hp, hq);
                        lemma_ctrs_kept_trans(old(self).heap@ + tree@, hq, self.heap@);
                    }
                }
            }
            i = i + 1;
        }
        t
    }

    /// What a word parked in a top-level list stands for: an auxiliary word
    /// is replaced by the word it points to.
    fn finish_word(&self, w: PackedNode) -> (r: Node)
        requires
            self.wf(),
            addr_ok(decode(w.0), self.heap@.len()),
        ensures
            addr_ok(r, self.heap@.len()),
            r is Auxiliary ==> r->Auxiliary_0.0 > 0,
            !(decode(w.0) is Auxiliary) ==> r == decode(w.0),
            ends_at_leaves(self.heap@) && words_end_at_leaves(seq![w], self.heap@) ==> (r is Auxiliary
                ==> !(decode(self.heap@[r->Auxiliary_0.0 as int].0) is Ctr)),
    {
        let n = w.unpack();
        proof {
            let ws = seq![w];
            assert(ws[0] == w);
            if n is Auxiliary {
                let r = n->Auxiliary_0.0 as int;
                assert(ends_at_leaves(self.heap@) ==> (decode(self.heap@[r].0) is Auxiliary ==> {
                    let r2 = decode(self.heap@[r].0)->Auxiliary_0.0 as int;
                    0 <= r2 < self.heap@.len() && !(decode(self.heap@[r2].0) is Ctr)
                }));
            }
        }
        match n {
            Node::Auxiliary(r) => self.heap[r.0].unpack(),
            _ => n,
        }
    }

    /// Reads the tree at token `pos` and appends its words to `into`: one
    /// word for a leaf, the header and both children in pre-order for a
    /// constructor of the kind being built (`into_kind`), and for a
    /// constructor of another kind one principal port to a buffer of its
    /// own. Returns the position after the tree.
    #[verifier::rlimit(60)]
    #[verifier::spinoff_prover]
    fn parse_tree_into(
        &mut self,
        src: &[u8],
        into_kind: Option<usize>,
        into: &mut Vec<PackedNode>,
        toks: &Vec<Result<Token, Error>>,
        pos: usize,
        scope: &mut Vec<(usize, usize, usize)>,
    ) -> (r: Result<usize, Error>)
        requires
            parse_ready(*old(self), old(into)@, old(scope)@, src@),
        ensures
            parse_ready(*final(self), final(into)@, final(scope)@, src@),
            parse_kept(*old(self), *final(self)),
            match tree_result(toks@, pos as int) {
                Ok(j) => r == Ok::<usize, Error>(j as usize),
                Err(e) => r == Err::<usize, Error>(e),
            },
            r is Ok ==> grows(final(into)@, old(into)@),
            r is Ok ==> shapes(final(into)@.subrange(old(into)@.len() as int, final(into)@.len() as int))
                == tree_layout(toks@, pos as int, into_kind),
            r is Ok && !(toks@[pos as int] is Ok && (toks@[pos as int]->Ok_0 is Era
                || toks@[pos as int]->Ok_0 is Ident)) && into_kind != Some(
                kind_spec(toks@, pos as int),
            ) ==> own_buffer(
                final(self).heap@,
                old(self).heap@.len(),
                decode(final(into)@[old(into)@.len() as int].0),
                tree_layout(toks@, pos as int, Some(kind_spec(toks@, pos as int))),
            ),
        decreases toks@.len() - pos, 2nat,
    {
        proof {
            lemma_tree_end(toks@, pos as int);
        }
        if pos >= toks.len() {
            return Err(Error::UnexpectedEOF);
        }
        let (start, close) = match toks[pos] {
            Err(e) => {
                return Err(e);
            },
            Ok(Token::Ident(n0, n1)) => {
                let slot = self.take_slot(src, scope, n0, n1);
                proof {
                    lemma_ready_lift(*old(self), *self, old(into)@, scope@, src@);
                }
                into.push(Node::Auxiliary(Tree(slot)).pack());
                proof {
                    lemma_push_ready(*self, old(into)@, into@, scope@, src@);
                    lemma_grows_push(old(into)@, into@);
                }
                return Ok(pos + 1);
            },
            Ok(Token::Era) => {
                into.push(PackedNode(0));
                proof {
                    lemma_push_ready(*self, old(into)@, into@, scope@, src@);
                    lemma_grows_push(old(into)@, into@);
                }
                return Ok(pos + 1);
            },
            Ok(Token::OpenParen) => (pos + 1, Token::CloseParen),
            Ok(Token::OpenBracket) => (pos + 1, Token::CloseBracket),
            Ok(Token::OpenBrace) => {
                if pos + 1 >= toks.len() {
                    return Err(Error::UnexpectedEOF);
                }
                match toks[pos + 1] {
                    Err(e) => {
                        return Err(e);
                    },
                    Ok(Token::Number(_)) => (pos + 2, Token::CloseBrace),
                    _ => {
                        return Err(Error::ExpectedNumber);
                    },
                }
            },
            _ => {
                return Err(Error::ExpectedTree);
            },
        };
        assert(open_result(toks@, pos as int) == Ok::<(int, Token), Error>((start as int, close)));
        let kind = kind_at(toks, pos);
        let mut end: usize = 0;
        if !same_kind(Some(kind), into_kind) {
            let (t, e) = match self.parse_buffer(src, kind, toks, pos, start, scope) {
                Ok(x) => x,
                Err(e) => {
                    proof {
                        lemma_ready_lift(*old(self), *self, old(into)@, scope@, src@);
                    }
                    return Err(e);
                },
            };
            proof {
                lemma_ready_lift(*old(self), *self, old(into)@, scope@, src@);
                lemma_tree_end(toks@, start as int);
                let j = tree_result(toks@, start as int)->Ok_0;
                lemma_tree_end(toks@, j);
                assert(tree_layout(toks@, pos as int, Some(kind)) == seq![Node::Ctr(kind)]
                    + children_layout(toks@, start as int, Some(kind))) by {
                    assert(seq![Node::Ctr(kind)] + tree_layout(toks@, start as int, Some(kind))
                        + tree_layout(toks@, j, Some(kind)) =~= seq![Node::Ctr(kind)] + (tree_layout(
                        toks@,
                        start as int,
                        Some(kind),
                    ) + tree_layout(toks@, j, Some(kind))));
                }
            }
            into.push(Node::Principal(t).pack());
            proof {
                lemma_push_ready(*self, old(into)@, into@, scope@, src@);
                lemma_grows_push(old(into)@, into@);
                assert(decode(into@[old(into)@.len() as int].0) == Node::Principal(t));
            }
            end = e;
        } else {
            into.push(Node::Ctr(kind).pack());
            let ghost i0 = into@;
            proof {
                lemma_push_ready(*self, old(into)@, into@, scope@, src@);
                lemma_grows_push(old(into)@, into@);
            }
            let ghost h0 = *self;
            end = match self.parse_children(src, into_kind, into, toks, pos, start, scope) {
                Ok(e) => e,
                Err(e) => {
                    proof {
                        lemma_parse_kept_trans(*old(self), h0, *self);
                    }
                    return Err(e);
                },
            };
            proof {
                lemma_parse_kept_trans(*old(self), h0, *self);
                lemma_grows_trans(into@, i0, old(into)@);
                let n0 = old(into)@.len() as int;
                assert(into@.subrange(n0, into@.len() as int) =~= i0.subrange(n0, i0.len() as int)
                    + into@.subrange(i0.len() as int, into@.len() as int)) by {
                    assert(into@.subrange(0, i0.len() as int) == i0);
                }
                lemma_shapes_concat(
                    i0.subrange(n0, i0.len() as int),
                    into@.subrange(i0.len() as int, into@.len() as int),
                );
                assert(shapes(i0.subrange(n0, i0.len() as int)) =~= seq![Node::Ctr(kind)]);
            }
        }
        if end >= toks.len() {
            return Err(Error::UnexpectedEOF);
        }
        if !closes(toks[end], close) {
            return match toks[end] {
                Err(e) => Err(e),
                Ok(_) => Err(Error::InvalidClose),
            };
        }
        Ok(end + 1)
    }

    /// Reads the two children of the constructor opened at `pos`, from token
    /// `start` on, appending their words to `into`. Returns the position
    /// after the second child.
    #[verifier::rlimit(40)]
    fn parse_children(
        &mut self,
        src: &[u8],
        into_kind: Option<usize>,
        into: &mut Vec<PackedNode>,
        toks: &Vec<Result<Token, Error>>,
        pos: usize,
        start: usize,
        scope: &mut Vec<(usize, usize, usize)>,
    ) -> (r: Result<usize, Error>)
        requires
            parse_ready(*old(self), old(into)@, old(scope)@, src@),
            pos < start <= toks@.len(),
            toks@.len() <= usize::MAX,
        ensures
            parse_ready(*final(self), final(into)@, final(scope)@, src@),
            parse_kept(*old(self), *final(self)),
            match children_result(toks@, start as int) {
                Ok(j) => r == Ok::<usize, Error>(j as usize),
                Err(e) => r == Err::<usize, Error>(e),
            },
            r is Ok ==> grows(final(into)@, old(into)@),
            r is Ok ==> shapes(final(into)@.subrange(old(into)@.len() as int, final(into)@.len() as int))
                == children_layout(toks@, start as int, into_kind),
        decreases toks@.len() - pos, 0nat,
    {
        proof {
            lemma_tree_end(toks@, start as int);
        }
        let h0 = Ghost(*self);
        let p1 = match self.parse_tree_into(src, into_kind, into, toks, start, scope) {
            Ok(p) => p,
            Err(e) => {
                return Err(e);
            },
        };
        let ghost i1 = into@;
        let ghost h1 = *self;
        proof {
            lemma_tree_end(toks@, p1 as int);
            assert(tree_result(toks@, start as int) == Ok::<int, Error>(p1 as int));
            assert(p1 > start);
        }
        let p2 = match self.parse_tree_into(src, into_kind, into, toks, p1, scope) {
            Ok(p) => p,
            Err(e) => {
                proof {
                    lemma_parse_kept_trans(h0@, h1, *self);
                }
                return Err(e);
            },
        };
        proof {
            lemma_parse_kept_trans(h0@, h1, *self);
            lemma_grows_trans(into@, i1, old(into)@);
            let n0 = old(into)@.len() as int;
            assert(into@.subrange(n0, into@.len() as int) =~= i1.subrange(n0, i1.len() as int)
                + into@.subrange(i1.len() as int, into@.len() as int)) by {
                assert(into@.subrange(0, i1.len() as int) == i1);
            }
            lemma_shapes_concat(
                i1.subrange(n0, i1.len() as int),
                into@.subrange(i1.len() as int, into@.len() as int),
            );
            assert(tree_result(toks@, p1 as int) == Ok::<int, Error>(p2 as int));
        }
        Ok(p2)
    }

    /// Reads the constructor of kind `kind` opened at `pos` into a buffer of
    /// its own: its header, then its children from token `start` on.
    /// Returns the buffer and the position after the second child.
    #[verifier::rlimit(40)]
    fn parse_buffer(
        &mut self,
        src: &[u8],
        kind: usize,
        toks: &Vec<Result<Token, Error>>,
        pos: usize,
        start: usize,
        scope: &mut Vec<(usize, usize, usize)>,
    ) -> (r: Result<(Tree, usize), Error>)
        requires
            parse_ready(*old(self), seq![], old(scope)@, src@),
            pos < start <= toks@.len(),
            toks@.len() <= usize::MAX,
            kind <= MAX_KIND,
        ensures
            parse_ready(*final(self), seq![], final(scope)@, src@),
            parse_kept(*old(self), *final(self)),
            match children_result(toks@, start as int) {
                Ok(j) => r is Ok && r->Ok_0.1 == j as usize,
                Err(e) => r == Err::<(Tree, usize), Error>(e),
            },
            r is Ok ==> r->Ok_0.0.0 < final(self).heap@.len() && own_buffer(
                final(self).heap@,
                old(self).heap@.len(),
                Node::Principal(r->Ok_0.0),
                seq![Node::Ctr(kind)] + children_layout(toks@, start as int, Some(kind)),
            ),
        decreases toks@.len() - pos, 1nat,
    {
        let mut tree: Vec<PackedNode> = Vec::new();
        tree.push(Node::Ctr(kind).pack());
        proof {
            lemma_push_ready(*self, seq![], tree@, scope@, src@);
        }
        let ghost t0 = tree@;
        let ghost h0 = *self;
        let e = match self.parse_children(src, Some(kind), &mut tree, toks, pos, start, scope) {
            Ok(e) => e,
            Err(e) => {
                return Err(e);
            },
        };
        let ghost hc = self.heap@;
        proof {
            lemma_append_keeps_ends(hc, tree@);
            lemma_slots_grow(scope@, hc, hc + tree@);
            assert(tree@ =~= t0 + tree@.subrange(1, tree@.len() as int)) by {
                assert(tree@.subrange(0, 1) == t0);
            }
            lemma_shapes_concat(t0, tree@.subrange(1, tree@.len() as int));
            assert(shapes(t0) =~= seq![Node::Ctr(kind)]);
        }
        let t = self.finish_tree(&tree);
        proof {
            lemma_leaves_kept_trans(hc, hc + tree@, self.heap@);
            lemma_ctrs_kept_trans(hc, hc + tree@, self.heap@);
            lemma_leaves_kept_trans(old(self).heap@, hc, self.heap@);
            lemma_ctrs_kept_trans(old(self).heap@, hc, self.heap@);
            lemma_slots_grow(scope@, hc, self.heap@);
            lemma_buffer_ctrs(hc, tree@, self.heap@);
            crate::node::lemma_decode_encode(Node::Ctr(kind));
        }
        Ok((t, e))
    }

    /// Reverses the order of the active pairs.
    fn reverse_active(&mut self)
        requires
            old(self).wf(),
        ensures
            final(self).wf(),
            final(self).heap@ == old(self).heap@,
            final(self).active@.len() == old(self).active@.len(),
            forall|k: int|
                0 <= k < final(self).active@.len() ==> #[trigger] final(self).active@[k]
                    == old(self).active@[old(self).active@.len() - 1 - k],
            final(self).same_counters(*old(self)),
    {
        let mut rev: Vec<(Tree, Tree)> = Vec::new();
        let n = self.active.len();
        let mut i: usize = 0;
        while i < n
            invariant
                self.wf(),
                n == self.active@.len(),
                self.active@ == old(self).active@,
                self.heap@ == old(self).heap@,
                self.same_counters(*old(self)),
                i <= n,
                rev@.len() == i,
                forall|k: int| 0 <= k < i ==> #[trigger] rev@[k] == self.active@[n - 1 - k],
            decreases n - i,
        {
            rev.push(self.active[n - 1 - i]);
            i = i + 1;
        }
        self.active = rev;
        assert forall|k: int| 0 <= k < self.active@.len() implies (
        #[trigger] self.active@[k]).0.0 < self.heap@.len() && self.active@[k].1.0
            < self.heap@.len() by {
            assert(self.active@[k] == old(self).active@[n - 1 - k]);
        }
    }

    /// Joins the two trees on top of `trees` with a wire.
    fn join(&mut self, trees: &mut Vec<PackedNode>)
        requires
            old(self).wf(),
            scratch_ok(old(trees)@, old(self).heap@.len()),
            old(trees)@.len() >= 2,
        ensures
            final(self).wf(),
            scratch_ok(final(trees)@, final(self).heap@.len()),
            final(trees)@.len() == old(trees)@.len() - 2,
            final(self).heap@.len() == old(self).heap@.len(),
            extends(final(self).active@, old(self).active@),
            final(self).same_counters(*old(self)),
            ends_at_leaves(old(self).heap@) && words_end_at_leaves(old(trees)@, old(self).heap@) ==> {
                &&& ends_at_leaves(final(self).heap@)
                &&& words_end_at_leaves(final(trees)@, final(self).heap@)
                &&& leaves_kept(old(self).heap@, final(self).heap@)
                &&& ctrs_kept(old(self).heap@, final(self).heap@)
            },
            final(trees)@ == old(trees)@.subrange(0, old(trees)@.len() - 2),
            ({
                let x = decode(old(trees)@[old(trees)@.len() - 2].0);
                let y = decode(old(trees)@[old(trees)@.len() - 1].0);
                x is Principal && y is Principal ==> final(self).active@ == old(self).active@.push(
                    (y->Principal_0, x->Principal_0),
                )
            }),
    {
        let ghost t0 = trees@;
        let ghost inv = ends_at_leaves(self.heap@) && words_end_at_leaves(trees@, self.heap@);
        let ghost act0 = self.active@;
        let y = trees.pop().unwrap();
        let x = trees.pop().unwrap();
        assert(trees@ =~= t0.subrange(0, t0.len() - 2));
        assert(addr_ok(decode(t0[t0.len() - 1].0), self.heap@.len()));
        assert(addr_ok(decode(t0[t0.len() - 2].0), self.heap@.len()));
        proof {
            if inv {
                assert(seq![y][0] == t0[t0.len() - 1]);
                assert(seq![x][0] == t0[t0.len() - 2]);
                assert(words_end_at_leaves(seq![y], self.heap@));
                assert(words_end_at_leaves(seq![x], self.heap@));
            }
        }
        assert(y == t0[t0.len() - 1] && x == t0[t0.len() - 2]);
        let b = self.finish_word(y);
        let a = self.finish_word(x);
        let ghost h0 = self.heap@;
        match (a, b) {
            (Node::Ctr(_), _) => {},
            (_, Node::Ctr(_)) => {},
            _ => {
                proof {
                    if inv {
                        lemma_link_keeps_ends(h0, b, a);
                    }
                }
                self.link(b, a);
            },
        }
        proof {
            if inv {
                lemma_words_end_grow(t0, h0, self.heap@);
                assert(ctrs_kept(h0, self.heap@));
                assert forall|k: int| 0 <= k < trees@.len() && decode(#[trigger] trees@[k].0) is Auxiliary implies {
                    let r = decode(trees@[k].0)->Auxiliary_0.0 as int;
                    0 <= r < self.heap@.len() && !(decode(self.heap@[r].0) is Ctr)
                } by {
                    assert(trees@[k] == t0[k]);
                }
            }
        }
        assert(scratch_ok(trees@, self.heap@.len())) by {
            assert forall|k: int| 0 <= k < trees@.len() implies addr_ok(
                #[trigger] decode(trees@[k].0),
                self.heap@.len(),
            ) by {
                assert(trees@[k] == t0[k]);
            }
        }
        assert(self.active@.subrange(0, act0.len() as int) =~= act0);
    }
}

} // verus!
