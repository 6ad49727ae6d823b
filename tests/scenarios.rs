use itrees::{inner, parse_program, Net, PackedNode, PrintNet, Tree};

fn text(free: &Vec<Tree>, net: &Net) -> String {
    String::from_utf8(PrintNet(free, net).render()).unwrap()
}

/// Every auxiliary word reachable from the free ports points at a word that
/// points back at it.
fn wires_are_dual(free: &Vec<Tree>, net: &Net) -> bool {
    let mut todo: Vec<usize> = free.iter().map(|t| t.0).collect();
    let mut seen = vec![false; net.heap.len()];
    while let Some(p) = todo.pop() {
        if p >= net.heap.len() || seen[p] {
            continue;
        }
        seen[p] = true;
        match net.heap[p].unpack() {
            itrees::Node::Auxiliary(q) => {
                match net.heap[q.0].unpack() {
                    itrees::Node::Auxiliary(back) if back.0 == p => {}
                    _ => return false,
                }
                todo.push(q.0);
            }
            itrees::Node::Principal(t) => todo.push(t.0),
            itrees::Node::Ctr(_) => {
                todo.push(p + 1);
                let mut n = 1usize;
                let mut q = p + 1;
                while n > 0 {
                    match net.heap[q].unpack() {
                        itrees::Node::Ctr(_) => n += 1,
                        _ => n -= 1,
                    }
                    q += 1;
                }
                todo.push(q);
            }
            itrees::Node::Era => {}
        }
    }
    true
}

#[test]
fn era_commutes_with_ctr() {
    let (free, mut net) = parse_program("a b * = (a b)").unwrap();
    assert_eq!(text(&free, &net), "a\nb\n(a b) = *\n");
    net.reduce();
    assert_eq!(text(&free, &net), "*\n*\n");
    assert_eq!(net.stats(), (0, 0, 1, 0));
}

#[test]
fn duplication() {
    let (free, mut net) = parse_program("a b c d {2 a b} = (c d)").unwrap();
    assert_eq!(text(&free, &net), "a\nb\nc\nd\n(c d) = {2 a b}\n");
    net.reduce();
    assert_eq!(text(&free, &net), "(a b)\n(c d)\n{2 a c}\n{2 b d}\n");
    assert_eq!(net.stats(), (0, 1, 0, 0));
    assert!(wires_are_dual(&free, &net));
}

#[test]
fn self_loop_under_commute() {
    let (free, mut net) = parse_program("p q {2 x x} = (p q)").unwrap();
    net.reduce();
    assert_eq!(text(&free, &net), "{2 a a}\n{2 b b}\n");
    assert_eq!(net.stats(), (0, 1, 0, 0));
    assert!(wires_are_dual(&free, &net));
}

#[test]
fn graft_fast_path() {
    let (free, mut net) =
        parse_program("a b p q v (u z) = ((a b) z) [p q] = (u v)").unwrap();
    net.reduce();
    assert_eq!(
        text(&free, &net),
        "[a b]\n[c d]\n((a c) e)\n((b d) f)\n[e f]\n"
    );
    assert_eq!(net.stats(), (1, 1, 0, 1));
    assert!(wires_are_dual(&free, &net));
}

#[test]
fn annihilation_pairs_wires() {
    let (free, mut net) = parse_program("a b c d (a b) = (c d)").unwrap();
    let steps = inner(&mut net);
    assert_eq!(steps, 1);
    assert_eq!(text(&free, &net), "a\nb\na\nb\n");
    assert_eq!(net.stats(), (1, 0, 0, 0));
    assert!(wires_are_dual(&free, &net));
}

#[test]
fn era_against_era_is_one_step() {
    let mut net = Net::new();
    net.heap.push(PackedNode(0));
    net.heap.push(PackedNode(0));
    let before = net.heap.clone();
    net.push_active(Tree(1), Tree(2));
    assert_eq!(inner(&mut net), 1);
    assert_eq!(net.stats(), (1, 0, 0, 0));
    assert_eq!(net.heap, before);
    assert!(net.active.is_empty());
}

#[test]
fn erasing_an_eraser_is_a_no_op() {
    let mut net = Net::new();
    net.heap.push(PackedNode(0));
    let before = net.heap.clone();
    net.push_active(Tree(1), Tree(0));
    assert_eq!(inner(&mut net), 1);
    assert_eq!(net.stats(), (0, 0, 1, 0));
    assert_eq!(net.heap, before);
    assert!(net.active.is_empty());
}

#[test]
fn commuting_equal_kinds_matches_annihilating() {
    let (free_a, mut by_anni) = parse_program("(* *) = (* *)").unwrap();
    by_anni.reduce();
    let (free_c, mut by_comm) = parse_program("(* *) = (* *)").unwrap();
    let (a, b) = by_comm.active.pop().unwrap();
    by_comm.commute(a, b);
    by_comm.reduce();
    assert_eq!(text(&free_a, &by_anni), text(&free_c, &by_comm));
    assert_eq!(text(&free_a, &by_anni), "");
}

#[test]
fn equations_pop_in_source_order() {
    let (free, net) = parse_program("x y (x *) = [y *] {3 * *} = {4 * *}").unwrap();
    assert_eq!(free.len(), 2);
    assert_eq!(text(&free, &net), "a\nb\n[b *] = (a *)\n{4 * *} = {3 * *}\n");
    let (a, _) = net.active[net.active.len() - 1];
    assert_eq!(net.heap[a.0].unpack(), itrees::Node::Ctr(1));
}

#[test]
fn counters_add_up_to_steps() {
    let (_free, mut net) =
        parse_program("a b p q v (u z) = ((a b) z) [p q] = (u v)").unwrap();
    let steps = inner(&mut net);
    let (anni, comm, eras, grft) = net.stats();
    assert_eq!(anni + comm + eras, steps);
    assert_eq!(grft, 1);
}

#[test]
fn printed_normal_form_parses_back() {
    let (free, mut net) = parse_program("a b c d {2 a b} = (c d)").unwrap();
    net.reduce();
    let printed = text(&free, &net);
    let (free2, net2) = parse_program(&printed).unwrap();
    assert_eq!(text(&free2, &net2), printed);
}

#[test]
fn wire_names_past_the_alphabet() {
    let mut src = String::new();
    for k in 0..28 {
        src.push_str(&format!("w{} w{} ", k, k));
    }
    let (free, net) = parse_program(&src).unwrap();
    let printed = text(&free, &net);
    let lines: Vec<&str> = printed.lines().collect();
    assert_eq!(lines.len(), 56);
    assert_eq!(lines[0], "a");
    assert_eq!(lines[1], "a");
    assert_eq!(lines[50], "z");
    assert_eq!(lines[52], "a1");
    assert_eq!(lines[55], "b1");
}

#[test]
fn explicit_kinds_print_in_braces() {
    let (free, net) = parse_program("x {7 x *} = {12 * (* *)}").unwrap();
    assert_eq!(text(&free, &net), "a\n{12 * (* *)} = {7 a *}\n");
}

#[test]
fn graft_normal_form_parses_back() {
    let (free, mut net) =
        parse_program("a b p q v (u z) = ((a b) z) [p q] = (u v)").unwrap();
    net.reduce();
    let printed = text(&free, &net);
    let (free2, net2) = parse_program(&printed).unwrap();
    assert_eq!(text(&free2, &net2), printed);
}

#[test]
fn reduction_order_does_not_change_the_normal_form() {
    let src = "a b p q v (u z) = ((a b) z) [p q] = (u v)";
    let (free1, mut net1) = parse_program(src).unwrap();
    net1.reduce();
    let (free2, mut net2) = parse_program(src).unwrap();
    net2.active.reverse();
    net2.reduce();
    assert_eq!(text(&free1, &net1), text(&free2, &net2));
    let src = "a b c d e f (a b) = (c d) {2 e f} = [x x]";
    let (free1, mut net1) = parse_program(src).unwrap();
    net1.reduce();
    let (free2, mut net2) = parse_program(src).unwrap();
    net2.active.reverse();
    net2.reduce();
    assert_eq!(text(&free1, &net1), text(&free2, &net2));
}

/// The add 1+1 program as written: its only active pair faces a kind-1
/// tree with a kind-0 tree, and unequal kinds commute, so the counters show
/// one commutation and no annihilation. The names `z`, `add0` and `out`
/// occur once and `two` three times, and the first `=` joins the only free
/// tree, so no free port is left to print.
#[test]
fn add_one_and_one() {
    let (free, mut net) = parse_program(
        "one = ((* (z o)) o) [one0 [one1 two]] = one add0 = ((one0 one1) two) out = two",
    )
    .unwrap();
    assert!(free.is_empty());
    assert_eq!(text(&free, &net), "((* (a b)) b) = [c [d e]]\n");
    net.reduce();
    assert!(net.active.is_empty());
    assert_eq!(text(&free, &net), "");
    assert_eq!(net.stats(), (0, 1, 0, 0));
}
