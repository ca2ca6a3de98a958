//! Paths through the states that a rule body compiles to.
//!
//! The states of a body lie together in the table, lead only to one another
//! and to the body's successor, and are left only for that successor. So a
//! path through them can be cut where it passes from one part of the body
//! to the next.
use crate::bnf_rules_compiler::StateId;
use crate::grammar_text::Syntax;
use crate::match_record::Record;
use crate::rule_graph::{
    compile_alternatives, compile_expression, compile_sequence, lemma_rule_index, rule_index,
    Node, NodeAction,
};
use vstd::prelude::*;

verus! {

/// Says whether the token at a position is of the type that a name stands
/// for.
pub type TokenTest = spec_fn(nat, Seq<char>) -> bool;

/// Child `k` of `children` is a call of `rule` at `pos`.
pub open spec fn calls_at(children: Seq<Record>, k: nat, rule: usize, pos: nat) -> bool {
    &&& k < children.len()
    &&& children[k as int].rule == rule
    &&& children[k as int].start == pos
}

/// Where a walk along `path` gets to: it starts at position `pos` with
/// `k` of the children used, does what every state but the last asks for,
/// and arrives at the last state at the position and with the number of
/// children that the result gives. There is no result where the path is no
/// walk.
pub open spec fn walk_path(
    nodes: Seq<Node>,
    token_is: TokenTest,
    children: Seq<Record>,
    path: Seq<StateId>,
    pos: nat,
    k: nat,
) -> Option<(nat, nat)>
    decreases path.len(),
{
    if path.len() == 0 {
        None
    } else if path.len() == 1 {
        Some((pos, k))
    } else if path[0] >= nodes.len() {
        None
    } else {
        let node = nodes[path[0] as int];
        let onward = path.subrange(1, path.len() as int);
        match node.action {
            NodeAction::Match(name) => {
                if node.transitions.len() == 1 && node.transitions[0] == path[1] && token_is(
                    pos,
                    name,
                ) {
                    walk_path(nodes, token_is, children, onward, pos + 1, k)
                } else {
                    None
                }
            },
            NodeAction::Call(rule, resume) => {
                if resume == path[1] && calls_at(children, k, rule, pos) {
                    walk_path(nodes, token_is, children, onward, children[k as int].end, k + 1)
                } else {
                    None
                }
            },
            NodeAction::Split => {
                if node.transitions.contains(path[1]) {
                    walk_path(nodes, token_is, children, onward, pos, k)
                } else {
                    None
                }
            },
            NodeAction::Accept => None,
        }
    }
}

/// `to` is a state that `node` may lead to.
pub open spec fn leads(node: Node, to: StateId) -> bool {
    match node.action {
        NodeAction::Match(_) => node.transitions.len() == 1 && node.transitions[0] == to,
        NodeAction::Call(_, resume) => resume == to,
        NodeAction::Split => node.transitions.contains(to),
        NodeAction::Accept => false,
    }
}

/// A walk can be cut at any of its states: it is the walk to that state and
/// then the walk from it.
pub proof fn lemma_walk_cut(
    nodes: Seq<Node>,
    token_is: TokenTest,
    children: Seq<Record>,
    path: Seq<StateId>,
    pos: nat,
    k: nat,
    at: int,
)
    requires
        0 <= at < path.len(),
    ensures
        walk_path(nodes, token_is, children, path, pos, k) == match walk_path(
            nodes,
            token_is,
            children,
            path.subrange(0, at + 1),
            pos,
            k,
        ) {
            Some((mid, used)) => walk_path(
                nodes,
                token_is,
                children,
                path.subrange(at, path.len() as int),
                mid,
                used,
            ),
            None => None,
        },
    decreases at,
{
    let front = path.subrange(0, at + 1);
    let back = path.subrange(at, path.len() as int);
    if at == 0 {
        assert(back =~= path);
    } else {
        let onward = path.subrange(1, path.len() as int);
        assert(front.subrange(1, front.len() as int) =~= onward.subrange(0, at));
        assert(onward.subrange(at - 1, onward.len() as int) =~= back);
        assert(front[0] == path[0]);
        assert(front[1] == path[1]);
        if path[0] < nodes.len() {
            let node = nodes[path[0] as int];
            match node.action {
                NodeAction::Match(name) => {
                    lemma_walk_cut(nodes, token_is, children, onward, pos + 1, k, at - 1);
                },
                NodeAction::Call(rule, resume) => {
                    if calls_at(children, k, rule, pos) {
                        lemma_walk_cut(
                            nodes,
                            token_is,
                            children,
                            onward,
                            children[k as int].end,
                            k + 1,
                            at - 1,
                        );
                    }
                },
                NodeAction::Split => {
                    lemma_walk_cut(nodes, token_is, children, onward, pos, k, at - 1);
                },
                NodeAction::Accept => {},
            }
        }
    }
}

/// `part` stands in `nodes` from `base` on.
pub open spec fn placed(nodes: Seq<Node>, base: nat, part: Seq<Node>) -> bool {
    &&& base + part.len() <= nodes.len()
    &&& forall|i: int| 0 <= i < part.len() ==> nodes[base + i] == #[trigger] part[i]
}

/// `state` is one of the `len` states from `base` on.
pub open spec fn inside(base: nat, len: nat, state: StateId) -> bool {
    base <= state < base + len
}

/// `node` leads only to the `len` states from `base` on and to `next`.
pub open spec fn node_local(node: Node, base: nat, len: nat, next: nat) -> bool {
    &&& !(node.action is Accept)
    &&& forall|to: StateId| #[trigger] leads(node, to) ==> inside(base, len, to) || to == next
}

/// The states of `part`, which stand from `base` on, lead only to one
/// another and to `next`.
pub open spec fn local(part: Seq<Node>, base: nat, next: nat) -> bool {
    forall|i: int| 0 <= i < part.len() ==> node_local(#[trigger] part[i], base, part.len(), next)
}

/// A body starts at one of its own states, or at its successor where it has
/// no states.
pub open spec fn starts_inside(start: nat, base: nat, len: nat, next: nat) -> bool {
    if len == 0 {
        start == next
    } else {
        base <= start < base + len
    }
}

/// A state that leads only to a part of the states leads only to the whole
/// of them.
pub proof fn lemma_node_local_wider(
    node: Node,
    base: nat,
    len: nat,
    next: nat,
    wide_base: nat,
    wide_len: nat,
    wide_next: nat,
)
    requires
        node_local(node, base, len, next),
        wide_base <= base,
        base + len <= wide_base + wide_len,
        inside(wide_base, wide_len, next as usize) || next == wide_next,
        next <= usize::MAX,
    ensures
        node_local(node, wide_base, wide_len, wide_next),
{
    assert forall|to: StateId| #[trigger] leads(node, to) implies inside(wide_base, wide_len, to)
        || to == wide_next by {
        assert(inside(base, len, to) || to == next);
    }
}

/// The states of a body lead only to one another and to its successor.
pub proof fn lemma_expression_local(e: Syntax, names: Seq<Seq<char>>, base: nat, next: nat)
    requires
        next <= usize::MAX,
        base + compile_expression(e, names, base, next).nodes.len() <= usize::MAX,
    ensures
        local(compile_expression(e, names, base, next).nodes, base, next),
        starts_inside(
            compile_expression(e, names, base, next).start,
            base,
            compile_expression(e, names, base, next).nodes.len(),
            next,
        ),
    decreases e,
{
    let f = compile_expression(e, names, base, next);
    match e {
        Syntax::Symbol(name) => {
            lemma_rule_index(names, name);
            assert forall|i: int| 0 <= i < f.nodes.len() implies node_local(
                #[trigger] f.nodes[i],
                base,
                f.nodes.len(),
                next,
            ) by {
                assert forall|to: StateId| #[trigger] leads(f.nodes[i], to) implies inside(
                    base,
                    f.nodes.len(),
                    to,
                ) || to == next by {}
            }
        },
        Syntax::Sequence(members) => {
            lemma_sequence_local(members, names, base, next);
        },
        Syntax::Alternation(alternatives) => {
            let (nodes, starts) = compile_alternatives(alternatives, names, base, next);
            lemma_alternatives_local(alternatives, names, base, next);
            assert forall|i: int| 0 <= i < f.nodes.len() implies node_local(
                #[trigger] f.nodes[i],
                base,
                f.nodes.len(),
                next,
            ) by {
                if i < nodes.len() {
                    assert(f.nodes[i] == nodes[i]);
                    lemma_node_local_wider(nodes[i], base, nodes.len(), next, base, f.nodes.len(), next);
                } else {
                    let node = f.nodes[i];
                    assert(node.transitions == starts);
                    assert forall|to: StateId| #[trigger] leads(node, to) implies inside(
                        base,
                        f.nodes.len(),
                        to,
                    ) || to == next by {
                        let w = choose|w: int| 0 <= w < starts.len() && starts[w] == to;
                        assert(starts[w] == to);
                    }
                }
            }
        },
        Syntax::Repetition(body) => {
            let inner = compile_expression(*body, names, base + 1, base);
            lemma_expression_local(*body, names, base + 1, base);
            assert forall|i: int| 0 <= i < f.nodes.len() implies node_local(
                #[trigger] f.nodes[i],
                base,
                f.nodes.len(),
                next,
            ) by {
                if i > 0 {
                    assert(f.nodes[i] == inner.nodes[i - 1]);
                    lemma_node_local_wider(
                        inner.nodes[i - 1],
                        base + 1,
                        inner.nodes.len(),
                        base,
                        base,
                        f.nodes.len(),
                        next,
                    );
                } else {
                    let node = f.nodes[0];
                    assert(node.transitions == seq![inner.start as usize, next as usize]);
                    assert forall|to: StateId| #[trigger] leads(node, to) implies inside(
                        base,
                        f.nodes.len(),
                        to,
                    ) || to == next by {
                        let w = choose|w: int|
                            0 <= w < node.transitions.len() && node.transitions[w] == to;
                        assert(node.transitions[w] == to);
                    }
                }
            }
        },
    }
}

/// The same for the members of a sequence.
pub proof fn lemma_sequence_local(members: Seq<Syntax>, names: Seq<Seq<char>>, base: nat, next: nat)
    requires
        next <= usize::MAX,
        base + compile_sequence(members, names, base, next).nodes.len() <= usize::MAX,
    ensures
        local(compile_sequence(members, names, base, next).nodes, base, next),
        starts_inside(
            compile_sequence(members, names, base, next).start,
            base,
            compile_sequence(members, names, base, next).nodes.len(),
            next,
        ),
    decreases members,
{
    if members.len() > 0 {
        let f = compile_sequence(members, names, base, next);
        let tail = compile_sequence(members.subrange(1, members.len() as int), names, base, next);
        let head = compile_expression(members[0], names, base + tail.nodes.len(), tail.start);
        lemma_sequence_local(members.subrange(1, members.len() as int), names, base, next);
        lemma_expression_local(members[0], names, base + tail.nodes.len(), tail.start);
        assert forall|i: int| 0 <= i < f.nodes.len() implies node_local(
            #[trigger] f.nodes[i],
            base,
            f.nodes.len(),
            next,
        ) by {
            if i < tail.nodes.len() {
                assert(f.nodes[i] == tail.nodes[i]);
                lemma_node_local_wider(
                    tail.nodes[i],
                    base,
                    tail.nodes.len(),
                    next,
                    base,
                    f.nodes.len(),
                    next,
                );
            } else {
                assert(f.nodes[i] == head.nodes[i - tail.nodes.len()]);
                lemma_node_local_wider(
                    head.nodes[i - tail.nodes.len()],
                    base + tail.nodes.len(),
                    head.nodes.len(),
                    tail.start,
                    base,
                    f.nodes.len(),
                    next,
                );
            }
        }
    }
}

/// The same for the alternatives of a choice, each of which starts at one
/// of their states or at the successor.
pub proof fn lemma_alternatives_local(
    alternatives: Seq<Syntax>,
    names: Seq<Seq<char>>,
    base: nat,
    next: nat,
)
    requires
        next <= usize::MAX,
        base + compile_alternatives(alternatives, names, base, next).0.len() <= usize::MAX,
    ensures
        local(compile_alternatives(alternatives, names, base, next).0, base, next),
        compile_alternatives(alternatives, names, base, next).1.len() == alternatives.len(),
        forall|w: int|
            0 <= w < alternatives.len() ==> inside(
                base,
                compile_alternatives(alternatives, names, base, next).0.len(),
                #[trigger] compile_alternatives(alternatives, names, base, next).1[w],
            ) || compile_alternatives(alternatives, names, base, next).1[w] == next,
    decreases alternatives,
{
    if alternatives.len() > 0 {
        let all = compile_alternatives(alternatives, names, base, next);
        let (nodes, starts) = compile_alternatives(alternatives.drop_last(), names, base, next);
        let last = compile_expression(alternatives.last(), names, base + nodes.len(), next);
        lemma_alternatives_local(alternatives.drop_last(), names, base, next);
        lemma_expression_local(alternatives.last(), names, base + nodes.len(), next);
        assert forall|i: int| 0 <= i < all.0.len() implies node_local(
            #[trigger] all.0[i],
            base,
            all.0.len(),
            next,
        ) by {
            if i < nodes.len() {
                assert(all.0[i] == nodes[i]);
                lemma_node_local_wider(nodes[i], base, nodes.len(), next, base, all.0.len(), next);
            } else {
                assert(all.0[i] == last.nodes[i - nodes.len()]);
                lemma_node_local_wider(
                    last.nodes[i - nodes.len()],
                    base + nodes.len(),
                    last.nodes.len(),
                    next,
                    base,
                    all.0.len(),
                    next,
                );
            }
        }
        assert forall|w: int| 0 <= w < alternatives.len() implies inside(
            base,
            all.0.len(),
            #[trigger] all.1[w],
        ) || all.1[w] == next by {
            if w < starts.len() {
                assert(all.1[w] == starts[w]);
            }
        }
    }
}

/// A walk that starts at one of the states of a body and ends outside them
/// passes through the body's successor: the lemma hands back the first
/// place at which it does, before which it stays inside.
pub proof fn lemma_first_exit(
    nodes: Seq<Node>,
    token_is: TokenTest,
    children: Seq<Record>,
    part: Seq<Node>,
    base: nat,
    next: nat,
    path: Seq<StateId>,
    pos: nat,
    k: nat,
) -> (at: int)
    requires
        placed(nodes, base, part),
        local(part, base, next),
        !inside(base, part.len(), next as usize),
        next <= usize::MAX,
        path.len() > 0,
        inside(base, part.len(), path[0]),
        !inside(base, part.len(), path.last()),
        walk_path(nodes, token_is, children, path, pos, k) is Some,
    ensures
        0 < at < path.len(),
        path[at] == next,
        forall|i: int| 0 <= i < at ==> inside(base, part.len(), #[trigger] path[i]),
    decreases path.len(),
{
    let node = nodes[path[0] as int];
    let onward = path.subrange(1, path.len() as int);
    assert(node == part[path[0] - base]);
    assert(node_local(node, base, part.len(), next));
    assert(leads(node, path[1]));
    assert(walk_path(nodes, token_is, children, onward, pos, k) is Some || walk_path(
        nodes,
        token_is,
        children,
        onward,
        pos + 1,
        k,
    ) is Some || (k < children.len() && walk_path(
        nodes,
        token_is,
        children,
        onward,
        children[k as int].end,
        k + 1,
    ) is Some));
    if path[1] == next {
        1
    } else {
        assert(onward[0] == path[1]);
        assert(onward.last() == path.last());
        let pos2 = if node.action is Match {
            pos + 1
        } else if node.action is Call {
            children[k as int].end
        } else {
            pos
        };
        let k2 = if node.action is Call {
            k + 1
        } else {
            k
        };
        let at = lemma_first_exit(nodes, token_is, children, part, base, next, onward, pos2, k2);
        assert forall|i: int| 0 <= i < at + 1 implies inside(base, part.len(), #[trigger] path[i]) by {
            if i > 0 {
                assert(path[i] == onward[i - 1]);
            }
        }
        at + 1
    }
}

} // verus!
