//! What a rule body means, and that the states that it compiles to mean the
//! same: a walk through the states of a body matches the tokens and calls
//! the rules that some way of reading the body matches and calls.
use crate::bnf_rules_compiler::StateId;
use crate::grammar_text::Syntax;
use crate::graph_paths::{
    calls_at, inside, lemma_expression_local, lemma_first_exit, lemma_sequence_local,
    lemma_walk_cut, placed, walk_path, TokenTest,
};
use crate::match_record::Record;
use crate::rule_graph::{
    compile_alternatives, compile_expression, compile_sequence, lemma_rule_index, rule_index, Node,
};
use vstd::prelude::*;

verus! {

/// A way of matching an expression.
pub enum Shape {
    /// An identifier that names a token type matches one token of it.
    Token,
    /// An identifier that names a rule calls it.
    Call,
    /// The members of a sequence match one after the other, each in its way.
    Sequence(Seq<Shape>),
    /// The alternative with this index matches in this way.
    Choice(nat, Box<Shape>),
    /// The body of a repetition matches as many times as there are ways.
    Repeat(Seq<Shape>),
}

/// Where matching `e` in the way `d` gets to: it starts at position `pos`
/// with `k` of the children used, and ends at the position and with the
/// number of children that the result gives. There is no result where `e`
/// does not match in that way.
pub open spec fn trace(
    e: Syntax,
    d: Shape,
    names: Seq<Seq<char>>,
    token_is: TokenTest,
    children: Seq<Record>,
    pos: nat,
    k: nat,
) -> Option<(nat, nat)>
    decreases d,
{
    match e {
        Syntax::Symbol(name) => match rule_index(names, name) {
            Some(rule) => {
                if d is Call && calls_at(children, k, rule as usize, pos) {
                    Some((children[k as int].end, k + 1))
                } else {
                    None
                }
            },
            None => {
                if d is Token && token_is(pos, name) {
                    Some((pos + 1, k))
                } else {
                    None
                }
            },
        },
        Syntax::Sequence(members) => match d {
            Shape::Sequence(ways) => trace_members(
                members,
                ways,
                names,
                token_is,
                children,
                pos,
                k,
            ),
            _ => None,
        },
        Syntax::Alternation(alternatives) => match d {
            Shape::Choice(i, way) => {
                if i < alternatives.len() {
                    trace(alternatives[i as int], *way, names, token_is, children, pos, k)
                } else {
                    None
                }
            },
            _ => None,
        },
        Syntax::Repetition(body) => match d {
            Shape::Repeat(ways) => trace_rounds(*body, ways, names, token_is, children, pos, k),
            _ => None,
        },
    }
}

/// The members of a sequence one after the other, each in its way.
pub open spec fn trace_members(
    members: Seq<Syntax>,
    ways: Seq<Shape>,
    names: Seq<Seq<char>>,
    token_is: TokenTest,
    children: Seq<Record>,
    pos: nat,
    k: nat,
) -> Option<(nat, nat)>
    decreases ways,
{
    if ways.len() != members.len() {
        None
    } else if ways.len() == 0 {
        Some((pos, k))
    } else {
        match trace(members[0], ways[0], names, token_is, children, pos, k) {
            Some((mid, used)) => trace_members(
                members.subrange(1, members.len() as int),
                ways.subrange(1, ways.len() as int),
                names,
                token_is,
                children,
                mid,
                used,
            ),
            None => None,
        }
    }
}

/// The body of a repetition once for every way, one after the other.
pub open spec fn trace_rounds(
    body: Syntax,
    ways: Seq<Shape>,
    names: Seq<Seq<char>>,
    token_is: TokenTest,
    children: Seq<Record>,
    pos: nat,
    k: nat,
) -> Option<(nat, nat)>
    decreases ways,
{
    if ways.len() == 0 {
        Some((pos, k))
    } else {
        match trace(body, ways[0], names, token_is, children, pos, k) {
            Some((mid, used)) => trace_rounds(
                body,
                ways.subrange(1, ways.len() as int),
                names,
                token_is,
                children,
                mid,
                used,
            ),
            None => None,
        }
    }
}

/// Where the states of alternative `w` stand among the states of all
/// alternatives: the lemma hands back how many states stand before them.
pub proof fn lemma_alternative_placed(
    alternatives: Seq<Syntax>,
    names: Seq<Seq<char>>,
    base: nat,
    next: nat,
    w: int,
) -> (offset: nat)
    requires
        0 <= w < alternatives.len(),
    ensures
        offset + compile_expression(alternatives[w], names, base + offset, next).nodes.len()
            <= compile_alternatives(alternatives, names, base, next).0.len(),
        forall|i: int|
            0 <= i < compile_expression(alternatives[w], names, base + offset, next).nodes.len()
                ==> compile_alternatives(alternatives, names, base, next).0[offset + i]
                == #[trigger] compile_expression(
                alternatives[w],
                names,
                base + offset,
                next,
            ).nodes[i],
        compile_alternatives(alternatives, names, base, next).1.len() == alternatives.len(),
        compile_alternatives(alternatives, names, base, next).1[w] == compile_expression(
            alternatives[w],
            names,
            base + offset,
            next,
        ).start as usize,
    decreases alternatives.len(),
{
    let all = compile_alternatives(alternatives, names, base, next);
    let (nodes, starts) = compile_alternatives(alternatives.drop_last(), names, base, next);
    let last = compile_expression(alternatives.last(), names, base + nodes.len(), next);
    lemma_alternatives_counted(alternatives.drop_last(), names, base, next);
    if w == alternatives.len() - 1 {
        assert forall|i: int| 0 <= i < last.nodes.len() implies all.0[nodes.len() + i]
            == #[trigger] last.nodes[i] by {}
        nodes.len()
    } else {
        let offset = lemma_alternative_placed(alternatives.drop_last(), names, base, next, w);
        let part = compile_expression(alternatives[w], names, base + offset, next);
        assert(alternatives.drop_last()[w] == alternatives[w]);
        assert forall|i: int| 0 <= i < part.nodes.len() implies all.0[offset + i]
            == #[trigger] part.nodes[i] by {
            assert(all.0[offset + i] == nodes[offset + i]);
        }
        assert(all.1[w] == starts[w]);
        offset
    }
}

/// Every alternative has a start.
pub proof fn lemma_alternatives_counted(
    alternatives: Seq<Syntax>,
    names: Seq<Seq<char>>,
    base: nat,
    next: nat,
)
    ensures
        compile_alternatives(alternatives, names, base, next).1.len() == alternatives.len(),
    decreases alternatives.len(),
{
    if alternatives.len() > 0 {
        lemma_alternatives_counted(alternatives.drop_last(), names, base, next);
    }
}

/// A walk through the states of a body, from its start to the first arrival
/// at its successor, matches the tokens and calls the rules that the body
/// matches and calls in some way: the lemma hands that way back.
pub proof fn lemma_expression_traced(
    e: Syntax,
    names: Seq<Seq<char>>,
    nodes: Seq<Node>,
    token_is: TokenTest,
    children: Seq<Record>,
    base: nat,
    next: nat,
    path: Seq<StateId>,
    pos: nat,
    k: nat,
) -> (d: Shape)
    requires
        next <= usize::MAX,
        base + compile_expression(e, names, base, next).nodes.len() <= usize::MAX,
        placed(nodes, base, compile_expression(e, names, base, next).nodes),
        !inside(base, compile_expression(e, names, base, next).nodes.len(), next as usize),
        path.len() > 0,
        path[0] == compile_expression(e, names, base, next).start,
        path.last() == next,
        forall|i: int| 0 <= i < path.len() - 1 ==> #[trigger] path[i] != next,
        walk_path(nodes, token_is, children, path, pos, k) is Some,
    ensures
        trace(e, d, names, token_is, children, pos, k) == walk_path(
            nodes,
            token_is,
            children,
            path,
            pos,
            k,
        ),
    decreases e, path.len(), 1nat,
{
    let f = compile_expression(e, names, base, next);
    match e {
        Syntax::Symbol(name) => {
            lemma_rule_index(names, name);
            assert(f.nodes.len() == 1);
            assert(nodes[base as int] == f.nodes[0]);
            assert(path[0] == base);
            assert(path.len() >= 2);
            let onward = path.subrange(1, path.len() as int);
            assert(path[1] == next);
            assert(path.len() == 2) by {
                if path.len() > 2 {
                    assert(path[1] != next);
                }
            }
            assert(onward.len() == 1);
            match rule_index(names, name) {
                Some(rule) => {
                    assert(walk_path(
                        nodes,
                        token_is,
                        children,
                        onward,
                        children[k as int].end,
                        k + 1,
                    ) == Some((children[k as int].end, k + 1)));
                    Shape::Call
                },
                None => {
                    assert(walk_path(nodes, token_is, children, onward, pos + 1, k) == Some(
                        (pos + 1, k),
                    ));
                    Shape::Token
                },
            }
        },
        Syntax::Sequence(members) => {
            let ways = lemma_sequence_traced(
                members,
                names,
                nodes,
                token_is,
                children,
                base,
                next,
                path,
                pos,
                k,
            );
            Shape::Sequence(ways)
        },
        Syntax::Alternation(alternatives) => {
            let (parts, starts) = compile_alternatives(alternatives, names, base, next);
            let split = f.nodes[parts.len() as int];
            assert(nodes[(base + parts.len()) as int] == split);
            assert(path[0] == base + parts.len());
            assert(path.len() >= 2);
            let onward = path.subrange(1, path.len() as int);
            assert(split.transitions == starts);
            assert(starts.contains(path[1]));
            let w = choose|w: int| 0 <= w < starts.len() && starts[w] == path[1];
            lemma_alternatives_counted(alternatives, names, base, next);
            let offset = lemma_alternative_placed(alternatives, names, base, next, w);
            let part = compile_expression(alternatives[w], names, base + offset, next);
            assert forall|i: int| 0 <= i < part.nodes.len() implies nodes[base + offset + i]
                == #[trigger] part.nodes[i] by {
                assert(parts[offset + i] == part.nodes[i]);
                assert(f.nodes[offset + i] == parts[offset + i]);
                assert(nodes[base + (offset + i)] == f.nodes[offset + i]);
            }
            lemma_expression_local(alternatives[w], names, base + offset, next);
            assert(onward[0] == path[1]);
            assert(onward.last() == path.last());
            assert forall|i: int| 0 <= i < onward.len() - 1 implies #[trigger] onward[i]
                != next by {
                assert(onward[i] == path[i + 1]);
            }
            let way = lemma_expression_traced(
                alternatives[w],
                names,
                nodes,
                token_is,
                children,
                base + offset,
                next,
                onward,
                pos,
                k,
            );
            let d = Shape::Choice(w as nat, Box::new(way));
            assert(trace(e, d, names, token_is, children, pos, k) == trace(
                alternatives[w],
                way,
                names,
                token_is,
                children,
                pos,
                k,
            ));
            assert(walk_path(nodes, token_is, children, path, pos, k) == walk_path(
                nodes,
                token_is,
                children,
                onward,
                pos,
                k,
            ));
            d
        },
        Syntax::Repetition(body) => {
            let ways = lemma_rounds_traced(
                e,
                names,
                nodes,
                token_is,
                children,
                base,
                next,
                path,
                pos,
                k,
            );
            Shape::Repeat(ways)
        },
    }
}

/// The same for the members of a sequence: the walk passes from each to
/// the one behind it.
pub proof fn lemma_sequence_traced(
    members: Seq<Syntax>,
    names: Seq<Seq<char>>,
    nodes: Seq<Node>,
    token_is: TokenTest,
    children: Seq<Record>,
    base: nat,
    next: nat,
    path: Seq<StateId>,
    pos: nat,
    k: nat,
) -> (ways: Seq<Shape>)
    requires
        next <= usize::MAX,
        base + compile_sequence(members, names, base, next).nodes.len() <= usize::MAX,
        placed(nodes, base, compile_sequence(members, names, base, next).nodes),
        !inside(base, compile_sequence(members, names, base, next).nodes.len(), next as usize),
        path.len() > 0,
        path[0] == compile_sequence(members, names, base, next).start,
        path.last() == next,
        forall|i: int| 0 <= i < path.len() - 1 ==> #[trigger] path[i] != next,
        walk_path(nodes, token_is, children, path, pos, k) is Some,
    ensures
        ways.len() == members.len(),
        trace_members(members, ways, names, token_is, children, pos, k) == walk_path(
            nodes,
            token_is,
            children,
            path,
            pos,
            k,
        ),
    decreases members, path.len(), 0nat,
{
    let f = compile_sequence(members, names, base, next);
    if members.len() == 0 {
        assert(path.len() == 1) by {
            if path.len() > 1 {
                assert(path[0] != next);
            }
        }
        Seq::empty()
    } else {
        let rest = members.subrange(1, members.len() as int);
        let tail = compile_sequence(rest, names, base, next);
        let head_base = base + tail.nodes.len();
        let head = compile_expression(members[0], names, head_base, tail.start);
        lemma_sequence_local(rest, names, base, next);
        lemma_expression_local(members[0], names, head_base, tail.start);
        assert forall|i: int| 0 <= i < head.nodes.len() implies nodes[head_base + i]
            == #[trigger] head.nodes[i] by {
            assert(f.nodes[tail.nodes.len() + i] == head.nodes[i]);
            assert(nodes[base + (tail.nodes.len() + i)] == f.nodes[tail.nodes.len() + i]);
        }
        assert forall|i: int| 0 <= i < tail.nodes.len() implies nodes[base + i]
            == #[trigger] tail.nodes[i] by {
            assert(f.nodes[i] == tail.nodes[i]);
        }
        assert(!inside(head_base, head.nodes.len(), tail.start as usize));
        let at: int = if head.nodes.len() == 0 {
            0
        } else {
            lemma_first_exit(
                nodes,
                token_is,
                children,
                head.nodes,
                head_base,
                tail.start,
                path,
                pos,
                k,
            )
        };
        let front = path.subrange(0, at + 1);
        let back = path.subrange(at, path.len() as int);
        lemma_walk_cut(nodes, token_is, children, path, pos, k, at);
        assert(front[0] == path[0]);
        assert(front.last() == path[at]);
        assert forall|i: int| 0 <= i < front.len() - 1 implies #[trigger] front[i]
            != tail.start by {
            assert(front[i] == path[i]);
            assert(inside(head_base, head.nodes.len(), path[i]));
        }
        let way = lemma_expression_traced(
            members[0],
            names,
            nodes,
            token_is,
            children,
            head_base,
            tail.start,
            front,
            pos,
            k,
        );
        let reached = walk_path(nodes, token_is, children, front, pos, k)->Some_0;
        assert(back[0] == path[at]);
        assert(back.last() == path.last());
        assert forall|i: int| 0 <= i < back.len() - 1 implies #[trigger] back[i] != next by {
            assert(back[i] == path[at + i]);
        }
        let more = lemma_sequence_traced(
            rest,
            names,
            nodes,
            token_is,
            children,
            base,
            next,
            back,
            reached.0,
            reached.1,
        );
        let ways = seq![way] + more;
        assert(ways.subrange(1, ways.len() as int) =~= more);
        assert(ways[0] == way);
        ways
    }
}

/// The same for a repetition: the walk goes through the body once for
/// every time that it comes back to the choice point.
pub proof fn lemma_rounds_traced(
    e: Syntax,
    names: Seq<Seq<char>>,
    nodes: Seq<Node>,
    token_is: TokenTest,
    children: Seq<Record>,
    base: nat,
    next: nat,
    path: Seq<StateId>,
    pos: nat,
    k: nat,
) -> (ways: Seq<Shape>)
    requires
        e is Repetition,
        next <= usize::MAX,
        base + compile_expression(e, names, base, next).nodes.len() <= usize::MAX,
        placed(nodes, base, compile_expression(e, names, base, next).nodes),
        !inside(base, compile_expression(e, names, base, next).nodes.len(), next as usize),
        path.len() > 0,
        path[0] == base,
        path.last() == next,
        forall|i: int| 0 <= i < path.len() - 1 ==> #[trigger] path[i] != next,
        walk_path(nodes, token_is, children, path, pos, k) is Some,
    ensures
        trace_rounds(*e->Repetition_0, ways, names, token_is, children, pos, k) == walk_path(
            nodes,
            token_is,
            children,
            path,
            pos,
            k,
        ),
    decreases e, path.len(), 0nat,
{
    let f = compile_expression(e, names, base, next);
    match e {
        Syntax::Repetition(body) => {
            let inner = compile_expression(*body, names, base + 1, base);
            let split = f.nodes[0];
            assert(nodes[base as int] == split);
            assert(path.len() >= 2);
            let onward = path.subrange(1, path.len() as int);
            assert(split.transitions == seq![inner.start as usize, next as usize]);
            let w = choose|w: int|
                0 <= w < split.transitions.len() && split.transitions[w] == path[1];
            assert(split.transitions[w] == path[1]);
            lemma_expression_local(*body, names, base + 1, base);
            if path[1] == next {
                assert(path.len() == 2) by {
                    if path.len() > 2 {
                        assert(path[1] != next);
                    }
                }
                assert(onward.len() == 1);
                Seq::empty()
            } else {
                assert(path[1] == inner.start);
                assert forall|i: int| 0 <= i < inner.nodes.len() implies nodes[base + 1 + i]
                    == #[trigger] inner.nodes[i] by {
                    assert(f.nodes[1 + i] == inner.nodes[i]);
                    assert(nodes[base + (1 + i)] == f.nodes[1 + i]);
                }
                assert(onward[0] == path[1]);
                assert(onward.last() == path.last());
                let at: int = if inner.nodes.len() == 0 {
                    0
                } else {
                    lemma_first_exit(
                        nodes,
                        token_is,
                        children,
                        inner.nodes,
                        base + 1,
                        base,
                        onward,
                        pos,
                        k,
                    )
                };
                let front = onward.subrange(0, at + 1);
                let back = onward.subrange(at, onward.len() as int);
                lemma_walk_cut(nodes, token_is, children, onward, pos, k, at);
                assert(front[0] == onward[0]);
                assert(front.last() == onward[at]);
                assert forall|i: int| 0 <= i < front.len() - 1 implies #[trigger] front[i]
                    != base by {
                    assert(front[i] == onward[i]);
                    assert(inside(base + 1, inner.nodes.len(), onward[i]));
                }
                let way = lemma_expression_traced(
                    *body,
                    names,
                    nodes,
                    token_is,
                    children,
                    base + 1,
                    base,
                    front,
                    pos,
                    k,
                );
                let reached = walk_path(nodes, token_is, children, front, pos, k)->Some_0;
                assert(back[0] == onward[at]);
                assert(back.last() == path.last());
                assert forall|i: int| 0 <= i < back.len() - 1 implies #[trigger] back[i]
                    != next by {
                    assert(back[i] == path[1 + at + i]);
                }
                let more = lemma_rounds_traced(
                    e,
                    names,
                    nodes,
                    token_is,
                    children,
                    base,
                    next,
                    back,
                    reached.0,
                    reached.1,
                );
                let ways = seq![way] + more;
                assert(ways.subrange(1, ways.len() as int) =~= more);
                assert(ways[0] == way);
                ways
            }
        },
        _ => Seq::empty(),
    }
}

/// Two walks of which the second starts where the first ends make one
/// walk.
pub proof fn lemma_walk_joined(
    nodes: Seq<Node>,
    token_is: TokenTest,
    children: Seq<Record>,
    first: Seq<StateId>,
    second: Seq<StateId>,
    pos: nat,
    k: nat,
) -> (path: Seq<StateId>)
    requires
        first.len() > 0,
        second.len() > 0,
        first.last() == second[0],
    ensures
        path == first + second.subrange(1, second.len() as int),
        path[0] == first[0],
        path.last() == second.last(),
        walk_path(nodes, token_is, children, path, pos, k) == match walk_path(
            nodes,
            token_is,
            children,
            first,
            pos,
            k,
        ) {
            Some((mid, used)) => walk_path(nodes, token_is, children, second, mid, used),
            None => None,
        },
{
    let path = first + second.subrange(1, second.len() as int);
    let at = first.len() - 1;
    assert(path.subrange(0, at + 1) =~= first);
    assert(path.subrange(at, path.len() as int) =~= second);
    lemma_walk_cut(nodes, token_is, children, path, pos, k, at);
    path
}

/// Every way of matching a body has a walk through its states, from its
/// start to its successor, that matches the same tokens and calls the same
/// rules: the lemma hands that walk back.
pub proof fn lemma_expression_walked(
    e: Syntax,
    d: Shape,
    names: Seq<Seq<char>>,
    nodes: Seq<Node>,
    token_is: TokenTest,
    children: Seq<Record>,
    base: nat,
    next: nat,
    pos: nat,
    k: nat,
) -> (path: Seq<StateId>)
    requires
        next <= usize::MAX,
        base + compile_expression(e, names, base, next).nodes.len() <= usize::MAX,
        placed(nodes, base, compile_expression(e, names, base, next).nodes),
        trace(e, d, names, token_is, children, pos, k) is Some,
    ensures
        path.len() > 0,
        path[0] == compile_expression(e, names, base, next).start,
        path.last() == next,
        walk_path(nodes, token_is, children, path, pos, k) == trace(
            e,
            d,
            names,
            token_is,
            children,
            pos,
            k,
        ),
    decreases d,
{
    let f = compile_expression(e, names, base, next);
    match e {
        Syntax::Symbol(name) => {
            lemma_rule_index(names, name);
            assert(nodes[base as int] == f.nodes[0]);
            let path = seq![base as usize, next as usize];
            let onward = path.subrange(1, path.len() as int);
            assert(onward.len() == 1);
            match rule_index(names, name) {
                Some(rule) => {
                    assert(walk_path(
                        nodes,
                        token_is,
                        children,
                        onward,
                        children[k as int].end,
                        k + 1,
                    ) == Some((children[k as int].end, k + 1)));
                },
                None => {
                    assert(walk_path(nodes, token_is, children, onward, pos + 1, k) == Some(
                        (pos + 1, k),
                    ));
                },
            }
            path
        },
        Syntax::Sequence(members) => {
            match d {
                Shape::Sequence(ways) => lemma_sequence_walked(
                    members,
                    ways,
                    names,
                    nodes,
                    token_is,
                    children,
                    base,
                    next,
                    pos,
                    k,
                ),
                _ => Seq::empty(),
            }
        },
        Syntax::Alternation(alternatives) => {
            match d {
                Shape::Choice(i, way) => {
                    let (parts, starts) = compile_alternatives(alternatives, names, base, next);
                    let split = f.nodes[parts.len() as int];
                    assert(nodes[(base + parts.len()) as int] == split);
                    assert(split.transitions == starts);
                    lemma_alternatives_counted(alternatives, names, base, next);
                    let offset = lemma_alternative_placed(
                        alternatives,
                        names,
                        base,
                        next,
                        i as int,
                    );
                    let part = compile_expression(alternatives[i as int], names, base + offset, next);
                    assert forall|j: int| 0 <= j < part.nodes.len() implies nodes[base + offset + j]
                        == #[trigger] part.nodes[j] by {
                        assert(parts[offset + j] == part.nodes[j]);
                        assert(f.nodes[offset + j] == parts[offset + j]);
                        assert(nodes[base + (offset + j)] == f.nodes[offset + j]);
                    }
                    lemma_expression_local(alternatives[i as int], names, base + offset, next);
                    let onward = lemma_expression_walked(
                        alternatives[i as int],
                        *way,
                        names,
                        nodes,
                        token_is,
                        children,
                        base + offset,
                        next,
                        pos,
                        k,
                    );
                    let path = seq![(base + parts.len()) as usize] + onward;
                    assert(path.subrange(1, path.len() as int) =~= onward);
                    assert(path[1] == onward[0]);
                    assert(starts[i as int] == onward[0]);
                    assert(walk_path(nodes, token_is, children, path, pos, k) == walk_path(
                        nodes,
                        token_is,
                        children,
                        onward,
                        pos,
                        k,
                    ));
                    path
                },
                _ => Seq::empty(),
            }
        },
        Syntax::Repetition(body) => {
            match d {
                Shape::Repeat(ways) => lemma_rounds_walked(
                    e,
                    ways,
                    names,
                    nodes,
                    token_is,
                    children,
                    base,
                    next,
                    pos,
                    k,
                ),
                _ => Seq::empty(),
            }
        },
    }
}

/// The same for the members of a sequence.
pub proof fn lemma_sequence_walked(
    members: Seq<Syntax>,
    ways: Seq<Shape>,
    names: Seq<Seq<char>>,
    nodes: Seq<Node>,
    token_is: TokenTest,
    children: Seq<Record>,
    base: nat,
    next: nat,
    pos: nat,
    k: nat,
) -> (path: Seq<StateId>)
    requires
        next <= usize::MAX,
        base + compile_sequence(members, names, base, next).nodes.len() <= usize::MAX,
        placed(nodes, base, compile_sequence(members, names, base, next).nodes),
        trace_members(members, ways, names, token_is, children, pos, k) is Some,
    ensures
        path.len() > 0,
        path[0] == compile_sequence(members, names, base, next).start,
        path.last() == next,
        walk_path(nodes, token_is, children, path, pos, k) == trace_members(
            members,
            ways,
            names,
            token_is,
            children,
            pos,
            k,
        ),
    decreases ways,
{
    let f = compile_sequence(members, names, base, next);
    if members.len() == 0 {
        seq![next as usize]
    } else {
        let rest = members.subrange(1, members.len() as int);
        let tail = compile_sequence(rest, names, base, next);
        let head_base = base + tail.nodes.len();
        let head = compile_expression(members[0], names, head_base, tail.start);
        lemma_sequence_local(rest, names, base, next);
        assert forall|i: int| 0 <= i < head.nodes.len() implies nodes[head_base + i]
            == #[trigger] head.nodes[i] by {
            assert(f.nodes[tail.nodes.len() + i] == head.nodes[i]);
            assert(nodes[base + (tail.nodes.len() + i)] == f.nodes[tail.nodes.len() + i]);
        }
        assert forall|i: int| 0 <= i < tail.nodes.len() implies nodes[base + i]
            == #[trigger] tail.nodes[i] by {
            assert(f.nodes[i] == tail.nodes[i]);
        }
        let first = lemma_expression_walked(
            members[0],
            ways[0],
            names,
            nodes,
            token_is,
            children,
            head_base,
            tail.start,
            pos,
            k,
        );
        let reached = trace(members[0], ways[0], names, token_is, children, pos, k)->Some_0;
        let second = lemma_sequence_walked(
            rest,
            ways.subrange(1, ways.len() as int),
            names,
            nodes,
            token_is,
            children,
            base,
            next,
            reached.0,
            reached.1,
        );
        lemma_walk_joined(nodes, token_is, children, first, second, pos, k)
    }
}

/// The same for a repetition: the walk goes through the body once for
/// every way, and comes back to the choice point after each.
pub proof fn lemma_rounds_walked(
    e: Syntax,
    ways: Seq<Shape>,
    names: Seq<Seq<char>>,
    nodes: Seq<Node>,
    token_is: TokenTest,
    children: Seq<Record>,
    base: nat,
    next: nat,
    pos: nat,
    k: nat,
) -> (path: Seq<StateId>)
    requires
        e is Repetition,
        next <= usize::MAX,
        base + compile_expression(e, names, base, next).nodes.len() <= usize::MAX,
        placed(nodes, base, compile_expression(e, names, base, next).nodes),
        trace_rounds(*e->Repetition_0, ways, names, token_is, children, pos, k) is Some,
    ensures
        path.len() > 0,
        path[0] == base,
        path.last() == next,
        walk_path(nodes, token_is, children, path, pos, k) == trace_rounds(
            *e->Repetition_0,
            ways,
            names,
            token_is,
            children,
            pos,
            k,
        ),
    decreases ways,
{
    let f = compile_expression(e, names, base, next);
    match e {
        Syntax::Repetition(body) => {
            let inner = compile_expression(*body, names, base + 1, base);
            let split = f.nodes[0];
            assert(nodes[base as int] == split);
            assert(split.transitions == seq![inner.start as usize, next as usize]);
            lemma_expression_local(*body, names, base + 1, base);
            if ways.len() == 0 {
                let path = seq![base as usize, next as usize];
                let onward = path.subrange(1, path.len() as int);
                assert(onward.len() == 1);
                assert(split.transitions[1] == path[1]);
                assert(walk_path(nodes, token_is, children, onward, pos, k) == Some((pos, k)));
                path
            } else {
                assert forall|i: int| 0 <= i < inner.nodes.len() implies nodes[base + 1 + i]
                    == #[trigger] inner.nodes[i] by {
                    assert(f.nodes[1 + i] == inner.nodes[i]);
                    assert(nodes[base + (1 + i)] == f.nodes[1 + i]);
                }
                let first = lemma_expression_walked(
                    *body,
                    ways[0],
                    names,
                    nodes,
                    token_is,
                    children,
                    base + 1,
                    base,
                    pos,
                    k,
                );
                let reached = trace(*body, ways[0], names, token_is, children, pos, k)->Some_0;
                let second = lemma_rounds_walked(
                    e,
                    ways.subrange(1, ways.len() as int),
                    names,
                    nodes,
                    token_is,
                    children,
                    base,
                    next,
                    reached.0,
                    reached.1,
                );
                let round = lemma_walk_joined(nodes, token_is, children, first, second, pos, k);
                let path = seq![base as usize] + round;
                assert(path.subrange(1, path.len() as int) =~= round);
                assert(path[1] == round[0]);
                assert(split.transitions[0] == path[1]);
                assert(walk_path(nodes, token_is, children, path, pos, k) == walk_path(
                    nodes,
                    token_is,
                    children,
                    round,
                    pos,
                    k,
                ));
                path
            }
        },
        _ => Seq::empty(),
    }
}

} // verus!
