//! The compiled states lead round in circles only where the rules do: a way
//! round without a token passes through calls, and then the rules call each
//! other first in a circle, or it stays inside one rule, and then that rule
//! holds a repetition whose body may match nothing.
use crate::bnf_rules_compiler::{
    blueprint, compile_rules, outline_of, realized, realizes, rule_names_of, Blueprint, RuleId,
    StateId, StateManager,
};
use crate::grammatical::{lemma_rule_placed, lemma_rules_counted, rule_base};
use crate::grammar_text::RuleSyntax;
use crate::left_recursion::{calls_first, is_cycle, left_calls};
use crate::progress::{idle_graph, idle_steps};
use crate::state_machine::{StateAction, TokenType};
use crate::empty_matches::{
    all_may_skip, any_idles, any_may_skip, first_idle_rule, idles, lemma_matches_nothing_settled,
    matches_nothing, may_skip, rule_idles,
};
use crate::grammar_text::Syntax;
use crate::graph_paths::{
    calls_at, inside, leads, lemma_alternatives_local, lemma_expression_local,
    lemma_sequence_local, local, node_local, placed, walk_path, TokenTest,
};
use crate::left_recursion::{first_calls, first_calls_of_alternatives, first_calls_of_sequence};
use crate::match_record::Record;
use crate::rule_graph::{
    compile_alternatives, compile_expression, compile_sequence, lemma_rule_index, rule_index, Node,
    NodeAction,
};
use crate::rule_meaning::{
    lemma_alternative_placed, lemma_alternatives_counted, lemma_expression_traced, trace,
    trace_members, trace_rounds, Shape,
};
use vstd::prelude::*;

verus! {

/// From state `s` the engine may go on to state `t` without a token and
/// without entering a rule: `t` is a transition of the choice point `s`, or
/// the state behind the call `s` of a rule that may match nothing.
pub open spec fn inner_step(nodes: Seq<Node>, empty: Seq<bool>, s: StateId, t: StateId) -> bool {
    s < nodes.len() && match nodes[s as int].action {
        NodeAction::Split => nodes[s as int].transitions.contains(t),
        NodeAction::Call(callee, resume) => callee < empty.len() && empty[callee as int] && t
            == resume,
        _ => false,
    }
}

/// Every state of `path` but the last leads on to the next by such a step.
pub open spec fn inner_path(nodes: Seq<Node>, empty: Seq<bool>, path: Seq<StateId>) -> bool {
    &&& path.len() > 0
    &&& forall|i: int|
        0 <= i < path.len() - 1 ==> inner_step(nodes, empty, #[trigger] path[i], path[i + 1])
}

/// The test that no token passes.
pub open spec fn never() -> TokenTest {
    |pos: nat, name: Seq<char>| false
}

/// The calls on a path, each as a record that matches nothing.
pub open spec fn calls_on(nodes: Seq<Node>, path: Seq<StateId>) -> Seq<Record>
    decreases path.len(),
{
    if path.len() <= 1 {
        Seq::empty()
    } else {
        let rest = calls_on(nodes, path.subrange(1, path.len() as int));
        match nodes[path[0] as int].action {
            NodeAction::Call(callee, _) => seq![
                Record { rule: callee, start: 0, end: 0, children: Seq::empty() },
            ] + rest,
            _ => rest,
        }
    }
}

/// All of `children` are records of rules that may match nothing.
pub open spec fn all_empty(children: Seq<Record>, empty: Seq<bool>) -> bool {
    forall|i: int|
        0 <= i < children.len() ==> (#[trigger] children[i]).rule < empty.len()
            && empty[children[i].rule as int]
}

/// A part of a path of inner steps is one.
pub proof fn lemma_inner_part(
    nodes: Seq<Node>,
    empty: Seq<bool>,
    path: Seq<StateId>,
    from: int,
    to: int,
)
    requires
        inner_path(nodes, empty, path),
        0 <= from < to <= path.len(),
    ensures
        inner_path(nodes, empty, path.subrange(from, to)),
{
    let part = path.subrange(from, to);
    assert forall|i: int| 0 <= i < part.len() - 1 implies inner_step(
        nodes,
        empty,
        #[trigger] part[i],
        part[i + 1],
    ) by {
        assert(inner_step(nodes, empty, path[from + i], path[from + i + 1]));
    }
}

/// A path of inner steps is a walk on which no token is matched and every
/// call is one of a rule that matches nothing.
pub proof fn lemma_inner_walk(
    nodes: Seq<Node>,
    empty: Seq<bool>,
    path: Seq<StateId>,
    before: Seq<Record>,
)
    requires
        inner_path(nodes, empty, path),
        all_empty(before, empty),
    ensures
        walk_path(nodes, never(), before + calls_on(nodes, path), path, 0, before.len()) == Some(
            (0nat, before.len() + calls_on(nodes, path).len()),
        ),
        all_empty(before + calls_on(nodes, path), empty),
    decreases path.len(),
{
    let children = before + calls_on(nodes, path);
    if path.len() > 1 {
        let onward = path.subrange(1, path.len() as int);
        lemma_inner_part(nodes, empty, path, 1, path.len() as int);
        assert(inner_step(nodes, empty, path[0], path[1]));
        assert(onward[0] == path[1]);
        match nodes[path[0] as int].action {
            NodeAction::Call(callee, resume) => {
                let record = Record { rule: callee, start: 0, end: 0, children: Seq::empty() };
                let more = before.push(record);
                assert forall|i: int| 0 <= i < more.len() implies (#[trigger] more[i]).rule
                    < empty.len() && empty[more[i].rule as int] by {
                    if i < before.len() {
                        assert(more[i] == before[i]);
                    }
                }
                lemma_inner_walk(nodes, empty, onward, more);
                assert(more + calls_on(nodes, onward) =~= children);
                assert(children[before.len() as int] == record);
            },
            _ => {
                lemma_inner_walk(nodes, empty, onward, before);
            },
        }
    } else {
        assert(children =~= before);
    }
}

/// A match without a token, on which every call is one of a rule that may
/// match nothing, is a match of something that may match nothing.
pub proof fn lemma_idle_trace_skips(
    e: Syntax,
    d: Shape,
    names: Seq<Seq<char>>,
    empty: Seq<bool>,
    children: Seq<Record>,
    pos: nat,
    k: nat,
)
    requires
        all_empty(children, empty),
        names.len() <= usize::MAX,
        trace(e, d, names, never(), children, pos, k) is Some,
    ensures
        may_skip(e, names, empty),
    decreases d,
{
    match e {
        Syntax::Symbol(name) => {
            lemma_rule_index(names, name);
        },
        Syntax::Sequence(members) => {
            match d {
                Shape::Sequence(ways) => {
                    lemma_idle_members_skip(members, ways, names, empty, children, pos, k);
                },
                _ => {},
            }
        },
        Syntax::Alternation(alternatives) => {
            match d {
                Shape::Choice(i, way) => {
                    lemma_idle_trace_skips(
                        alternatives[i as int],
                        *way,
                        names,
                        empty,
                        children,
                        pos,
                        k,
                    );
                    lemma_any_skips(alternatives, names, empty, i as int);
                },
                _ => {},
            }
        },
        Syntax::Repetition(_) => {},
    }
}

proof fn lemma_idle_members_skip(
    members: Seq<Syntax>,
    ways: Seq<Shape>,
    names: Seq<Seq<char>>,
    empty: Seq<bool>,
    children: Seq<Record>,
    pos: nat,
    k: nat,
)
    requires
        all_empty(children, empty),
        names.len() <= usize::MAX,
        trace_members(members, ways, names, never(), children, pos, k) is Some,
    ensures
        all_may_skip(members, names, empty),
    decreases ways,
{
    if ways.len() > 0 {
        lemma_idle_trace_skips(members[0], ways[0], names, empty, children, pos, k);
        let reached = trace(members[0], ways[0], names, never(), children, pos, k)->Some_0;
        lemma_idle_members_skip(
            members.subrange(1, members.len() as int),
            ways.subrange(1, ways.len() as int),
            names,
            empty,
            children,
            reached.0,
            reached.1,
        );
    }
}

/// One alternative that may match nothing makes the choice one that may.
pub proof fn lemma_any_skips(
    alternatives: Seq<Syntax>,
    names: Seq<Seq<char>>,
    empty: Seq<bool>,
    i: int,
)
    requires
        0 <= i < alternatives.len(),
        may_skip(alternatives[i], names, empty),
    ensures
        any_may_skip(alternatives, names, empty),
    decreases alternatives.len(),
{
    if i < alternatives.len() - 1 {
        lemma_any_skips(alternatives.drop_last(), names, empty, i);
    }
}

/// A path of inner steps that starts among the states of a body stays
/// among them or leaves them for the body's successor: the lemma hands back
/// the first place at which it does, or the length of the path where it
/// stays.
pub proof fn lemma_leaves_or_stays(
    nodes: Seq<Node>,
    empty: Seq<bool>,
    part: Seq<Node>,
    base: nat,
    next: nat,
    path: Seq<StateId>,
) -> (at: int)
    requires
        placed(nodes, base, part),
        local(part, base, next),
        next <= usize::MAX,
        inner_path(nodes, empty, path),
        inside(base, part.len(), path[0]),
    ensures
        0 < at <= path.len(),
        forall|i: int| 0 <= i < at ==> inside(base, part.len(), #[trigger] path[i]),
        at < path.len() ==> path[at] == next,
    decreases path.len(),
{
    if path.len() == 1 {
        1
    } else {
        let node = nodes[path[0] as int];
        assert(node == part[path[0] - base]);
        assert(node_local(node, base, part.len(), next));
        assert(inner_step(nodes, empty, path[0], path[1]));
        assert(leads(node, path[1]));
        if inside(base, part.len(), path[1]) {
            let onward = path.subrange(1, path.len() as int);
            lemma_inner_part(nodes, empty, path, 1, path.len() as int);
            let at = lemma_leaves_or_stays(nodes, empty, part, base, next, onward);
            assert forall|i: int| 0 <= i < at + 1 implies inside(
                base,
                part.len(),
                #[trigger] path[i],
            ) by {
                if i > 0 {
                    assert(path[i] == onward[i - 1]);
                }
            }
            if at < onward.len() {
                assert(path[at + 1] == onward[at]);
            }
            at + 1
        } else {
            1
        }
    }
}

/// A path of inner steps through the states of a body, from its start to
/// its successor, shows that the body may match nothing.
pub proof fn lemma_inner_walk_skips(
    e: Syntax,
    names: Seq<Seq<char>>,
    empty: Seq<bool>,
    nodes: Seq<Node>,
    base: nat,
    next: nat,
    path: Seq<StateId>,
)
    requires
        next <= usize::MAX,
        names.len() <= usize::MAX,
        base + compile_expression(e, names, base, next).nodes.len() <= usize::MAX,
        placed(nodes, base, compile_expression(e, names, base, next).nodes),
        !inside(base, compile_expression(e, names, base, next).nodes.len(), next as usize),
        inner_path(nodes, empty, path),
        path[0] == compile_expression(e, names, base, next).start,
        path.last() == next,
        forall|i: int| 0 <= i < path.len() - 1 ==> #[trigger] path[i] != next,
    ensures
        may_skip(e, names, empty),
{
    lemma_inner_walk(nodes, empty, path, Seq::empty());
    let children = Seq::<Record>::empty() + calls_on(nodes, path);
    let way = lemma_expression_traced(e, names, nodes, never(), children, base, next, path, 0, 0);
    lemma_idle_trace_skips(e, way, names, empty, children, 0, 0);
}

/// A body without states may match nothing.
pub proof fn lemma_no_states_skips(
    e: Syntax,
    names: Seq<Seq<char>>,
    empty: Seq<bool>,
    nodes: Seq<Node>,
    base: nat,
    next: nat,
)
    requires
        next <= usize::MAX,
        names.len() <= usize::MAX,
        base <= usize::MAX,
        compile_expression(e, names, base, next).nodes.len() == 0,
        base <= nodes.len(),
    ensures
        may_skip(e, names, empty),
{
    lemma_expression_local(e, names, base, next);
    let path = seq![next as usize];
    lemma_inner_walk_skips(e, names, empty, nodes, base, next, path);
}

/// What is among the first calls of an alternative is among those of the
/// choice.
pub proof fn lemma_alternative_calls(
    alternatives: Seq<Syntax>,
    names: Seq<Seq<char>>,
    empty: Seq<bool>,
    w: int,
    rule: usize,
)
    requires
        0 <= w < alternatives.len(),
        first_calls(alternatives[w], names, empty).contains(rule),
    ensures
        first_calls_of_alternatives(alternatives, names, empty).contains(rule),
    decreases alternatives.len(),
{
    let before = first_calls_of_alternatives(alternatives.drop_last(), names, empty);
    let last = first_calls(alternatives.last(), names, empty);
    if w < alternatives.len() - 1 {
        lemma_alternative_calls(alternatives.drop_last(), names, empty, w, rule);
        let i = choose|i: int| 0 <= i < before.len() && before[i] == rule;
        assert((before + last)[i] == rule);
    } else {
        let i = choose|i: int| 0 <= i < last.len() && last[i] == rule;
        assert((before + last)[before.len() + i] == rule);
    }
}

/// A part that holds an idle repetition makes the whole hold one.
pub proof fn lemma_any_idles_at(
    parts: Seq<Syntax>,
    names: Seq<Seq<char>>,
    empty: Seq<bool>,
    i: int,
)
    requires
        0 <= i < parts.len(),
        idles(parts[i], names, empty),
    ensures
        any_idles(parts, names, empty),
    decreases parts.len(),
{
    if i < parts.len() - 1 {
        lemma_any_idles_at(parts.drop_last(), names, empty, i);
    }
}

/// A path of inner steps from the start of a body to a call, which stays
/// among the states of the body, shows that the call is one of the first
/// calls of the body.
pub proof fn lemma_first_call_reached(
    e: Syntax,
    names: Seq<Seq<char>>,
    empty: Seq<bool>,
    nodes: Seq<Node>,
    base: nat,
    next: nat,
    path: Seq<StateId>,
)
    requires
        next <= usize::MAX,
        names.len() <= usize::MAX,
        base + compile_expression(e, names, base, next).nodes.len() <= usize::MAX,
        placed(nodes, base, compile_expression(e, names, base, next).nodes),
        !inside(base, compile_expression(e, names, base, next).nodes.len(), next as usize),
        inner_path(nodes, empty, path),
        path[0] == compile_expression(e, names, base, next).start,
        forall|i: int|
            0 <= i < path.len() ==> inside(
                base,
                compile_expression(e, names, base, next).nodes.len(),
                #[trigger] path[i],
            ),
        nodes[path.last() as int].action is Call,
    ensures
        first_calls(e, names, empty).contains(nodes[path.last() as int].action->Call_0),
    decreases e, path.len(), 1nat,
{
    let f = compile_expression(e, names, base, next);
    let called = nodes[path.last() as int].action->Call_0;
    assert(inside(base, f.nodes.len(), path[0]));
    match e {
        Syntax::Symbol(name) => {
            lemma_rule_index(names, name);
            assert(nodes[base as int] == f.nodes[0]);
            if path.len() > 1 {
                assert(inner_step(nodes, empty, path[0], path[1]));
                assert(inside(base, f.nodes.len(), path[1]));
            }
            assert(path.last() == base);
            let calls = first_calls(e, names, empty);
            assert(calls[0] == called);
        },
        Syntax::Sequence(members) => {
            lemma_first_call_in_sequence(members, names, empty, nodes, base, next, path);
        },
        Syntax::Alternation(alternatives) => {
            let (parts, starts) = compile_alternatives(alternatives, names, base, next);
            let split = f.nodes[parts.len() as int];
            assert(nodes[(base + parts.len()) as int] == split);
            assert(path[0] == base + parts.len());
            assert(path.len() >= 2);
            assert(inner_step(nodes, empty, path[0], path[1]));
            assert(split.transitions == starts);
            let w = choose|w: int| 0 <= w < starts.len() && starts[w] == path[1];
            lemma_alternatives_counted(alternatives, names, base, next);
            let offset = lemma_alternative_placed(alternatives, names, base, next, w);
            let part = compile_expression(alternatives[w], names, base + offset, next);
            assert forall|i: int| 0 <= i < part.nodes.len() implies nodes[base + offset + i]
                == #[trigger] part.nodes[i] by {
                assert(parts[offset + i] == part.nodes[i]);
                assert(f.nodes[offset + i] == parts[offset + i]);
                assert(nodes[base + (offset + i)] == f.nodes[offset + i]);
            }
            lemma_expression_local(alternatives[w], names, base + offset, next);
            let onward = path.subrange(1, path.len() as int);
            lemma_inner_part(nodes, empty, path, 1, path.len() as int);
            assert(onward[0] == path[1]);
            assert(inside(base, f.nodes.len(), path[1]));
            assert(onward.last() == path.last());
            let at = lemma_leaves_or_stays(nodes, empty, part.nodes, base + offset, next, onward);
            if at < onward.len() {
                assert(onward[at] == path[at + 1]);
                assert(inside(base, f.nodes.len(), path[at + 1]));
            }
            lemma_first_call_reached(
                alternatives[w],
                names,
                empty,
                nodes,
                base + offset,
                next,
                onward,
            );
            lemma_alternative_calls(alternatives, names, empty, w, called);
        },
        Syntax::Repetition(body) => {
            lemma_first_call_in_rounds(e, names, empty, nodes, base, next, path);
        },
    }
}

/// The same for the members of a sequence.
pub proof fn lemma_first_call_in_sequence(
    members: Seq<Syntax>,
    names: Seq<Seq<char>>,
    empty: Seq<bool>,
    nodes: Seq<Node>,
    base: nat,
    next: nat,
    path: Seq<StateId>,
)
    requires
        next <= usize::MAX,
        names.len() <= usize::MAX,
        base + compile_sequence(members, names, base, next).nodes.len() <= usize::MAX,
        placed(nodes, base, compile_sequence(members, names, base, next).nodes),
        !inside(base, compile_sequence(members, names, base, next).nodes.len(), next as usize),
        inner_path(nodes, empty, path),
        path[0] == compile_sequence(members, names, base, next).start,
        forall|i: int|
            0 <= i < path.len() ==> inside(
                base,
                compile_sequence(members, names, base, next).nodes.len(),
                #[trigger] path[i],
            ),
        nodes[path.last() as int].action is Call,
    ensures
        first_calls_of_sequence(members, names, empty).contains(
            nodes[path.last() as int].action->Call_0,
        ),
    decreases members, path.len(), 0nat,
{
    let f = compile_sequence(members, names, base, next);
    let called = nodes[path.last() as int].action->Call_0;
    assert(inside(base, f.nodes.len(), path[0]));
    let rest = members.subrange(1, members.len() as int);
    let tail = compile_sequence(rest, names, base, next);
    let head_base = base + tail.nodes.len();
    let head = compile_expression(members[0], names, head_base, tail.start);
    lemma_sequence_local(rest, names, base, next);
    lemma_expression_local(members[0], names, head_base, tail.start);
    assert forall|i: int| 0 <= i < head.nodes.len() implies nodes[head_base + i]
        == #[trigger] head.nodes[i] by {
        assert(f.nodes[tail.nodes.len() + i] == head.nodes[i]);
        assert(nodes[base + (tail.nodes.len() + i)] == f.nodes[tail.nodes.len() + i]);
    }
    assert forall|i: int| 0 <= i < tail.nodes.len() implies nodes[base + i]
        == #[trigger] tail.nodes[i] by {
        assert(f.nodes[i] == tail.nodes[i]);
    }
    let first = first_calls(members[0], names, empty);
    let more = first_calls_of_sequence(rest, names, empty);
    let at: int = if head.nodes.len() == 0 {
        lemma_no_states_skips(members[0], names, empty, nodes, head_base, tail.start);
        0
    } else {
        lemma_leaves_or_stays(nodes, empty, head.nodes, head_base, tail.start, path)
    };
    if at == path.len() {
        lemma_first_call_reached(members[0], names, empty, nodes, head_base, tail.start, path);
        let i = choose|i: int| 0 <= i < first.len() && first[i] == called;
        assert((first + more)[i] == called);
    } else {
        if head.nodes.len() > 0 {
            let front = path.subrange(0, at + 1);
            lemma_inner_part(nodes, empty, path, 0, at + 1);
            assert(front.last() == path[at]);
            assert(front[0] == path[0]);
            assert forall|i: int| 0 <= i < front.len() - 1 implies #[trigger] front[i]
                != tail.start by {
                assert(front[i] == path[i]);
                assert(inside(head_base, head.nodes.len(), path[i]));
            }
            lemma_inner_walk_skips(members[0], names, empty, nodes, head_base, tail.start, front);
        }
        let back = path.subrange(at, path.len() as int);
        lemma_inner_part(nodes, empty, path, at, path.len() as int);
        assert(back[0] == path[at]);
        assert(inside(base, f.nodes.len(), path[at]));
        assert(back.last() == path.last());
        let stay = lemma_leaves_or_stays(nodes, empty, tail.nodes, base, next, back);
        if stay < back.len() {
            assert(back[stay] == path[at + stay]);
            assert(inside(base, f.nodes.len(), path[at + stay]));
        }
        lemma_first_call_in_sequence(rest, names, empty, nodes, base, next, back);
        let i = choose|i: int| 0 <= i < more.len() && more[i] == called;
        assert((first + more)[first.len() + i] == called);
    }
}

/// The same for a repetition, round after round.
pub proof fn lemma_first_call_in_rounds(
    e: Syntax,
    names: Seq<Seq<char>>,
    empty: Seq<bool>,
    nodes: Seq<Node>,
    base: nat,
    next: nat,
    path: Seq<StateId>,
)
    requires
        e is Repetition,
        next <= usize::MAX,
        names.len() <= usize::MAX,
        base + compile_expression(e, names, base, next).nodes.len() <= usize::MAX,
        placed(nodes, base, compile_expression(e, names, base, next).nodes),
        !inside(base, compile_expression(e, names, base, next).nodes.len(), next as usize),
        inner_path(nodes, empty, path),
        path[0] == base,
        forall|i: int|
            0 <= i < path.len() ==> inside(
                base,
                compile_expression(e, names, base, next).nodes.len(),
                #[trigger] path[i],
            ),
        nodes[path.last() as int].action is Call,
    ensures
        first_calls(e, names, empty).contains(nodes[path.last() as int].action->Call_0),
    decreases e, path.len(), 0nat,
{
    let f = compile_expression(e, names, base, next);
    match e {
        Syntax::Repetition(body) => {
            let inner = compile_expression(*body, names, base + 1, base);
            let split = f.nodes[0];
            assert(nodes[base as int] == split);
            assert(split.transitions == seq![inner.start as usize, next as usize]);
            assert(path.len() >= 2);
            assert(inner_step(nodes, empty, path[0], path[1]));
            let w = choose|w: int|
                0 <= w < split.transitions.len() && split.transitions[w] == path[1];
            assert(split.transitions[w] == path[1]);
            assert(inside(base, f.nodes.len(), path[1]));
            lemma_expression_local(*body, names, base + 1, base);
            assert(path[1] == inner.start);
            assert forall|i: int| 0 <= i < inner.nodes.len() implies nodes[base + 1 + i]
                == #[trigger] inner.nodes[i] by {
                assert(f.nodes[1 + i] == inner.nodes[i]);
                assert(nodes[base + (1 + i)] == f.nodes[1 + i]);
            }
            let onward = path.subrange(1, path.len() as int);
            lemma_inner_part(nodes, empty, path, 1, path.len() as int);
            assert(onward[0] == path[1]);
            assert(onward.last() == path.last());
            assert forall|i: int| 0 <= i < onward.len() implies inside(
                base,
                f.nodes.len(),
                #[trigger] onward[i],
            ) by {
                assert(onward[i] == path[i + 1]);
            }
            let at: int = if inner.nodes.len() == 0 {
                0
            } else {
                lemma_leaves_or_stays(nodes, empty, inner.nodes, base + 1, base, onward)
            };
            if at == onward.len() {
                lemma_first_call_reached(*body, names, empty, nodes, base + 1, base, onward);
            } else {
                let back = onward.subrange(at, onward.len() as int);
                lemma_inner_part(nodes, empty, onward, at, onward.len() as int);
                assert(back[0] == onward[at]);
                assert(back.last() == onward.last());
                assert forall|i: int| 0 <= i < back.len() implies inside(
                    base,
                    f.nodes.len(),
                    #[trigger] back[i],
                ) by {
                    assert(back[i] == onward[at + i]);
                }
                lemma_first_call_in_rounds(e, names, empty, nodes, base, next, back);
            }
        },
        _ => {},
    }
}

/// `path` is a way round: a path of inner steps that ends where it starts.
pub open spec fn inner_circle(nodes: Seq<Node>, empty: Seq<bool>, path: Seq<StateId>) -> bool {
    inner_path(nodes, empty, path) && path.len() >= 2 && path[0] == path.last()
}

/// A way round can be started from any of its states.
pub proof fn lemma_turned(nodes: Seq<Node>, empty: Seq<bool>, path: Seq<StateId>, j: int) -> (turned:
    Seq<StateId>)
    requires
        inner_circle(nodes, empty, path),
        0 <= j < path.len(),
    ensures
        inner_circle(nodes, empty, turned),
        turned[0] == path[j],
        turned.len() == path.len(),
        forall|i: int|
            0 <= i < turned.len() ==> exists|m: int|
                0 <= m < path.len() && path[m] == #[trigger] turned[i],
{
    let turned = path.subrange(j, path.len() as int) + path.subrange(1, j + 1);
    let n = path.len() as int;
    assert forall|i: int| 0 <= i < turned.len() - 1 implies inner_step(
        nodes,
        empty,
        #[trigger] turned[i],
        turned[i + 1],
    ) by {
        if i < n - j - 1 {
            assert(inner_step(nodes, empty, path[j + i], path[j + i + 1]));
        } else if i == n - j - 1 {
            assert(turned[i] == path[n - 1]);
            assert(turned[i + 1] == path[1]);
            assert(inner_step(nodes, empty, path[0], path[1]));
        } else {
            let m = i - (n - j) + 1;
            assert(turned[i] == path[m]);
            assert(turned[i + 1] == path[m + 1]);
            assert(inner_step(nodes, empty, path[m], path[m + 1]));
        }
    }
    assert forall|i: int| 0 <= i < turned.len() implies exists|m: int|
        0 <= m < path.len() && path[m] == #[trigger] turned[i] by {
        if i < n - j {
            assert(path[j + i] == turned[i]);
        } else {
            assert(path[i - (n - j) + 1] == turned[i]);
        }
    }
    if j == 0 {
        assert(turned.last() == path[n - 1]);
    } else {
        assert(turned.last() == path[j]);
    }
    turned
}

/// A way round among the states of a body shows that the body holds a
/// repetition whose body may match nothing.
pub proof fn lemma_circle_idles(
    e: Syntax,
    names: Seq<Seq<char>>,
    empty: Seq<bool>,
    nodes: Seq<Node>,
    base: nat,
    next: nat,
    path: Seq<StateId>,
)
    requires
        next <= usize::MAX,
        names.len() <= usize::MAX,
        base + compile_expression(e, names, base, next).nodes.len() <= usize::MAX,
        placed(nodes, base, compile_expression(e, names, base, next).nodes),
        !inside(base, compile_expression(e, names, base, next).nodes.len(), next as usize),
        inner_circle(nodes, empty, path),
        forall|i: int|
            0 <= i < path.len() ==> inside(
                base,
                compile_expression(e, names, base, next).nodes.len(),
                #[trigger] path[i],
            ),
    ensures
        idles(e, names, empty),
    decreases e, 1nat,
{
    let f = compile_expression(e, names, base, next);
    assert(inside(base, f.nodes.len(), path[0]));
    assert(inside(base, f.nodes.len(), path[1]));
    assert(inner_step(nodes, empty, path[0], path[1]));
    match e {
        Syntax::Symbol(name) => {
            lemma_rule_index(names, name);
            assert(nodes[base as int] == f.nodes[0]);
        },
        Syntax::Sequence(members) => {
            let i = lemma_circle_in_sequence(members, names, empty, nodes, base, next, path);
            lemma_any_idles_at(members, names, empty, i);
        },
        Syntax::Alternation(alternatives) => {
            let (parts, starts) = compile_alternatives(alternatives, names, base, next);
            let split = f.nodes[parts.len() as int];
            let at_split = (base + parts.len()) as usize;
            assert(nodes[(base + parts.len()) as int] == split);
            assert(split.transitions == starts);
            lemma_alternatives_local(alternatives, names, base, next);
            assert forall|i: int| 0 <= i < parts.len() implies nodes[base + i]
                == #[trigger] parts[i] by {
                assert(f.nodes[i] == parts[i]);
            }
            // No step leads to the choice point, so the way round never meets it.
            assert forall|i: int| 0 <= i < path.len() implies inside(
                base,
                parts.len(),
                #[trigger] path[i],
            ) by {
                assert(inside(base, f.nodes.len(), path[i]));
                if path[i] == at_split {
                    let before = if i > 0 {
                        i - 1
                    } else {
                        path.len() - 2
                    };
                    assert(inner_step(nodes, empty, path[before], path[before + 1]));
                    assert(path[before + 1] == at_split);
                    assert(inside(base, f.nodes.len(), path[before]));
                    if path[before] == at_split {
                        let w = choose|w: int| 0 <= w < starts.len() && starts[w] == at_split;
                        assert(inside(base, parts.len(), starts[w]) || starts[w] == next);
                    } else {
                        let node = nodes[path[before] as int];
                        assert(node == parts[path[before] - base]);
                        assert(node_local(node, base, parts.len(), next));
                        assert(leads(node, at_split));
                    }
                }
            }
            let w = lemma_circle_in_alternatives(alternatives, names, empty, nodes, base, next, path);
            lemma_any_idles_at(alternatives, names, empty, w);
        },
        Syntax::Repetition(body) => {
            let inner = compile_expression(*body, names, base + 1, base);
            let split = f.nodes[0];
            assert(nodes[base as int] == split);
            assert(split.transitions == seq![inner.start as usize, next as usize]);
            lemma_expression_local(*body, names, base + 1, base);
            assert forall|i: int| 0 <= i < inner.nodes.len() implies nodes[base + 1 + i]
                == #[trigger] inner.nodes[i] by {
                assert(f.nodes[1 + i] == inner.nodes[i]);
                assert(nodes[base + (1 + i)] == f.nodes[1 + i]);
            }
            if exists|j: int| 0 <= j < path.len() && path[j] == base {
                let j = choose|j: int| 0 <= j < path.len() && path[j] == base;
                let turned = lemma_turned(nodes, empty, path, j);
                assert(inner_step(nodes, empty, turned[0], turned[1]));
                let w = choose|w: int|
                    0 <= w < split.transitions.len() && split.transitions[w] == turned[1];
                assert(split.transitions[w] == turned[1]);
                let m = choose|m: int| 0 <= m < path.len() && path[m] == turned[1];
                assert(inside(base, f.nodes.len(), path[m]));
                assert(turned[1] == inner.start);
                if inner.nodes.len() == 0 {
                    lemma_no_states_skips(*body, names, empty, nodes, base + 1, base);
                } else {
                    let onward = turned.subrange(1, turned.len() as int);
                    lemma_inner_part(nodes, empty, turned, 1, turned.len() as int);
                    assert(onward[0] == turned[1]);
                    assert(onward.last() == turned.last());
                    let at = lemma_leaves_or_stays(nodes, empty, inner.nodes, base + 1, base, onward);
                    if at == onward.len() {
                        assert(inside(base + 1, inner.nodes.len(), onward[onward.len() - 1]));
                    }
                    let front = onward.subrange(0, at + 1);
                    lemma_inner_part(nodes, empty, onward, 0, at + 1);
                    assert(front[0] == onward[0]);
                    assert(front.last() == onward[at]);
                    assert forall|i: int| 0 <= i < front.len() - 1 implies #[trigger] front[i]
                        != base by {
                        assert(front[i] == onward[i]);
                        assert(inside(base + 1, inner.nodes.len(), onward[i]));
                    }
                    lemma_inner_walk_skips(*body, names, empty, nodes, base + 1, base, front);
                }
            } else {
                assert forall|i: int| 0 <= i < path.len() implies inside(
                    base + 1,
                    inner.nodes.len(),
                    #[trigger] path[i],
                ) by {
                    assert(inside(base, f.nodes.len(), path[i]));
                }
                lemma_circle_idles(*body, names, empty, nodes, base + 1, base, path);
            }
        },
    }
}

/// The same for the members of a sequence: the lemma hands back a member
/// that holds such a repetition.
pub proof fn lemma_circle_in_sequence(
    members: Seq<Syntax>,
    names: Seq<Seq<char>>,
    empty: Seq<bool>,
    nodes: Seq<Node>,
    base: nat,
    next: nat,
    path: Seq<StateId>,
) -> (found: int)
    requires
        next <= usize::MAX,
        names.len() <= usize::MAX,
        base + compile_sequence(members, names, base, next).nodes.len() <= usize::MAX,
        placed(nodes, base, compile_sequence(members, names, base, next).nodes),
        !inside(base, compile_sequence(members, names, base, next).nodes.len(), next as usize),
        inner_circle(nodes, empty, path),
        forall|i: int|
            0 <= i < path.len() ==> inside(
                base,
                compile_sequence(members, names, base, next).nodes.len(),
                #[trigger] path[i],
            ),
    ensures
        0 <= found < members.len(),
        idles(members[found], names, empty),
    decreases members, 0nat,
{
    let f = compile_sequence(members, names, base, next);
    assert(inside(base, f.nodes.len(), path[0]));
    let rest = members.subrange(1, members.len() as int);
    let tail = compile_sequence(rest, names, base, next);
    let head_base = base + tail.nodes.len();
    let head = compile_expression(members[0], names, head_base, tail.start);
    lemma_sequence_local(rest, names, base, next);
    lemma_expression_local(members[0], names, head_base, tail.start);
    assert forall|i: int| 0 <= i < head.nodes.len() implies nodes[head_base + i]
        == #[trigger] head.nodes[i] by {
        assert(f.nodes[tail.nodes.len() + i] == head.nodes[i]);
        assert(nodes[base + (tail.nodes.len() + i)] == f.nodes[tail.nodes.len() + i]);
    }
    assert forall|i: int| 0 <= i < tail.nodes.len() implies nodes[base + i]
        == #[trigger] tail.nodes[i] by {
        assert(f.nodes[i] == tail.nodes[i]);
    }
    if inside(head_base, head.nodes.len(), path[0]) {
        let at = lemma_leaves_or_stays(nodes, empty, head.nodes, head_base, tail.start, path);
        if at < path.len() {
            // Once among the members behind, the path does not come back.
            let back = path.subrange(at, path.len() as int);
            lemma_inner_part(nodes, empty, path, at, path.len() as int);
            assert(back[0] == path[at]);
            assert(inside(base, f.nodes.len(), path[at]));
            let stay = lemma_leaves_or_stays(nodes, empty, tail.nodes, base, next, back);
            if stay < back.len() {
                assert(back[stay] == path[at + stay]);
                assert(inside(base, f.nodes.len(), path[at + stay]));
            }
            assert(back[back.len() - 1] == path.last());
            assert(inside(base, tail.nodes.len(), back[back.len() - 1]));
        }
        lemma_circle_idles(members[0], names, empty, nodes, head_base, tail.start, path);
        0
    } else {
        let stay = lemma_leaves_or_stays(nodes, empty, tail.nodes, base, next, path);
        if stay < path.len() {
            assert(inside(base, f.nodes.len(), path[stay]));
        }
        let found = lemma_circle_in_sequence(rest, names, empty, nodes, base, next, path);
        assert(rest[found] == members[found + 1]);
        found + 1
    }
}

/// The same for the alternatives of a choice, without its choice point.
pub proof fn lemma_circle_in_alternatives(
    alternatives: Seq<Syntax>,
    names: Seq<Seq<char>>,
    empty: Seq<bool>,
    nodes: Seq<Node>,
    base: nat,
    next: nat,
    path: Seq<StateId>,
) -> (found: int)
    requires
        next <= usize::MAX,
        names.len() <= usize::MAX,
        base + compile_alternatives(alternatives, names, base, next).0.len() <= usize::MAX,
        placed(nodes, base, compile_alternatives(alternatives, names, base, next).0),
        !inside(base, compile_alternatives(alternatives, names, base, next).0.len(), next as usize),
        inner_circle(nodes, empty, path),
        forall|i: int|
            0 <= i < path.len() ==> inside(
                base,
                compile_alternatives(alternatives, names, base, next).0.len(),
                #[trigger] path[i],
            ),
    ensures
        0 <= found < alternatives.len(),
        idles(alternatives[found], names, empty),
    decreases alternatives, 0nat,
{
    let all = compile_alternatives(alternatives, names, base, next);
    assert(inside(base, all.0.len(), path[0]));
    let (parts, starts) = compile_alternatives(alternatives.drop_last(), names, base, next);
    let last_base = base + parts.len();
    let last = compile_expression(alternatives.last(), names, last_base, next);
    lemma_alternatives_local(alternatives.drop_last(), names, base, next);
    lemma_expression_local(alternatives.last(), names, last_base, next);
    assert forall|i: int| 0 <= i < last.nodes.len() implies nodes[last_base + i]
        == #[trigger] last.nodes[i] by {
        assert(all.0[parts.len() + i] == last.nodes[i]);
        assert(nodes[base + (parts.len() + i)] == all.0[parts.len() + i]);
    }
    assert forall|i: int| 0 <= i < parts.len() implies nodes[base + i] == #[trigger] parts[i] by {
        assert(all.0[i] == parts[i]);
    }
    if inside(last_base, last.nodes.len(), path[0]) {
        let stay = lemma_leaves_or_stays(nodes, empty, last.nodes, last_base, next, path);
        if stay < path.len() {
            assert(inside(base, all.0.len(), path[stay]));
        }
        lemma_circle_idles(alternatives.last(), names, empty, nodes, last_base, next, path);
        alternatives.len() - 1
    } else {
        let stay = lemma_leaves_or_stays(nodes, empty, parts, base, next, path);
        if stay < path.len() {
            assert(inside(base, all.0.len(), path[stay]));
        }
        let found = lemma_circle_in_alternatives(
            alternatives.drop_last(),
            names,
            empty,
            nodes,
            base,
            next,
            path,
        );
        assert(alternatives.drop_last()[found] == alternatives[found]);
        found
    }
}

// ---------------------------------------------------------------------------
// From the states of the whole grammar to its rules
// ---------------------------------------------------------------------------
/// The states that the engine may go to from state `s` of the plan without
/// a token.
pub open spec fn node_steps(plan: Blueprint, empty: Seq<bool>, s: int) -> Seq<StateId> {
    let node = plan.nodes[s];
    match node.action {
        NodeAction::Split => node.transitions,
        NodeAction::Call(callee, resume) => {
            if callee >= plan.start_states.len() {
                Seq::empty()
            } else if callee < empty.len() && empty[callee as int] {
                seq![plan.start_states[callee as int], resume]
            } else {
                seq![plan.start_states[callee as int]]
            }
        },
        _ => Seq::empty(),
    }
}

/// For every state of the plan the states that the engine may go to
/// without a token.
pub open spec fn node_graph(plan: Blueprint, empty: Seq<bool>) -> Seq<Seq<StateId>> {
    Seq::new(plan.nodes.len(), |s: int| node_steps(plan, empty, s))
}

/// A compiled grammar gives the engine the steps without a token that its
/// plan shows.
pub proof fn lemma_steps_of_plan<TT: TokenType + TryFrom<Vec<char>>>(
    sm: StateManager<TT>,
    plan: Blueprint,
    empty: Seq<bool>,
)
    requires
        realizes(sm, plan),
    ensures
        idle_graph(sm, empty) == node_graph(plan, empty),
{
    assert forall|s: int| 0 <= s < plan.nodes.len() implies idle_steps(sm, empty, s) == node_steps(
        plan,
        empty,
        s,
    ) by {
        assert(realized(plan.nodes[s], sm.states@[s]));
    }
    assert(idle_graph(sm, empty) =~= node_graph(plan, empty));
}

/// A step without a token is an inner step or the entry into a rule that
/// is called.
pub proof fn lemma_step_kinds(plan: Blueprint, empty: Seq<bool>, s: StateId, t: StateId)
    requires
        calls_first(node_graph(plan, empty), s, t),
    ensures
        inner_step(plan.nodes, empty, s, t) || (plan.nodes[s as int].action matches NodeAction::Call(
            callee,
            _,
        ) && callee < plan.start_states.len() && t == plan.start_states[callee as int]),
{
    let steps = node_graph(plan, empty)[s as int];
    assert(steps == node_steps(plan, empty, s as int));
    let w = choose|w: int| 0 <= w < steps.len() && steps[w] == t;
    assert(steps[w] == t);
}

/// An inner path from the start state of rule `r` to a call shows that the
/// call is one of the first calls of the rule.
pub proof fn lemma_rule_first_call(rules: Seq<RuleSyntax>, r: nat, path: Seq<StateId>)
    requires
        r < rules.len(),
        blueprint(rules).nodes.len() <= usize::MAX,
        rules.len() <= usize::MAX,
        inner_path(blueprint(rules).nodes, matches_nothing(rules), path),
        path[0] == blueprint(rules).start_states[r as int],
        blueprint(rules).nodes[path.last() as int].action is Call,
    ensures
        left_calls(rules)[r as int].contains(
            blueprint(rules).nodes[path.last() as int].action->Call_0,
        ),
{
    let nodes = blueprint(rules).nodes;
    let names = rule_names_of(rules);
    let empty = matches_nothing(rules);
    lemma_rule_placed(rules, r, rules.len());
    let a = rule_base(rules, r);
    let body = compile_expression(rules[r as int].body, names, a + 1, a);
    lemma_expression_local(rules[r as int].body, names, a + 1, a);
    if path.len() > 1 {
        assert(inner_step(nodes, empty, path[0], path[1]));
    }
    if body.nodes.len() > 0 {
        let at = lemma_leaves_or_stays(nodes, empty, body.nodes, a + 1, a, path);
        if at < path.len() {
            if at < path.len() - 1 {
                assert(inner_step(nodes, empty, path[at], path[at + 1]));
            }
        }
        lemma_first_call_reached(rules[r as int].body, names, empty, nodes, a + 1, a, path);
    }
}

/// A way round among the states of the body of rule `r` shows that the rule
/// holds a repetition whose body may match nothing.
pub proof fn lemma_rule_circle_idles(rules: Seq<RuleSyntax>, r: nat, path: Seq<StateId>)
    requires
        r < rules.len(),
        blueprint(rules).nodes.len() <= usize::MAX,
        rules.len() <= usize::MAX,
        inner_circle(blueprint(rules).nodes, matches_nothing(rules), path),
        inside(
            rule_base(rules, r) + 1,
            compile_expression(
                rules[r as int].body,
                rule_names_of(rules),
                rule_base(rules, r) + 1,
                rule_base(rules, r),
            ).nodes.len(),
            path[0],
        ),
    ensures
        rule_idles(rules, r as int),
{
    let nodes = blueprint(rules).nodes;
    let names = rule_names_of(rules);
    let empty = matches_nothing(rules);
    lemma_rule_placed(rules, r, rules.len());
    let a = rule_base(rules, r);
    let body = compile_expression(rules[r as int].body, names, a + 1, a);
    lemma_expression_local(rules[r as int].body, names, a + 1, a);
    let at = lemma_leaves_or_stays(nodes, empty, body.nodes, a + 1, a, path);
    if at < path.len() {
        if at < path.len() - 1 {
            assert(inner_step(nodes, empty, path[at], path[at + 1]));
        }
    }
    lemma_circle_idles(rules[r as int].body, names, empty, nodes, a + 1, a, path);
}

/// Every state is the accepting state of a rule or one of the states of
/// its body: the lemma hands back the rule.
pub proof fn lemma_rule_of_state(rules: Seq<RuleSyntax>, s: nat, count: nat) -> (r: nat)
    requires
        count <= rules.len(),
        s < compile_rules(rules, count).1.len(),
    ensures
        r < count,
        s == rule_base(rules, r) || inside(
            rule_base(rules, r) + 1,
            compile_expression(
                rules[r as int].body,
                rule_names_of(rules),
                rule_base(rules, r) + 1,
                rule_base(rules, r),
            ).nodes.len(),
            s as usize,
        ) || s > usize::MAX,
    decreases count,
{
    let before = compile_rules(rules, (count - 1) as nat).1;
    if s < before.len() {
        lemma_rule_of_state(rules, s, (count - 1) as nat)
    } else {
        (count - 1) as nat
    }
}

/// Where no first rule holds an idle repetition, none does.
pub proof fn lemma_no_idle_rule(rules: Seq<RuleSyntax>, from: nat, k: int)
    requires
        first_idle_rule(rules, from) is None,
        from <= k < rules.len(),
    ensures
        !rule_idles(rules, k),
    decreases rules.len() - from,
{
    if from < k {
        lemma_no_idle_rule(rules, from + 1, k);
    }
}

/// Every rule of `chain` calls the next one first.
pub open spec fn chained_calls(graph: Seq<Seq<RuleId>>, chain: Seq<RuleId>) -> bool {
    &&& chain.len() > 0
    &&& forall|i: int|
        0 <= i < chain.len() - 1 ==> calls_first(graph, #[trigger] chain[i], chain[i + 1])
}

/// Every state of `path` but the last leads on to the next without a token.
pub open spec fn idle_path(plan: Blueprint, empty: Seq<bool>, path: Seq<StateId>) -> bool {
    &&& path.len() > 0
    &&& forall|i: int|
        0 <= i < path.len() - 1 ==> calls_first(
            node_graph(plan, empty),
            #[trigger] path[i],
            path[i + 1],
        )
}

/// A path without a token from the start state of a rule passes from rule
/// to rule by first calls: the lemma hands back the rules that the first
/// `upto` states pass through, and where the last of them was entered.
pub proof fn lemma_rules_passed(rules: Seq<RuleSyntax>, start: RuleId, path: Seq<StateId>, upto: int) -> (r:
    (Seq<RuleId>, int))
    requires
        blueprint(rules).nodes.len() <= usize::MAX,
        rules.len() <= usize::MAX,
        start < rules.len(),
        idle_path(blueprint(rules), matches_nothing(rules), path),
        path[0] == blueprint(rules).start_states[start as int],
        1 <= upto <= path.len(),
    ensures
        chained_calls(left_calls(rules), r.0),
        r.0[0] == start,
        r.0.last() < rules.len(),
        0 <= r.1 < upto,
        path[r.1] == blueprint(rules).start_states[r.0.last() as int],
        inner_path(blueprint(rules).nodes, matches_nothing(rules), path.subrange(r.1, upto)),
    decreases upto,
{
    let plan = blueprint(rules);
    let empty = matches_nothing(rules);
    if upto == 1 {
        let chain = seq![start];
        assert(inner_path(plan.nodes, empty, path.subrange(0, 1)));
        (chain, 0)
    } else {
        let (chain, entry) = lemma_rules_passed(rules, start, path, upto - 1);
        let s = path[upto - 2];
        let t = path[upto - 1];
        let so_far = path.subrange(entry, upto - 1);
        assert(calls_first(node_graph(plan, empty), s, t));
        lemma_step_kinds(plan, empty, s, t);
        lemma_rules_counted(rules, rules.len());
        if inner_step(plan.nodes, empty, s, t) {
            let longer = path.subrange(entry, upto);
            assert forall|i: int| 0 <= i < longer.len() - 1 implies inner_step(
                plan.nodes,
                empty,
                #[trigger] longer[i],
                longer[i + 1],
            ) by {
                if i < so_far.len() - 1 {
                    assert(inner_step(plan.nodes, empty, so_far[i], so_far[i + 1]));
                    assert(so_far[i] == longer[i]);
                    assert(so_far[i + 1] == longer[i + 1]);
                }
            }
            (chain, entry)
        } else {
            let callee = plan.nodes[s as int].action->Call_0;
            assert(so_far.last() == s);
            assert(so_far[0] == path[entry]);
            lemma_rule_first_call(rules, chain.last() as nat, so_far);
            let longer = chain.push(callee);
            assert forall|i: int| 0 <= i < longer.len() - 1 implies calls_first(
                left_calls(rules),
                #[trigger] longer[i],
                longer[i + 1],
            ) by {
                if i < chain.len() - 1 {
                    assert(calls_first(left_calls(rules), chain[i], chain[i + 1]));
                }
            }
            assert(inner_path(plan.nodes, empty, path.subrange(upto - 1, upto)));
            (longer, upto - 1)
        }
    }
}

/// The compiled states lead round in circles only where the rules do:
/// where no rules call each other first in a circle and no rule holds a
/// repetition whose body may match nothing, there is no way round through
/// the states without a token.
pub proof fn lemma_no_circles(rules: Seq<RuleSyntax>, circle: Seq<StateId>)
    requires
        blueprint(rules).nodes.len() <= usize::MAX,
        rules.len() <= usize::MAX,
        forall|cycle: Seq<RuleId>| !is_cycle(left_calls(rules), cycle),
        first_idle_rule(rules, 0) is None,
    ensures
        !is_cycle(node_graph(blueprint(rules), matches_nothing(rules)), circle),
{
    let plan = blueprint(rules);
    let empty = matches_nothing(rules);
    let graph = node_graph(plan, empty);
    if is_cycle(graph, circle) {
        let n = circle.len() as int;
        let round = circle.push(circle[0]);
        assert forall|i: int| 0 <= i < round.len() - 1 implies calls_first(
            graph,
            #[trigger] round[i],
            round[i + 1],
        ) by {
            if i < n - 1 {
                assert(calls_first(graph, circle[i], circle[i + 1]));
            } else {
                assert(calls_first(graph, circle.last(), circle[0]));
            }
        }
        lemma_rules_counted(rules, rules.len());
        if forall|i: int|
            0 <= i < round.len() - 1 ==> inner_step(plan.nodes, empty, #[trigger] round[i], round[i + 1]) {
            assert(inner_circle(plan.nodes, empty, round));
            assert(inner_step(plan.nodes, empty, round[0], round[1]));
            let r = lemma_rule_of_state(rules, round[0] as nat, rules.len());
            lemma_rule_placed(rules, r, rules.len());
            lemma_rule_circle_idles(rules, r, round);
            lemma_no_idle_rule(rules, 0, r as int);
        } else {
            let i = choose|i: int|
                0 <= i < round.len() - 1 && !inner_step(
                    plan.nodes,
                    empty,
                    #[trigger] round[i],
                    round[i + 1],
                );
            assert(calls_first(graph, round[i], round[i + 1]));
            lemma_step_kinds(plan, empty, round[i], round[i + 1]);
            let start = plan.nodes[round[i] as int].action->Call_0;
            let path = round.subrange(i + 1, round.len() as int) + round.subrange(1, i + 1);
            assert forall|m: int| 0 <= m < path.len() - 1 implies calls_first(
                graph,
                #[trigger] path[m],
                path[m + 1],
            ) by {
                let first = round.len() - (i + 1);
                if m < first - 1 {
                    assert(calls_first(graph, round[i + 1 + m], round[i + 1 + m + 1]));
                } else if m == first - 1 {
                    assert(path[m] == round[n]);
                    assert(path[m + 1] == round[1]);
                    assert(calls_first(graph, round[0], round[1]));
                } else {
                    let w = m - first + 1;
                    assert(path[m] == round[w]);
                    assert(path[m + 1] == round[w + 1]);
                    assert(calls_first(graph, round[w], round[w + 1]));
                }
            }
            assert(path[0] == round[i + 1]);
            assert(path.last() == round[i]) by {
                if i == 0 {
                    assert(path.last() == round[n]);
                } else {
                    assert(path.last() == round[i]);
                }
            }
            let (chain, entry) = lemma_rules_passed(rules, start, path, path.len() as int);
            let last_part = path.subrange(entry, path.len() as int);
            assert(last_part.last() == path.last());
            assert(last_part[0] == path[entry]);
            lemma_rule_first_call(rules, chain.last() as nat, last_part);
            assert(calls_first(left_calls(rules), chain.last(), chain[0]));
            assert(is_cycle(left_calls(rules), chain));
        }
    }
}

/// The same of a compiled grammar: its states lead the engine round in no
/// circle.
pub proof fn lemma_compiled_no_circles<TT: TokenType + TryFrom<Vec<char>>>(
    sm: StateManager<TT>,
    rules: Seq<RuleSyntax>,
    circle: Seq<StateId>,
)
    requires
        realizes(sm, blueprint(rules)),
        forall|cycle: Seq<RuleId>| !is_cycle(left_calls(rules), cycle),
        first_idle_rule(rules, 0) is None,
    ensures
        !is_cycle(idle_graph(sm, matches_nothing(rules)), circle),
{
    assert(sm.states@.len() == sm.states.len() <= usize::MAX);
    assert(rules.len() == sm.rule_names@.len() == sm.rule_names.len() <= usize::MAX);
    lemma_steps_of_plan(sm, blueprint(rules), matches_nothing(rules));
    lemma_no_circles(rules, circle);
}

} // verus!
