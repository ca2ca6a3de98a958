//! From rule bodies to the state graph.
//!
//! The states of a body are laid out behind one another in the state table.
//! A body is compiled for a known successor state: a sequence from its last
//! member to its first, each member leading to the one compiled before it;
//! the alternatives of a choice one after the other, all leading to the
//! successor, with the choice point behind them; a repetition as a choice
//! point between its body, which leads back to the choice point, and the
//! successor.
use crate::bnf_rules_compiler::{RuleId, StateId};
use crate::grammar_text::{lemma_syntaxes, same_name, syntaxes, Expression, Syntax};
use crate::state_machine::{State, StateAction};
use vstd::prelude::*;

verus! {

/// What a state of the model does; a `Match` is known by the name of its
/// token type.
pub enum NodeAction {
    Match(Seq<char>),
    Call(RuleId, StateId),
    Split,
    Accept,
}

/// Mathematical model of a state whose token type is still a name.
pub struct Node {
    pub action: NodeAction,
    pub transitions: Seq<StateId>,
}

/// The states that a body compiles to and the state at which it starts.
pub struct Fragment {
    pub nodes: Seq<Node>,
    pub start: nat,
}

/// The model of a state whose token type is still a name.
pub open spec fn node_of(state: State<Vec<char>>) -> Node {
    Node {
        action: match state.action {
            StateAction::Match(name) => NodeAction::Match(name@),
            StateAction::Call(rule, resume) => NodeAction::Call(rule, resume),
            StateAction::Split => NodeAction::Split,
            StateAction::Accept => NodeAction::Accept,
        },
        transitions: state.transitions@,
    }
}

/// The models of a sequence of states, element by element.
pub open spec fn nodes_of(states: Seq<State<Vec<char>>>) -> Seq<Node> {
    Seq::new(states.len(), |i: int| node_of(states[i]))
}

/// The views of a sequence of names, element by element.
pub open spec fn names_of(names: Seq<Vec<char>>) -> Seq<Seq<char>> {
    Seq::new(names.len(), |i: int| names[i]@)
}

/// The index of the first of `names` that is `name`.
pub open spec fn rule_index(names: Seq<Seq<char>>, name: Seq<char>) -> Option<nat>
    decreases names.len(),
{
    if names.len() == 0 {
        None
    } else {
        match rule_index(names.drop_last(), name) {
            Some(i) => Some(i),
            None => if names.last() == name {
                Some((names.len() - 1) as nat)
            } else {
                None
            },
        }
    }
}

/// `rule_index` finds the first index at which the name stands, and finds
/// none only where the name stands nowhere.
pub proof fn lemma_rule_index(names: Seq<Seq<char>>, name: Seq<char>)
    ensures
        match rule_index(names, name) {
            Some(i) => i < names.len() && names[i as int] == name && forall|j: int|
                0 <= j < i ==> #[trigger] names[j] != name,
            None => forall|j: int| 0 <= j < names.len() ==> #[trigger] names[j] != name,
        },
    decreases names.len(),
{
    if names.len() > 0 {
        lemma_rule_index(names.drop_last(), name);
        match rule_index(names.drop_last(), name) {
            Some(i) => {
                assert(names.drop_last()[i as int] == names[i as int]);
                assert forall|j: int| 0 <= j < i implies #[trigger] names[j] != name by {
                    assert(names.drop_last()[j] == names[j]);
                }
            },
            None => {
                assert forall|j: int| 0 <= j < names.len() - 1 implies #[trigger] names[j]
                    != name by {
                    assert(names.drop_last()[j] == names[j]);
                }
            },
        }
    }
}

/// The states of `e`, laid out from `base` on and leading to `next`.
pub open spec fn compile_expression(e: Syntax, names: Seq<Seq<char>>, base: nat, next: nat) -> Fragment
    decreases e,
{
    match e {
        Syntax::Symbol(name) => match rule_index(names, name) {
            Some(rule) => Fragment {
                nodes: seq![
                    Node {
                        action: NodeAction::Call(rule as usize, next as usize),
                        transitions: Seq::empty(),
                    },
                ],
                start: base,
            },
            None => Fragment {
                nodes: seq![
                    Node { action: NodeAction::Match(name), transitions: seq![next as usize] },
                ],
                start: base,
            },
        },
        Syntax::Sequence(members) => compile_sequence(members, names, base, next),
        Syntax::Alternation(alternatives) => {
            let (nodes, starts) = compile_alternatives(alternatives, names, base, next);
            Fragment {
                nodes: nodes.push(Node { action: NodeAction::Split, transitions: starts }),
                start: base + nodes.len(),
            }
        },
        Syntax::Repetition(body) => {
            let inner = compile_expression(*body, names, base + 1, base);
            Fragment {
                nodes: seq![
                    Node {
                        action: NodeAction::Split,
                        transitions: seq![inner.start as usize, next as usize],
                    },
                ] + inner.nodes,
                start: base,
            }
        },
    }
}

/// The states of the members of a sequence: the last member first, and
/// every member leading to the start of the one behind it.
pub open spec fn compile_sequence(
    members: Seq<Syntax>,
    names: Seq<Seq<char>>,
    base: nat,
    next: nat,
) -> Fragment
    decreases members,
{
    if members.len() == 0 {
        Fragment { nodes: Seq::empty(), start: next }
    } else {
        let tail = compile_sequence(members.subrange(1, members.len() as int), names, base, next);
        let head = compile_expression(members[0], names, base + tail.nodes.len(), tail.start);
        Fragment { nodes: tail.nodes + head.nodes, start: head.start }
    }
}

/// The states of the alternatives of a choice, in their order and all
/// leading to `next`, and the states at which they start.
pub open spec fn compile_alternatives(
    alternatives: Seq<Syntax>,
    names: Seq<Seq<char>>,
    base: nat,
    next: nat,
) -> (Seq<Node>, Seq<StateId>)
    decreases alternatives,
{
    if alternatives.len() == 0 {
        (Seq::empty(), Seq::empty())
    } else {
        let (nodes, starts) = compile_alternatives(alternatives.drop_last(), names, base, next);
        let last = compile_expression(alternatives.last(), names, base + nodes.len(), next);
        (nodes + last.nodes, starts.push(last.start as usize))
    }
}

/// A state of the model refers only to rules below `rules` and to states
/// below `states`, and has the transitions that its action asks for.
pub open spec fn node_closed(node: Node, rules: nat, states: nat) -> bool {
    match node.action {
        NodeAction::Match(_) => node.transitions.len() == 1 && node.transitions[0] < states,
        NodeAction::Call(rule, resume) => rule < rules && resume < states,
        NodeAction::Split => forall|k: int|
            0 <= k < node.transitions.len() ==> #[trigger] node.transitions[k] < states,
        NodeAction::Accept => true,
    }
}

/// All of `nodes` are closed.
pub open spec fn nodes_closed(nodes: Seq<Node>, rules: nat, states: nat) -> bool {
    forall|i: int| 0 <= i < nodes.len() ==> node_closed(#[trigger] nodes[i], rules, states)
}

/// The states of a body refer only to states of the body and to its
/// successor, and to rules that exist.
pub proof fn lemma_expression_closed(
    e: Syntax,
    names: Seq<Seq<char>>,
    base: nat,
    next: nat,
    limit: nat,
)
    requires
        next < limit <= usize::MAX,
        base + compile_expression(e, names, base, next).nodes.len() <= limit,
    ensures
        compile_expression(e, names, base, next).start < limit,
        nodes_closed(compile_expression(e, names, base, next).nodes, names.len(), limit),
    decreases e,
{
    let f = compile_expression(e, names, base, next);
    match e {
        Syntax::Symbol(name) => {
            lemma_rule_index(names, name);
        },
        Syntax::Sequence(members) => {
            lemma_sequence_closed(members, names, base, next, limit);
        },
        Syntax::Alternation(alternatives) => {
            let (nodes, starts) = compile_alternatives(alternatives, names, base, next);
            lemma_alternatives_closed(alternatives, names, base, next, limit);
            assert forall|i: int| 0 <= i < f.nodes.len() implies node_closed(
                #[trigger] f.nodes[i],
                names.len(),
                limit,
            ) by {
                if i < nodes.len() {
                    assert(f.nodes[i] == nodes[i]);
                }
            }
        },
        Syntax::Repetition(body) => {
            let inner = compile_expression(*body, names, base + 1, base);
            lemma_expression_closed(*body, names, base + 1, base, limit);
            assert forall|i: int| 0 <= i < f.nodes.len() implies node_closed(
                #[trigger] f.nodes[i],
                names.len(),
                limit,
            ) by {
                if i > 0 {
                    assert(f.nodes[i] == inner.nodes[i - 1]);
                }
            }
        },
    }
}

/// The same for the members of a sequence.
pub proof fn lemma_sequence_closed(
    members: Seq<Syntax>,
    names: Seq<Seq<char>>,
    base: nat,
    next: nat,
    limit: nat,
)
    requires
        next < limit <= usize::MAX,
        base + compile_sequence(members, names, base, next).nodes.len() <= limit,
    ensures
        compile_sequence(members, names, base, next).start < limit,
        nodes_closed(compile_sequence(members, names, base, next).nodes, names.len(), limit),
    decreases members,
{
    if members.len() > 0 {
        let f = compile_sequence(members, names, base, next);
        let tail = compile_sequence(members.subrange(1, members.len() as int), names, base, next);
        let head = compile_expression(members[0], names, base + tail.nodes.len(), tail.start);
        lemma_sequence_closed(members.subrange(1, members.len() as int), names, base, next, limit);
        lemma_expression_closed(members[0], names, base + tail.nodes.len(), tail.start, limit);
        assert forall|i: int| 0 <= i < f.nodes.len() implies node_closed(
            #[trigger] f.nodes[i],
            names.len(),
            limit,
        ) by {
            if i < tail.nodes.len() {
                assert(f.nodes[i] == tail.nodes[i]);
            } else {
                assert(f.nodes[i] == head.nodes[i - tail.nodes.len()]);
            }
        }
    }
}

/// The same for the alternatives of a choice, whose starts are states below
/// `limit`, one for each alternative.
pub proof fn lemma_alternatives_closed(
    alternatives: Seq<Syntax>,
    names: Seq<Seq<char>>,
    base: nat,
    next: nat,
    limit: nat,
)
    requires
        next < limit <= usize::MAX,
        base + compile_alternatives(alternatives, names, base, next).0.len() <= limit,
    ensures
        nodes_closed(compile_alternatives(alternatives, names, base, next).0, names.len(), limit),
        compile_alternatives(alternatives, names, base, next).1.len() == alternatives.len(),
        forall|k: int|
            0 <= k < alternatives.len() ==> #[trigger] compile_alternatives(
                alternatives,
                names,
                base,
                next,
            ).1[k] < limit,
    decreases alternatives,
{
    if alternatives.len() > 0 {
        let all = compile_alternatives(alternatives, names, base, next);
        let (nodes, starts) = compile_alternatives(alternatives.drop_last(), names, base, next);
        let last = compile_expression(alternatives.last(), names, base + nodes.len(), next);
        lemma_alternatives_closed(alternatives.drop_last(), names, base, next, limit);
        lemma_expression_closed(alternatives.last(), names, base + nodes.len(), next, limit);
        assert forall|i: int| 0 <= i < all.0.len() implies node_closed(
            #[trigger] all.0[i],
            names.len(),
            limit,
        ) by {
            if i < nodes.len() {
                assert(all.0[i] == nodes[i]);
            } else {
                assert(all.0[i] == last.nodes[i - nodes.len()]);
            }
        }
        assert forall|k: int| 0 <= k < alternatives.len() implies #[trigger] all.1[k] < limit by {
            if k < starts.len() {
                assert(all.1[k] == starts[k]);
            }
        }
    }
}

/// A copy of a name.
pub fn copy_name(name: &Vec<char>) -> (copy: Vec<char>)
    ensures
        copy@ == name@,
{
    let mut copy: Vec<char> = Vec::new();
    let mut i: usize = 0;
    while i < name.len()
        invariant
            i <= name@.len(),
            copy@ == name@.subrange(0, i as int),
        decreases name@.len() - i,
    {
        copy.push(name[i]);
        i += 1;
        assert(copy@ =~= name@.subrange(0, i as int));
    }
    assert(copy@ =~= name@);
    copy
}

/// The index of the first of `names` that is `name`.
pub fn find_name(names: &Vec<Vec<char>>, name: &Vec<char>) -> (r: Option<RuleId>)
    ensures
        match rule_index(names_of(names@), name@) {
            Some(i) => r == Some(i as usize) && i < names@.len(),
            None => r is None,
        },
{
    let mut i: usize = 0;
    while i < names.len()
        invariant
            i <= names@.len(),
            forall|j: int| 0 <= j < i ==> #[trigger] names_of(names@)[j] != name@,
        decreases names@.len() - i,
    {
        if same_name(&names[i], name) {
            proof {
                lemma_rule_index(names_of(names@), name@);
                assert(names_of(names@)[i as int] == name@);
            }
            return Some(i);
        }
        i += 1;
    }
    proof {
        lemma_rule_index(names_of(names@), name@);
    }
    None
}

fn push_state(states: &mut Vec<State<Vec<char>>>, state: State<Vec<char>>) -> (id: StateId)
    ensures
        id == old(states)@.len(),
        final(states)@ == old(states)@.push(state),
        nodes_of(final(states)@) == nodes_of(old(states)@).push(node_of(state)),
{
    let id = states.len();
    states.push(state);
    assert(nodes_of(states@) =~= nodes_of(old(states)@).push(node_of(state)));
    id
}

/// Appends the states of `e` to `states`, leading to `next`, and hands back
/// the state at which `e` starts.
pub fn build_expression(
    e: &Expression,
    names: &Vec<Vec<char>>,
    states: &mut Vec<State<Vec<char>>>,
    next: StateId,
) -> (start: StateId)
    ensures
        nodes_of(final(states)@) == nodes_of(old(states)@) + compile_expression(
            e@,
            names_of(names@),
            old(states)@.len(),
            next as nat,
        ).nodes,
        start == compile_expression(e@, names_of(names@), old(states)@.len(), next as nat).start,
    decreases e,
{
    let ghost before = nodes_of(states@);
    let ghost base = states@.len();
    match e {
        Expression::Symbol(name) => {
            match find_name(names, name) {
                Some(rule) => {
                    let id = push_state(
                        states,
                        State { action: StateAction::Call(rule, next), transitions: Vec::new() },
                    );
                    assert(nodes_of(states@) =~= before + compile_expression(
                        e@,
                        names_of(names@),
                        base,
                        next as nat,
                    ).nodes);
                    id
                },
                None => {
                    let mut transitions: Vec<StateId> = Vec::new();
                    transitions.push(next);
                    let id = push_state(
                        states,
                        State { action: StateAction::Match(copy_name(name)), transitions },
                    );
                    assert(transitions@ =~= seq![next]);
                    assert(nodes_of(states@) =~= before + compile_expression(
                        e@,
                        names_of(names@),
                        base,
                        next as nat,
                    ).nodes);
                    id
                },
            }
        },
        Expression::Sequence(members) => {
            let ghost model = syntaxes(members@);
            let ghost all = model.len() as int;
            let mut i = members.len();
            let mut start = next;
            proof {
                lemma_syntaxes(members@);
                assert(model.subrange(all, all) =~= Seq::empty());
                assert(before + Seq::<Node>::empty() =~= before);
            }
            while i > 0
                invariant
                    i <= members@.len(),
                    model == syntaxes(members@),
                    all == model.len(),
                    all == members@.len(),
                    before.len() == base,
                    forall|k: int| 0 <= k < all ==> (#[trigger] model[k]) == members@[k]@,
                    nodes_of(states@) == before + compile_sequence(
                        model.subrange(i as int, all),
                        names_of(names@),
                        base,
                        next as nat,
                    ).nodes,
                    start == compile_sequence(
                        model.subrange(i as int, all),
                        names_of(names@),
                        base,
                        next as nat,
                    ).start,
                    decreases_to!(e => members),
                decreases i,
            {
                i -= 1;
                let ghost tail = compile_sequence(
                    model.subrange(i + 1, all),
                    names_of(names@),
                    base,
                    next as nat,
                );
                let ghost here = nodes_of(states@);
                proof {
                    let rest = model.subrange(i as int, all);
                    assert(rest.subrange(1, rest.len() as int) =~= model.subrange(i + 1, all));
                    assert(rest[0] == members@[i as int]@);
                    assert(here.len() == before.len() + tail.nodes.len());
                    assert(states@.len() == base + tail.nodes.len());
                }
                start = build_expression(&members[i], names, states, start);
                proof {
                    let head = compile_expression(
                        members@[i as int]@,
                        names_of(names@),
                        base + tail.nodes.len(),
                        tail.start,
                    );
                    assert(nodes_of(states@) =~= before + (tail.nodes + head.nodes));
                }
            }
            proof {
                assert(model.subrange(0, all) =~= model);
            }
            start
        },
        Expression::Alternation(alternatives) => {
            let ghost model = syntaxes(alternatives@);
            let mut starts: Vec<StateId> = Vec::new();
            let mut i: usize = 0;
            proof {
                lemma_syntaxes(alternatives@);
                assert(model.subrange(0, 0) =~= Seq::empty());
                assert(before + Seq::<Node>::empty() =~= before);
            }
            while i < alternatives.len()
                invariant
                    i <= alternatives@.len(),
                    model == syntaxes(alternatives@),
                    model.len() == alternatives@.len(),
                    before.len() == base,
                    forall|k: int|
                        0 <= k < model.len() ==> (#[trigger] model[k]) == alternatives@[k]@,
                    nodes_of(states@) == before + compile_alternatives(
                        model.subrange(0, i as int),
                        names_of(names@),
                        base,
                        next as nat,
                    ).0,
                    starts@ == compile_alternatives(
                        model.subrange(0, i as int),
                        names_of(names@),
                        base,
                        next as nat,
                    ).1,
                    decreases_to!(e => alternatives),
                decreases alternatives@.len() - i,
            {
                let ghost so_far = compile_alternatives(
                    model.subrange(0, i as int),
                    names_of(names@),
                    base,
                    next as nat,
                );
                proof {
                    let upto = model.subrange(0, i + 1);
                    assert(upto.drop_last() =~= model.subrange(0, i as int));
                    assert(upto.last() == alternatives@[i as int]@);
                    assert(nodes_of(states@).len() == before.len() + so_far.0.len());
                    assert(states@.len() == base + so_far.0.len());
                }
                let start = build_expression(&alternatives[i], names, states, next);
                starts.push(start);
                proof {
                    let last = compile_expression(
                        alternatives@[i as int]@,
                        names_of(names@),
                        base + so_far.0.len(),
                        next as nat,
                    );
                    assert(nodes_of(states@) =~= before + (so_far.0 + last.nodes));
                }
                i += 1;
            }
            proof {
                assert(model.subrange(0, model.len() as int) =~= model);
            }
            let ghost found = compile_alternatives(model, names_of(names@), base, next as nat);
            let ghost here = nodes_of(states@);
            let id = push_state(states, State { action: StateAction::Split, transitions: starts });
            proof {
                assert(here.len() == before.len() + found.0.len());
                assert(nodes_of(states@) =~= before + found.0.push(
                    Node { action: NodeAction::Split, transitions: found.1 },
                ));
            }
            id
        },
        Expression::Repetition(body) => {
            let split = push_state(
                states,
                State { action: StateAction::Split, transitions: Vec::new() },
            );
            let ghost reserved = states@;
            let inner = build_expression(body, names, states, split);
            let ghost built = states@;
            let mut transitions: Vec<StateId> = Vec::new();
            transitions.push(inner);
            transitions.push(next);
            assert(transitions@ =~= seq![inner, next]);
            assert(states@.len() > split) by {
                assert(nodes_of(states@).len() >= nodes_of(reserved).len());
            }
            states.set(split, State { action: StateAction::Split, transitions });
            proof {
                let model = compile_expression(body@, names_of(names@), (base + 1) as nat, base);
                assert(nodes_of(built).len() == before.len() + 1 + model.nodes.len());
                assert(nodes_of(states@) =~= before + (seq![
                    Node { action: NodeAction::Split, transitions: seq![inner, next] },
                ] + model.nodes)) by {
                    assert forall|i: int| 0 <= i < nodes_of(states@).len() implies nodes_of(
                        states@,
                    )[i] == (before + (seq![
                        Node { action: NodeAction::Split, transitions: seq![inner, next] },
                    ] + model.nodes))[i] by {
                        if i != split {
                            assert(nodes_of(states@)[i] == nodes_of(built)[i]);
                        }
                    }
                }
            }
            split
        },
    }
}

} // verus!
