//! A compiled grammar keeps the engine going forward: from no state does a
//! walk come back to that state without a token in between. So the engine
//! never finds itself going round in circles on it.
use crate::bnf_rules_compiler::{
    blueprint, compiled, copy_ids, outcome_of, lemma_same_plan_same_tables, outline_of, realized, realizes,
    rejected, rejected_at, rejects_some, resolves_to, rule_names_of, Blueprint, RuleId, StateId,
    StateManager,
};
use crate::empty_matches::first_idle_rule;
use crate::error::{BNFCompileError, CompileFault, ParseError};
use crate::grammar_text::grammar_of;
use crate::left_recursion::{first_cycle, is_cycle, left_calls};
use crate::rule_graph::{names_of, NodeAction};
use crate::derivation::{derives, lemma_run_sound};
use crate::empty_matches::{
    all_may_skip, any_may_skip, lemma_matches_nothing_settled, matches_nothing, may_skip,
};
use crate::error::Fault;
use crate::grammar_text::{RuleSyntax, Syntax};
use crate::grammatical::{
    all_grammatical, follows_rule, grammatical, lemma_derives_grammatical, token_test,
};
use crate::graph_paths::{calls_at, TokenTest};
use crate::left_recursion::{falls, falls_by, find_cycle, graph_of, is_simple_cycle};
use crate::match_record::Record;
use crate::rule_graph::{lemma_rule_index, rule_index};
use crate::rule_meaning::{trace, trace_members, trace_rounds, Shape};
use crate::state_machine::{
    later, lemma_parse_result_in_bounds, lemma_parse_result_well_formed, lemma_run,
    lemma_run_alternatives, parse_result, remaining, run, run_alternatives, step_budget, Outcome,
    State, StateAction, TokenType,
};
use vstd::prelude::*;

verus! {

/// The states that the engine may go to from state `s` without a token: the
/// transitions of a choice point; the start state of a rule that is called,
/// and the state behind the call where the rule may match nothing.
pub open spec fn idle_steps<TT>(sm: StateManager<TT>, empty: Seq<bool>, s: int) -> Seq<StateId> {
    let st = sm.states@[s];
    match st.action {
        StateAction::Split => st.transitions@,
        StateAction::Call(callee, resume) => {
            if callee >= sm.start_states@.len() {
                Seq::empty()
            } else if callee < empty.len() && empty[callee as int] {
                seq![sm.start_states@[callee as int], resume]
            } else {
                seq![sm.start_states@[callee as int]]
            }
        },
        _ => Seq::empty(),
    }
}

/// For every state the states that the engine may go to without a token.
pub open spec fn idle_graph<TT>(sm: StateManager<TT>, empty: Seq<bool>) -> Seq<Seq<StateId>> {
    Seq::new(sm.states@.len(), |s: int| idle_steps(sm, empty, s))
}

/// The engine cannot go round in circles on `sm`: the states have ranks
/// that fall with every step that it may take without a token.
pub open spec fn goes_forward<TT>(sm: StateManager<TT>, rules: Seq<RuleSyntax>) -> bool {
    falls(idle_graph(sm, matches_nothing(rules)))
}

/// For every state the states that the engine may go to without a token.
pub fn idle_steps_of<TT>(sm: &StateManager<TT>, empty: &Vec<bool>) -> (steps: Vec<Vec<StateId>>)
    ensures
        graph_of(steps@) == idle_graph(*sm, empty@),
{
    let mut steps: Vec<Vec<StateId>> = Vec::new();
    let mut s: usize = 0;
    while s < sm.states.len()
        invariant
            s <= sm.states@.len(),
            steps@.len() == s,
            forall|i: int| 0 <= i < s ==> (#[trigger] steps@[i])@ == idle_steps(*sm, empty@, i),
        decreases sm.states@.len() - s,
    {
        let st = &sm.states[s];
        let mut one: Vec<StateId> = Vec::new();
        match &st.action {
            StateAction::Split => {
                one = copy_ids(&st.transitions);
            },
            StateAction::Call(callee, resume) => {
                if *callee < sm.start_states.len() {
                    one.push(sm.start_states[*callee]);
                    if *callee < empty.len() && empty[*callee] {
                        one.push(*resume);
                        assert(one@ =~= seq![sm.start_states@[*callee as int], *resume]);
                    } else {
                        assert(one@ =~= seq![sm.start_states@[*callee as int]]);
                    }
                }
            },
            _ => {},
        }
        assert(one@ =~= idle_steps(*sm, empty@, s as int));
        steps.push(one);
        s += 1;
    }
    assert(graph_of(steps@) =~= idle_graph(*sm, empty@));
    steps
}

/// One alternative that may match nothing makes the choice one that may.
proof fn lemma_any_skip_at(alternatives: Seq<Syntax>, names: Seq<Seq<char>>, empty: Seq<bool>, i: int)
    requires
        0 <= i < alternatives.len(),
        may_skip(alternatives[i], names, empty),
    ensures
        any_may_skip(alternatives, names, empty),
    decreases alternatives.len(),
{
    if i < alternatives.len() - 1 {
        lemma_any_skip_at(alternatives.drop_last(), names, empty, i);
    }
}

/// All of some grammatical records are grammatical one by one.
proof fn lemma_each_grammatical(rules: Seq<RuleSyntax>, token_is: TokenTest, records: Seq<Record>)
    requires
        all_grammatical(rules, token_is, records),
    ensures
        forall|i: int| 0 <= i < records.len() ==> grammatical(rules, token_is, #[trigger] records[i]),
    decreases records.len(),
{
    if records.len() > 0 {
        let rest = records.subrange(1, records.len() as int);
        lemma_each_grammatical(rules, token_is, rest);
        assert forall|i: int| 0 <= i < records.len() implies grammatical(
            rules,
            token_is,
            #[trigger] records[i],
        ) by {
            if i > 0 {
                assert(records[i] == rest[i - 1]);
            }
        }
    }
}

/// A grammatical record does not end before it starts, and where it ends
/// where it starts, its rule is one that may match nothing.
pub proof fn lemma_record_advances(rules: Seq<RuleSyntax>, token_is: TokenTest, record: Record)
    requires
        rules.len() <= usize::MAX,
        grammatical(rules, token_is, record),
    ensures
        record.start <= record.end,
        record.start == record.end ==> matches_nothing(rules)[record.rule as int],
    decreases record, Shape::Token,
{
    let names = rule_names_of(rules);
    let body = rules[record.rule as int].body;
    let way = choose|way: Shape| #[trigger]
        trace(body, way, names, token_is, record.children, record.start, 0) == Some(
            (record.end, record.children.len()),
        );
    lemma_each_grammatical(rules, token_is, record.children);
    lemma_trace_advances(rules, body, way, token_is, record.children, record.start, 0);
    lemma_matches_nothing_settled(rules);
}

/// Matching never goes backward, and what matches without going forward
/// may match nothing.
pub proof fn lemma_trace_advances(
    rules: Seq<RuleSyntax>,
    e: Syntax,
    d: Shape,
    token_is: TokenTest,
    children: Seq<Record>,
    pos: nat,
    k: nat,
)
    requires
        rules.len() <= usize::MAX,
        forall|i: int|
            0 <= i < children.len() ==> grammatical(rules, token_is, #[trigger] children[i]),
    ensures
        trace(e, d, rule_names_of(rules), token_is, children, pos, k) matches Some((end, used))
            ==> pos <= end && (end == pos ==> may_skip(
            e,
            rule_names_of(rules),
            matches_nothing(rules),
        )),
    decreases children, d,
{
    let names = rule_names_of(rules);
    let empty = matches_nothing(rules);
    match e {
        Syntax::Symbol(name) => {
            lemma_rule_index(names, name);
            match rule_index(names, name) {
                Some(rule) => {
                    if d is Call && calls_at(children, k, rule as usize, pos) {
                        lemma_record_advances(rules, token_is, children[k as int]);
                        lemma_matches_nothing_settled(rules);
                    }
                },
                None => {},
            }
        },
        Syntax::Sequence(members) => {
            match d {
                Shape::Sequence(ways) => {
                    lemma_members_advance(rules, members, ways, token_is, children, pos, k);
                },
                _ => {},
            }
        },
        Syntax::Alternation(alternatives) => {
            match d {
                Shape::Choice(i, way) => {
                    if i < alternatives.len() {
                        lemma_trace_advances(
                            rules,
                            alternatives[i as int],
                            *way,
                            token_is,
                            children,
                            pos,
                            k,
                        );
                        if may_skip(alternatives[i as int], names, empty) {
                            lemma_any_skip_at(alternatives, names, empty, i as int);
                        }
                    }
                },
                _ => {},
            }
        },
        Syntax::Repetition(body) => {
            match d {
                Shape::Repeat(ways) => {
                    lemma_rounds_advance(rules, *body, ways, token_is, children, pos, k);
                },
                _ => {},
            }
        },
    }
}

proof fn lemma_members_advance(
    rules: Seq<RuleSyntax>,
    members: Seq<Syntax>,
    ways: Seq<Shape>,
    token_is: TokenTest,
    children: Seq<Record>,
    pos: nat,
    k: nat,
)
    requires
        rules.len() <= usize::MAX,
        forall|i: int|
            0 <= i < children.len() ==> grammatical(rules, token_is, #[trigger] children[i]),
    ensures
        trace_members(members, ways, rule_names_of(rules), token_is, children, pos, k) matches Some(
            (end, used),
        ) ==> pos <= end && (end == pos ==> all_may_skip(
            members,
            rule_names_of(rules),
            matches_nothing(rules),
        )),
    decreases children, ways,
{
    if ways.len() == members.len() && ways.len() > 0 {
        lemma_trace_advances(rules, members[0], ways[0], token_is, children, pos, k);
        if let Some((mid, used)) = trace(
            members[0],
            ways[0],
            rule_names_of(rules),
            token_is,
            children,
            pos,
            k,
        ) {
            lemma_members_advance(
                rules,
                members.subrange(1, members.len() as int),
                ways.subrange(1, ways.len() as int),
                token_is,
                children,
                mid,
                used,
            );
        }
    }
}

proof fn lemma_rounds_advance(
    rules: Seq<RuleSyntax>,
    body: Syntax,
    ways: Seq<Shape>,
    token_is: TokenTest,
    children: Seq<Record>,
    pos: nat,
    k: nat,
)
    requires
        rules.len() <= usize::MAX,
        forall|i: int|
            0 <= i < children.len() ==> grammatical(rules, token_is, #[trigger] children[i]),
    ensures
        trace_rounds(body, ways, rule_names_of(rules), token_is, children, pos, k) matches Some(
            (end, used),
        ) ==> pos <= end,
    decreases children, ways,
{
    if ways.len() > 0 {
        lemma_trace_advances(rules, body, ways[0], token_is, children, pos, k);
        if let Some((mid, used)) = trace(
            body,
            ways[0],
            rule_names_of(rules),
            token_is,
            children,
            pos,
            k,
        ) {
            lemma_rounds_advance(
                rules,
                body,
                ways.subrange(1, ways.len() as int),
                token_is,
                children,
                mid,
                used,
            );
        }
    }
}

/// A rule that the engine matches without a token is one that may match
/// nothing.
pub proof fn lemma_call_matches_nothing<TT: TokenType + TryFrom<Vec<char>>>(
    sm: &StateManager<TT>,
    rules: Seq<RuleSyntax>,
    kinds: Seq<&TT>,
    callee: RuleId,
    pos: nat,
    fuel: nat,
)
    requires
        realizes(*sm, blueprint(rules)),
        pos <= kinds.len(),
        callee < sm.start_states@.len(),
    ensures
        run(sm, kinds, callee, sm.start_states@[callee as int], pos, fuel) matches Outcome::Matched {
            end,
            ..
        } ==> pos <= end && (end == pos ==> callee < rules.len() && matches_nothing(
            rules,
        )[callee as int]),
{
    let start = sm.start_states@[callee as int];
    let path = lemma_run_sound(sm, kinds, callee, start, pos, fuel);
    if let Outcome::Matched { end, children, far } = run(sm, kinds, callee, start, pos, fuel) {
        let record = Record { rule: callee, start: pos, end, children };
        assert(rules.len() == sm.rule_names@.len() == sm.rule_names.len() <= usize::MAX);
        assert(path[0] == sm.start_states@[record.rule as int]);
        assert(derives(sm, kinds, record));
        lemma_derives_grammatical(sm, rules, kinds, record);
        lemma_record_advances(rules, token_test(kinds), record);
    }
}

/// The walk did not find itself going round in circles.
pub open spec fn no_circle(o: Outcome) -> bool {
    !(o matches Outcome::Fault(Fault::LeftRecursion(_)))
}

/// On a grammar that goes forward, a walk whose budget is above the rank of
/// its state never uses the budget up.
pub proof fn lemma_run_goes_forward<TT: TokenType + TryFrom<Vec<char>>>(
    sm: &StateManager<TT>,
    rules: Seq<RuleSyntax>,
    ranks: Seq<nat>,
    kinds: Seq<&TT>,
    rule: RuleId,
    state: StateId,
    pos: nat,
    fuel: nat,
)
    requires
        realizes(*sm, blueprint(rules)),
        falls_by(idle_graph(*sm, matches_nothing(rules)), ranks),
        pos <= kinds.len(),
        state < sm.states@.len() ==> ranks[state as int] < fuel,
    ensures
        no_circle(run(sm, kinds, rule, state, pos, fuel)),
    decreases remaining(kinds.len(), pos), fuel, 0nat,
{
    if state >= sm.states@.len() || fuel == 0 {
        return ;
    }
    let graph = idle_graph(*sm, matches_nothing(rules));
    let st = sm.states@[state as int];
    let steps = graph[state as int];
    assert(steps == idle_steps(*sm, matches_nothing(rules), state as int));
    match st.action {
        StateAction::Accept => {},
        StateAction::Match(tt) => {
            if st.transitions@.len() == 1 && pos < kinds.len() {
                let next = st.transitions@[0];
                if next < sm.states@.len() {
                    assert(ranks[next as int] < step_budget(sm));
                }
                lemma_run_goes_forward(sm, rules, ranks, kinds, rule, next, pos + 1, step_budget(sm));
            }
        },
        StateAction::Call(callee, resume) => {
            if callee < sm.start_states@.len() {
                let start = sm.start_states@[callee as int];
                assert(steps[0] == start);
                if start < sm.states@.len() {
                    assert(ranks[graph[state as int][0] as int] < ranks[state as int]);
                }
                lemma_run_goes_forward(sm, rules, ranks, kinds, callee, start, pos, (fuel - 1) as nat);
                lemma_call_matches_nothing(sm, rules, kinds, callee, pos, (fuel - 1) as nat);
                if let Outcome::Matched { end, children, far } = run(
                    sm,
                    kinds,
                    callee,
                    start,
                    pos,
                    (fuel - 1) as nat,
                ) {
                    if end > pos {
                        lemma_run(sm, kinds, callee, start, pos, (fuel - 1) as nat);
                        if resume < sm.states@.len() {
                            assert(ranks[resume as int] < step_budget(sm));
                        }
                        lemma_run_goes_forward(
                            sm,
                            rules,
                            ranks,
                            kinds,
                            rule,
                            resume,
                            end,
                            step_budget(sm),
                        );
                    } else {
                        assert(steps[1] == resume);
                        if resume < sm.states@.len() {
                            assert(ranks[graph[state as int][1] as int] < ranks[state as int]);
                        }
                        lemma_run_goes_forward(
                            sm,
                            rules,
                            ranks,
                            kinds,
                            rule,
                            resume,
                            pos,
                            (fuel - 1) as nat,
                        );
                    }
                }
            }
        },
        StateAction::Split => {
            lemma_alternatives_go_forward(
                sm,
                rules,
                ranks,
                kinds,
                rule,
                state,
                0,
                pos,
                (fuel - 1) as nat,
                pos,
            );
        },
    }
}

/// The same for a walk from a choice point.
pub proof fn lemma_alternatives_go_forward<TT: TokenType + TryFrom<Vec<char>>>(
    sm: &StateManager<TT>,
    rules: Seq<RuleSyntax>,
    ranks: Seq<nat>,
    kinds: Seq<&TT>,
    rule: RuleId,
    state: StateId,
    k: nat,
    pos: nat,
    fuel: nat,
    far: nat,
)
    requires
        realizes(*sm, blueprint(rules)),
        falls_by(idle_graph(*sm, matches_nothing(rules)), ranks),
        pos <= kinds.len(),
        state < sm.states@.len(),
        sm.states@[state as int].action is Split,
        ranks[state as int] <= fuel,
    ensures
        no_circle(run_alternatives(sm, kinds, rule, state, k, pos, fuel, far)),
    decreases
            remaining(kinds.len(), pos),
            fuel,
            sm.states@[state as int].transitions@.len() - k + 1,
{
    let transitions = sm.states@[state as int].transitions@;
    let graph = idle_graph(*sm, matches_nothing(rules));
    if k < transitions.len() {
        let next = transitions[k as int];
        assert(graph[state as int] == transitions);
        if next < sm.states@.len() {
            assert(ranks[graph[state as int][k as int] as int] < ranks[state as int]);
        }
        lemma_run_goes_forward(sm, rules, ranks, kinds, rule, next, pos, fuel);
        if let Outcome::Failed { far: far2 } = run(sm, kinds, rule, next, pos, fuel) {
            lemma_alternatives_go_forward(
                sm,
                rules,
                ranks,
                kinds,
                rule,
                state,
                k + 1,
                pos,
                fuel,
                later(far, far2),
            );
        }
    }
}

/// On a compiled grammar the engine never finds itself going round in
/// circles: a parse does not end with `LeftRecursion`. Where the start rule
/// is one of the grammar, a parse that fails does so at a token, with the
/// position of that token.
pub proof fn lemma_compiled_parse_goes_forward<TT: TokenType + TryFrom<Vec<char>>>(
    sm: &StateManager<TT>,
    rules: Seq<RuleSyntax>,
    kinds: Seq<&TT>,
    start_rule: RuleId,
)
    requires
        realizes(*sm, blueprint(rules)),
        goes_forward(*sm, rules),
    ensures
        !(parse_result(sm, kinds, start_rule) matches Err(Fault::LeftRecursion(_))),
        sm.well_formed() && start_rule < sm.start_states@.len() ==> (parse_result(
            sm,
            kinds,
            start_rule,
        ) matches Err(e) ==> e matches Fault::UnexpectedToken(index) && index <= kinds.len()),
{
    let graph = idle_graph(*sm, matches_nothing(rules));
    let ranks = choose|ranks: Seq<nat>| falls_by(graph, ranks);
    if start_rule < sm.start_states@.len() {
        let start = sm.start_states@[start_rule as int];
        lemma_run_goes_forward(sm, rules, ranks, kinds, start_rule, start, 0, step_budget(sm));
        lemma_parse_result_in_bounds(sm, kinds, start_rule);
        if sm.well_formed() {
            lemma_parse_result_well_formed(sm, kinds, start_rule);
        }
    }
}

/// The token type does not both take a name and reject it.
pub open spec fn steady<TT: TokenType + TryFrom<Vec<char>>>() -> bool {
    forall|name: Seq<char>, token_type: TT|
        !(rejected::<TT>(name) && #[trigger] resolves_to(name, token_type))
}

/// Compiling one text twice comes to the same: where the token type does
/// not both take a name and reject it, both compilations succeed or both
/// fail; two that fail give the same error, with the same offset or the
/// same cycle; two that succeed give the same tables.
pub proof fn lemma_compiling_agrees<TT: TokenType + TryFrom<Vec<char>>>(
    text: Seq<u8>,
    a: Result<StateManager<TT>, BNFCompileError>,
    b: Result<StateManager<TT>, BNFCompileError>,
)
    requires
        compiled(text, a),
        compiled(text, b),
        steady::<TT>(),
    ensures
        a is Ok <==> b is Ok,
        a matches Err(x) ==> (b matches Err(y) ==> x@ == y@),
        a matches Ok(first) ==> (b matches Ok(second) ==> {
            &&& names_of(first.rule_names@) == names_of(second.rule_names@)
            &&& first.start_states@ == second.start_states@
            &&& first.states@.len() == second.states@.len()
            &&& forall|s: int|
                0 <= s < first.states@.len() ==> outline_of(#[trigger] first.states@[s])
                    == outline_of(second.states@[s]) && first.states@[s].transitions@
                    == second.states@[s].transitions@
        }),
{
    if let Ok(rules) = grammar_of(text) {
        let plan = blueprint(rules);
        lemma_outcomes_apart(rules, a, b);
        lemma_outcomes_apart(rules, b, a);
        if let Ok(first) = a {
            if let Ok(second) = b {
                lemma_same_plan_same_tables(first, second, plan);
            }
        }
    }
}

/// What one compilation says of the rules shuts out every other outcome of
/// another.
proof fn lemma_outcomes_apart<TT: TokenType + TryFrom<Vec<char>>>(
    rules: Seq<RuleSyntax>,
    a: Result<StateManager<TT>, BNFCompileError>,
    b: Result<StateManager<TT>, BNFCompileError>,
)
    requires
        outcome_of(rules, a),
        outcome_of(rules, b),
        steady::<TT>(),
    ensures
        a is Ok ==> b is Ok,
        a matches Err(x) ==> (b matches Err(y) ==> x@ == y@),
{
    let plan = blueprint(rules);
    let graph = left_calls(rules);
    let empty = matches_nothing(rules);
    // A name that is rejected is taken in no table of the plan.
    if rejects_some::<TT>(plan) {
        let s = choose|s: int| 0 <= s < plan.nodes.len() && rejected_at::<TT>(#[trigger] plan.nodes[s]);
        assert forall|sm: StateManager<TT>| !realizes(sm, plan) by {
            if realizes(sm, plan) {
                assert(realized(plan.nodes[s], sm.states@[s]));
            }
        }
    }
    match a {
        Ok(first) => {
            match b {
                Ok(_) => {},
                Err(BNFCompileError::UndefinedTokenIdentifier) => {},
                Err(BNFCompileError::ParseError(ParseError::LeftRecursion(cycle))) => {
                    assert(is_cycle(graph, cycle@));
                },
                Err(BNFCompileError::ParseError(ParseError::UnexpectedToken(_))) => {},
                Err(_) => {},
            }
        },
        Err(BNFCompileError::ParseError(ParseError::LeftRecursion(cycle))) => {
            assert(is_cycle(graph, cycle@));
        },
        Err(_) => {
            if let Err(BNFCompileError::ParseError(ParseError::LeftRecursion(cycle))) = b {
                assert(is_cycle(graph, cycle@));
            }
        },
    }
}

/// A parse on a grammar that was compiled fails only at a token: where
/// compiling a text gave a grammar, a parse from one of its rules yields a
/// record or `UnexpectedToken` with a position in the input or at its end,
/// and never `LeftRecursion`, `UnexpectedState` or `UnexpectedRule`.
pub proof fn lemma_compiled_grammar_fails_at_a_token<TT: TokenType + TryFrom<Vec<char>>>(
    text: Seq<u8>,
    sm: StateManager<TT>,
    kinds: Seq<&TT>,
    start_rule: RuleId,
)
    requires
        compiled(text, Ok::<StateManager<TT>, BNFCompileError>(sm)),
        start_rule < sm.start_states@.len(),
    ensures
        parse_result(&sm, kinds, start_rule) matches Err(e) ==> e matches Fault::UnexpectedToken(
            index,
        ) && index <= kinds.len(),
{
    let rules = grammar_of(text)->Ok_0;
    lemma_compiled_parse_goes_forward(&sm, rules, kinds, start_rule);
}

} // verus!
