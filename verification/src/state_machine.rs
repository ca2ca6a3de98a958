//! The states of a compiled grammar and the engine that runs them.
use crate::bnf_rules_compiler::{RuleId, StateId, StateManager};
use crate::error::{Fault, ParseError};
use crate::match_record::{chained, prepend, records, well_nested, MatchRecord, Record};
use vstd::prelude::*;
use vstd::std_specs::cmp::PartialEqSpec;

verus! {

/// A category of tokens, chosen by the caller. The engine only ever
/// compares two of them with `==`.
pub trait TokenType: Clone + Eq + std::hash::Hash {
}

/// A token of the caller's: all that the engine asks of it is its category.
pub trait Token<TT: TokenType> {
    fn token_type(&self) -> &TT;
}

/// What a state does when the engine reaches it.
#[derive(Debug)]
pub enum StateAction<TT> {
    /// Consume one token of this type and go on to the only transition.
    Match(TT),
    /// Match the rule from its start state, then go on to the given state.
    Call(RuleId, StateId),
    /// Try the transitions in order.
    Split,
    /// The rule has matched.
    Accept,
}

/// A node of the state graph.
#[derive(Debug)]
pub struct State<TT> {
    pub action: StateAction<TT>,
    pub transitions: Vec<StateId>,
}

/// What a walk from one state comes to. `far` is the furthest position that
/// the walk has looked at: where it stopped, or where an alternative that it
/// gave up had failed.
pub enum Outcome {
    /// The rule's accepting state was reached at `end`; `children` are the
    /// records of the rules called on the way.
    Matched { end: nat, children: Seq<Record>, far: nat },
    /// Every alternative failed.
    Failed { far: nat },
    /// The table is broken, or the walk goes round in circles.
    Fault(Fault),
}

/// The larger of two positions.
pub open spec fn later(a: nat, b: nat) -> nat {
    if a >= b {
        a
    } else {
        b
    }
}

/// How many steps a walk may nest without consuming a token: a walk that
/// nests deeper meets some state twice at one position, and would never end.
pub open spec fn step_budget<TT>(sm: &StateManager<TT>) -> nat {
    sm.states@.len()
}

/// A measure of the input that is left at `pos`.
pub open spec fn remaining(len: nat, pos: nat) -> nat {
    if pos <= len {
        (len - pos + 1) as nat
    } else {
        0
    }
}

/// The outcome of the walk that follows a call: `record` is the callee's
/// match and `far` the furthest position that the callee looked at.
pub open spec fn after_call(record: Record, far: nat, rest: Outcome) -> Outcome {
    match rest {
        Outcome::Matched { end, children, far: far2 } => Outcome::Matched {
            end,
            children: seq![record] + children,
            far: later(far, far2),
        },
        Outcome::Failed { far: far2 } => Outcome::Failed { far: later(far, far2) },
        Outcome::Fault(e) => Outcome::Fault(e),
    }
}

/// The walk of the engine from `state` at position `pos` inside `rule`.
/// `kinds` are the types of the tokens; `fuel` is what is left of the step
/// budget since the last token was consumed.
pub open spec fn run<TT: TokenType>(
    sm: &StateManager<TT>,
    kinds: Seq<&TT>,
    rule: RuleId,
    state: StateId,
    pos: nat,
    fuel: nat,
) -> Outcome
    decreases remaining(kinds.len(), pos), fuel, 0nat,
{
    if pos > kinds.len() {
        Outcome::Failed { far: pos }
    } else if state >= sm.states@.len() {
        Outcome::Fault(Fault::UnexpectedState(state))
    } else if fuel == 0 {
        Outcome::Fault(Fault::LeftRecursion(seq![rule]))
    } else {
        let st = sm.states@[state as int];
        match st.action {
            StateAction::Accept => Outcome::Matched { end: pos, children: Seq::empty(), far: pos },
            StateAction::Match(tt) => {
                if st.transitions@.len() != 1 {
                    Outcome::Fault(Fault::UnexpectedState(state))
                } else if pos < kinds.len() && kinds[pos as int].eq_spec(&tt) {
                    run(sm, kinds, rule, st.transitions@[0], pos + 1, step_budget(sm))
                } else {
                    Outcome::Failed { far: pos }
                }
            },
            StateAction::Call(callee, resume) => {
                if callee >= sm.start_states@.len() {
                    Outcome::Fault(Fault::UnexpectedRule(callee))
                } else {
                    match run(
                        sm,
                        kinds,
                        callee,
                        sm.start_states@[callee as int],
                        pos,
                        (fuel - 1) as nat,
                    ) {
                        Outcome::Matched { end, children, far } => {
                            let record = Record { rule: callee, start: pos, end, children };
                            if end > pos {
                                after_call(
                                    record,
                                    far,
                                    run(sm, kinds, rule, resume, end, step_budget(sm)),
                                )
                            } else {
                                after_call(
                                    record,
                                    far,
                                    run(sm, kinds, rule, resume, pos, (fuel - 1) as nat),
                                )
                            }
                        },
                        other => other,
                    }
                }
            },
            StateAction::Split => run_alternatives(
                sm,
                kinds,
                rule,
                state,
                0,
                pos,
                (fuel - 1) as nat,
                pos,
            ),
        }
    }
}

/// The walk from the choice point `state`, from its `k`-th transition on:
/// the first transition whose walk matches is taken. `far` is the furthest
/// position that the transitions before `k` looked at.
pub open spec fn run_alternatives<TT: TokenType>(
    sm: &StateManager<TT>,
    kinds: Seq<&TT>,
    rule: RuleId,
    state: StateId,
    k: nat,
    pos: nat,
    fuel: nat,
    far: nat,
) -> Outcome
    decreases remaining(kinds.len(), pos), fuel, sm.states@[state as int].transitions@.len() - k + 1,
{
    let transitions = sm.states@[state as int].transitions@;
    if k >= transitions.len() {
        Outcome::Failed { far }
    } else {
        match run(sm, kinds, rule, transitions[k as int], pos, fuel) {
            Outcome::Matched { end, children, far: far2 } => Outcome::Matched {
                end,
                children,
                far: later(far, far2),
            },
            Outcome::Failed { far: far2 } => run_alternatives(
                sm,
                kinds,
                rule,
                state,
                k + 1,
                pos,
                fuel,
                later(far, far2),
            ),
            Outcome::Fault(e) => Outcome::Fault(e),
        }
    }
}

/// What matching `start_rule` against the whole input comes to: the record
/// of the prefix that the rule matched, the furthest position at which the
/// input left the grammar, or the fault in the table.
pub open spec fn parse_result<TT: TokenType>(
    sm: &StateManager<TT>,
    kinds: Seq<&TT>,
    start_rule: RuleId,
) -> Result<Record, Fault> {
    if start_rule >= sm.start_states@.len() {
        Err(Fault::UnexpectedRule(start_rule))
    } else {
        match run(sm, kinds, start_rule, sm.start_states@[start_rule as int], 0, step_budget(sm)) {
            Outcome::Matched { end, children, far } => Ok(
                Record { rule: start_rule, start: 0, end, children },
            ),
            Outcome::Failed { far } => Err(Fault::UnexpectedToken(far)),
            Outcome::Fault(e) => Err(e),
        }
    }
}

/// `kinds` are types that the tokens gave for themselves, one for each.
pub open spec fn types_of<TT: TokenType, T: Token<TT>>(tokens: Seq<T>, kinds: Seq<&TT>) -> bool {
    &&& kinds.len() == tokens.len()
    &&& forall|i: int|
        0 <= i < tokens.len() ==> call_ensures(T::token_type, (&tokens[i],), #[trigger] kinds[i])
}

/// The walk stays inside the input, what it matched is well nested, and a
/// fault that it reports is one of the table.
pub open spec fn in_bounds(o: Outcome, pos: nat, len: nat) -> bool {
    match o {
        Outcome::Matched { end, children, far } => {
            &&& pos <= end <= far <= len
            &&& chained(children, pos, end)
        },
        Outcome::Failed { far } => pos <= far <= len,
        Outcome::Fault(e) => !(e is UnexpectedToken),
    }
}

/// The furthest position that a walk has looked at, where it ended without
/// a fault.
pub open spec fn reach(o: Outcome) -> Option<nat> {
    match o {
        Outcome::Matched { far, .. } => Some(far),
        Outcome::Failed { far } => Some(far),
        Outcome::Fault(_) => None,
    }
}

/// `other` is the input `kinds` as far as a walk can tell that has looked
/// no further than `far`: the same types up to and with position `far`, and
/// the same end where `far` is the end of `kinds`.
pub open spec fn same_up_to<TT>(kinds: Seq<&TT>, other: Seq<&TT>, far: nat) -> bool {
    &&& far < kinds.len() ==> far < other.len()
    &&& far >= kinds.len() ==> other.len() == kinds.len()
    &&& forall|i: int|
        #![trigger kinds[i]]
        #![trigger other[i]]
        0 <= i <= far && i < kinds.len() ==> other[i] == kinds[i]
}

/// An input that is the same up to a position is the same up to every
/// earlier one.
pub proof fn lemma_same_up_to_earlier<TT>(kinds: Seq<&TT>, other: Seq<&TT>, far: nat, earlier: nat)
    requires
        same_up_to(kinds, other, far),
        earlier <= far,
    ensures
        same_up_to(kinds, other, earlier),
{
}

/// The walk did not run into a state or a rule that the table lacks.
pub open spec fn no_table_fault(o: Outcome) -> bool {
    match o {
        Outcome::Fault(Fault::UnexpectedState(_)) => false,
        Outcome::Fault(Fault::UnexpectedRule(_)) => false,
        _ => true,
    }
}

/// A walk stays inside the input; on a well-formed table it never runs into
/// a missing state or rule.
pub proof fn lemma_run<TT: TokenType>(
    sm: &StateManager<TT>,
    kinds: Seq<&TT>,
    rule: RuleId,
    state: StateId,
    pos: nat,
    fuel: nat,
)
    requires
        pos <= kinds.len(),
    ensures
        in_bounds(run(sm, kinds, rule, state, pos, fuel), pos, kinds.len()),
        sm.well_formed() && state < sm.states@.len() ==> no_table_fault(
            run(sm, kinds, rule, state, pos, fuel),
        ),
    decreases remaining(kinds.len(), pos), fuel, 0nat,
{
    if state >= sm.states@.len() || fuel == 0 {
        return ;
    }
    let st = sm.states@[state as int];
    assert(sm.well_formed() ==> sm.state_well_formed(state as int));
    match st.action {
        StateAction::Accept => {},
        StateAction::Match(tt) => {
            if st.transitions@.len() == 1 && pos < kinds.len() && kinds[pos as int].eq_spec(&tt) {
                lemma_run(sm, kinds, rule, st.transitions@[0], pos + 1, step_budget(sm));
            }
        },
        StateAction::Call(callee, resume) => {
            if callee < sm.start_states@.len() {
                let first = run(
                    sm,
                    kinds,
                    callee,
                    sm.start_states@[callee as int],
                    pos,
                    (fuel - 1) as nat,
                );
                lemma_run(sm, kinds, callee, sm.start_states@[callee as int], pos, (fuel - 1) as nat);
                if let Outcome::Matched { end, children, far } = first {
                    let record = Record { rule: callee, start: pos, end, children };
                    let rest = if end > pos {
                        run(sm, kinds, rule, resume, end, step_budget(sm))
                    } else {
                        run(sm, kinds, rule, resume, pos, (fuel - 1) as nat)
                    };
                    if end > pos {
                        lemma_run(sm, kinds, rule, resume, end, step_budget(sm));
                    } else {
                        lemma_run(sm, kinds, rule, resume, pos, (fuel - 1) as nat);
                    }
                    if let Outcome::Matched { end: end2, children: more, far: far2 } = rest {
                        let all = seq![record] + more;
                        assert(all.subrange(1, all.len() as int) =~= more);
                        assert(all[0] == record);
                        assert(well_nested(record));
                        assert(chained(all, pos, end2));
                    }
                }
            }
        },
        StateAction::Split => {
            lemma_run_alternatives(sm, kinds, rule, state, 0, pos, (fuel - 1) as nat, pos);
        },
    }
}

/// The same for a walk from a choice point.
pub proof fn lemma_run_alternatives<TT: TokenType>(
    sm: &StateManager<TT>,
    kinds: Seq<&TT>,
    rule: RuleId,
    state: StateId,
    k: nat,
    pos: nat,
    fuel: nat,
    far: nat,
)
    requires
        pos <= far <= kinds.len(),
        state < sm.states@.len(),
    ensures
        in_bounds(
            run_alternatives(sm, kinds, rule, state, k, pos, fuel, far),
            pos,
            kinds.len(),
        ),
        sm.well_formed() && sm.states@[state as int].action is Split ==> no_table_fault(
            run_alternatives(sm, kinds, rule, state, k, pos, fuel, far),
        ),
        reach(run_alternatives(sm, kinds, rule, state, k, pos, fuel, far)) matches Some(seen)
            ==> far <= seen,
    decreases
            remaining(kinds.len(), pos),
            fuel,
            sm.states@[state as int].transitions@.len() - k + 1,
{
    let transitions = sm.states@[state as int].transitions@;
    if k < transitions.len() {
        assert(sm.well_formed() ==> sm.state_well_formed(state as int));
        lemma_run(sm, kinds, rule, transitions[k as int], pos, fuel);
        if let Outcome::Failed { far: far2 } = run(sm, kinds, rule, transitions[k as int], pos, fuel) {
            lemma_run_alternatives(sm, kinds, rule, state, k + 1, pos, fuel, later(far, far2));
        }
    }
}

/// A record that `parse` hands back starts at the first token, ends inside
/// the input and is well nested; a position that it reports lies inside the
/// input or at its end.
pub proof fn lemma_parse_result_in_bounds<TT: TokenType>(
    sm: &StateManager<TT>,
    kinds: Seq<&TT>,
    start_rule: RuleId,
)
    ensures
        match parse_result(sm, kinds, start_rule) {
            Ok(record) => {
                &&& record.rule == start_rule
                &&& record.start == 0
                &&& record.end <= kinds.len()
                &&& well_nested(record)
            },
            Err(Fault::UnexpectedToken(index)) => index <= kinds.len(),
            Err(_) => true,
        },
{
    if start_rule < sm.start_states@.len() {
        lemma_run(sm, kinds, start_rule, sm.start_states@[start_rule as int], 0, step_budget(sm));
        if let Ok(record) = parse_result(sm, kinds, start_rule) {
            assert(chained(record.children, record.start, record.end));
            assert(well_nested(record));
        }
    }
}

/// On a well-formed table `parse` reports a missing rule only for a start
/// rule that the table lacks, and never a missing state.
pub proof fn lemma_parse_result_well_formed<TT: TokenType>(
    sm: &StateManager<TT>,
    kinds: Seq<&TT>,
    start_rule: RuleId,
)
    requires
        sm.well_formed(),
    ensures
        match parse_result(sm, kinds, start_rule) {
            Err(Fault::UnexpectedState(_)) => false,
            Err(Fault::UnexpectedRule(rule)) => rule == start_rule && start_rule
                >= sm.start_states@.len(),
            _ => true,
        },
{
    if start_rule < sm.start_states@.len() {
        lemma_run(sm, kinds, start_rule, sm.start_states@[start_rule as int], 0, step_budget(sm));
    }
}

/// Ordered choice: at a choice point the first transition whose walk matches
/// is taken, whatever the later ones would do; the walk matches as that
/// transition's does.
pub proof fn lemma_first_match_wins<TT: TokenType>(
    sm: &StateManager<TT>,
    kinds: Seq<&TT>,
    rule: RuleId,
    state: StateId,
    pos: nat,
    fuel: nat,
    k: nat,
)
    requires
        pos <= kinds.len(),
        state < sm.states@.len(),
        fuel > 0,
        sm.states@[state as int].action is Split,
        k < sm.states@[state as int].transitions@.len(),
        forall|j: nat|
            j < k ==> #[trigger] run(
                sm,
                kinds,
                rule,
                sm.states@[state as int].transitions@[j as int],
                pos,
                (fuel - 1) as nat,
            ) is Failed,
        run(
            sm,
            kinds,
            rule,
            sm.states@[state as int].transitions@[k as int],
            pos,
            (fuel - 1) as nat,
        ) is Matched,
    ensures
        run(sm, kinds, rule, state, pos, fuel) is Matched,
        run(sm, kinds, rule, state, pos, fuel)->end == run(
            sm,
            kinds,
            rule,
            sm.states@[state as int].transitions@[k as int],
            pos,
            (fuel - 1) as nat,
        )->end,
        run(sm, kinds, rule, state, pos, fuel)->children == run(
            sm,
            kinds,
            rule,
            sm.states@[state as int].transitions@[k as int],
            pos,
            (fuel - 1) as nat,
        )->children,
{
    lemma_alternatives_from(sm, kinds, rule, state, pos, (fuel - 1) as nat, k, 0, pos);
}

proof fn lemma_alternatives_from<TT: TokenType>(
    sm: &StateManager<TT>,
    kinds: Seq<&TT>,
    rule: RuleId,
    state: StateId,
    pos: nat,
    fuel: nat,
    k: nat,
    from: nat,
    far: nat,
)
    requires
        from <= k < sm.states@[state as int].transitions@.len(),
        forall|j: nat|
            j < k ==> #[trigger] run(
                sm,
                kinds,
                rule,
                sm.states@[state as int].transitions@[j as int],
                pos,
                fuel,
            ) is Failed,
        run(sm, kinds, rule, sm.states@[state as int].transitions@[k as int], pos, fuel) is Matched,
    ensures
        run_alternatives(sm, kinds, rule, state, from, pos, fuel, far) is Matched,
        run_alternatives(sm, kinds, rule, state, from, pos, fuel, far)->end == run(
            sm,
            kinds,
            rule,
            sm.states@[state as int].transitions@[k as int],
            pos,
            fuel,
        )->end,
        run_alternatives(sm, kinds, rule, state, from, pos, fuel, far)->children == run(
            sm,
            kinds,
            rule,
            sm.states@[state as int].transitions@[k as int],
            pos,
            fuel,
        )->children,
    decreases k - from,
{
    if from < k {
        let o = run(sm, kinds, rule, sm.states@[state as int].transitions@[from as int], pos, fuel);
        assert(o is Failed);
        lemma_alternatives_from(sm, kinds, rule, state, pos, fuel, k, from + 1, later(far, o->Failed_far));
    }
}

/// A repetition may match nothing: at a choice point between a body that
/// begins with a token type and an exit, where the next token is not of
/// that type or the input has ended, the walk goes on at the exit from the
/// same position. Where the exit is the accepting state, the rule matches
/// there without a token.
pub proof fn lemma_repetition_may_match_nothing<TT: TokenType>(
    sm: &StateManager<TT>,
    kinds: Seq<&TT>,
    rule: RuleId,
    state: StateId,
    pos: nat,
    fuel: nat,
)
    requires
        pos <= kinds.len(),
        fuel >= 2,
        state < sm.states@.len(),
        sm.states@[state as int].action is Split,
        sm.states@[state as int].transitions@.len() == 2,
        sm.states@[state as int].transitions@[0] < sm.states@.len(),
        sm.states@[sm.states@[state as int].transitions@[0] as int].transitions@.len() == 1,
        sm.states@[sm.states@[state as int].transitions@[0] as int].action matches StateAction::Match(
            wanted,
        ) && !(pos < kinds.len() && kinds[pos as int].eq_spec(&wanted)),
    ensures
        run(sm, kinds, rule, state, pos, fuel) == run(
            sm,
            kinds,
            rule,
            sm.states@[state as int].transitions@[1],
            pos,
            (fuel - 1) as nat,
        ),
        sm.states@[state as int].transitions@[1] < sm.states@.len()
            && sm.states@[sm.states@[state as int].transitions@[1] as int].action is Accept ==> run(
            sm,
            kinds,
            rule,
            state,
            pos,
            fuel,
        ) == (Outcome::Matched { end: pos, children: Seq::empty(), far: pos }),
{
    let transitions = sm.states@[state as int].transitions@;
    let left = (fuel - 1) as nat;
    let body = run(sm, kinds, rule, transitions[0], pos, left);
    let exit = run(sm, kinds, rule, transitions[1], pos, left);
    assert(body == Outcome::Failed { far: pos });
    lemma_run(sm, kinds, rule, transitions[1], pos, left);
    match exit {
        Outcome::Matched { end, children, far } => {
            assert(later(pos, far) == far);
        },
        Outcome::Failed { far } => {
            assert(later(pos, far) == far);
            assert(run_alternatives(sm, kinds, rule, state, 2, pos, left, far)
                == Outcome::Failed { far });
        },
        Outcome::Fault(_) => {},
    }
    assert(later(pos, pos) == pos);
    assert(run_alternatives(sm, kinds, rule, state, 1, pos, left, pos) == exit);
    assert(run_alternatives(sm, kinds, rule, state, 0, pos, left, pos) == exit);
}

/// A walk that ends without a fault ends in the same way on every input that
/// is the same as far as the walk has looked.
pub proof fn lemma_run_looks_no_further<TT: TokenType>(
    sm: &StateManager<TT>,
    kinds: Seq<&TT>,
    other: Seq<&TT>,
    rule: RuleId,
    state: StateId,
    pos: nat,
    fuel: nat,
)
    requires
        pos <= kinds.len(),
        reach(run(sm, kinds, rule, state, pos, fuel)) matches Some(far) && same_up_to(
            kinds,
            other,
            far,
        ),
    ensures
        run(sm, other, rule, state, pos, fuel) == run(sm, kinds, rule, state, pos, fuel),
    decreases remaining(kinds.len(), pos), fuel, 0nat,
{
    lemma_run(sm, kinds, rule, state, pos, fuel);
    let o = run(sm, kinds, rule, state, pos, fuel);
    let seen = reach(o)->Some_0;
    assert(pos <= seen);
    if pos < kinds.len() {
        assert(other[pos as int] == kinds[pos as int]);
    }
    assert(pos <= other.len());
    if state >= sm.states@.len() || fuel == 0 {
        return ;
    }
    let st = sm.states@[state as int];
    match st.action {
        StateAction::Accept => {},
        StateAction::Match(tt) => {
            if st.transitions@.len() == 1 && pos < kinds.len() && kinds[pos as int].eq_spec(&tt) {
                lemma_run_looks_no_further(
                    sm,
                    kinds,
                    other,
                    rule,
                    st.transitions@[0],
                    pos + 1,
                    step_budget(sm),
                );
            }
        },
        StateAction::Call(callee, resume) => {
            if callee < sm.start_states@.len() {
                let start = sm.start_states@[callee as int];
                let first = run(sm, kinds, callee, start, pos, (fuel - 1) as nat);
                lemma_run(sm, kinds, callee, start, pos, (fuel - 1) as nat);
                match first {
                    Outcome::Matched { end, children, far } => {
                        let record = Record { rule: callee, start: pos, end, children };
                        let at = if end > pos {
                            end
                        } else {
                            pos
                        };
                        let left = if end > pos {
                            step_budget(sm)
                        } else {
                            (fuel - 1) as nat
                        };
                        let rest = run(sm, kinds, rule, resume, at, left);
                        assert(o == after_call(record, far, rest));
                        assert(reach(rest) is Some);
                        assert(far <= seen);
                        assert(reach(rest)->Some_0 <= seen);
                        lemma_same_up_to_earlier(kinds, other, seen, far);
                        lemma_same_up_to_earlier(kinds, other, seen, reach(rest)->Some_0);
                        lemma_run_looks_no_further(
                            sm,
                            kinds,
                            other,
                            callee,
                            start,
                            pos,
                            (fuel - 1) as nat,
                        );
                        lemma_run_looks_no_further(sm, kinds, other, rule, resume, at, left);
                    },
                    Outcome::Failed { far } => {
                        lemma_run_looks_no_further(
                            sm,
                            kinds,
                            other,
                            callee,
                            start,
                            pos,
                            (fuel - 1) as nat,
                        );
                    },
                    Outcome::Fault(_) => {},
                }
            }
        },
        StateAction::Split => {
            lemma_alternatives_look_no_further(
                sm,
                kinds,
                other,
                rule,
                state,
                0,
                pos,
                (fuel - 1) as nat,
                pos,
            );
        },
    }
}

/// The same for a walk from a choice point.
pub proof fn lemma_alternatives_look_no_further<TT: TokenType>(
    sm: &StateManager<TT>,
    kinds: Seq<&TT>,
    other: Seq<&TT>,
    rule: RuleId,
    state: StateId,
    k: nat,
    pos: nat,
    fuel: nat,
    far: nat,
)
    requires
        pos <= far <= kinds.len(),
        state < sm.states@.len(),
        reach(run_alternatives(sm, kinds, rule, state, k, pos, fuel, far)) matches Some(seen)
            && same_up_to(kinds, other, seen),
    ensures
        run_alternatives(sm, other, rule, state, k, pos, fuel, far) == run_alternatives(
            sm,
            kinds,
            rule,
            state,
            k,
            pos,
            fuel,
            far,
        ),
    decreases
            remaining(kinds.len(), pos),
            fuel,
            sm.states@[state as int].transitions@.len() - k + 1,
{
    let transitions = sm.states@[state as int].transitions@;
    let o = run_alternatives(sm, kinds, rule, state, k, pos, fuel, far);
    let seen = reach(o)->Some_0;
    if k < transitions.len() {
        let next = transitions[k as int];
        lemma_run(sm, kinds, rule, next, pos, fuel);
        match run(sm, kinds, rule, next, pos, fuel) {
            Outcome::Matched { end, children, far: far2 } => {
                assert(far2 <= seen);
                lemma_same_up_to_earlier(kinds, other, seen, far2);
                lemma_run_looks_no_further(sm, kinds, other, rule, next, pos, fuel);
            },
            Outcome::Failed { far: far2 } => {
                lemma_run_alternatives(sm, kinds, rule, state, k + 1, pos, fuel, later(far, far2));
                assert(far2 <= seen);
                lemma_same_up_to_earlier(kinds, other, seen, far2);
                lemma_run_looks_no_further(sm, kinds, other, rule, next, pos, fuel);
                lemma_alternatives_look_no_further(
                    sm,
                    kinds,
                    other,
                    rule,
                    state,
                    k + 1,
                    pos,
                    fuel,
                    later(far, far2),
                );
            },
            Outcome::Fault(_) => {},
        }
    }
}

/// A failure is local: where `parse` reports position `index`, it has
/// looked at no token behind that position, and reports the same on every
/// input with the same tokens up to and with it.
pub proof fn lemma_failure_is_local<TT: TokenType>(
    sm: &StateManager<TT>,
    kinds: Seq<&TT>,
    other: Seq<&TT>,
    start_rule: RuleId,
    index: nat,
)
    requires
        parse_result(sm, kinds, start_rule) == Err::<Record, Fault>(Fault::UnexpectedToken(index)),
        same_up_to(kinds, other, index),
    ensures
        parse_result(sm, other, start_rule) == Err::<Record, Fault>(Fault::UnexpectedToken(index)),
{
    if start_rule < sm.start_states@.len() {
        let start = sm.start_states@[start_rule as int];
        lemma_run(sm, kinds, start_rule, start, 0, step_budget(sm));
        lemma_run_looks_no_further(sm, kinds, other, start_rule, start, 0, step_budget(sm));
    }
}

/// What a walk of the engine hands back.
enum Step {
    Matched { end: usize, children: Vec<MatchRecord>, far: usize },
    Failed { far: usize },
    Fault(ParseError),
}

impl View for Step {
    type V = Outcome;

    closed spec fn view(&self) -> Outcome {
        match self {
            Step::Matched { end, children, far } => Outcome::Matched {
                end: *end as nat,
                children: records(children@),
                far: *far as nat,
            },
            Step::Failed { far } => Outcome::Failed { far: *far as nat },
            Step::Fault(e) => Outcome::Fault(e@),
        }
    }
}

/// The model of what `parse` hands back.
pub open spec fn result_view(r: Result<MatchRecord, ParseError>) -> Result<Record, Fault> {
    match r {
        Ok(record) => Ok(record@),
        Err(e) => Err(e@),
    }
}

/// Whatever `==` on the token type does: a record that is handed back is
/// one of the start rule, starts at the first token, ends inside the input
/// and is well nested, and a position that is reported lies inside the
/// input or at its end.
pub open spec fn within_input(
    r: Result<MatchRecord, ParseError>,
    start_rule: RuleId,
    len: nat,
) -> bool {
    match r {
        Ok(record) => {
            &&& record@.rule == start_rule
            &&& record@.start == 0
            &&& record@.end <= len
            &&& well_nested(record@)
        },
        Err(ParseError::UnexpectedToken(index)) => index <= len,
        Err(_) => true,
    }
}

/// A rule that the walk reports as missing is missing from the table.
pub open spec fn missing_rule_is_missing<TT>(o: Outcome, sm: &StateManager<TT>) -> bool {
    o matches Outcome::Fault(Fault::UnexpectedRule(rule)) ==> rule >= sm.start_states@.len()
}

/// Whatever `==` on the token type does, the table is reported as broken
/// only where it is: a start rule that the table lacks is reported as such
/// and nothing else is; no other rule is reported that the table has; and
/// on a well-formed table no state is reported and no rule but a missing
/// start rule.
pub open spec fn true_to_table<TT>(
    r: Result<MatchRecord, ParseError>,
    sm: &StateManager<TT>,
    start_rule: RuleId,
) -> bool {
    &&& start_rule >= sm.start_states@.len() ==> (r matches Err(
        ParseError::UnexpectedRule(rule),
    ) && rule == start_rule)
    &&& r matches Err(ParseError::UnexpectedRule(rule)) ==> rule >= sm.start_states@.len()
    &&& sm.well_formed() ==> !(r matches Err(ParseError::UnexpectedState(_)))
    &&& sm.well_formed() && start_rule < sm.start_states@.len() ==> !(r matches Err(
        ParseError::UnexpectedRule(_),
    ))
}

/// Whether two token types are the same, as `==` decides it.
pub fn same_type<TT: TokenType>(a: &TT, b: &TT) -> (r: bool)
    ensures
        TT::obeys_eq_spec() ==> r == a.eq_spec(b),
{
    a == b
}

fn later_of(a: usize, b: usize) -> (r: usize)
    ensures
        r == later(a as nat, b as nat),
{
    if a >= b {
        a
    } else {
        b
    }
}

fn finish_call(record: MatchRecord, far: usize, rest: Step, len: usize) -> (r: Step)
    requires
        well_nested(record@),
        record@.end <= far <= len,
        in_bounds(rest@, record@.end, len as nat),
    ensures
        r@ == after_call(record@, far as nat, rest@),
        r is Matched ==> rest is Matched && r->end == rest->end,
        in_bounds(r@, record@.start, len as nat),
        r is Fault ==> r@ == rest@,
{
    match rest {
        Step::Matched { end, children, far: far2 } => {
            let ghost first = record@;
            let ghost more = records(children@);
            let children = prepend(record, children);
            proof {
                let all = seq![first] + more;
                assert(all.subrange(1, all.len() as int) =~= more);
                assert(all[0] == first);
                assert(chained(all, first.start, end as nat));
            }
            Step::Matched { end, children, far: later_of(far, far2) }
        },
        Step::Failed { far: far2 } => Step::Failed { far: later_of(far, far2) },
        Step::Fault(e) => Step::Fault(e),
    }
}

fn walk<TT: TokenType>(
    sm: &StateManager<TT>,
    kinds: &Vec<&TT>,
    rule: RuleId,
    state: StateId,
    pos: usize,
    fuel: usize,
) -> (r: Step)
    requires
        pos <= kinds.len(),
    ensures
        r is Matched ==> pos <= r->end <= kinds.len(),
        in_bounds(r@, pos as nat, kinds@.len()),
        missing_rule_is_missing(r@, sm),
        sm.well_formed() && state < sm.states@.len() ==> no_table_fault(r@),
        TT::obeys_eq_spec() ==> r@ == run(sm, kinds@, rule, state, pos as nat, fuel as nat),
    decreases remaining(kinds@.len(), pos as nat), fuel, 0nat,
{
    assert(sm.well_formed() && state < sm.states@.len() ==> sm.state_well_formed(state as int));
    if state >= sm.states.len() {
        return Step::Fault(ParseError::UnexpectedState(state));
    }
    if fuel == 0 {
        let mut cycle: Vec<RuleId> = Vec::new();
        cycle.push(rule);
        assert(cycle@ =~= seq![rule]);
        return Step::Fault(ParseError::LeftRecursion(cycle));
    }
    let st = &sm.states[state];
    match &st.action {
        StateAction::Accept => {
            let children: Vec<MatchRecord> = Vec::new();
            assert(records(children@) =~= Seq::empty());
            Step::Matched { end: pos, children, far: pos }
        },
        StateAction::Match(tt) => {
            if st.transitions.len() != 1 {
                Step::Fault(ParseError::UnexpectedState(state))
            } else if pos < kinds.len() && same_type(kinds[pos], tt) {
                walk(sm, kinds, rule, st.transitions[0], pos + 1, sm.states.len())
            } else {
                Step::Failed { far: pos }
            }
        },
        StateAction::Call(callee, resume) => {
            if *callee >= sm.start_states.len() {
                Step::Fault(ParseError::UnexpectedRule(*callee))
            } else {
                match walk(sm, kinds, *callee, sm.start_states[*callee], pos, fuel - 1) {
                    Step::Matched { end, children, far } => {
                        let record = MatchRecord::new(*callee, pos, end, children);
                        assert(well_nested(record@));
                        if end > pos {
                            let rest = walk(sm, kinds, rule, *resume, end, sm.states.len());
                            finish_call(record, far, rest, kinds.len())
                        } else {
                            let rest = walk(sm, kinds, rule, *resume, pos, fuel - 1);
                            finish_call(record, far, rest, kinds.len())
                        }
                    },
                    other => other,
                }
            }
        },
        StateAction::Split => walk_alternatives(sm, kinds, rule, state, 0, pos, fuel - 1, pos),
    }
}

fn walk_alternatives<TT: TokenType>(
    sm: &StateManager<TT>,
    kinds: &Vec<&TT>,
    rule: RuleId,
    state: StateId,
    k: usize,
    pos: usize,
    fuel: usize,
    far: usize,
) -> (r: Step)
    requires
        pos <= far <= kinds.len(),
        state < sm.states.len(),
    ensures
        r is Matched ==> pos <= r->end <= kinds.len(),
        in_bounds(r@, pos as nat, kinds@.len()),
        missing_rule_is_missing(r@, sm),
        sm.well_formed() && sm.states@[state as int].action is Split ==> no_table_fault(r@),
        TT::obeys_eq_spec() ==> r@ == run_alternatives(
            sm,
            kinds@,
            rule,
            state,
            k as nat,
            pos as nat,
            fuel as nat,
            far as nat,
        ),
    decreases
            remaining(kinds@.len(), pos as nat),
            fuel,
            sm.states@[state as int].transitions@.len() - k + 1,
{
    assert(sm.well_formed() ==> sm.state_well_formed(state as int));
    let st = &sm.states[state];
    if k >= st.transitions.len() {
        Step::Failed { far }
    } else {
        match walk(sm, kinds, rule, st.transitions[k], pos, fuel) {
            Step::Matched { end, children, far: far2 } => Step::Matched {
                end,
                children,
                far: later_of(far, far2),
            },
            Step::Failed { far: far2 } => walk_alternatives(
                sm,
                kinds,
                rule,
                state,
                k + 1,
                pos,
                fuel,
                later_of(far, far2),
            ),
            Step::Fault(e) => Step::Fault(e),
        }
    }
}

/// The engine, bound to one compiled grammar.
pub struct StateMachineParser<'a, TT> {
    pub state_manager: &'a StateManager<TT>,
}

impl<'a, TT: TokenType> StateMachineParser<'a, TT> {
    /// Binds an engine to `state_manager`.
    pub fn new(state_manager: &'a StateManager<TT>) -> (parser: Self)
        ensures
            parser.state_manager == state_manager,
    {
        StateMachineParser { state_manager }
    }

    /// Matches `start_rule` against a prefix of `tokens`. The engine asks
    /// every token for its type once, and decides on those answers alone,
    /// comparing them by `==` with the types that the states ask for.
    pub fn parse<T: Token<TT>>(&self, tokens: &Vec<T>, start_rule: RuleId) -> (r: Result<
        MatchRecord,
        ParseError,
    >)
        ensures
            exists|kinds: Seq<&TT>|
                {
                    &&& #[trigger] types_of(tokens@, kinds)
                    &&& TT::obeys_eq_spec() ==> result_view(r) == parse_result(
                        self.state_manager,
                        kinds,
                        start_rule,
                    )
                },
            within_input(r, start_rule, tokens@.len()),
            true_to_table(r, self.state_manager, start_rule),
    {
        let mut kinds: Vec<&TT> = Vec::new();
        let mut i: usize = 0;
        while i < tokens.len()
            invariant
                i <= tokens.len(),
                kinds@.len() == i,
                forall|j: int|
                    0 <= j < i ==> call_ensures(T::token_type, (&tokens@[j],), #[trigger] kinds@[j]),
            decreases tokens.len() - i,
        {
            kinds.push(tokens[i].token_type());
            i += 1;
        }
        let r = self.parse_token_types(&kinds, start_rule);
        assert(types_of(tokens@, kinds@));
        r
    }

    /// Matches `start_rule` against a prefix of the input, of which `kinds`
    /// gives each token's type. The result is that of `parse_result` for
    /// every token type whose `==` is its `eq_spec`.
    pub fn parse_token_types(&self, kinds: &Vec<&TT>, start_rule: RuleId) -> (r: Result<
        MatchRecord,
        ParseError,
    >)
        ensures
            TT::obeys_eq_spec() ==> result_view(r) == parse_result(
                self.state_manager,
                kinds@,
                start_rule,
            ),
            within_input(r, start_rule, kinds@.len()),
            true_to_table(r, self.state_manager, start_rule),
    {
        let sm = self.state_manager;
        if start_rule >= sm.start_states.len() {
            return Err(ParseError::UnexpectedRule(start_rule));
        }
        assert(sm.well_formed() ==> sm.start_states@[start_rule as int] < sm.states@.len());
        match walk(sm, kinds, start_rule, sm.start_states[start_rule], 0, sm.states.len()) {
            Step::Matched { end, children, far } => {
                let record = MatchRecord::new(start_rule, 0, end, children);
                assert(well_nested(record@));
                Ok(record)
            },
            Step::Failed { far } => Err(ParseError::UnexpectedToken(far)),
            Step::Fault(e) => Err(e),
        }
    }
}

} // verus!
