//! What a match record says of the input: that the state graph has a path
//! for it.
use crate::bnf_rules_compiler::{RuleId, StateId, StateManager};
use crate::match_record::Record;
use crate::state_machine::{
    later, lemma_run, parse_result, remaining, run, run_alternatives, step_budget, Outcome,
    StateAction, TokenType,
};
use vstd::prelude::*;
use vstd::std_specs::cmp::PartialEqSpec;

verus! {

/// `path` is a way through the states of one rule, from its first state to
/// an accepting state, on which the tokens from `pos` to `end` are matched
/// one by one and the rules of `children` are called, in their order, each
/// on the tokens of its record and each with a path of its own.
pub open spec fn leads_to<TT: TokenType>(
    sm: &StateManager<TT>,
    kinds: Seq<&TT>,
    path: Seq<StateId>,
    pos: nat,
    end: nat,
    children: Seq<Record>,
) -> bool
    decreases children, path.len(),
{
    if path.len() == 0 || path[0] >= sm.states@.len() {
        false
    } else {
        let st = sm.states@[path[0] as int];
        let onward = path.subrange(1, path.len() as int);
        match st.action {
            StateAction::Accept => path.len() == 1 && pos == end && children.len() == 0,
            StateAction::Match(tt) => {
                &&& st.transitions@.len() == 1
                &&& path.len() > 1
                &&& path[1] == st.transitions@[0]
                &&& pos < kinds.len()
                &&& kinds[pos as int].eq_spec(&tt)
                &&& leads_to(sm, kinds, onward, pos + 1, end, children)
            },
            StateAction::Call(callee, resume) => {
                &&& path.len() > 1
                &&& path[1] == resume
                &&& children.len() > 0
                &&& children[0].rule == callee
                &&& children[0].start == pos
                &&& derives(sm, kinds, children[0])
                &&& leads_to(
                    sm,
                    kinds,
                    onward,
                    children[0].end,
                    end,
                    children.subrange(1, children.len() as int),
                )
            },
            StateAction::Split => {
                &&& path.len() > 1
                &&& st.transitions@.contains(path[1])
                &&& leads_to(sm, kinds, onward, pos, end, children)
            },
        }
    }
}

/// The rule of `record` exists, and there is a path from its start state
/// for the tokens and the children of `record`.
pub open spec fn derives<TT: TokenType>(sm: &StateManager<TT>, kinds: Seq<&TT>, record: Record) -> bool
    decreases record, 0nat,
{
    &&& record.rule < sm.start_states@.len()
    &&& exists|path: Seq<StateId>|
        path.len() > 0 && #[trigger] path[0] == sm.start_states@[record.rule as int] && leads_to(
            sm,
            kinds,
            path,
            record.start,
            record.end,
            record.children,
        )
}

/// Whatever a walk matches, the state graph has a path for: the lemma hands
/// back one that starts at `state`.
pub proof fn lemma_run_sound<TT: TokenType>(
    sm: &StateManager<TT>,
    kinds: Seq<&TT>,
    rule: RuleId,
    state: StateId,
    pos: nat,
    fuel: nat,
) -> (path: Seq<StateId>)
    requires
        pos <= kinds.len(),
    ensures
        run(sm, kinds, rule, state, pos, fuel) matches Outcome::Matched { end, children, .. } ==> {
            &&& path.len() > 0
            &&& path[0] == state
            &&& leads_to(sm, kinds, path, pos, end, children)
        },
    decreases remaining(kinds.len(), pos), fuel, 0nat,
{
    if state >= sm.states@.len() || fuel == 0 {
        return Seq::empty();
    }
    let st = sm.states@[state as int];
    let o = run(sm, kinds, rule, state, pos, fuel);
    match st.action {
        StateAction::Accept => seq![state],
        StateAction::Match(tt) => {
            if st.transitions@.len() == 1 && pos < kinds.len() && kinds[pos as int].eq_spec(&tt) {
                let next = st.transitions@[0];
                let onward = lemma_run_sound(sm, kinds, rule, next, pos + 1, step_budget(sm));
                let path = seq![state] + onward;
                assert(path.subrange(1, path.len() as int) =~= onward);
                if o is Matched {
                    assert(path[1] == onward[0]);
                }
                path
            } else {
                Seq::empty()
            }
        },
        StateAction::Call(callee, resume) => {
            if callee < sm.start_states@.len() {
                let start = sm.start_states@[callee as int];
                let first = run(sm, kinds, callee, start, pos, (fuel - 1) as nat);
                lemma_run(sm, kinds, callee, start, pos, (fuel - 1) as nat);
                let inner = lemma_run_sound(sm, kinds, callee, start, pos, (fuel - 1) as nat);
                if let Outcome::Matched { end, children, far } = first {
                    let record = Record { rule: callee, start: pos, end, children };
                    let left = if end > pos {
                        step_budget(sm)
                    } else {
                        (fuel - 1) as nat
                    };
                    let rest = run(sm, kinds, rule, resume, end, left);
                    let onward = lemma_run_sound(sm, kinds, rule, resume, end, left);
                    let path = seq![state] + onward;
                    assert(path.subrange(1, path.len() as int) =~= onward);
                    assert(inner[0] == sm.start_states@[record.rule as int]);
                    assert(derives(sm, kinds, record));
                    if let Outcome::Matched { end: end2, children: more, far: far2 } = rest {
                        let all = seq![record] + more;
                        assert(all.subrange(1, all.len() as int) =~= more);
                        assert(all[0] == record);
                        assert(path[1] == onward[0]);
                        assert(leads_to(sm, kinds, path, pos, end2, all));
                    }
                    path
                } else {
                    Seq::empty()
                }
            } else {
                Seq::empty()
            }
        },
        StateAction::Split => {
            let onward = lemma_alternatives_sound(
                sm,
                kinds,
                rule,
                state,
                0,
                pos,
                (fuel - 1) as nat,
                pos,
            );
            let path = seq![state] + onward;
            assert(path.subrange(1, path.len() as int) =~= onward);
            if o is Matched {
                assert(path[1] == onward[0]);
            }
            path
        },
    }
}

/// The same for a walk from a choice point: the path starts at one of its
/// transitions.
pub proof fn lemma_alternatives_sound<TT: TokenType>(
    sm: &StateManager<TT>,
    kinds: Seq<&TT>,
    rule: RuleId,
    state: StateId,
    k: nat,
    pos: nat,
    fuel: nat,
    far: nat,
) -> (path: Seq<StateId>)
    requires
        pos <= kinds.len(),
        state < sm.states@.len(),
    ensures
        run_alternatives(sm, kinds, rule, state, k, pos, fuel, far) matches Outcome::Matched {
            end,
            children,
            ..
        } ==> {
            &&& path.len() > 0
            &&& sm.states@[state as int].transitions@.contains(path[0])
            &&& leads_to(sm, kinds, path, pos, end, children)
        },
    decreases
            remaining(kinds.len(), pos),
            fuel,
            sm.states@[state as int].transitions@.len() - k + 1,
{
    let transitions = sm.states@[state as int].transitions@;
    if k < transitions.len() {
        let next = transitions[k as int];
        let path = lemma_run_sound(sm, kinds, rule, next, pos, fuel);
        match run(sm, kinds, rule, next, pos, fuel) {
            Outcome::Matched { end, children, far: far2 } => path,
            Outcome::Failed { far: far2 } => lemma_alternatives_sound(
                sm,
                kinds,
                rule,
                state,
                k + 1,
                pos,
                fuel,
                later(far, far2),
            ),
            Outcome::Fault(_) => Seq::empty(),
        }
    } else {
        Seq::empty()
    }
}

/// A record that `parse` hands back is one that the grammar derives: its
/// rule has a path through the state graph for the tokens of the record,
/// and so has every rule below it.
pub proof fn lemma_parse_result_sound<TT: TokenType>(
    sm: &StateManager<TT>,
    kinds: Seq<&TT>,
    start_rule: RuleId,
)
    ensures
        parse_result(sm, kinds, start_rule) matches Ok(record) ==> derives(sm, kinds, record),
{
    if start_rule < sm.start_states@.len() {
        let start = sm.start_states@[start_rule as int];
        let path = lemma_run_sound(sm, kinds, start_rule, start, 0, step_budget(sm));
        if let Ok(record) = parse_result(sm, kinds, start_rule) {
            assert(path[0] == sm.start_states@[record.rule as int]);
            assert(derives(sm, kinds, record));
        }
    }
}

} // verus!
