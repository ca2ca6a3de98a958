//! The compiled grammar and the compiler that produces it.
use crate::error::{BNFCompileError, CompileFault, Fault, ParseError};
use crate::grammar_text::{
    distinct_names, grammar_of, parse_grammar, rule_syntaxes, GrammarRule, RuleSyntax,
};
use crate::empty_matches::{find_idle_rule, first_idle_rule, matches_nothing, rules_matching_nothing};
use crate::left_recursion::{
    check_left_recursion, find_cycle, first_cycle, is_cycle, is_simple_cycle, left_calls,
};
use crate::no_circles::lemma_compiled_no_circles;
use crate::progress::{goes_forward, idle_steps_of};
use crate::rule_graph::{
    build_expression, compile_expression, copy_name, find_name, lemma_expression_closed,
    lemma_rule_index, names_of, node_closed, node_of, nodes_closed, nodes_of, rule_index, Node,
    NodeAction,
};
use crate::state_machine::{State, StateAction, TokenType};
use vstd::prelude::*;
use vstd::string::StringSliceAdditionalSpecFns;

verus! {

/// Identifies a rule of a compiled grammar: its index in the rule tables.
pub type RuleId = usize;

/// Identifies a state of a compiled grammar: its index in the state table.
pub type StateId = usize;

/// A compiled grammar: the rules' names and start states, indexed by
/// [`RuleId`], and all states, indexed by [`StateId`].
#[derive(Debug)]
pub struct StateManager<TT> {
    pub rule_names: Vec<Vec<char>>,
    pub start_states: Vec<StateId>,
    pub states: Vec<State<TT>>,
}

impl<TT> StateManager<TT> {
    /// The tables agree with each other: every rule has a name and a start
    /// state that exists, no two rules share a name, and every state refers
    /// only to states and rules that exist.
    pub open spec fn well_formed(&self) -> bool {
        &&& self.rule_names@.len() == self.start_states@.len()
        &&& forall|r: int|
            0 <= r < self.start_states@.len() ==> (#[trigger] self.start_states@[r])
                < self.states@.len()
        &&& forall|i: int, j: int|
            0 <= i < j < self.rule_names@.len() ==> (#[trigger] self.rule_names@[i])@
                != (#[trigger] self.rule_names@[j])@
        &&& forall|s: int| 0 <= s < self.states@.len() ==> self.state_well_formed(s)
    }

    /// State `s` refers only to states and rules that exist, and has the
    /// transitions that its action asks for.
    pub open spec fn state_well_formed(&self, s: int) -> bool {
        let st = self.states@[s];
        match st.action {
            StateAction::Match(_) => {
                &&& st.transitions@.len() == 1
                &&& st.transitions@[0] < self.states@.len()
            },
            StateAction::Call(callee, resume) => {
                &&& callee < self.start_states@.len()
                &&& resume < self.states@.len()
            },
            StateAction::Split => forall|k: int|
                0 <= k < st.transitions@.len() ==> (#[trigger] st.transitions@[k])
                    < self.states@.len(),
            StateAction::Accept => true,
        }
    }

    /// The identifier of the rule called `name`: the first one, should
    /// several rules have that name.
    pub fn rule_id(&self, name: &Vec<char>) -> (r: Option<RuleId>)
        ensures
            match r {
                Some(id) => {
                    &&& id < self.rule_names@.len()
                    &&& self.rule_names@[id as int]@ == name@
                    &&& forall|j: int| 0 <= j < id ==> (#[trigger] self.rule_names@[j])@ != name@
                    &&& rule_index(names_of(self.rule_names@), name@) == Some(id as nat)
                },
                None => {
                    &&& forall|j: int|
                        0 <= j < self.rule_names@.len() ==> (#[trigger] self.rule_names@[j])@
                            != name@
                    &&& rule_index(names_of(self.rule_names@), name@) is None
                },
            },
    {
        let found = find_name(&self.rule_names, name);
        proof {
            let names = names_of(self.rule_names@);
            assert(self.rule_names@.len() == self.rule_names.len() <= usize::MAX);
            lemma_rule_index(names, name@);
            assert forall|j: int| 0 <= j < self.rule_names@.len() implies names[j]
                == (#[trigger] self.rule_names@[j])@ by {}
        }
        found
    }

    /// The name of the rule with the identifier `id`.
    pub fn rule_name(&self, id: RuleId) -> (r: Option<&Vec<char>>)
        ensures
            match r {
                Some(name) => id < self.rule_names@.len() && *name == self.rule_names@[id as int],
                None => id >= self.rule_names@.len(),
            },
    {
        if id < self.rule_names.len() {
            Some(&self.rule_names[id])
        } else {
            None
        }
    }

    /// The start state of the rule with the identifier `id`.
    pub fn start_state(&self, id: RuleId) -> (r: Option<StateId>)
        ensures
            match r {
                Some(state) => id < self.start_states@.len() && state
                    == self.start_states@[id as int],
                None => id >= self.start_states@.len(),
            },
    {
        if id < self.start_states.len() {
            Some(self.start_states[id])
        } else {
            None
        }
    }
}

/// Names and identifiers go round: in a well-formed grammar the name of
/// rule `id` is found again under `id`, and a name that is found under `id`
/// is the name of rule `id`.
pub proof fn lemma_rule_names_round_trip<TT>(sm: StateManager<TT>, id: RuleId, name: Seq<char>)
    requires
        sm.well_formed(),
    ensures
        id < sm.rule_names@.len() ==> rule_index(names_of(sm.rule_names@), sm.rule_names@[id as int]@)
            == Some(id as nat),
        rule_index(names_of(sm.rule_names@), name) == Some(id as nat) ==> id < sm.rule_names@.len()
            && sm.rule_names@[id as int]@ == name,
{
    let names = names_of(sm.rule_names@);
    lemma_rule_index(names, name);
    if id < sm.rule_names@.len() {
        let own = sm.rule_names@[id as int]@;
        lemma_rule_index(names, own);
        assert(names[id as int] == own);
        match rule_index(names, own) {
            Some(found) => {
                if found < id {
                    assert(names[found as int] == sm.rule_names@[found as int]@);
                }
            },
            None => {},
        }
    }
}

/// Mathematical model of a compiled grammar whose token types are still
/// names.
pub struct Blueprint {
    pub rule_names: Seq<Seq<char>>,
    pub start_states: Seq<StateId>,
    pub nodes: Seq<Node>,
}

/// The model of a compiled grammar whose token types are still names.
pub open spec fn drawn(sm: StateManager<Vec<char>>) -> Blueprint {
    Blueprint {
        rule_names: names_of(sm.rule_names@),
        start_states: sm.start_states@,
        nodes: nodes_of(sm.states@),
    }
}

/// The names of the rules, in the order of their definitions.
pub open spec fn rule_names_of(rules: Seq<RuleSyntax>) -> Seq<Seq<char>> {
    Seq::new(rules.len(), |i: int| rules[i].name)
}

/// The start states and the states of the first `count` rules. Every rule
/// gets an accepting state, and behind it the states of its body, which
/// lead to that accepting state.
pub open spec fn compile_rules(rules: Seq<RuleSyntax>, count: nat) -> (Seq<StateId>, Seq<Node>)
    decreases count,
{
    if count == 0 || count > rules.len() {
        (Seq::empty(), Seq::empty())
    } else {
        let (starts, nodes) = compile_rules(rules, (count - 1) as nat);
        let body = compile_expression(
            rules[count - 1].body,
            rule_names_of(rules),
            nodes.len() + 1,
            nodes.len(),
        );
        (
            starts.push(body.start as usize),
            nodes.push(Node { action: NodeAction::Accept, transitions: Seq::empty() }) + body.nodes,
        )
    }
}

/// The compiled form of a list of rules: rule `i` of the list has the
/// identifier `i`.
pub open spec fn blueprint(rules: Seq<RuleSyntax>) -> Blueprint {
    Blueprint {
        rule_names: rule_names_of(rules),
        start_states: compile_rules(rules, rules.len()).0,
        nodes: compile_rules(rules, rules.len()).1,
    }
}

/// Every rule of a compiled list has a start state, and the states refer
/// only to states and rules of the list.
pub proof fn lemma_rules_closed(rules: Seq<RuleSyntax>, count: nat, limit: nat)
    requires
        count <= rules.len(),
        compile_rules(rules, count).1.len() <= limit <= usize::MAX,
    ensures
        compile_rules(rules, count).0.len() == count,
        forall|r: int| 0 <= r < count ==> (#[trigger] compile_rules(rules, count).0[r]) < limit,
        nodes_closed(compile_rules(rules, count).1, rules.len(), limit),
    decreases count,
{
    if count > 0 {
        let all = compile_rules(rules, count);
        let (starts, nodes) = compile_rules(rules, (count - 1) as nat);
        let names = rule_names_of(rules);
        let body = compile_expression(rules[count - 1].body, names, nodes.len() + 1, nodes.len());
        lemma_rules_closed(rules, (count - 1) as nat, limit);
        lemma_expression_closed(rules[count - 1].body, names, nodes.len() + 1, nodes.len(), limit);
        assert forall|r: int| 0 <= r < count implies (#[trigger] all.0[r]) < limit by {
            if r < count - 1 {
                assert(all.0[r] == starts[r]);
            }
        }
        assert forall|i: int| 0 <= i < all.1.len() implies node_closed(
            #[trigger] all.1[i],
            rules.len(),
            limit,
        ) by {
            if i < nodes.len() {
                assert(all.1[i] == nodes[i]);
            } else if i > nodes.len() {
                assert(all.1[i] == body.nodes[i - nodes.len() - 1]);
            }
        }
    }
}

/// A grammar whose model is closed and whose rules have distinct names is
/// well formed.
pub proof fn lemma_drawn_well_formed(sm: StateManager<Vec<char>>, rules: Seq<RuleSyntax>)
    requires
        drawn(sm) == blueprint(rules),
        distinct_names(rules),
    ensures
        sm.well_formed(),
{
    let b = blueprint(rules);
    assert(nodes_of(sm.states@).len() == sm.states@.len());
    assert(sm.states@.len() == sm.states.len() <= usize::MAX);
    lemma_rules_closed(rules, rules.len(), sm.states@.len());
    assert(sm.rule_names@.len() == rules.len());
    assert forall|i: int, j: int| 0 <= i < j < sm.rule_names@.len() implies (
    #[trigger] sm.rule_names@[i])@ != (#[trigger] sm.rule_names@[j])@ by {
        assert(b.rule_names[i] == rules[i].name);
        assert(b.rule_names[j] == rules[j].name);
        assert(names_of(sm.rule_names@)[i] == sm.rule_names@[i]@);
        assert(names_of(sm.rule_names@)[j] == sm.rule_names@[j]@);
    }
    assert forall|s: int| 0 <= s < sm.states@.len() implies sm.state_well_formed(s) by {
        assert(node_closed(b.nodes[s], rules.len(), sm.states@.len()));
        assert(b.nodes[s] == node_of(sm.states@[s]));
        let st = sm.states@[s];
        let node = b.nodes[s];
        assert(node.transitions == st.transitions@);
        assert(sm.start_states@.len() == rules.len());
        match st.action {
            StateAction::Match(_) => {
                assert(node.action is Match);
                assert(sm.state_well_formed(s));
            },
            StateAction::Call(callee, resume) => {
                assert(node.action == NodeAction::Call(callee, resume));
                assert(sm.state_well_formed(s));
            },
            StateAction::Split => {
                assert(node.action is Split);
                assert forall|k: int| 0 <= k < st.transitions@.len() implies (
                #[trigger] st.transitions@[k]) < sm.states@.len() by {
                    assert(node.transitions[k] < sm.states@.len());
                }
                assert(sm.state_well_formed(s));
            },
            StateAction::Accept => {
                assert(sm.state_well_formed(s));
            },
        }
    }
}

/// The names of the rules, in the order of their definitions.
pub fn rule_names(rules: &Vec<GrammarRule>) -> (names: Vec<Vec<char>>)
    ensures
        names_of(names@) == rule_names_of(rule_syntaxes(rules@)),
{
    let ghost model = rule_syntaxes(rules@);
    let mut names: Vec<Vec<char>> = Vec::new();
    let mut k: usize = 0;
    while k < rules.len()
        invariant
            k <= rules@.len(),
            model == rule_syntaxes(rules@),
            names_of(names@) == rule_names_of(model).subrange(0, k as int),
        decreases rules@.len() - k,
    {
        let ghost before = names_of(names@);
        names.push(copy_name(&rules[k].name));
        k += 1;
        proof {
            assert(model[k - 1] == rules@[k - 1]@);
            assert(rule_names_of(model)[k - 1] == model[k - 1].name);
            assert(names_of(names@) =~= before.push(rules@[k - 1].name@));
            assert(names_of(names@) =~= rule_names_of(model).subrange(0, k as int));
        }
    }
    assert(names_of(names@) =~= rule_names_of(model));
    names
}

/// Compiles rule definitions into a state graph whose token types are still
/// the names that the grammar gives them.
pub fn build_state_graph(rules: &Vec<GrammarRule>) -> (sm: StateManager<Vec<char>>)
    ensures
        drawn(sm) == blueprint(rule_syntaxes(rules@)),
        distinct_names(rule_syntaxes(rules@)) ==> sm.well_formed(),
{
    let ghost model = rule_syntaxes(rules@);
    let rule_names = rule_names(rules);
    let mut start_states: Vec<StateId> = Vec::new();
    let mut states: Vec<State<Vec<char>>> = Vec::new();
    let mut i: usize = 0;
    assert(nodes_of(states@) =~= Seq::empty());
    while i < rules.len()
        invariant
            i <= rules@.len(),
            model == rule_syntaxes(rules@),
            names_of(rule_names@) == rule_names_of(model),
            start_states@ == compile_rules(model, i as nat).0,
            nodes_of(states@) == compile_rules(model, i as nat).1,
        decreases rules@.len() - i,
    {
        let ghost before = nodes_of(states@);
        let accept = states.len();
        states.push(State { action: StateAction::Accept, transitions: Vec::new() });
        assert(nodes_of(states@) =~= before.push(
            Node { action: NodeAction::Accept, transitions: Seq::empty() },
        ));
        let start = build_expression(&rules[i].body, &rule_names, &mut states, accept);
        start_states.push(start);
        i += 1;
        proof {
            assert(model[i - 1].body == rules@[i - 1].body@);
            assert(before.len() == accept);
        }
    }
    let sm = StateManager { rule_names, start_states, states };
    proof {
        if distinct_names(model) {
            lemma_drawn_well_formed(sm, model);
        }
    }
    sm
}

/// The token type takes `name` for the name of `token_type`.
pub open spec fn resolves_to<TT: TokenType + TryFrom<Vec<char>>>(
    name: Seq<char>,
    token_type: TT,
) -> bool {
    exists|text: Vec<char>|
        text@ == name && #[trigger] call_ensures(
            TT::try_from,
            (text,),
            Ok::<TT, <TT as TryFrom<Vec<char>>>::Error>(token_type),
        )
}

/// The token type takes `name` for no name of its own.
pub open spec fn rejected<TT: TokenType + TryFrom<Vec<char>>>(name: Seq<char>) -> bool {
    exists|text: Vec<char>, e: <TT as TryFrom<Vec<char>>>::Error|
        text@ == name && #[trigger] call_ensures(TT::try_from, (text,), Err::<TT, _>(e))
}

/// `state` is `node` with the token type that its name stands for.
pub open spec fn realized<TT: TokenType + TryFrom<Vec<char>>>(node: Node, state: State<TT>) -> bool {
    &&& state.transitions@ == node.transitions
    &&& match node.action {
        NodeAction::Match(name) => state.action matches StateAction::Match(token_type)
            && resolves_to(name, token_type),
        NodeAction::Call(rule, resume) => state.action == StateAction::<TT>::Call(rule, resume),
        NodeAction::Split => state.action is Split,
        NodeAction::Accept => state.action is Accept,
    }
}

/// `sm` is `plan` with every name of a token type resolved: the same rule
/// names and start states, and state for state the same actions and
/// transitions.
pub open spec fn realizes<TT: TokenType + TryFrom<Vec<char>>>(
    sm: StateManager<TT>,
    plan: Blueprint,
) -> bool {
    &&& names_of(sm.rule_names@) == plan.rule_names
    &&& sm.start_states@ == plan.start_states
    &&& sm.states@.len() == plan.nodes.len()
    &&& forall|s: int|
        0 <= s < plan.nodes.len() ==> realized(#[trigger] plan.nodes[s], sm.states@[s])
}

/// Some token type of `plan` has a name that the token type rejects.
pub open spec fn rejects_some<TT: TokenType + TryFrom<Vec<char>>>(plan: Blueprint) -> bool {
    exists|s: int| 0 <= s < plan.nodes.len() && rejected_at::<TT>(#[trigger] plan.nodes[s])
}

/// `node` matches a token type whose name the token type rejects.
pub open spec fn rejected_at<TT: TokenType + TryFrom<Vec<char>>>(node: Node) -> bool {
    match node.action {
        NodeAction::Match(name) => rejected::<TT>(name),
        _ => false,
    }
}

/// What a state does, without its token type.
pub enum Outline {
    Match,
    Call(RuleId, StateId),
    Split,
    Accept,
}

/// What `state` does, without its token type.
pub open spec fn outline_of<TT>(state: State<TT>) -> Outline {
    match state.action {
        StateAction::Match(_) => Outline::Match,
        StateAction::Call(rule, resume) => Outline::Call(rule, resume),
        StateAction::Split => Outline::Split,
        StateAction::Accept => Outline::Accept,
    }
}

/// The token type takes every name for one token type at most.
pub open spec fn one_answer<TT: TokenType + TryFrom<Vec<char>>>() -> bool {
    forall|name: Seq<char>, a: TT, b: TT|
        #[trigger] resolves_to(name, a) && #[trigger] resolves_to(name, b) ==> a == b
}

/// Compiling is deterministic: two grammars compiled from one plan have the
/// same rule names under the same identifiers, the same start states, and
/// state for state the same actions and transitions. Where the token type
/// takes every name for one token type at most, the actions are the same
/// with the token types that they match.
pub proof fn lemma_same_plan_same_tables<TT: TokenType + TryFrom<Vec<char>>>(
    first: StateManager<TT>,
    second: StateManager<TT>,
    plan: Blueprint,
)
    requires
        realizes(first, plan),
        realizes(second, plan),
    ensures
        names_of(first.rule_names@) == names_of(second.rule_names@),
        first.start_states@ == second.start_states@,
        first.states@.len() == second.states@.len(),
        forall|s: int|
            0 <= s < first.states@.len() ==> outline_of(#[trigger] first.states@[s]) == outline_of(
                second.states@[s],
            ) && first.states@[s].transitions@ == second.states@[s].transitions@,
        one_answer::<TT>() ==> forall|s: int|
            0 <= s < first.states@.len() ==> (#[trigger] first.states@[s]).action
                == second.states@[s].action,
{
    assert forall|s: int| 0 <= s < first.states@.len() implies outline_of(
        #[trigger] first.states@[s],
    ) == outline_of(second.states@[s]) && first.states@[s].transitions@
        == second.states@[s].transitions@ by {
        assert(realized(plan.nodes[s], first.states@[s]));
        assert(realized(plan.nodes[s], second.states@[s]));
    }
    if one_answer::<TT>() {
        assert forall|s: int| 0 <= s < first.states@.len() implies (
        #[trigger] first.states@[s]).action == second.states@[s].action by {
            assert(realized(plan.nodes[s], first.states@[s]));
            assert(realized(plan.nodes[s], second.states@[s]));
            match plan.nodes[s].action {
                NodeAction::Match(name) => {
                    let a = first.states@[s].action->Match_0;
                    let b = second.states@[s].action->Match_0;
                    assert(resolves_to(name, a));
                    assert(resolves_to(name, b));
                },
                _ => {},
            }
        }
    }
}

/// A copy of a list of states.
pub fn copy_ids(ids: &Vec<StateId>) -> (copy: Vec<StateId>)
    ensures
        copy@ == ids@,
{
    let mut copy: Vec<StateId> = Vec::new();
    let mut i: usize = 0;
    while i < ids.len()
        invariant
            i <= ids@.len(),
            copy@ == ids@.subrange(0, i as int),
        decreases ids@.len() - i,
    {
        copy.push(ids[i]);
        i += 1;
        assert(copy@ =~= ids@.subrange(0, i as int));
    }
    assert(copy@ =~= ids@);
    copy
}

fn copy_names(names: &Vec<Vec<char>>) -> (copy: Vec<Vec<char>>)
    ensures
        names_of(copy@) == names_of(names@),
        copy@.len() == names@.len(),
{
    let mut copy: Vec<Vec<char>> = Vec::new();
    let mut i: usize = 0;
    while i < names.len()
        invariant
            i <= names@.len(),
            copy@.len() == i,
            names_of(copy@) == names_of(names@).subrange(0, i as int),
        decreases names@.len() - i,
    {
        copy.push(copy_name(&names[i]));
        i += 1;
        assert(names_of(copy@) =~= names_of(names@).subrange(0, i as int));
    }
    assert(names_of(copy@) =~= names_of(names@));
    copy
}

/// Asks the token type for the type that a name stands for.
pub fn resolve_name<TT: TokenType + TryFrom<Vec<char>>>(name: &Vec<char>) -> (r: Option<TT>)
    ensures
        match r {
            Some(token_type) => resolves_to(name@, token_type),
            None => rejected::<TT>(name@),
        },
{
    let text = copy_name(name);
    match TT::try_from(text) {
        Ok(token_type) => {
            assert(call_ensures(
                TT::try_from,
                (text,),
                Ok::<TT, <TT as TryFrom<Vec<char>>>::Error>(token_type),
            ));
            Some(token_type)
        },
        Err(e) => {
            assert(call_ensures(TT::try_from, (text,), Err::<TT, _>(e)));
            None
        },
    }
}

/// The state that `state` becomes once the name of its token type is
/// resolved. `token_type` is what the token type said of the name; a state
/// that matches no token does not look at it.
pub fn realize_state<TT: TokenType>(state: &State<Vec<char>>, token_type: Option<TT>) -> (r: Result<
    State<TT>,
    BNFCompileError,
>)
    ensures
        match r {
            Ok(out) => {
                &&& out.transitions@ == state.transitions@
                &&& match state.action {
                    StateAction::Match(_) => token_type matches Some(found) && out.action
                        == StateAction::Match(found),
                    StateAction::Call(rule, resume) => out.action == StateAction::<TT>::Call(
                        rule,
                        resume,
                    ),
                    StateAction::Split => out.action is Split,
                    StateAction::Accept => out.action is Accept,
                }
            },
            Err(e) => e is UndefinedTokenIdentifier && state.action is Match && token_type is None,
        },
{
    let transitions = copy_ids(&state.transitions);
    let action = match &state.action {
        StateAction::Match(_) => match token_type {
            Some(found) => StateAction::Match(found),
            None => {
                return Err(BNFCompileError::UndefinedTokenIdentifier);
            },
        },
        StateAction::Call(rule, resume) => StateAction::Call(*rule, *resume),
        StateAction::Split => StateAction::Split,
        StateAction::Accept => StateAction::Accept,
    };
    Ok(State { action, transitions })
}

/// Replaces the name of every token type by the type that it stands for.
pub fn resolve_token_types<TT: TokenType + TryFrom<Vec<char>>>(
    symbolic: &StateManager<Vec<char>>,
) -> (r: Result<StateManager<TT>, BNFCompileError>)
    ensures
        match r {
            Ok(sm) => realizes(sm, drawn(*symbolic)) && (symbolic.well_formed()
                ==> sm.well_formed()),
            Err(e) => e is UndefinedTokenIdentifier && rejects_some::<TT>(drawn(*symbolic)),
        },
{
    let ghost plan = drawn(*symbolic);
    let mut states: Vec<State<TT>> = Vec::new();
    let mut s: usize = 0;
    while s < symbolic.states.len()
        invariant
            s <= symbolic.states@.len(),
            plan == drawn(*symbolic),
            states@.len() == s,
            forall|i: int| 0 <= i < s ==> realized(#[trigger] plan.nodes[i], states@[i]),
        decreases symbolic.states@.len() - s,
    {
        let state = &symbolic.states[s];
        assert(plan.nodes[s as int] == node_of(*state));
        let token_type = match &state.action {
            StateAction::Match(name) => resolve_name::<TT>(name),
            _ => None,
        };
        let resolved = match realize_state(state, token_type) {
            Ok(resolved) => resolved,
            Err(e) => {
                assert(rejected_at::<TT>(plan.nodes[s as int]));
                return Err(e);
            },
        };
        let ghost before = states@;
        states.push(resolved);
        s += 1;
        assert forall|i: int| 0 <= i < s implies realized(#[trigger] plan.nodes[i], states@[i]) by {
            if i < s - 1 {
                assert(states@[i] == before[i]);
            }
        }
    }
    let sm = StateManager {
        rule_names: copy_names(&symbolic.rule_names),
        start_states: copy_ids(&symbolic.start_states),
        states,
    };
    proof {
        if symbolic.well_formed() {
            assert forall|i: int, j: int| 0 <= i < j < sm.rule_names@.len() implies (
            #[trigger] sm.rule_names@[i])@ != (#[trigger] sm.rule_names@[j])@ by {
                assert(names_of(sm.rule_names@)[i] == names_of(symbolic.rule_names@)[i]);
                assert(names_of(sm.rule_names@)[j] == names_of(symbolic.rule_names@)[j]);
            }
            assert forall|i: int| 0 <= i < sm.states@.len() implies sm.state_well_formed(i) by {
                assert(symbolic.state_well_formed(i));
                assert(realized(plan.nodes[i], sm.states@[i]));
                assert(plan.nodes[i] == node_of(symbolic.states@[i]));
            }
        }
    }
    Ok(sm)
}

/// What compiling rules that were read may come to.
pub open spec fn outcome_of<TT: TokenType + TryFrom<Vec<char>>>(
    rules: Seq<RuleSyntax>,
    r: Result<StateManager<TT>, BNFCompileError>,
) -> bool {
    match r {
        Ok(sm) => {
            &&& realizes(sm, blueprint(rules))
            &&& sm.well_formed()
            &&& forall|cycle: Seq<RuleId>| !is_cycle(left_calls(rules), cycle)
            &&& first_idle_rule(rules, 0) is None
            &&& goes_forward(sm, rules)
        },
        Err(BNFCompileError::UndefinedTokenIdentifier) => rejects_some::<TT>(blueprint(rules)),
        Err(BNFCompileError::ParseError(ParseError::LeftRecursion(cycle))) => {
            &&& first_cycle(left_calls(rules)) == Some(cycle@)
            &&& is_simple_cycle(left_calls(rules), cycle@)
            &&& exists|sm: StateManager<TT>| realizes(sm, blueprint(rules))
        },
        Err(BNFCompileError::ParseError(ParseError::UnexpectedToken(offset))) => {
            &&& forall|cycle: Seq<RuleId>| !is_cycle(left_calls(rules), cycle)
            &&& exists|sm: StateManager<TT>| realizes(sm, blueprint(rules))
            &&& first_idle_rule(rules, 0) matches Some(k) && offset == rules[k as int].offset
        },
        Err(_) => false,
    }
}

/// What compiling the text `text` may come to.
///
/// Where the text is no grammar, the error is that of the text, with its
/// offset. Else the grammar is compiled, unless a name is rejected, a rule
/// can call itself before a token is consumed, or a repetition has a body
/// that may match nothing; these are looked for in this order.
pub open spec fn compiled<TT: TokenType + TryFrom<Vec<char>>>(
    text: Seq<u8>,
    r: Result<StateManager<TT>, BNFCompileError>,
) -> bool {
    match grammar_of(text) {
        Err(offset) => r matches Err(e) && e@ == CompileFault::ParseError(
            Fault::UnexpectedToken(offset),
        ),
        Ok(rules) => outcome_of(rules, r),
    }
}

/// Compiles a grammar text. The rules get their identifiers in the order of
/// their definitions; an identifier in a rule's body that names no rule is
/// handed to the token type, which says what type it stands for.
///
/// The text is checked first, then the names of the token types, then that
/// no rule can call itself before a token is consumed: a left recursion is
/// reported only for a grammar all of whose names the token type takes.
/// Then a repetition whose body may match nothing is looked for, which
/// could go round without end: the rule that holds one is reported as an
/// unexpected token, at the offset of its name. Last, the compiled states
/// are given the ranks by which the engine is known to go forward; the
/// checks before have made sure that they have such ranks.
pub fn compile_bnf_rules<TT: TokenType + TryFrom<Vec<char>>>(text: &str) -> (r: Result<
    StateManager<TT>,
    BNFCompileError,
>)
    ensures
        compiled(text.spec_bytes(), r),
{
    let rules = match parse_grammar(text) {
        Ok(rules) => rules,
        Err(e) => {
            return Err(e);
        },
    };
    let symbolic = build_state_graph(&rules);
    let sm = match resolve_token_types::<TT>(&symbolic) {
        Ok(sm) => sm,
        Err(e) => {
            return Err(e);
        },
    };
    assert(realizes(sm, blueprint(rule_syntaxes(rules@))));
    match check_left_recursion(&rules) {
        Ok(_) => {},
        Err(e) => {
            return Err(BNFCompileError::ParseError(e));
        },
    }
    match find_idle_rule(&rules) {
        Some(k) => {
            return Err(BNFCompileError::ParseError(ParseError::UnexpectedToken(rules[k].offset)));
        },
        None => {},
    }
    let empty = rules_matching_nothing(&rules);
    let steps = idle_steps_of(&sm, &empty);
    match find_cycle(&steps) {
        Some(circle) => {
            // Never: rules without a cycle and without an idle repetition compile
            // to states without a circle.
            proof {
                lemma_compiled_no_circles(sm, rule_syntaxes(rules@), circle@);
            }
            Err(BNFCompileError::UnexpectedAction)
        },
        None => Ok(sm),
    }
}

} // verus!
