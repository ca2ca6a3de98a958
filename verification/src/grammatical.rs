//! The engine and the grammar agree: a record that the engine hands back
//! for a compiled grammar is one that the rules of the grammar allow.
use crate::bnf_rules_compiler::{
    blueprint, compile_rules, realized, realizes, resolves_to, rule_names_of, Blueprint, RuleId,
    StateId, StateManager,
};
use crate::derivation::{derives, leads_to, lemma_parse_result_sound};
use crate::grammar_text::RuleSyntax;
use crate::graph_paths::{
    inside, lemma_expression_local, lemma_first_exit, placed, walk_path, TokenTest,
};
use crate::match_record::Record;
use crate::rule_graph::{compile_expression, Node, NodeAction};
use crate::rule_meaning::{lemma_expression_traced, lemma_expression_walked, trace, Shape};
use crate::state_machine::{parse_result, StateAction, TokenType};
use vstd::prelude::*;
use vstd::std_specs::cmp::PartialEqSpec;

verus! {

/// The test that the engine makes of a token: the token at `pos` is of the
/// type named `name` where the token type takes the name for a type that is
/// the type of the token.
pub open spec fn token_test<TT: TokenType + TryFrom<Vec<char>>>(kinds: Seq<&TT>) -> TokenTest {
    |pos: nat, name: Seq<char>|
        pos < kinds.len() && exists|token_type: TT| #[trigger]
            resolves_to(name, token_type) && kinds[pos as int].eq_spec(&token_type)
}

/// The body of the rule of `record` matches, in some way, the tokens from
/// the start of the record to its end, and calls on the way the rules of
/// the children of the record, each where the child starts, and goes on
/// where the child ends.
pub open spec fn follows_rule(rules: Seq<RuleSyntax>, token_is: TokenTest, record: Record) -> bool {
    &&& record.rule < rules.len()
    &&& exists|way: Shape| #[trigger]
        trace(
            rules[record.rule as int].body,
            way,
            rule_names_of(rules),
            token_is,
            record.children,
            record.start,
            0,
        ) == Some((record.end, record.children.len()))
}

/// `record` follows its rule, and so does every record below it.
pub open spec fn grammatical(rules: Seq<RuleSyntax>, token_is: TokenTest, record: Record) -> bool
    decreases record,
{
    follows_rule(rules, token_is, record) && all_grammatical(rules, token_is, record.children)
}

/// All of `records` are grammatical.
pub open spec fn all_grammatical(
    rules: Seq<RuleSyntax>,
    token_is: TokenTest,
    records: Seq<Record>,
) -> bool
    decreases records,
{
    records.len() == 0 || (grammatical(rules, token_is, records[0]) && all_grammatical(
        rules,
        token_is,
        records.subrange(1, records.len() as int),
    ))
}

/// How many states stand before those of rule `r`.
pub open spec fn rule_base(rules: Seq<RuleSyntax>, r: nat) -> nat {
    compile_rules(rules, r).1.len()
}

/// The states of rule `r` stand together among the states of the first
/// `count` rules: the accepting state first, then the states of the body,
/// which lead to it.
pub proof fn lemma_rule_placed(rules: Seq<RuleSyntax>, r: nat, count: nat)
    requires
        r < count <= rules.len(),
    ensures
        rule_base(rules, r) < compile_rules(rules, count).1.len(),
        compile_rules(rules, count).1[rule_base(rules, r) as int].action is Accept,
        placed(
            compile_rules(rules, count).1,
            rule_base(rules, r) + 1,
            compile_expression(
                rules[r as int].body,
                rule_names_of(rules),
                rule_base(rules, r) + 1,
                rule_base(rules, r),
            ).nodes,
        ),
        compile_rules(rules, count).0.len() == count,
        compile_rules(rules, count).0[r as int] == compile_expression(
            rules[r as int].body,
            rule_names_of(rules),
            rule_base(rules, r) + 1,
            rule_base(rules, r),
        ).start as usize,
    decreases count,
{
    let all = compile_rules(rules, count);
    let (starts, nodes) = compile_rules(rules, (count - 1) as nat);
    let names = rule_names_of(rules);
    let body = compile_expression(rules[count - 1].body, names, nodes.len() + 1, nodes.len());
    let mine = compile_expression(
        rules[r as int].body,
        names,
        rule_base(rules, r) + 1,
        rule_base(rules, r),
    );
    lemma_rules_counted(rules, (count - 1) as nat);
    if r == count - 1 {
        assert(all.1[nodes.len() as int].action is Accept);
        assert forall|i: int| 0 <= i < mine.nodes.len() implies all.1[rule_base(rules, r) + 1 + i]
            == #[trigger] mine.nodes[i] by {}
    } else {
        lemma_rule_placed(rules, r, (count - 1) as nat);
        assert(all.1[rule_base(rules, r) as int] == nodes[rule_base(rules, r) as int]);
        assert forall|i: int| 0 <= i < mine.nodes.len() implies all.1[rule_base(rules, r) + 1 + i]
            == #[trigger] mine.nodes[i] by {
            assert(nodes[rule_base(rules, r) + 1 + i] == mine.nodes[i]);
        }
        assert(all.0[r as int] == starts[r as int]);
    }
}

/// Every rule has a start state.
pub proof fn lemma_rules_counted(rules: Seq<RuleSyntax>, count: nat)
    requires
        count <= rules.len(),
    ensures
        compile_rules(rules, count).0.len() == count,
    decreases count,
{
    if count > 0 {
        lemma_rules_counted(rules, (count - 1) as nat);
    }
}

/// Whatever a rule allows, its states have a walk for: for every way of
/// matching the body of rule `r` there is a walk through the compiled
/// states, from the start state of the rule to its accepting state, that
/// matches the same tokens and calls the same rules. The lemma hands that
/// walk back.
pub proof fn lemma_rule_walked(
    rules: Seq<RuleSyntax>,
    r: nat,
    way: Shape,
    token_is: TokenTest,
    children: Seq<Record>,
    pos: nat,
    k: nat,
) -> (path: Seq<StateId>)
    requires
        r < rules.len(),
        blueprint(rules).nodes.len() <= usize::MAX,
        trace(rules[r as int].body, way, rule_names_of(rules), token_is, children, pos, k) is Some,
    ensures
        path.len() > 0,
        path[0] == blueprint(rules).start_states[r as int],
        path.last() == rule_base(rules, r),
        blueprint(rules).nodes[path.last() as int].action is Accept,
        walk_path(blueprint(rules).nodes, token_is, children, path, pos, k) == trace(
            rules[r as int].body,
            way,
            rule_names_of(rules),
            token_is,
            children,
            pos,
            k,
        ),
{
    lemma_rule_placed(rules, r, rules.len());
    let a = rule_base(rules, r);
    lemma_expression_walked(
        rules[r as int].body,
        way,
        rule_names_of(rules),
        blueprint(rules).nodes,
        token_is,
        children,
        a + 1,
        a,
        pos,
        k,
    )
}

/// A path of the engine through the states is a walk through their models:
/// it ends at an accepting state, passes through none before, and has used
/// all children there.
pub proof fn lemma_leads_to_walk<TT: TokenType + TryFrom<Vec<char>>>(
    sm: &StateManager<TT>,
    plan: Blueprint,
    kinds: Seq<&TT>,
    path: Seq<StateId>,
    pos: nat,
    end: nat,
    all: Seq<Record>,
    k: nat,
)
    requires
        realizes(*sm, plan),
        k <= all.len(),
        leads_to(sm, kinds, path, pos, end, all.subrange(k as int, all.len() as int)),
    ensures
        walk_path(plan.nodes, token_test(kinds), all, path, pos, k) == Some((end, all.len())),
        path.len() > 0,
        path.last() < plan.nodes.len(),
        plan.nodes[path.last() as int].action is Accept,
        forall|i: int|
            0 <= i < path.len() - 1 ==> #[trigger] path[i] < plan.nodes.len() && !(
            plan.nodes[path[i] as int].action is Accept),
    decreases path.len(),
{
    let children = all.subrange(k as int, all.len() as int);
    let state = path[0];
    let st = sm.states@[state as int];
    let node = plan.nodes[state as int];
    let onward = path.subrange(1, path.len() as int);
    let token_is = token_test(kinds);
    assert(realized(node, st));
    match st.action {
        StateAction::Accept => {
            assert(children.len() == 0);
        },
        StateAction::Match(token_type) => {
            lemma_leads_to_walk(sm, plan, kinds, onward, pos + 1, end, all, k);
            let name = node.action->Match_0;
            assert(resolves_to(name, token_type));
            assert(token_is(pos, name));
            assert forall|i: int| 0 <= i < path.len() - 1 implies #[trigger] path[i]
                < plan.nodes.len() && !(plan.nodes[path[i] as int].action is Accept) by {
                if i > 0 {
                    assert(path[i] == onward[i - 1]);
                }
            }
            assert(path.last() == onward.last());
        },
        StateAction::Call(callee, resume) => {
            assert(children[0] == all[k as int]);
            assert(children.subrange(1, children.len() as int) =~= all.subrange(
                (k + 1) as int,
                all.len() as int,
            ));
            lemma_leads_to_walk(sm, plan, kinds, onward, all[k as int].end, end, all, k + 1);
            assert forall|i: int| 0 <= i < path.len() - 1 implies #[trigger] path[i]
                < plan.nodes.len() && !(plan.nodes[path[i] as int].action is Accept) by {
                if i > 0 {
                    assert(path[i] == onward[i - 1]);
                }
            }
            assert(path.last() == onward.last());
        },
        StateAction::Split => {
            lemma_leads_to_walk(sm, plan, kinds, onward, pos, end, all, k);
            assert forall|i: int| 0 <= i < path.len() - 1 implies #[trigger] path[i]
                < plan.nodes.len() && !(plan.nodes[path[i] as int].action is Accept) by {
                if i > 0 {
                    assert(path[i] == onward[i - 1]);
                }
            }
            assert(path.last() == onward.last());
        },
    }
}

/// On a path of the engine every child has a path of its own.
pub proof fn lemma_leads_to_children<TT: TokenType>(
    sm: &StateManager<TT>,
    kinds: Seq<&TT>,
    path: Seq<StateId>,
    pos: nat,
    end: nat,
    children: Seq<Record>,
)
    requires
        leads_to(sm, kinds, path, pos, end, children),
    ensures
        forall|i: int| 0 <= i < children.len() ==> derives(sm, kinds, #[trigger] children[i]),
    decreases path.len(),
{
    let st = sm.states@[path[0] as int];
    let onward = path.subrange(1, path.len() as int);
    match st.action {
        StateAction::Accept => {},
        StateAction::Match(_) => {
            lemma_leads_to_children(sm, kinds, onward, pos + 1, end, children);
        },
        StateAction::Call(callee, resume) => {
            let rest = children.subrange(1, children.len() as int);
            lemma_leads_to_children(sm, kinds, onward, children[0].end, end, rest);
            assert forall|i: int| 0 <= i < children.len() implies derives(
                sm,
                kinds,
                #[trigger] children[i],
            ) by {
                if i > 0 {
                    assert(children[i] == rest[i - 1]);
                }
            }
        },
        StateAction::Split => {
            lemma_leads_to_children(sm, kinds, onward, pos, end, children);
        },
    }
}

/// A record that has a path through the states of a compiled grammar is
/// grammatical.
pub proof fn lemma_derives_grammatical<TT: TokenType + TryFrom<Vec<char>>>(
    sm: &StateManager<TT>,
    rules: Seq<RuleSyntax>,
    kinds: Seq<&TT>,
    record: Record,
)
    requires
        realizes(*sm, blueprint(rules)),
        derives(sm, kinds, record),
    ensures
        grammatical(rules, token_test(kinds), record),
    decreases record, 1nat,
{
    let plan = blueprint(rules);
    let nodes = plan.nodes;
    let names = rule_names_of(rules);
    let token_is = token_test(kinds);
    let r = record.rule as nat;
    assert(sm.states@.len() == sm.states.len() <= usize::MAX);
    let path = choose|path: Seq<StateId>|
        path.len() > 0 && #[trigger] path[0] == sm.start_states@[record.rule as int] && leads_to(
            sm,
            kinds,
            path,
            record.start,
            record.end,
            record.children,
        );
    lemma_rules_counted(rules, rules.len());
    lemma_rule_placed(rules, r, rules.len());
    let a = rule_base(rules, r);
    let body = compile_expression(rules[r as int].body, names, a + 1, a);
    assert(record.children.subrange(0, record.children.len() as int) =~= record.children);
    lemma_leads_to_walk(sm, plan, kinds, path, record.start, record.end, record.children, 0);
    lemma_expression_local(rules[r as int].body, names, a + 1, a);
    if body.nodes.len() == 0 {
        assert(path[0] == a);
        assert(path.len() == 1);
    } else {
        assert(!inside(a + 1, body.nodes.len(), path.last())) by {
            if inside(a + 1, body.nodes.len(), path.last()) {
                assert(nodes[path.last() as int] == body.nodes[path.last() - (a + 1)]);
            }
        }
        let at = lemma_first_exit(
            nodes,
            token_is,
            record.children,
            body.nodes,
            a + 1,
            a,
            path,
            record.start,
            0,
        );
        assert(at == path.len() - 1) by {
            if at < path.len() - 1 {
                assert(!(nodes[path[at] as int].action is Accept));
            }
        }
    }
    assert forall|i: int| 0 <= i < path.len() - 1 implies #[trigger] path[i] != a by {
        assert(!(nodes[path[i] as int].action is Accept));
    }
    let way = lemma_expression_traced(
        rules[r as int].body,
        names,
        nodes,
        token_is,
        record.children,
        a + 1,
        a,
        path,
        record.start,
        0,
    );
    assert(follows_rule(rules, token_is, record));
    lemma_leads_to_children(sm, kinds, path, record.start, record.end, record.children);
    lemma_all_grammatical(sm, rules, kinds, record.children);
}

/// Records that have paths of their own are all grammatical.
pub proof fn lemma_all_grammatical<TT: TokenType + TryFrom<Vec<char>>>(
    sm: &StateManager<TT>,
    rules: Seq<RuleSyntax>,
    kinds: Seq<&TT>,
    records: Seq<Record>,
)
    requires
        realizes(*sm, blueprint(rules)),
        forall|i: int| 0 <= i < records.len() ==> derives(sm, kinds, #[trigger] records[i]),
    ensures
        all_grammatical(rules, token_test(kinds), records),
    decreases records, 0nat,
{
    if records.len() > 0 {
        let rest = records.subrange(1, records.len() as int);
        lemma_derives_grammatical(sm, rules, kinds, records[0]);
        assert forall|i: int| 0 <= i < rest.len() implies derives(sm, kinds, #[trigger] rest[i]) by {
            assert(rest[i] == records[i + 1]);
        }
        lemma_all_grammatical(sm, rules, kinds, rest);
    }
}

/// What the engine hands back is grammatical: a record that `parse` yields
/// on a grammar compiled from `rules` follows its rule, and so does every
/// record below it.
pub proof fn lemma_parse_result_grammatical<TT: TokenType + TryFrom<Vec<char>>>(
    sm: &StateManager<TT>,
    rules: Seq<RuleSyntax>,
    kinds: Seq<&TT>,
    start_rule: RuleId,
)
    requires
        realizes(*sm, blueprint(rules)),
    ensures
        parse_result(sm, kinds, start_rule) matches Ok(record) ==> grammatical(
            rules,
            token_test(kinds),
            record,
        ),
{
    lemma_parse_result_sound(sm, kinds, start_rule);
    if let Ok(record) = parse_result(sm, kinds, start_rule) {
        lemma_derives_grammatical(sm, rules, kinds, record);
    }
}

} // verus!
