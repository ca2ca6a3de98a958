//! The check that no rule can call itself before a token is consumed.
//!
//! A rule calls another one first where the call stands at the front of its
//! body: at the start of a sequence, or behind members of the sequence that
//! may match nothing (a repetition; a choice with such an alternative; the
//! name of a rule that may match nothing), and the like inside every
//! alternative of a choice and inside a repetition. A grammar is left
//! recursive where these calls lead from a rule back to itself.
use crate::bnf_rules_compiler::{rule_names, rule_names_of, RuleId};
use crate::empty_matches::{
    all_may_skip, any_may_skip, matches_nothing, may_skip, rules_matching_nothing,
};
use crate::error::ParseError;
use crate::grammar_text::{
    distinct_names, lemma_syntaxes, rule_syntaxes, syntaxes, Expression, GrammarRule, RuleSyntax,
    Syntax,
};
use crate::rule_graph::{find_name, lemma_rule_index, names_of, rule_index};
use vstd::prelude::*;
use vstd::relations::injective;
use vstd::set_lib::{lemma_int_range, lemma_len_subset, set_int_range};

verus! {

/// The rules that `e` may call before anything else, in the order in which
/// they stand in `e`.
pub open spec fn first_calls(e: Syntax, names: Seq<Seq<char>>, empty: Seq<bool>) -> Seq<RuleId>
    decreases e,
{
    match e {
        Syntax::Symbol(name) => match rule_index(names, name) {
            Some(rule) => seq![rule as usize],
            None => Seq::empty(),
        },
        Syntax::Sequence(members) => first_calls_of_sequence(members, names, empty),
        Syntax::Alternation(alternatives) => first_calls_of_alternatives(
            alternatives,
            names,
            empty,
        ),
        Syntax::Repetition(body) => first_calls(*body, names, empty),
    }
}

/// The first calls of the first member, and those of the members behind it
/// as long as every member before them may match nothing.
pub open spec fn first_calls_of_sequence(
    members: Seq<Syntax>,
    names: Seq<Seq<char>>,
    empty: Seq<bool>,
) -> Seq<RuleId>
    decreases members,
{
    if members.len() == 0 {
        Seq::empty()
    } else if may_skip(members[0], names, empty) {
        first_calls(members[0], names, empty) + first_calls_of_sequence(
            members.subrange(1, members.len() as int),
            names,
            empty,
        )
    } else {
        first_calls(members[0], names, empty)
    }
}

/// The first calls of all alternatives.
pub open spec fn first_calls_of_alternatives(
    alternatives: Seq<Syntax>,
    names: Seq<Seq<char>>,
    empty: Seq<bool>,
) -> Seq<RuleId>
    decreases alternatives,
{
    if alternatives.len() == 0 {
        Seq::empty()
    } else {
        first_calls_of_alternatives(alternatives.drop_last(), names, empty) + first_calls(
            alternatives.last(),
            names,
            empty,
        )
    }
}

/// For every rule the rules that it may call first.
pub open spec fn left_calls(rules: Seq<RuleSyntax>) -> Seq<Seq<RuleId>> {
    Seq::new(
        rules.len(),
        |a: int| first_calls(rules[a].body, rule_names_of(rules), matches_nothing(rules)),
    )
}

/// Rule `a` may call rule `b` first.
pub open spec fn calls_first(graph: Seq<Seq<RuleId>>, a: RuleId, b: RuleId) -> bool {
    a < graph.len() && b < graph.len() && graph[a as int].contains(b)
}

/// Every rule of `cycle` may call the next one first, and the last one the
/// first.
pub open spec fn is_cycle(graph: Seq<Seq<RuleId>>, cycle: Seq<RuleId>) -> bool {
    &&& cycle.len() > 0
    &&& forall|i: int|
        0 <= i < cycle.len() - 1 ==> calls_first(graph, #[trigger] cycle[i], cycle[i + 1])
    &&& calls_first(graph, cycle.last(), cycle[0])
}

/// A cycle in which no rule stands twice.
pub open spec fn is_simple_cycle(graph: Seq<Seq<RuleId>>, cycle: Seq<RuleId>) -> bool {
    is_cycle(graph, cycle) && cycle.no_duplicates()
}

/// The body of rule `a` begins with the name of rule `b`.
pub open spec fn begins_with(rules: Seq<RuleSyntax>, a: RuleId, b: RuleId) -> bool {
    &&& a < rules.len()
    &&& b < rules.len()
    &&& rules[a as int].body matches Syntax::Sequence(members)
    &&& members.len() > 0
    &&& members[0] == Syntax::Symbol(rules[b as int].name)
}

/// A rule whose body begins with the name of a rule calls that rule first.
/// So a rule whose body begins with its own name makes a cycle by itself,
/// and two rules whose bodies begin with each other's names make one
/// together.
pub proof fn lemma_begins_with_calls_first(rules: Seq<RuleSyntax>, a: RuleId, b: RuleId)
    requires
        distinct_names(rules),
        rules.len() <= usize::MAX,
        begins_with(rules, a, b),
    ensures
        calls_first(left_calls(rules), a, b),
        a == b ==> is_simple_cycle(left_calls(rules), seq![a]),
        a != b && begins_with(rules, b, a) ==> is_simple_cycle(left_calls(rules), seq![a, b]),
{
    lemma_names_first(rules, a, b);
    if a != b && begins_with(rules, b, a) {
        lemma_names_first(rules, b, a);
        let cycle = seq![a, b];
        assert(cycle.last() == b);
    }
}

proof fn lemma_names_first(rules: Seq<RuleSyntax>, a: RuleId, b: RuleId)
    requires
        distinct_names(rules),
        rules.len() <= usize::MAX,
        begins_with(rules, a, b),
    ensures
        calls_first(left_calls(rules), a, b),
{
    let names = rule_names_of(rules);
    let members = rules[a as int].body->Sequence_0;
    let name = rules[b as int].name;
    lemma_rule_index(names, name);
    assert(names[b as int] == name);
    match rule_index(names, name) {
        Some(found) => {
            if found != b {
                assert(names[found as int] == rules[found as int].name);
            }
            assert(found == b);
        },
        None => {},
    }
    let first = first_calls(members[0], names, matches_nothing(rules));
    assert(first == seq![b]);
    assert(first[0] == b);
    let all = first_calls_of_sequence(members, names, matches_nothing(rules));
    assert(all[0] == b);
    assert(left_calls(rules)[a as int] == all);
}

/// The views of the call lists, element by element.
pub open spec fn graph_of(calls: Seq<Vec<RuleId>>) -> Seq<Seq<RuleId>> {
    Seq::new(calls.len(), |i: int| calls[i]@)
}

/// Appends the first calls of `e` to `out` and says whether `e` may match
/// nothing.
pub fn collect_first_calls(
    e: &Expression,
    names: &Vec<Vec<char>>,
    empty: &Vec<bool>,
    out: &mut Vec<RuleId>,
) -> (skip: bool)
    ensures
        final(out)@ == old(out)@ + first_calls(e@, names_of(names@), empty@),
        skip == may_skip(e@, names_of(names@), empty@),
    decreases e,
{
    let ghost before = out@;
    match e {
        Expression::Symbol(name) => {
            assert(names@.len() == names.len() <= usize::MAX);
            match find_name(names, name) {
                Some(rule) => {
                    out.push(rule);
                    assert(out@ =~= before + seq![rule]);
                    rule < empty.len() && empty[rule]
                },
                None => {
                    assert(out@ =~= before + Seq::<RuleId>::empty());
                    false
                },
            }
        },
        Expression::Sequence(members) => {
            let ghost model = syntaxes(members@);
            let ghost all = model.len() as int;
            let mut i: usize = 0;
            let mut skip = true;
            proof {
                lemma_syntaxes(members@);
                assert(model.subrange(0, all) =~= model);
            }
            while skip && i < members.len()
                invariant
                    i <= members@.len(),
                    model == syntaxes(members@),
                    all == members@.len(),
                    all == model.len(),
                    forall|k: int| 0 <= k < all ==> (#[trigger] model[k]) == members@[k]@,
                    skip ==> before + first_calls_of_sequence(model, names_of(names@), empty@) == out@
                        + first_calls_of_sequence(
                            model.subrange(i as int, all),
                            names_of(names@),
                            empty@,
                        ),
                    skip ==> all_may_skip(model, names_of(names@), empty@) == all_may_skip(
                        model.subrange(i as int, all),
                        names_of(names@),
                        empty@,
                    ),
                    !skip ==> out@ == before + first_calls_of_sequence(model, names_of(names@), empty@),
                    !skip ==> !all_may_skip(model, names_of(names@), empty@),
                    decreases_to!(e => members),
                decreases members@.len() - i,
            {
                let ghost here = out@;
                let ghost rest = model.subrange(i as int, all);
                proof {
                    assert(rest.subrange(1, rest.len() as int) =~= model.subrange(i + 1, all));
                    assert(rest[0] == members@[i as int]@);
                }
                skip = collect_first_calls(&members[i], names, empty, out);
                proof {
                    let head = first_calls(members@[i as int]@, names_of(names@), empty@);
                    let tail = first_calls_of_sequence(
                        model.subrange(i + 1, all),
                        names_of(names@),
                        empty@,
                    );
                    if skip {
                        assert(here + (head + tail) =~= out@ + tail);
                    }
                }
                i += 1;
            }
            proof {
                if skip {
                    assert(model.subrange(all, all).len() == 0);
                    assert(out@ + Seq::<RuleId>::empty() =~= out@);
                }
            }
            skip
        },
        Expression::Alternation(alternatives) => {
            let ghost model = syntaxes(alternatives@);
            let mut i: usize = 0;
            let mut skip = false;
            proof {
                lemma_syntaxes(alternatives@);
                assert(out@ + Seq::<RuleId>::empty() =~= out@);
            }
            while i < alternatives.len()
                invariant
                    i <= alternatives@.len(),
                    model == syntaxes(alternatives@),
                    model.len() == alternatives@.len(),
                    forall|k: int|
                        0 <= k < model.len() ==> (#[trigger] model[k]) == alternatives@[k]@,
                    out@ == before + first_calls_of_alternatives(
                        model.subrange(0, i as int),
                        names_of(names@),
                        empty@,
                    ),
                    skip == any_may_skip(model.subrange(0, i as int), names_of(names@), empty@),
                    decreases_to!(e => alternatives),
                decreases alternatives@.len() - i,
            {
                let ghost here = first_calls_of_alternatives(
                    model.subrange(0, i as int),
                    names_of(names@),
                    empty@,
                );
                proof {
                    let upto = model.subrange(0, i + 1);
                    assert(upto.drop_last() =~= model.subrange(0, i as int));
                    assert(upto.last() == alternatives@[i as int]@);
                }
                let one = collect_first_calls(&alternatives[i], names, empty, out);
                skip = skip || one;
                proof {
                    assert(out@ =~= before + (here + first_calls(
                        alternatives@[i as int]@,
                        names_of(names@),
                        empty@,
                    )));
                }
                i += 1;
            }
            proof {
                assert(model.subrange(0, model.len() as int) =~= model);
            }
            skip
        },
        Expression::Repetition(body) => {
            collect_first_calls(body, names, empty, out);
            true
        },
    }
}

/// A sequence of distinct rules below `n` has at most `n` members.
pub proof fn lemma_distinct_rules(s: Seq<RuleId>, n: nat)
    requires
        s.no_duplicates(),
        forall|i: int| 0 <= i < s.len() ==> (#[trigger] s[i]) < n,
    ensures
        s.len() <= n,
{
    let f = |x: RuleId| x as int;
    assert(injective(f));
    s.lemma_no_duplicates_injective(f);
    let t = s.map_values(f);
    t.unique_seq_to_set();
    lemma_int_range(0, n as int);
    assert forall|x: int| t.to_set().contains(x) implies set_int_range(0, n as int).contains(x) by {
        let i = choose|i: int| 0 <= i < t.len() && t[i] == x;
        assert(t[i] == s[i] as int);
    }
    lemma_len_subset(t.to_set(), set_int_range(0, n as int));
}

/// The state of a depth-first search: `color` is 0 for a rule not yet seen,
/// 1 for one that is being searched and 2 for one that is done; `stack` holds
/// the rules that are being searched, each of which calls the next first;
/// every rule that is done calls only rules that are done and of lower rank.
/// What a search from one rule comes to: the cycle that it has found, or
/// the rules that are done once it has found none.
pub enum Search {
    Found(Seq<RuleId>),
    Done(Seq<bool>),
}

/// Where `rule` stands in `stack`.
pub open spec fn place(stack: Seq<RuleId>, rule: RuleId) -> int {
    choose|j: int| 0 <= j < stack.len() && stack[j] == rule
}

/// The search from `rule`, depth first: `stack` holds the rules that are
/// being searched, each called first by the one before it, and `done` says
/// which rules have been searched to the end. The first calls of `rule` are
/// followed in their order. One that leads to a rule on the stack closes a
/// cycle: the stack from that rule on.
pub open spec fn search(
    graph: Seq<Seq<RuleId>>,
    rule: RuleId,
    stack: Seq<RuleId>,
    done: Seq<bool>,
) -> Search
    decreases graph.len() - stack.len(), 0nat,
{
    if stack.len() >= graph.len() || rule >= graph.len() {
        Search::Done(done)
    } else {
        search_calls(graph, rule, 0, stack.push(rule), done)
    }
}

/// The search through the first calls of `rule`, the top of `stack`, from
/// the `k`-th call on.
pub open spec fn search_calls(
    graph: Seq<Seq<RuleId>>,
    rule: RuleId,
    k: nat,
    stack: Seq<RuleId>,
    done: Seq<bool>,
) -> Search
    decreases graph.len() - stack.len(), graph[rule as int].len() - k + 1,
{
    let calls = graph[rule as int];
    if k >= calls.len() {
        Search::Done(done.update(rule as int, true))
    } else {
        let next = calls[k as int];
        if next >= graph.len() {
            search_calls(graph, rule, k + 1, stack, done)
        } else if stack.contains(next) {
            Search::Found(stack.subrange(place(stack, next), stack.len() as int))
        } else if done[next as int] {
            search_calls(graph, rule, k + 1, stack, done)
        } else {
            match search(graph, next, stack, done) {
                Search::Found(cycle) => Search::Found(cycle),
                Search::Done(after) => search_calls(graph, rule, k + 1, stack, after),
            }
        }
    }
}

/// The first cycle that the searches from the rules `root`, `root + 1` and
/// so on find, each search leaving out the rules that are done.
pub open spec fn first_cycle_from(graph: Seq<Seq<RuleId>>, root: nat, done: Seq<bool>) -> Option<
    Seq<RuleId>,
>
    decreases graph.len() - root,
{
    if root >= graph.len() {
        None
    } else if done[root as int] {
        first_cycle_from(graph, root + 1, done)
    } else {
        match search(graph, root as usize, Seq::empty(), done) {
            Search::Found(cycle) => Some(cycle),
            Search::Done(after) => first_cycle_from(graph, root + 1, after),
        }
    }
}

/// The cycle that is reported: the first that a depth-first search meets
/// that starts from the first rule, follows the first calls of every rule
/// in their order, and goes on from the next rule that is not done. It
/// starts with the rule that the search came back to.
pub open spec fn first_cycle(graph: Seq<Seq<RuleId>>) -> Option<Seq<RuleId>> {
    first_cycle_from(graph, 0, Seq::new(graph.len(), |a: int| false))
}

/// The rules that a search has done.
pub open spec fn done_of(color: Seq<u8>) -> Seq<bool> {
    Seq::new(color.len(), |a: int| color[a] == 2)
}

/// `bound` rules are done: there is a list of so many different rules, all
/// of them done.
pub open spec fn counted(color: Seq<u8>, bound: nat) -> bool {
    exists|order: Seq<RuleId>|
        #[trigger] order.no_duplicates() && order.len() == bound && forall|i: int|
            0 <= i < order.len() ==> (#[trigger] order[i]) < color.len() && color[order[i] as int]
                == 2
}

/// There is a rank for every rule, below the number of rules, that falls
/// along every first call: so no calls lead round in a circle.
pub open spec fn falls(graph: Seq<Seq<RuleId>>) -> bool {
    exists|ranks: Seq<nat>| falls_by(graph, ranks)
}

/// `ranks` gives every rule a rank below the number of rules that falls
/// along every first call.
pub open spec fn falls_by(graph: Seq<Seq<RuleId>>, ranks: Seq<nat>) -> bool {
    &&& ranks.len() == graph.len()
    &&& forall|a: int| 0 <= a < graph.len() ==> (#[trigger] ranks[a]) < graph.len()
    &&& forall|a: int, k: int|
        0 <= a < graph.len() && 0 <= k < graph[a].len() && (#[trigger] graph[a][k]) < graph.len()
            ==> ranks[graph[a][k] as int] < ranks[a]
}

/// Along a cycle no rank can fall all the way round.
pub proof fn lemma_cycle_never_falls(graph: Seq<Seq<RuleId>>, cycle: Seq<RuleId>, ranks: Seq<nat>)
    requires
        is_cycle(graph, cycle),
    ensures
        !falls_by(graph, ranks),
{
    if falls_by(graph, ranks) {
        let last = cycle.len() - 1;
        lemma_falls_along(graph, cycle, ranks, last);
        lemma_falls_along(graph, cycle, ranks, 0);
        let a = cycle[last];
        let b = cycle[0];
        assert(calls_first(graph, a, b));
        let k = choose|k: int| 0 <= k < graph[a as int].len() && graph[a as int][k] == b;
        assert(graph[a as int][k] == b);
    }
}

proof fn lemma_falls_along(
    graph: Seq<Seq<RuleId>>,
    cycle: Seq<RuleId>,
    ranks: Seq<nat>,
    i: int,
)
    requires
        is_cycle(graph, cycle),
        falls_by(graph, ranks),
        0 <= i < cycle.len(),
    ensures
        ranks[cycle[i] as int] + i <= ranks[cycle[0] as int],
        cycle[i] < graph.len(),
    decreases i,
{
    if i > 0 {
        lemma_falls_along(graph, cycle, ranks, i - 1);
        let a = cycle[i - 1];
        let b = cycle[i];
        assert(calls_first(graph, a, b));
        let k = choose|k: int| 0 <= k < graph[a as int].len() && graph[a as int][k] == b;
        assert(graph[a as int][k] == b);
    } else {
        if cycle.len() == 1 {
            assert(calls_first(graph, cycle.last(), cycle[0]));
        } else {
            assert(calls_first(graph, cycle[0], cycle[1]));
        }
    }
}

#[verifier::opaque]
pub open spec fn searching(
    graph: Seq<Seq<RuleId>>,
    color: Seq<u8>,
    stack: Seq<RuleId>,
    ranks: Seq<nat>,
    bound: nat,
) -> bool {
    &&& color.len() == graph.len()
    &&& ranks.len() == graph.len()
    &&& forall|a: int| 0 <= a < color.len() ==> #[trigger] color[a] <= 2
    &&& stack.no_duplicates()
    &&& forall|i: int|
        0 <= i < stack.len() ==> (#[trigger] stack[i]) < graph.len() && color[stack[i] as int] == 1
    &&& graph.len() <= usize::MAX
    &&& forall|a: RuleId| a < color.len() && #[trigger] color[a as int] == 1 ==> stack.contains(a)
    &&& forall|i: int|
        0 <= i < stack.len() - 1 ==> calls_first(graph, #[trigger] stack[i], stack[i + 1])
    &&& forall|a: int| 0 <= a < color.len() && color[a] == 2 ==> (#[trigger] ranks[a]) < bound
    &&& forall|a: int, k: int|
        0 <= a < color.len() && color[a] == 2 && 0 <= k < graph[a].len() && (
        #[trigger] graph[a][k]) < graph.len() ==> color[graph[a][k] as int] == 2
            && ranks[graph[a][k] as int] < ranks[a]
    &&& counted(color, bound)
}

/// Where every rule is done, the ranks of the search fall along every
/// first call and lie below the number of rules.
proof fn lemma_falls(graph: Seq<Seq<RuleId>>, color: Seq<u8>, ranks: Seq<nat>, bound: nat)
    requires
        searching(graph, color, Seq::empty(), ranks, bound),
        forall|a: int| 0 <= a < color.len() ==> #[trigger] color[a] == 2,
    ensures
        falls_by(graph, ranks),
        falls(graph),
{
    reveal(searching);
    let order = choose|order: Seq<RuleId>|
        #[trigger] order.no_duplicates() && order.len() == bound && forall|i: int|
            0 <= i < order.len() ==> (#[trigger] order[i]) < color.len() && color[order[i] as int]
                == 2;
    lemma_distinct_rules(order, graph.len());
    assert forall|a: int, k: int|
        0 <= a < graph.len() && 0 <= k < graph[a].len() && (#[trigger] graph[a][k])
            < graph.len() implies ranks[graph[a][k] as int] < ranks[a] by {
        assert(color[a] == 2);
    }
    assert forall|a: int| 0 <= a < graph.len() implies (#[trigger] ranks[a]) < graph.len() by {
        assert(color[a] == 2);
    }
    assert(falls_by(graph, ranks));
}

/// Along first calls between rules that are done the rank falls.
proof fn lemma_rank_falls(
    graph: Seq<Seq<RuleId>>,
    color: Seq<u8>,
    ranks: Seq<nat>,
    bound: nat,
    cycle: Seq<RuleId>,
    i: int,
)
    requires
        searching(graph, color, Seq::empty(), ranks, bound),
        forall|a: int| 0 <= a < color.len() ==> #[trigger] color[a] == 2,
        is_cycle(graph, cycle),
        0 <= i < cycle.len(),
    ensures
        ranks[cycle[i] as int] + i <= ranks[cycle[0] as int],
        cycle[i] < graph.len(),
    decreases i,
{
    reveal(searching);
    if i > 0 {
        lemma_rank_falls(graph, color, ranks, bound, cycle, i - 1);
        let a = cycle[i - 1];
        let b = cycle[i];
        assert(calls_first(graph, a, b));
        let k = choose|k: int| 0 <= k < graph[a as int].len() && graph[a as int][k] == b;
        assert(graph[a as int][k] == b);
        assert(color[a as int] == 2);
    } else {
        if cycle.len() == 1 {
            assert(calls_first(graph, cycle.last(), cycle[0]));
        } else {
            assert(calls_first(graph, cycle[0], cycle[1]));
        }
    }
}

/// Where every rule is done, there is no cycle.
proof fn lemma_no_cycle(
    graph: Seq<Seq<RuleId>>,
    color: Seq<u8>,
    ranks: Seq<nat>,
    bound: nat,
    cycle: Seq<RuleId>,
)
    requires
        searching(graph, color, Seq::empty(), ranks, bound),
        forall|a: int| 0 <= a < color.len() ==> #[trigger] color[a] == 2,
    ensures
        !is_cycle(graph, cycle),
{
    reveal(searching);
    if is_cycle(graph, cycle) {
        let last = cycle.len() - 1;
        lemma_rank_falls(graph, color, ranks, bound, cycle, last);
        lemma_rank_falls(graph, color, ranks, bound, cycle, 0);
        let a = cycle[last];
        let b = cycle[0];
        assert(calls_first(graph, a, b));
        let k = choose|k: int| 0 <= k < graph[a as int].len() && graph[a as int][k] == b;
        assert(graph[a as int][k] == b);
        assert(color[a as int] == 2);
        assert(ranks[b as int] < ranks[a as int]);
    }
}

/// The part of the stack from the rule `target` on.
fn cycle_from(stack: &Vec<RuleId>, target: RuleId) -> (cycle: Vec<RuleId>)
    requires
        stack@.contains(target),
    ensures
        exists|j: int|
            0 <= j < stack@.len() && stack@[j] == target && cycle@ == stack@.subrange(
                j,
                stack@.len() as int,
            ),
{
    let mut j: usize = 0;
    while j < stack.len() && stack[j] != target
        invariant
            j <= stack@.len(),
            stack@.contains(target),
            forall|i: int| 0 <= i < j ==> stack@[i] != target,
        decreases stack@.len() - j,
    {
        j += 1;
    }
    assert(j < stack@.len()) by {
        let w = choose|i: int| 0 <= i < stack@.len() && stack@[i] == target;
        assert(stack@[w] == target);
    }
    let mut cycle: Vec<RuleId> = Vec::new();
    let mut i = j;
    while i < stack.len()
        invariant
            j <= i <= stack@.len(),
            cycle@ == stack@.subrange(j as int, i as int),
        decreases stack@.len() - i,
    {
        cycle.push(stack[i]);
        i += 1;
        assert(cycle@ =~= stack@.subrange(j as int, i as int));
    }
    cycle
}

/// A search may go down into a rule that has not been seen yet.
proof fn lemma_enter(
    graph: Seq<Seq<RuleId>>,
    color: Seq<u8>,
    stack: Seq<RuleId>,
    ranks: Seq<nat>,
    bound: nat,
    rule: RuleId,
)
    requires
        searching(graph, color, stack, ranks, bound),
        rule < graph.len(),
        color[rule as int] == 0,
        stack.len() > 0 ==> calls_first(graph, stack.last(), rule),
    ensures
        searching(graph, color.update(rule as int, 1), stack.push(rule), ranks, bound),
        stack.len() < graph.len(),
        color.len() == graph.len(),
{
    reveal(searching);
    let color1 = color.update(rule as int, 1);
    let stack1 = stack.push(rule);
    assert(!stack.contains(rule));
    assert(stack1.no_duplicates());
    lemma_distinct_rules(stack1, graph.len());
    assert forall|a: RuleId| a < color1.len() && #[trigger] color1[a as int] == 1 implies stack1.contains(
        a,
    ) by {
        if a == rule {
            assert(stack1[stack1.len() - 1] == rule);
        } else {
            assert(color[a as int] == 1);
            let w = choose|i: int| 0 <= i < stack.len() && stack[i] == a;
            assert(stack1[w] == a);
        }
    }
    assert forall|i: int| 0 <= i < stack1.len() - 1 implies calls_first(
        graph,
        #[trigger] stack1[i],
        stack1[i + 1],
    ) by {
        if i < stack.len() - 1 {
            assert(calls_first(graph, stack[i], stack[i + 1]));
        }
    }
    assert forall|a: int, k: int|
        0 <= a < color1.len() && color1[a] == 2 && 0 <= k < graph[a].len() && (
        #[trigger] graph[a][k]) < graph.len() implies color1[graph[a][k] as int] == 2
        && ranks[graph[a][k] as int] < ranks[a] by {
        assert(color[a] == 2);
        assert(color[graph[a][k] as int] == 2);
    }
    assert forall|a: int| 0 <= a < color1.len() && color1[a] == 2 implies (#[trigger] ranks[a])
        < bound by {
        assert(color[a] == 2);
    }
    let order = choose|order: Seq<RuleId>|
        #[trigger] order.no_duplicates() && order.len() == bound && forall|i: int|
            0 <= i < order.len() ==> (#[trigger] order[i]) < color.len() && color[order[i] as int]
                == 2;
    assert(order.no_duplicates());
    assert forall|i: int| 0 <= i < order.len() implies (#[trigger] order[i]) < color1.len()
        && color1[order[i] as int] == 2 by {
        assert(color[order[i] as int] == 2);
    }
    assert(counted(color1, bound));
}

/// A rule all of whose first calls lead to rules that are done is done.
proof fn lemma_leave(
    graph: Seq<Seq<RuleId>>,
    color: Seq<u8>,
    stack: Seq<RuleId>,
    ranks: Seq<nat>,
    bound: nat,
    rule: RuleId,
)
    requires
        searching(graph, color, stack, ranks, bound),
        stack.len() > 0,
        stack.last() == rule,
        forall|k: int|
            0 <= k < graph[rule as int].len() && (#[trigger] graph[rule as int][k]) < graph.len()
                ==> color[graph[rule as int][k] as int] == 2,
    ensures
        rule < graph.len(),
        searching(
            graph,
            color.update(rule as int, 2),
            stack.drop_last(),
            ranks.update(rule as int, bound),
            bound + 1,
        ),
{
    reveal(searching);
    let color2 = color.update(rule as int, 2);
    let stack2 = stack.drop_last();
    let ranks2 = ranks.update(rule as int, bound);
    assert(stack[stack.len() - 1] == rule);
    assert(rule < graph.len());
    assert(color[rule as int] == 1);
    assert forall|i: int| 0 <= i < stack2.len() implies (#[trigger] stack2[i]) < graph.len()
        && color2[stack2[i] as int] == 1 by {
        assert(stack[i] == stack2[i]);
    }
    assert forall|a: RuleId| a < color2.len() && #[trigger] color2[a as int] == 1 implies stack2.contains(
        a,
    ) by {
        assert(a != rule);
        assert(color[a as int] == 1);
        assert(stack.contains(a));
        let w = choose|i: int| 0 <= i < stack.len() && stack[i] == a;
        assert(w != stack.len() - 1);
        assert(stack2[w] == a);
    }
    assert forall|i: int| 0 <= i < stack2.len() - 1 implies calls_first(
        graph,
        #[trigger] stack2[i],
        stack2[i + 1],
    ) by {
        assert(calls_first(graph, stack[i], stack[i + 1]));
    }
    assert forall|a: int| 0 <= a < color2.len() && color2[a] == 2 implies (#[trigger] ranks2[a])
        < bound + 1 by {
        if a != rule {
            assert(color[a] == 2);
            assert(ranks[a] < bound);
        }
    }
    assert forall|a: int, k: int|
        0 <= a < color2.len() && color2[a] == 2 && 0 <= k < graph[a].len() && (
        #[trigger] graph[a][k]) < graph.len() implies color2[graph[a][k] as int] == 2
        && ranks2[graph[a][k] as int] < ranks2[a] by {
        let b = graph[a][k];
        if a == rule {
            assert(color[b as int] == 2);
            assert(ranks[b as int] < bound);
        } else {
            assert(color[a] == 2);
            assert(color[b as int] == 2);
            assert(ranks[b as int] < ranks[a]);
        }
    }
    let order = choose|order: Seq<RuleId>|
        #[trigger] order.no_duplicates() && order.len() == bound && forall|i: int|
            0 <= i < order.len() ==> (#[trigger] order[i]) < color.len() && color[order[i] as int]
                == 2;
    let order2 = order.push(rule);
    assert forall|i: int, j: int| 0 <= i < order2.len() && 0 <= j < order2.len() && i
        != j implies order2[i] != order2[j] by {
        if i < order.len() {
            assert(color[order[i] as int] == 2);
        }
        if j < order.len() {
            assert(color[order[j] as int] == 2);
        }
    }
    assert(order2.no_duplicates());
    assert forall|i: int| 0 <= i < order2.len() implies (#[trigger] order2[i]) < color2.len()
        && color2[order2[i] as int] == 2 by {
        if i < order.len() {
            assert(order2[i] == order[i]);
            assert(color[order[i] as int] == 2);
        }
    }
    assert(counted(color2, bound + 1));
}

/// A first call that leads to a rule that is being searched closes a cycle:
/// the stack from that rule on.
proof fn lemma_closes(
    graph: Seq<Seq<RuleId>>,
    color: Seq<u8>,
    stack: Seq<RuleId>,
    ranks: Seq<nat>,
    bound: nat,
    next: RuleId,
)
    requires
        searching(graph, color, stack, ranks, bound),
        stack.len() > 0,
        calls_first(graph, stack.last(), next),
        color[next as int] == 1,
    ensures
        stack.contains(next),
        forall|j: int|
            0 <= j < stack.len() && stack[j] == next ==> is_simple_cycle(
                graph,
                #[trigger] stack.subrange(j, stack.len() as int),
            ),
{
    reveal(searching);
    assert forall|j: int| 0 <= j < stack.len() && stack[j] == next implies is_simple_cycle(
        graph,
        #[trigger] stack.subrange(j, stack.len() as int),
    ) by {
        let cycle = stack.subrange(j, stack.len() as int);
        assert(cycle.last() == stack.last());
        assert(cycle[0] == next);
        assert forall|i: int| 0 <= i < cycle.len() - 1 implies calls_first(
            graph,
            #[trigger] cycle[i],
            cycle[i + 1],
        ) by {
            assert(calls_first(graph, stack[j + i], stack[j + i + 1]));
        }
    }
}

/// The rules on the stack are those that are being searched, and each
/// stands there once.
proof fn lemma_on_stack(
    graph: Seq<Seq<RuleId>>,
    color: Seq<u8>,
    stack: Seq<RuleId>,
    ranks: Seq<nat>,
    bound: nat,
    rule: RuleId,
)
    requires
        searching(graph, color, stack, ranks, bound),
        rule < graph.len(),
    ensures
        stack.contains(rule) <==> color[rule as int] == 1,
        forall|j: int| 0 <= j < stack.len() && stack[j] == rule ==> j == place(stack, rule),
{
    reveal(searching);
    if stack.contains(rule) {
        let w = choose|j: int| 0 <= j < stack.len() && stack[j] == rule;
        assert(color[stack[w] as int] == 1);
    }
}

/// The colors of a search are 0, 1 and 2.
proof fn lemma_colors(
    graph: Seq<Seq<RuleId>>,
    color: Seq<u8>,
    stack: Seq<RuleId>,
    ranks: Seq<nat>,
    bound: nat,
)
    requires
        searching(graph, color, stack, ranks, bound),
    ensures
        color.len() == graph.len(),
        forall|a: int| 0 <= a < color.len() ==> #[trigger] color[a] <= 2,
        stack.len() == 0 ==> forall|a: int| 0 <= a < color.len() ==> #[trigger] color[a] != 1,
{
    reveal(searching);
    if stack.len() == 0 {
        assert forall|a: int| 0 <= a < color.len() implies #[trigger] color[a] != 1 by {
            if color[a] == 1 {
                assert(color[(a as usize) as int] == 1);
                assert(stack.contains(a as usize));
            }
        }
    }
}

/// Searches from `rule`, which has not been seen yet, for a way back to a
/// rule that is being searched.
fn visit(
    calls: &Vec<Vec<RuleId>>,
    rule: RuleId,
    color: &mut Vec<u8>,
    stack: &mut Vec<RuleId>,
    Ghost(ranks): Ghost<Seq<nat>>,
    Ghost(bound): Ghost<nat>,
) -> (r: (Option<Vec<RuleId>>, Ghost<Seq<nat>>, Ghost<nat>))
    requires
        searching(graph_of(calls@), old(color)@, old(stack)@, ranks, bound),
        rule < calls@.len(),
        old(color)@[rule as int] == 0,
        old(stack)@.len() > 0 ==> calls_first(graph_of(calls@), old(stack)@.last(), rule),
    ensures
        match r.0 {
            Some(cycle) => is_simple_cycle(graph_of(calls@), cycle@) && search(
                graph_of(calls@),
                rule,
                old(stack)@,
                done_of(old(color)@),
            ) == Search::Found(cycle@),
            None => {
                &&& search(graph_of(calls@), rule, old(stack)@, done_of(old(color)@))
                    == Search::Done(done_of(final(color)@))
                &&& searching(graph_of(calls@), final(color)@, final(stack)@, r.1@, r.2@)
                &&& final(stack)@ == old(stack)@
                &&& final(color)@[rule as int] == 2
                &&& forall|x: int|
                    0 <= x < calls@.len() && old(color)@[x] == 2 ==> #[trigger] final(color)@[x]
                        == 2
                &&& forall|x: int|
                    0 <= x < calls@.len() ==> (old(color)@[x] == 1 <==> #[trigger] final(color)@[x]
                        == 1)
            },
        },
    decreases calls@.len() - old(stack)@.len(),
{
    let ghost graph = graph_of(calls@);
    let ghost stack0 = stack@;
    let ghost color0 = color@;
    proof {
        lemma_enter(graph, color@, stack@, ranks, bound, rule);
    }
    color.set(rule, 1);
    stack.push(rule);
    let ghost mut ranks = ranks;
    let ghost mut bound = bound;
    let ghost goal = search(graph, rule, stack0, done_of(color0));
    proof {
        assert(done_of(color@) =~= done_of(color0));
        assert(goal == search_calls(graph, rule, 0, stack@, done_of(color@)));
    }
    let mut k: usize = 0;
    while k < calls[rule].len()
        invariant
            k <= calls@[rule as int]@.len(),
            rule < calls@.len(),
            graph == graph_of(calls@),
            goal == search(graph, rule, old(stack)@, done_of(old(color)@)),
            goal == search_calls(graph, rule, k as nat, stack@, done_of(color@)),
            searching(graph, color@, stack@, ranks, bound),
            stack@ == stack0.push(rule),
            stack0 == old(stack)@,
            stack0.len() < calls@.len(),
            color0.len() == calls@.len(),
            color@.len() == calls@.len(),
            color@[rule as int] == 1,
            forall|j: int|
                0 <= j < k && (#[trigger] calls@[rule as int]@[j]) < calls@.len()
                    ==> color@[calls@[rule as int]@[j] as int] == 2,
            forall|x: int| 0 <= x < calls@.len() && color0[x] == 2 ==> #[trigger] color@[x] == 2,
            forall|x: int|
                0 <= x < calls@.len() && x != rule ==> (color0[x] == 1 <==> #[trigger] color@[x]
                    == 1),
        decreases calls@[rule as int]@.len() - k,
    {
        let next = calls[rule][k];
        assert(graph[rule as int] == calls@[rule as int]@);
        assert(graph[rule as int][k as int] == next);
        let ghost here = search_calls(graph, rule, k as nat, stack@, done_of(color@));
        if next < calls.len() {
            assert(calls_first(graph, rule, next));
            assert(stack@.last() == rule);
            proof {
                lemma_on_stack(graph, color@, stack@, ranks, bound, next);
            }
            if color[next] == 1 {
                proof {
                    lemma_closes(graph, color@, stack@, ranks, bound, next);
                }
                let cycle = cycle_from(stack, next);
                assert(here == Search::Found(cycle@));
                return (Some(cycle), Ghost(ranks), Ghost(bound));
            } else if color[next] == 0 {
                let ghost color1 = color@;
                assert(!done_of(color1)[next as int]);
                let found = visit(calls, next, color, stack, Ghost(ranks), Ghost(bound));
                match found.0 {
                    Some(cycle) => {
                        assert(here == Search::Found(cycle@));
                        return (Some(cycle), Ghost(ranks), Ghost(bound));
                    },
                    None => {
                        assert(here == search_calls(
                            graph,
                            rule,
                            (k + 1) as nat,
                            stack@,
                            done_of(color@),
                        ));
                        proof {
                            ranks = found.1@;
                            bound = found.2@;
                            lemma_colors(graph, color@, stack@, ranks, bound);
                            assert forall|j: int|
                                0 <= j < k + 1 && (#[trigger] calls@[rule as int]@[j])
                                    < calls@.len() implies color@[calls@[rule as int]@[j] as int]
                                == 2 by {
                                if j < k {
                                    assert(color1[calls@[rule as int]@[j] as int] == 2);
                                }
                            }
                            assert forall|x: int|
                                0 <= x < calls@.len() && color0[x] == 2 implies #[trigger] color@[x]
                                == 2 by {
                                assert(color1[x] == 2);
                            }
                            assert forall|x: int| 0 <= x < calls@.len() && x != rule implies (
                            color0[x] == 1 <==> #[trigger] color@[x] == 1) by {
                                assert(color0[x] == 1 <==> color1[x] == 1);
                            }
                            assert(color1[rule as int] == 1);
                        }
                    },
                }
            } else {
                proof {
                    lemma_colors(graph, color@, stack@, ranks, bound);
                    assert(color@[next as int] <= 2);
                    assert(done_of(color@)[next as int]);
                    assert(here == search_calls(
                        graph,
                        rule,
                        (k + 1) as nat,
                        stack@,
                        done_of(color@),
                    ));
                }
            }
        } else {
            assert(here == search_calls(graph, rule, (k + 1) as nat, stack@, done_of(color@)));
        }
        k += 1;
    }
    let ghost color2 = color@;
    assert(goal == Search::Done(done_of(color2).update(rule as int, true)));
    proof {
        assert forall|j: int|
            0 <= j < graph[rule as int].len() && (#[trigger] graph[rule as int][j]) < graph.len()
            implies color@[graph[rule as int][j] as int] == 2 by {
            assert(graph[rule as int] == calls@[rule as int]@);
            assert(calls@[rule as int]@[j] < calls@.len());
        }
        lemma_leave(graph, color@, stack@, ranks, bound, rule);
    }
    stack.pop();
    color.set(rule, 2);
    proof {
        assert(stack@ =~= stack0);
        assert(stack0.push(rule).drop_last() =~= stack0);
        assert forall|x: int| 0 <= x < calls@.len() implies (color0[x] == 1 <==> #[trigger] color@[x]
            == 1) by {
            if x != rule {
                assert(color0[x] == 1 <==> color2[x] == 1);
            }
        }
        assert forall|x: int| 0 <= x < calls@.len() && color0[x] == 2 implies #[trigger] color@[x]
            == 2 by {
            assert(color2[x] == 2);
        }
        ranks = ranks.update(rule as int, bound);
        bound = bound + 1;
        assert(done_of(color@) =~= done_of(color2).update(rule as int, true));
    }
    (None, Ghost(ranks), Ghost(bound))
}

/// Looks for rules that call each other first in a circle. `calls` holds for
/// every rule the rules that it may call first; one that names no rule is
/// passed over.
pub fn find_cycle(calls: &Vec<Vec<RuleId>>) -> (r: Option<Vec<RuleId>>)
    ensures
        match r {
            Some(cycle) => first_cycle(graph_of(calls@)) == Some(cycle@) && is_simple_cycle(
                graph_of(calls@),
                cycle@,
            ),
            None => first_cycle(graph_of(calls@)) is None && falls(graph_of(calls@))
                && forall|cycle: Seq<RuleId>| !is_cycle(graph_of(calls@), cycle),
        },
{
    let ghost graph = graph_of(calls@);
    let mut color: Vec<u8> = Vec::new();
    let mut i: usize = 0;
    while i < calls.len()
        invariant
            i <= calls@.len(),
            color@.len() == i,
            forall|a: int| 0 <= a < i ==> #[trigger] color@[a] == 0,
        decreases calls@.len() - i,
    {
        color.push(0);
        i += 1;
    }
    let mut stack: Vec<RuleId> = Vec::new();
    let ghost mut ranks: Seq<nat> = Seq::new(calls@.len(), |a: int| 0nat);
    let ghost mut bound: nat = 0;
    let mut rule: usize = 0;
    proof {
        reveal(searching);
        assert(Seq::<RuleId>::empty().no_duplicates());
        assert(counted(color@, 0));
        assert(searching(graph, color@, stack@, ranks, bound));
        assert(done_of(color@) =~= Seq::new(graph.len(), |a: int| false));
    }
    while rule < calls.len()
        invariant
            rule <= calls@.len(),
            graph == graph_of(calls@),
            first_cycle(graph) == first_cycle_from(graph, rule as nat, done_of(color@)),
            stack@.len() == 0,
            color@.len() == calls@.len(),
            searching(graph, color@, stack@, ranks, bound),
            forall|a: int| 0 <= a < rule ==> #[trigger] color@[a] == 2,
        decreases calls@.len() - rule,
    {
        proof {
            lemma_colors(graph, color@, stack@, ranks, bound);
        }
        let ghost here = first_cycle_from(graph, rule as nat, done_of(color@));
        if color[rule] == 0 {
            let ghost color1 = color@;
            assert(stack@ =~= Seq::empty());
            assert(!done_of(color1)[rule as int]);
            let found = visit(calls, rule, &mut color, &mut stack, Ghost(ranks), Ghost(bound));
            match found.0 {
                Some(cycle) => {
                    assert(here == Some(cycle@));
                    return Some(cycle);
                },
                None => {
                    assert(here == first_cycle_from(graph, (rule + 1) as nat, done_of(color@)));
                    proof {
                        ranks = found.1@;
                        bound = found.2@;
                        assert forall|a: int| 0 <= a < rule + 1 implies #[trigger] color@[a]
                            == 2 by {
                            if a < rule {
                                assert(color1[a] == 2);
                            }
                        }
                        lemma_colors(graph, color@, stack@, ranks, bound);
                    }
                },
            }
        } else {
            assert(color@[rule as int] == 2) by {
                assert(color@[rule as int] != 1);
                assert(color@[rule as int] <= 2);
            }
            assert(done_of(color@)[rule as int]);
            assert(here == first_cycle_from(graph, (rule + 1) as nat, done_of(color@)));
        }
        rule += 1;
    }
    proof {
        assert(stack@ =~= Seq::empty());
        assert forall|cycle: Seq<RuleId>| !is_cycle(graph, cycle) by {
            lemma_no_cycle(graph, color@, ranks, bound, cycle);
        }
        lemma_falls(graph, color@, ranks, bound);
    }
    None
}

/// Checks that no rule can call itself before a token is consumed.
pub fn check_left_recursion(rules: &Vec<GrammarRule>) -> (r: Result<(), ParseError>)
    ensures
        match r {
            Ok(_) => first_cycle(left_calls(rule_syntaxes(rules@))) is None && forall|
                cycle: Seq<RuleId>,
            | !is_cycle(left_calls(rule_syntaxes(rules@)), cycle),
            Err(e) => e matches ParseError::LeftRecursion(cycle) && first_cycle(
                left_calls(rule_syntaxes(rules@)),
            ) == Some(cycle@) && is_simple_cycle(left_calls(rule_syntaxes(rules@)), cycle@),
        },
{
    let ghost model = rule_syntaxes(rules@);
    let names = rule_names(rules);
    let empty = rules_matching_nothing(rules);
    let mut calls: Vec<Vec<RuleId>> = Vec::new();
    let mut a: usize = 0;
    while a < rules.len()
        invariant
            a <= rules@.len(),
            model == rule_syntaxes(rules@),
            names_of(names@) == rule_names_of(model),
            empty@ == matches_nothing(model),
            graph_of(calls@) == left_calls(model).subrange(0, a as int),
        decreases rules@.len() - a,
    {
        let mut first: Vec<RuleId> = Vec::new();
        collect_first_calls(&rules[a].body, &names, &empty, &mut first);
        let ghost before = graph_of(calls@);
        calls.push(first);
        a += 1;
        proof {
            assert(model[a - 1].body == rules@[a - 1].body@);
            assert(Seq::<RuleId>::empty() + first_calls(
                rules@[a - 1].body@,
                names_of(names@),
                empty@,
            ) =~= first_calls(rules@[a - 1].body@, names_of(names@), empty@));
            assert(graph_of(calls@) =~= before.push(first@));
            assert(graph_of(calls@) =~= left_calls(model).subrange(0, a as int));
        }
    }
    assert(graph_of(calls@) =~= left_calls(model));
    match find_cycle(&calls) {
        Some(cycle) => Err(ParseError::LeftRecursion(cycle)),
        None => Ok(()),
    }
}

} // verus!
