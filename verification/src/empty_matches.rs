//! Which rules may match nothing.
//!
//! A repetition may match nothing; so may a sequence all of whose members
//! may, a choice one of whose alternatives may, and the name of a rule whose
//! body may. The rules that may are found in rounds: none at first, and in
//! every round those whose bodies may, given the rules of the round before.
//! After as many rounds as there are rules nothing more is found.
use crate::bnf_rules_compiler::{rule_names, rule_names_of};
use crate::grammar_text::{
    lemma_syntaxes, rule_syntaxes, syntaxes, Expression, GrammarRule, RuleSyntax, Syntax,
};
use crate::rule_graph::{find_name, names_of, rule_index};
use vstd::prelude::*;

verus! {

/// Whether `e` may match without a token, where `empty` says of every rule
/// whether it may.
pub open spec fn may_skip(e: Syntax, names: Seq<Seq<char>>, empty: Seq<bool>) -> bool
    decreases e,
{
    match e {
        Syntax::Symbol(name) => match rule_index(names, name) {
            Some(rule) => rule < empty.len() && empty[rule as int],
            None => false,
        },
        Syntax::Sequence(members) => all_may_skip(members, names, empty),
        Syntax::Alternation(alternatives) => any_may_skip(alternatives, names, empty),
        Syntax::Repetition(_) => true,
    }
}

/// Every member may match nothing.
pub open spec fn all_may_skip(members: Seq<Syntax>, names: Seq<Seq<char>>, empty: Seq<bool>) -> bool
    decreases members,
{
    if members.len() == 0 {
        true
    } else {
        may_skip(members[0], names, empty) && all_may_skip(
            members.subrange(1, members.len() as int),
            names,
            empty,
        )
    }
}

/// Some alternative may match nothing.
pub open spec fn any_may_skip(
    alternatives: Seq<Syntax>,
    names: Seq<Seq<char>>,
    empty: Seq<bool>,
) -> bool
    decreases alternatives,
{
    if alternatives.len() == 0 {
        false
    } else {
        any_may_skip(alternatives.drop_last(), names, empty) || may_skip(
            alternatives.last(),
            names,
            empty,
        )
    }
}

/// The rules that may match nothing, as far as `rounds` rounds show.
pub open spec fn matches_nothing_after(rules: Seq<RuleSyntax>, rounds: nat) -> Seq<bool>
    decreases rounds,
{
    if rounds == 0 {
        Seq::new(rules.len(), |r: int| false)
    } else {
        Seq::new(
            rules.len(),
            |r: int|
                may_skip(
                    rules[r].body,
                    rule_names_of(rules),
                    matches_nothing_after(rules, (rounds - 1) as nat),
                ),
        )
    }
}

/// For every rule whether it may match nothing.
pub open spec fn matches_nothing(rules: Seq<RuleSyntax>) -> Seq<bool> {
    matches_nothing_after(rules, rules.len())
}

/// `e` holds a repetition whose body may match nothing: one that could go
/// round without end.
pub open spec fn idles(e: Syntax, names: Seq<Seq<char>>, empty: Seq<bool>) -> bool
    decreases e,
{
    match e {
        Syntax::Symbol(_) => false,
        Syntax::Sequence(members) => any_idles(members, names, empty),
        Syntax::Alternation(alternatives) => any_idles(alternatives, names, empty),
        Syntax::Repetition(body) => may_skip(*body, names, empty) || idles(*body, names, empty),
    }
}

/// One of `parts` holds such a repetition.
pub open spec fn any_idles(parts: Seq<Syntax>, names: Seq<Seq<char>>, empty: Seq<bool>) -> bool
    decreases parts,
{
    if parts.len() == 0 {
        false
    } else {
        any_idles(parts.drop_last(), names, empty) || idles(parts.last(), names, empty)
    }
}

/// Rule `k` holds a repetition whose body may match nothing.
pub open spec fn rule_idles(rules: Seq<RuleSyntax>, k: int) -> bool {
    idles(rules[k].body, rule_names_of(rules), matches_nothing(rules))
}

/// The first rule from `from` on that holds a repetition whose body may
/// match nothing.
pub open spec fn first_idle_rule(rules: Seq<RuleSyntax>, from: nat) -> Option<nat>
    decreases rules.len() - from,
{
    if from >= rules.len() {
        None
    } else if rule_idles(rules, from as int) {
        Some(from)
    } else {
        first_idle_rule(rules, from + 1)
    }
}

/// Whether `e` may match without a token.
pub fn skips(e: &Expression, names: &Vec<Vec<char>>, empty: &Vec<bool>) -> (r: bool)
    ensures
        r == may_skip(e@, names_of(names@), empty@),
    decreases e,
{
    match e {
        Expression::Symbol(name) => {
            assert(names@.len() == names.len() <= usize::MAX);
            match find_name(names, name) {
                Some(rule) => rule < empty.len() && empty[rule],
                None => false,
            }
        },
        Expression::Sequence(members) => {
            let ghost model = syntaxes(members@);
            let ghost all = model.len() as int;
            let mut i: usize = 0;
            proof {
                lemma_syntaxes(members@);
                assert(model.subrange(0, all) =~= model);
            }
            while i < members.len()
                invariant
                    i <= members@.len(),
                    model == syntaxes(members@),
                    all == members@.len(),
                    all == model.len(),
                    forall|k: int| 0 <= k < all ==> (#[trigger] model[k]) == members@[k]@,
                    may_skip(e@, names_of(names@), empty@) == all_may_skip(
                        model.subrange(i as int, all),
                        names_of(names@),
                        empty@,
                    ),
                    decreases_to!(e => members),
                decreases members@.len() - i,
            {
                let ghost rest = model.subrange(i as int, all);
                proof {
                    assert(rest.subrange(1, rest.len() as int) =~= model.subrange(i + 1, all));
                    assert(rest[0] == members@[i as int]@);
                }
                if !skips(&members[i], names, empty) {
                    return false;
                }
                i += 1;
            }
            proof {
                assert(model.subrange(all, all).len() == 0);
            }
            true
        },
        Expression::Alternation(alternatives) => {
            let ghost model = syntaxes(alternatives@);
            let mut i: usize = 0;
            let mut found = false;
            proof {
                lemma_syntaxes(alternatives@);
            }
            while i < alternatives.len()
                invariant
                    i <= alternatives@.len(),
                    model == syntaxes(alternatives@),
                    model.len() == alternatives@.len(),
                    forall|k: int|
                        0 <= k < model.len() ==> (#[trigger] model[k]) == alternatives@[k]@,
                    found == any_may_skip(
                        model.subrange(0, i as int),
                        names_of(names@),
                        empty@,
                    ),
                    decreases_to!(e => alternatives),
                decreases alternatives@.len() - i,
            {
                proof {
                    let upto = model.subrange(0, i + 1);
                    assert(upto.drop_last() =~= model.subrange(0, i as int));
                    assert(upto.last() == alternatives@[i as int]@);
                }
                let one = skips(&alternatives[i], names, empty);
                found = found || one;
                i += 1;
            }
            proof {
                assert(model.subrange(0, model.len() as int) =~= model);
            }
            found
        },
        Expression::Repetition(_) => true,
    }
}

/// Whether `e` holds a repetition whose body may match nothing.
pub fn holds_idle_repetition(e: &Expression, names: &Vec<Vec<char>>, empty: &Vec<bool>) -> (r: bool)
    ensures
        r == idles(e@, names_of(names@), empty@),
    decreases e,
{
    match e {
        Expression::Symbol(_) => false,
        Expression::Sequence(parts) => holds_idle_part(e, parts, names, empty),
        Expression::Alternation(parts) => holds_idle_part(e, parts, names, empty),
        Expression::Repetition(body) => {
            let skip = skips(body, names, empty);
            let inner = holds_idle_repetition(body, names, empty);
            skip || inner
        },
    }
}

fn holds_idle_part(
    e: &Expression,
    parts: &Vec<Expression>,
    names: &Vec<Vec<char>>,
    empty: &Vec<bool>,
) -> (r: bool)
    requires
        decreases_to!(e => parts),
    ensures
        r == any_idles(syntaxes(parts@), names_of(names@), empty@),
    decreases e, 0nat,
{
    let ghost model = syntaxes(parts@);
    let mut i: usize = 0;
    let mut found = false;
    proof {
        lemma_syntaxes(parts@);
    }
    while i < parts.len()
        invariant
            i <= parts@.len(),
            model == syntaxes(parts@),
            model.len() == parts@.len(),
            forall|k: int| 0 <= k < model.len() ==> (#[trigger] model[k]) == parts@[k]@,
            found == any_idles(model.subrange(0, i as int), names_of(names@), empty@),
            decreases_to!(e => parts),
        decreases parts@.len() - i,
    {
        proof {
            let upto = model.subrange(0, i + 1);
            assert(upto.drop_last() =~= model.subrange(0, i as int));
            assert(upto.last() == parts@[i as int]@);
        }
        let one = holds_idle_repetition(&parts[i], names, empty);
        found = found || one;
        i += 1;
    }
    proof {
        assert(model.subrange(0, model.len() as int) =~= model);
    }
    found
}

/// For every rule whether it may match nothing.
pub fn rules_matching_nothing(rules: &Vec<GrammarRule>) -> (empty: Vec<bool>)
    ensures
        empty@ == matches_nothing(rule_syntaxes(rules@)),
{
    let ghost model = rule_syntaxes(rules@);
    let names = rule_names(rules);
    let mut empty: Vec<bool> = Vec::new();
    let mut r: usize = 0;
    while r < rules.len()
        invariant
            r <= rules@.len(),
            empty@.len() == r,
            forall|i: int| 0 <= i < r ==> !(#[trigger] empty@[i]),
        decreases rules@.len() - r,
    {
        empty.push(false);
        r += 1;
    }
    assert(empty@ =~= matches_nothing_after(model, 0));
    let mut round: usize = 0;
    while round < rules.len()
        invariant
            round <= rules@.len(),
            model == rule_syntaxes(rules@),
            names_of(names@) == rule_names_of(model),
            empty@ == matches_nothing_after(model, round as nat),
        decreases rules@.len() - round,
    {
        let mut next: Vec<bool> = Vec::new();
        let mut r: usize = 0;
        while r < rules.len()
            invariant
                r <= rules@.len(),
                model == rule_syntaxes(rules@),
                names_of(names@) == rule_names_of(model),
                next@.len() == r,
                forall|i: int|
                    0 <= i < r ==> (#[trigger] next@[i]) == may_skip(
                        model[i].body,
                        rule_names_of(model),
                        empty@,
                    ),
            decreases rules@.len() - r,
        {
            let one = skips(&rules[r].body, &names, &empty);
            proof {
                assert(model[r as int].body == rules@[r as int].body@);
            }
            next.push(one);
            r += 1;
        }
        proof {
            assert(next@ =~= matches_nothing_after(model, (round + 1) as nat));
        }
        empty = next;
        round += 1;
    }
    empty
}

/// The model of what `find_idle_rule` hands back.
pub open spec fn found_rule(r: Option<usize>) -> Option<nat> {
    match r {
        Some(k) => Some(k as nat),
        None => None,
    }
}

/// The first rule that holds a repetition whose body may match nothing.
pub fn find_idle_rule(rules: &Vec<GrammarRule>) -> (r: Option<usize>)
    ensures
        found_rule(r) == first_idle_rule(rule_syntaxes(rules@), 0),
        r matches Some(k) ==> k < rules@.len(),
{
    let ghost model = rule_syntaxes(rules@);
    let names = rule_names(rules);
    let empty = rules_matching_nothing(rules);
    let mut k: usize = 0;
    while k < rules.len()
        invariant
            k <= rules@.len(),
            model == rule_syntaxes(rules@),
            names_of(names@) == rule_names_of(model),
            empty@ == matches_nothing(model),
            first_idle_rule(model, 0) == first_idle_rule(model, k as nat),
        decreases rules@.len() - k,
    {
        proof {
            assert(model[k as int].body == rules@[k as int].body@);
        }
        if holds_idle_repetition(&rules[k].body, &names, &empty) {
            return Some(k);
        }
        k += 1;
    }
    None
}

/// Every rule that `a` says may match nothing, `b` says so too.
pub open spec fn no_more(a: Seq<bool>, b: Seq<bool>) -> bool {
    &&& a.len() == b.len()
    &&& forall|i: int| 0 <= i < a.len() && a[i] ==> #[trigger] b[i]
}

/// How many rules `s` says may match nothing.
pub open spec fn count(s: Seq<bool>) -> nat
    decreases s.len(),
{
    if s.len() == 0 {
        0
    } else if s.last() {
        count(s.drop_last()) + 1
    } else {
        count(s.drop_last())
    }
}

/// What may match nothing still may where more rules may.
pub proof fn lemma_skip_grows(e: Syntax, names: Seq<Seq<char>>, a: Seq<bool>, b: Seq<bool>)
    requires
        no_more(a, b),
    ensures
        may_skip(e, names, a) ==> may_skip(e, names, b),
    decreases e,
{
    match e {
        Syntax::Symbol(name) => {},
        Syntax::Sequence(members) => {
            lemma_all_skip_grows(members, names, a, b);
        },
        Syntax::Alternation(alternatives) => {
            lemma_any_skip_grows(alternatives, names, a, b);
        },
        Syntax::Repetition(_) => {},
    }
}

proof fn lemma_all_skip_grows(
    members: Seq<Syntax>,
    names: Seq<Seq<char>>,
    a: Seq<bool>,
    b: Seq<bool>,
)
    requires
        no_more(a, b),
    ensures
        all_may_skip(members, names, a) ==> all_may_skip(members, names, b),
    decreases members,
{
    if members.len() > 0 {
        lemma_skip_grows(members[0], names, a, b);
        lemma_all_skip_grows(members.subrange(1, members.len() as int), names, a, b);
    }
}

proof fn lemma_any_skip_grows(
    alternatives: Seq<Syntax>,
    names: Seq<Seq<char>>,
    a: Seq<bool>,
    b: Seq<bool>,
)
    requires
        no_more(a, b),
    ensures
        any_may_skip(alternatives, names, a) ==> any_may_skip(alternatives, names, b),
    decreases alternatives,
{
    if alternatives.len() > 0 {
        lemma_skip_grows(alternatives.last(), names, a, b);
        lemma_any_skip_grows(alternatives.drop_last(), names, a, b);
    }
}

/// Every round finds what the round before found.
pub proof fn lemma_rounds_grow(rules: Seq<RuleSyntax>, k: nat)
    ensures
        no_more(matches_nothing_after(rules, k), matches_nothing_after(rules, k + 1)),
    decreases k,
{
    let now = matches_nothing_after(rules, k);
    let then = matches_nothing_after(rules, k + 1);
    if k > 0 {
        let before = matches_nothing_after(rules, (k - 1) as nat);
        lemma_rounds_grow(rules, (k - 1) as nat);
        assert forall|i: int| 0 <= i < now.len() && now[i] implies #[trigger] then[i] by {
            lemma_skip_grows(rules[i].body, rule_names_of(rules), before, now);
        }
    }
}

/// Where more rules may match nothing, more are counted; where others may,
/// strictly more.
pub proof fn lemma_count(a: Seq<bool>, b: Seq<bool>)
    requires
        no_more(a, b),
    ensures
        count(a) <= count(b) <= b.len(),
        a != b ==> count(a) < count(b),
    decreases a.len(),
{
    if a.len() > 0 {
        assert(no_more(a.drop_last(), b.drop_last())) by {
            assert forall|i: int| 0 <= i < a.len() - 1 && a.drop_last()[i] implies #[trigger] b.drop_last()[i] by {
                assert(b[i]);
            }
        }
        lemma_count(a.drop_last(), b.drop_last());
        assert(a.last() ==> b[a.len() - 1]);
        if a.drop_last() == b.drop_last() && a.last() == b.last() {
            assert(a =~= a.drop_last().push(a.last()));
            assert(b =~= b.drop_last().push(b.last()));
        }
    } else {
        assert(a =~= b);
    }
}

/// A round that finds nothing new is followed by one that finds nothing
/// new.
pub proof fn lemma_round_repeats(rules: Seq<RuleSyntax>, k: nat)
    requires
        matches_nothing_after(rules, k + 1) == matches_nothing_after(rules, k),
    ensures
        matches_nothing_after(rules, k + 2) == matches_nothing_after(rules, k + 1),
{
    assert(matches_nothing_after(rules, k + 2) =~= matches_nothing_after(rules, k + 1));
}

/// A round that finds something new has found at least as many rules as
/// there were rounds.
pub proof fn lemma_rounds_climb(rules: Seq<RuleSyntax>, k: nat)
    ensures
        matches_nothing_after(rules, k + 1) != matches_nothing_after(rules, k) ==> count(
            matches_nothing_after(rules, k + 1),
        ) >= k + 1,
    decreases k,
{
    let now = matches_nothing_after(rules, k);
    let then = matches_nothing_after(rules, k + 1);
    lemma_rounds_grow(rules, k);
    lemma_count(now, then);
    if then != now && k > 0 {
        let before = matches_nothing_after(rules, (k - 1) as nat);
        if now == before {
            lemma_round_repeats(rules, (k - 1) as nat);
        }
        lemma_rounds_climb(rules, (k - 1) as nat);
    }
}

/// After as many rounds as there are rules nothing more is found: a rule
/// may match nothing if and only if its body may.
pub proof fn lemma_matches_nothing_settled(rules: Seq<RuleSyntax>)
    ensures
        matches_nothing(rules).len() == rules.len(),
        forall|r: int|
            0 <= r < rules.len() ==> (#[trigger] matches_nothing(rules)[r]) == may_skip(
                rules[r].body,
                rule_names_of(rules),
                matches_nothing(rules),
            ),
{
    let now = matches_nothing(rules);
    let then = matches_nothing_after(rules, rules.len() + 1);
    lemma_rounds_climb(rules, rules.len());
    lemma_rounds_grow(rules, rules.len());
    lemma_count(now, then);
    assert(then == now);
    assert forall|r: int| 0 <= r < rules.len() implies (#[trigger] now[r]) == may_skip(
        rules[r].body,
        rule_names_of(rules),
        now,
    ) by {
        assert(then[r] == may_skip(rules[r].body, rule_names_of(rules), now));
    }
}

} // verus!
