use bnf_machine::grammar_text::{lex, parse_grammar, same_name, Expression, Lexeme};
use bnf_machine::empty_matches::{find_idle_rule, rules_matching_nothing};
use bnf_machine::left_recursion::{check_left_recursion, collect_first_calls, find_cycle};
use bnf_machine::rule_graph::{build_expression, copy_name, find_name};
use bnf_machine::bnf_rules_compiler::{build_state_graph, realize_state, rule_names};
use bnf_machine::{BNFCompileError, ParseError, State, StateAction, TokenType};

#[derive(Clone, Debug, PartialEq, Eq, Hash)]
struct Code(u8);

impl TokenType for Code {}

fn name(s: &str) -> Vec<char> {
    s.chars().collect()
}

fn show(e: &Expression) -> String {
    match e {
        Expression::Symbol(n) => n.iter().collect(),
        Expression::Sequence(members) => {
            format!("[{}]", members.iter().map(show).collect::<Vec<_>>().join(" "))
        }
        Expression::Alternation(alternatives) => {
            format!("({})", alternatives.iter().map(show).collect::<Vec<_>>().join(" | "))
        }
        Expression::Repetition(body) => format!("{{{}}}", show(body)),
    }
}

fn kind_letter(kind: Lexeme) -> char {
    match kind {
        Lexeme::Identifier => 'i',
        Lexeme::Equals => '=',
        Lexeme::Semicolon => ';',
        Lexeme::Bar => '|',
        Lexeme::OpenParen => '(',
        Lexeme::CloseParen => ')',
        Lexeme::OpenBrace => '{',
        Lexeme::CloseBrace => '}',
    }
}

#[test]
fn lexemes_carry_their_spans() {
    let tokens = lex(b" Ab_1=x ;\t( | ) { }\n").unwrap();
    let kinds: String = tokens.iter().map(|t| kind_letter(t.kind)).collect();
    assert_eq!(kinds, "i=i;(|){}");
    let spans: Vec<(usize, usize)> = tokens.iter().map(|t| (t.start, t.end)).collect();
    assert_eq!(
        spans,
        vec![(1, 5), (5, 6), (6, 7), (8, 9), (10, 11), (12, 13), (14, 15), (16, 17), (18, 19)]
    );
}

#[test]
fn an_empty_text_has_no_lexemes() {
    assert!(lex(b"").unwrap().is_empty());
    assert!(lex(b" \r\n\t").unwrap().is_empty());
}

#[test]
fn a_byte_of_no_lexeme_is_reported_at_its_offset() {
    assert_eq!(lex(b"A = b + c ;").unwrap_err(), 6);
    assert_eq!(lex(b"\x00").unwrap_err(), 0);
    assert_eq!(lex("caf\u{e9}".as_bytes()).unwrap_err(), 3);
}

#[test]
fn rules_are_read_into_trees() {
    let rules = parse_grammar("A = X { ( Y | Z W ) X } ;\nB2 = A ;").unwrap();
    assert_eq!(rules.len(), 2);
    assert_eq!(rules[0].name, name("A"));
    assert_eq!(rules[0].offset, 0);
    assert_eq!(show(&rules[0].body), "[X {[([Y] | [Z W]) X]}]");
    assert_eq!(rules[1].name, name("B2"));
    assert_eq!(rules[1].offset, 26);
    assert_eq!(show(&rules[1].body), "[A]");
}

#[test]
fn brackets_nest() {
    let rules = parse_grammar("A = { { X } ( ( X | Y ) | { Z } ) } ;").unwrap();
    assert_eq!(show(&rules[0].body), "[{[{[X]} ([([X] | [Y])] | [{[Z]}])]}]");
}

#[test]
fn a_malformed_text_is_an_unexpected_token() {
    match parse_grammar("A = ( X | Y ;") {
        Err(BNFCompileError::ParseError(ParseError::UnexpectedToken(12))) => {}
        other => panic!("{:?}", other),
    }
    match parse_grammar("A = X ; A = Y ;") {
        Err(BNFCompileError::ParseError(ParseError::UnexpectedToken(8))) => {}
        other => panic!("{:?}", other),
    }
}

#[test]
fn names_are_compared_by_their_characters() {
    assert!(same_name(&name("Rule"), &name("Rule")));
    assert!(!same_name(&name("Rule"), &name("Rules")));
    assert!(!same_name(&name("Rule"), &name("Rulf")));
    assert!(same_name(&name(""), &name("")));
    assert_eq!(copy_name(&name("Rule")), name("Rule"));
    let names = vec![name("A"), name("B"), name("A")];
    assert_eq!(find_name(&names, &name("A")), Some(0));
    assert_eq!(find_name(&names, &name("B")), Some(1));
    assert_eq!(find_name(&names, &name("C")), None);
}

fn first_calls_of(text: &str) -> (Vec<usize>, bool) {
    let rules = parse_grammar(text).unwrap();
    let names: Vec<Vec<char>> = rules.iter().map(|r| r.name.clone()).collect();
    let empty = rules_matching_nothing(&rules);
    let mut out = Vec::new();
    let skip = collect_first_calls(&rules[0].body, &names, &empty, &mut out);
    (out, skip)
}

#[test]
fn first_calls_stand_at_the_front() {
    assert_eq!(first_calls_of("A = B C ; B = x ; C = y ;"), (vec![1], false));
    assert_eq!(first_calls_of("A = x B ; B = x ;"), (vec![], false));
    assert_eq!(first_calls_of("A = { B } C x ; B = x ; C = y ;"), (vec![1, 2], false));
    assert_eq!(first_calls_of("A = { x } { B } ; B = x ;"), (vec![1], true));
    assert_eq!(first_calls_of("A = ( B | x C | C ) ; B = x ; C = y ;"), (vec![1, 2], false));
    assert_eq!(first_calls_of("A = ( x | { y } ) B ; B = x ;"), (vec![1], false));
    assert_eq!(first_calls_of("A = ( x | y ) B ; B = x ;"), (vec![], false));
    // Behind a rule that may match nothing the next member is a first call too.
    assert_eq!(first_calls_of("A = B C ; B = { x } ; C = y ;"), (vec![1, 2], false));
    assert_eq!(first_calls_of("A = B A ; B = ( x | { y } ) ;"), (vec![1, 0], false));
    assert_eq!(first_calls_of("A = B ; B = { x } ;"), (vec![1], true));
}

#[test]
fn rules_that_may_match_nothing_are_found_in_rounds() {
    let rules =
        parse_grammar("A = B C ; B = { x } ; C = ( y | B ) ; D = A ; E = x D ; F = F ;").unwrap();
    assert_eq!(rules_matching_nothing(&rules), vec![true, true, true, true, false, false]);
    let rules = parse_grammar("A = x ;").unwrap();
    assert_eq!(rules_matching_nothing(&rules), vec![false]);
}

#[test]
fn the_first_rule_with_an_idle_repetition_is_found() {
    let rules = parse_grammar("A = x { y } ; B = { A } ; C = { B } ; D = { { x } } ;").unwrap();
    assert_eq!(find_idle_rule(&rules), Some(2));
    let rules = parse_grammar("A = { x } ; B = { A x } ; C = ( x | { ( A | y ) } ) ;").unwrap();
    assert_eq!(find_idle_rule(&rules), Some(2));
    let rules = parse_grammar("A = { x } ; B = { A x } { x A } ;").unwrap();
    assert_eq!(find_idle_rule(&rules), None);
}

#[test]
fn cycles_are_found_in_call_order() {
    assert_eq!(find_cycle(&vec![]), None);
    assert_eq!(find_cycle(&vec![vec![1], vec![2], vec![]]), None);
    assert_eq!(find_cycle(&vec![vec![1, 2], vec![2], vec![]]), None);
    assert_eq!(find_cycle(&vec![vec![0]]), Some(vec![0]));
    assert_eq!(find_cycle(&vec![vec![1], vec![2], vec![0]]), Some(vec![0, 1, 2]));
    assert_eq!(find_cycle(&vec![vec![1], vec![2], vec![1]]), Some(vec![1, 2]));
    assert_eq!(find_cycle(&vec![vec![], vec![2], vec![3], vec![2]]), Some(vec![2, 3]));
    // A call that names no rule is passed over.
    assert_eq!(find_cycle(&vec![vec![7], vec![0]]), None);
}

#[test]
fn left_recursion_is_checked_on_the_rules() {
    let rules = parse_grammar("A = B x ; B = C ; C = ( y | A ) ;").unwrap();
    match check_left_recursion(&rules) {
        Err(ParseError::LeftRecursion(cycle)) => assert_eq!(cycle, vec![0, 1, 2]),
        other => panic!("{:?}", other),
    }
    let rules = parse_grammar("A = x A ; B = A B ;").unwrap();
    assert!(check_left_recursion(&rules).is_ok());
}

fn outline(states: &[State<Vec<char>>]) -> Vec<String> {
    states
        .iter()
        .map(|s| {
            let action = match &s.action {
                StateAction::Match(n) => format!("match {}", n.iter().collect::<String>()),
                StateAction::Call(rule, resume) => format!("call {} then {}", rule, resume),
                StateAction::Split => "split".to_string(),
                StateAction::Accept => "accept".to_string(),
            };
            format!("{} {:?}", action, s.transitions)
        })
        .collect()
}

#[test]
fn bodies_are_laid_out_behind_their_successor() {
    let rules = parse_grammar("A = x { ( y | B ) z } ; B = w ;").unwrap();
    let sm = build_state_graph(&rules);
    assert_eq!(sm.rule_names, vec![name("A"), name("B")]);
    assert_eq!(sm.start_states, vec![6, 8]);
    assert_eq!(
        outline(&sm.states),
        vec![
            "accept []",
            "split [5, 0]",
            "match z [1]",
            "match y [2]",
            "call 1 then 2 []",
            "split [3, 4]",
            "match x [1]",
            "accept []",
            "match w [7]",
        ]
    );
}

#[test]
fn an_expression_is_appended_to_the_states_that_are_there() {
    let rules = parse_grammar("A = x y ;").unwrap();
    let names = vec![name("A")];
    let mut states: Vec<State<Vec<char>>> =
        vec![State { action: StateAction::Accept, transitions: vec![] }];
    let start = build_expression(&rules[0].body, &names, &mut states, 0);
    assert_eq!(start, 2);
    assert_eq!(outline(&states), vec!["accept []", "match y [0]", "match x [1]"]);
}

#[test]
fn a_state_takes_the_token_type_that_was_found() {
    let rules = parse_grammar("A = x B ; B = ( y | z ) ;").unwrap();
    assert_eq!(rule_names(&rules), vec![name("A"), name("B")]);
    let sm = build_state_graph(&rules);
    // A: accept 0, call B 1, match x 2; B: accept 3, match y 4, match z 5, split 6.
    let matched: State<Code> = realize_state(&sm.states[2], Some(Code(7))).unwrap();
    assert!(matches!(matched.action, StateAction::Match(Code(7))));
    assert_eq!(matched.transitions, vec![1]);
    match realize_state::<Code>(&sm.states[2], None) {
        Err(BNFCompileError::UndefinedTokenIdentifier) => {}
        other => panic!("{:?}", other),
    }
    let call: State<Code> = realize_state(&sm.states[1], None).unwrap();
    assert!(matches!(call.action, StateAction::Call(1, 0)));
    assert!(call.transitions.is_empty());
    let split: State<Code> = realize_state(&sm.states[6], Some(Code(1))).unwrap();
    assert!(matches!(split.action, StateAction::Split));
    assert_eq!(split.transitions, vec![4, 5]);
    let accept: State<Code> = realize_state(&sm.states[3], None).unwrap();
    assert!(matches!(accept.action, StateAction::Accept));
}
