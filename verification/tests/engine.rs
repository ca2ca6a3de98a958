use bnf_machine::BNFCompileError;
use bnf_machine::{
    MatchRecord, ParseError, State, StateAction, StateMachineParser, StateManager, Token, TokenType,
};

#[derive(Clone, Debug, PartialEq, Eq, Hash)]
enum Kind {
    A,
    B,
    C,
}

impl TokenType for Kind {}

struct Tok(Kind);

impl Token<Kind> for Tok {
    fn token_type(&self) -> &Kind {
        &self.0
    }
}

fn name(s: &str) -> Vec<char> {
    s.chars().collect()
}

fn toks(kinds: &[Kind]) -> Vec<Tok> {
    kinds.iter().map(|k| Tok(k.clone())).collect()
}

fn state(action: StateAction<Kind>, transitions: Vec<usize>) -> State<Kind> {
    State { action, transitions }
}

/// S = A B ;
fn sequence_machine() -> StateManager<Kind> {
    StateManager {
        rule_names: vec![name("S")],
        start_states: vec![2],
        states: vec![
            state(StateAction::Accept, vec![]),
            state(StateAction::Match(Kind::B), vec![0]),
            state(StateAction::Match(Kind::A), vec![1]),
        ],
    }
}

#[test]
fn hand_built_sequence_matches_prefix() {
    let sm = sequence_machine();
    let input = toks(&[Kind::A, Kind::B, Kind::C]);
    let record: MatchRecord = StateMachineParser::new(&sm).parse(&input, 0).unwrap();
    assert_eq!(record.rule, 0);
    assert_eq!(record.start, 0);
    assert_eq!(record.end, 2);
    assert!(record.children.is_empty());
}

#[test]
fn hand_built_sequence_reports_where_it_failed() {
    let sm = sequence_machine();
    let input = toks(&[Kind::A, Kind::C]);
    match StateMachineParser::new(&sm).parse(&input, 0) {
        Err(ParseError::UnexpectedToken(1)) => {}
        other => panic!("{:?}", other),
    }
    let short = toks(&[Kind::A]);
    match StateMachineParser::new(&sm).parse(&short, 0) {
        Err(ParseError::UnexpectedToken(1)) => {}
        other => panic!("{:?}", other),
    }
}

#[test]
fn token_types_can_be_handed_over_directly() {
    let sm = sequence_machine();
    let (a, b) = (Kind::A, Kind::B);
    let kinds = vec![&a, &b];
    let record = StateMachineParser::new(&sm).parse_token_types(&kinds, 0).unwrap();
    assert_eq!((record.start, record.end), (0, 2));
}

#[test]
fn a_missing_state_is_reported() {
    let mut sm = sequence_machine();
    sm.states[1].transitions = vec![9];
    let input = toks(&[Kind::A, Kind::B]);
    match StateMachineParser::new(&sm).parse(&input, 0) {
        Err(ParseError::UnexpectedState(9)) => {}
        other => panic!("{:?}", other),
    }
    // The state is missed only where the walk gets to it.
    let input = toks(&[Kind::A, Kind::C]);
    match StateMachineParser::new(&sm).parse(&input, 0) {
        Err(ParseError::UnexpectedToken(1)) => {}
        other => panic!("{:?}", other),
    }
}

#[test]
fn a_match_without_its_one_transition_is_reported() {
    let mut sm = sequence_machine();
    sm.states[2].transitions = vec![1, 0];
    let input = toks(&[Kind::A, Kind::B]);
    match StateMachineParser::new(&sm).parse(&input, 0) {
        Err(ParseError::UnexpectedState(2)) => {}
        other => panic!("{:?}", other),
    }
}

#[test]
fn a_call_of_a_missing_rule_is_reported() {
    let sm = StateManager {
        rule_names: vec![name("S")],
        start_states: vec![1],
        states: vec![
            state(StateAction::Accept, vec![]),
            state(StateAction::Call(3, 0), vec![]),
        ],
    };
    let input = toks(&[Kind::A]);
    match StateMachineParser::new(&sm).parse(&input, 0) {
        Err(ParseError::UnexpectedRule(3)) => {}
        other => panic!("{:?}", other),
    }
    match StateMachineParser::new(&sm).parse(&input, 1) {
        Err(ParseError::UnexpectedRule(1)) => {}
        other => panic!("{:?}", other),
    }
}

#[test]
fn a_choice_point_that_leads_to_itself_is_stopped() {
    let sm = StateManager {
        rule_names: vec![name("S")],
        start_states: vec![1],
        states: vec![
            state(StateAction::Accept, vec![]),
            state(StateAction::Split, vec![1, 0]),
        ],
    };
    let input = toks(&[Kind::A]);
    match StateMachineParser::new(&sm).parse(&input, 0) {
        Err(ParseError::LeftRecursion(rules)) => assert_eq!(rules, vec![0]),
        other => panic!("{:?}", other),
    }
}

#[test]
fn a_rule_that_calls_itself_at_once_is_stopped() {
    let sm = StateManager {
        rule_names: vec![name("S"), name("T")],
        start_states: vec![1, 3],
        states: vec![
            state(StateAction::Accept, vec![]),
            state(StateAction::Call(1, 0), vec![]),
            state(StateAction::Accept, vec![]),
            state(StateAction::Call(0, 2), vec![]),
        ],
    };
    let input = toks(&[Kind::A]);
    match StateMachineParser::new(&sm).parse(&input, 0) {
        Err(ParseError::LeftRecursion(rules)) => assert_eq!(rules.len(), 1),
        other => panic!("{:?}", other),
    }
}

#[test]
fn calls_become_children_in_their_order() {
    // S = T A T ;  T = { B } ;
    let sm = StateManager {
        rule_names: vec![name("S"), name("T")],
        start_states: vec![3, 5],
        states: vec![
            state(StateAction::Accept, vec![]),
            state(StateAction::Call(1, 0), vec![]),
            state(StateAction::Match(Kind::A), vec![1]),
            state(StateAction::Call(1, 2), vec![]),
            state(StateAction::Accept, vec![]),
            state(StateAction::Split, vec![6, 4]),
            state(StateAction::Match(Kind::B), vec![5]),
        ],
    };
    let input = toks(&[Kind::B, Kind::B, Kind::A, Kind::B, Kind::C]);
    let record = StateMachineParser::new(&sm).parse(&input, 0).unwrap();
    assert_eq!((record.rule, record.start, record.end), (0, 0, 4));
    assert_eq!(record.children.len(), 2);
    let first = &record.children[0];
    let second = &record.children[1];
    assert_eq!((first.rule, first.start, first.end, first.children.len()), (1, 0, 2, 0));
    assert_eq!((second.rule, second.start, second.end, second.children.len()), (1, 3, 4, 0));
    let input = toks(&[Kind::A]);
    let record = StateMachineParser::new(&sm).parse(&input, 0).unwrap();
    assert_eq!((record.start, record.end), (0, 1));
    assert_eq!((record.children[0].start, record.children[0].end), (0, 0));
    assert_eq!((record.children[1].start, record.children[1].end), (1, 1));
}

#[test]
fn a_choice_point_without_transitions_fails() {
    let sm = StateManager {
        rule_names: vec![name("S")],
        start_states: vec![0],
        states: vec![state(StateAction::Split, vec![])],
    };
    let input = toks(&[Kind::A]);
    match StateMachineParser::new(&sm).parse(&input, 0) {
        Err(ParseError::UnexpectedToken(0)) => {}
        other => panic!("{:?}", other),
    }
}

#[test]
fn errors_are_written_as_their_kind_and_what_they_carry() {
    let parse_errors = vec![
        ParseError::UnexpectedToken(0),
        ParseError::UnexpectedToken(7),
        ParseError::UnexpectedToken(10),
        ParseError::UnexpectedToken(4096),
        ParseError::UnexpectedToken(usize::MAX),
        ParseError::UnexpectedState(12),
        ParseError::UnexpectedRule(305),
        ParseError::LeftRecursion(vec![]),
        ParseError::LeftRecursion(vec![3]),
        ParseError::LeftRecursion(vec![0, 1]),
        ParseError::LeftRecursion(vec![10, 2, 987]),
    ];
    for e in &parse_errors {
        assert_eq!(e.to_text(), format!("{:?}", e));
    }
    assert_eq!(ParseError::UnexpectedToken(3).to_text(), "UnexpectedToken(3)");
    assert_eq!(ParseError::LeftRecursion(vec![0, 1]).to_text(), "LeftRecursion([0, 1])");
    let mut compile_errors = vec![
        BNFCompileError::UnknownError,
        BNFCompileError::UndefinedTokenIdentifier,
        BNFCompileError::UndefinedRuleIdentifier,
        BNFCompileError::UnexpectedToken,
        BNFCompileError::UnexpectedAction,
    ];
    for e in parse_errors {
        compile_errors.push(BNFCompileError::ParseError(e));
    }
    for e in &compile_errors {
        assert_eq!(e.to_text(), format!("{:?}", e));
    }
    assert_eq!(
        BNFCompileError::ParseError(ParseError::UnexpectedToken(21)).to_text(),
        "ParseError(UnexpectedToken(21))"
    );
}
