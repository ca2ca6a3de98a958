use bnf_machine::{
    compile_bnf_rules, BNFCompileError, MatchRecord, ParseError, StateAction, StateMachineParser,
    StateManager, Token, TokenType,
};

#[derive(Clone, Debug, PartialEq, Eq, Hash)]
enum NumericExpressionTokenType {
    Number,
    OperatorAdd,
    OperatorSub,
    OperatorMul,
    OperatorDiv,
}

impl TokenType for NumericExpressionTokenType {}

impl TryFrom<Vec<char>> for NumericExpressionTokenType {
    type Error = ();

    fn try_from(value: Vec<char>) -> Result<Self, Self::Error> {
        let name: String = value.into_iter().collect();
        match name.as_str() {
            "Number" => Ok(NumericExpressionTokenType::Number),
            "OperatorAdd" => Ok(NumericExpressionTokenType::OperatorAdd),
            "OperatorSub" => Ok(NumericExpressionTokenType::OperatorSub),
            "OperatorMul" => Ok(NumericExpressionTokenType::OperatorMul),
            "OperatorDiv" => Ok(NumericExpressionTokenType::OperatorDiv),
            _ => Err(()),
        }
    }
}

#[derive(Debug)]
struct NumericExpressionToken {
    token_type: NumericExpressionTokenType,
    value: usize,
}

impl NumericExpressionToken {
    fn number(number: usize) -> Self {
        Self { token_type: NumericExpressionTokenType::Number, value: number }
    }

    fn operator(operator: NumericExpressionTokenType) -> Self {
        Self { token_type: operator, value: 0 }
    }
}

impl Token<NumericExpressionTokenType> for NumericExpressionToken {
    fn token_type(&self) -> &NumericExpressionTokenType {
        &self.token_type
    }
}

const RULE: &str = "
        MultiplicationExpression = Number {(OperatorMul | OperatorDiv) Number};
        Expression               = MultiplicationExpression {(OperatorAdd | OperatorSub) MultiplicationExpression};
        ";

fn name(s: &str) -> Vec<char> {
    s.chars().collect()
}

fn compile(text: &str) -> Result<StateManager<NumericExpressionTokenType>, BNFCompileError> {
    compile_bnf_rules(text)
}

fn tokens_of(kinds: &[NumericExpressionTokenType]) -> Vec<NumericExpressionToken> {
    kinds.iter().map(|k| NumericExpressionToken::operator(k.clone())).collect()
}

fn leaf(rule: usize, start: usize, end: usize) -> (usize, usize, usize, usize) {
    (rule, start, end, 0)
}

fn shape(record: &MatchRecord) -> (usize, usize, usize, usize) {
    (record.rule, record.start, record.end, record.children.len())
}

#[test]
fn test_bnf_rules_compiler() {
    let state_manager = compile(RULE).unwrap();
    let expression = vec![
        NumericExpressionToken::number(1),
        NumericExpressionToken::operator(NumericExpressionTokenType::OperatorMul),
        NumericExpressionToken::number(2),
        NumericExpressionToken::operator(NumericExpressionTokenType::OperatorAdd),
        NumericExpressionToken::number(3),
        NumericExpressionToken::operator(NumericExpressionTokenType::OperatorMul),
        NumericExpressionToken::number(4),
    ];
    assert_eq!(expression[6].value, 4);
    let start_rule = state_manager.rule_id(&name("Expression")).unwrap();
    let match_records = match StateMachineParser::new(&state_manager).parse(&expression, start_rule) {
        Ok(m) => m,
        Err(e) => {
            println!("{:?}", e);
            panic!();
        }
    };
    assert_eq!(match_records.rule, start_rule);
}

#[test]
fn precedence_comes_from_nesting() {
    let sm = compile(RULE).unwrap();
    assert_eq!(sm.rule_id(&name("MultiplicationExpression")), Some(0));
    assert_eq!(sm.rule_id(&name("Expression")), Some(1));
    let input = vec![
        NumericExpressionToken::number(1),
        NumericExpressionToken::operator(NumericExpressionTokenType::OperatorMul),
        NumericExpressionToken::number(2),
        NumericExpressionToken::operator(NumericExpressionTokenType::OperatorAdd),
        NumericExpressionToken::number(3),
        NumericExpressionToken::operator(NumericExpressionTokenType::OperatorMul),
        NumericExpressionToken::number(4),
    ];
    let record = StateMachineParser::new(&sm).parse(&input, 1).unwrap();
    assert_eq!(shape(&record), (1, 0, 7, 2));
    assert_eq!(shape(&record.children[0]), leaf(0, 0, 3));
    assert_eq!(shape(&record.children[1]), leaf(0, 4, 7));
}

#[test]
fn compiled_tables_are_laid_out_back_to_front() {
    let sm = compile("S = Number OperatorAdd ;").unwrap();
    assert_eq!(sm.rule_names, vec![name("S")]);
    assert_eq!(sm.start_states, vec![2]);
    assert_eq!(sm.states.len(), 3);
    assert!(matches!(sm.states[0].action, StateAction::Accept));
    assert!(sm.states[0].transitions.is_empty());
    assert!(matches!(
        sm.states[1].action,
        StateAction::Match(NumericExpressionTokenType::OperatorAdd)
    ));
    assert_eq!(sm.states[1].transitions, vec![0]);
    assert!(matches!(sm.states[2].action, StateAction::Match(NumericExpressionTokenType::Number)));
    assert_eq!(sm.states[2].transitions, vec![1]);
}

#[test]
fn repetition_is_a_choice_between_body_and_exit() {
    let sm = compile("S = { Number } ;").unwrap();
    assert_eq!(sm.start_states, vec![1]);
    assert_eq!(sm.states.len(), 3);
    assert!(matches!(sm.states[1].action, StateAction::Split));
    assert_eq!(sm.states[1].transitions, vec![2, 0]);
    assert!(matches!(sm.states[2].action, StateAction::Match(NumericExpressionTokenType::Number)));
    assert_eq!(sm.states[2].transitions, vec![1]);
}

#[test]
fn alternation_is_one_choice_point_behind_its_alternatives() {
    let sm = compile("S = ( Number | OperatorAdd | T ) ; T = OperatorSub ;").unwrap();
    assert_eq!(sm.rule_names, vec![name("S"), name("T")]);
    // S: accept 0, Number 1, OperatorAdd 2, call T 3, choice 4; T: accept 5, OperatorSub 6.
    assert_eq!(sm.start_states, vec![4, 6]);
    assert!(matches!(sm.states[3].action, StateAction::Call(1, 0)));
    assert!(sm.states[3].transitions.is_empty());
    assert!(matches!(sm.states[4].action, StateAction::Split));
    assert_eq!(sm.states[4].transitions, vec![1, 2, 3]);
    assert_eq!(sm.states[1].transitions, vec![0]);
    assert_eq!(sm.states[2].transitions, vec![0]);
    assert!(matches!(sm.states[5].action, StateAction::Accept));
    assert_eq!(sm.states[6].transitions, vec![5]);
}

#[test]
fn compiling_twice_gives_the_same_tables() {
    let first = compile(RULE).unwrap();
    let second = compile(RULE).unwrap();
    assert_eq!(first.rule_names, second.rule_names);
    assert_eq!(first.start_states, second.start_states);
    assert_eq!(format!("{:?}", first.states), format!("{:?}", second.states));
    assert_eq!(first.states.len(), 14);
}

#[test]
fn names_and_identifiers_go_round() {
    let sm = compile(RULE).unwrap();
    for rule_name in ["MultiplicationExpression", "Expression"] {
        let id = sm.rule_id(&name(rule_name)).unwrap();
        assert_eq!(sm.rule_name(id), Some(&name(rule_name)));
    }
    assert_eq!(sm.rule_id(&name("Number")), None);
    assert_eq!(sm.rule_name(2), None);
    assert_eq!(sm.start_state(0), Some(sm.start_states[0]));
    assert_eq!(sm.start_state(2), None);
}

#[test]
fn direct_left_recursion_is_rejected() {
    match compile("A = A Number ;") {
        Err(BNFCompileError::ParseError(ParseError::LeftRecursion(cycle))) => {
            assert_eq!(cycle, vec![0])
        }
        other => panic!("{:?}", other),
    }
}

#[test]
fn indirect_left_recursion_is_rejected_in_call_order() {
    match compile("A = B ; B = A ;") {
        Err(BNFCompileError::ParseError(ParseError::LeftRecursion(cycle))) => {
            assert_eq!(cycle, vec![0, 1])
        }
        other => panic!("{:?}", other),
    }
    match compile("S = Number A ; A = B Number ; B = C ; C = ( Number | B ) ;") {
        Err(BNFCompileError::ParseError(ParseError::LeftRecursion(cycle))) => {
            assert_eq!(cycle, vec![2, 3])
        }
        other => panic!("{:?}", other),
    }
}

#[test]
fn left_recursion_behind_a_repetition_is_rejected() {
    match compile("A = { Number } A ;") {
        Err(BNFCompileError::ParseError(ParseError::LeftRecursion(cycle))) => {
            assert_eq!(cycle, vec![0])
        }
        other => panic!("{:?}", other),
    }
}

#[test]
fn recursion_behind_a_token_is_accepted() {
    assert!(compile("A = Number A ;").is_ok());
    assert!(compile("A = Number B ; B = OperatorAdd A ;").is_ok());
    assert!(compile("A = ( Number A | Number ) ;").is_ok());
    assert!(compile("A = B A ; B = Number ;").is_ok());
}

#[test]
fn a_name_that_is_neither_rule_nor_token_type_is_rejected() {
    match compile("A = Number Comma ;") {
        Err(BNFCompileError::UndefinedTokenIdentifier) => {}
        other => panic!("{:?}", other),
    }
    // The names are looked at before the calls are.
    match compile("A = A Comma ;") {
        Err(BNFCompileError::UndefinedTokenIdentifier) => {}
        other => panic!("{:?}", other),
    }
}

#[test]
fn a_rule_name_wins_over_a_token_type_name() {
    let sm = compile("S = Number ; Number = OperatorAdd ;").unwrap();
    assert!(matches!(sm.states[sm.start_states[0]].action, StateAction::Call(1, 0)));
}

fn syntax_error_offset(text: &str) -> usize {
    match compile(text) {
        Err(BNFCompileError::ParseError(ParseError::UnexpectedToken(offset))) => offset,
        other => panic!("{:?}", other),
    }
}

#[test]
fn syntax_errors_carry_the_text_offset() {
    assert_eq!(syntax_error_offset(""), 0);
    assert_eq!(syntax_error_offset("  \n "), 4);
    assert_eq!(syntax_error_offset("A = Number"), 10);
    assert_eq!(syntax_error_offset("A = ;"), 4);
    assert_eq!(syntax_error_offset("A Number ;"), 2);
    assert_eq!(syntax_error_offset("= Number ;"), 0);
    assert_eq!(syntax_error_offset("A = Number ; B"), 14);
    assert_eq!(syntax_error_offset("A = ( Number ) ;"), 13);
    assert_eq!(syntax_error_offset("A = ( Number | ) ;"), 15);
    assert_eq!(syntax_error_offset("A = ( Number | Number ;"), 22);
    assert_eq!(syntax_error_offset("A = { } ;"), 6);
    assert_eq!(syntax_error_offset("A = { Number ;"), 13);
    assert_eq!(syntax_error_offset("A = Number } ;"), 11);
    assert_eq!(syntax_error_offset("A = Number | Number ;"), 11);
    assert_eq!(syntax_error_offset("A = Num-ber ;"), 7);
    assert_eq!(syntax_error_offset("A = Number ; \u{e9} = Number ;"), 13);
}

#[test]
fn a_rule_defined_twice_is_rejected_at_its_second_name() {
    assert_eq!(syntax_error_offset("A = Number ; B = Number ; A = OperatorAdd ;"), 26);
}

#[test]
fn blanks_mean_nothing() {
    let dense = compile("S=Number{(OperatorAdd|OperatorSub)Number};").unwrap();
    let loose = compile("\tS =\r\n Number { ( OperatorAdd | OperatorSub ) Number } ;\n").unwrap();
    assert_eq!(dense.rule_names, loose.rule_names);
    assert_eq!(dense.start_states, loose.start_states);
    assert_eq!(format!("{:?}", dense.states), format!("{:?}", loose.states));
}

#[test]
fn empty_repetition_matches_nothing() {
    let sm = compile("S = { Number } ;").unwrap();
    let parser = StateMachineParser::new(&sm);
    let input = tokens_of(&[NumericExpressionTokenType::OperatorAdd]);
    let record = parser.parse(&input, 0).unwrap();
    assert_eq!(shape(&record), leaf(0, 0, 0));
    let none: Vec<NumericExpressionToken> = Vec::new();
    assert_eq!(shape(&parser.parse(&none, 0).unwrap()), leaf(0, 0, 0));
    let three = tokens_of(&[
        NumericExpressionTokenType::Number,
        NumericExpressionTokenType::Number,
        NumericExpressionTokenType::Number,
        NumericExpressionTokenType::OperatorAdd,
    ]);
    assert_eq!(shape(&parser.parse(&three, 0).unwrap()), leaf(0, 0, 3));
}

#[test]
fn the_first_alternative_that_can_go_on_wins() {
    // Both alternatives match the first token; the first one goes on to the end.
    let sm = compile("S = ( A | B ) OperatorAdd ; A = Number ; B = Number Number ;").unwrap();
    let parser = StateMachineParser::new(&sm);
    let input = tokens_of(&[
        NumericExpressionTokenType::Number,
        NumericExpressionTokenType::OperatorAdd,
    ]);
    let record = parser.parse(&input, 0).unwrap();
    assert_eq!(shape(&record), (0, 0, 2, 1));
    assert_eq!(shape(&record.children[0]), leaf(1, 0, 1));
    // Where the first cannot go on, the second is taken.
    let input = tokens_of(&[
        NumericExpressionTokenType::Number,
        NumericExpressionTokenType::Number,
        NumericExpressionTokenType::OperatorAdd,
    ]);
    let record = parser.parse(&input, 0).unwrap();
    assert_eq!(shape(&record), (0, 0, 3, 1));
    assert_eq!(shape(&record.children[0]), leaf(2, 0, 2));
    // The first is taken although the second would match more.
    let sm = compile("S = ( Number | Number Number ) ;").unwrap();
    let input =
        tokens_of(&[NumericExpressionTokenType::Number, NumericExpressionTokenType::Number]);
    let record = StateMachineParser::new(&sm).parse(&input, 0).unwrap();
    assert_eq!(shape(&record), leaf(0, 0, 1));
}

#[test]
fn failure_is_reported_at_the_furthest_position() {
    let sm = compile("S = ( Number OperatorAdd Number OperatorSub | Number OperatorMul ) ;")
        .unwrap();
    let parser = StateMachineParser::new(&sm);
    let input = tokens_of(&[
        NumericExpressionTokenType::Number,
        NumericExpressionTokenType::OperatorAdd,
        NumericExpressionTokenType::Number,
        NumericExpressionTokenType::OperatorDiv,
    ]);
    match parser.parse(&input, 0) {
        Err(ParseError::UnexpectedToken(3)) => {}
        other => panic!("{:?}", other),
    }
    let input = tokens_of(&[NumericExpressionTokenType::OperatorDiv]);
    match parser.parse(&input, 0) {
        Err(ParseError::UnexpectedToken(0)) => {}
        other => panic!("{:?}", other),
    }
    let input = tokens_of(&[
        NumericExpressionTokenType::Number,
        NumericExpressionTokenType::OperatorAdd,
        NumericExpressionTokenType::Number,
    ]);
    match parser.parse(&input, 0) {
        Err(ParseError::UnexpectedToken(3)) => {}
        other => panic!("{:?}", other),
    }
}

#[test]
fn failure_inside_a_rule_that_matched_is_remembered() {
    let sm = compile(
        "S = R OperatorSub ; R = ( Number OperatorAdd OperatorMul | Number ) ;",
    )
    .unwrap();
    let input = tokens_of(&[
        NumericExpressionTokenType::Number,
        NumericExpressionTokenType::OperatorAdd,
        NumericExpressionTokenType::OperatorDiv,
    ]);
    match StateMachineParser::new(&sm).parse(&input, 0) {
        Err(ParseError::UnexpectedToken(2)) => {}
        other => panic!("{:?}", other),
    }
}

#[test]
fn a_start_rule_that_is_missing_is_reported() {
    let sm = compile(RULE).unwrap();
    let input = tokens_of(&[NumericExpressionTokenType::Number]);
    match StateMachineParser::new(&sm).parse(&input, 2) {
        Err(ParseError::UnexpectedRule(2)) => {}
        other => panic!("{:?}", other),
    }
}

#[test]
fn a_rule_that_calls_itself_behind_an_empty_match_is_rejected() {
    match compile("A = B A ; B = { Number } ;") {
        Err(BNFCompileError::ParseError(ParseError::LeftRecursion(cycle))) => {
            assert_eq!(cycle, vec![0])
        }
        other => panic!("{:?}", other),
    }
    match compile("A = ( B A | Number ) ; B = { OperatorAdd } ;") {
        Err(BNFCompileError::ParseError(ParseError::LeftRecursion(cycle))) => {
            assert_eq!(cycle, vec![0])
        }
        other => panic!("{:?}", other),
    }
    match compile("A = B C ; B = { Number } ; C = ( OperatorAdd | B ) A ;") {
        Err(BNFCompileError::ParseError(ParseError::LeftRecursion(cycle))) => {
            assert_eq!(cycle, vec![0, 2])
        }
        other => panic!("{:?}", other),
    }
}

#[test]
fn a_repetition_whose_body_may_match_nothing_is_rejected() {
    assert_eq!(syntax_error_offset("S = { { Number } } OperatorAdd ;"), 0);
    assert_eq!(syntax_error_offset("A = Number ; S = Number { B } ; B = { Number } ;"), 13);
    assert_eq!(syntax_error_offset("A = ( Number | { ( Number | { OperatorAdd } ) } ) ;"), 0);
}

#[test]
fn rules_that_may_match_nothing_are_called_without_harm() {
    let sm = compile("S = { B Number } A ; B = { OperatorAdd } ; A = B ( OperatorSub | B ) ;")
        .unwrap();
    let parser = StateMachineParser::new(&sm);
    let input = tokens_of(&[
        NumericExpressionTokenType::OperatorAdd,
        NumericExpressionTokenType::Number,
        NumericExpressionTokenType::Number,
        NumericExpressionTokenType::OperatorMul,
    ]);
    let record = parser.parse(&input, 0).unwrap();
    // B with its sign, B with nothing, then A; the B of the round that failed is gone.
    assert_eq!(shape(&record), (0, 0, 3, 3));
    assert_eq!(shape(&record.children[0]), leaf(1, 0, 1));
    assert_eq!(shape(&record.children[1]), leaf(1, 2, 2));
    assert_eq!(shape(&record.children[2]), (2, 3, 3, 2));
    let none: Vec<NumericExpressionToken> = Vec::new();
    let record = parser.parse(&none, 0).unwrap();
    assert_eq!((record.start, record.end), (0, 0));
    let record = parser.parse(&none, 2).unwrap();
    assert_eq!(shape(&record), (2, 0, 0, 2));
}

#[test]
fn tokens_behind_the_failure_do_not_matter() {
    let sm = compile(RULE).unwrap();
    let parser = StateMachineParser::new(&sm);
    let head = [
        NumericExpressionTokenType::Number,
        NumericExpressionTokenType::OperatorAdd,
        NumericExpressionTokenType::OperatorSub,
    ];
    let tails: [&[NumericExpressionTokenType]; 3] = [
        &[],
        &[NumericExpressionTokenType::Number],
        &[NumericExpressionTokenType::OperatorMul, NumericExpressionTokenType::Number],
    ];
    for tail in tails {
        let mut kinds = head.to_vec();
        kinds.extend_from_slice(tail);
        // The expression matches its first number and stops before the sign that no
        // number follows.
        let record = parser.parse(&tokens_of(&kinds), 1).unwrap();
        assert_eq!(shape(&record), (1, 0, 1, 1));
    }
    let sm = compile("S = Number OperatorAdd Number ;").unwrap();
    let parser = StateMachineParser::new(&sm);
    for tail in tails {
        let mut kinds = head.to_vec();
        kinds.extend_from_slice(tail);
        match parser.parse(&tokens_of(&kinds), 0) {
            Err(ParseError::UnexpectedToken(2)) => {}
            other => panic!("{:?}", other),
        }
    }
}
