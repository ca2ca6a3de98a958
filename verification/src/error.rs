//! The two error families: what can go wrong while a grammar is compiled, and
//! what can go wrong while tokens are matched against a compiled grammar.
use crate::bnf_rules_compiler::{RuleId, StateId};
use vstd::prelude::*;
use vstd::string::StringExecFns;

verus! {

/// Why a grammar text could not be compiled.
#[derive(Debug)]
pub enum BNFCompileError {
    UnknownError,
    /// The grammar text is malformed or holds a repetition whose body may
    /// match nothing (`UnexpectedToken` carries the text offset), or it is
    /// left recursive (`LeftRecursion` carries the cycle).
    ParseError(ParseError),
    /// An identifier names no rule and the token type rejects it.
    UndefinedTokenIdentifier,
    UndefinedRuleIdentifier,
    UnexpectedToken,
    UnexpectedAction,
}

/// Why a token sequence could not be matched.
#[derive(Debug)]
pub enum ParseError {
    /// Rules that call each other without consuming a token in between, in
    /// call order. The compiler reports them; the engine does only on a
    /// table that the compiler has not checked, with the rule at which it
    /// found itself going round in circles.
    LeftRecursion(Vec<RuleId>),
    /// The furthest position at which no alternative could go on.
    UnexpectedToken(usize),
    /// A state that the table lacks, or whose shape the engine cannot run.
    UnexpectedState(StateId),
    /// A rule that the table lacks.
    UnexpectedRule(RuleId),
}

/// Mathematical model of a [`ParseError`].
pub enum Fault {
    LeftRecursion(Seq<RuleId>),
    UnexpectedToken(nat),
    UnexpectedState(StateId),
    UnexpectedRule(RuleId),
}

impl View for ParseError {
    type V = Fault;

    open spec fn view(&self) -> Fault {
        match self {
            ParseError::LeftRecursion(cycle) => Fault::LeftRecursion(cycle@),
            ParseError::UnexpectedToken(index) => Fault::UnexpectedToken(*index as nat),
            ParseError::UnexpectedState(state) => Fault::UnexpectedState(*state),
            ParseError::UnexpectedRule(rule) => Fault::UnexpectedRule(*rule),
        }
    }
}

/// Mathematical model of a [`BNFCompileError`].
pub enum CompileFault {
    UnknownError,
    ParseError(Fault),
    UndefinedTokenIdentifier,
    UndefinedRuleIdentifier,
    UnexpectedToken,
    UnexpectedAction,
}

impl View for BNFCompileError {
    type V = CompileFault;

    open spec fn view(&self) -> CompileFault {
        match self {
            BNFCompileError::UnknownError => CompileFault::UnknownError,
            BNFCompileError::ParseError(e) => CompileFault::ParseError(e@),
            BNFCompileError::UndefinedTokenIdentifier => CompileFault::UndefinedTokenIdentifier,
            BNFCompileError::UndefinedRuleIdentifier => CompileFault::UndefinedRuleIdentifier,
            BNFCompileError::UnexpectedToken => CompileFault::UnexpectedToken,
            BNFCompileError::UnexpectedAction => CompileFault::UnexpectedAction,
        }
    }
}

/// A digit written out.
pub open spec fn digit_text(d: nat) -> Seq<char> {
    if d == 0 {
        "0"@
    } else if d == 1 {
        "1"@
    } else if d == 2 {
        "2"@
    } else if d == 3 {
        "3"@
    } else if d == 4 {
        "4"@
    } else if d == 5 {
        "5"@
    } else if d == 6 {
        "6"@
    } else if d == 7 {
        "7"@
    } else if d == 8 {
        "8"@
    } else {
        "9"@
    }
}

/// A number written out in decimal digits.
pub open spec fn decimal(n: nat) -> Seq<char>
    decreases n,
{
    if n < 10 {
        digit_text(n)
    } else {
        decimal(n / 10) + digit_text(n % 10)
    }
}

/// Numbers written out with a comma and a blank between them.
pub open spec fn listed(ids: Seq<usize>) -> Seq<char>
    decreases ids.len(),
{
    if ids.len() == 0 {
        Seq::empty()
    } else if ids.len() == 1 {
        decimal(ids[0] as nat)
    } else {
        listed(ids.drop_last()) + ", "@ + decimal(ids.last() as nat)
    }
}

/// The text of a parse error: the name of its kind and, in parentheses,
/// what it carries; a list of rules stands in square brackets.
pub open spec fn fault_text(f: Fault) -> Seq<char> {
    match f {
        Fault::LeftRecursion(cycle) => "LeftRecursion(["@ + listed(cycle) + "])"@,
        Fault::UnexpectedToken(index) => "UnexpectedToken("@ + decimal(index) + ")"@,
        Fault::UnexpectedState(state) => "UnexpectedState("@ + decimal(state as nat) + ")"@,
        Fault::UnexpectedRule(rule) => "UnexpectedRule("@ + decimal(rule as nat) + ")"@,
    }
}

/// The text of a compile error: the name of its kind and, in parentheses,
/// the text of the parse error that it carries.
pub open spec fn compile_fault_text(f: CompileFault) -> Seq<char> {
    match f {
        CompileFault::UnknownError => "UnknownError"@,
        CompileFault::ParseError(e) => "ParseError("@ + fault_text(e) + ")"@,
        CompileFault::UndefinedTokenIdentifier => "UndefinedTokenIdentifier"@,
        CompileFault::UndefinedRuleIdentifier => "UndefinedRuleIdentifier"@,
        CompileFault::UnexpectedToken => "UnexpectedToken"@,
        CompileFault::UnexpectedAction => "UnexpectedAction"@,
    }
}

fn digit_str(d: usize) -> (r: &'static str)
    requires
        d < 10,
    ensures
        r@ == digit_text(d as nat),
{
    if d == 0 {
        "0"
    } else if d == 1 {
        "1"
    } else if d == 2 {
        "2"
    } else if d == 3 {
        "3"
    } else if d == 4 {
        "4"
    } else if d == 5 {
        "5"
    } else if d == 6 {
        "6"
    } else if d == 7 {
        "7"
    } else if d == 8 {
        "8"
    } else {
        "9"
    }
}

fn append_decimal(text: &mut String, n: usize)
    ensures
        final(text)@ == old(text)@ + decimal(n as nat),
    decreases n,
{
    if n < 10 {
        text.append(digit_str(n));
    } else {
        let ghost before = text@;
        append_decimal(text, n / 10);
        text.append(digit_str(n % 10));
        assert(text@ =~= before + (decimal((n / 10) as nat) + digit_text((n % 10) as nat)));
    }
}

fn append_listed(text: &mut String, ids: &Vec<usize>)
    ensures
        final(text)@ == old(text)@ + listed(ids@),
{
    let ghost before = text@;
    let mut i: usize = 0;
    assert(ids@.subrange(0, 0) =~= Seq::<usize>::empty());
    assert(before + listed(ids@.subrange(0, 0)) =~= before);
    while i < ids.len()
        invariant
            i <= ids@.len(),
            text@ == before + listed(ids@.subrange(0, i as int)),
        decreases ids@.len() - i,
    {
        let ghost so_far = listed(ids@.subrange(0, i as int));
        let ghost upto = ids@.subrange(0, i + 1);
        proof {
            assert(upto.drop_last() =~= ids@.subrange(0, i as int));
            assert(upto.last() == ids@[i as int]);
        }
        if i > 0 {
            text.append(", ");
        }
        append_decimal(text, ids[i]);
        proof {
            if i > 0 {
                assert(text@ =~= before + (so_far + ", "@ + decimal(ids@[i as int] as nat)));
            } else {
                assert(so_far =~= Seq::<char>::empty());
                assert(text@ =~= before + decimal(ids@[i as int] as nat));
            }
        }
        i += 1;
    }
    assert(ids@.subrange(0, ids@.len() as int) =~= ids@);
}

impl ParseError {
    /// The error as text, such as `UnexpectedToken(3)` or
    /// `LeftRecursion([0, 1])`.
    pub fn to_text(&self) -> (text: String)
        ensures
            text@ == fault_text(self@),
    {
        match self {
            ParseError::LeftRecursion(cycle) => {
                let mut text = String::from_str("LeftRecursion([");
                append_listed(&mut text, cycle);
                text.append("])");
                text
            },
            ParseError::UnexpectedToken(index) => {
                let mut text = String::from_str("UnexpectedToken(");
                append_decimal(&mut text, *index);
                text.append(")");
                text
            },
            ParseError::UnexpectedState(state) => {
                let mut text = String::from_str("UnexpectedState(");
                append_decimal(&mut text, *state);
                text.append(")");
                text
            },
            ParseError::UnexpectedRule(rule) => {
                let mut text = String::from_str("UnexpectedRule(");
                append_decimal(&mut text, *rule);
                text.append(")");
                text
            },
        }
    }
}

impl BNFCompileError {
    /// The error as text, such as `UndefinedTokenIdentifier` or
    /// `ParseError(UnexpectedToken(3))`.
    pub fn to_text(&self) -> (text: String)
        ensures
            text@ == compile_fault_text(self@),
    {
        match self {
            BNFCompileError::UnknownError => String::from_str("UnknownError"),
            BNFCompileError::ParseError(e) => {
                let mut text = String::from_str("ParseError(");
                let inner = e.to_text();
                text.append(inner.as_str());
                text.append(")");
                text
            },
            BNFCompileError::UndefinedTokenIdentifier => String::from_str(
                "UndefinedTokenIdentifier",
            ),
            BNFCompileError::UndefinedRuleIdentifier => String::from_str("UndefinedRuleIdentifier"),
            BNFCompileError::UnexpectedToken => String::from_str("UnexpectedToken"),
            BNFCompileError::UnexpectedAction => String::from_str("UnexpectedAction"),
        }
    }
}

} // verus!
