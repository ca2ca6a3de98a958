//! Reading a grammar text: from bytes to lexemes, from lexemes to rules.
//!
//! ```text
//! Grammar    := Rule+
//! Rule       := Identifier "=" Expression ";"
//! Expression := Term+
//! Term       := Identifier | "(" Expression ("|" Expression)+ ")" | "{" Expression "}"
//! ```
//!
//! An identifier is a run of ASCII letters, digits and underscores; blanks,
//! tabs and line ends separate lexemes and mean nothing else.
use crate::error::{BNFCompileError, CompileFault, Fault, ParseError};
use crate::state_machine::remaining;
use vstd::prelude::*;
use vstd::string::StringSliceAdditionalSpecFns;

verus! {

/// The kinds of lexemes of a grammar text.
#[derive(Clone, Copy, Debug)]
pub enum Lexeme {
    Identifier,
    Equals,
    Semicolon,
    Bar,
    OpenParen,
    CloseParen,
    OpenBrace,
    CloseBrace,
}

/// A lexeme and the bytes `[start, end)` of the text that it spans.
#[derive(Clone, Copy, Debug)]
pub struct GrammarToken {
    pub kind: Lexeme,
    pub start: usize,
    pub end: usize,
}

/// The body of a rule.
#[derive(Debug)]
pub enum Expression {
    /// An identifier: the name of a rule or of a token type.
    Symbol(Vec<char>),
    /// The members one after the other.
    Sequence(Vec<Expression>),
    /// One of the alternatives, the earlier ones first.
    Alternation(Vec<Expression>),
    /// The body any number of times, as often as it will go.
    Repetition(Box<Expression>),
}

/// A rule definition: its name, its body, and where in the text its name
/// stands.
#[derive(Debug)]
pub struct GrammarRule {
    pub name: Vec<char>,
    pub body: Expression,
    pub offset: usize,
}

/// Mathematical model of an [`Expression`].
pub enum Syntax {
    Symbol(Seq<char>),
    Sequence(Seq<Syntax>),
    Alternation(Seq<Syntax>),
    Repetition(Box<Syntax>),
}

/// Mathematical model of a [`GrammarRule`].
pub struct RuleSyntax {
    pub name: Seq<char>,
    pub body: Syntax,
    pub offset: nat,
}

impl View for Expression {
    type V = Syntax;

    open spec fn view(&self) -> Syntax
        decreases self,
    {
        match self {
            Expression::Symbol(name) => Syntax::Symbol(name@),
            Expression::Sequence(members) => Syntax::Sequence(syntaxes(members@)),
            Expression::Alternation(alternatives) => Syntax::Alternation(syntaxes(alternatives@)),
            Expression::Repetition(body) => Syntax::Repetition(Box::new((**body).view())),
        }
    }
}

/// The models of a sequence of expressions, element by element.
pub open spec fn syntaxes(s: Seq<Expression>) -> Seq<Syntax>
    decreases s,
{
    if s.len() == 0 {
        Seq::empty()
    } else {
        syntaxes(s.drop_last()).push(s.last()@)
    }
}

/// `syntaxes` keeps the length and maps every element to its model.
pub proof fn lemma_syntaxes(s: Seq<Expression>)
    ensures
        syntaxes(s).len() == s.len(),
        forall|i: int| 0 <= i < s.len() ==> (#[trigger] syntaxes(s)[i]) == s[i]@,
    decreases s.len(),
{
    if s.len() > 0 {
        lemma_syntaxes(s.drop_last());
        assert(syntaxes(s) == syntaxes(s.drop_last()).push(s.last()@));
    } else {
        assert(syntaxes(s) == Seq::<Syntax>::empty());
    }
}

impl View for GrammarRule {
    type V = RuleSyntax;

    open spec fn view(&self) -> RuleSyntax {
        RuleSyntax { name: self.name@, body: self.body@, offset: self.offset as nat }
    }
}

/// The models of a sequence of rules, element by element.
pub open spec fn rule_syntaxes(s: Seq<GrammarRule>) -> Seq<RuleSyntax> {
    Seq::new(s.len(), |i: int| s[i]@)
}

// ---------------------------------------------------------------------------
// Lexemes
// ---------------------------------------------------------------------------
/// Blank, tab, line feed, carriage return.
pub open spec fn is_space(b: u8) -> bool {
    b == 32 || b == 9 || b == 10 || b == 13
}

/// An ASCII letter, a digit or an underscore.
pub open spec fn is_name_byte(b: u8) -> bool {
    (97 <= b <= 122) || (65 <= b <= 90) || (48 <= b <= 57) || b == 95
}

/// The lexeme that a single byte stands for, if it stands for one.
pub open spec fn punctuation(b: u8) -> Option<Lexeme> {
    if b == 61 {
        Some(Lexeme::Equals)
    } else if b == 59 {
        Some(Lexeme::Semicolon)
    } else if b == 124 {
        Some(Lexeme::Bar)
    } else if b == 40 {
        Some(Lexeme::OpenParen)
    } else if b == 41 {
        Some(Lexeme::CloseParen)
    } else if b == 123 {
        Some(Lexeme::OpenBrace)
    } else if b == 125 {
        Some(Lexeme::CloseBrace)
    } else {
        None
    }
}

/// Where the run of name bytes that starts at `pos` ends.
pub open spec fn name_end(text: Seq<u8>, pos: nat) -> nat
    decreases text.len() - pos,
{
    if pos < text.len() && is_name_byte(text[pos as int]) {
        name_end(text, pos + 1)
    } else {
        pos
    }
}

/// The run of name bytes from `pos` ends at or after `pos`, inside the text.
pub proof fn lemma_name_end(text: Seq<u8>, pos: nat)
    requires
        pos <= text.len(),
    ensures
        pos <= name_end(text, pos) <= text.len(),
    decreases text.len() - pos,
{
    if pos < text.len() && is_name_byte(text[pos as int]) {
        lemma_name_end(text, pos + 1);
    }
}

/// A result with `first` put in front of what was found.
pub open spec fn following(first: GrammarToken, rest: Result<Seq<GrammarToken>, nat>) -> Result<
    Seq<GrammarToken>,
    nat,
> {
    match rest {
        Ok(tokens) => Ok(seq![first] + tokens),
        Err(offset) => Err(offset),
    }
}

/// The lexemes of `text` from `pos` on, or the offset of the first byte that
/// belongs to none.
pub open spec fn lexemes_from(text: Seq<u8>, pos: nat) -> Result<Seq<GrammarToken>, nat>
    decreases text.len() - pos,
{
    if pos >= text.len() {
        Ok(Seq::empty())
    } else if is_space(text[pos as int]) {
        lexemes_from(text, pos + 1)
    } else if let Some(kind) = punctuation(text[pos as int]) {
        following(
            GrammarToken { kind, start: pos as usize, end: (pos + 1) as usize },
            lexemes_from(text, pos + 1),
        )
    } else if is_name_byte(text[pos as int]) {
        proof {
            lemma_name_end(text, pos + 1);
        }
        let end = name_end(text, pos + 1);
        following(
            GrammarToken { kind: Lexeme::Identifier, start: pos as usize, end: end as usize },
            lexemes_from(text, end),
        )
    } else {
        Err(pos)
    }
}

/// Every lexeme spans at least one byte of a text of `len` bytes.
pub open spec fn lexemes_fit(tokens: Seq<GrammarToken>, len: nat) -> bool {
    forall|i: int| 0 <= i < tokens.len() ==> (#[trigger] tokens[i]).start < tokens[i].end <= len
}

fn space_byte(b: u8) -> (r: bool)
    ensures
        r == is_space(b),
{
    b == 32 || b == 9 || b == 10 || b == 13
}

fn name_byte(b: u8) -> (r: bool)
    ensures
        r == is_name_byte(b),
{
    (97 <= b && b <= 122) || (65 <= b && b <= 90) || (48 <= b && b <= 57) || b == 95
}

fn punctuation_byte(b: u8) -> (r: Option<Lexeme>)
    ensures
        r == punctuation(b),
{
    if b == 61 {
        Some(Lexeme::Equals)
    } else if b == 59 {
        Some(Lexeme::Semicolon)
    } else if b == 124 {
        Some(Lexeme::Bar)
    } else if b == 40 {
        Some(Lexeme::OpenParen)
    } else if b == 41 {
        Some(Lexeme::CloseParen)
    } else if b == 123 {
        Some(Lexeme::OpenBrace)
    } else if b == 125 {
        Some(Lexeme::CloseBrace)
    } else {
        None
    }
}

fn scan_name(text: &[u8], pos: usize) -> (end: usize)
    requires
        pos <= text@.len(),
    ensures
        end == name_end(text@, pos as nat),
        pos <= end <= text@.len(),
{
    let mut end = pos;
    while end < text.len() && name_byte(text[end])
        invariant
            pos <= end <= text@.len(),
            name_end(text@, pos as nat) == name_end(text@, end as nat),
        decreases text@.len() - end,
    {
        end += 1;
    }
    end
}

/// The model of what the lexer hands back.
pub open spec fn lexed(r: Result<Vec<GrammarToken>, usize>) -> Result<Seq<GrammarToken>, nat> {
    match r {
        Ok(tokens) => Ok(tokens@),
        Err(offset) => Err(offset as nat),
    }
}

/// A result with `before` put in front of what was found.
pub open spec fn preceded(before: Seq<GrammarToken>, rest: Result<Seq<GrammarToken>, nat>) -> Result<
    Seq<GrammarToken>,
    nat,
> {
    match rest {
        Ok(tokens) => Ok(before + tokens),
        Err(offset) => Err(offset),
    }
}

/// Splits a grammar text into its lexemes.
pub fn lex(text: &[u8]) -> (r: Result<Vec<GrammarToken>, usize>)
    ensures
        lexed(r) == lexemes_from(text@, 0),
        r matches Ok(tokens) ==> lexemes_fit(tokens@, text@.len()),
        r matches Err(offset) ==> offset < text@.len(),
{
    let mut tokens: Vec<GrammarToken> = Vec::new();
    let mut pos: usize = 0;
    assert(preceded(tokens@, lexemes_from(text@, 0)) == lexemes_from(text@, 0)) by {
        if let Ok(rest) = lexemes_from(text@, 0) {
            assert(tokens@ + rest =~= rest);
        }
    }
    while pos < text.len()
        invariant
            pos <= text@.len(),
            lexemes_fit(tokens@, text@.len()),
            lexemes_from(text@, 0) == preceded(tokens@, lexemes_from(text@, pos as nat)),
        decreases text@.len() - pos,
    {
        let b = text[pos];
        let ghost before = tokens@;
        if space_byte(b) {
            pos += 1;
        } else if let Some(kind) = punctuation_byte(b) {
            let token = GrammarToken { kind, start: pos, end: pos + 1 };
            tokens.push(token);
            pos += 1;
            proof {
                if let Ok(rest) = lexemes_from(text@, pos as nat) {
                    assert(before + (seq![token] + rest) =~= tokens@ + rest);
                }
            }
        } else if name_byte(b) {
            let end = scan_name(text, pos + 1);
            let token = GrammarToken { kind: Lexeme::Identifier, start: pos, end };
            tokens.push(token);
            pos = end;
            proof {
                if let Ok(rest) = lexemes_from(text@, pos as nat) {
                    assert(before + (seq![token] + rest) =~= tokens@ + rest);
                }
            }
        } else {
            return Err(pos);
        }
    }
    proof {
        assert(tokens@ + Seq::<GrammarToken>::empty() =~= tokens@);
    }
    Ok(tokens)
}

// ---------------------------------------------------------------------------
// Rules
// ---------------------------------------------------------------------------
/// Where lexeme `i` starts, or the end of the text where there is none.
pub open spec fn offset_at(text: Seq<u8>, tokens: Seq<GrammarToken>, i: nat) -> nat {
    if i < tokens.len() {
        tokens[i as int].start as nat
    } else {
        text.len()
    }
}

/// The bytes `[start, end)` of the text, as characters.
pub open spec fn name_of(text: Seq<u8>, start: nat, end: nat) -> Seq<char> {
    Seq::new((end - start) as nat, |k: int| text[start + k] as char)
}

/// A term begins with an identifier or an opening bracket.
pub open spec fn starts_term(kind: Lexeme) -> bool {
    kind is Identifier || kind is OpenParen || kind is OpenBrace
}

/// `Term+` from lexeme `i`, after the terms `acc`: the sequence of all of
/// them and the index of the lexeme that follows, or the offset of the
/// lexeme that should not be there.
pub open spec fn parse_terms(
    text: Seq<u8>,
    tokens: Seq<GrammarToken>,
    i: nat,
    acc: Seq<Syntax>,
) -> Result<(Syntax, nat), nat>
    decreases remaining(tokens.len(), i), 2nat,
{
    if i < tokens.len() && starts_term(tokens[i as int].kind) {
        match parse_term(text, tokens, i) {
            Ok((term, next)) => {
                if next > i {
                    parse_terms(text, tokens, next, acc.push(term))
                } else {
                    Err(offset_at(text, tokens, i))
                }
            },
            Err(offset) => Err(offset),
        }
    } else if acc.len() == 0 {
        Err(offset_at(text, tokens, i))
    } else {
        Ok((Syntax::Sequence(acc), i))
    }
}

/// One term from lexeme `i`.
pub open spec fn parse_term(text: Seq<u8>, tokens: Seq<GrammarToken>, i: nat) -> Result<
    (Syntax, nat),
    nat,
>
    decreases remaining(tokens.len(), i), 1nat,
{
    if i >= tokens.len() {
        Err(text.len())
    } else {
        let token = tokens[i as int];
        match token.kind {
            Lexeme::Identifier => Ok(
                (Syntax::Symbol(name_of(text, token.start as nat, token.end as nat)), i + 1),
            ),
            Lexeme::OpenBrace => match parse_terms(text, tokens, i + 1, Seq::empty()) {
                Ok((body, next)) => {
                    if next < tokens.len() && tokens[next as int].kind is CloseBrace {
                        Ok((Syntax::Repetition(Box::new(body)), next + 1))
                    } else {
                        Err(offset_at(text, tokens, next))
                    }
                },
                Err(offset) => Err(offset),
            },
            Lexeme::OpenParen => parse_alternatives(text, tokens, i + 1, Seq::empty()),
            _ => Err(token.start as nat),
        }
    }
}

/// The alternatives of a parenthesis from lexeme `i`, after the alternatives
/// `acc`, up to and with the closing parenthesis: there are at least two.
pub open spec fn parse_alternatives(
    text: Seq<u8>,
    tokens: Seq<GrammarToken>,
    i: nat,
    acc: Seq<Syntax>,
) -> Result<(Syntax, nat), nat>
    decreases remaining(tokens.len(), i), 3nat,
{
    match parse_terms(text, tokens, i, Seq::empty()) {
        Err(offset) => Err(offset),
        Ok((alternative, next)) => {
            let all = acc.push(alternative);
            if next < tokens.len() && tokens[next as int].kind is Bar && next >= i {
                parse_alternatives(text, tokens, next + 1, all)
            } else if next < tokens.len() && tokens[next as int].kind is CloseParen && all.len()
                >= 2 {
                Ok((Syntax::Alternation(all), next + 1))
            } else {
                Err(offset_at(text, tokens, next))
            }
        },
    }
}

/// One rule definition from lexeme `i`.
pub open spec fn parse_rule(text: Seq<u8>, tokens: Seq<GrammarToken>, i: nat) -> Result<
    (RuleSyntax, nat),
    nat,
> {
    if !(i < tokens.len() && tokens[i as int].kind is Identifier) {
        Err(offset_at(text, tokens, i))
    } else if !(i + 1 < tokens.len() && tokens[(i + 1) as int].kind is Equals) {
        Err(offset_at(text, tokens, i + 1))
    } else {
        match parse_terms(text, tokens, i + 2, Seq::empty()) {
            Err(offset) => Err(offset),
            Ok((body, next)) => {
                if next < tokens.len() && tokens[next as int].kind is Semicolon {
                    Ok(
                        (
                            RuleSyntax {
                                name: name_of(
                                    text,
                                    tokens[i as int].start as nat,
                                    tokens[i as int].end as nat,
                                ),
                                body,
                                offset: tokens[i as int].start as nat,
                            },
                            next + 1,
                        ),
                    )
                } else {
                    Err(offset_at(text, tokens, next))
                }
            },
        }
    }
}

/// The rule definitions from lexeme `i` to the end, after the rules `acc`:
/// there is at least one.
pub open spec fn parse_rules(
    text: Seq<u8>,
    tokens: Seq<GrammarToken>,
    i: nat,
    acc: Seq<RuleSyntax>,
) -> Result<Seq<RuleSyntax>, nat>
    decreases remaining(tokens.len(), i),
{
    if i >= tokens.len() {
        if acc.len() == 0 {
            Err(text.len())
        } else {
            Ok(acc)
        }
    } else {
        match parse_rule(text, tokens, i) {
            Err(offset) => Err(offset),
            Ok((rule, next)) => {
                if next > i {
                    parse_rules(text, tokens, next, acc.push(rule))
                } else {
                    Err(offset_at(text, tokens, i))
                }
            },
        }
    }
}

/// Rule `k` has the name of an earlier rule.
pub open spec fn repeats(rules: Seq<RuleSyntax>, k: int) -> bool {
    exists|i: int| 0 <= i < k && (#[trigger] rules[i]).name == rules[k].name
}

/// The first rule from `from` on that has the name of an earlier rule.
pub open spec fn first_repeat(rules: Seq<RuleSyntax>, from: nat) -> Option<nat>
    decreases rules.len() - from,
{
    if from >= rules.len() {
        None
    } else if repeats(rules, from as int) {
        Some(from)
    } else {
        first_repeat(rules, from + 1)
    }
}

/// No two rules share a name.
pub open spec fn distinct_names(rules: Seq<RuleSyntax>) -> bool {
    forall|i: int, j: int|
        0 <= i < j < rules.len() ==> (#[trigger] rules[i]).name != (#[trigger] rules[j]).name
}

/// The rules that a grammar text defines, or the offset at which it stops
/// being one: the first byte that is part of no lexeme; else the first
/// lexeme that the syntax does not allow where it stands (the end of the
/// text, where a lexeme is missing); else the name of the first rule that is
/// defined a second time.
pub open spec fn grammar_of(text: Seq<u8>) -> Result<Seq<RuleSyntax>, nat> {
    match lexemes_from(text, 0) {
        Err(offset) => Err(offset),
        Ok(tokens) => match parse_rules(text, tokens, 0, Seq::empty()) {
            Err(offset) => Err(offset),
            Ok(rules) => match first_repeat(rules, 0) {
                Some(k) => Err(rules[k as int].offset),
                None => Ok(rules),
            },
        },
    }
}

/// Where `first_repeat` finds nothing, no two rules share a name.
pub proof fn lemma_first_repeat(rules: Seq<RuleSyntax>, from: nat)
    requires
        forall|k: int| 0 <= k < from && k < rules.len() ==> !repeats(rules, k),
    ensures
        first_repeat(rules, from) is None ==> distinct_names(rules),
        first_repeat(rules, from) matches Some(k) ==> from <= k < rules.len() && repeats(
            rules,
            k as int,
        ),
    decreases rules.len() - from,
{
    if from >= rules.len() {
        assert forall|i: int, j: int| 0 <= i < j < rules.len() implies (#[trigger] rules[i]).name
            != (#[trigger] rules[j]).name by {
            assert(!repeats(rules, j));
        }
    } else if !repeats(rules, from as int) {
        lemma_first_repeat(rules, from + 1);
    }
}

/// The model of what a parsing step hands back.
pub open spec fn parsed(r: Result<(Expression, usize), usize>) -> Result<(Syntax, nat), nat> {
    match r {
        Ok((expression, next)) => Ok((expression@, next as nat)),
        Err(offset) => Err(offset as nat),
    }
}

/// Whether two names are the same.
pub fn same_name(a: &Vec<char>, b: &Vec<char>) -> (r: bool)
    ensures
        r == (a@ == b@),
{
    if a.len() != b.len() {
        return false;
    }
    let mut i: usize = 0;
    while i < a.len()
        invariant
            i <= a@.len(),
            a@.len() == b@.len(),
            forall|k: int| 0 <= k < i ==> a@[k] == b@[k],
        decreases a@.len() - i,
    {
        if a[i] != b[i] {
            return false;
        }
        i += 1;
    }
    assert(a@ =~= b@);
    true
}

fn read_name(text: &[u8], start: usize, end: usize) -> (name: Vec<char>)
    requires
        start <= end <= text@.len(),
    ensures
        name@ == name_of(text@, start as nat, end as nat),
{
    let mut name: Vec<char> = Vec::new();
    let mut k = start;
    while k < end
        invariant
            start <= k <= end <= text@.len(),
            name@ == name_of(text@, start as nat, k as nat),
        decreases end - k,
    {
        name.push(text[k] as char);
        k += 1;
        assert(name@ =~= name_of(text@, start as nat, k as nat));
    }
    name
}

fn offset_of(text: &[u8], tokens: &Vec<GrammarToken>, i: usize) -> (offset: usize)
    ensures
        offset == offset_at(text@, tokens@, i as nat),
{
    if i < tokens.len() {
        tokens[i].start
    } else {
        text.len()
    }
}

fn read_terms(text: &[u8], tokens: &Vec<GrammarToken>, i: usize, acc: Vec<Expression>) -> (r:
    Result<(Expression, usize), usize>)
    requires
        lexemes_fit(tokens@, text@.len()),
        i <= tokens@.len(),
    ensures
        parsed(r) == parse_terms(text@, tokens@, i as nat, syntaxes(acc@)),
        r matches Ok((_, next)) ==> i <= next <= tokens@.len() && (acc@.len() == 0 ==> i < next),
    decreases remaining(tokens@.len(), i as nat), 2nat,
{
    let mut acc = acc;
    let starts = i < tokens.len() && match tokens[i].kind {
        Lexeme::Identifier => true,
        Lexeme::OpenParen => true,
        Lexeme::OpenBrace => true,
        _ => false,
    };
    if starts {
        match read_term(text, tokens, i) {
            Ok((term, next)) => {
                let ghost before = acc@;
                acc.push(term);
                proof {
                    assert(acc@.drop_last() =~= before);
                    assert(syntaxes(acc@) == syntaxes(before).push(term@));
                }
                read_terms(text, tokens, next, acc)
            },
            Err(offset) => Err(offset),
        }
    } else if acc.len() == 0 {
        proof {
            lemma_syntaxes(acc@);
        }
        Err(offset_of(text, tokens, i))
    } else {
        proof {
            lemma_syntaxes(acc@);
        }
        Ok((Expression::Sequence(acc), i))
    }
}

fn read_term(text: &[u8], tokens: &Vec<GrammarToken>, i: usize) -> (r: Result<
    (Expression, usize),
    usize,
>)
    requires
        lexemes_fit(tokens@, text@.len()),
    ensures
        parsed(r) == parse_term(text@, tokens@, i as nat),
        r matches Ok((_, next)) ==> i < next <= tokens@.len(),
    decreases remaining(tokens@.len(), i as nat), 1nat,
{
    if i >= tokens.len() {
        return Err(text.len());
    }
    let token = tokens[i];
    match token.kind {
        Lexeme::Identifier => {
            let name = read_name(text, token.start, token.end);
            Ok((Expression::Symbol(name), i + 1))
        },
        Lexeme::OpenBrace => {
            let empty: Vec<Expression> = Vec::new();
            assert(syntaxes(empty@) =~= Seq::empty());
            match read_terms(text, tokens, i + 1, empty) {
                Ok((body, next)) => {
                    let closed = next < tokens.len() && match tokens[next].kind {
                        Lexeme::CloseBrace => true,
                        _ => false,
                    };
                    if closed {
                        Ok((Expression::Repetition(Box::new(body)), next + 1))
                    } else {
                        Err(offset_of(text, tokens, next))
                    }
                },
                Err(offset) => Err(offset),
            }
        },
        Lexeme::OpenParen => {
            let empty: Vec<Expression> = Vec::new();
            assert(syntaxes(empty@) =~= Seq::empty());
            read_alternatives(text, tokens, i + 1, empty)
        },
        _ => Err(token.start),
    }
}

fn read_alternatives(
    text: &[u8],
    tokens: &Vec<GrammarToken>,
    i: usize,
    acc: Vec<Expression>,
) -> (r: Result<(Expression, usize), usize>)
    requires
        lexemes_fit(tokens@, text@.len()),
        i <= tokens@.len(),
    ensures
        parsed(r) == parse_alternatives(text@, tokens@, i as nat, syntaxes(acc@)),
        r matches Ok((_, next)) ==> i < next <= tokens@.len(),
    decreases remaining(tokens@.len(), i as nat), 3nat,
{
    let mut acc = acc;
    let empty: Vec<Expression> = Vec::new();
    assert(syntaxes(empty@) =~= Seq::empty());
    match read_terms(text, tokens, i, empty) {
        Err(offset) => Err(offset),
        Ok((alternative, next)) => {
            let ghost before = acc@;
            acc.push(alternative);
            proof {
                assert(acc@.drop_last() =~= before);
                assert(syntaxes(acc@) == syntaxes(before).push(alternative@));
                lemma_syntaxes(acc@);
            }
            let bar = next < tokens.len() && match tokens[next].kind {
                Lexeme::Bar => true,
                _ => false,
            };
            let closed = next < tokens.len() && match tokens[next].kind {
                Lexeme::CloseParen => true,
                _ => false,
            };
            if bar {
                read_alternatives(text, tokens, next + 1, acc)
            } else if closed && acc.len() >= 2 {
                Ok((Expression::Alternation(acc), next + 1))
            } else {
                Err(offset_of(text, tokens, next))
            }
        },
    }
}

/// The model of what reading one rule hands back.
pub open spec fn parsed_rule(r: Result<(GrammarRule, usize), usize>) -> Result<
    (RuleSyntax, nat),
    nat,
> {
    match r {
        Ok((rule, next)) => Ok((rule@, next as nat)),
        Err(offset) => Err(offset as nat),
    }
}

fn read_rule(text: &[u8], tokens: &Vec<GrammarToken>, i: usize) -> (r: Result<
    (GrammarRule, usize),
    usize,
>)
    requires
        lexemes_fit(tokens@, text@.len()),
    ensures
        parsed_rule(r) == parse_rule(text@, tokens@, i as nat),
        r matches Ok((_, next)) ==> i < next <= tokens@.len(),
{
    let named = i < tokens.len() && match tokens[i].kind {
        Lexeme::Identifier => true,
        _ => false,
    };
    if !named {
        return Err(offset_of(text, tokens, i));
    }
    let defined = i + 1 < tokens.len() && match tokens[i + 1].kind {
        Lexeme::Equals => true,
        _ => false,
    };
    if !defined {
        return Err(offset_of(text, tokens, i + 1));
    }
    let empty: Vec<Expression> = Vec::new();
    assert(syntaxes(empty@) =~= Seq::empty());
    match read_terms(text, tokens, i + 2, empty) {
        Err(offset) => Err(offset),
        Ok((body, next)) => {
            let ended = next < tokens.len() && match tokens[next].kind {
                Lexeme::Semicolon => true,
                _ => false,
            };
            if ended {
                let name = read_name(text, tokens[i].start, tokens[i].end);
                Ok((GrammarRule { name, body, offset: tokens[i].start }, next + 1))
            } else {
                Err(offset_of(text, tokens, next))
            }
        },
    }
}

fn find_repeat(rules: &Vec<GrammarRule>) -> (r: Option<usize>)
    ensures
        match first_repeat(rule_syntaxes(rules@), 0) {
            Some(k) => r == Some(k as usize) && k < rules@.len(),
            None => r is None,
        },
{
    let ghost model = rule_syntaxes(rules@);
    let mut k: usize = 0;
    while k < rules.len()
        invariant
            k <= rules@.len(),
            model == rule_syntaxes(rules@),
            first_repeat(model, 0) == first_repeat(model, k as nat),
        decreases rules@.len() - k,
    {
        let mut i: usize = 0;
        while i < k
            invariant
                i <= k < rules@.len(),
                model == rule_syntaxes(rules@),
                first_repeat(model, 0) == first_repeat(model, k as nat),
                forall|j: int| 0 <= j < i ==> (#[trigger] model[j]).name != model[k as int].name,
            decreases k - i,
        {
            if same_name(&rules[i].name, &rules[k].name) {
                assert(model[i as int].name == model[k as int].name);
                assert(repeats(model, k as int));
                assert(first_repeat(model, k as nat) == Some(k as nat));
                return Some(k);
            }
            i += 1;
        }
        assert(!repeats(model, k as int));
        k += 1;
    }
    None
}

/// The model of what `parse_grammar` hands back.
pub open spec fn grammar_view(r: Result<Vec<GrammarRule>, BNFCompileError>) -> Result<
    Seq<RuleSyntax>,
    CompileFault,
> {
    match r {
        Ok(rules) => Ok(rule_syntaxes(rules@)),
        Err(e) => Err(e@),
    }
}

/// What `grammar_of` found, with the offset as the error that carries it.
pub open spec fn syntax_result(found: Result<Seq<RuleSyntax>, nat>) -> Result<
    Seq<RuleSyntax>,
    CompileFault,
> {
    match found {
        Ok(rules) => Ok(rules),
        Err(offset) => Err(CompileFault::ParseError(Fault::UnexpectedToken(offset))),
    }
}

fn syntax_error(offset: usize) -> (e: BNFCompileError)
    ensures
        e@ == CompileFault::ParseError(Fault::UnexpectedToken(offset as nat)),
{
    BNFCompileError::ParseError(ParseError::UnexpectedToken(offset))
}

/// Reads the rule definitions of a grammar text.
pub fn parse_grammar(text: &str) -> (r: Result<Vec<GrammarRule>, BNFCompileError>)
    ensures
        grammar_view(r) == syntax_result(grammar_of(text.spec_bytes())),
        r matches Ok(rules) ==> rules@.len() > 0 && distinct_names(rule_syntaxes(rules@)),
{
    let bytes = text.as_bytes();
    let tokens = match lex(bytes) {
        Ok(tokens) => tokens,
        Err(offset) => {
            return Err(syntax_error(offset));
        },
    };
    let mut rules: Vec<GrammarRule> = Vec::new();
    let mut i: usize = 0;
    assert(rule_syntaxes(rules@) =~= Seq::empty());
    while i < tokens.len()
        invariant
            i <= tokens@.len(),
            lexemes_fit(tokens@, bytes@.len()),
            bytes@ == text.spec_bytes(),
            lexemes_from(bytes@, 0) == Ok::<Seq<GrammarToken>, nat>(tokens@),
            i == 0 ==> rules@.len() == 0,
            parse_rules(bytes@, tokens@, 0, Seq::empty()) == parse_rules(
                bytes@,
                tokens@,
                i as nat,
                rule_syntaxes(rules@),
            ),
        decreases tokens@.len() - i,
    {
        match read_rule(bytes, &tokens, i) {
            Err(offset) => {
                assert(parse_rules(bytes@, tokens@, i as nat, rule_syntaxes(rules@)) == Err::<
                    Seq<RuleSyntax>,
                    nat,
                >(offset as nat));
                return Err(syntax_error(offset));
            },
            Ok((rule, next)) => {
                let ghost before = rule_syntaxes(rules@);
                rules.push(rule);
                assert(rule_syntaxes(rules@) =~= before.push(rule@));
                i = next;
            },
        }
    }
    if rules.len() == 0 {
        return Err(syntax_error(bytes.len()));
    }
    proof {
        lemma_first_repeat(rule_syntaxes(rules@), 0);
    }
    match find_repeat(&rules) {
        Some(k) => Err(syntax_error(rules[k].offset)),
        None => Ok(rules),
    }
}

} // verus!
