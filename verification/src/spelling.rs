//! What reading says of the text: its lexemes lie in it in their order with
//! blanks between them, and the rules that were read, written out again,
//! are those lexemes.
use crate::grammar_text::{
    distinct_names, first_repeat, grammar_of, is_name_byte, is_space, lemma_first_repeat,
    lemma_name_end,
    lexemes_from, name_end, name_of, parse_alternatives, parse_rule, parse_rules, parse_term,
    parse_terms, punctuation, repeats, starts_term, GrammarToken, Lexeme, RuleSyntax, Syntax,
};
use crate::state_machine::remaining;
use vstd::prelude::*;

verus! {

/// All bytes of the text from `from` to `to` are blanks.
pub open spec fn blank(text: Seq<u8>, from: nat, to: nat) -> bool {
    forall|k: int| from <= k < to ==> is_space(#[trigger] text[k])
}

/// The bytes of `token` are what its kind says: one byte that stands for
/// the mark, or a run of name bytes that goes on as far as name bytes do.
pub open spec fn well_spelled(text: Seq<u8>, token: GrammarToken) -> bool {
    &&& token.start < token.end <= text.len()
    &&& if token.kind is Identifier {
        &&& forall|k: int| token.start <= k < token.end ==> is_name_byte(#[trigger] text[k])
        &&& token.end < text.len() ==> !is_name_byte(text[token.end as int])
    } else {
        &&& token.end == token.start + 1
        &&& punctuation(text[token.start as int]) == Some(token.kind)
    }
}

/// The lexemes lie in the text from `from` on in their order, every one
/// well spelled, with nothing but blanks before, between and behind them.
pub open spec fn laid_out(text: Seq<u8>, tokens: Seq<GrammarToken>, from: nat) -> bool
    decreases tokens.len(),
{
    if tokens.len() == 0 {
        blank(text, from, text.len())
    } else {
        &&& from <= tokens[0].start
        &&& blank(text, from, tokens[0].start as nat)
        &&& well_spelled(text, tokens[0])
        &&& laid_out(text, tokens.subrange(1, tokens.len() as int), tokens[0].end as nat)
    }
}

/// A run of name bytes holds name bytes only and ends where they end.
pub proof fn lemma_name_run(text: Seq<u8>, pos: nat)
    requires
        pos <= text.len(),
    ensures
        forall|k: int| pos <= k < name_end(text, pos) ==> is_name_byte(#[trigger] text[k]),
        name_end(text, pos) < text.len() ==> !is_name_byte(text[name_end(text, pos) as int]),
    decreases text.len() - pos,
{
    if pos < text.len() && is_name_byte(text[pos as int]) {
        lemma_name_run(text, pos + 1);
    }
}

/// The lexemes of a text lie in it in their order with blanks between
/// them; where there are none, the byte at the offset is the first from
/// `pos` on that is neither a blank nor part of a lexeme.
pub proof fn lemma_lexemes_laid_out(text: Seq<u8>, pos: nat)
    requires
        pos <= text.len() <= usize::MAX,
    ensures
        match lexemes_from(text, pos) {
            Ok(tokens) => laid_out(text, tokens, pos),
            Err(offset) => {
                &&& pos <= offset < text.len()
                &&& !is_space(text[offset as int])
                &&& !is_name_byte(text[offset as int])
                &&& punctuation(text[offset as int]) is None
            },
        },
    decreases text.len() - pos,
{
    if pos < text.len() {
        let b = text[pos as int];
        if is_space(b) {
            lemma_lexemes_laid_out(text, pos + 1);
            if let Ok(tokens) = lexemes_from(text, pos + 1) {
                if tokens.len() == 0 {
                    assert(blank(text, pos, text.len()));
                } else {
                    assert(blank(text, pos, tokens[0].start as nat));
                }
            }
        } else if let Some(kind) = punctuation(b) {
            lemma_lexemes_laid_out(text, pos + 1);
            if let Ok(rest) = lexemes_from(text, pos + 1) {
                let token = GrammarToken { kind, start: pos as usize, end: (pos + 1) as usize };
                let tokens = seq![token] + rest;
                assert(tokens.subrange(1, tokens.len() as int) =~= rest);
                assert(well_spelled(text, token));
            }
        } else if is_name_byte(b) {
            lemma_name_end(text, pos + 1);
            lemma_name_run(text, pos + 1);
            let end = name_end(text, pos + 1);
            lemma_lexemes_laid_out(text, end);
            if let Ok(rest) = lexemes_from(text, end) {
                let token = GrammarToken {
                    kind: Lexeme::Identifier,
                    start: pos as usize,
                    end: end as usize,
                };
                let tokens = seq![token] + rest;
                assert(tokens.subrange(1, tokens.len() as int) =~= rest);
                assert(well_spelled(text, token));
            }
        }
    }
}

/// A lexeme as the syntax sees it: an identifier with its name, or a mark.
pub enum Word {
    Name(Seq<char>),
    Mark(Lexeme),
}

/// Lexeme `i` of the text as a word.
pub open spec fn word_at(text: Seq<u8>, tokens: Seq<GrammarToken>, i: int) -> Word {
    if tokens[i].kind is Identifier {
        Word::Name(name_of(text, tokens[i].start as nat, tokens[i].end as nat))
    } else {
        Word::Mark(tokens[i].kind)
    }
}

/// The lexemes `from` to `to` of the text as words.
pub open spec fn words(text: Seq<u8>, tokens: Seq<GrammarToken>, from: nat, to: nat) -> Seq<Word> {
    Seq::new((to - from) as nat, |k: int| word_at(text, tokens, from + k))
}

/// An expression written out.
pub open spec fn spelled(e: Syntax) -> Seq<Word>
    decreases e,
{
    match e {
        Syntax::Symbol(name) => seq![Word::Name(name)],
        Syntax::Sequence(members) => spelled_members(members),
        Syntax::Alternation(alternatives) => seq![Word::Mark(Lexeme::OpenParen)]
            + spelled_alternatives(alternatives) + seq![Word::Mark(Lexeme::CloseParen)],
        Syntax::Repetition(body) => seq![Word::Mark(Lexeme::OpenBrace)] + spelled(*body)
            + seq![Word::Mark(Lexeme::CloseBrace)],
    }
}

/// The members of a sequence written out one after the other.
pub open spec fn spelled_members(members: Seq<Syntax>) -> Seq<Word>
    decreases members,
{
    if members.len() == 0 {
        Seq::empty()
    } else {
        spelled_members(members.drop_last()) + spelled(members.last())
    }
}

/// The alternatives of a choice written out with a bar between them.
pub open spec fn spelled_alternatives(alternatives: Seq<Syntax>) -> Seq<Word>
    decreases alternatives,
{
    if alternatives.len() == 0 {
        Seq::empty()
    } else if alternatives.len() == 1 {
        spelled(alternatives[0])
    } else {
        spelled_alternatives(alternatives.drop_last()) + seq![Word::Mark(Lexeme::Bar)] + spelled(
            alternatives.last(),
        )
    }
}

/// A rule definition written out.
pub open spec fn spelled_rule(rule: RuleSyntax) -> Seq<Word> {
    seq![Word::Name(rule.name), Word::Mark(Lexeme::Equals)] + spelled(rule.body) + seq![
        Word::Mark(Lexeme::Semicolon),
    ]
}

/// Rule definitions written out one after the other.
pub open spec fn spelled_rules(rules: Seq<RuleSyntax>) -> Seq<Word>
    decreases rules.len(),
{
    if rules.len() == 0 {
        Seq::empty()
    } else {
        spelled_rules(rules.drop_last()) + spelled_rule(rules.last())
    }
}

/// What stands before the next alternative of a choice: nothing before the
/// first one, and the earlier ones with a bar behind them before the others.
pub open spec fn spelled_so_far(acc: Seq<Syntax>) -> Seq<Word> {
    if acc.len() == 0 {
        Seq::empty()
    } else {
        spelled_alternatives(acc) + seq![Word::Mark(Lexeme::Bar)]
    }
}

/// Words that follow one another can be taken together.
pub proof fn lemma_words_join(
    text: Seq<u8>,
    tokens: Seq<GrammarToken>,
    from: nat,
    mid: nat,
    to: nat,
)
    requires
        from <= mid <= to,
    ensures
        words(text, tokens, from, mid) + words(text, tokens, mid, to) == words(
            text,
            tokens,
            from,
            to,
        ),
{
    assert(words(text, tokens, from, mid) + words(text, tokens, mid, to) =~= words(
        text,
        tokens,
        from,
        to,
    ));
}

/// One lexeme is one word.
pub proof fn lemma_one_word(text: Seq<u8>, tokens: Seq<GrammarToken>, i: nat)
    ensures
        words(text, tokens, i, i + 1) == seq![word_at(text, tokens, i as int)],
        words(text, tokens, i, i) == Seq::<Word>::empty(),
{
    assert(words(text, tokens, i, i + 1) =~= seq![word_at(text, tokens, i as int)]);
    assert(words(text, tokens, i, i) =~= Seq::<Word>::empty());
}

/// The terms that were read, written out, are the lexemes that they were
/// read from.
pub proof fn lemma_terms_spelled(
    text: Seq<u8>,
    tokens: Seq<GrammarToken>,
    i: nat,
    acc: Seq<Syntax>,
)
    requires
        i <= tokens.len(),
    ensures
        parse_terms(text, tokens, i, acc) matches Ok((e, next)) ==> {
            &&& i <= next <= tokens.len()
            &&& spelled(e) == spelled_members(acc) + words(text, tokens, i, next)
        },
    decreases remaining(tokens.len(), i), 2nat,
{
    lemma_one_word(text, tokens, i);
    if i < tokens.len() && starts_term(tokens[i as int].kind) {
        lemma_term_spelled(text, tokens, i);
        if let Ok((term, next)) = parse_term(text, tokens, i) {
            if next > i {
                lemma_terms_spelled(text, tokens, next, acc.push(term));
                if let Ok((e, last)) = parse_terms(text, tokens, next, acc.push(term)) {
                    assert(acc.push(term).drop_last() =~= acc);
                    lemma_words_join(text, tokens, i, next, last);
                    assert(spelled_members(acc.push(term)) == spelled_members(acc) + spelled(term));
                    assert(spelled(e) =~= spelled_members(acc) + words(text, tokens, i, last));
                }
            }
        }
    } else if acc.len() > 0 {
        assert(spelled_members(acc) + Seq::<Word>::empty() =~= spelled_members(acc));
    }
}

/// The same for one term.
pub proof fn lemma_term_spelled(text: Seq<u8>, tokens: Seq<GrammarToken>, i: nat)
    ensures
        parse_term(text, tokens, i) matches Ok((e, next)) ==> {
            &&& i < next <= tokens.len()
            &&& spelled(e) == words(text, tokens, i, next)
        },
    decreases remaining(tokens.len(), i), 1nat,
{
    if i < tokens.len() {
        let token = tokens[i as int];
        lemma_one_word(text, tokens, i);
        match token.kind {
            Lexeme::Identifier => {},
            Lexeme::OpenBrace => {
                lemma_terms_spelled(text, tokens, i + 1, Seq::empty());
                if let Ok((body, next)) = parse_terms(text, tokens, i + 1, Seq::empty()) {
                    if next < tokens.len() && tokens[next as int].kind is CloseBrace {
                        lemma_one_word(text, tokens, next);
                        lemma_words_join(text, tokens, i, i + 1, next);
                        lemma_words_join(text, tokens, i, next, next + 1);
                        assert(spelled_members(Seq::<Syntax>::empty()) + words(
                            text,
                            tokens,
                            i + 1,
                            next,
                        ) =~= words(text, tokens, i + 1, next));
                    }
                }
            },
            Lexeme::OpenParen => {
                lemma_alternatives_spelled(text, tokens, i + 1, Seq::empty());
                if let Ok((e, next)) = parse_alternatives(text, tokens, i + 1, Seq::empty()) {
                    lemma_words_join(text, tokens, i, i + 1, next);
                    let inner = e->Alternation_0;
                    assert(seq![Word::Mark(Lexeme::OpenParen)] + spelled_alternatives(inner)
                        + seq![Word::Mark(Lexeme::CloseParen)] =~= seq![
                        Word::Mark(Lexeme::OpenParen),
                    ] + (spelled_alternatives(inner) + seq![Word::Mark(Lexeme::CloseParen)]));
                    assert(Seq::<Word>::empty() + words(text, tokens, i + 1, next) =~= words(
                        text,
                        tokens,
                        i + 1,
                        next,
                    ));
                }
            },
            _ => {},
        }
    }
}

/// The same for the alternatives of a choice, up to and with its closing
/// parenthesis.
pub proof fn lemma_alternatives_spelled(
    text: Seq<u8>,
    tokens: Seq<GrammarToken>,
    i: nat,
    acc: Seq<Syntax>,
)
    requires
        i <= tokens.len(),
    ensures
        parse_alternatives(text, tokens, i, acc) matches Ok((e, next)) ==> {
            &&& i < next <= tokens.len()
            &&& e is Alternation
            &&& spelled_alternatives(e->Alternation_0) + seq![Word::Mark(Lexeme::CloseParen)]
                == spelled_so_far(acc) + words(text, tokens, i, next)
        },
    decreases remaining(tokens.len(), i), 3nat,
{
    lemma_terms_spelled(text, tokens, i, Seq::empty());
    if let Ok((alternative, next)) = parse_terms(text, tokens, i, Seq::empty()) {
        let all = acc.push(alternative);
        assert(all.drop_last() =~= acc);
        assert(spelled(alternative) =~= words(text, tokens, i, next)) by {
            assert(spelled_members(Seq::<Syntax>::empty()) + words(text, tokens, i, next) =~= words(
                text,
                tokens,
                i,
                next,
            ));
        }
        assert(spelled_alternatives(all) =~= spelled_so_far(acc) + spelled(alternative)) by {
            if acc.len() == 0 {
                assert(all[0] == alternative);
                assert(Seq::<Word>::empty() + spelled(alternative) =~= spelled(alternative));
            }
        }
        lemma_one_word(text, tokens, next);
        if next < tokens.len() && tokens[next as int].kind is Bar && next >= i {
            lemma_alternatives_spelled(text, tokens, next + 1, all);
            if let Ok((e, last)) = parse_alternatives(text, tokens, next + 1, all) {
                lemma_words_join(text, tokens, i, next, next + 1);
                lemma_words_join(text, tokens, i, next + 1, last);
                assert(spelled_so_far(all) + words(text, tokens, next + 1, last) =~= spelled_so_far(
                    acc,
                ) + words(text, tokens, i, last));
            }
        } else if next < tokens.len() && tokens[next as int].kind is CloseParen && all.len() >= 2 {
            lemma_words_join(text, tokens, i, next, next + 1);
            assert(spelled_alternatives(all) + seq![Word::Mark(Lexeme::CloseParen)]
                =~= spelled_so_far(acc) + words(text, tokens, i, next + 1));
        }
    }
}

/// The same for one rule definition.
pub proof fn lemma_rule_spelled(text: Seq<u8>, tokens: Seq<GrammarToken>, i: nat)
    ensures
        parse_rule(text, tokens, i) matches Ok((rule, next)) ==> {
            &&& i < next <= tokens.len()
            &&& spelled_rule(rule) == words(text, tokens, i, next)
        },
{
    if let Ok((rule, next)) = parse_rule(text, tokens, i) {
        lemma_terms_spelled(text, tokens, i + 2, Seq::empty());
        let body_end = (next - 1) as nat;
        lemma_one_word(text, tokens, i);
        lemma_one_word(text, tokens, i + 1);
        lemma_one_word(text, tokens, body_end);
        lemma_words_join(text, tokens, i, i + 1, i + 2);
        lemma_words_join(text, tokens, i, i + 2, body_end);
        lemma_words_join(text, tokens, i, body_end, next);
        assert(spelled_members(Seq::<Syntax>::empty()) + words(text, tokens, i + 2, body_end)
            =~= words(text, tokens, i + 2, body_end));
        assert(words(text, tokens, i, i + 2) =~= seq![
            Word::Name(rule.name),
            Word::Mark(Lexeme::Equals),
        ]);
    }
}

/// The same for all rule definitions.
pub proof fn lemma_rules_spelled(
    text: Seq<u8>,
    tokens: Seq<GrammarToken>,
    i: nat,
    acc: Seq<RuleSyntax>,
)
    requires
        i <= tokens.len(),
    ensures
        parse_rules(text, tokens, i, acc) matches Ok(rules) ==> spelled_rules(rules)
            == spelled_rules(acc) + words(text, tokens, i, tokens.len()),
    decreases remaining(tokens.len(), i),
{
    lemma_one_word(text, tokens, i);
    if i >= tokens.len() {
        assert(spelled_rules(acc) + Seq::<Word>::empty() =~= spelled_rules(acc));
    } else {
        lemma_rule_spelled(text, tokens, i);
        if let Ok((rule, next)) = parse_rule(text, tokens, i) {
            if next > i {
                lemma_rules_spelled(text, tokens, next, acc.push(rule));
                assert(acc.push(rule).drop_last() =~= acc);
                lemma_words_join(text, tokens, i, next, tokens.len());
                assert(spelled_rules(acc.push(rule)) == spelled_rules(acc) + spelled_rule(rule));
                assert((spelled_rules(acc) + spelled_rule(rule)) + words(
                    text,
                    tokens,
                    next,
                    tokens.len(),
                ) =~= spelled_rules(acc) + words(text, tokens, i, tokens.len()));
            }
        }
    }
}

/// The rules that are read from a text are rules of that text: written out
/// again, lexeme for lexeme, they are the text without its blanks.
pub proof fn lemma_grammar_spelled(text: Seq<u8>)
    ensures
        grammar_of(text) matches Ok(rules) ==> lexemes_from(text, 0) matches Ok(tokens)
            && spelled_rules(rules) == words(text, tokens, 0, tokens.len()),
{
    if let Ok(tokens) = lexemes_from(text, 0) {
        lemma_rules_spelled(text, tokens, 0, Seq::empty());
        assert(spelled_rules(Seq::<RuleSyntax>::empty()) + words(text, tokens, 0, tokens.len())
            =~= words(text, tokens, 0, tokens.len()));
    }
}

// ---------------------------------------------------------------------------
// Every text of the syntax is read
// ---------------------------------------------------------------------------
/// `e` is a term of the syntax: an identifier, a choice between two or more
/// expressions, or the repetition of an expression.
pub open spec fn is_term(e: Syntax) -> bool
    decreases e,
{
    match e {
        Syntax::Symbol(_) => true,
        Syntax::Sequence(_) => false,
        Syntax::Alternation(alternatives) => alternatives.len() >= 2 && are_expressions(
            alternatives,
        ),
        Syntax::Repetition(body) => is_expression(*body),
    }
}

/// `e` is an expression of the syntax: one or more terms.
pub open spec fn is_expression(e: Syntax) -> bool
    decreases e,
{
    match e {
        Syntax::Sequence(members) => members.len() >= 1 && are_terms(members),
        _ => false,
    }
}

/// All of `members` are terms.
pub open spec fn are_terms(members: Seq<Syntax>) -> bool
    decreases members,
{
    members.len() == 0 || (is_term(members[0]) && are_terms(
        members.subrange(1, members.len() as int),
    ))
}

/// All of `alternatives` are expressions.
pub open spec fn are_expressions(alternatives: Seq<Syntax>) -> bool
    decreases alternatives,
{
    alternatives.len() == 0 || (is_expression(alternatives[0]) && are_expressions(
        alternatives.subrange(1, alternatives.len() as int),
    ))
}

/// The members of a sequence written out: the first one, then the others.
pub proof fn lemma_members_front(members: Seq<Syntax>)
    requires
        members.len() > 0,
    ensures
        spelled_members(members) == spelled(members[0]) + spelled_members(
            members.subrange(1, members.len() as int),
        ),
    decreases members.len(),
{
    let rest = members.subrange(1, members.len() as int);
    if members.len() == 1 {
        assert(members.drop_last() =~= Seq::<Syntax>::empty());
        assert(rest =~= Seq::<Syntax>::empty());
        assert(spelled_members(members) =~= spelled(members[0]) + spelled_members(rest));
    } else {
        lemma_members_front(members.drop_last());
        assert(members.drop_last().subrange(1, members.len() - 1) =~= rest.drop_last());
        assert(rest.last() == members.last());
        assert(spelled_members(rest) == spelled_members(rest.drop_last()) + spelled(rest.last()));
        assert(spelled_members(members) =~= spelled(members[0]) + spelled_members(rest));
    }
}

/// The alternatives of a choice written out: the first one, then a bar and
/// the others, where there are others.
pub proof fn lemma_alternatives_front(alternatives: Seq<Syntax>)
    requires
        alternatives.len() > 0,
    ensures
        alternatives.len() == 1 ==> spelled_alternatives(alternatives) == spelled(
            alternatives[0],
        ),
        alternatives.len() > 1 ==> spelled_alternatives(alternatives) == spelled(alternatives[0])
            + seq![Word::Mark(Lexeme::Bar)] + spelled_alternatives(
            alternatives.subrange(1, alternatives.len() as int),
        ),
    decreases alternatives.len(),
{
    let rest = alternatives.subrange(1, alternatives.len() as int);
    if alternatives.len() == 2 {
        assert(alternatives.drop_last().len() == 1);
        assert(alternatives.drop_last()[0] == alternatives[0]);
        assert(rest.len() == 1);
        assert(rest[0] == alternatives.last());
        assert(spelled_alternatives(alternatives.drop_last()) == spelled(alternatives[0]));
        assert(spelled_alternatives(rest) == spelled(rest[0]));
        assert(spelled_alternatives(alternatives) == spelled_alternatives(
            alternatives.drop_last(),
        ) + seq![Word::Mark(Lexeme::Bar)] + spelled(alternatives.last()));
    } else if alternatives.len() > 2 {
        lemma_alternatives_front(alternatives.drop_last());
        assert(alternatives.drop_last().subrange(1, alternatives.len() - 1) =~= rest.drop_last());
        assert(rest.last() == alternatives.last());
        assert(alternatives.drop_last()[0] == alternatives[0]);
        assert(spelled_alternatives(rest) == spelled_alternatives(rest.drop_last()) + seq![
            Word::Mark(Lexeme::Bar),
        ] + spelled(rest.last()));
        assert(spelled_alternatives(alternatives) =~= spelled(alternatives[0]) + seq![
            Word::Mark(Lexeme::Bar),
        ] + spelled_alternatives(rest));
    }
}

/// Where the words from `from` to `to` are `first` and then `rest`, the
/// words up to the length of `first` are `first` and the others are `rest`.
pub proof fn lemma_words_split(
    text: Seq<u8>,
    tokens: Seq<GrammarToken>,
    from: nat,
    to: nat,
    first: Seq<Word>,
    rest: Seq<Word>,
)
    requires
        from <= to,
        words(text, tokens, from, to) == first + rest,
    ensures
        from + first.len() + rest.len() == to,
        words(text, tokens, from, from + first.len()) == first,
        words(text, tokens, from + first.len(), to) == rest,
{
    let all = words(text, tokens, from, to);
    let mid = from + first.len();
    assert(all.len() == first.len() + rest.len());
    assert forall|k: int| 0 <= k < first.len() implies words(text, tokens, from, mid)[k]
        == first[k] by {
        assert(all[k] == first[k]);
    }
    assert(words(text, tokens, from, mid) =~= first);
    assert forall|k: int| 0 <= k < rest.len() implies words(text, tokens, mid, to)[k]
        == rest[k] by {
        assert(all[first.len() + k] == rest[k]);
    }
    assert(words(text, tokens, mid, to) =~= rest);
}

/// A term begins with a lexeme that begins a term.
pub proof fn lemma_term_begins(text: Seq<u8>, tokens: Seq<GrammarToken>, i: nat, to: nat, e: Syntax)
    requires
        is_term(e),
        i <= to <= tokens.len(),
        words(text, tokens, i, to) == spelled(e),
    ensures
        i < to,
        starts_term(tokens[i as int].kind),
{
    let w = words(text, tokens, i, to);
    assert(w.len() == to - i);
    match e {
        Syntax::Symbol(name) => {
            assert(spelled(e) == seq![Word::Name(name)]);
            assert(spelled(e).len() == 1);
            assert(w[0] == word_at(text, tokens, i as int));
            assert(w[0] == Word::Name(name));
        },
        Syntax::Sequence(_) => {},
        Syntax::Alternation(alternatives) => {
            assert(spelled(e) == seq![Word::Mark(Lexeme::OpenParen)] + spelled_alternatives(
                alternatives,
            ) + seq![Word::Mark(Lexeme::CloseParen)]);
            assert(spelled(e).len() >= 2);
            assert(spelled(e)[0] == Word::Mark(Lexeme::OpenParen));
            assert(w[0] == word_at(text, tokens, i as int));
        },
        Syntax::Repetition(body) => {
            assert(spelled(e) == seq![Word::Mark(Lexeme::OpenBrace)] + spelled(*body) + seq![
                Word::Mark(Lexeme::CloseBrace),
            ]);
            assert(spelled(e).len() >= 2);
            assert(spelled(e)[0] == Word::Mark(Lexeme::OpenBrace));
            assert(w[0] == word_at(text, tokens, i as int));
        },
    }
}

/// Terms that are written from lexeme `i` to lexeme `to`, with no term
/// behind them, are read as they are written.
pub proof fn lemma_terms_read(
    text: Seq<u8>,
    tokens: Seq<GrammarToken>,
    i: nat,
    acc: Seq<Syntax>,
    members: Seq<Syntax>,
    to: nat,
)
    requires
        are_terms(members),
        acc.len() + members.len() >= 1,
        i <= to <= tokens.len(),
        words(text, tokens, i, to) == spelled_members(members),
        to < tokens.len() ==> !starts_term(tokens[to as int].kind),
    ensures
        parse_terms(text, tokens, i, acc) == Ok::<(Syntax, nat), nat>(
            (Syntax::Sequence(acc + members), to),
        ),
    decreases members,
{
    if members.len() == 0 {
        assert(words(text, tokens, i, to).len() == 0);
        assert(acc + members =~= acc);
    } else {
        let first = members[0];
        let rest = members.subrange(1, members.len() as int);
        lemma_members_front(members);
        lemma_words_split(text, tokens, i, to, spelled(first), spelled_members(rest));
        let mid = i + spelled(first).len();
        lemma_term_begins(text, tokens, i, mid, first);
        lemma_term_read(text, tokens, i, first, mid);
        lemma_terms_read(text, tokens, mid, acc.push(first), rest, to);
        assert(acc.push(first) + rest =~= acc + members);
    }
}

/// A term that is written from lexeme `i` to lexeme `to` is read as it is
/// written.
pub proof fn lemma_term_read(
    text: Seq<u8>,
    tokens: Seq<GrammarToken>,
    i: nat,
    e: Syntax,
    to: nat,
)
    requires
        is_term(e),
        i <= to <= tokens.len(),
        words(text, tokens, i, to) == spelled(e),
    ensures
        parse_term(text, tokens, i) == Ok::<(Syntax, nat), nat>((e, to)),
    decreases e,
{
    let w = words(text, tokens, i, to);
    lemma_term_begins(text, tokens, i, to, e);
    assert(w[0] == word_at(text, tokens, i as int));
    match e {
        Syntax::Symbol(name) => {
            assert(spelled(e) == seq![Word::Name(name)]);
            assert(w[0] == Word::Name(name));
            assert(to == i + 1);
            assert(parse_term(text, tokens, i) == Ok::<(Syntax, nat), nat>((e, to)));
        },
        Syntax::Sequence(_) => {},
        Syntax::Alternation(alternatives) => {
            let open = seq![Word::Mark(Lexeme::OpenParen)];
            let inside = spelled_alternatives(alternatives) + seq![Word::Mark(Lexeme::CloseParen)];
            assert(spelled(e) =~= open + inside);
            lemma_words_split(text, tokens, i, to, open, inside);
            assert(spelled(e)[0] == Word::Mark(Lexeme::OpenParen));
            lemma_alternatives_read(text, tokens, i + 1, Seq::empty(), alternatives, to);
            assert(Seq::<Syntax>::empty() + alternatives =~= alternatives);
            assert(tokens[i as int].kind is OpenParen);
            assert(parse_term(text, tokens, i) == Ok::<(Syntax, nat), nat>((e, to)));
        },
        Syntax::Repetition(body) => {
            let open = seq![Word::Mark(Lexeme::OpenBrace)];
            let close = seq![Word::Mark(Lexeme::CloseBrace)];
            let inside = spelled(*body) + close;
            assert(spelled(e) =~= open + inside);
            assert(spelled(e)[0] == Word::Mark(Lexeme::OpenBrace));
            lemma_words_split(text, tokens, i, to, open, inside);
            lemma_words_split(text, tokens, i + 1, to, spelled(*body), close);
            let end = (to - 1) as nat;
            assert(words(text, tokens, end, to)[0] == word_at(text, tokens, end as int));
            assert(tokens[end as int].kind is CloseBrace);
            assert(is_expression(*body));
            match *body {
                Syntax::Sequence(members) => {
                    lemma_terms_read(text, tokens, i + 1, Seq::empty(), members, end);
                    assert(Seq::<Syntax>::empty() + members =~= members);
                    assert(tokens[i as int].kind is OpenBrace);
                    assert(parse_terms(text, tokens, i + 1, Seq::empty()) == Ok::<
                        (Syntax, nat),
                        nat,
                    >((*body, end)));
                    assert(parse_term(text, tokens, i) == Ok::<(Syntax, nat), nat>((e, to)));
                },
                _ => {},
            }
        },
    }
}

/// The alternatives of a choice that are written from lexeme `i` on, with
/// the closing parenthesis as lexeme `to - 1`, are read as they are written.
pub proof fn lemma_alternatives_read(
    text: Seq<u8>,
    tokens: Seq<GrammarToken>,
    i: nat,
    acc: Seq<Syntax>,
    alternatives: Seq<Syntax>,
    to: nat,
)
    requires
        are_expressions(alternatives),
        alternatives.len() >= 1,
        acc.len() + alternatives.len() >= 2,
        i <= to <= tokens.len(),
        words(text, tokens, i, to) == spelled_alternatives(alternatives) + seq![
            Word::Mark(Lexeme::CloseParen),
        ],
    ensures
        parse_alternatives(text, tokens, i, acc) == Ok::<(Syntax, nat), nat>(
            (Syntax::Alternation(acc + alternatives), to),
        ),
    decreases alternatives,
{
    let first = alternatives[0];
    let rest = alternatives.subrange(1, alternatives.len() as int);
    let close = seq![Word::Mark(Lexeme::CloseParen)];
    let bar = seq![Word::Mark(Lexeme::Bar)];
    lemma_alternatives_front(alternatives);
    assert(is_expression(first));
    assert(are_expressions(rest));
    match first {
        Syntax::Sequence(members) => {
            if alternatives.len() == 1 {
                lemma_words_split(text, tokens, i, to, spelled(first), close);
                let mid = i + spelled(first).len();
                assert(words(text, tokens, mid, to)[0] == word_at(text, tokens, mid as int));
                assert(tokens[mid as int].kind is CloseParen);
                lemma_terms_read(text, tokens, i, Seq::empty(), members, mid);
                assert(Seq::<Syntax>::empty() + members =~= members);
                assert(acc.push(first) =~= acc + alternatives);
            } else {
                let behind = bar + (spelled_alternatives(rest) + close);
                assert(spelled_alternatives(alternatives) + close =~= spelled(first) + behind);
                lemma_words_split(text, tokens, i, to, spelled(first), behind);
                let mid = i + spelled(first).len();
                lemma_words_split(text, tokens, mid, to, bar, spelled_alternatives(rest) + close);
                assert(words(text, tokens, mid, mid + 1)[0] == word_at(text, tokens, mid as int));
                assert(tokens[mid as int].kind is Bar);
                lemma_terms_read(text, tokens, i, Seq::empty(), members, mid);
                assert(Seq::<Syntax>::empty() + members =~= members);
                lemma_alternatives_read(text, tokens, mid + 1, acc.push(first), rest, to);
                assert(acc.push(first) + rest =~= acc + alternatives);
            }
        },
        _ => {},
    }
}

/// The body of every rule is an expression of the syntax.
pub open spec fn are_rules(rules: Seq<RuleSyntax>) -> bool {
    forall|k: int| 0 <= k < rules.len() ==> is_expression((#[trigger] rules[k]).body)
}

/// `found` are the rules `rules`, whatever the offsets say.
pub open spec fn same_rules(found: Seq<RuleSyntax>, rules: Seq<RuleSyntax>) -> bool {
    &&& found.len() == rules.len()
    &&& forall|k: int|
        0 <= k < rules.len() ==> (#[trigger] found[k]).name == rules[k].name && found[k].body
            == rules[k].body
}

/// Rule definitions written out: the first one, then the others.
pub proof fn lemma_rules_front(rules: Seq<RuleSyntax>)
    requires
        rules.len() > 0,
    ensures
        spelled_rules(rules) == spelled_rule(rules[0]) + spelled_rules(
            rules.subrange(1, rules.len() as int),
        ),
    decreases rules.len(),
{
    let rest = rules.subrange(1, rules.len() as int);
    if rules.len() == 1 {
        assert(rules.drop_last() =~= Seq::<RuleSyntax>::empty());
        assert(rest =~= Seq::<RuleSyntax>::empty());
        assert(spelled_rules(rules) =~= spelled_rule(rules[0]) + spelled_rules(rest));
    } else {
        lemma_rules_front(rules.drop_last());
        assert(rules.drop_last().subrange(1, rules.len() - 1) =~= rest.drop_last());
        assert(rest.last() == rules.last());
        assert(spelled_rules(rest) == spelled_rules(rest.drop_last()) + spelled_rule(rest.last()));
        assert(spelled_rules(rules) =~= spelled_rule(rules[0]) + spelled_rules(rest));
    }
}

/// A rule definition that is written from lexeme `i` to lexeme `to` is read
/// as it is written.
pub proof fn lemma_rule_read(
    text: Seq<u8>,
    tokens: Seq<GrammarToken>,
    i: nat,
    rule: RuleSyntax,
    to: nat,
)
    requires
        is_expression(rule.body),
        i <= to <= tokens.len(),
        words(text, tokens, i, to) == spelled_rule(rule),
    ensures
        parse_rule(text, tokens, i) matches Ok((found, next)) && next == to && found.name
            == rule.name && found.body == rule.body,
{
    let head = seq![Word::Name(rule.name), Word::Mark(Lexeme::Equals)];
    let end = seq![Word::Mark(Lexeme::Semicolon)];
    let w = words(text, tokens, i, to);
    assert(spelled_rule(rule) =~= head + (spelled(rule.body) + end));
    lemma_words_split(text, tokens, i, to, head, spelled(rule.body) + end);
    lemma_words_split(text, tokens, i + 2, to, spelled(rule.body), end);
    let last = (to - 1) as nat;
    assert(words(text, tokens, i, i + 2)[0] == word_at(text, tokens, i as int));
    assert(words(text, tokens, i, i + 2)[1] == word_at(text, tokens, (i + 1) as int));
    assert(head[0] == Word::Name(rule.name));
    assert(head[1] == Word::Mark(Lexeme::Equals));
    assert(words(text, tokens, last, to)[0] == word_at(text, tokens, last as int));
    assert(tokens[i as int].kind is Identifier);
    assert(tokens[(i + 1) as int].kind is Equals);
    assert(tokens[last as int].kind is Semicolon);
    match rule.body {
        Syntax::Sequence(members) => {
            lemma_terms_read(text, tokens, i + 2, Seq::empty(), members, last);
            assert(Seq::<Syntax>::empty() + members =~= members);
        },
        _ => {},
    }
}

/// Rule definitions that are written from lexeme `i` to the end are read as
/// they are written.
pub proof fn lemma_rules_read(
    text: Seq<u8>,
    tokens: Seq<GrammarToken>,
    i: nat,
    acc: Seq<RuleSyntax>,
    rules: Seq<RuleSyntax>,
)
    requires
        are_rules(rules),
        acc.len() + rules.len() >= 1,
        i <= tokens.len(),
        words(text, tokens, i, tokens.len()) == spelled_rules(rules),
    ensures
        parse_rules(text, tokens, i, acc) matches Ok(found) && found.len() == acc.len()
            + rules.len() && found.subrange(0, acc.len() as int) == acc && same_rules(
            found.subrange(acc.len() as int, found.len() as int),
            rules,
        ),
    decreases rules.len(),
{
    if rules.len() == 0 {
        assert(words(text, tokens, i, tokens.len()).len() == 0);
        assert(acc.subrange(0, acc.len() as int) =~= acc);
    } else {
        let first = rules[0];
        let rest = rules.subrange(1, rules.len() as int);
        lemma_rules_front(rules);
        lemma_words_split(text, tokens, i, tokens.len(), spelled_rule(first), spelled_rules(rest));
        let mid = i + spelled_rule(first).len();
        lemma_rule_read(text, tokens, i, first, mid);
        let read = parse_rule(text, tokens, i)->Ok_0.0;
        assert(mid > i);
        assert forall|k: int| 0 <= k < rest.len() implies is_expression(
            (#[trigger] rest[k]).body,
        ) by {
            assert(rest[k] == rules[k + 1]);
        }
        lemma_rules_read(text, tokens, mid, acc.push(read), rest);
        let found = parse_rules(text, tokens, i, acc)->Ok_0;
        let tail = found.subrange(acc.len() as int, found.len() as int);
        let inner = found.subrange((acc.len() + 1) as int, found.len() as int);
        assert(found.subrange(0, acc.len() as int) =~= found.subrange(
            0,
            (acc.len() + 1) as int,
        ).drop_last());
        assert(acc.push(read).drop_last() =~= acc);
        assert(tail[0] == found.subrange(0, (acc.len() + 1) as int).last());
        assert forall|k: int| 0 <= k < rules.len() implies (#[trigger] tail[k]).name
            == rules[k].name && tail[k].body == rules[k].body by {
            if k > 0 {
                assert(tail[k] == inner[k - 1]);
                assert(rest[k - 1] == rules[k]);
            }
        }
    }
}

/// Where no two rules share a name, no rule has the name of an earlier one.
pub proof fn lemma_no_repeat(rules: Seq<RuleSyntax>, from: nat)
    requires
        distinct_names(rules),
    ensures
        first_repeat(rules, from) is None,
    decreases rules.len() - from,
{
    if from < rules.len() {
        assert(!repeats(rules, from as int));
        lemma_no_repeat(rules, from + 1);
    }
}

/// Every text of the syntax is read as it is written: where the lexemes of
/// a text are one or more rule definitions with distinct names, written out,
/// those are the rules that are read from it.
pub proof fn lemma_grammar_read(text: Seq<u8>, rules: Seq<RuleSyntax>)
    requires
        rules.len() >= 1,
        are_rules(rules),
        distinct_names(rules),
        lexemes_from(text, 0) matches Ok(tokens) && words(text, tokens, 0, tokens.len())
            == spelled_rules(rules),
    ensures
        grammar_of(text) matches Ok(found) && same_rules(found, rules),
{
    let tokens = lexemes_from(text, 0)->Ok_0;
    lemma_rules_read(text, tokens, 0, Seq::empty(), rules);
    let found = parse_rules(text, tokens, 0, Seq::empty())->Ok_0;
    assert(found.subrange(0, found.len() as int) =~= found);
    assert forall|i: int, j: int| 0 <= i < j < found.len() implies (#[trigger] found[i]).name != (
    #[trigger] found[j]).name by {
        assert(found[i].name == rules[i].name);
        assert(found[j].name == rules[j].name);
    }
    lemma_no_repeat(found, 0);
}

/// Terms with one more term behind them are terms.
pub proof fn lemma_more_terms(members: Seq<Syntax>, last: Syntax)
    requires
        are_terms(members),
        is_term(last),
    ensures
        are_terms(members.push(last)),
    decreases members.len(),
{
    let all = members.push(last);
    if members.len() == 0 {
        assert(all.subrange(1, all.len() as int) =~= Seq::<Syntax>::empty());
        assert(are_terms(all.subrange(1, all.len() as int)));
    } else {
        let rest = members.subrange(1, members.len() as int);
        lemma_more_terms(rest, last);
        assert(all.subrange(1, all.len() as int) =~= rest.push(last));
        assert(all[0] == members[0]);
    }
}

/// Expressions with one more expression behind them are expressions.
pub proof fn lemma_more_expressions(alternatives: Seq<Syntax>, last: Syntax)
    requires
        are_expressions(alternatives),
        is_expression(last),
    ensures
        are_expressions(alternatives.push(last)),
    decreases alternatives.len(),
{
    let all = alternatives.push(last);
    if alternatives.len() == 0 {
        assert(all.subrange(1, all.len() as int) =~= Seq::<Syntax>::empty());
        assert(are_expressions(all.subrange(1, all.len() as int)));
    } else {
        let rest = alternatives.subrange(1, alternatives.len() as int);
        lemma_more_expressions(rest, last);
        assert(all.subrange(1, all.len() as int) =~= rest.push(last));
        assert(all[0] == alternatives[0]);
    }
}

/// What is read as `Term+` is an expression of the syntax.
pub proof fn lemma_terms_shaped(
    text: Seq<u8>,
    tokens: Seq<GrammarToken>,
    i: nat,
    acc: Seq<Syntax>,
)
    requires
        are_terms(acc),
    ensures
        parse_terms(text, tokens, i, acc) matches Ok((e, _)) ==> is_expression(e),
    decreases remaining(tokens.len(), i), 2nat,
{
    if i < tokens.len() && starts_term(tokens[i as int].kind) {
        lemma_term_shaped(text, tokens, i);
        if let Ok((term, next)) = parse_term(text, tokens, i) {
            if next > i {
                lemma_more_terms(acc, term);
                lemma_terms_shaped(text, tokens, next, acc.push(term));
            }
        }
    }
}

/// What is read as a term is a term of the syntax.
pub proof fn lemma_term_shaped(text: Seq<u8>, tokens: Seq<GrammarToken>, i: nat)
    ensures
        parse_term(text, tokens, i) matches Ok((e, _)) ==> is_term(e),
    decreases remaining(tokens.len(), i), 1nat,
{
    if i < tokens.len() {
        match tokens[i as int].kind {
            Lexeme::OpenBrace => {
                lemma_terms_shaped(text, tokens, i + 1, Seq::empty());
            },
            Lexeme::OpenParen => {
                lemma_alternatives_shaped(text, tokens, i + 1, Seq::empty());
            },
            _ => {},
        }
    }
}

/// What is read as the alternatives of a choice is a term of the syntax.
pub proof fn lemma_alternatives_shaped(
    text: Seq<u8>,
    tokens: Seq<GrammarToken>,
    i: nat,
    acc: Seq<Syntax>,
)
    requires
        are_expressions(acc),
    ensures
        parse_alternatives(text, tokens, i, acc) matches Ok((e, _)) ==> is_term(e),
    decreases remaining(tokens.len(), i), 3nat,
{
    lemma_terms_shaped(text, tokens, i, Seq::empty());
    if let Ok((alternative, next)) = parse_terms(text, tokens, i, Seq::empty()) {
        lemma_more_expressions(acc, alternative);
        if next < tokens.len() && tokens[next as int].kind is Bar && next >= i {
            lemma_alternatives_shaped(text, tokens, next + 1, acc.push(alternative));
        }
    }
}

/// The bodies of the rules that are read are expressions of the syntax.
pub proof fn lemma_rules_shaped(
    text: Seq<u8>,
    tokens: Seq<GrammarToken>,
    i: nat,
    acc: Seq<RuleSyntax>,
)
    requires
        are_rules(acc),
    ensures
        parse_rules(text, tokens, i, acc) matches Ok(rules) ==> are_rules(rules),
    decreases remaining(tokens.len(), i),
{
    if i < tokens.len() {
        if let Ok((rule, next)) = parse_rule(text, tokens, i) {
            lemma_terms_shaped(text, tokens, i + 2, Seq::empty());
            if next > i {
                assert forall|k: int| 0 <= k < acc.push(rule).len() implies is_expression(
                    (#[trigger] acc.push(rule)[k]).body,
                ) by {
                    if k < acc.len() {
                        assert(acc.push(rule)[k] == acc[k]);
                    }
                }
                lemma_rules_shaped(text, tokens, next, acc.push(rule));
            }
        }
    }
}

/// The rules that are read from a text are rules of the syntax, with
/// distinct names.
pub proof fn lemma_grammar_shaped(text: Seq<u8>)
    ensures
        grammar_of(text) matches Ok(rules) ==> rules.len() >= 1 && are_rules(rules)
            && distinct_names(rules),
{
    if let Ok(tokens) = lexemes_from(text, 0) {
        lemma_rules_shaped(text, tokens, 0, Seq::empty());
        if let Ok(rules) = parse_rules(text, tokens, 0, Seq::empty()) {
            lemma_first_repeat(rules, 0);
            lemma_rules_counted(text, tokens, 0, Seq::empty());
        }
    }
}

/// Reading rules yields at least one.
pub proof fn lemma_rules_counted(
    text: Seq<u8>,
    tokens: Seq<GrammarToken>,
    i: nat,
    acc: Seq<RuleSyntax>,
)
    ensures
        parse_rules(text, tokens, i, acc) matches Ok(rules) ==> rules.len() >= 1 && rules.len()
            >= acc.len(),
    decreases remaining(tokens.len(), i),
{
    if i < tokens.len() {
        if let Ok((rule, next)) = parse_rule(text, tokens, i) {
            if next > i {
                lemma_rules_counted(text, tokens, next, acc.push(rule));
            }
        }
    }
}

} // verus!
