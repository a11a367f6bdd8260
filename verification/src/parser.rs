//! The parser: a sequence of tokens to the forms of a program.

use crate::ast::{terms_of, Member, SExpr, Term, AST};
use crate::lexer::{lexemes, Lexeme, Symbol, Token, TokenType};
use crate::text::{parse_i32, parse_numeral};
use std::collections::VecDeque;
use vstd::prelude::*;
use vstd::string::*;

verus! {

/// Why a sequence of tokens is no program.
#[derive(Debug, Clone, Copy, PartialEq, Eq, Structural)]
pub enum ParseError {
    /// A token that is no opening parenthesis stands between two top-level
    /// forms.
    UnexpectedToken,
    /// The tokens end inside a text literal.
    UnterminatedString,
}

/// The text of the message for each error.
pub open spec fn parse_error_text(error: ParseError) -> Seq<char> {
    match error {
        ParseError::UnexpectedToken => "Error parsing program into AST"@,
        ParseError::UnterminatedString => "Unterminated string literal"@,
    }
}

impl ParseError {
    /// A message for the user.
    pub fn message(&self) -> (text: &'static str)
        ensures
            text@ == parse_error_text(*self),
    {
        match self {
            ParseError::UnexpectedToken => "Error parsing program into AST",
            ParseError::UnterminatedString => "Unterminated string literal",
        }
    }
}

/// What reading one construct from a position gives: the construct or an
/// error, and the number of tokens read.
pub struct Parsed<T> {
    pub result: Result<T, ParseError>,
    pub used: nat,
}

/// The number of tokens from `pos` to the end.
pub open spec fn tokens_left(tokens: Seq<Lexeme>, pos: int) -> nat {
    if 0 <= pos < tokens.len() {
        (tokens.len() - pos) as nat
    } else {
        0
    }
}

/// The term of an atom: a number where the text is a numeral that fits in 32
/// bits, else a name.
pub open spec fn atom_term(text: Seq<char>) -> Term {
    match parse_numeral(text) {
        Some(n) => Term::NumI(n),
        None => Term::Ident(text),
    }
}

/// `head` put in front of the text that `rest` read, after `used` tokens more.
pub open spec fn with_text(head: Seq<char>, used: nat, rest: Parsed<Seq<char>>) -> Parsed<
    Seq<char>,
> {
    Parsed {
        result: match rest.result {
            Ok(text) => Ok(head + text),
            Err(error) => Err(error),
        },
        used: used + rest.used,
    }
}

/// `head` put in front of the members that `rest` read, after `used` tokens
/// more.
pub open spec fn with_members(head: Seq<Term>, used: nat, rest: Parsed<Seq<Term>>) -> Parsed<
    Seq<Term>,
> {
    Parsed {
        result: match rest.result {
            Ok(members) => Ok(head + members),
            Err(error) => Err(error),
        },
        used: used + rest.used,
    }
}

/// The text literal whose opening quote stands just before `pos`: the texts
/// of the tokens up to the closing quote, joined with nothing between them.
/// The closing quote is read too. Without a closing quote it is an error.
pub open spec fn parse_string(tokens: Seq<Lexeme>, pos: int) -> Parsed<Seq<char>>
    decreases tokens_left(tokens, pos),
{
    if !(0 <= pos < tokens.len()) {
        Parsed { result: Err(ParseError::UnterminatedString), used: 0 }
    } else if tokens[pos].ty == TokenType::Symbol(Symbol::Quote) {
        Parsed { result: Ok(Seq::empty()), used: 1 }
    } else {
        with_text(tokens[pos].data, 1, parse_string(tokens, pos + 1))
    }
}

/// The members of the form whose opening parenthesis stands just before
/// `pos`, up to the closing parenthesis that matches it, which is read too.
/// Where the tokens end first, the form ends with them.
pub open spec fn parse_members(tokens: Seq<Lexeme>, pos: int) -> Parsed<Seq<Term>>
    decreases tokens_left(tokens, pos),
{
    if !(0 <= pos < tokens.len()) {
        Parsed { result: Ok(Seq::empty()), used: 0 }
    } else {
        match tokens[pos].ty {
            TokenType::Symbol(Symbol::RParen) => Parsed { result: Ok(Seq::empty()), used: 1 },
            TokenType::Symbol(Symbol::LParen) => {
                let inner = parse_members(tokens, pos + 1);
                match inner.result {
                    Ok(members) => with_members(
                        seq![Term::SExpr(members)],
                        1 + inner.used,
                        parse_members(tokens, pos + 1 + inner.used),
                    ),
                    Err(error) => Parsed { result: Err(error), used: 1 + inner.used },
                }
            },
            TokenType::Symbol(Symbol::Quote) => {
                let literal = parse_string(tokens, pos + 1);
                match literal.result {
                    Ok(text) => with_members(
                        seq![Term::Str(text)],
                        1 + literal.used,
                        parse_members(tokens, pos + 1 + literal.used),
                    ),
                    Err(error) => Parsed { result: Err(error), used: 1 + literal.used },
                }
            },
            TokenType::Ident => with_members(
                seq![atom_term(tokens[pos].data)],
                1,
                parse_members(tokens, pos + 1),
            ),
        }
    }
}

/// The top-level forms that the tokens from `pos` on hold: each starts with
/// an opening parenthesis, and nothing stands between them.
pub open spec fn parse_forms(tokens: Seq<Lexeme>, pos: int) -> Result<Seq<Seq<Term>>, ParseError>
    decreases tokens_left(tokens, pos),
{
    if !(0 <= pos < tokens.len()) {
        Ok(Seq::empty())
    } else if tokens[pos].ty != TokenType::Symbol(Symbol::LParen) {
        Err(ParseError::UnexpectedToken)
    } else {
        let form = parse_members(tokens, pos + 1);
        match form.result {
            Ok(members) => match parse_forms(tokens, pos + 1 + form.used) {
                Ok(forms) => Ok(seq![members] + forms),
                Err(error) => Err(error),
            },
            Err(error) => Err(error),
        }
    }
}

/// The program that a sequence of tokens holds.
pub open spec fn parse_program(tokens: Seq<Lexeme>) -> Result<Seq<Seq<Term>>, ParseError> {
    parse_forms(tokens, 0)
}

/// Reads the rest of a text literal, from the token after its opening quote.
/// Gives the text and the position after the closing quote.
pub fn read_string<'a>(tokens: &Vec<Token<'a>>, pos: usize) -> (read: Result<
    (String, usize),
    ParseError,
>)
    requires
        pos <= tokens.len(),
    ensures
        match parse_string(lexemes(tokens@), pos as int).result {
            Ok(text) => read is Ok && read->Ok_0.0@ == text && read->Ok_0.1 == pos + parse_string(
                lexemes(tokens@),
                pos as int,
            ).used && read->Ok_0.1 <= tokens.len(),
            Err(error) => read == Err::<(String, usize), ParseError>(error),
        },
{
    let ghost input = lexemes(tokens@);
    let mut text = String::new();
    let mut at: usize = pos;
    while at < tokens.len()
        invariant
            pos <= at <= tokens.len(),
            input == lexemes(tokens@),
            parse_string(input, pos as int) == with_text(
                text@,
                (at - pos) as nat,
                parse_string(input, at as int),
            ),
        decreases tokens.len() - at,
    {
        let token = tokens[at];
        assert(input[at as int] == token@);
        let ghost rest = parse_string(input, at + 1);
        match token.ty {
            TokenType::Symbol(Symbol::Quote) => {
                assert(text@ + Seq::<char>::empty() =~= text@);
                return Ok((text, at + 1));
            },
            _ => {
                let ghost before = text@;
                text.append(token.reclaim());
                assert(with_text(before, (at - pos) as nat, with_text(token@.data, 1, rest))
                    == with_text(text@, (at + 1 - pos) as nat, rest)) by {
                    if rest.result is Ok {
                        assert(before + (token@.data + rest.result->Ok_0) =~= text@
                            + rest.result->Ok_0);
                    }
                }
            },
        }
        at += 1;
    }
    Err(ParseError::UnterminatedString)
}

/// Reads the rest of a form, from the token after its opening parenthesis.
/// Gives the form and the position after its closing parenthesis, or the end
/// of the tokens where they end first.
pub fn take_until_match_parens<'a>(tokens: &Vec<Token<'a>>, pos: usize) -> (read: Result<
    (SExpr<'a>, usize),
    ParseError,
>)
    requires
        pos <= tokens.len(),
    ensures
        match parse_members(lexemes(tokens@), pos as int).result {
            Ok(members) => read is Ok && read->Ok_0.0@ == members && read->Ok_0.1 == pos
                + parse_members(lexemes(tokens@), pos as int).used && read->Ok_0.1 <= tokens.len(),
            Err(error) => read is Err && read->Err_0 == error,
        },
    decreases tokens.len() - pos,
{
    let ghost input = lexemes(tokens@);
    let mut base: VecDeque<Member<'a>> = VecDeque::new();
    let mut at: usize = pos;
    assert(terms_of(base@) =~= Seq::<Term>::empty());
    while at < tokens.len()
        invariant
            pos <= at <= tokens.len(),
            input == lexemes(tokens@),
            parse_members(input, pos as int) == with_members(
                terms_of(base@),
                (at - pos) as nat,
                parse_members(input, at as int),
            ),
        decreases tokens.len() - at,
    {
        let token = tokens[at];
        assert(input[at as int] == token@);
        let ghost before = terms_of(base@);
        let ghost here = parse_members(input, at as int);
        match token.ty {
            TokenType::Symbol(Symbol::RParen) => {
                assert(before + Seq::<Term>::empty() =~= before);
                return Ok((SExpr { members: base }, at + 1));
            },
            TokenType::Symbol(Symbol::LParen) => {
                let ghost inner = parse_members(input, at + 1);
                match take_until_match_parens(tokens, at + 1) {
                    Ok((form, next)) => {
                        let ghost rest = parse_members(input, next as int);
                        proof {
                            crate::ast::lemma_term_of_form(form);
                        }
                        base.push_back(Member::SExpr(form));
                        assert(terms_of(base@) =~= before.push(Term::SExpr(inner.result->Ok_0)));
                        assert(with_members(before, (at - pos) as nat, here) == with_members(
                            terms_of(base@),
                            (next - pos) as nat,
                            rest,
                        )) by {
                            if rest.result is Ok {
                                assert(before + (seq![Term::SExpr(inner.result->Ok_0)]
                                    + rest.result->Ok_0) =~= terms_of(base@) + rest.result->Ok_0);
                            }
                        }
                        at = next;
                    },
                    Err(error) => {
                        return Err(error);
                    },
                }
            },
            TokenType::Symbol(Symbol::Quote) => {
                let ghost literal = parse_string(input, at + 1);
                match read_string(tokens, at + 1) {
                    Ok((text, next)) => {
                        let ghost rest = parse_members(input, next as int);
                        base.push_back(Member::String(text));
                        assert(terms_of(base@) =~= before.push(Term::Str(literal.result->Ok_0)));
                        assert(with_members(before, (at - pos) as nat, here) == with_members(
                            terms_of(base@),
                            (next - pos) as nat,
                            rest,
                        )) by {
                            if rest.result is Ok {
                                assert(before + (seq![Term::Str(literal.result->Ok_0)]
                                    + rest.result->Ok_0) =~= terms_of(base@) + rest.result->Ok_0);
                            }
                        }
                        at = next;
                    },
                    Err(error) => {
                        return Err(error);
                    },
                }
            },
            TokenType::Ident => {
                let ghost rest = parse_members(input, at + 1);
                let data = token.reclaim();
                let member = match parse_i32(data) {
                    Some(n) => Member::NumI(n),
                    None => Member::Ident(data),
                };
                assert(member@ == atom_term(token@.data));
                base.push_back(member);
                assert(terms_of(base@) =~= before.push(atom_term(token@.data)));
                assert(with_members(before, (at - pos) as nat, here) == with_members(
                    terms_of(base@),
                    (at + 1 - pos) as nat,
                    rest,
                )) by {
                    if rest.result is Ok {
                        assert(before + (seq![atom_term(token@.data)] + rest.result->Ok_0)
                            =~= terms_of(base@) + rest.result->Ok_0);
                    }
                }
                at += 1;
            },
        }
    }
    assert(terms_of(base@) + Seq::<Term>::empty() =~= terms_of(base@));
    Ok((SExpr { members: base }, at))
}

impl<'a> AST<'a> {
    /// Reads a whole program: its top-level forms in order.
    ///
    /// Each top-level form starts with an opening parenthesis; any other
    /// token between two forms is an error, and so is a text literal
    /// without a closing quote. A form that is still open where the tokens
    /// end is closed there.
    pub fn from_tokens(tokens: Vec<Token<'a>>) -> (tree: Result<AST<'a>, ParseError>)
        ensures
            match parse_program(lexemes(tokens@)) {
                Ok(forms) => tree is Ok && tree->Ok_0@ == forms,
                Err(error) => tree is Err && tree->Err_0 == error,
            },
    {
        let ghost input = lexemes(tokens@);
        let mut prog: Vec<SExpr<'a>> = Vec::new();
        let mut at: usize = 0;
        while at < tokens.len()
            invariant
                at <= tokens.len(),
                input == lexemes(tokens@),
                parse_forms(input, 0) == match parse_forms(input, at as int) {
                    Ok(forms) => Ok::<Seq<Seq<Term>>, ParseError>(
                        Seq::new(prog@.len(), |i: int| prog@[i]@) + forms,
                    ),
                    Err(error) => Err(error),
                },
            decreases tokens.len() - at,
        {
            let token = tokens[at];
            assert(input[at as int] == token@);
            let ghost before = Seq::new(prog@.len(), |i: int| prog@[i]@);
            match token.ty {
                TokenType::Symbol(Symbol::LParen) => {
                    let ghost form_spec = parse_members(input, at + 1);
                    match take_until_match_parens(&tokens, at + 1) {
                        Ok((form, next)) => {
                            let ghost rest = parse_forms(input, next as int);
                            prog.push(form);
                            let ghost after = Seq::new(prog@.len(), |i: int| prog@[i]@);
                            assert(after =~= before.push(form_spec.result->Ok_0));
                            assert(rest is Ok ==> before + (seq![form_spec.result->Ok_0]
                                + rest->Ok_0) =~= after + rest->Ok_0);
                            at = next;
                        },
                        Err(error) => {
                            return Err(error);
                        },
                    }
                },
                _ => {
                    return Err(ParseError::UnexpectedToken);
                },
            }
        }
        let tree = AST { prog };
        assert(tree@ + Seq::<Seq<Term>>::empty() =~= tree@);
        Ok(tree)
    }
}

} // verus!
