//! The tokenizer: program text to a flat sequence of tokens.

use crate::text::{is_space, is_whitespace, str_eq};
use vstd::prelude::*;
use vstd::std_specs::iter::IteratorSpec;
use vstd::string::*;

verus! {

broadcast use vstd::string::group_string_axioms;

/// The three characters that are tokens by themselves.
#[derive(Debug, Clone, Copy, PartialEq, Eq, Structural)]
pub enum Symbol {
    LParen,
    RParen,
    Quote,
}

/// What a token is: a symbol, or an atom (a numeral or a name).
#[derive(Debug, Clone, Copy, PartialEq, Eq, Structural)]
pub enum TokenType {
    Ident,
    Symbol(Symbol),
}

/// One token: its kind, and its text.
#[derive(Debug, Clone, Copy, PartialEq, Eq)]
pub struct Token<'a> {
    pub ty: TokenType,
    pub data: &'a str,
}

/// The mathematical model of a token.
pub struct Lexeme {
    pub ty: TokenType,
    pub data: Seq<char>,
}

impl<'a> View for Token<'a> {
    type V = Lexeme;

    open spec fn view(&self) -> Lexeme {
        Lexeme { ty: self.ty, data: self.data@ }
    }
}

/// The models of a sequence of tokens, in order.
pub open spec fn lexemes<'a>(tokens: Seq<Token<'a>>) -> Seq<Lexeme> {
    Seq::new(tokens.len(), |i: int| tokens[i]@)
}

/// The symbol that the character `c` is, if it is one.
pub open spec fn symbol_of_char(c: char) -> Option<Symbol> {
    if c == '(' {
        Some(Symbol::LParen)
    } else if c == ')' {
        Some(Symbol::RParen)
    } else if c == '"' {
        Some(Symbol::Quote)
    } else {
        None
    }
}

/// The symbol that `text` is, if it is exactly one symbol character.
pub open spec fn symbol_of(text: Seq<char>) -> Option<Symbol> {
    if text.len() == 1 {
        symbol_of_char(text[0])
    } else {
        None
    }
}

/// The token that stands for `text` taken as a whole.
pub open spec fn classify(text: Seq<char>) -> Lexeme {
    Lexeme {
        ty: match symbol_of(text) {
            Some(symbol) => TokenType::Symbol(symbol),
            None => TokenType::Ident,
        },
        data: text,
    }
}

/// The short name under which a symbol is shown.
pub open spec fn symbol_label(symbol: Symbol) -> Seq<char> {
    match symbol {
        Symbol::LParen => "LPAR"@,
        Symbol::RParen => "RPAR"@,
        Symbol::Quote => "QUOT"@,
    }
}

/// The text under which a token is shown: an atom as it is, a symbol behind
/// the mark `SYM`.
pub open spec fn lexeme_text(lexeme: Lexeme) -> Seq<char> {
    match lexeme.ty {
        TokenType::Ident => lexeme.data,
        TokenType::Symbol(_) => "SYM "@ + lexeme.data,
    }
}

impl Symbol {
    /// The symbol that `text` is, if it is exactly one symbol character.
    pub fn from_text(text: &str) -> (symbol: Option<Symbol>)
        ensures
            symbol == symbol_of(text@),
    {
        proof {
            reveal_strlit("(");
            reveal_strlit(")");
            reveal_strlit("\"");
        }
        if str_eq(text, "(") {
            Some(Symbol::LParen)
        } else if str_eq(text, ")") {
            Some(Symbol::RParen)
        } else if str_eq(text, "\"") {
            Some(Symbol::Quote)
        } else {
            assert(symbol_of(text@) is Some ==> (text@ =~= "("@ || text@ =~= ")"@ || text@ =~= "\""@));
            None
        }
    }

    /// The short name under which the symbol is shown.
    pub fn label(&self) -> (name: &'static str)
        ensures
            name@ == symbol_label(*self),
    {
        match self {
            Symbol::LParen => "LPAR",
            Symbol::RParen => "RPAR",
            Symbol::Quote => "QUOT",
        }
    }
}

impl<'a> Token<'a> {
    /// The token that stands for `data` taken as a whole.
    pub fn new(data: &'a str) -> (token: Token<'a>)
        ensures
            token@ == classify(data@),
    {
        let ty = match Symbol::from_text(data) {
            Some(symbol) => TokenType::Symbol(symbol),
            None => TokenType::Ident,
        };
        Token { ty, data }
    }

    /// Gives back the text of the token.
    pub fn reclaim(self) -> (data: &'a str)
        ensures
            data@ == self@.data,
    {
        self.data
    }

    /// The text under which the token is shown.
    pub fn to_text(&self) -> (text: String)
        ensures
            text@ == lexeme_text(self@),
    {
        match self.ty {
            TokenType::Ident => String::from_str(self.data),
            TokenType::Symbol(_) => String::from_str("SYM ").concat(self.data),
        }
    }
}

/// What the tokenizer holds after reading a piece of text: the tokens that
/// are complete, and the characters of an atom that may still grow.
pub struct Scan {
    pub done: Seq<Lexeme>,
    pub pending: Seq<char>,
}

impl Scan {
    /// The tokens once the pending atom, if there is one, has been closed.
    pub open spec fn flush(self) -> Seq<Lexeme> {
        if self.pending.len() == 0 {
            self.done
        } else {
            self.done.push(Lexeme { ty: TokenType::Ident, data: self.pending })
        }
    }
}

/// The state of the tokenizer after reading `text` from an empty state, one
/// character at a time: white space closes the pending atom, a symbol closes
/// it and is a token itself, and any other character extends it.
pub open spec fn scan(text: Seq<char>) -> Scan
    decreases text.len(),
{
    if text.len() == 0 {
        Scan { done: Seq::empty(), pending: Seq::empty() }
    } else {
        let before = scan(text.drop_last());
        let c = text.last();
        if is_space(c) {
            Scan { done: before.flush(), pending: Seq::empty() }
        } else {
            match symbol_of_char(c) {
                Some(symbol) => Scan {
                    done: before.flush().push(
                        Lexeme { ty: TokenType::Symbol(symbol), data: seq![c] },
                    ),
                    pending: Seq::empty(),
                },
                None => Scan { done: before.done, pending: before.pending.push(c) },
            }
        }
    }
}

/// The tokens of a program text.
pub open spec fn lex(text: Seq<char>) -> Seq<Lexeme> {
    scan(text).flush()
}

/// Cuts a program text into its tokens, in order: each parenthesis and each
/// double quote is a token, and so is each longest run of other characters
/// that holds no white space.
pub fn tokenize<'a>(input: &'a str) -> (tokens: Vec<Token<'a>>)
    ensures
        lexemes(tokens@) == lex(input@),
{
    let n = input.unicode_len();
    let mut tokens: Vec<Token<'a>> = Vec::new();
    let mut chars = input.chars();
    let mut start: usize = 0;
    let mut i: usize = 0;
    proof {
        reveal_strlit("(");
        reveal_strlit(")");
        reveal_strlit("\"");
    }
    while i < n
        invariant
            n == input@.len(),
            start <= i <= n,
            chars.obeys_prophetic_iter_laws(),
            chars.remaining() == input@.skip(i as int),
            scan(input@.take(i as int)).done == lexemes(tokens@),
            scan(input@.take(i as int)).pending == input@.subrange(start as int, i as int),
            "("@ == seq!['('],
            ")"@ == seq![')'],
            "\""@ == seq!['"'],
        decreases n - i,
    {
        let ghost before = scan(input@.take(i as int));
        assert(input@.take(i + 1).drop_last() =~= input@.take(i as int));
        assert(input@.take(i + 1).last() == input@[i as int]);
        let next = chars.next();
        assert(next == Some(input@[i as int]));
        let c = next.unwrap();
        let symbol: Option<&'static str> = if c == '(' {
            Some("(")
        } else if c == ')' {
            Some(")")
        } else if c == '"' {
            Some("\"")
        } else {
            None
        };
        if is_whitespace(c) || symbol.is_some() {
            if start < i {
                let atom = input.substring_char(start, i);
                tokens.push(Token { ty: TokenType::Ident, data: atom });
            }
            assert(lexemes(tokens@) =~= before.flush());
            if let Some(data) = symbol {
                let token = Token::new(data);
                tokens.push(token);
                assert(lexemes(tokens@) =~= before.flush().push(token@));
            }
            start = i + 1;
            assert(input@.subrange(start as int, i + 1) =~= Seq::<char>::empty());
        } else {
            assert(input@.subrange(start as int, i + 1) =~= input@.subrange(
                start as int,
                i as int,
            ).push(c));
        }
        i += 1;
    }
    assert(input@.take(n as int) =~= input@);
    if start < n {
        let atom = input.substring_char(start, n);
        tokens.push(Token { ty: TokenType::Ident, data: atom });
    }
    assert(lexemes(tokens@) =~= lex(input@));
    tokens
}

/// Whether `text` can be an atom: it is not empty, and holds no white
/// space and no symbol.
pub open spec fn is_atom_text(text: Seq<char>) -> bool {
    &&& text.len() > 0
    &&& forall|i: int|
        0 <= i < text.len() ==> !is_space(#[trigger] text[i]) && symbol_of_char(text[i]) is None
}

/// Whether a token is one that the tokenizer can give: a symbol with its
/// one character, or an atom.
pub open spec fn is_well_formed(lexeme: Lexeme) -> bool {
    match lexeme.ty {
        TokenType::Symbol(symbol) => lexeme.data.len() == 1 && symbol_of_char(lexeme.data[0])
            == Some(symbol),
        TokenType::Ident => is_atom_text(lexeme.data),
    }
}

/// What holds of the tokenizer's state after any text: the tokens are well
/// formed, and the pending atom holds no white space and no symbol.
proof fn lemma_scan_well_formed(text: Seq<char>)
    ensures
        forall|i: int|
            0 <= i < scan(text).done.len() ==> is_well_formed(#[trigger] scan(text).done[i]),
        forall|i: int|
            0 <= i < scan(text).pending.len() ==> !is_space(#[trigger] scan(text).pending[i])
                && symbol_of_char(scan(text).pending[i]) is None,
    decreases text.len(),
{
    if text.len() > 0 {
        lemma_scan_well_formed(text.drop_last());
        let before = scan(text.drop_last());
        let c = text.last();
        let flushed = before.flush();
        assert forall|i: int| 0 <= i < flushed.len() implies is_well_formed(
            #[trigger] flushed[i],
        ) by {
            if i < before.done.len() {
                assert(flushed[i] == before.done[i]);
            }
        }
        if is_space(c) {
        } else if symbol_of_char(c) is Some {
            let after = scan(text).done;
            assert forall|i: int| 0 <= i < after.len() implies is_well_formed(
                #[trigger] after[i],
            ) by {
                if i < flushed.len() {
                    assert(after[i] == flushed[i]);
                }
            }
        } else {
            let pending = scan(text).pending;
            assert forall|i: int| 0 <= i < pending.len() implies !is_space(#[trigger] pending[i])
                && symbol_of_char(pending[i]) is None by {
                if i < before.pending.len() {
                    assert(pending[i] == before.pending[i]);
                }
            }
        }
    }
}

/// Every token of a text is a symbol with its one character, or an atom
/// that holds no white space and no symbol; and each is the token that
/// stands for its own text.
pub proof fn lemma_lex_well_formed(text: Seq<char>)
    ensures
        forall|i: int|
            0 <= i < lex(text).len() ==> is_well_formed(#[trigger] lex(text)[i]) && lex(text)[i]
                == classify(lex(text)[i].data),
{
    lemma_scan_well_formed(text);
    let state = scan(text);
    assert forall|i: int| 0 <= i < lex(text).len() implies is_well_formed(#[trigger] lex(text)[i])
        && lex(text)[i] == classify(lex(text)[i].data) by {
        let lexeme = lex(text)[i];
        if i < state.done.len() {
            assert(lexeme == state.done[i]);
        } else {
            assert(lexeme.data == state.pending);
        }
        match lexeme.ty {
            TokenType::Symbol(symbol) => {},
            TokenType::Ident => {
                assert(!is_space(lexeme.data[0]) && symbol_of_char(lexeme.data[0]) is None);
            },
        }
    }
}

} // verus!
