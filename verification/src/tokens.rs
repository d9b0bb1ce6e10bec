//! The tokens that make up the rendered text of a public item.
use vstd::prelude::*;

use crate::text::{chars_of, push_all, string_of};

verus! {

broadcast use vstd::string::group_string_axioms;

/// A token of a rendered public item, classified for syntax coloring.
#[derive(Clone, Debug, PartialEq, Eq, Hash)]
pub enum Token {
    /// A symbol, like `=` or `::<`
    Symbol(String),
    /// A qualifier, like `pub` or `const`
    Qualifier(String),
    /// The kind of an item, like `function` or `trait`
    Kind(String),
    /// Whitespace, a single space
    Whitespace,
    /// An identifier, like variable names or parts of the path of an item
    Identifier(String),
    /// An annotation, used e.g. for Rust attributes.
    Annotation(String),
    /// The identifier self, the text can be `self` or `Self`
    Self_(String),
    /// The identifier for a function
    Function(String),
    /// A lifetime including the apostrophe `'`, like `'a`
    Lifetime(String),
    /// A keyword, like `impl`, `where`, or `dyn`
    Keyword(String),
    /// A generic parameter, like `T`
    Generic(String),
    /// A primitive type, like `usize`
    Primitive(String),
    /// A non-primitive type, like the name of a struct or a trait
    Type(String),
}

/// The text of a token: its string, or one space for whitespace.
pub open spec fn token_text(t: Token) -> Seq<char> {
    match t {
        Token::Symbol(s) => s@,
        Token::Qualifier(s) => s@,
        Token::Kind(s) => s@,
        Token::Whitespace => seq![' '],
        Token::Identifier(s) => s@,
        Token::Annotation(s) => s@,
        Token::Self_(s) => s@,
        Token::Function(s) => s@,
        Token::Lifetime(s) => s@,
        Token::Keyword(s) => s@,
        Token::Generic(s) => s@,
        Token::Primitive(s) => s@,
        Token::Type(s) => s@,
    }
}

/// The texts of the tokens, one after the other.
pub open spec fn tokens_text(ts: Seq<Token>) -> Seq<char>
    decreases ts.len(),
{
    if ts.len() == 0 {
        seq![]
    } else {
        tokens_text(ts.drop_last()) + token_text(ts.last())
    }
}

/// The token is the keyword `word`.
pub open spec fn is_keyword(t: Token, word: Seq<char>) -> bool {
    match t {
        Token::Keyword(k) => k@ == word,
        _ => false,
    }
}

/// The token is the symbol `word`.
pub open spec fn is_symbol(t: Token, word: Seq<char>) -> bool {
    match t {
        Token::Symbol(k) => k@ == word,
        _ => false,
    }
}

impl Token {
    /// The text of this token.
    pub fn text(&self) -> (r: &str)
        ensures
            r@ == token_text(*self),
    {
        match self {
            Token::Symbol(l) => l.as_str(),
            Token::Qualifier(l) => l.as_str(),
            Token::Kind(l) => l.as_str(),
            Token::Identifier(l) => l.as_str(),
            Token::Annotation(l) => l.as_str(),
            Token::Self_(l) => l.as_str(),
            Token::Function(l) => l.as_str(),
            Token::Lifetime(l) => l.as_str(),
            Token::Keyword(l) => l.as_str(),
            Token::Generic(l) => l.as_str(),
            Token::Primitive(l) => l.as_str(),
            Token::Type(l) => l.as_str(),
            Token::Whitespace => {
                proof {
                    reveal_strlit(" ");
                }
                " "
            },
        }
    }

    /// The number of bytes of the text of this token.
    pub fn len(&self) -> (n: usize)
        ensures
            n == vstd::utf8::encode_utf8(token_text(*self)).len() as usize,
    {
        self.text().len()
    }

    /// A copy of this token.
    pub fn duplicate(&self) -> (r: Token)
        ensures
            r == *self,
    {
        match self {
            Token::Symbol(l) => Token::Symbol(l.clone()),
            Token::Qualifier(l) => Token::Qualifier(l.clone()),
            Token::Kind(l) => Token::Kind(l.clone()),
            Token::Whitespace => Token::Whitespace,
            Token::Identifier(l) => Token::Identifier(l.clone()),
            Token::Annotation(l) => Token::Annotation(l.clone()),
            Token::Self_(l) => Token::Self_(l.clone()),
            Token::Function(l) => Token::Function(l.clone()),
            Token::Lifetime(l) => Token::Lifetime(l.clone()),
            Token::Keyword(l) => Token::Keyword(l.clone()),
            Token::Generic(l) => Token::Generic(l.clone()),
            Token::Primitive(l) => Token::Primitive(l.clone()),
            Token::Type(l) => Token::Type(l.clone()),
        }
    }
}

/// Whether the token is the keyword `word`.
pub fn is_keyword_exec(t: &Token, word: &[char]) -> (b: bool)
    ensures
        b == is_keyword(*t, word@),
{
    match t {
        Token::Keyword(k) => crate::text::chars_eq(&chars_of(k.as_str()), word),
        _ => false,
    }
}

/// Whether the token is the symbol `word`.
pub fn is_symbol_exec(t: &Token, word: &[char]) -> (b: bool)
    ensures
        b == is_symbol(*t, word@),
{
    match t {
        Token::Symbol(k) => crate::text::chars_eq(&chars_of(k.as_str()), word),
        _ => false,
    }
}

/// The texts of the tokens, one after the other, as characters.
pub fn tokens_chars(tokens: &[Token]) -> (v: Vec<char>)
    ensures
        v@ == tokens_text(tokens@),
{
    let mut v: Vec<char> = Vec::new();
    let mut i: usize = 0;
    while i < tokens.len()
        invariant
            i <= tokens@.len(),
            v@ == tokens_text(tokens@.take(i as int)),
        decreases tokens@.len() - i,
    {
        let t = chars_of(tokens[i].text());
        push_all(&mut v, &t);
        assert(tokens@.take(i + 1).drop_last() =~= tokens@.take(i as int));
        i = i + 1;
    }
    assert(tokens@.take(tokens@.len() as int) =~= tokens@);
    v
}

/// The texts of the tokens, one after the other.
pub fn tokens_to_string(tokens: &[Token]) -> (s: String)
    ensures
        s@ == tokens_text(tokens@),
{
    string_of(&tokens_chars(tokens))
}

} // verus!
