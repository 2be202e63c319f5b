//! The tokens of the language.

use crate::text::{decimal, push_decimal};
use vstd::prelude::*;
use vstd::string::StringExecFns;

verus! {

/// One token.
#[derive(Debug, PartialEq, Eq)]
pub enum Token {
    // Reserved words
    Program,
    Begin,
    End,
    Var,
    Integer,
    If,
    Then,
    Else,
    Do,
    While,
    // Identifier & Number
    Id(String),
    Number(u32),
    // Operators & Delimiters
    Plus,
    Minus,
    LeftParen,
    RightParen,
    Equal,
    GreaterThan,
    LessThan,
    Semicolon,
    Comma,
    Colon,
    Assign,
}

/// What a `Token` stands for.
pub enum TokenView {
    Program,
    Begin,
    End,
    Var,
    Integer,
    If,
    Then,
    Else,
    Do,
    While,
    Id(Seq<char>),
    Number(u32),
    Plus,
    Minus,
    LeftParen,
    RightParen,
    Equal,
    GreaterThan,
    LessThan,
    Semicolon,
    Comma,
    Colon,
    Assign,
}

impl View for Token {
    type V = TokenView;

    open spec fn view(&self) -> TokenView {
        match self {
            Token::Program => TokenView::Program,
            Token::Begin => TokenView::Begin,
            Token::End => TokenView::End,
            Token::Var => TokenView::Var,
            Token::Integer => TokenView::Integer,
            Token::If => TokenView::If,
            Token::Then => TokenView::Then,
            Token::Else => TokenView::Else,
            Token::Do => TokenView::Do,
            Token::While => TokenView::While,
            Token::Id(name) => TokenView::Id(name@),
            Token::Number(n) => TokenView::Number(*n),
            Token::Plus => TokenView::Plus,
            Token::Minus => TokenView::Minus,
            Token::LeftParen => TokenView::LeftParen,
            Token::RightParen => TokenView::RightParen,
            Token::Equal => TokenView::Equal,
            Token::GreaterThan => TokenView::GreaterThan,
            Token::LessThan => TokenView::LessThan,
            Token::Semicolon => TokenView::Semicolon,
            Token::Comma => TokenView::Comma,
            Token::Colon => TokenView::Colon,
            Token::Assign => TokenView::Assign,
        }
    }
}

impl Clone for Token {
    fn clone(&self) -> (copy: Token)
        ensures
            copy@ == self@,
    {
        match self {
            Token::Program => Token::Program,
            Token::Begin => Token::Begin,
            Token::End => Token::End,
            Token::Var => Token::Var,
            Token::Integer => Token::Integer,
            Token::If => Token::If,
            Token::Then => Token::Then,
            Token::Else => Token::Else,
            Token::Do => Token::Do,
            Token::While => Token::While,
            Token::Id(name) => Token::Id(name.clone()),
            Token::Number(n) => Token::Number(*n),
            Token::Plus => Token::Plus,
            Token::Minus => Token::Minus,
            Token::LeftParen => Token::LeftParen,
            Token::RightParen => Token::RightParen,
            Token::Equal => Token::Equal,
            Token::GreaterThan => Token::GreaterThan,
            Token::LessThan => Token::LessThan,
            Token::Semicolon => Token::Semicolon,
            Token::Comma => Token::Comma,
            Token::Colon => Token::Colon,
            Token::Assign => Token::Assign,
        }
    }
}

impl TokenView {
    /// The serial number of the kind of token, from 1 to 23.
    pub open spec fn serial_id(self) -> u16 {
        match self {
            TokenView::Program => 1,
            TokenView::Begin => 2,
            TokenView::End => 3,
            TokenView::Var => 4,
            TokenView::Integer => 5,
            TokenView::If => 6,
            TokenView::Then => 7,
            TokenView::Else => 8,
            TokenView::Do => 9,
            TokenView::While => 10,
            TokenView::Id(_) => 11,
            TokenView::Number(_) => 12,
            TokenView::Plus => 13,
            TokenView::Minus => 14,
            TokenView::LeftParen => 15,
            TokenView::RightParen => 16,
            TokenView::Equal => 17,
            TokenView::GreaterThan => 18,
            TokenView::LessThan => 19,
            TokenView::Semicolon => 20,
            TokenView::Comma => 21,
            TokenView::Colon => 22,
            TokenView::Assign => 23,
        }
    }

    /// What the token carries: the name of an identifier, the numeral of a
    /// number, and `_` for every other token.
    pub open spec fn payload(self) -> Seq<char> {
        match self {
            TokenView::Id(name) => name,
            TokenView::Number(n) => decimal(n as nat),
            _ => seq!['_'],
        }
    }

    /// How the token is written: its serial number and what it carries, in
    /// parentheses with a comma between them.
    pub open spec fn text(self) -> Seq<char> {
        seq!['('] + decimal(self.serial_id() as nat) + seq![','] + self.payload() + seq![')']
    }
}

impl Token {
    /// The serial number of the kind of token, from 1 to 23.
    pub fn serial_id(&self) -> (id: u16)
        ensures
            id == self@.serial_id(),
            1 <= id <= 23,
    {
        match self {
            Token::Program => 1,
            Token::Begin => 2,
            Token::End => 3,
            Token::Var => 4,
            Token::Integer => 5,
            Token::If => 6,
            Token::Then => 7,
            Token::Else => 8,
            Token::Do => 9,
            Token::While => 10,
            Token::Id(_) => 11,
            Token::Number(_) => 12,
            Token::Plus => 13,
            Token::Minus => 14,
            Token::LeftParen => 15,
            Token::RightParen => 16,
            Token::Equal => 17,
            Token::GreaterThan => 18,
            Token::LessThan => 19,
            Token::Semicolon => 20,
            Token::Comma => 21,
            Token::Colon => 22,
            Token::Assign => 23,
        }
    }

    /// How the token is written, as in `(11,count)`, `(12,42)` or `(20,_)`.
    pub fn to_string(&self) -> (s: String)
        ensures
            s@ == self@.text(),
    {
        let mut out = String::new();
        out.push('(');
        push_decimal(&mut out, self.serial_id() as u64);
        out.push(',');
        match self {
            Token::Id(id) => {
                out.append(id.as_str());
            },
            Token::Number(num) => {
                push_decimal(&mut out, *num as u64);
            },
            _ => {
                out.push('_');
            },
        }
        out.push(')');
        assert(out@ =~= self@.text());
        out
    }
}

} // verus!
