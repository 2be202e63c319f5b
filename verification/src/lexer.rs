//! The lexer: from the bytes of a source text to its tokens.

pub mod token;

use token::{Token, TokenView};
use vstd::prelude::*;
use vstd::slice::slice_to_vec;

verus! {

/// A place in the source text: the line, counted from 1, and the number of
/// bytes that precede the place on its line.
#[derive(Debug, Clone, Copy, PartialEq, Eq, PartialOrd, Ord, Structural)]
pub struct Position {
    pub line: u32,
    pub column: u32,
}

impl Position {
    pub fn new(line: u32, column: u32) -> (position: Position)
        ensures
            position.line == line,
            position.column == column,
    {
        Position { line, column }
    }
}

/// What the lexer rejects.
#[derive(Debug)]
#[non_exhaustive]
pub enum Error {
    /// A byte that starts no token, and the place where it stands.
    InvalidByte(u8, Position),
}

/// The byte is ASCII white space: space, tab, line feed, form feed or
/// carriage return.
pub open spec fn is_space(b: u8) -> bool {
    b == 0x20 || b == 0x09 || b == 0x0a || b == 0x0c || b == 0x0d
}

/// The byte is a decimal digit.
pub open spec fn is_digit(b: u8) -> bool {
    0x30 <= b <= 0x39
}

/// The byte can start a word: a letter or an underscore.
pub open spec fn is_word_start(b: u8) -> bool {
    (0x41 <= b <= 0x5a) || (0x61 <= b <= 0x7a) || b == 0x5f
}

/// The byte can continue a word: a letter, a digit or an underscore.
pub open spec fn is_word_part(b: u8) -> bool {
    is_word_start(b) || is_digit(b)
}

/// The first index from `i` on at which no white space stands.
pub open spec fn spaces_end(s: Seq<u8>, i: int) -> int
    decreases s.len() - i,
{
    if 0 <= i < s.len() && is_space(s[i]) {
        spaces_end(s, i + 1)
    } else {
        i
    }
}

/// The first index from `i` on at which no digit stands.
pub open spec fn digits_end(s: Seq<u8>, i: int) -> int
    decreases s.len() - i,
{
    if 0 <= i < s.len() && is_digit(s[i]) {
        digits_end(s, i + 1)
    } else {
        i
    }
}

/// The first index from `i` on at which no byte of a word stands.
pub open spec fn word_end(s: Seq<u8>, i: int) -> int
    decreases s.len() - i,
{
    if 0 <= i < s.len() && is_word_part(s[i]) {
        word_end(s, i + 1)
    } else {
        i
    }
}

/// The number that the digits from `from` up to `to` write. A number that
/// does not fit 32 bits wraps around.
pub open spec fn number(s: Seq<u8>, from: int, to: int) -> u32
    decreases to - from,
{
    if to <= from {
        0
    } else {
        number(s, from, to - 1).wrapping_mul(10).wrapping_add((s[to - 1] - 0x30) as u32)
    }
}

/// The characters that ASCII bytes stand for.
pub open spec fn chars_of(bytes: Seq<u8>) -> Seq<char> {
    Seq::new(bytes.len(), |i: int| bytes[i] as char)
}

/// The token that a word is: a reserved word where it is written in lower
/// case, in upper case or with a capital first letter, an identifier
/// otherwise.
pub open spec fn word_token(word: Seq<char>) -> TokenView {
    if word == "program"@ || word == "Program"@ || word == "PROGRAM"@ {
        TokenView::Program
    } else if word == "begin"@ || word == "Begin"@ || word == "BEGIN"@ {
        TokenView::Begin
    } else if word == "end"@ || word == "End"@ || word == "END"@ {
        TokenView::End
    } else if word == "var"@ || word == "Var"@ || word == "VAR"@ {
        TokenView::Var
    } else if word == "integer"@ || word == "Integer"@ || word == "INTEGER"@ {
        TokenView::Integer
    } else if word == "if"@ || word == "If"@ || word == "IF"@ {
        TokenView::If
    } else if word == "then"@ || word == "Then"@ || word == "THEN"@ {
        TokenView::Then
    } else if word == "else"@ || word == "Else"@ || word == "ELSE"@ {
        TokenView::Else
    } else if word == "do"@ || word == "Do"@ || word == "DO"@ {
        TokenView::Do
    } else if word == "while"@ || word == "While"@ || word == "WHILE"@ {
        TokenView::While
    } else {
        TokenView::Id(word)
    }
}

/// The line and the column of the byte at index `i`. Lines are counted from
/// 1; a line feed ends its line. The column is the number of bytes between
/// the start of the line and the byte.
pub open spec fn position_at(s: Seq<u8>, i: int) -> (int, int)
    decreases i,
{
    if i <= 0 {
        (1, 0)
    } else {
        let before = position_at(s, i - 1);
        if s[i - 1] == 0x0a {
            (before.0 + 1, 0)
        } else {
            (before.0, before.1 + 1)
        }
    }
}

/// What stands next in a text.
pub enum Scan {
    /// Nothing but white space.
    End,
    /// A token, and the index at which it ends.
    Token(TokenView, int),
    /// A byte that starts no token, and its index.
    Invalid(u8, int),
}

/// What stands next in the text `s` from index `from` on. White space is
/// skipped. `:=` is one token; a number is the longest run of digits; a word
/// is the longest run of letters, digits and underscores.
pub open spec fn scan(s: Seq<u8>, from: int) -> Scan {
    let i = spaces_end(s, from);
    if i >= s.len() {
        Scan::End
    } else {
        let b = s[i];
        if b == 0x2b {
            Scan::Token(TokenView::Plus, i + 1)
        } else if b == 0x2d {
            Scan::Token(TokenView::Minus, i + 1)
        } else if b == 0x28 {
            Scan::Token(TokenView::LeftParen, i + 1)
        } else if b == 0x29 {
            Scan::Token(TokenView::RightParen, i + 1)
        } else if b == 0x3d {
            Scan::Token(TokenView::Equal, i + 1)
        } else if b == 0x3e {
            Scan::Token(TokenView::GreaterThan, i + 1)
        } else if b == 0x3c {
            Scan::Token(TokenView::LessThan, i + 1)
        } else if b == 0x3b {
            Scan::Token(TokenView::Semicolon, i + 1)
        } else if b == 0x2c {
            Scan::Token(TokenView::Comma, i + 1)
        } else if b == 0x3a {
            if i + 1 < s.len() && s[i + 1] == 0x3d {
                Scan::Token(TokenView::Assign, i + 2)
            } else {
                Scan::Token(TokenView::Colon, i + 1)
            }
        } else if is_digit(b) {
            let end = digits_end(s, i + 1);
            Scan::Token(TokenView::Number(number(s, i, end)), end)
        } else if is_word_start(b) {
            let end = word_end(s, i + 1);
            Scan::Token(word_token(chars_of(s.subrange(i, end))), end)
        } else {
            Scan::Invalid(b, i)
        }
    }
}

/// The index at which the lexer stands after it has taken what `scan` finds
/// from `from` on. An invalid byte is passed over.
pub open spec fn scan_end(s: Seq<u8>, from: int) -> int {
    match scan(s, from) {
        Scan::End => s.len() as int,
        Scan::Token(_, end) => end,
        Scan::Invalid(_, at) => at + 1,
    }
}

/// The index at which the lexer stands after `n` steps from `from`.
pub open spec fn after(s: Seq<u8>, from: int, n: nat) -> int
    decreases n,
{
    if n == 0 {
        from
    } else {
        scan_end(s, after(s, from, (n - 1) as nat))
    }
}

/// The result `r` of one step of the lexer is what `scan` finds.
pub open spec fn step_result(s: Seq<u8>, from: int, r: Option<Result<Token, Error>>) -> bool {
    match scan(s, from) {
        Scan::End => r is None,
        Scan::Token(t, _) => r matches Some(Ok(token)) && token@ == t,
        Scan::Invalid(b, at) => r matches Some(Err(Error::InvalidByte(byte, place))) && byte == b
            && place.line == position_at(s, at).0 && place.column == position_at(s, at).1,
    }
}

/// The line of a place is at most one more than its index, and its column
/// at most its index.
pub proof fn lemma_position_bound(s: Seq<u8>, i: int)
    requires
        0 <= i,
    ensures
        1 <= position_at(s, i).0 <= i + 1,
        0 <= position_at(s, i).1 <= i,
    decreases i,
{
    if i > 0 {
        lemma_position_bound(s, i - 1);
    }
}

/// The runs end within the text and not before they start.
pub proof fn lemma_run_bounds(s: Seq<u8>, i: int)
    requires
        0 <= i <= s.len(),
    ensures
        i <= spaces_end(s, i) <= s.len(),
        i <= digits_end(s, i) <= s.len(),
        i <= word_end(s, i) <= s.len(),
    decreases s.len() - i,
{
    if i < s.len() {
        lemma_run_bounds(s, i + 1);
    }
}

/// Each step of the lexer ends within the text and not before it starts; at
/// the end of the text it stays there.
pub proof fn lemma_scan_end(s: Seq<u8>, from: int)
    requires
        0 <= from <= s.len(),
    ensures
        from <= scan_end(s, from) <= s.len(),
        from == s.len() ==> scan(s, from) is End,
{
    lemma_run_bounds(s, from);
    let i = spaces_end(s, from);
    if i < s.len() {
        lemma_run_bounds(s, i + 1);
    }
}

/// Whether the byte is ASCII white space.
pub fn byte_is_space(b: u8) -> (r: bool)
    ensures
        r == is_space(b),
{
    b == 0x20 || b == 0x09 || b == 0x0a || b == 0x0c || b == 0x0d
}

/// Whether the byte is a decimal digit.
pub fn byte_is_digit(b: u8) -> (r: bool)
    ensures
        r == is_digit(b),
{
    0x30 <= b && b <= 0x39
}

/// Whether the byte can start a word.
pub fn byte_is_word_start(b: u8) -> (r: bool)
    ensures
        r == is_word_start(b),
{
    (0x41 <= b && b <= 0x5a) || (0x61 <= b && b <= 0x7a) || b == 0x5f
}

/// The token that a word is.
pub fn classify(word: String) -> (token: Token)
    ensures
        token@ == word_token(word@),
{
    let w = word.as_str();
    if *w == *"program" || *w == *"Program" || *w == *"PROGRAM" {
        Token::Program
    } else if *w == *"begin" || *w == *"Begin" || *w == *"BEGIN" {
        Token::Begin
    } else if *w == *"end" || *w == *"End" || *w == *"END" {
        Token::End
    } else if *w == *"var" || *w == *"Var" || *w == *"VAR" {
        Token::Var
    } else if *w == *"integer" || *w == *"Integer" || *w == *"INTEGER" {
        Token::Integer
    } else if *w == *"if" || *w == *"If" || *w == *"IF" {
        Token::If
    } else if *w == *"then" || *w == *"Then" || *w == *"THEN" {
        Token::Then
    } else if *w == *"else" || *w == *"Else" || *w == *"ELSE" {
        Token::Else
    } else if *w == *"do" || *w == *"Do" || *w == *"DO" {
        Token::Do
    } else if *w == *"while" || *w == *"While" || *w == *"WHILE" {
        Token::While
    } else {
        Token::Id(word)
    }
}

/// A lexer over a text held in memory.
#[derive(Debug)]
pub struct Lexer {
    input: Vec<u8>,
    offset: usize,
    position: Position,
}

impl Lexer {
    /// The text.
    pub closed spec fn input(&self) -> Seq<u8> {
        self.input@
    }

    /// The index of the next byte to be read.
    pub closed spec fn offset(&self) -> int {
        self.offset as int
    }

    /// The place of the next byte to be read.
    pub closed spec fn place(&self) -> Position {
        self.position
    }

    /// The lexer stands within its text, and its place is the line and the
    /// column of the byte at which it stands.
    pub open spec fn wf(&self) -> bool {
        &&& 0 <= self.offset() <= self.input().len()
        &&& self.input().len() < u32::MAX
        &&& self.place().line == position_at(self.input(), self.offset()).0
        &&& self.place().column == position_at(self.input(), self.offset()).1
    }

    /// A lexer at the start of `reader`: line 1, column 0.
    pub fn new(reader: &[u8]) -> (r: Result<Lexer, Error>)
        requires
            reader@.len() < u32::MAX,
        ensures
            r matches Ok(lexer) && lexer.wf() && lexer.input() == reader@ && lexer.offset() == 0,
    {
        Ok(Lexer { input: slice_to_vec(reader), offset: 0, position: Position::new(1, 0) })
    }

    /// The byte at which the lexer stands, if any is left.
    fn current(&self) -> (b: Option<u8>)
        requires
            self.wf(),
        ensures
            b == if self.offset() < self.input().len() {
                Some(self.input()[self.offset()])
            } else {
                None
            },
    {
        if self.offset < self.input.len() {
            Some(self.input[self.offset])
        } else {
            None
        }
    }

    /// Passes over one byte.
    fn advance(&mut self)
        requires
            old(self).wf(),
            old(self).offset() < old(self).input().len(),
        ensures
            final(self).wf(),
            final(self).input() == old(self).input(),
            final(self).offset() == old(self).offset() + 1,
    {
        proof {
            lemma_position_bound(self.input@, self.offset as int);
        }
        if self.input[self.offset] == 0x0a {
            self.position.line = self.position.line + 1;
            self.position.column = 0;
        } else {
            self.position.column = self.position.column + 1;
        }
        self.offset = self.offset + 1;
    }

    /// Passes over white space.
    fn skip_whitespace(&mut self)
        requires
            old(self).wf(),
        ensures
            final(self).wf(),
            final(self).input() == old(self).input(),
            final(self).offset() == spaces_end(old(self).input(), old(self).offset()),
    {
        while self.offset < self.input.len() && byte_is_space(self.input[self.offset])
            invariant
                self.wf(),
                self.input() == old(self).input(),
                spaces_end(self.input(), self.offset()) == spaces_end(
                    old(self).input(),
                    old(self).offset(),
                ),
            decreases self.input().len() - self.offset(),
        {
            self.advance();
        }
    }

    /// Reads the next token. Returns `None` at the end of the text, and an
    /// error for a byte that starts no token; that byte is passed over.
    pub fn next_token(&mut self) -> (r: Result<Option<Token>, Error>)
        requires
            old(self).wf(),
        ensures
            final(self).wf(),
            final(self).input() == old(self).input(),
            final(self).offset() == scan_end(old(self).input(), old(self).offset()),
            match scan(old(self).input(), old(self).offset()) {
                Scan::End => r matches Ok(None),
                Scan::Token(t, _) => r matches Ok(Some(token)) && token@ == t,
                Scan::Invalid(b, at) => r matches Err(Error::InvalidByte(byte, place)) && byte == b
                    && place.line == position_at(old(self).input(), at).0 && place.column
                    == position_at(old(self).input(), at).1,
            },
    {
        let ghost s = self.input@;
        self.skip_whitespace();
        let current: u8 = match self.current() {
            Some(b) => b,
            None => {
                return Ok(None);
            },
        };
        let ghost i = self.offset as int;
        let current_pos = self.position;
        self.advance();
        if current == 0x2b {
            Ok(Some(Token::Plus))
        } else if current == 0x2d {
            Ok(Some(Token::Minus))
        } else if current == 0x28 {
            Ok(Some(Token::LeftParen))
        } else if current == 0x29 {
            Ok(Some(Token::RightParen))
        } else if current == 0x3d {
            Ok(Some(Token::Equal))
        } else if current == 0x3e {
            Ok(Some(Token::GreaterThan))
        } else if current == 0x3c {
            Ok(Some(Token::LessThan))
        } else if current == 0x3b {
            Ok(Some(Token::Semicolon))
        } else if current == 0x2c {
            Ok(Some(Token::Comma))
        } else if current == 0x3a {
            match self.current() {
                Some(0x3d) => {
                    self.advance();
                    Ok(Some(Token::Assign))
                },
                _ => Ok(Some(Token::Colon)),
            }
        } else if byte_is_digit(current) {
            let mut num: u32 = (current - 0x30) as u32;
            assert(number(s, i, i + 1) == num) by {
                assert(number(s, i, i) == 0);
            }
            while self.offset < self.input.len() && byte_is_digit(self.input[self.offset])
                invariant
                    self.wf(),
                    self.input() == s,
                    0 <= i < self.offset() <= s.len(),
                    num == number(s, i, self.offset()),
                    digits_end(s, i + 1) == digits_end(s, self.offset()),
                decreases s.len() - self.offset(),
            {
                let digit: u8 = self.input[self.offset] - 0x30;
                num = num.wrapping_mul(10).wrapping_add(digit as u32);
                self.advance();
            }
            Ok(Some(Token::Number(num)))
        } else if byte_is_word_start(current) {
            let mut word = String::new();
            word.push(current as char);
            assert(word@ =~= chars_of(s.subrange(i, i + 1)));
            while self.offset < self.input.len() && (byte_is_word_start(self.input[self.offset])
                || byte_is_digit(self.input[self.offset]))
                invariant
                    self.wf(),
                    self.input() == s,
                    0 <= i < self.offset() <= s.len(),
                    word@ == chars_of(s.subrange(i, self.offset())),
                    word_end(s, i + 1) == word_end(s, self.offset()),
                decreases s.len() - self.offset(),
            {
                let ghost at = self.offset as int;
                let ghost so_far = word@;
                word.push(self.input[self.offset] as char);
                self.advance();
                assert(word@ =~= chars_of(s.subrange(i, at + 1))) by {
                    assert(word@ == so_far.push(s[at] as char));
                    assert(s.subrange(i, at + 1) =~= s.subrange(i, at).push(s[at]));
                }
            }
            Ok(Some(classify(word)))
        } else {
            Err(Error::InvalidByte(current, current_pos))
        }
    }

    /// One step of the lexer: the next token, an error for an invalid byte,
    /// or `None` at the end of the text.
    pub fn next(&mut self) -> (r: Option<Result<Token, Error>>)
        requires
            old(self).wf(),
        ensures
            final(self).wf(),
            final(self).input() == old(self).input(),
            final(self).offset() == scan_end(old(self).input(), old(self).offset()),
            step_result(old(self).input(), old(self).offset(), r),
    {
        match self.next_token() {
            Ok(Some(token)) => Some(Ok(token)),
            Ok(None) => None,
            Err(err) => Some(Err(err)),
        }
    }

    /// Makes `n` steps and returns the result of the step that follows them.
    pub fn nth(&mut self, n: usize) -> (r: Option<Result<Token, Error>>)
        requires
            old(self).wf(),
        ensures
            final(self).wf(),
            final(self).input() == old(self).input(),
            final(self).offset() == after(old(self).input(), old(self).offset(), (n + 1) as nat),
            step_result(
                old(self).input(),
                after(old(self).input(), old(self).offset(), n as nat),
                r,
            ),
    {
        let ghost s = self.input@;
        let ghost from = self.offset as int;
        let mut k: usize = 0;
        while k < n
            invariant
                self.wf(),
                self.input() == s,
                k <= n,
                self.offset() == after(s, from, k as nat),
            decreases n - k,
        {
            let _ = self.next();
            k = k + 1;
        }
        self.next()
    }
}

} // verus!
