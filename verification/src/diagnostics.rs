//! The messages that report an error to the user.

use crate::scheme::{SemanticError, SemanticErrorView};
use crate::text::{decimal, push_decimal};
use vstd::prelude::*;
use vstd::string::StringExecFns;

verus! {

/// What the parser rejects, with the byte offsets at which it does.
#[derive(Debug, PartialEq, Eq)]
pub enum SyntaxError {
    /// No token starts at `location`.
    InvalidToken { location: usize },
    /// The text ends at `location`, where one of `expected` should follow.
    UnrecognizedEof { location: usize, expected: Vec<String> },
    /// The token `text` from `start` to `end` stands where one of `expected`
    /// should.
    UnrecognizedToken { start: usize, text: String, end: usize, expected: Vec<String> },
    /// The token `text` from `start` to `end` stands where nothing should.
    ExtraToken { start: usize, text: String, end: usize },
}

/// What a `SyntaxError` stands for.
pub enum SyntaxErrorView {
    InvalidToken { location: usize },
    UnrecognizedEof { location: usize, expected: Seq<Seq<char>> },
    UnrecognizedToken { start: usize, text: Seq<char>, end: usize, expected: Seq<Seq<char>> },
    ExtraToken { start: usize, text: Seq<char>, end: usize },
}

/// What the strings say.
pub open spec fn views(items: Seq<String>) -> Seq<Seq<char>> {
    Seq::new(items.len(), |i: int| items[i]@)
}

impl View for SyntaxError {
    type V = SyntaxErrorView;

    open spec fn view(&self) -> SyntaxErrorView {
        match self {
            SyntaxError::InvalidToken { location } => SyntaxErrorView::InvalidToken {
                location: *location,
            },
            SyntaxError::UnrecognizedEof { location, expected } => SyntaxErrorView::UnrecognizedEof {
                location: *location,
                expected: views(expected@),
            },
            SyntaxError::UnrecognizedToken {
                start,
                text,
                end,
                expected,
            } => SyntaxErrorView::UnrecognizedToken {
                start: *start,
                text: text@,
                end: *end,
                expected: views(expected@),
            },
            SyntaxError::ExtraToken { start, text, end } => SyntaxErrorView::ExtraToken {
                start: *start,
                text: text@,
                end: *end,
            },
        }
    }
}

/// The items, with `separator` between each two of them.
pub open spec fn joined(items: Seq<Seq<char>>, separator: Seq<char>) -> Seq<char>
    decreases items.len(),
{
    if items.len() == 0 {
        Seq::empty()
    } else if items.len() == 1 {
        items[0]
    } else {
        joined(items.drop_last(), separator) + separator + items.last()
    }
}

/// The span from `start` to `end`, as a message writes it.
pub open spec fn span_text(start: usize, end: usize) -> Seq<char> {
    decimal(start as nat) + "~"@ + decimal(end as nat)
}

/// The message for a name that is used without a declaration.
pub open spec fn semantic_message(err: SemanticErrorView) -> Seq<char> {
    match err {
        SemanticErrorView::UndefinedVariable(name, start, end) => "语义错误：变量 "@ + name
            + " 未定义\n位置："@ + span_text(start, end),
    }
}

/// The message for what the parser rejects.
pub open spec fn syntax_message(err: SyntaxErrorView) -> Seq<char> {
    match err {
        SyntaxErrorView::InvalidToken { location } => "语法错误：无效的 token\n位置："@ + decimal(
            location as nat,
        ),
        SyntaxErrorView::UnrecognizedEof {
            location,
            expected,
        } => "语法错误：预料之外的 EOF，语法不完整，期望 "@ + joined(expected, ", "@) + "\n位置："@
            + decimal(location as nat),
        SyntaxErrorView::UnrecognizedToken {
            start,
            text,
            end,
            expected,
        } => "语法错误：预料之外的 \""@ + text + "\"，期望 "@ + joined(expected, ", "@)
            + "\n位置："@ + span_text(start, end),
        SyntaxErrorView::ExtraToken {
            start,
            text,
            end,
        } => "语法错误：预料之外的 \""@ + text + "\"，此处不应有此 token\n位置："@ + span_text(
            start,
            end,
        ),
    }
}

/// The byte offset at which the parser rejects the text.
pub open spec fn syntax_location(err: SyntaxErrorView) -> usize {
    match err {
        SyntaxErrorView::InvalidToken { location } => location,
        SyntaxErrorView::UnrecognizedEof { location, .. } => location,
        SyntaxErrorView::UnrecognizedToken { start, .. } => start,
        SyntaxErrorView::ExtraToken { start, .. } => start,
    }
}

/// The short message that gives the place of a syntax error only.
pub open spec fn syntax_notice(err: SyntaxErrorView) -> Seq<char> {
    "语法错误，位置 "@ + decimal(syntax_location(err) as nat)
}

/// Appends the items, with `separator` between each two of them.
pub fn push_joined(out: &mut String, items: &Vec<String>, separator: &str)
    ensures
        final(out)@ == old(out)@ + joined(views(items@), separator@),
{
    let mut i: usize = 0;
    assert(views(items@).take(0) =~= Seq::<Seq<char>>::empty());
    assert(out@ =~= old(out)@ + joined(views(items@).take(0), separator@));
    while i < items.len()
        invariant
            i <= items@.len(),
            out@ == old(out)@ + joined(views(items@).take(i as int), separator@),
        decreases items@.len() - i,
    {
        let ghost all = views(items@);
        let ghost before = joined(all.take(i as int), separator@);
        proof {
            assert(all.take(i + 1).drop_last() =~= all.take(i as int));
            assert(all.take(i + 1).last() == items@[i as int]@);
        }
        if i > 0 {
            out.append(separator);
        }
        out.append(items[i].as_str());
        proof {
            if i > 0 {
                assert(out@ =~= old(out)@ + (before + separator@ + items@[i as int]@));
            } else {
                assert(before =~= Seq::<char>::empty());
                assert(all.take(1)[0] == items@[0]@);
                assert(out@ =~= old(out)@ + items@[0]@);
            }
        }
        i = i + 1;
    }
    assert(views(items@).take(i as int) =~= views(items@));
}

/// Appends the span from `start` to `end`.
pub fn push_span(out: &mut String, start: usize, end: usize)
    ensures
        final(out)@ == old(out)@ + span_text(start, end),
{
    push_decimal(out, start as u64);
    out.append("~");
    push_decimal(out, end as u64);
    assert(out@ =~= old(out)@ + span_text(start, end));
}

impl SemanticError {
    /// The message that reports the error: the name and the span of its use.
    pub fn message(&self) -> (text: String)
        ensures
            text@ == semantic_message(self@),
    {
        let mut out = String::new();
        match self {
            SemanticError::UndefinedVariable(name, start, end) => {
                out.append("语义错误：变量 ");
                out.append(name.as_str());
                out.append(" 未定义\n位置：");
                push_span(&mut out, *start, *end);
            },
        }
        assert(out@ =~= semantic_message(self@));
        out
    }
}

impl SyntaxError {
    /// The byte offset at which the parser rejects the text.
    pub fn location(&self) -> (at: usize)
        ensures
            at == syntax_location(self@),
    {
        match self {
            SyntaxError::InvalidToken { location } => *location,
            SyntaxError::UnrecognizedEof { location, .. } => *location,
            SyntaxError::UnrecognizedToken { start, .. } => *start,
            SyntaxError::ExtraToken { start, .. } => *start,
        }
    }

    /// The short message that gives the place of the error only.
    pub fn notice(&self) -> (text: String)
        ensures
            text@ == syntax_notice(self@),
    {
        let mut out = String::new();
        out.append("语法错误，位置 ");
        push_decimal(&mut out, self.location() as u64);
        assert(out@ =~= syntax_notice(self@));
        out
    }

    /// The message that reports the error in full.
    pub fn message(&self) -> (text: String)
        ensures
            text@ == syntax_message(self@),
    {
        let mut out = String::new();
        match self {
            SyntaxError::InvalidToken { location } => {
                out.append("语法错误：无效的 token\n位置：");
                push_decimal(&mut out, *location as u64);
            },
            SyntaxError::UnrecognizedEof { location, expected } => {
                out.append("语法错误：预料之外的 EOF，语法不完整，期望 ");
                push_joined(&mut out, expected, ", ");
                out.append("\n位置：");
                push_decimal(&mut out, *location as u64);
            },
            SyntaxError::UnrecognizedToken { start, text, end, expected } => {
                out.append("语法错误：预料之外的 \"");
                out.append(text.as_str());
                out.append("\"，期望 ");
                push_joined(&mut out, expected, ", ");
                out.append("\n位置：");
                push_span(&mut out, *start, *end);
            },
            SyntaxError::ExtraToken { start, text, end } => {
                out.append("语法错误：预料之外的 \"");
                out.append(text.as_str());
                out.append("\"，此处不应有此 token\n位置：");
                push_span(&mut out, *start, *end);
            },
        }
        assert(out@ =~= syntax_message(self@));
        out
    }
}

} // verus!
