//! The listings of a finished translation: one line for each quadruple and a
//! closing `nop`, and one line for each declared name.

use crate::ast::Type;
use crate::quad::{Operand, Quad, QuadItem, QuadView, State, QUAD_ID_OFFSET};
use crate::symbols::SymbolTable;
use crate::text::{decimal, push_decimal};
use vstd::prelude::*;
use vstd::string::{StrSliceExecFns, StringExecFns};

verus! {

/// `n` spaces.
pub open spec fn spaces(n: nat) -> Seq<char> {
    Seq::new(n, |i: int| ' ')
}

/// The text, with spaces before it where it is shorter than `width`.
pub open spec fn pad_left(text: Seq<char>, width: nat) -> Seq<char> {
    if text.len() < width {
        spaces((width - text.len()) as nat) + text
    } else {
        text
    }
}

/// The text, with spaces after it where it is shorter than `width`.
pub open spec fn pad_right(text: Seq<char>, width: nat) -> Seq<char> {
    if text.len() < width {
        text + spaces((width - text.len()) as nat)
    } else {
        text
    }
}

/// How a field of a quadruple is written: `_` for an empty field, a number
/// in decimal, a name as it is.
pub open spec fn operand_text(item: Operand) -> Seq<char> {
    match item {
        Operand::Empty => "_"@,
        Operand::Num(n) => decimal(n as nat),
        Operand::Id(name) => name,
        Operand::TFList(_, _) => "<err>"@,
    }
}

/// The line of the quadruple at address `addr`.
pub open spec fn quad_line(addr: nat, q: QuadView) -> Seq<char> {
    decimal(addr) + ":  ("@ + pad_right(q.op.mnemonic(), 3) + ", "@ + pad_left(
        operand_text(q.arg1),
        4,
    ) + ", "@ + pad_left(operand_text(q.arg2), 4) + ", "@ + pad_left(operand_text(q.result), 4)
        + ")"@
}

/// The line that closes a listing: a `nop` at address `addr`.
pub open spec fn nop_line(addr: nat) -> Seq<char> {
    decimal(addr) + ":  (nop,    _,    _,    _)"@
}

/// The listing of a program: the line of each quadruple, with addresses
/// that count up from `QUAD_ID_OFFSET` without a gap, and a closing `nop`
/// at the address after the last quadruple.
pub open spec fn program_listing(q: Seq<QuadView>) -> Seq<Seq<char>> {
    Seq::new(
        q.len() + 1,
        |i: int|
            if i < q.len() {
                quad_line((QUAD_ID_OFFSET + i) as nat, q[i])
            } else {
                nop_line((QUAD_ID_OFFSET + q.len()) as nat)
            },
    )
}

/// How a type is written.
pub open spec fn type_label(ty: Type) -> Seq<char> {
    match ty {
        Type::Int => "int"@,
        Type::Bool => "bool"@,
    }
}

/// The name is that of a temporary: it starts with `$`.
pub open spec fn is_temporary(name: Seq<char>) -> bool {
    name.len() > 0 && name[0] == '$'
}

/// The line of a declared name.
pub open spec fn symbol_line(name: Seq<char>, ty: Type) -> Seq<char> {
    pad_left(name, 10) + " "@ + pad_left(type_label(ty), 5)
}

/// The listing of a symbol table: the line of each name that is no
/// temporary, in the order of the table.
pub open spec fn symbol_listing(entries: Seq<(Seq<char>, Type)>) -> Seq<Seq<char>>
    decreases entries.len(),
{
    if entries.len() == 0 {
        Seq::empty()
    } else {
        let front = symbol_listing(entries.drop_last());
        let last = entries.last();
        if is_temporary(last.0) {
            front
        } else {
            front.push(symbol_line(last.0, last.1))
        }
    }
}

/// What the lines say.
pub open spec fn texts(lines: Seq<String>) -> Seq<Seq<char>> {
    Seq::new(lines.len(), |i: int| lines[i]@)
}

/// Appends `n` spaces.
pub fn push_spaces(out: &mut String, n: usize)
    ensures
        final(out)@ == old(out)@ + spaces(n as nat),
{
    let mut i: usize = 0;
    assert(out@ =~= old(out)@ + spaces(0));
    while i < n
        invariant
            i <= n,
            out@ == old(out)@ + spaces(i as nat),
        decreases n - i,
    {
        out.push(' ');
        i = i + 1;
        assert(out@ =~= old(out)@ + spaces(i as nat));
    }
}

/// Appends the text, with spaces before it where it is shorter than `width`.
pub fn push_padded_left(out: &mut String, text: &str, width: usize)
    ensures
        final(out)@ == old(out)@ + pad_left(text@, width as nat),
{
    let len: usize = text.unicode_len();
    if len < width {
        push_spaces(out, width - len);
    }
    out.append(text);
    assert(out@ =~= old(out)@ + pad_left(text@, width as nat));
}

/// Appends the text, with spaces after it where it is shorter than `width`.
pub fn push_padded_right(out: &mut String, text: &str, width: usize)
    ensures
        final(out)@ == old(out)@ + pad_right(text@, width as nat),
{
    let len: usize = text.unicode_len();
    out.append(text);
    if len < width {
        push_spaces(out, width - len);
    }
    assert(out@ =~= old(out)@ + pad_right(text@, width as nat));
}

impl QuadItem {
    /// How the item is written in a listing.
    pub fn to_string(&self) -> (s: String)
        ensures
            s@ == operand_text(self@),
    {
        let mut out = String::new();
        match self {
            QuadItem::Empty => {
                out.append("_");
            },
            QuadItem::Num(num) => {
                push_decimal(&mut out, *num as u64);
            },
            QuadItem::Id(id) => {
                out.append(id.as_str());
            },
            QuadItem::TFList(_, _) => {
                out.append("<err>");
            },
        }
        assert(out@ =~= operand_text(self@));
        out
    }
}

/// The line of the quadruple `quad` at address `addr`.
pub fn format_quad(addr: usize, quad: &Quad) -> (line: String)
    ensures
        line@ == quad_line(addr as nat, quad@),
{
    let mut out = String::new();
    push_decimal(&mut out, addr as u64);
    out.append(":  (");
    push_padded_right(&mut out, quad.op.symbol(), 3);
    out.append(", ");
    let a = quad.arg1.to_string();
    push_padded_left(&mut out, a.as_str(), 4);
    out.append(", ");
    let b = quad.arg2.to_string();
    push_padded_left(&mut out, b.as_str(), 4);
    out.append(", ");
    let r = quad.result.to_string();
    push_padded_left(&mut out, r.as_str(), 4);
    out.append(")");
    assert(out@ =~= quad_line(addr as nat, quad@));
    out
}

/// The line that closes a listing.
pub fn format_nop(addr: usize) -> (line: String)
    ensures
        line@ == nop_line(addr as nat),
{
    let mut out = String::new();
    push_decimal(&mut out, addr as u64);
    out.append(":  (nop,    _,    _,    _)");
    assert(out@ =~= nop_line(addr as nat));
    out
}

/// The listing of the program of `state`: one line for each quadruple, at
/// addresses that count up from `QUAD_ID_OFFSET` without a gap, and a last
/// line with a `nop` at the address after the last quadruple.
pub fn list_quads(state: &State) -> (lines: Vec<String>)
    requires
        state.quads@.len() + QUAD_ID_OFFSET <= usize::MAX,
    ensures
        texts(lines@) == program_listing(state.program()),
        lines@.len() == state.quads@.len() + 1,
        lines@.last()@ == nop_line((QUAD_ID_OFFSET + state.quads@.len()) as nat),
{
    let mut lines: Vec<String> = Vec::new();
    let mut i: usize = 0;
    while i < state.quads.len()
        invariant
            i <= state.quads@.len(),
            state.quads@.len() + QUAD_ID_OFFSET <= usize::MAX,
            lines@.len() == i,
            forall|k: int|
                0 <= k < i ==> (#[trigger] lines@[k])@ == quad_line(
                    (QUAD_ID_OFFSET + k) as nat,
                    state.program()[k],
                ),
        decreases state.quads@.len() - i,
    {
        let line = format_quad(i + QUAD_ID_OFFSET, &state.quads[i]);
        lines.push(line);
        i = i + 1;
    }
    lines.push(format_nop(state.quad_id()));
    assert(texts(lines@) =~= program_listing(state.program()));
    lines
}

/// How the type is written.
pub fn label(ty: Type) -> (s: &'static str)
    ensures
        s@ == type_label(ty),
{
    match ty {
        Type::Int => "int",
        Type::Bool => "bool",
    }
}

/// Whether the name is that of a temporary.
pub fn names_temporary(name: &str) -> (r: bool)
    ensures
        r == is_temporary(name@),
{
    name.unicode_len() > 0 && name.get_char(0) == '$'
}

/// The listing of the symbol table: one line for each declared name that is
/// no temporary.
pub fn list_symbols(table: &SymbolTable) -> (lines: Vec<String>)
    ensures
        texts(lines@) == symbol_listing(table@),
{
    let mut lines: Vec<String> = Vec::new();
    let mut i: usize = 0;
    assert(table@.take(0) =~= Seq::<(Seq<char>, Type)>::empty());
    assert(texts(lines@) =~= symbol_listing(table@.take(0)));
    while i < table.len()
        invariant
            i <= table@.len(),
            texts(lines@) == symbol_listing(table@.take(i as int)),
        decreases table@.len() - i,
    {
        let ghost before = texts(lines@);
        proof {
            assert(table@.take(i + 1).drop_last() =~= table@.take(i as int));
            assert(table@.take(i + 1).last() == table@[i as int]);
        }
        let name = table.name_at(i);
        if !names_temporary(name.as_str()) {
            let mut out = String::new();
            push_padded_left(&mut out, name.as_str(), 10);
            out.append(" ");
            push_padded_left(&mut out, label(table.type_at(i)), 5);
            assert(out@ =~= symbol_line(name@, table@[i as int].1));
            lines.push(out);
            assert(texts(lines@) =~= before.push(symbol_line(name@, table@[i as int].1)));
        }
        i = i + 1;
    }
    assert(table@.take(i as int) =~= table@);
    lines
}

} // verus!
