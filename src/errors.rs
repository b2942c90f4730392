//! The single closed taxonomy of errors: lexing, parsing, compiling and
//! running.
use vstd::prelude::*;
use vstd::string::*;
use crate::text::{chars_of, decimal, push_char, push_usize};
use crate::ast::Ast;
use crate::opcodes::Op;
use crate::token::{Kind, Token};
use crate::value::{type_name_of, Value};
use crate::vm::HeapPtr;

verus! {

/// Every failure that the library reports.
#[derive(Debug)]
pub enum Error {
    /// An operation needed more entries than the stack holds.
    StackUnderflow,
    /// A pointer beyond the end of the heap.
    MemoryAccessOutOfRange(HeapPtr),
    /// A pointer to a freed heap slot.
    InvalidMemoryAccess(HeapPtr),
    /// A global that was never assigned.
    GlobalNotFound(String),
    /// An operator applied to values it does not take.
    IncompatibleOperands(Op, Value, Value),
    /// An index outside the string or list.
    IndexOutOfRange(Value, usize),
    /// An instruction that must not reach the VM, at that address.
    InvalidOpCode(usize),
    /// `append` to something other than a list.
    InvalidAppend(Value),
    /// A jump to a target that no marker defines.
    JumpTargetNotFound(usize),
    /// Integer division or remainder by zero.
    DivisionByZero,
    /// A comparison of lists that nests deeper than any acyclic heap allows:
    /// the lists are cyclic and the comparison would never end.
    RecursionLimit,
    /// A character that starts no token, at that offset.
    SyntaxError(usize),
    /// The source ended in the middle of a token or a construct.
    UnexpectedEOF,
    /// A backslash escape that strings do not have, and its offset.
    InvalidStringEscape(char, usize),
    /// A token that cannot be read as what it claims to be.
    ParsingError(Token),
    /// A token other than the kinds expected there.
    UnexpectedToken(Token, Vec<Kind>),
    /// The left side of an assignment is neither a variable nor an index.
    InvalidAssignmentTarget(Ast),
    /// A built-in called with fewer arguments than it needs: the call, the
    /// name, the count given and the count needed.
    NotEnoughArguments(Ast, String, usize, usize),
    /// A construct that the language reserves but does not implement: a
    /// call of anything but a built-in.
    NotImplemented(Ast),
}

/// How many newlines `s` holds.
pub open spec fn count_nl(s: Seq<char>) -> nat
    decreases s.len(),
{
    if s.len() == 0 {
        0
    } else {
        count_nl(s.drop_last()) + if s.last() == '\n' {
            1nat
        } else {
            0nat
        }
    }
}

/// Where the line that holds the end of `s` starts: just after the last
/// newline of `s`, or 0.
pub open spec fn line_start(s: Seq<char>) -> nat
    decreases s.len(),
{
    if s.len() == 0 {
        0
    } else if s.last() == '\n' {
        s.len()
    } else {
        line_start(s.drop_last())
    }
}

/// The first newline at or after `j`, or the length of `src`.
pub open spec fn next_nl(src: Seq<char>, j: int) -> nat
    decreases src.len() - j,
{
    if j >= src.len() {
        src.len()
    } else if j >= 0 && src[j] == '\n' {
        j as nat
    } else {
        next_nl(src, j + 1)
    }
}

/// Where offset `at` stands in `src`: 1-based line and column, and the
/// offsets where its line starts and ends. An offset past the end stands
/// just after the last character.
pub open spec fn location_of(src: Seq<char>, at: int) -> (nat, nat, nat, nat) {
    let k = if 0 <= at < src.len() {
        at
    } else {
        src.len() as int
    };
    let pre = src.subrange(0, k);
    let rs = line_start(pre);
    (
        1 + count_nl(pre),
        (k - rs + 1) as nat,
        rs,
        if 0 <= at < src.len() {
            next_nl(src, at + 1)
        } else {
            src.len()
        },
    )
}

/// `n` spaces.
pub open spec fn spaces(n: nat) -> Seq<char> {
    Seq::new(n, |i: int| ' ')
}

/// The two report lines for offset `at`: `(row, col): | <line>` and a caret
/// under the column.
pub open spec fn source_line(src: Seq<char>, at: int) -> Seq<char> {
    let (row, col, rs, re) = location_of(src, at);
    let address = seq!['('] + decimal(row) + ", "@ + decimal(col) + "): "@;
    address + "| "@ + src.subrange(rs as int, re as int) + seq!['\n'] + spaces(address.len()) + "| "@ + spaces(
        (col - 1) as nat,
    ) + seq!['^']
}

/// Appends `n` spaces.
fn push_spaces(s: &mut String, n: usize)
    ensures
        final(s)@ == old(s)@ + spaces(n as nat),
{
    let mut i: usize = 0;
    while i < n
        invariant
            i <= n,
            s@ == old(s)@ + spaces(i as nat),
        decreases n - i,
    {
        push_char(s, ' ');
        i += 1;
        assert(s@ =~= old(s)@ + spaces(i as nat));
    }
}

impl Error {
    /// Line, column, line start and line end of offset `at` in `source`.
    fn location(source: &Vec<char>, at: usize) -> (r: (usize, usize, usize, usize))
        requires
            source@.len() < usize::MAX,
        ensures
            r.0 as nat == location_of(source@, at as int).0,
            r.1 as nat == location_of(source@, at as int).1,
            r.2 as nat == location_of(source@, at as int).2,
            r.3 as nat == location_of(source@, at as int).3,
    {
        let src = source;
        let n = src.len();
        let k = if at < n {
            at
        } else {
            n
        };
        let mut row: usize = 1;
        let mut row_start: usize = 0;
        let mut i: usize = 0;
        while i < k
            invariant
                k <= n == src@.len(),
                n < usize::MAX,
                i <= k,
                row as nat == 1 + count_nl(src@.subrange(0, i as int)),
                row_start as nat == line_start(src@.subrange(0, i as int)),
                row <= i + 1,
                row_start <= i,
            decreases k - i,
        {
            let ghost pre = src@.subrange(0, i as int);
            assert(src@.subrange(0, i + 1).drop_last() =~= pre);
            if src[i] == '\n' {
                row += 1;
                row_start = i + 1;
            }
            i += 1;
        }
        let column = k - row_start + 1;
        let mut row_end = n;
        if at < n {
            let mut j = at + 1;
            while j < n && src[j] != '\n'
                invariant
                    at < n == src@.len(),
                    at + 1 <= j <= n,
                    next_nl(src@, at + 1) == next_nl(src@, j as int),
                decreases n - j,
            {
                j += 1;
            }
            row_end = j;
        }
        (row, column, row_start, row_end)
    }
}

/// The kinds `ks` as a list: `[Int, Str]`.
pub open spec fn kinds_text(ks: Seq<Kind>) -> Seq<char>
    decreases ks.len(),
{
    if ks.len() == 0 {
        Seq::empty()
    } else if ks.len() == 1 {
        ks[0].name_spec()
    } else {
        kinds_text(ks.drop_last()) + ", "@ + ks.last().name_spec()
    }
}

/// The text of a heap pointer: `HeapPtr(3)`.
pub open spec fn heap_ptr_text(p: HeapPtr) -> Seq<char> {
    "HeapPtr("@ + decimal(p.0 as nat) + seq![')']
}

/// The one-line message of an error.
pub open spec fn message_of(e: Error) -> Seq<char> {
    match e {
        Error::StackUnderflow => "Stack Underflow"@,
        Error::MemoryAccessOutOfRange(p) => "Memory access out of range at "@ + heap_ptr_text(p),
        Error::InvalidMemoryAccess(p) => "Attempt to access empty memory position at "@ + heap_ptr_text(p),
        Error::GlobalNotFound(name) => "Global variable '"@ + name@ + "' not found"@,
        Error::IncompatibleOperands(op, a, b) => "Cannot execute "@ + op.name_spec() + " on "@ + type_name_of(a@)
            + " and "@ + type_name_of(b@),
        Error::IndexOutOfRange(v, i) => "Index out of range "@ + decimal(i as nat) + " of "@ + type_name_of(v@),
        Error::InvalidOpCode(i) => "Invalid opcode at "@ + decimal(i as nat),
        Error::InvalidAppend(v) => "Cannot append to "@ + type_name_of(v@),
        Error::JumpTargetNotFound(id) => "Jump with unknown target "@ + decimal(id as nat),
        Error::DivisionByZero => "Division by zero"@,
        Error::RecursionLimit => "Comparison of lists nested too deeply"@,
        Error::SyntaxError(at) => "Syntax error at "@ + decimal(at as nat),
        Error::UnexpectedEOF => "Unexpected end of source"@,
        Error::InvalidStringEscape(c, at) => "Invalid string escape '"@ + seq![c] + "' at "@ + decimal(at as nat),
        Error::ParsingError(tk) => "Unexpected token "@ + tk.kind.name_spec() + " \""@ + tk.value@ + "\" at "@
            + decimal(tk.at.start as nat),
        Error::UnexpectedToken(tk, ks) => "Unexpected token "@ + tk.kind.name_spec() + " at "@ + decimal(
            tk.at.start as nat,
        ) + ", expected one of ["@ + kinds_text(ks@) + seq![']'],
        Error::InvalidAssignmentTarget(a) => a.description() + " is not a valid target for an assignment"@,
        Error::NotEnoughArguments(_, name, given, needed) => "Not enough arguments to "@ + name@ + ", given "@
            + decimal(given as nat) + " but expected "@ + decimal(needed as nat),
        Error::NotImplemented(a) => a.description() + " is not implemented"@,
    }
}

/// Appends the list text of `ks`.
fn push_kinds(s: &mut String, ks: &Vec<Kind>)
    ensures
        final(s)@ == old(s)@ + kinds_text(ks@),
{
    let mut i: usize = 0;
    while i < ks.len()
        invariant
            i <= ks@.len(),
            s@ == old(s)@ + kinds_text(ks@.subrange(0, i as int)),
        decreases ks@.len() - i,
    {
        let ghost pre = ks@.subrange(0, i as int);
        if i > 0 {
            s.append(", ");
        }
        s.append(ks[i].name());
        proof {
            let next = ks@.subrange(0, i + 1);
            assert(next.drop_last() =~= pre);
            assert(next.last() == ks@[i as int]);
            if i == 0 {
                assert(next.len() == 1);
                assert(pre =~= Seq::<Kind>::empty());
            }
            assert(s@ =~= old(s)@ + kinds_text(next));
        }
        i += 1;
    }
    assert(ks@.subrange(0, ks@.len() as int) =~= ks@);
}

/// Appends the text of a heap pointer.
fn push_heap_ptr(s: &mut String, p: HeapPtr)
    ensures
        final(s)@ == old(s)@ + heap_ptr_text(p),
{
    s.append("HeapPtr(");
    push_usize(s, p.0);
    push_char(s, ')');
    assert(s@ =~= old(s)@ + heap_ptr_text(p));
}

impl Error {
    /// The one-line message of the error.
    pub fn message(&self) -> (r: String)
        ensures
            r@ == message_of(*self),
    {
        let mut s = String::new();
        match self {
            Error::StackUnderflow => s.append("Stack Underflow"),
            Error::MemoryAccessOutOfRange(p) => {
                s.append("Memory access out of range at ");
                push_heap_ptr(&mut s, *p);
            },
            Error::InvalidMemoryAccess(p) => {
                s.append("Attempt to access empty memory position at ");
                push_heap_ptr(&mut s, *p);
            },
            Error::GlobalNotFound(name) => {
                s.append("Global variable '");
                s.append(name.as_str());
                s.append("' not found");
            },
            Error::IncompatibleOperands(op, a, b) => {
                s.append("Cannot execute ");
                s.append(op.name());
                s.append(" on ");
                s.append(a.kind_name().as_str());
                s.append(" and ");
                s.append(b.kind_name().as_str());
            },
            Error::IndexOutOfRange(v, i) => {
                s.append("Index out of range ");
                push_usize(&mut s, *i);
                s.append(" of ");
                s.append(v.kind_name().as_str());
            },
            Error::InvalidOpCode(i) => {
                s.append("Invalid opcode at ");
                push_usize(&mut s, *i);
            },
            Error::InvalidAppend(v) => {
                s.append("Cannot append to ");
                s.append(v.kind_name().as_str());
            },
            Error::JumpTargetNotFound(id) => {
                s.append("Jump with unknown target ");
                push_usize(&mut s, *id);
            },
            Error::DivisionByZero => s.append("Division by zero"),
            Error::RecursionLimit => s.append("Comparison of lists nested too deeply"),
            Error::SyntaxError(at) => {
                s.append("Syntax error at ");
                push_usize(&mut s, *at);
            },
            Error::UnexpectedEOF => s.append("Unexpected end of source"),
            Error::InvalidStringEscape(c, at) => {
                s.append("Invalid string escape '");
                push_char(&mut s, *c);
                s.append("' at ");
                push_usize(&mut s, *at);
            },
            Error::ParsingError(tk) => {
                s.append("Unexpected token ");
                s.append(tk.kind.name());
                s.append(" \"");
                s.append(tk.value.as_str());
                s.append("\" at ");
                push_usize(&mut s, tk.at.start);
            },
            Error::UnexpectedToken(tk, ks) => {
                s.append("Unexpected token ");
                s.append(tk.kind.name());
                s.append(" at ");
                push_usize(&mut s, tk.at.start);
                s.append(", expected one of [");
                push_kinds(&mut s, ks);
                push_char(&mut s, ']');
            },
            Error::InvalidAssignmentTarget(a) => {
                s.append(a.pretty().as_str());
                s.append(" is not a valid target for an assignment");
            },
            Error::NotEnoughArguments(_, name, given, needed) => {
                s.append("Not enough arguments to ");
                s.append(name.as_str());
                s.append(", given ");
                push_usize(&mut s, *given);
                s.append(" but expected ");
                push_usize(&mut s, *needed);
            },
            Error::NotImplemented(a) => {
                s.append(a.pretty().as_str());
                s.append(" is not implemented");
            },
        }
        proof {
            assert(s@ =~= message_of(*self));
        }
        s
    }
}

/// The report of an error against its source: a description and, for
/// errors with a place in the source, the line and a caret under it.
pub open spec fn pretty_of(e: Error, src: Seq<char>) -> Seq<char> {
    match e {
        Error::SyntaxError(at) => "syntax error\n"@ + source_line(src, at as int),
        Error::UnexpectedEOF => "unexpected end of file\n"@ + source_line(src, src.len() as int),
        Error::InvalidStringEscape(c, at) => "invalid escape '"@ + seq![c] + "' inside a string\n"@ + source_line(
            src,
            at as int,
        ),
        Error::ParsingError(tk) => "unexpected input when reading a "@ + tk.kind.name_spec() + " with value \""@
            + tk.value@ + "\"\n"@ + source_line(src, tk.at.start as int),
        Error::UnexpectedToken(tk, ks) => "got a "@ + tk.kind.name_spec() + " but expected one of ["@ + kinds_text(
            ks@,
        ) + "]\n"@ + source_line(src, tk.at.start as int),
        Error::InvalidAssignmentTarget(a) => a.description() + " is not a valid target for assignment\n"@
            + source_line(src, a.span().start as int),
        Error::NotEnoughArguments(a, name, given, needed) => "not enough arguments to function '"@ + name@
            + "' (given "@ + decimal(given as nat) + ", expected "@ + decimal(needed as nat) + ")\n"@ + source_line(
            src,
            a.span().start as int,
        ),
        _ => message_of(e),
    }
}

impl Error {
    /// The two report lines for offset `at` of `source`.
    fn pretty_source_line(source: &Vec<char>, at: usize) -> (r: String)
        requires
            source@.len() < usize::MAX,
        ensures
            r@ == source_line(source@, at as int),
    {
        let (row, column, row_start, row_end) = Self::location(source, at);
        let ghost loc = location_of(source@, at as int);
        proof {
            let k = if at < source@.len() { at as int } else { source@.len() as int };
            lemma_line_start_le(source@.subrange(0, k));
            if at < source@.len() {
                lemma_next_nl_bounds(source@, at + 1);
            }
        }
        let mut address = String::new();
        push_char(&mut address, '(');
        push_usize(&mut address, row);
        address.append(", ");
        push_usize(&mut address, column);
        address.append("): ");
        let mut s = address.clone();
        s.append("| ");
        let mut i = row_start;
        let ghost before = s@;
        while i < row_end
            invariant
                row_start <= i <= row_end <= source@.len(),
                s@ == before + source@.subrange(row_start as int, i as int),
            decreases row_end - i,
        {
            push_char(&mut s, source[i]);
            i += 1;
            assert(s@ =~= before + source@.subrange(row_start as int, i as int));
        }
        push_char(&mut s, '\n');
        push_spaces(&mut s, address.as_str().unicode_len());
        s.append("| ");
        push_spaces(&mut s, column - 1);
        push_char(&mut s, '^');
        proof {
            assert(s@ =~= source_line(source@, at as int));
        }
        s
    }

    /// The report of the error against `source`.
    pub fn pretty(&self, source: &str) -> (r: String)
        requires
            source@.len() < usize::MAX,
        ensures
            r@ == pretty_of(*self, source@),
    {
        let src = chars_of(source);
        let mut s = String::new();
        match self {
            Error::SyntaxError(at) => {
                s.append("syntax error\n");
                s.append(Self::pretty_source_line(&src, *at).as_str());
            },
            Error::UnexpectedEOF => {
                s.append("unexpected end of file\n");
                s.append(Self::pretty_source_line(&src, src.len()).as_str());
            },
            Error::InvalidStringEscape(c, at) => {
                s.append("invalid escape '");
                push_char(&mut s, *c);
                s.append("' inside a string\n");
                s.append(Self::pretty_source_line(&src, *at).as_str());
            },
            Error::ParsingError(tk) => {
                s.append("unexpected input when reading a ");
                s.append(tk.kind.name());
                s.append(" with value \"");
                s.append(tk.value.as_str());
                s.append("\"\n");
                s.append(Self::pretty_source_line(&src, tk.at.start).as_str());
            },
            Error::UnexpectedToken(tk, ks) => {
                s.append("got a ");
                s.append(tk.kind.name());
                s.append(" but expected one of [");
                push_kinds(&mut s, ks);
                s.append("]\n");
                s.append(Self::pretty_source_line(&src, tk.at.start).as_str());
            },
            Error::InvalidAssignmentTarget(a) => {
                s.append(a.pretty().as_str());
                s.append(" is not a valid target for assignment\n");
                s.append(Self::pretty_source_line(&src, a.at().start).as_str());
            },
            Error::NotEnoughArguments(a, name, given, needed) => {
                s.append("not enough arguments to function '");
                s.append(name.as_str());
                s.append("' (given ");
                push_usize(&mut s, *given);
                s.append(", expected ");
                push_usize(&mut s, *needed);
                s.append(")\n");
                s.append(Self::pretty_source_line(&src, a.at().start).as_str());
            },
            _ => {
                s = self.message();
            },
        }
        proof {
            assert(s@ =~= pretty_of(*self, source@));
        }
        s
    }
}

/// A line starts within the text before it.
proof fn lemma_line_start_le(s: Seq<char>)
    ensures
        line_start(s) <= s.len(),
    decreases s.len(),
{
    if s.len() > 0 {
        lemma_line_start_le(s.drop_last());
    }
}

/// The next newline is at or after `j`, within the source.
proof fn lemma_next_nl_bounds(src: Seq<char>, j: int)
    requires
        0 <= j,
    ensures
        next_nl(src, j) <= src.len(),
        j <= src.len() ==> j <= next_nl(src, j),
    decreases src.len() - j,
{
    if j < src.len() && src[j] != '\n' {
        lemma_next_nl_bounds(src, j + 1);
    }
}

} // verus!
