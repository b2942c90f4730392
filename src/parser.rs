//! The recursive-descent parser: tokens to syntax trees, one top-level
//! statement at a time.
use vstd::prelude::*;
use crate::ast::Ast;
use crate::errors::Error;
use crate::lexer::{after, lex_error, lexes, scan, Lexer, Scan};
use crate::text::{decimal_value, parse_decimal};
use crate::token::{Kind, Token};

verus! {

/// A parser over the tokens of a source text, read eagerly.
#[derive(Debug)]
pub struct Parser {
    source: Vec<Token>,
    index: usize,
}

/// `k` is a position in `toks`: the offset of a token, or the end.
pub open spec fn is_pos(toks: Seq<Token>, k: int) -> bool {
    0 <= k <= toks.len()
}

/// The kind of token `i` is `k`.
pub open spec fn kind_is(toks: Seq<Token>, i: int, k: Kind) -> bool {
    0 <= i < toks.len() && toks[i].kind == k
}

/// Token kinds that would let an expression go on, from operator level
/// `rank` down: comparisons (0), additive (1) and multiplicative (2)
/// operators, `=` (3), and the postfix openers `[` and `(` at any rank.
pub open spec fn blocked(k: Kind, rank: nat) -> bool {
    ||| (rank <= 0 && in_level(k, 0))
    ||| (rank <= 1 && in_level(k, 1))
    ||| (rank <= 2 && in_level(k, 2))
    ||| (rank <= 3 && k == Kind::Assign)
    ||| k == Kind::LBracket
    ||| k == Kind::LPar
}

/// The token at `j`, if any, cannot continue an expression of that rank.
pub open spec fn stops_at(toks: Seq<Token>, j: int, rank: nat) -> bool {
    !(0 <= j < toks.len() && blocked(toks[j].kind, rank))
}

/// Tokens `i..j` are an atom `a`: a literal, a name, a list literal, or a
/// parenthesized expression.
pub open spec fn atom_rel(toks: Seq<Token>, i: int, j: int, a: Ast) -> bool
    decreases j - i, 0nat,
{
    if !(0 <= i < j <= toks.len()) {
        false
    } else {
        let tk = toks[i];
        let direct = match a {
            Ast::Int(n, t) => t == tk && tk.kind == Kind::Int && j == i + 1 && decimal_value(tk.value@) == Some(n),
            Ast::Str(v, t) => t == tk && tk.kind == Kind::Str && j == i + 1 && v == tk.value,
            Ast::Var(v, t) => t == tk && tk.kind == Kind::Id && j == i + 1 && v == tk.value,
            Ast::Lst(v, t) => t == tk && tk.kind == Kind::LBracket && items_rel(toks, i + 1, j, v@, Kind::RBracket),
            _ => false,
        };
        direct || (tk.kind == Kind::LPar && kind_is(toks, j - 1, Kind::RPar) && i + 1 < j - 1 && expr_rel(
            toks,
            i + 1,
            j - 1,
            a,
        ))
    }
}

/// Tokens `i..m` are the expressions `v`, each followed by a comma.
pub open spec fn prefix_rel(toks: Seq<Token>, i: int, m: int, v: Seq<Ast>) -> bool
    decreases m - i, 0nat,
{
    if !(0 <= i <= m <= toks.len()) {
        false
    } else if v.len() == 0 {
        m == i
    } else {
        exists|k: int|
            i <= k && k < m - 1 && #[trigger] is_pos(toks, k) && prefix_rel(toks, i, k, v.drop_last()) && expr_rel(toks, k, m - 1, v.last())
                && kind_is(toks, m - 1, Kind::Comma)
    }
}

/// Tokens `i..j` are the expressions `v` separated by commas, with an
/// optional trailing comma, and closed by `term`.
pub open spec fn items_rel(toks: Seq<Token>, i: int, j: int, v: Seq<Ast>, term: Kind) -> bool
    decreases j - i, 0nat,
{
    if !(0 <= i < j <= toks.len()) {
        false
    } else {
        ||| (prefix_rel(toks, i, j - 1, v) && kind_is(toks, j - 1, term))
        ||| (v.len() > 0 && exists|k: int|
            i <= k && k < j - 1 && #[trigger] is_pos(toks, k) && prefix_rel(toks, i, k, v.drop_last()) && expr_rel(toks, k, j - 1, v.last())
                && kind_is(toks, j - 1, term))
    }
}

/// Tokens `i..j` are an atom followed by indexings and calls, `a`.
pub open spec fn postfix_rel(toks: Seq<Token>, i: int, j: int, a: Ast) -> bool
    decreases j - i, 1nat,
{
    if !(0 <= i < j <= toks.len()) {
        false
    } else {
        atom_rel(toks, i, j, a) || match a {
            Ast::Index(tk, t, x) => exists|m: int|
                i < m && m < j - 1 && postfix_rel(toks, i, m, *t) && #[trigger] toks[m] == tk && tk.kind
                    == Kind::LBracket && expr_rel(toks, m + 1, j - 1, *x) && kind_is(toks, j - 1, Kind::RBracket),
            Ast::Call(tk, c, args) => exists|m: int|
                i < m && m < j && postfix_rel(toks, i, m, *c) && #[trigger] toks[m] == tk && tk.kind == Kind::LPar
                    && items_rel(toks, m + 1, j, args@, Kind::RPar),
            _ => false,
        }
    }
}

/// Tokens `i..j` are `a`: a postfix expression, or an assignment to one.
pub open spec fn assign_rel(toks: Seq<Token>, i: int, j: int, a: Ast) -> bool
    decreases j - i, 2nat,
{
    if !(0 <= i < j <= toks.len()) {
        false
    } else {
        postfix_rel(toks, i, j, a) || match a {
            Ast::BinOp(tk, l, r) => tk.kind == Kind::Assign && exists|m: int|
                i < m && m < j - 1 && assign_rel(toks, i, m, *l) && #[trigger] toks[m] == tk && expr_rel(
                    toks,
                    m + 1,
                    j,
                    *r,
                ),
            _ => false,
        }
    }
}

/// Tokens `i..j` are `a`: operands of the next level joined, to the left,
/// by the operators of `level` (0: comparisons, 1: additive, 2:
/// multiplicative; the operands of level 2 are assignments).
pub open spec fn chain_rel(toks: Seq<Token>, level: nat, i: int, j: int, a: Ast) -> bool
    decreases j - i, (if level <= 2 { 5 - level } else { 3 }) as nat,
{
    if !(0 <= i < j <= toks.len()) {
        false
    } else {
        let operand = if level >= 2 {
            assign_rel(toks, i, j, a)
        } else {
            chain_rel(toks, level + 1, i, j, a)
        };
        operand || match a {
            Ast::BinOp(tk, l, r) => in_level(tk.kind, level) && exists|m: int|
                i < m && m < j - 1 && chain_rel(toks, level, i, m, *l) && #[trigger] toks[m] == tk && (if level >= 2 {
                    assign_rel(toks, m + 1, j, *r)
                } else {
                    chain_rel(toks, level + 1, m + 1, j, *r)
                }),
            _ => false,
        }
    }
}

/// Tokens `i..j` are the whole expression `a`: nothing after it could
/// extend it.
pub open spec fn expr_rel(toks: Seq<Token>, i: int, j: int, a: Ast) -> bool
    decreases j - i, 6nat,
{
    chain_rel(toks, 0, i, j, a) && stops_at(toks, j, 0)
}

/// Tokens `i..j` are a block `a`: statements between braces.
pub open spec fn block_rel(toks: Seq<Token>, i: int, j: int, a: Ast) -> bool
    decreases j - i, 7nat,
{
    if !(0 <= i < j <= toks.len()) {
        false
    } else {
        match a {
            Ast::Block(tk, v) => toks[i] == tk && tk.kind == Kind::LBraces && i + 1 <= j - 1 && stmts_rel(
                toks,
                i + 1,
                j - 1,
                v@,
            ) && kind_is(toks, j - 1, Kind::RBraces),
            _ => false,
        }
    }
}

/// Tokens `i..j` are a `while` loop `a`.
pub open spec fn while_rel(toks: Seq<Token>, i: int, j: int, a: Ast) -> bool
    decreases j - i, 7nat,
{
    if !(0 <= i < j <= toks.len()) {
        false
    } else {
        match a {
            Ast::Loop(tk, None, Some(c), body, None) => toks[i] == tk && tk.kind == Kind::While && exists|m: int|
                i + 1 < m && m < j && #[trigger] is_pos(toks, m) && expr_rel(toks, i + 1, m, *c) && block_rel(toks, m, j, *body),
            _ => false,
        }
    }
}

/// Tokens `i..j` are a conditional `a`.
pub open spec fn if_rel(toks: Seq<Token>, i: int, j: int, a: Ast) -> bool
    decreases j - i, 8nat,
{
    if !(0 <= i < j <= toks.len()) {
        false
    } else {
        match a {
            Ast::IfElse(tk, c, yes, no) => toks[i] == tk && tk.kind == Kind::If && exists|m: int, n: int|
                #![trigger is_pos(toks, m), is_pos(toks, n)]
                i + 1 < m && m < n && n <= j && is_pos(toks, m) && is_pos(toks, n) && expr_rel(toks, i + 1, m, *c) && block_rel(toks, m, n, *yes)
                    && match no {
                    None => j == n && !kind_is(toks, n, Kind::Else),
                    Some(e) => kind_is(toks, n, Kind::Else) && n + 1 < j && else_rel(toks, n + 1, j, *e),
                },
            _ => false,
        }
    }
}

/// Tokens `i..j` are what follows `else`: a conditional or a block.
pub open spec fn else_rel(toks: Seq<Token>, i: int, j: int, a: Ast) -> bool
    decreases j - i, 9nat,
{
    if !(0 <= i < j <= toks.len()) {
        false
    } else if kind_is(toks, i, Kind::If) {
        if_rel(toks, i, j, a)
    } else {
        kind_is(toks, i, Kind::LBraces) && block_rel(toks, i, j, a)
    }
}

/// Tokens `i..j` are a statement `a`.
pub open spec fn stmt_rel(toks: Seq<Token>, i: int, j: int, a: Ast) -> bool
    decreases j - i, 10nat,
{
    if !(0 <= i < j <= toks.len()) {
        false
    } else if kind_is(toks, i, Kind::While) {
        while_rel(toks, i, j, a)
    } else if kind_is(toks, i, Kind::If) {
        if_rel(toks, i, j, a)
    } else if kind_is(toks, i, Kind::LBraces) {
        block_rel(toks, i, j, a)
    } else {
        match a {
            Ast::Sttm(e) => i < j - 1 && expr_rel(toks, i, j - 1, *e) && kind_is(toks, j - 1, Kind::Semi),
            _ => false,
        }
    }
}

/// Tokens `i..m` are the statements `v`, one after the other.
pub open spec fn stmts_rel(toks: Seq<Token>, i: int, m: int, v: Seq<Ast>) -> bool
    decreases m - i, 11nat,
{
    if !(0 <= i <= m <= toks.len()) {
        false
    } else if v.len() == 0 {
        m == i
    } else {
        exists|k: int| i <= k && k < m && #[trigger] is_pos(toks, k) && stmts_rel(toks, i, k, v.drop_last()) && stmt_rel(toks, k, m, v.last())
    }
}

/// Why parsing stopped.
pub enum PFault {
    /// The tokens ran out.
    Eof,
    /// A token other than the kinds expected there.
    Unexpected(Token, Seq<Kind>),
    /// An integer literal that does not fit.
    BadInt(Token),
}

/// The error that the parser reports for a fault.
pub open spec fn parse_error(f: PFault, e: Error) -> bool {
    match f {
        PFault::Eof => e == Error::UnexpectedEOF,
        PFault::Unexpected(tk, ks) => match e {
            Error::UnexpectedToken(t, v) => t == tk && v@ == ks,
            _ => false,
        },
        PFault::BadInt(tk) => e == Error::ParsingError(tk),
    }
}

/// Taking a token of one of the kinds `ks` at `p`: the position after it.
pub open spec fn expect_end(t: Seq<Token>, p: int, ks: Seq<Kind>) -> Result<int, PFault> {
    if !(0 <= p < t.len()) {
        Err(PFault::Eof)
    } else if ks.contains(t[p].kind) {
        Ok(p + 1)
    } else {
        Err(PFault::Unexpected(t[p], ks))
    }
}

/// Where the atom that starts at `p` ends, or why there is none.
pub open spec fn atom_end(t: Seq<Token>, p: int) -> Result<int, PFault>
    decreases t.len() - p, 1nat,
{
    if !(0 <= p < t.len()) {
        Err(PFault::Eof)
    } else {
        let tk = t[p];
        if tk.kind == Kind::Int {
            if decimal_value(tk.value@) is Some {
                Ok(p + 1)
            } else {
                Err(PFault::BadInt(tk))
            }
        } else if tk.kind == Kind::Str || tk.kind == Kind::Id {
            Ok(p + 1)
        } else if tk.kind == Kind::LPar {
            match expr_end(t, p + 1) {
                Err(f) => Err(f),
                Ok(m) => expect_end(t, m, seq![Kind::RPar]),
            }
        } else if tk.kind == Kind::LBracket {
            list_loop(t, p + 1, Kind::RBracket)
        } else {
            Err(PFault::Unexpected(tk, seq![Kind::Int, Kind::Str, Kind::Id, Kind::LPar]))
        }
    }
}

/// Where the rest of a list, from `p` to its `term`, ends.
pub open spec fn list_loop(t: Seq<Token>, p: int, term: Kind) -> Result<int, PFault>
    decreases t.len() - p, 13nat,
{
    if !(0 <= p <= t.len()) {
        Err(PFault::Eof)
    } else if kind_is(t, p, term) {
        Ok(p + 1)
    } else {
        match expr_end(t, p) {
            Err(f) => Err(f),
            Ok(m) => match expect_end(t, m, seq![Kind::Comma, term]) {
                Err(f) => Err(f),
                Ok(j) => if j <= p || j > t.len() {
                    Err(PFault::Eof)
                } else if t[m].kind == term {
                    Ok(j)
                } else {
                    list_loop(t, j, term)
                },
            },
        }
    }
}

/// Where the indexings and calls that follow position `q` end.
pub open spec fn postfix_loop(t: Seq<Token>, q: int) -> Result<int, PFault>
    decreases t.len() - q, 0nat,
{
    if !(0 <= q <= t.len()) {
        Err(PFault::Eof)
    } else if kind_is(t, q, Kind::LBracket) {
        match expr_end(t, q + 1) {
            Err(f) => Err(f),
            Ok(m) => match expect_end(t, m, seq![Kind::RBracket]) {
                Err(f) => Err(f),
                Ok(j) => if j <= q || j > t.len() {
                    Err(PFault::Eof)
                } else {
                    postfix_loop(t, j)
                },
            },
        }
    } else if kind_is(t, q, Kind::LPar) {
        match list_loop(t, q + 1, Kind::RPar) {
            Err(f) => Err(f),
            Ok(j) => if j <= q || j > t.len() {
                Err(PFault::Eof)
            } else {
                postfix_loop(t, j)
            },
        }
    } else {
        Ok(q)
    }
}

/// Where the postfix expression that starts at `p` ends.
pub open spec fn postfix_end(t: Seq<Token>, p: int) -> Result<int, PFault>
    decreases t.len() - p, 3nat,
{
    match atom_end(t, p) {
        Err(f) => Err(f),
        Ok(m) => if m <= p || m > t.len() {
            Err(PFault::Eof)
        } else {
            postfix_loop(t, m)
        },
    }
}

/// Where the assignments that follow position `q` end.
pub open spec fn assign_loop(t: Seq<Token>, q: int) -> Result<int, PFault>
    decreases t.len() - q, 0nat,
{
    if !(0 <= q <= t.len()) {
        Err(PFault::Eof)
    } else if kind_is(t, q, Kind::Assign) {
        match expr_end(t, q + 1) {
            Err(f) => Err(f),
            Ok(m) => if m <= q || m > t.len() {
                Err(PFault::Eof)
            } else {
                assign_loop(t, m)
            },
        }
    } else {
        Ok(q)
    }
}

/// Where the assignment-level expression that starts at `p` ends.
pub open spec fn assign_end(t: Seq<Token>, p: int) -> Result<int, PFault>
    decreases t.len() - p, 4nat,
{
    match postfix_end(t, p) {
        Err(f) => Err(f),
        Ok(m) => if m <= p || m > t.len() {
            Err(PFault::Eof)
        } else {
            assign_loop(t, m)
        },
    }
}

/// Where the operand of operator level `level` that starts at `p` ends.
pub open spec fn operand_end(t: Seq<Token>, level: nat, p: int) -> Result<int, PFault>
    decreases t.len() - p, (if level <= 2 { 10 - 2 * level } else { 6 }) as nat,
{
    if level >= 2 {
        assign_end(t, p)
    } else {
        chain_end(t, level + 1, p)
    }
}

/// Where the operators of `level` and their operands that follow `q` end.
pub open spec fn chain_loop(t: Seq<Token>, level: nat, q: int) -> Result<int, PFault>
    decreases t.len() - q, 0nat,
{
    if !(0 <= q <= t.len()) {
        Err(PFault::Eof)
    } else if q < t.len() && in_level(t[q].kind, level) {
        match operand_end(t, level, q + 1) {
            Err(f) => Err(f),
            Ok(m) => if m <= q || m > t.len() {
                Err(PFault::Eof)
            } else {
                chain_loop(t, level, m)
            },
        }
    } else {
        Ok(q)
    }
}

/// Where the expression of operator level `level` that starts at `p` ends.
pub open spec fn chain_end(t: Seq<Token>, level: nat, p: int) -> Result<int, PFault>
    decreases t.len() - p, (if level <= 2 { 11 - 2 * level } else { 7 }) as nat,
{
    match operand_end(t, level, p) {
        Err(f) => Err(f),
        Ok(m) => if m <= p || m > t.len() {
            Err(PFault::Eof)
        } else {
            chain_loop(t, level, m)
        },
    }
}

/// Where the expression that starts at `p` ends.
pub open spec fn expr_end(t: Seq<Token>, p: int) -> Result<int, PFault>
    decreases t.len() - p, 12nat,
{
    chain_end(t, 0, p)
}

/// Where the block that starts at `p` ends.
pub open spec fn block_end(t: Seq<Token>, p: int) -> Result<int, PFault>
    decreases t.len() - p, 13nat,
{
    match expect_end(t, p, seq![Kind::LBraces]) {
        Err(f) => Err(f),
        Ok(_) => stmts_loop(t, p + 1),
    }
}

/// Where the statements from `q` to the closing brace end.
pub open spec fn stmts_loop(t: Seq<Token>, q: int) -> Result<int, PFault>
    decreases t.len() - q, 16nat,
{
    if !(0 <= q <= t.len()) {
        Err(PFault::Eof)
    } else if kind_is(t, q, Kind::RBraces) {
        Ok(q + 1)
    } else {
        match stmt_end(t, q) {
            Err(f) => Err(f),
            Ok(m) => if m <= q || m > t.len() {
                Err(PFault::Eof)
            } else {
                stmts_loop(t, m)
            },
        }
    }
}

/// Where the `while` loop that starts at `p` ends.
pub open spec fn while_end(t: Seq<Token>, p: int) -> Result<int, PFault>
    decreases t.len() - p, 13nat,
{
    match expect_end(t, p, seq![Kind::While]) {
        Err(f) => Err(f),
        Ok(_) => match expr_end(t, p + 1) {
            Err(f) => Err(f),
            Ok(m) => if m <= p || m > t.len() {
                Err(PFault::Eof)
            } else {
                block_end(t, m)
            },
        },
    }
}

/// Where the conditional that starts at `p` ends.
pub open spec fn if_end(t: Seq<Token>, p: int) -> Result<int, PFault>
    decreases t.len() - p, 13nat,
{
    match expect_end(t, p, seq![Kind::If]) {
        Err(f) => Err(f),
        Ok(_) => match expr_end(t, p + 1) {
            Err(f) => Err(f),
            Ok(m) => if m <= p || m > t.len() {
                Err(PFault::Eof)
            } else {
                match block_end(t, m) {
                    Err(f) => Err(f),
                    Ok(n) => if n <= p || n > t.len() {
                        Err(PFault::Eof)
                    } else if kind_is(t, n, Kind::Else) {
                        else_end(t, n + 1)
                    } else {
                        Ok(n)
                    },
                }
            },
        },
    }
}

/// Where what follows `else`, at `q`, ends.
pub open spec fn else_end(t: Seq<Token>, q: int) -> Result<int, PFault>
    decreases t.len() - q, 14nat,
{
    if kind_is(t, q, Kind::If) {
        if_end(t, q)
    } else if kind_is(t, q, Kind::LBraces) {
        block_end(t, q)
    } else if !(0 <= q < t.len()) {
        Err(PFault::Eof)
    } else {
        Err(PFault::Unexpected(t[q], seq![Kind::If, Kind::LBraces]))
    }
}

/// Where the statement that starts at `p` ends, or why there is none.
pub open spec fn stmt_end(t: Seq<Token>, p: int) -> Result<int, PFault>
    decreases t.len() - p, 15nat,
{
    if kind_is(t, p, Kind::While) {
        while_end(t, p)
    } else if kind_is(t, p, Kind::If) {
        if_end(t, p)
    } else if kind_is(t, p, Kind::LBraces) {
        block_end(t, p)
    } else {
        match expr_end(t, p) {
            Err(f) => Err(f),
            Ok(m) => expect_end(t, m, seq![Kind::Semi]),
        }
    }
}

/// `k` is an operator of `level`: comparisons (0), additive (1) or
/// multiplicative (2).
pub open spec fn in_level(k: Kind, level: nat) -> bool {
    if level == 0 {
        k == Kind::Lt || k == Kind::Lte || k == Kind::Gt || k == Kind::Gte || k == Kind::Eq || k == Kind::NotEq
    } else if level == 1 {
        k == Kind::Add || k == Kind::Sub
    } else {
        k == Kind::Mul || k == Kind::Div || k == Kind::Mod
    }
}

impl Parser {
    /// The tokens.
    pub closed spec fn toks(&self) -> Seq<Token> {
        self.source@
    }

    /// The offset of the next token.
    pub closed spec fn pos(&self) -> int {
        self.index as int
    }

    /// The position is within the tokens.
    pub closed spec fn wf(&self) -> bool {
        self.index <= self.source@.len()
    }

    /// Reads all tokens of `source`; a lexing error is returned as it is.
    pub fn new(source: Lexer) -> (r: Result<Parser, Error>)
        ensures
            r is Ok ==> r->Ok_0.wf() && r->Ok_0.pos() == 0 && lexes(source.src(), source.pos(), r->Ok_0.toks()) && scan(
                source.src(),
                after(source.pos(), r->Ok_0.toks()),
            ) is End,
            r is Err ==> exists|toks: Seq<Token>|
                #[trigger] lexes(source.src(), source.pos(), toks) && match scan(source.src(), after(source.pos(), toks)) {
                    Scan::Bad(f) => lex_error(f, r->Err_0),
                    _ => false,
                },
    {
        let mut lexer = source;
        match lexer.collect() {
            Ok(toks) => Ok(Parser { source: toks, index: 0 }),
            Err(e) => Err(e),
        }
    }

    /// `true` when no tokens are left.
    pub fn is_empty(&self) -> (r: bool)
        ensures
            r == (self.pos() >= self.toks().len()),
    {
        self.index >= self.source.len()
    }

    /// Takes the current token; at the end, `UnexpectedEOF`.
    fn pop(&mut self) -> (r: Result<Token, Error>)
        requires
            old(self).wf(),
        ensures
            final(self).wf(),
            final(self).toks() == old(self).toks(),
            old(self).pos() < old(self).toks().len() ==> r is Ok && r->Ok_0 == old(self).toks()[old(self).pos()]
                && final(self).pos() == old(self).pos() + 1,
            old(self).pos() >= old(self).toks().len() ==> r == Err::<Token, Error>(Error::UnexpectedEOF)
                && final(self).pos() == old(self).pos(),
    {
        if self.index < self.source.len() {
            let tk = self.source[self.index].clone();
            self.index += 1;
            Ok(tk)
        } else {
            Err(Error::UnexpectedEOF)
        }
    }

    /// Takes the current token, which must be of kind `k`.
    fn expect_one(&mut self, k: Kind) -> (r: Result<Token, Error>)
        requires
            old(self).wf(),
        ensures
            final(self).wf(),
            final(self).toks() == old(self).toks(),
            old(self).pos() < old(self).toks().len() ==> final(self).pos() == old(self).pos() + 1,
            r is Ok ==> r->Ok_0 == old(self).toks()[old(self).pos()] && r->Ok_0.kind == k,
            match expect_end(old(self).toks(), old(self).pos(), seq![k]) {
                Ok(j) => r is Ok && final(self).pos() == j,
                Err(f) => r is Err && parse_error(f, r->Err_0),
            },
    {
        if self.index >= self.source.len() {
            return Err(Error::UnexpectedEOF);
        }
        let tk = self.source[self.index].clone();
        self.index += 1;
        proof {
            assert(seq![k][0] == k);
        }
        if tk.kind == k {
            Ok(tk)
        } else {
            let mut v: Vec<Kind> = Vec::new();
            v.push(k);
            proof {
                assert(v@ =~= seq![k]);
                assert(!seq![k].contains(tk.kind));
            }
            Err(Error::UnexpectedToken(tk, v))
        }
    }

    /// Takes the current token, which must be of kind `a` or `b`.
    fn expect_two(&mut self, a: Kind, b: Kind) -> (r: Result<Token, Error>)
        requires
            old(self).wf(),
        ensures
            final(self).wf(),
            final(self).toks() == old(self).toks(),
            old(self).pos() < old(self).toks().len() ==> final(self).pos() == old(self).pos() + 1,
            r is Ok ==> r->Ok_0 == old(self).toks()[old(self).pos()] && (r->Ok_0.kind == a || r->Ok_0.kind == b),
            match expect_end(old(self).toks(), old(self).pos(), seq![a, b]) {
                Ok(j) => r is Ok && final(self).pos() == j,
                Err(f) => r is Err && parse_error(f, r->Err_0),
            },
    {
        if self.index >= self.source.len() {
            return Err(Error::UnexpectedEOF);
        }
        let tk = self.source[self.index].clone();
        self.index += 1;
        proof {
            assert(seq![a, b][0] == a && seq![a, b][1] == b);
        }
        if tk.kind == a || tk.kind == b {
            Ok(tk)
        } else {
            let mut v: Vec<Kind> = Vec::new();
            v.push(a);
            v.push(b);
            proof {
                assert(v@ =~= seq![a, b]);
                assert(!seq![a, b].contains(tk.kind));
            }
            Err(Error::UnexpectedToken(tk, v))
        }
    }

    /// `true` if the current token is an operator of `level`.
    fn at_level(&self, level: usize) -> (r: bool)
        ensures
            r == (self.pos() < self.toks().len() && in_level(self.toks()[self.pos()].kind, level as nat)),
    {
        if self.index >= self.source.len() {
            return false;
        }
        let k = self.source[self.index].kind;
        if level == 0 {
            k == Kind::Lt || k == Kind::Lte || k == Kind::Gt || k == Kind::Gte || k == Kind::Eq || k == Kind::NotEq
        } else if level == 1 {
            k == Kind::Add || k == Kind::Sub
        } else {
            k == Kind::Mul || k == Kind::Div || k == Kind::Mod
        }
    }

    /// `true` if the current token is of kind `k`.
    fn at_kind(&self, k: Kind) -> (r: bool)
        ensures
            r == kind_is(self.toks(), self.pos(), k),
    {
        self.index < self.source.len() && self.source[self.index].kind == k
    }

    /// An integer, string, identifier, parenthesized expression or list literal.
    fn atom(&mut self) -> (r: Result<Ast, Error>)
        requires
            old(self).wf(),
        ensures
            final(self).wf(),
            final(self).toks() == old(self).toks(),
            r is Ok ==> old(self).pos() < final(self).pos() && atom_rel(old(self).toks(), old(self).pos(), final(self).pos(), r->Ok_0),
            old(self).pos() < old(self).toks().len() ==> {
                let tk = old(self).toks()[old(self).pos()];
                &&& tk.kind == Kind::Int ==> match decimal_value(tk.value@) {
                    Some(n) => r is Ok && r->Ok_0 == Ast::Int(n, tk),
                    None => r == Err::<Ast, Error>(Error::ParsingError(tk)),
                }
                &&& tk.kind == Kind::Str ==> r is Ok && r->Ok_0 == Ast::Str(tk.value, tk)
                &&& tk.kind == Kind::Id ==> r is Ok && r->Ok_0 == Ast::Var(tk.value, tk)
            },
            old(self).pos() >= old(self).toks().len() ==> r == Err::<Ast, Error>(Error::UnexpectedEOF),
            match atom_end(old(self).toks(), old(self).pos()) {
                Ok(j) => r is Ok && final(self).pos() == j,
                Err(f) => r is Err && parse_error(f, r->Err_0),
            },
        decreases old(self).toks().len() - old(self).pos(), 1nat,
    {
        let ghost toks = self.toks();
        let ghost i = self.pos();
        let tk = match self.pop() {
            Ok(tk) => tk,
            Err(e) => return Err(e),
        };
        match tk.kind {
            Kind::Int => {
                match parse_decimal(&tk.value) {
                    Some(n) => Ok(Ast::Int(n, tk)),
                    None => Err(Error::ParsingError(tk)),
                }
            },
            Kind::Str => Ok(Ast::Str(tk.value.clone(), tk)),
            Kind::Id => Ok(Ast::Var(tk.value.clone(), tk)),
            Kind::LPar => {
                let e = match self.expression() {
                    Ok(e) => e,
                    Err(e) => return Err(e),
                };
                match self.expect_one(Kind::RPar) {
                    Ok(_) => {
                        proof {
                            assert(kind_is(toks, self.pos() - 1, Kind::RPar));
                        }
                        Ok(e)
                    },
                    Err(e) => Err(e),
                }
            },
            Kind::LBracket => {
                match self.list_of(Kind::RBracket) {
                    Ok(v) => Ok(Ast::Lst(v, tk)),
                    Err(e) => Err(e),
                }
            },
            _ => Err(Error::UnexpectedToken(tk, slice_to_vec(&[Kind::Int, Kind::Str, Kind::Id, Kind::LPar]))),
        }
    }

    /// An atom followed by any number of calls `(args)` and indexings `[expr]`.
    fn call_or_index(&mut self) -> (r: Result<Ast, Error>)
        requires
            old(self).wf(),
        ensures
            final(self).wf(),
            final(self).toks() == old(self).toks(),
            r is Ok ==> old(self).pos() < final(self).pos() && postfix_rel(old(self).toks(), old(self).pos(), final(self).pos(), r->Ok_0)
                && stops_at(old(self).toks(), final(self).pos(), 4),
            match postfix_end(old(self).toks(), old(self).pos()) {
                Ok(j) => r is Ok && final(self).pos() == j,
                Err(f) => r is Err && parse_error(f, r->Err_0),
            },
        decreases old(self).toks().len() - old(self).pos(), 2nat,
    {
        let ghost toks = self.toks();
        let ghost start = self.pos();
        let mut lhs = match self.atom() {
            Ok(a) => a,
            Err(e) => return Err(e),
        };
        while self.at_kind(Kind::LBracket) || self.at_kind(Kind::LPar)
            invariant
                self.wf(),
                self.toks() == toks,
                toks == old(self).toks(),
                start == old(self).pos(),
                start < self.pos(),
                postfix_rel(toks, start, self.pos(), lhs),
                postfix_end(toks, start) == postfix_loop(toks, self.pos()),
            decreases self.toks().len() - self.pos(),
        {
            let ghost m = self.pos();
            let ghost prev = lhs;
            let tk = match self.pop() {
                Ok(tk) => tk,
                Err(e) => return Err(e),
            };
            if tk.kind == Kind::LBracket {
                let index = match self.expression() {
                    Ok(a) => a,
                    Err(e) => return Err(e),
                };
                match self.expect_one(Kind::RBracket) {
                    Ok(_) => {},
                    Err(e) => return Err(e),
                }
                lhs = Ast::Index(tk, Box::new(lhs), Box::new(index));
                proof {
                    assert(kind_is(toks, self.pos() - 1, Kind::RBracket));
                    assert(postfix_rel(toks, start, m, prev));
                    assert(postfix_rel(toks, start, self.pos(), lhs));
                }
            } else {
                let args = match self.list_of(Kind::RPar) {
                    Ok(v) => v,
                    Err(e) => return Err(e),
                };
                lhs = Ast::Call(tk, Box::new(lhs), args);
                proof {
                    assert(postfix_rel(toks, start, m, prev));
                    assert(postfix_rel(toks, start, self.pos(), lhs));
                }
            }
        }
        Ok(lhs)
    }

    /// A call or index, then `= expression` (right-associative).
    fn assign(&mut self) -> (r: Result<Ast, Error>)
        requires
            old(self).wf(),
        ensures
            final(self).wf(),
            final(self).toks() == old(self).toks(),
            r is Ok ==> old(self).pos() < final(self).pos() && assign_rel(old(self).toks(), old(self).pos(), final(self).pos(), r->Ok_0)
                && stops_at(old(self).toks(), final(self).pos(), 3),
            match assign_end(old(self).toks(), old(self).pos()) {
                Ok(j) => r is Ok && final(self).pos() == j,
                Err(f) => r is Err && parse_error(f, r->Err_0),
            },
        decreases old(self).toks().len() - old(self).pos(), 3nat,
    {
        let ghost toks = self.toks();
        let ghost start = self.pos();
        let mut lhs = match self.call_or_index() {
            Ok(a) => a,
            Err(e) => return Err(e),
        };
        while self.at_kind(Kind::Assign)
            invariant
                self.wf(),
                self.toks() == toks,
                toks == old(self).toks(),
                start == old(self).pos(),
                start < self.pos(),
                assign_rel(toks, start, self.pos(), lhs),
                stops_at(toks, self.pos(), 4),
                assign_end(toks, start) == assign_loop(toks, self.pos()),
            decreases self.toks().len() - self.pos(),
        {
            let ghost m = self.pos();
            let ghost prev = lhs;
            let tk = match self.pop() {
                Ok(tk) => tk,
                Err(e) => return Err(e),
            };
            let rhs = match self.expression() {
                Ok(a) => a,
                Err(e) => return Err(e),
            };
            lhs = Ast::BinOp(tk, Box::new(lhs), Box::new(rhs));
            proof {
                assert(assign_rel(toks, start, m, prev));
                assert(assign_rel(toks, start, self.pos(), lhs));
            }
        }
        Ok(lhs)
    }

    /// Assignments joined by `*`, `/` and `%`, left-associative.
    fn factor(&mut self) -> (r: Result<Ast, Error>)
        requires
            old(self).wf(),
        ensures
            final(self).wf(),
            final(self).toks() == old(self).toks(),
            r is Ok ==> old(self).pos() < final(self).pos() && chain_rel(old(self).toks(), 2, old(self).pos(), final(self).pos(), r->Ok_0)
                && stops_at(old(self).toks(), final(self).pos(), 2),
            match chain_end(old(self).toks(), 2, old(self).pos()) {
                Ok(j) => r is Ok && final(self).pos() == j,
                Err(f) => r is Err && parse_error(f, r->Err_0),
            },
        decreases old(self).toks().len() - old(self).pos(), 4nat,
    {
        let ghost toks = self.toks();
        let ghost start = self.pos();
        proof {
            assert(operand_end(toks, 2, start) == assign_end(toks, start));
        }
        let mut lhs = match self.assign() {
            Ok(a) => a,
            Err(e) => return Err(e),
        };
        while self.at_level(2)
            invariant
                self.wf(),
                self.toks() == toks,
                toks == old(self).toks(),
                start == old(self).pos(),
                start < self.pos(),
                chain_rel(toks, 2, start, self.pos(), lhs),
                chain_end(toks, 2, start) == chain_loop(toks, 2, self.pos()),
                stops_at(toks, self.pos(), 2 + 1),
            decreases self.toks().len() - self.pos(),
        {
            let ghost m = self.pos();
            let ghost prev = lhs;
            let tk = match self.pop() {
                Ok(tk) => tk,
                Err(e) => return Err(e),
            };
            proof {
                assert(operand_end(toks, 2, m + 1) == assign_end(toks, m + 1));
            }
            let rhs = match self.assign() {
                Ok(a) => a,
                Err(e) => return Err(e),
            };
            lhs = Ast::BinOp(tk, Box::new(lhs), Box::new(rhs));
            proof {
                assert(chain_rel(toks, 2, start, m, prev));
                assert(chain_rel(toks, 2, start, self.pos(), lhs));
                assert(chain_loop(toks, 2, m) == chain_loop(toks, 2, self.pos()));
            }
        }
        Ok(lhs)
    }

    /// Factors joined by `+` and `-`, left-associative.
    fn term(&mut self) -> (r: Result<Ast, Error>)
        requires
            old(self).wf(),
        ensures
            final(self).wf(),
            final(self).toks() == old(self).toks(),
            r is Ok ==> old(self).pos() < final(self).pos() && chain_rel(old(self).toks(), 1, old(self).pos(), final(self).pos(), r->Ok_0)
                && stops_at(old(self).toks(), final(self).pos(), 1),
            match chain_end(old(self).toks(), 1, old(self).pos()) {
                Ok(j) => r is Ok && final(self).pos() == j,
                Err(f) => r is Err && parse_error(f, r->Err_0),
            },
        decreases old(self).toks().len() - old(self).pos(), 5nat,
    {
        let ghost toks = self.toks();
        let ghost start = self.pos();
        proof {
            assert(operand_end(toks, 1, start) == chain_end(toks, 2, start));
        }
        let mut lhs = match self.factor() {
            Ok(a) => a,
            Err(e) => return Err(e),
        };
        while self.at_level(1)
            invariant
                self.wf(),
                self.toks() == toks,
                toks == old(self).toks(),
                start == old(self).pos(),
                start < self.pos(),
                chain_rel(toks, 1, start, self.pos(), lhs),
                chain_end(toks, 1, start) == chain_loop(toks, 1, self.pos()),
                stops_at(toks, self.pos(), 1 + 1),
            decreases self.toks().len() - self.pos(),
        {
            let ghost m = self.pos();
            let ghost prev = lhs;
            let tk = match self.pop() {
                Ok(tk) => tk,
                Err(e) => return Err(e),
            };
            proof {
                assert(operand_end(toks, 1, m + 1) == chain_end(toks, 2, m + 1));
            }
            let rhs = match self.factor() {
                Ok(a) => a,
                Err(e) => return Err(e),
            };
            lhs = Ast::BinOp(tk, Box::new(lhs), Box::new(rhs));
            proof {
                assert(chain_rel(toks, 1, start, m, prev));
                assert(chain_rel(toks, 1, start, self.pos(), lhs));
                assert(chain_loop(toks, 1, m) == chain_loop(toks, 1, self.pos()));
            }
        }
        Ok(lhs)
    }

    /// Terms joined by comparisons, left-associative.
    fn cmp(&mut self) -> (r: Result<Ast, Error>)
        requires
            old(self).wf(),
        ensures
            final(self).wf(),
            final(self).toks() == old(self).toks(),
            r is Ok ==> old(self).pos() < final(self).pos() && chain_rel(old(self).toks(), 0, old(self).pos(), final(self).pos(), r->Ok_0)
                && stops_at(old(self).toks(), final(self).pos(), 0),
            match chain_end(old(self).toks(), 0, old(self).pos()) {
                Ok(j) => r is Ok && final(self).pos() == j,
                Err(f) => r is Err && parse_error(f, r->Err_0),
            },
        decreases old(self).toks().len() - old(self).pos(), 6nat,
    {
        let ghost toks = self.toks();
        let ghost start = self.pos();
        proof {
            assert(operand_end(toks, 0, start) == chain_end(toks, 1, start));
        }
        let mut lhs = match self.term() {
            Ok(a) => a,
            Err(e) => return Err(e),
        };
        while self.at_level(0)
            invariant
                self.wf(),
                self.toks() == toks,
                toks == old(self).toks(),
                start == old(self).pos(),
                start < self.pos(),
                chain_rel(toks, 0, start, self.pos(), lhs),
                chain_end(toks, 0, start) == chain_loop(toks, 0, self.pos()),
                stops_at(toks, self.pos(), 0 + 1),
            decreases self.toks().len() - self.pos(),
        {
            let ghost m = self.pos();
            let ghost prev = lhs;
            let tk = match self.pop() {
                Ok(tk) => tk,
                Err(e) => return Err(e),
            };
            proof {
                assert(operand_end(toks, 0, m + 1) == chain_end(toks, 1, m + 1));
            }
            let rhs = match self.term() {
                Ok(a) => a,
                Err(e) => return Err(e),
            };
            lhs = Ast::BinOp(tk, Box::new(lhs), Box::new(rhs));
            proof {
                assert(chain_rel(toks, 0, start, m, prev));
                assert(chain_rel(toks, 0, start, self.pos(), lhs));
                assert(chain_loop(toks, 0, m) == chain_loop(toks, 0, self.pos()));
            }
        }
        Ok(lhs)
    }

    /// An expression: it always leaves one value.
    fn expression(&mut self) -> (r: Result<Ast, Error>)
        requires
            old(self).wf(),
        ensures
            final(self).wf(),
            final(self).toks() == old(self).toks(),
            r is Ok ==> old(self).pos() < final(self).pos() && expr_rel(old(self).toks(), old(self).pos(), final(self).pos(), r->Ok_0),
            match expr_end(old(self).toks(), old(self).pos()) {
                Ok(j) => r is Ok && final(self).pos() == j,
                Err(f) => r is Err && parse_error(f, r->Err_0),
            },
        decreases old(self).toks().len() - old(self).pos(), 7nat,
    {
        self.cmp()
    }

    /// `while <expression> <block>`.
    fn while_loop(&mut self) -> (r: Result<Ast, Error>)
        requires
            old(self).wf(),
        ensures
            final(self).wf(),
            final(self).toks() == old(self).toks(),
            r is Ok ==> old(self).pos() < final(self).pos() && while_rel(old(self).toks(), old(self).pos(), final(self).pos(), r->Ok_0),
            match while_end(old(self).toks(), old(self).pos()) {
                Ok(j) => r is Ok && final(self).pos() == j,
                Err(f) => r is Err && parse_error(f, r->Err_0),
            },
        decreases old(self).toks().len() - old(self).pos(), 8nat,
    {
        let ghost toks = self.toks();
        let tk = match self.expect_one(Kind::While) {
            Ok(tk) => tk,
            Err(e) => return Err(e),
        };
        let cond = match self.expression() {
            Ok(a) => a,
            Err(e) => return Err(e),
        };
        let ghost m = self.pos();
        let body = match self.block() {
            Ok(a) => a,
            Err(e) => return Err(e),
        };
        let r = Ast::Loop(tk, None, Some(Box::new(cond)), Box::new(body), None);
        proof {
            assert(is_pos(toks, m));
            assert(block_rel(toks, m, self.pos(), body));
        }
        Ok(r)
    }

    /// A sequence of statements between braces.
    fn block(&mut self) -> (r: Result<Ast, Error>)
        requires
            old(self).wf(),
        ensures
            final(self).wf(),
            final(self).toks() == old(self).toks(),
            r is Ok ==> old(self).pos() < final(self).pos() && block_rel(old(self).toks(), old(self).pos(), final(self).pos(), r->Ok_0),
            match block_end(old(self).toks(), old(self).pos()) {
                Ok(j) => r is Ok && final(self).pos() == j,
                Err(f) => r is Err && parse_error(f, r->Err_0),
            },
        decreases old(self).toks().len() - old(self).pos(), 8nat,
    {
        let ghost toks = self.toks();
        let ghost start = self.pos();
        let tk = match self.expect_one(Kind::LBraces) {
            Ok(tk) => tk,
            Err(e) => return Err(e),
        };
        let mut v: Vec<Ast> = Vec::new();
        loop
            invariant_except_break
                self.wf(),
                self.toks() == toks,
                start < self.pos(),
                stmts_rel(toks, start + 1, self.pos(), v@),
                block_end(toks, start) == stmts_loop(toks, self.pos()),
            invariant
                toks == old(self).toks(),
                start == old(self).pos(),
            ensures
                self.wf(),
                self.toks() == toks,
                start + 1 < self.pos(),
                stmts_rel(toks, start + 1, self.pos() - 1, v@),
                kind_is(toks, self.pos() - 1, Kind::RBraces),
                block_end(toks, start) == Ok::<int, PFault>(self.pos()),
            decreases self.toks().len() - self.pos(),
        {
            let ghost k = self.pos();
            let ghost prev = v@;
            if self.at_kind(Kind::RBraces) {
                let _ = self.pop();
                break;
            }
            match self.statement() {
                Ok(a) => v.push(a),
                Err(e) => return Err(e),
            }
            proof {
                assert(v@.drop_last() =~= prev);
                assert(is_pos(toks, k));
                assert(stmts_rel(toks, start + 1, k, v@.drop_last()));
            }
        }
        Ok(Ast::Block(tk, v))
    }

    /// `if <expression> <block> [else (<block> | <if>)]`.
    fn if_else(&mut self) -> (r: Result<Ast, Error>)
        requires
            old(self).wf(),
        ensures
            final(self).wf(),
            final(self).toks() == old(self).toks(),
            r is Ok ==> old(self).pos() < final(self).pos() && if_rel(old(self).toks(), old(self).pos(), final(self).pos(), r->Ok_0),
            match if_end(old(self).toks(), old(self).pos()) {
                Ok(j) => r is Ok && final(self).pos() == j,
                Err(f) => r is Err && parse_error(f, r->Err_0),
            },
        decreases old(self).toks().len() - old(self).pos(), 9nat,
    {
        let ghost toks = self.toks();
        let tk = match self.expect_one(Kind::If) {
            Ok(tk) => tk,
            Err(e) => return Err(e),
        };
        let cond = match self.expression() {
            Ok(a) => a,
            Err(e) => return Err(e),
        };
        let ghost m = self.pos();
        let yes = match self.block() {
            Ok(a) => a,
            Err(e) => return Err(e),
        };
        let ghost n = self.pos();
        let no = if self.at_kind(Kind::Else) {
            let _ = self.pop();
            match self.block_or_if() {
                Ok(a) => Some(Box::new(a)),
                Err(e) => return Err(e),
            }
        } else {
            None
        };
        let r = Ast::IfElse(tk, Box::new(cond), Box::new(yes), no);
        proof {
            assert(is_pos(toks, m));
            assert(is_pos(toks, n));
            assert(block_rel(toks, m, n, yes));
        }
        Ok(r)
    }

    /// What follows `else`: a block or another `if`.
    fn block_or_if(&mut self) -> (r: Result<Ast, Error>)
        requires
            old(self).wf(),
        ensures
            final(self).wf(),
            final(self).toks() == old(self).toks(),
            r is Ok ==> old(self).pos() < final(self).pos() && else_rel(old(self).toks(), old(self).pos(), final(self).pos(), r->Ok_0),
            match else_end(old(self).toks(), old(self).pos()) {
                Ok(j) => r is Ok && final(self).pos() == j,
                Err(f) => r is Err && parse_error(f, r->Err_0),
            },
        decreases old(self).toks().len() - old(self).pos(), 10nat,
    {
        if self.at_kind(Kind::If) {
            self.if_else()
        } else if self.at_kind(Kind::LBraces) {
            self.block()
        } else {
            match self.pop() {
                Ok(tk) => Err(Error::UnexpectedToken(tk, slice_to_vec(&[Kind::If, Kind::LBraces]))),
                Err(e) => Err(e),
            }
        }
    }

    /// A statement: a `while` loop, an `if`, a block, or an expression and `;`.
    fn statement(&mut self) -> (r: Result<Ast, Error>)
        requires
            old(self).wf(),
        ensures
            final(self).wf(),
            final(self).toks() == old(self).toks(),
            r is Ok ==> old(self).pos() < final(self).pos() && stmt_rel(old(self).toks(), old(self).pos(), final(self).pos(), r->Ok_0),
            match stmt_end(old(self).toks(), old(self).pos()) {
                Ok(j) => r is Ok && final(self).pos() == j,
                Err(f) => r is Err && parse_error(f, r->Err_0),
            },
        decreases old(self).toks().len() - old(self).pos(), 11nat,
    {
        let ghost toks = self.toks();
        if self.at_kind(Kind::While) {
            self.while_loop()
        } else if self.at_kind(Kind::If) {
            self.if_else()
        } else if self.at_kind(Kind::LBraces) {
            self.block()
        } else {
            let e = match self.expression() {
                Ok(a) => a,
                Err(e) => return Err(e),
            };
            match self.expect_one(Kind::Semi) {
                Ok(_) => {
                    proof {
                        assert(kind_is(toks, self.pos() - 1, Kind::Semi));
                    }
                    Ok(Ast::Sttm(Box::new(e)))
                },
                Err(e) => Err(e),
            }
        }
    }

    /// A comma-separated list of expressions closed by `terminator`, with
    /// an optional trailing comma.
    fn list_of(&mut self, terminator: Kind) -> (r: Result<Vec<Ast>, Error>)
        requires
            old(self).wf(),
            terminator != Kind::Comma,
        ensures
            final(self).wf(),
            final(self).toks() == old(self).toks(),
            r is Ok ==> old(self).pos() < final(self).pos() && items_rel(old(self).toks(), old(self).pos(), final(self).pos(), r->Ok_0@, terminator),
            match list_loop(old(self).toks(), old(self).pos(), terminator) {
                Ok(j) => r is Ok && final(self).pos() == j,
                Err(f) => r is Err && parse_error(f, r->Err_0),
            },
        decreases old(self).toks().len() - old(self).pos() + 1, 0nat,
    {
        let ghost toks = self.toks();
        let ghost start = self.pos();
        let mut v: Vec<Ast> = Vec::new();
        loop
            invariant_except_break
                self.wf(),
                self.toks() == toks,
                start <= self.pos(),
                prefix_rel(toks, start, self.pos(), v@),
                list_loop(toks, start, terminator) == list_loop(toks, self.pos(), terminator),
            invariant
                toks == old(self).toks(),
                start == old(self).pos(),
                terminator != Kind::Comma,
            ensures
                self.wf(),
                self.toks() == toks,
                start < self.pos(),
                items_rel(toks, start, self.pos(), v@, terminator),
                list_loop(toks, start, terminator) == Ok::<int, PFault>(self.pos()),
            decreases self.toks().len() - self.pos(),
        {
            let ghost k = self.pos();
            let ghost prev = v@;
            if self.at_kind(terminator) {
                let _ = self.pop();
                break;
            }
            let e = match self.expression() {
                Ok(a) => a,
                Err(e) => return Err(e),
            };
            v.push(e);
            let tk = match self.expect_two(Kind::Comma, terminator) {
                Ok(tk) => tk,
                Err(e) => return Err(e),
            };
            proof {
                assert(v@.drop_last() =~= prev);
                assert(v@.last() == e);
                assert(is_pos(toks, k));
                assert(prefix_rel(toks, start, k, v@.drop_last()));
                assert(seq![Kind::Comma, terminator].contains(tk.kind));
                let j = choose|j: int| 0 <= j < 2 && seq![Kind::Comma, terminator][j] == tk.kind;
                assert(tk.kind == Kind::Comma || tk.kind == terminator);
            }
            if tk.kind == terminator {
                proof {
                    assert(kind_is(toks, self.pos() - 1, terminator));
                    assert(items_rel(toks, start, self.pos(), v@, terminator));
                }
                break;
            }
            proof {
                assert(kind_is(toks, self.pos() - 1, Kind::Comma));
                assert(prefix_rel(toks, start, self.pos(), v@));
            }
        }
        Ok(v)
    }

    /// The next top-level statement, or `None` at the end of the tokens.
    pub fn next(&mut self) -> (r: Result<Option<Ast>, Error>)
        requires
            old(self).wf(),
        ensures
            final(self).wf(),
            final(self).toks() == old(self).toks(),
            old(self).pos() >= old(self).toks().len() <==> r == Ok::<Option<Ast>, Error>(None),
            old(self).pos() < old(self).toks().len() ==> match stmt_end(old(self).toks(), old(self).pos()) {
                Ok(j) => r matches Ok(Some(_)) && final(self).pos() == j,
                Err(f) => r is Err && parse_error(f, r->Err_0),
            },
            r matches Ok(Some(a)) ==> old(self).pos() < final(self).pos() && stmt_rel(
                old(self).toks(),
                old(self).pos(),
                final(self).pos(),
                a,
            ),
    {
        if self.is_empty() {
            Ok(None)
        } else {
            match self.statement() {
                Ok(a) => Ok(Some(a)),
                Err(e) => Err(e),
            }
        }
    }
}

/// A copy of a slice of kinds.
fn slice_to_vec(what: &[Kind]) -> (r: Vec<Kind>)
    ensures
        r@ == what@,
{
    let mut v: Vec<Kind> = Vec::new();
    let mut i: usize = 0;
    while i < what.len()
        invariant
            i <= what@.len(),
            v@ == what@.subrange(0, i as int),
        decreases what@.len() - i,
    {
        v.push(what[i]);
        i += 1;
        assert(v@ =~= what@.subrange(0, i as int));
    }
    assert(what@.subrange(0, what@.len() as int) =~= what@);
    v
}

} // verus!
