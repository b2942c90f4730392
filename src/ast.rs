//! The syntax tree that the parser builds and the compiler lowers.
use vstd::prelude::*;
use vstd::string::*;
use crate::text::{int_text, push_char, push_int};
use crate::token::{Span, Token};

verus! {

/// A node of the syntax tree.
#[derive(Debug)]
pub enum Ast {
    /// An integer literal.
    Int(i64, Token),
    /// A string literal.
    Str(String, Token),
    /// A list literal.
    Lst(Vec<Ast>, Token),
    /// A variable reference.
    Var(String, Token),
    /// A binary operator, assignment included.
    BinOp(Token, Box<Ast>, Box<Ast>),
    /// A loop: keyword, optional init, optional condition, body, optional update.
    Loop(Token, Option<Box<Ast>>, Option<Box<Ast>>, Box<Ast>, Option<Box<Ast>>),
    /// `if`: condition, then-branch, optional else-branch.
    IfElse(Token, Box<Ast>, Box<Ast>, Option<Box<Ast>>),
    /// A sequence of statements between braces.
    Block(Token, Vec<Ast>),
    /// An expression whose value is discarded.
    Sttm(Box<Ast>),
    /// A call: the opening parenthesis, the callee and the arguments.
    Call(Token, Box<Ast>, Vec<Ast>),
    /// Indexing: the opening bracket, the target and the index.
    Index(Token, Box<Ast>, Box<Ast>),
}

impl Ast {
    /// The source span that the node covers.
    pub open spec fn span(self) -> Span
        decreases self,
    {
        match self {
            Ast::Int(_, tk) => tk.at,
            Ast::Str(_, tk) => tk.at,
            Ast::Var(_, tk) => tk.at,
            Ast::Lst(lst, tk) => {
                if lst.len() == 0 {
                    tk.at
                } else {
                    Span { start: lst[0].span().start, end: lst[lst.len() - 1].span().end }
                }
            },
            Ast::BinOp(_, lhs, rhs) => Span { start: lhs.span().start, end: rhs.span().end },
            Ast::Loop(tk, _, _, body, _) => Span { start: tk.at.start, end: body.span().end },
            Ast::Sttm(e) => e.span(),
            Ast::Block(tk, lst) => {
                if lst.len() == 0 {
                    tk.at
                } else {
                    Span { start: lst[0].span().start, end: lst[lst.len() - 1].span().end }
                }
            },
            Ast::Call(tk, callee, args) => Span {
                start: callee.span().start,
                end: if args.len() == 0 {
                    tk.at.end
                } else {
                    args[args.len() - 1].span().end
                },
            },
            Ast::Index(_, target, index) => Span { start: target.span().start, end: index.span().end },
            Ast::IfElse(tk, _, if_true, if_false) => Span {
                start: tk.at.start,
                end: match if_false {
                    Some(e) => e.span().end,
                    None => if_true.span().end,
                },
            },
        }
    }

    /// The source span that the node covers.
    pub fn at(&self) -> (r: Span)
        ensures
            r == self.span(),
        decreases self,
    {
        match self {
            Ast::Int(_, tk) => tk.at,
            Ast::Str(_, tk) => tk.at,
            Ast::Var(_, tk) => tk.at,
            Ast::Lst(lst, tk) => {
                if lst.len() == 0 {
                    tk.at
                } else {
                    Span { start: lst[0].at().start, end: lst[lst.len() - 1].at().end }
                }
            },
            Ast::BinOp(_, lhs, rhs) => Span { start: lhs.at().start, end: rhs.at().end },
            Ast::Loop(tk, _, _, body, _) => Span { start: tk.at.start, end: body.at().end },
            Ast::Sttm(e) => e.at(),
            Ast::Block(tk, lst) => {
                if lst.len() == 0 {
                    tk.at
                } else {
                    Span { start: lst[0].at().start, end: lst[lst.len() - 1].at().end }
                }
            },
            Ast::Call(tk, callee, args) => {
                let start = callee.at().start;
                let end = if args.len() == 0 {
                    tk.at.end
                } else {
                    args[args.len() - 1].at().end
                };
                Span { start, end }
            },
            Ast::Index(_, target, index) => Span { start: target.at().start, end: index.at().end },
            Ast::IfElse(tk, _, if_true, if_false) => {
                let end = match if_false {
                    Some(e) => e.at().end,
                    None => if_true.at().end,
                };
                Span { start: tk.at.start, end }
            },
        }
    }

    /// A short description of the node, as error reports show it.
    pub open spec fn description(self) -> Seq<char> {
        match self {
            Ast::Int(n, _) => int_text(n as int),
            Ast::Str(s, _) => seq!['"'] + s@ + seq!['"'],
            Ast::Lst(_, _) => "list"@,
            Ast::Var(s, _) => s@,
            Ast::BinOp(_, _, _) => "binary operator"@,
            Ast::Loop(tk, _, _, _, _) => tk.kind.name_spec() + " loop"@,
            Ast::IfElse(_, _, _, _) => "conditional"@,
            Ast::Block(_, _) => "block"@,
            Ast::Sttm(_) => "statement"@,
            Ast::Call(_, _, _) => "function call"@,
            Ast::Index(_, _, _) => "indexing"@,
        }
    }

    /// A short description of the node, as error reports show it.
    pub fn pretty(&self) -> (r: String)
        ensures
            r@ == self.description(),
    {
        match self {
            Ast::Int(n, _) => {
                let mut s = String::new();
                push_int(&mut s, *n);
                s
            },
            Ast::Str(v, _) => {
                let mut s = String::new();
                push_char(&mut s, '"');
                s.append(v.as_str());
                push_char(&mut s, '"');
                s
            },
            Ast::Lst(_, _) => String::from_str("list"),
            Ast::Var(v, _) => v.clone(),
            Ast::BinOp(_, _, _) => String::from_str("binary operator"),
            Ast::Loop(tk, _, _, _, _) => {
                let mut s = String::from_str(tk.kind.name());
                s.append(" loop");
                s
            },
            Ast::IfElse(_, _, _, _) => String::from_str("conditional"),
            Ast::Block(_, _) => String::from_str("block"),
            Ast::Sttm(_) => String::from_str("statement"),
            Ast::Call(_, _, _) => String::from_str("function call"),
            Ast::Index(_, _, _) => String::from_str("indexing"),
        }
    }
}

/// `a` and `b` are the same tree: equal node by node, lists compared by
/// their items.
pub open spec fn same(a: Ast, b: Ast) -> bool
    decreases a, 1nat,
{
    match (a, b) {
        (Ast::Int(n, t), Ast::Int(m, u)) => n == m && t == u,
        (Ast::Str(x, t), Ast::Str(y, u)) => x == y && t == u,
        (Ast::Var(x, t), Ast::Var(y, u)) => x == y && t == u,
        (Ast::Lst(v, t), Ast::Lst(w, u)) => t == u && same_all(v, w),
        (Ast::BinOp(t, l, r), Ast::BinOp(u, l2, r2)) => t == u && same(*l, *l2) && same(*r, *r2),
        (Ast::Loop(t, s1, c1, b1, u1), Ast::Loop(t2, s2, c2, b2, u2)) => t == t2 && same_opt(s1, s2) && same_opt(c1, c2)
            && same(*b1, *b2) && same_opt(u1, u2),
        (Ast::IfElse(t, c1, y1, n1), Ast::IfElse(t2, c2, y2, n2)) => t == t2 && same(*c1, *c2) && same(*y1, *y2)
            && same_opt(n1, n2),
        (Ast::Block(t, v), Ast::Block(u, w)) => t == u && same_all(v, w),
        (Ast::Sttm(e), Ast::Sttm(f)) => same(*e, *f),
        (Ast::Call(t, c1, v), Ast::Call(u, c2, w)) => t == u && same(*c1, *c2) && same_all(v, w),
        (Ast::Index(t, x1, i1), Ast::Index(u, x2, i2)) => t == u && same(*x1, *x2) && same(*i1, *i2),
        _ => false,
    }
}

/// The optional trees `a` and `b` are both absent or the same tree.
pub open spec fn same_opt(a: Option<Box<Ast>>, b: Option<Box<Ast>>) -> bool
    decreases a, 0nat,
{
    match (a, b) {
        (Some(x), Some(y)) => same(*x, *y),
        (None, None) => true,
        _ => false,
    }
}

/// `v` and `w` hold the same trees, item by item.
pub open spec fn same_all(v: Vec<Ast>, w: Vec<Ast>) -> bool
    decreases v, 0nat,
{
    v.len() == w.len() && forall|i: int| 0 <= i < v.len() ==> same(#[trigger] v[i], w[i])
}

/// Copies each node of `v`.
fn clone_all(v: &Vec<Ast>) -> (r: Vec<Ast>)
    ensures
        r.len() == v.len(),
        forall|i: int| 0 <= i < v.len() ==> #[trigger] r[i].span() == v[i].span(),
        same_all(r, *v),
    decreases v,
{
    let mut r: Vec<Ast> = Vec::new();
    let mut i: usize = 0;
    while i < v.len()
        invariant
            i <= v.len(),
            r.len() == i,
            forall|j: int| 0 <= j < i ==> #[trigger] r[j].span() == v[j].span(),
            forall|j: int| 0 <= j < i ==> same(#[trigger] r[j], v[j]),
        decreases v.len() - i,
    {
        r.push(v[i].clone());
        i += 1;
    }
    r
}

/// Copies an optional boxed node.
fn clone_opt(v: &Option<Box<Ast>>) -> (r: Option<Box<Ast>>)
    ensures
        r is Some == v is Some,
        v is Some ==> r->0.span() == v->0.span(),
        same_opt(r, *v),
    decreases v,
{
    match v {
        Some(b) => Some(Box::new((**b).clone())),
        None => None,
    }
}

impl Clone for Ast {
    fn clone(&self) -> (r: Ast)
        ensures
            r.span() == self.span(),
            r.description() == self.description(),
            same(r, *self),
        decreases self,
    {
        match self {
            Ast::Int(n, tk) => Ast::Int(*n, tk.clone()),
            Ast::Str(s, tk) => Ast::Str(s.clone(), tk.clone()),
            Ast::Lst(v, tk) => {
                let items = clone_all(v);
                if v.len() > 0 {
                    assert(items[0].span() == v[0].span());
                    assert(items[items.len() - 1].span() == v[v.len() - 1].span());
                }
                Ast::Lst(items, tk.clone())
            },
            Ast::Var(s, tk) => Ast::Var(s.clone(), tk.clone()),
            Ast::BinOp(tk, l, r) => {
                Ast::BinOp(tk.clone(), Box::new((**l).clone()), Box::new((**r).clone()))
            },
            Ast::Loop(tk, st, c, body, up) => Ast::Loop(
                tk.clone(),
                clone_opt(st),
                clone_opt(c),
                Box::new((**body).clone()),
                clone_opt(up),
            ),
            Ast::IfElse(tk, c, t, f) => Ast::IfElse(
                tk.clone(),
                Box::new((**c).clone()),
                Box::new((**t).clone()),
                clone_opt(f),
            ),
            Ast::Block(tk, v) => {
                let items = clone_all(v);
                if v.len() > 0 {
                    assert(items[0].span() == v[0].span());
                    assert(items[items.len() - 1].span() == v[v.len() - 1].span());
                }
                Ast::Block(tk.clone(), items)
            },
            Ast::Sttm(e) => Ast::Sttm(Box::new((**e).clone())),
            Ast::Call(tk, callee, args) => {
                let items = clone_all(args);
                if args.len() > 0 {
                    assert(items[items.len() - 1].span() == args[args.len() - 1].span());
                }
                Ast::Call(tk.clone(), Box::new((**callee).clone()), items)
            },
            Ast::Index(tk, t, i) => Ast::Index(tk.clone(), Box::new((**t).clone()), Box::new((**i).clone())),
        }
    }
}

} // verus!
