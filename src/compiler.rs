//! Lowering of syntax trees to opcodes, the peephole pass and the
//! resolution of jump targets to addresses.
use vstd::prelude::*;
use vstd::string::*;
use crate::ast::{same, Ast};
use crate::errors::Error;
use crate::opcodes::{Native, Op};
use crate::token::{Kind, Token};

verus! {

/// The built-ins: name, native tag and least number of arguments.
pub open spec fn native_spec(name: Seq<char>) -> Option<(Native, usize)> {
    if name == "print"@ {
        Some((Native::Print, 0))
    } else if name == "length"@ {
        Some((Native::Length, 1))
    } else if name == "to_string"@ {
        Some((Native::ToString, 1))
    } else if name == "append"@ {
        Some((Native::Append, 2))
    } else if name == "dump_stack"@ {
        Some((Native::DumpStack, 0))
    } else {
        None
    }
}

/// The opcode of a binary operator token kind.
pub open spec fn op_of(k: Kind) -> Option<Op> {
    match k {
        Kind::Add => Some(Op::Add),
        Kind::Sub => Some(Op::Sub),
        Kind::Mul => Some(Op::Mul),
        Kind::Div => Some(Op::Div),
        Kind::Mod => Some(Op::Mod),
        Kind::Lt => Some(Op::Lt),
        Kind::Lte => Some(Op::Lte),
        Kind::Gt => Some(Op::Gt),
        Kind::Gte => Some(Op::Gte),
        Kind::Eq => Some(Op::Eq),
        Kind::NotEq => Some(Op::Neq),
        _ => None,
    }
}

/// Why a tree could not be lowered.
pub enum LowerFault {
    /// The left side of an assignment is neither a variable nor an index.
    BadTarget(Ast),
    /// A built-in called with too few arguments: the call, the name, the
    /// count given and the count needed.
    Arity(Ast, Seq<char>, usize, usize),
    /// A call of something other than a built-in.
    Callee(Ast),
    /// A binary node whose token is no operator.
    BadOperator(Token),
}

/// The code for an optional tree, and the next free target id.
pub open spec fn lower_opt(a: Option<Box<Ast>>, t: nat) -> Result<(Seq<Op>, nat), LowerFault>
    decreases a,
{
    match a {
        Some(b) => lower(*b, t),
        None => Ok((Seq::empty(), t)),
    }
}

/// The code for the first `n` trees of `items`, in order, threading the
/// next free target id.
pub open spec fn lower_items(items: Vec<Ast>, n: nat, t: nat) -> Result<(Seq<Op>, nat), LowerFault>
    decreases items, n,
{
    if n == 0 || n > items.len() {
        Ok((Seq::empty(), t))
    } else {
        match lower_items(items, (n - 1) as nat, t) {
            Err(f) => Err(f),
            Ok((c1, t1)) => match lower(items[n - 1], t1) {
                Err(f) => Err(f),
                Ok((c2, t2)) => Ok((c1 + c2, t2)),
            },
        }
    }
}

/// The code that a tree lowers to, given `t`, the next free target id; and
/// the next free id after it. This is the compilation scheme: operands
/// left to right, then the operator; `Target` markers around loops and
/// branches, resolved to addresses later.
pub open spec fn lower(a: Ast, t: nat) -> Result<(Seq<Op>, nat), LowerFault>
    decreases a, 0nat,
{
    match a {
        Ast::Sttm(e) => match lower(*e, t) {
            Err(f) => Err(f),
            Ok((c, t1)) => Ok((c.push(Op::Pop), t1)),
        },
        Ast::Int(n, _) => Ok((seq![Op::PushI(n)], t)),
        Ast::Str(s, _) => Ok((seq![Op::PushS(s)], t)),
        Ast::Lst(items, _) => match lower_items(items, items.len() as nat, t) {
            Err(f) => Err(f),
            Ok((c, t1)) => Ok((c.push(Op::MakeList(items.len())), t1)),
        },
        Ast::Var(s, _) => Ok((seq![Op::LoadG(s)], t)),
        Ast::BinOp(tk, lhs, rhs) => if tk.kind == Kind::Assign {
            match *lhs {
                Ast::Var(name, _) => match lower(*rhs, t) {
                    Err(f) => Err(f),
                    Ok((c, t1)) => Ok((c.push(Op::StoreG(name)), t1)),
                },
                Ast::Index(_, target, index) => match lower(*rhs, t) {
                    Err(f) => Err(f),
                    Ok((c1, t1)) => match lower(*index, t1) {
                        Err(f) => Err(f),
                        Ok((c2, t2)) => match lower(*target, t2) {
                            Err(f) => Err(f),
                            Ok((c3, t3)) => Ok(((c1 + c2 + c3).push(Op::IndexStore), t3)),
                        },
                    },
                },
                other => Err(LowerFault::BadTarget(other)),
            }
        } else {
            match op_of(tk.kind) {
                None => Err(LowerFault::BadOperator(tk)),
                Some(op) => match lower(*lhs, t) {
                    Err(f) => Err(f),
                    Ok((c1, t1)) => match lower(*rhs, t1) {
                        Err(f) => Err(f),
                        Ok((c2, t2)) => Ok(((c1 + c2).push(op), t2)),
                    },
                },
            }
        },
        Ast::Loop(_, st, cond, body, up) => match lower_opt(st, t) {
            Err(f) => Err(f),
            Ok((c0, t0)) => {
                let start = t0;
                let end = t0 + 1;
                let head = c0.push(Op::Target(start as usize));
                match lower_opt(cond, t0 + 2) {
                    Err(f) => Err(f),
                    Ok((cc, t1)) => {
                        let test = if cond is Some {
                            cc.push(Op::JmpF(end as usize))
                        } else {
                            cc
                        };
                        match lower(*body, t1) {
                            Err(f) => Err(f),
                            Ok((cb, t2)) => match lower_opt(up, t2) {
                                Err(f) => Err(f),
                                Ok((cu, t3)) => Ok(
                                    (
                                        (head + test + cb + cu).push(Op::Jmp(start as usize)).push(
                                            Op::Target(end as usize),
                                        ),
                                        t3,
                                    ),
                                ),
                            },
                        }
                    },
                }
            },
        },
        Ast::IfElse(_, cond, yes, no) => {
            let end = t;
            let fls = if no is Some {
                t + 1
            } else {
                end
            };
            let t0 = if no is Some {
                t + 2
            } else {
                t + 1
            };
            match lower(*cond, t0) {
                Err(f) => Err(f),
                Ok((cc, t1)) => match lower(*yes, t1) {
                    Err(f) => Err(f),
                    Ok((cy, t2)) => {
                        let pre = cc.push(Op::JmpF(fls as usize)) + cy;
                        match no {
                            Some(e) => match lower(*e, t2) {
                                Err(f) => Err(f),
                                Ok((cn, t3)) => Ok(
                                    (
                                        (pre.push(Op::Jmp(end as usize)).push(Op::Target(fls as usize)) + cn).push(
                                            Op::Target(end as usize),
                                        ),
                                        t3,
                                    ),
                                ),
                            },
                            None => Ok((pre.push(Op::Target(end as usize)), t2)),
                        }
                    },
                },
            }
        },
        Ast::Block(_, items) => lower_items(items, items.len() as nat, t),
        Ast::Index(_, target, index) => match lower(*target, t) {
            Err(f) => Err(f),
            Ok((c1, t1)) => match lower(*index, t1) {
                Err(f) => Err(f),
                Ok((c2, t2)) => Ok(((c1 + c2).push(Op::Index), t2)),
            },
        },
        Ast::Call(_, callee, args) => match *callee {
            Ast::Var(name, _) => match native_spec(name@) {
                Some((w, min)) => if args.len() < min {
                    Err(LowerFault::Arity(a, name@, args.len(), min))
                } else {
                    match lower_items(args, args.len() as nat, t) {
                        Err(f) => Err(f),
                        Ok((c, t1)) => Ok((c.push(Op::Native(args.len(), w)), t1)),
                    }
                },
                None => Err(LowerFault::Callee(a)),
            },
            _ => Err(LowerFault::Callee(a)),
        },
    }
}

/// How many target ids the lowering of `a` allocates at most.
pub open spec fn targets_of(a: Ast) -> nat
    decreases a, 0nat,
{
    match a {
        Ast::Sttm(e) => targets_of(*e),
        Ast::Lst(items, _) => targets_items(items, items.len() as nat),
        Ast::BinOp(_, lhs, rhs) => {
            let inner = match *lhs {
                Ast::Index(_, target, index) => targets_of(*target) + targets_of(*index),
                _ => 0,
            };
            targets_of(*lhs) + inner + targets_of(*rhs)
        },
        Ast::Loop(_, st, cond, body, up) => 2 + targets_opt(st) + targets_opt(cond) + targets_of(*body)
            + targets_opt(up),
        Ast::IfElse(_, cond, yes, no) => 2 + targets_of(*cond) + targets_of(*yes) + targets_opt(no),
        Ast::Block(_, items) => targets_items(items, items.len() as nat),
        Ast::Index(_, target, index) => targets_of(*target) + targets_of(*index),
        Ast::Call(_, _, args) => targets_items(args, args.len() as nat),
        _ => 0,
    }
}

/// Target ids for an optional tree.
pub open spec fn targets_opt(a: Option<Box<Ast>>) -> nat
    decreases a,
{
    match a {
        Some(b) => targets_of(*b),
        None => 0,
    }
}

/// Target ids for the first `n` trees of `items`.
pub open spec fn targets_items(items: Vec<Ast>, n: nat) -> nat
    decreases items, n,
{
    if n == 0 || n > items.len() {
        0
    } else {
        targets_items(items, (n - 1) as nat) + targets_of(items[n - 1])
    }
}

/// The error that the compiler reports for a fault.
pub open spec fn fault_error(f: LowerFault, e: Error) -> bool {
    match f {
        LowerFault::BadTarget(x) => match e {
            Error::InvalidAssignmentTarget(y) => same(y, x),
            _ => false,
        },
        LowerFault::Arity(x, name, given, min) => match e {
            Error::NotEnoughArguments(y, n, g, m) => same(y, x) && n@ == name && g == given && m == min,
            _ => false,
        },
        LowerFault::Callee(x) => match e {
            Error::NotImplemented(y) => same(y, x),
            _ => false,
        },
        LowerFault::BadOperator(tk) => e == Error::ParsingError(tk),
    }
}

/// Looks up a built-in by name.
fn native_of(name: &String) -> (r: Option<(Native, usize)>)
    ensures
        r == native_spec(name@),
{
    if *name == String::from_str("print") {
        Some((Native::Print, 0))
    } else if *name == String::from_str("length") {
        Some((Native::Length, 1))
    } else if *name == String::from_str("to_string") {
        Some((Native::ToString, 1))
    } else if *name == String::from_str("append") {
        Some((Native::Append, 2))
    } else if *name == String::from_str("dump_stack") {
        Some((Native::DumpStack, 0))
    } else {
        None
    }
}

/// The peephole rewrite: every `StoreG(x)` directly followed by `Pop`
/// becomes one `MoveG(x)`, in a single forward scan.
pub open spec fn peephole(code: Seq<Op>) -> Seq<Op>
    decreases code.len(),
{
    if code.len() < 2 {
        code
    } else if code[0] is StoreG && code[1] is Pop {
        seq![Op::MoveG(code[0]->StoreG_0)] + peephole(code.skip(2))
    } else {
        seq![code[0]] + peephole(code.skip(1))
    }
}

/// How many of the first `n` opcodes are not `Target` markers.
pub open spec fn real_count(code: Seq<Op>, n: int) -> nat
    decreases n,
{
    if n <= 0 {
        0
    } else {
        real_count(code, n - 1) + if code[n - 1] is Target {
            0nat
        } else {
            1nat
        }
    }
}

/// The address of the last `Target(id)` among the first `n` opcodes: the
/// number of real opcodes before it.
pub open spec fn marker(code: Seq<Op>, id: usize, n: int) -> Option<nat>
    decreases n,
{
    if n <= 0 {
        None
    } else if code[n - 1] == Op::Target(id) {
        Some(real_count(code, n - 1))
    } else {
        marker(code, id, n - 1)
    }
}

/// The address that target `id` resolves to, for ids below `tc`.
pub open spec fn address(code: Seq<Op>, tc: nat, id: usize) -> Option<nat> {
    if id < tc {
        marker(code, id, code.len() as int)
    } else {
        None
    }
}

/// The target id of a jump.
pub open spec fn jump_id(op: Op) -> Option<usize> {
    match op {
        Op::Jmp(id) => Some(id),
        Op::JmpF(id) => Some(id),
        _ => None,
    }
}

/// The first jump among the first `n` opcodes whose target has no address.
pub open spec fn first_missing(code: Seq<Op>, tc: nat, n: int) -> Option<usize>
    decreases n,
{
    if n <= 0 {
        None
    } else {
        match first_missing(code, tc, n - 1) {
            Some(x) => Some(x),
            None => match jump_id(code[n - 1]) {
                Some(id) => if address(code, tc, id) is None {
                    Some(id)
                } else {
                    None
                },
                None => None,
            },
        }
    }
}

/// The first `n` opcodes with the markers removed and each jump holding the
/// address of its target.
pub open spec fn rewrite(code: Seq<Op>, tc: nat, n: int) -> Seq<Op>
    decreases n,
{
    if n <= 0 {
        Seq::empty()
    } else {
        rewrite(code, tc, n - 1) + match code[n - 1] {
            Op::Target(_) => Seq::empty(),
            Op::Jmp(id) => seq![Op::Jmp(address(code, tc, id)->0 as usize)],
            Op::JmpF(id) => seq![Op::JmpF(address(code, tc, id)->0 as usize)],
            op => seq![op],
        }
    }
}

/// The final code: `Err(id)` for the first jump to a target that no marker
/// defines, else the rewritten code.
pub open spec fn resolve(code: Seq<Op>, tc: nat) -> Result<Seq<Op>, usize> {
    match first_missing(code, tc, code.len() as int) {
        Some(id) => Err(id),
        None => Ok(rewrite(code, tc, code.len() as int)),
    }
}

/// At most `n` of the first `n` opcodes are real.
proof fn lemma_real_count_le(code: Seq<Op>, n: int)
    ensures
        n >= 0 ==> real_count(code, n) <= n,
    decreases n,
{
    if n > 0 {
        lemma_real_count_le(code, n - 1);
    }
}

/// A marker address is the real count of a proper prefix.
proof fn lemma_marker_bound(code: Seq<Op>, id: usize, n: int)
    requires
        n <= code.len(),
    ensures
        marker(code, id, n) is Some ==> marker(code, id, n)->0 < n && marker(code, id, n)->0 <= real_count(code, n),
    decreases n,
{
    if n > 0 {
        lemma_marker_bound(code, id, n - 1);
        lemma_real_count_le(code, n - 1);
        lemma_real_count_mono(code, n - 1, n);
    }
}

/// Real counts grow with the prefix.
proof fn lemma_real_count_mono(code: Seq<Op>, i: int, n: int)
    requires
        0 <= i <= n,
    ensures
        real_count(code, i) <= real_count(code, n),
    decreases n - i,
{
    if i < n {
        lemma_real_count_mono(code, i, n - 1);
    }
}

/// The first missing target stays the first as the prefix grows.
proof fn lemma_missing_stays(code: Seq<Op>, tc: nat, k: int, n: int)
    requires
        0 <= k <= n,
        first_missing(code, tc, k) is Some,
    ensures
        first_missing(code, tc, n) == first_missing(code, tc, k),
    decreases n - k,
{
    if k < n {
        lemma_missing_stays(code, tc, k, n - 1);
    }
}

/// Where no jump lacks an address, every jump has one.
proof fn lemma_no_missing(code: Seq<Op>, tc: nat, k: int, n: int)
    requires
        0 <= k < n,
        first_missing(code, tc, n) is None,
    ensures
        jump_id(code[k]) is Some ==> address(code, tc, jump_id(code[k])->0) is Some,
    decreases n,
{
    if k < n - 1 {
        lemma_no_missing(code, tc, k, n - 1);
    }
}

/// The target ids of a prefix of `items` grow with its length.
proof fn lemma_targets_items_mono(items: Vec<Ast>, i: nat, n: nat)
    requires
        i <= n <= items.len(),
    ensures
        targets_items(items, i) <= targets_items(items, n),
    decreases n - i,
{
    if i < n {
        lemma_targets_items_mono(items, i, (n - 1) as nat);
    }
}

/// Once a prefix of `items` fails to lower, every longer prefix fails alike.
proof fn lemma_lower_items_err(items: Vec<Ast>, i: nat, n: nat, t: nat)
    requires
        1 <= i <= n <= items.len(),
        lower_items(items, i, t) is Err,
    ensures
        lower_items(items, n, t) == lower_items(items, i, t),
    decreases n - i,
{
    if i < n {
        lemma_lower_items_err(items, i, (n - 1) as nat, t);
    }
}

/// Compiles trees to opcodes: it accumulates the code of each tree fed to
/// it and counts the target ids it hands out.
pub struct Compiler {
    code: Vec<Op>,
    target_count: usize,
}

impl Compiler {
    /// The code accumulated so far.
    pub closed spec fn code_view(&self) -> Seq<Op> {
        self.code@
    }

    /// The next free target id.
    pub closed spec fn targets(&self) -> nat {
        self.target_count as nat
    }

    /// The code names only target ids handed out so far, and every jump in
    /// it has its marker.
    pub closed spec fn wf(&self) -> bool {
        well_targeted(self.code@, 0, self.target_count as nat)
    }

    /// An empty compiler.
    pub fn new() -> (r: Compiler)
        ensures
            r.code_view() == Seq::<Op>::empty(),
            r.targets() == 0,
            r.wf(),
    {
        Compiler { code: Vec::new(), target_count: 0 }
    }

    /// Hands out the next target id.
    fn next_target(&mut self) -> (r: usize)
        requires
            old(self).targets() < usize::MAX,
        ensures
            r == old(self).targets(),
            final(self).targets() == old(self).targets() + 1,
            final(self).code_view() == old(self).code_view(),
    {
        let t = self.target_count;
        self.target_count = self.target_count + 1;
        t
    }

    /// The opcode of a binary operator token.
    fn op_from_tk(tk: &Token) -> (r: Option<Op>)
        ensures
            r == op_of(tk.kind),
    {
        match tk.kind {
            Kind::Add => Some(Op::Add),
            Kind::Sub => Some(Op::Sub),
            Kind::Mul => Some(Op::Mul),
            Kind::Div => Some(Op::Div),
            Kind::Mod => Some(Op::Mod),
            Kind::Lt => Some(Op::Lt),
            Kind::Lte => Some(Op::Lte),
            Kind::Gt => Some(Op::Gt),
            Kind::Gte => Some(Op::Gte),
            Kind::Eq => Some(Op::Eq),
            Kind::NotEq => Some(Op::Neq),
            _ => None,
        }
    }

    /// Whether the target ids that `ast` may need are still free to hand out.
    pub fn can_feed(&self, ast: &Ast) -> (r: bool)
        ensures
            r ==> self.targets() + targets_of(*ast) <= usize::MAX,
            self.targets() + targets_of(*ast) < usize::MAX ==> r,
    {
        let need = count_targets(ast);
        need < u64::MAX && need <= usize::MAX as u64 - self.target_count as u64
    }

    /// Appends one opcode.
    fn emit(&mut self, op: Op)
        ensures
            final(self).code_view() == old(self).code_view().push(op),
            final(self).targets() == old(self).targets(),
    {
        self.code.push(op);
    }

    /// Lowers an optional tree.
    fn feed_opt(&mut self, a: &Option<Box<Ast>>) -> (r: Result<(), Error>)
        requires
            old(self).targets() + targets_opt(*a) <= usize::MAX,
        ensures
            old(self).targets() <= final(self).targets() <= old(self).targets() + targets_opt(*a),
            match lower_opt(*a, old(self).targets()) {
                Ok((c, t)) => r is Ok && final(self).code_view() == old(self).code_view() + c && final(self).targets() == t,
                Err(f) => r is Err && fault_error(f, r->Err_0),
            },
        decreases a,
    {
        match a {
            Some(b) => self.lower_into(b),
            None => {
                assert(self.code_view() =~= old(self).code_view() + Seq::<Op>::empty());
                Ok(())
            },
        }
    }

    /// Lowers all of `items`, in order.
    fn feed_items(&mut self, items: &Vec<Ast>) -> (r: Result<(), Error>)
        requires
            old(self).targets() + targets_items(*items, items.len() as nat) <= usize::MAX,
        ensures
            old(self).targets() <= final(self).targets() <= old(self).targets() + targets_items(*items, items.len() as nat),
            match lower_items(*items, items.len() as nat, old(self).targets()) {
                Ok((c, t)) => r is Ok && final(self).code_view() == old(self).code_view() + c && final(self).targets() == t,
                Err(f) => r is Err && fault_error(f, r->Err_0),
            },
        decreases items,
    {
        let mut i: usize = 0;
        assert(self.code_view() =~= old(self).code_view() + Seq::<Op>::empty());
        while i < items.len()
            invariant
                i <= items.len(),
                old(self).targets() + targets_items(*items, items.len() as nat) <= usize::MAX,
                old(self).targets() <= self.targets() <= old(self).targets() + targets_items(*items, i as nat),
                match lower_items(*items, i as nat, old(self).targets()) {
                    Ok((c, t)) => self.code_view() == old(self).code_view() + c && self.targets() == t,
                    Err(_) => false,
                },
            decreases items.len() - i,
        {
            proof {
                lemma_targets_items_mono(*items, (i + 1) as nat, items.len() as nat);
            }
            let ghost before = self.code_view();
            match self.lower_into(&items[i]) {
                Ok(()) => {},
                Err(e) => {
                    proof {
                        lemma_lower_items_err(*items, (i + 1) as nat, items.len() as nat, old(self).targets());
                    }
                    return Err(e);
                },
            }
            proof {
                let (c, t) = lower_items(*items, i as nat, old(self).targets())->Ok_0;
                let (c2, t2) = lower(items[i as int], t)->Ok_0;
                assert(self.code_view() =~= old(self).code_view() + (c + c2));
            }
            i += 1;
        }
        Ok(())
    }

    /// Appends the code of `ast`.
    fn lower_into(&mut self, ast: &Ast) -> (r: Result<(), Error>)
        requires
            old(self).targets() + targets_of(*ast) <= usize::MAX,
        ensures
            old(self).targets() <= final(self).targets() <= old(self).targets() + targets_of(*ast),
            match lower(*ast, old(self).targets()) {
                Ok((c, t)) => r is Ok && final(self).code_view() == old(self).code_view() + c && final(self).targets() == t,
                Err(f) => r is Err && fault_error(f, r->Err_0),
            },
        decreases ast, 1nat,
    {
        let ghost c0 = self.code_view();
        match ast {
            Ast::Sttm(e) => {
                match self.lower_into(e) {
                    Ok(()) => {},
                    Err(e) => return Err(e),
                }
                self.emit(Op::Pop);
                assert(self.code_view() =~= c0 + lower(*ast, old(self).targets())->Ok_0.0);
                Ok(())
            },
            Ast::Int(n, _) => {
                self.emit(Op::PushI(*n));
                assert(self.code_view() =~= c0 + seq![Op::PushI(*n)]);
                Ok(())
            },
            Ast::Str(v, _) => {
                self.emit(Op::PushS(v.clone()));
                assert(self.code_view() =~= c0 + seq![Op::PushS(*v)]);
                Ok(())
            },
            Ast::Lst(items, _) => {
                match self.feed_items(items) {
                    Ok(()) => {},
                    Err(e) => return Err(e),
                }
                self.emit(Op::MakeList(items.len()));
                assert(self.code_view() =~= c0 + lower(*ast, old(self).targets())->Ok_0.0);
                Ok(())
            },
            Ast::Var(v, _) => {
                self.emit(Op::LoadG(v.clone()));
                assert(self.code_view() =~= c0 + seq![Op::LoadG(*v)]);
                Ok(())
            },
            Ast::BinOp(tk, lhs, rhs) => {
                if tk.kind == Kind::Assign {
                    match &**lhs {
                        Ast::Var(name, _) => {
                            match self.lower_into(rhs) {
                                Ok(()) => {},
                                Err(e) => return Err(e),
                            }
                            self.emit(Op::StoreG(name.clone()));
                            assert(self.code_view() =~= c0 + lower(*ast, old(self).targets())->Ok_0.0);
                            Ok(())
                        },
                        Ast::Index(_, target, index) => {
                            match self.lower_into(rhs) {
                                Ok(()) => {},
                                Err(e) => return Err(e),
                            }
                            match self.lower_into(index) {
                                Ok(()) => {},
                                Err(e) => return Err(e),
                            }
                            match self.lower_into(target) {
                                Ok(()) => {},
                                Err(e) => return Err(e),
                            }
                            self.emit(Op::IndexStore);
                            assert(self.code_view() =~= c0 + lower(*ast, old(self).targets())->Ok_0.0);
                            Ok(())
                        },
                        _ => Err(Error::InvalidAssignmentTarget((**lhs).clone())),
                    }
                } else {
                    let op = match Self::op_from_tk(tk) {
                        Some(op) => op,
                        None => return Err(Error::ParsingError(tk.clone())),
                    };
                    match self.lower_into(lhs) {
                        Ok(()) => {},
                        Err(e) => return Err(e),
                    }
                    match self.lower_into(rhs) {
                        Ok(()) => {},
                        Err(e) => return Err(e),
                    }
                    self.emit(op);
                    assert(self.code_view() =~= c0 + lower(*ast, old(self).targets())->Ok_0.0);
                    Ok(())
                }
            },
            Ast::Loop(..) => self.lower_loop(ast),
            Ast::IfElse(..) => self.lower_if(ast),
            Ast::Block(_, items) => self.feed_items(items),
            Ast::Index(_, target, index) => {
                match self.lower_into(target) {
                    Ok(()) => {},
                    Err(e) => return Err(e),
                }
                match self.lower_into(index) {
                    Ok(()) => {},
                    Err(e) => return Err(e),
                }
                self.emit(Op::Index);
                assert(self.code_view() =~= c0 + lower(*ast, old(self).targets())->Ok_0.0);
                Ok(())
            },
            Ast::Call(_, callee, args) => {
                match &**callee {
                    Ast::Var(name, _) => {
                        match native_of(name) {
                            Some((which, min)) => {
                                if args.len() < min {
                                    return Err(Error::NotEnoughArguments(ast.clone(), name.clone(), args.len(), min));
                                }
                                match self.feed_items(args) {
                                    Ok(()) => {},
                                    Err(e) => return Err(e),
                                }
                                self.emit(Op::Native(args.len(), which));
                                assert(self.code_view() =~= c0 + lower(*ast, old(self).targets())->Ok_0.0);
                                Ok(())
                            },
                            None => Err(Error::NotImplemented(ast.clone())),
                        }
                    },
                    _ => Err(Error::NotImplemented(ast.clone())),
                }
            },
        }
    }

    /// Appends the code of a loop.
    fn lower_loop(&mut self, ast: &Ast) -> (r: Result<(), Error>)
        requires
            old(self).targets() + targets_of(*ast) <= usize::MAX,
            *ast is Loop,
        ensures
            old(self).targets() <= final(self).targets() <= old(self).targets() + targets_of(*ast),
            match lower(*ast, old(self).targets()) {
                Ok((c, t)) => r is Ok && final(self).code_view() == old(self).code_view() + c && final(self).targets() == t,
                Err(f) => r is Err && fault_error(f, r->Err_0),
            },
        decreases ast, 0nat,
    {
        let ghost c0 = self.code_view();
        match ast {
            Ast::Loop(_, st, cond, body, up) => {
        match self.feed_opt(st) {
            Ok(()) => {},
            Err(e) => return Err(e),
        }
        let loop_start = self.next_target();
        let loop_end = self.next_target();
        self.emit(Op::Target(loop_start));
        match cond {
            Some(c) => {
                assert(targets_opt(*cond) == targets_of(**c));
                assert(lower_opt(*cond, self.targets()) == lower(**c, self.targets()));
                match self.lower_into(c) {
                    Ok(()) => {},
                    Err(e) => return Err(e),
                }
                self.emit(Op::JmpF(loop_end));
            },
            None => {},
        }
        match self.lower_into(body) {
            Ok(()) => {},
            Err(e) => return Err(e),
        }
        match self.feed_opt(up) {
            Ok(()) => {},
            Err(e) => return Err(e),
        }
        self.emit(Op::Jmp(loop_start));
        self.emit(Op::Target(loop_end));
        assert(self.code_view() =~= c0 + lower(*ast, old(self).targets())->Ok_0.0);
        Ok(())
            },
            _ => Err(Error::NotImplemented(ast.clone())),
        }
    }

    /// Appends the code of a conditional.
    fn lower_if(&mut self, ast: &Ast) -> (r: Result<(), Error>)
        requires
            old(self).targets() + targets_of(*ast) <= usize::MAX,
            *ast is IfElse,
        ensures
            old(self).targets() <= final(self).targets() <= old(self).targets() + targets_of(*ast),
            match lower(*ast, old(self).targets()) {
                Ok((c, t)) => r is Ok && final(self).code_view() == old(self).code_view() + c && final(self).targets() == t,
                Err(f) => r is Err && fault_error(f, r->Err_0),
            },
        decreases ast, 0nat,
    {
        let ghost c0 = self.code_view();
        match ast {
            Ast::IfElse(_, cond, yes, no) => {
        let target_end = self.next_target();
        let target_false = match no {
            Some(_) => self.next_target(),
            None => target_end,
        };
        match self.lower_into(cond) {
            Ok(()) => {},
            Err(e) => return Err(e),
        }
        self.emit(Op::JmpF(target_false));
        match self.lower_into(yes) {
            Ok(()) => {},
            Err(e) => return Err(e),
        }
        match no {
            Some(e) => {
                self.emit(Op::Jmp(target_end));
                self.emit(Op::Target(target_false));
                assert(targets_opt(*no) == targets_of(**e));
                assert(lower_opt(*no, self.targets()) == lower(**e, self.targets()));
                match self.lower_into(e) {
                    Ok(()) => {},
                    Err(e) => return Err(e),
                }
            },
            None => {},
        }
        self.emit(Op::Target(target_end));
        assert(self.code_view() =~= c0 + lower(*ast, old(self).targets())->Ok_0.0);
        Ok(())
            },
            _ => Err(Error::NotImplemented(ast.clone())),
        }
    }

    /// The peephole pass over the accumulated code.
    fn optimize(&mut self)
        ensures
            final(self).code_view() == peephole(old(self).code_view()),
            final(self).targets() == old(self).targets(),
    {
        let ghost c = self.code_view();
        let mut out: Vec<Op> = Vec::new();
        let mut i: usize = 0;
        let n = self.code.len();
        assert(c.skip(0) =~= c);
        assert(out@ + peephole(c) =~= peephole(c));
        while i < n
            invariant
                n == c.len(),
                self.code@ == c,
                i <= n,
                peephole(c) == out@ + peephole(c.skip(i as int)),
            decreases n - i,
        {
            let ghost rest = c.skip(i as int);
            let mut fused = false;
            if i + 1 < n {
                if let Op::StoreG(name) = &self.code[i] {
                    if let Op::Pop = &self.code[i + 1] {
                        out.push(Op::MoveG(name.clone()));
                        proof {
                            assert(rest[0] == c[i as int] && rest[1] == c[i + 1]);
                            assert(rest.skip(2) =~= c.skip(i + 2));
                            assert(out@ + peephole(c.skip(i + 2)) =~= out@.drop_last() + (seq![out@.last()] + peephole(c.skip(i + 2))));
                        }
                        i += 2;
                        fused = true;
                    }
                }
            }
            if !fused {
                out.push(self.code[i].clone());
                proof {
                    assert(rest[0] == c[i as int]);
                    assert(rest.skip(1) =~= c.skip(i + 1));
                    if rest.len() < 2 {
                        assert(rest =~= seq![c[i as int]]);
                        assert(c.skip(i + 1) =~= Seq::<Op>::empty());
                    }
                    assert(out@ + peephole(c.skip(i + 1)) =~= out@.drop_last() + (seq![out@.last()] + peephole(c.skip(i + 1))));
                }
                i += 1;
            }
        }
        proof {
            assert(c.skip(n as int) =~= Seq::<Op>::empty());
            assert(out@ + Seq::<Op>::empty() =~= out@);
        }
        self.code = out;
    }

    /// Removes the markers and rewrites each jump to the address of its
    /// target; a jump whose target has no marker is an error.
    fn expand_targets(self) -> (r: Result<Vec<Op>, Error>)
        ensures
            match resolve(self.code_view(), self.targets()) {
                Ok(c) => r is Ok && r->Ok_0@ == c,
                Err(id) => r == Err::<Vec<Op>, Error>(Error::JumpTargetNotFound(id)),
            },
    {
        let ghost c = self.code_view();
        let tc = self.target_count;
        let n = self.code.len();
        let mut target: Vec<usize> = vec![usize::MAX; tc];
        let mut i: usize = 0;
        let mut k: usize = 0;
        while k < n
            invariant
                n == c.len(),
                self.code@ == c,
                tc == self.targets(),
                target@.len() == tc,
                k <= n,
                i == real_count(c, k as int),
                forall|id: int| 0 <= id < tc ==> #[trigger] target@[id] == match marker(c, id as usize, k as int) {
                    Some(a) => a as usize,
                    None => usize::MAX,
                },
            decreases n - k,
        {
            proof {
                lemma_real_count_le(c, k as int);
            }
            match &self.code[k] {
                Op::Target(id) => {
                    if *id < tc {
                        target.set(*id, i);
                    }
                },
                _ => {
                    i += 1;
                },
            }
            k += 1;
        }
        proof {
            assert forall|id: int| 0 <= id < tc && #[trigger] target@[id] == usize::MAX implies marker(c, id as usize, n as int) is None by {
                lemma_marker_bound(c, id as usize, n as int);
            }
        }
        let mut k: usize = 0;
        while k < n
            invariant
                n == c.len(),
                self.code@ == c,
                tc == self.targets(),
                target@.len() == tc,
                k <= n,
                forall|id: int| 0 <= id < tc ==> #[trigger] target@[id] == match marker(c, id as usize, n as int) {
                    Some(a) => a as usize,
                    None => usize::MAX,
                },
                forall|id: int| 0 <= id < tc && #[trigger] target@[id] == usize::MAX ==> marker(c, id as usize, n as int) is None,
                first_missing(c, tc as nat, k as int) is None,
            decreases n - k,
        {
            let id = match &self.code[k] {
                Op::Jmp(id) => Some(*id),
                Op::JmpF(id) => Some(*id),
                _ => None,
            };
            if let Some(id) = id {
                if id >= tc || target[id] == usize::MAX {
                    proof {
                        assert(first_missing(c, tc as nat, k + 1) == Some(id));
                        lemma_missing_stays(c, tc as nat, k + 1, n as int);
                    }
                    return Err(Error::JumpTargetNotFound(id));
                }
            }
            k += 1;
        }
        let mut out: Vec<Op> = Vec::new();
        let mut k: usize = 0;
        while k < n
            invariant
                n == c.len(),
                self.code@ == c,
                tc == self.targets(),
                target@.len() == tc,
                k <= n,
                forall|id: int| 0 <= id < tc ==> #[trigger] target@[id] == match marker(c, id as usize, n as int) {
                    Some(a) => a as usize,
                    None => usize::MAX,
                },
                first_missing(c, tc as nat, n as int) is None,
                out@ == rewrite(c, tc as nat, k as int),
            decreases n - k,
        {
            proof {
                lemma_no_missing(c, tc as nat, k as int, n as int);
            }
            match &self.code[k] {
                Op::Target(_) => {},
                Op::Jmp(id) => {
                    out.push(Op::Jmp(target[*id]));
                },
                Op::JmpF(id) => {
                    out.push(Op::JmpF(target[*id]));
                },
                op => {
                    out.push(op.clone());
                },
            }
            proof {
                assert(out@ =~= rewrite(c, tc as nat, k + 1));
            }
            k += 1;
        }
        Ok(out)
    }

    /// The final code: the peephole pass, then the resolution of targets.
    pub fn build(self) -> (r: Result<Vec<Op>, Error>)
        ensures
            match resolve(peephole(self.code_view()), self.targets()) {
                Ok(c) => r is Ok && r->Ok_0@ == c,
                Err(id) => r == Err::<Vec<Op>, Error>(Error::JumpTargetNotFound(id)),
            },
    {
        let mut c = self;
        c.optimize();
        c.expand_targets()
    }

    /// Feeds one top-level tree: appends its code and returns how many
    /// opcodes were appended.
    pub fn feed(&mut self, ast: &Ast) -> (r: Result<usize, Error>)
        requires
            old(self).targets() + targets_of(*ast) <= usize::MAX,
            old(self).wf(),
        ensures
            final(self).wf(),
            old(self).targets() <= final(self).targets() <= old(self).targets() + targets_of(*ast),
            match lower(*ast, old(self).targets()) {
                Ok((c, t)) => r == Ok::<usize, Error>(c.len() as usize) && final(self).code_view() == old(self).code_view() + c
                    && final(self).targets() == t,
                Err(f) => r is Err && fault_error(f, r->Err_0),
            },
            r is Ok ==> final(self).code_view().len() == old(self).code_view().len() + r->Ok_0,
            r is Err ==> final(self).code_view() == old(self).code_view() && final(self).targets() == old(self).targets(),
    {
        let mut saved: Vec<Op> = Vec::new();
        std::mem::swap(&mut self.code, &mut saved);
        let count = self.target_count;
        assert(self.code_view() =~= Seq::<Op>::empty());
        match self.lower_into(ast) {
            Ok(()) => {
                let n = self.code.len();
                let ghost c = self.code_view();
                let ghost old_code = saved@;
                saved.append(&mut self.code);
                self.code = saved;
                proof {
                    assert(c =~= Seq::<Op>::empty() + c);
                    lemma_lower_targets(*ast, old(self).targets());
                    lemma_wt_concat(old_code, c, 0, old(self).targets(), self.targets());
                }
                Ok(n)
            },
            Err(e) => {
                self.code = saved;
                self.target_count = count;
                Err(e)
            },
        }
    }
}

/// `targets_of`, saturated at `u64::MAX`.
fn count_targets(a: &Ast) -> (r: u64)
    ensures
        r == if targets_of(*a) <= u64::MAX { targets_of(*a) } else { u64::MAX as nat },
    decreases a, 0nat,
{
    match a {
        Ast::Sttm(e) => count_targets(e),
        Ast::Lst(items, _) => count_items(items),
        Ast::BinOp(_, lhs, rhs) => {
            let inner = match &**lhs {
                Ast::Index(_, target, index) => sat_add(count_targets(target), count_targets(index)),
                _ => 0,
            };
            sat_add(sat_add(count_targets(lhs), inner), count_targets(rhs))
        },
        Ast::Loop(_, st, cond, body, up) => sat_add(
            sat_add(sat_add(2, count_opt(st)), sat_add(count_opt(cond), count_targets(body))),
            count_opt(up),
        ),
        Ast::IfElse(_, cond, yes, no) => sat_add(
            sat_add(2, count_targets(cond)),
            sat_add(count_targets(yes), count_opt(no)),
        ),
        Ast::Block(_, items) => count_items(items),
        Ast::Index(_, target, index) => sat_add(count_targets(target), count_targets(index)),
        Ast::Call(_, _, args) => count_items(args),
        _ => 0,
    }
}

/// `targets_opt`, saturated.
fn count_opt(a: &Option<Box<Ast>>) -> (r: u64)
    ensures
        r == if targets_opt(*a) <= u64::MAX { targets_opt(*a) } else { u64::MAX as nat },
    decreases a,
{
    match a {
        Some(b) => count_targets(b),
        None => 0,
    }
}

/// `targets_items` of all of `items`, saturated.
fn count_items(items: &Vec<Ast>) -> (r: u64)
    ensures
        r == if targets_items(*items, items.len() as nat) <= u64::MAX {
            targets_items(*items, items.len() as nat)
        } else {
            u64::MAX as nat
        },
    decreases items,
{
    let mut total: u64 = 0;
    let mut i: usize = 0;
    while i < items.len()
        invariant
            i <= items.len(),
            total == if targets_items(*items, i as nat) <= u64::MAX {
                targets_items(*items, i as nat)
            } else {
                u64::MAX as nat
            },
        decreases items.len() - i,
    {
        total = sat_add(total, count_targets(&items[i]));
        i += 1;
    }
    total
}

/// Addition saturated at `u64::MAX`.
fn sat_add(a: u64, b: u64) -> (r: u64)
    ensures
        r == if a + b <= u64::MAX { a + b } else { u64::MAX as int },
{
    if a > u64::MAX - b {
        u64::MAX
    } else {
        a + b
    }
}

/// The rewritten code has one opcode for each real opcode of the prefix.
proof fn lemma_rewrite_len(code: Seq<Op>, tc: nat, n: int)
    requires
        0 <= n <= code.len(),
    ensures
        rewrite(code, tc, n).len() == real_count(code, n),
        forall|k: int| 0 <= k < rewrite(code, tc, n).len() ==> !(#[trigger] rewrite(code, tc, n)[k] is Target),
        forall|k: int|
            0 <= k < rewrite(code, tc, n).len() && #[trigger] jump_id(rewrite(code, tc, n)[k]) is Some ==> exists|j: int|
                0 <= j < n && jump_id(code[j]) is Some && jump_id(rewrite(code, tc, n)[k])->0 == address(
                    code,
                    tc,
                    jump_id(code[j])->0,
                )->0 as usize,
    decreases n,
{
    if n > 0 {
        lemma_rewrite_len(code, tc, n - 1);
        let r0 = rewrite(code, tc, n - 1);
        let r = rewrite(code, tc, n);
        assert forall|k: int| 0 <= k < r.len() && #[trigger] jump_id(r[k]) is Some implies exists|j: int|
            0 <= j < n && jump_id(code[j]) is Some && jump_id(r[k])->0 == address(code, tc, jump_id(code[j])->0)->0 as usize by {
            if k < r0.len() {
                assert(r[k] == r0[k]);
                let j = choose|j: int|
                    0 <= j < n - 1 && jump_id(code[j]) is Some && jump_id(r0[k])->0 == address(
                        code,
                        tc,
                        jump_id(code[j])->0,
                    )->0 as usize;
                assert(0 <= j < n);
            } else {
                assert(jump_id(code[n - 1]) is Some);
            }
        }
        assert forall|k: int| 0 <= k < r.len() implies !(#[trigger] r[k] is Target) by {
            if k < r0.len() {
                assert(r[k] == r0[k]);
            }
        }
    }
}

/// Final code holds no `Target` marker, and every jump holds an address
/// within the code or just past its end, where execution stops.
pub proof fn law_resolved_code(code: Seq<Op>, tc: nat)
    requires
        resolve(code, tc) is Ok,
    ensures
        forall|k: int|
            0 <= k < resolve(code, tc)->Ok_0.len() ==> !(#[trigger] resolve(code, tc)->Ok_0[k] is Target),
        forall|k: int|
            0 <= k < resolve(code, tc)->Ok_0.len() && #[trigger] jump_id(resolve(code, tc)->Ok_0[k]) is Some
                ==> jump_id(resolve(code, tc)->Ok_0[k])->0 <= resolve(code, tc)->Ok_0.len(),
{
    let n = code.len() as int;
    let out = rewrite(code, tc, n);
    lemma_rewrite_len(code, tc, n);
    assert forall|k: int| 0 <= k < out.len() && #[trigger] jump_id(out[k]) is Some implies jump_id(out[k])->0 <= out.len() by {
        let j = choose|j: int|
            0 <= j < n && jump_id(code[j]) is Some && jump_id(out[k])->0 == address(code, tc, jump_id(code[j])->0)->0 as usize;
        lemma_no_missing(code, tc, j, n);
        let id = jump_id(code[j])->0;
        lemma_marker_bound(code, id, n);
        lemma_real_count_le(code, n);
    }
}

/// The target id that an opcode names: a marker's or a jump's.
pub open spec fn op_id(op: Op) -> Option<usize> {
    match op {
        Op::Target(i) => Some(i),
        Op::Jmp(i) => Some(i),
        Op::JmpF(i) => Some(i),
        _ => None,
    }
}

/// Every id that `c` names lies in `lo..hi`, and every jump of `c` has
/// its marker in `c`.
pub open spec fn well_targeted(c: Seq<Op>, lo: nat, hi: nat) -> bool {
    &&& forall|k: int| 0 <= k < c.len() && (#[trigger] op_id(c[k])) is Some ==> lo <= op_id(c[k])->0 < hi
    &&& forall|k: int|
        0 <= k < c.len() && (#[trigger] jump_id(c[k])) is Some ==> c.contains(Op::Target(jump_id(c[k])->0))
}

/// Joining two well-targeted pieces with adjacent id ranges.
proof fn lemma_wt_concat(c1: Seq<Op>, c2: Seq<Op>, lo: nat, m: nat, hi: nat)
    requires
        lo <= m <= hi,
        well_targeted(c1, lo, m),
        well_targeted(c2, m, hi),
    ensures
        well_targeted(c1 + c2, lo, hi),
{
    let c = c1 + c2;
    assert forall|k: int| 0 <= k < c.len() && (#[trigger] op_id(c[k])) is Some implies lo <= op_id(c[k])->0 < hi by {
        if k < c1.len() {
            assert(c[k] == c1[k]);
        } else {
            assert(c[k] == c2[k - c1.len()]);
        }
    }
    assert forall|k: int|
        0 <= k < c.len() && (#[trigger] jump_id(c[k])) is Some implies c.contains(Op::Target(jump_id(c[k])->0)) by {
        if k < c1.len() {
            assert(c[k] == c1[k]);
            let j = choose|j: int| 0 <= j < c1.len() && #[trigger] c1[j] == Op::Target(jump_id(c1[k])->0);
            assert(c[j] == c1[j]);
        } else {
            assert(c[k] == c2[k - c1.len()]);
            let j = choose|j: int| 0 <= j < c2.len() && #[trigger] c2[j] == Op::Target(jump_id(c2[k - c1.len()])->0);
            assert(c[c1.len() + j] == c2[j]);
        }
    }
}

/// Appending an opcode that names no target keeps a piece well targeted.
proof fn lemma_wt_push(c: Seq<Op>, op: Op, lo: nat, hi: nat)
    requires
        lo <= hi,
        well_targeted(c, lo, hi),
        op_id(op) is None,
    ensures
        well_targeted(c.push(op), lo, hi),
{
    let d = c.push(op);
    assert forall|k: int| 0 <= k < d.len() && (#[trigger] op_id(d[k])) is Some implies lo <= op_id(d[k])->0 < hi by {
        if k < c.len() {
            assert(d[k] == c[k]);
        }
    }
    assert forall|k: int|
        0 <= k < d.len() && (#[trigger] jump_id(d[k])) is Some implies d.contains(Op::Target(jump_id(d[k])->0)) by {
        assert(k < c.len());
        assert(d[k] == c[k]);
        let j = choose|j: int| 0 <= j < c.len() && #[trigger] c[j] == Op::Target(jump_id(c[k])->0);
        assert(d[j] == c[j]);
    }
}

/// Lowering names only ids that it hands out, and puts the marker of every
/// jump it emits into the same code.
proof fn lemma_lower_targets(a: Ast, t: nat)
    requires
        lower(a, t) is Ok,
        t + targets_of(a) <= usize::MAX,
    ensures
        t <= lower(a, t)->Ok_0.1 <= t + targets_of(a),
        well_targeted(lower(a, t)->Ok_0.0, t, lower(a, t)->Ok_0.1),
    decreases a, 2nat,
{
    let (c, t2) = lower(a, t)->Ok_0;
    match a {
        Ast::Sttm(e) => {
            lemma_lower_targets(*e, t);
            lemma_wt_push(lower(*e, t)->Ok_0.0, Op::Pop, t, t2);
        },
        Ast::Int(n, _) => {
            lemma_wt_push(Seq::empty(), Op::PushI(n), t, t);
            assert(seq![Op::PushI(n)] =~= Seq::<Op>::empty().push(Op::PushI(n)));
        },
        Ast::Str(v, _) => {
            lemma_wt_push(Seq::empty(), Op::PushS(v), t, t);
            assert(seq![Op::PushS(v)] =~= Seq::<Op>::empty().push(Op::PushS(v)));
        },
        Ast::Var(v, _) => {
            lemma_wt_push(Seq::empty(), Op::LoadG(v), t, t);
            assert(seq![Op::LoadG(v)] =~= Seq::<Op>::empty().push(Op::LoadG(v)));
        },
        Ast::Lst(items, _) => {
            lemma_lower_items_targets(items, items.len() as nat, t);
            let (ci, ti) = lower_items(items, items.len() as nat, t)->Ok_0;
            lemma_wt_push(ci, Op::MakeList(items.len()), t, ti);
        },
        Ast::Block(_, items) => {
            lemma_lower_items_targets(items, items.len() as nat, t);
        },
        Ast::Call(_, callee, args) => {
            lemma_lower_items_targets(args, args.len() as nat, t);
            let (ci, ti) = lower_items(args, args.len() as nat, t)->Ok_0;
            match *callee {
                Ast::Var(name, _) => {
                    let (w, _) = native_spec(name@)->0;
                    lemma_wt_push(ci, Op::Native(args.len(), w), t, ti);
                },
                _ => {},
            }
        },
        Ast::Index(_, target, index) => {
            lemma_lower_targets(*target, t);
            let (c1, t1) = lower(*target, t)->Ok_0;
            lemma_lower_targets(*index, t1);
            let (c2, t3) = lower(*index, t1)->Ok_0;
            lemma_wt_concat(c1, c2, t, t1, t3);
            lemma_wt_push(c1 + c2, Op::Index, t, t3);
        },
        Ast::BinOp(tk, lhs, rhs) => {
            if tk.kind == Kind::Assign {
                match *lhs {
                    Ast::Var(name, _) => {
                        lemma_lower_targets(*rhs, t);
                        lemma_wt_push(lower(*rhs, t)->Ok_0.0, Op::StoreG(name), t, t2);
                    },
                    Ast::Index(_, target, index) => {
                        lemma_lower_targets(*rhs, t);
                        let (c1, t1) = lower(*rhs, t)->Ok_0;
                        lemma_lower_targets(*index, t1);
                        let (c2, t3) = lower(*index, t1)->Ok_0;
                        lemma_lower_targets(*target, t3);
                        let (c3, t4) = lower(*target, t3)->Ok_0;
                        lemma_wt_concat(c1, c2, t, t1, t3);
                        lemma_wt_concat(c1 + c2, c3, t, t3, t4);
                        lemma_wt_push(c1 + c2 + c3, Op::IndexStore, t, t4);
                    },
                    _ => {},
                }
            } else {
                let op = op_of(tk.kind)->0;
                lemma_lower_targets(*lhs, t);
                let (c1, t1) = lower(*lhs, t)->Ok_0;
                lemma_lower_targets(*rhs, t1);
                let (c2, t3) = lower(*rhs, t1)->Ok_0;
                lemma_wt_concat(c1, c2, t, t1, t3);
                lemma_wt_push(c1 + c2, op, t, t3);
            }
        },
        Ast::Loop(..) => lemma_loop_targets(a, t),
        Ast::IfElse(..) => lemma_if_targets(a, t),
    }
}

/// `lemma_lower_targets` for a loop.
#[verifier::rlimit(50)]
proof fn lemma_loop_targets(a: Ast, t: nat)
    requires
        lower(a, t) is Ok,
        t + targets_of(a) <= usize::MAX,
        a is Loop,
    ensures
        t <= lower(a, t)->Ok_0.1 <= t + targets_of(a),
        well_targeted(lower(a, t)->Ok_0.0, t, lower(a, t)->Ok_0.1),
    decreases a, 1nat,
{
    let (c, t2) = lower(a, t)->Ok_0;
    match a {
        Ast::Loop(_, st, cond, body, up) => {
        lemma_lower_opt_targets(st, t);
        let (c0, t0) = lower_opt(st, t)->Ok_0;
        lemma_lower_opt_targets(cond, t0 + 2);
        let (cc, t1) = lower_opt(cond, t0 + 2)->Ok_0;
        lemma_lower_targets(*body, t1);
        let (cb, t5) = lower(*body, t1)->Ok_0;
        lemma_lower_opt_targets(up, t5);
        let (cu, t3) = lower_opt(up, t5)->Ok_0;
        let start = t0 as usize;
        let end = (t0 + 1) as usize;
        let head = c0.push(Op::Target(start));
        let test = if cond is Some {
            cc.push(Op::JmpF(end))
        } else {
            cc
        };
        let whole = (head + test + cb + cu).push(Op::Jmp(start)).push(Op::Target(end));
        assert(whole == c);
        let h = head.len() as int;
        let x = test.len() as int;
        let y = cb.len() as int;
        let z = cu.len() as int;
        assert forall|k: int| 0 <= k < whole.len() && (#[trigger] op_id(whole[k])) is Some implies t <= op_id(whole[k])->0 < t3 by {
            if k < h {
                assert(whole[k] == head[k]);
                if k < c0.len() {
                    assert(head[k] == c0[k]);
                }
            } else if k < h + x {
                assert(whole[k] == test[k - h]);
                if k - h < cc.len() {
                    assert(test[k - h] == cc[k - h]);
                }
            } else if k < h + x + y {
                assert(whole[k] == cb[k - h - x]);
            } else if k < h + x + y + z {
                assert(whole[k] == cu[k - h - x - y]);
            }
        }
        assert forall|k: int|
            0 <= k < whole.len() && (#[trigger] jump_id(whole[k])) is Some implies whole.contains(
            Op::Target(jump_id(whole[k])->0),
        ) by {
            let id = jump_id(whole[k])->0;
            if k < h {
                assert(whole[k] == head[k]);
                assert(k < c0.len());
                assert(head[k] == c0[k]);
                let j = choose|j: int| 0 <= j < c0.len() && #[trigger] c0[j] == Op::Target(id);
                assert(whole[j] == c0[j]);
            } else if k < h + x {
                assert(whole[k] == test[k - h]);
                if k - h < cc.len() {
                    assert(test[k - h] == cc[k - h]);
                    let j = choose|j: int| 0 <= j < cc.len() && #[trigger] cc[j] == Op::Target(id);
                    assert(whole[h + j] == cc[j]);
                } else {
                    assert(whole[whole.len() - 1] == Op::Target(end));
                }
            } else if k < h + x + y {
                assert(whole[k] == cb[k - h - x]);
                let j = choose|j: int| 0 <= j < cb.len() && #[trigger] cb[j] == Op::Target(id);
                assert(whole[h + x + j] == cb[j]);
            } else if k < h + x + y + z {
                assert(whole[k] == cu[k - h - x - y]);
                let j = choose|j: int| 0 <= j < cu.len() && #[trigger] cu[j] == Op::Target(id);
                assert(whole[h + x + y + j] == cu[j]);
            } else {
                assert(whole[c0.len() as int] == Op::Target(start));
            }
        }
        },
        _ => {},
    }
}

/// `lemma_lower_targets` for a conditional.
#[verifier::rlimit(50)]
proof fn lemma_if_targets(a: Ast, t: nat)
    requires
        lower(a, t) is Ok,
        t + targets_of(a) <= usize::MAX,
        a is IfElse,
    ensures
        t <= lower(a, t)->Ok_0.1 <= t + targets_of(a),
        well_targeted(lower(a, t)->Ok_0.0, t, lower(a, t)->Ok_0.1),
    decreases a, 1nat,
{
    let (c, t2) = lower(a, t)->Ok_0;
    match a {
        Ast::IfElse(_, cond, yes, no) => {
        assert(targets_of(a) == 2 + targets_of(*cond) + targets_of(*yes) + targets_opt(no));
            let end = t;
        let fls = if no is Some { t + 1 } else { end };
        let t0 = if no is Some { t + 2 } else { t + 1 };
        lemma_lower_targets(*cond, t0);
        let (cc, t1) = lower(*cond, t0)->Ok_0;
        lemma_lower_targets(*yes, t1);
        let (cy, t5) = lower(*yes, t1)->Ok_0;
        let pre = cc.push(Op::JmpF(fls as usize)) + cy;
        let (cn, t3) = match no {
            Some(e) => {
                lemma_lower_targets(*e, t5);
                lower(*e, t5)->Ok_0
            },
            None => (Seq::<Op>::empty(), t5),
        };
        let mid = match no {
            Some(_) => pre.push(Op::Jmp(end as usize)).push(Op::Target(fls as usize)) + cn,
            None => pre,
        };
        let whole = mid.push(Op::Target(end as usize));
        assert(whole == c);
        let a1 = cc.len() as int;
        let a2 = a1 + 1 + cy.len() as int;
        assert forall|k: int| 0 <= k < whole.len() && (#[trigger] op_id(whole[k])) is Some implies t <= op_id(whole[k])->0 < t3 by {
            if k < a1 {
                assert(whole[k] == cc[k]);
            } else if k == a1 {
            } else if k < a2 {
                assert(whole[k] == cy[k - a1 - 1]);
            } else if no is Some && a2 + 2 <= k < a2 + 2 + cn.len() {
                assert(whole[k] == cn[k - a2 - 2]);
            }
        }
        assert forall|k: int|
            0 <= k < whole.len() && (#[trigger] jump_id(whole[k])) is Some implies whole.contains(
            Op::Target(jump_id(whole[k])->0),
        ) by {
            let id = jump_id(whole[k])->0;
            if k < a1 {
                assert(whole[k] == cc[k]);
                let j = choose|j: int| 0 <= j < cc.len() && #[trigger] cc[j] == Op::Target(id);
                assert(whole[j] == cc[j]);
            } else if k == a1 {
                if no is Some {
                    assert(whole[a2 + 1] == Op::Target(fls as usize));
                } else {
                    assert(whole[whole.len() - 1] == Op::Target(end as usize));
                }
            } else if k < a2 {
                assert(whole[k] == cy[k - a1 - 1]);
                let j = choose|j: int| 0 <= j < cy.len() && #[trigger] cy[j] == Op::Target(id);
                assert(whole[a1 + 1 + j] == cy[j]);
            } else if no is Some && k == a2 {
                assert(whole[whole.len() - 1] == Op::Target(end as usize));
            } else if no is Some && a2 + 2 <= k < a2 + 2 + cn.len() {
                assert(whole[k] == cn[k - a2 - 2]);
                let j = choose|j: int| 0 <= j < cn.len() && #[trigger] cn[j] == Op::Target(id);
                assert(whole[a2 + 2 + j] == cn[j]);
            }
        }
        },
        _ => {},
    }
}

/// `lemma_lower_targets` for an optional tree.
proof fn lemma_lower_opt_targets(a: Option<Box<Ast>>, t: nat)
    requires
        lower_opt(a, t) is Ok,
        t + targets_opt(a) <= usize::MAX,
    ensures
        t <= lower_opt(a, t)->Ok_0.1 <= t + targets_opt(a),
        well_targeted(lower_opt(a, t)->Ok_0.0, t, lower_opt(a, t)->Ok_0.1),
    decreases a,
{
    match a {
        Some(b) => lemma_lower_targets(*b, t),
        None => {},
    }
}

/// `lemma_lower_targets` for the first `n` trees of `items`.
proof fn lemma_lower_items_targets(items: Vec<Ast>, n: nat, t: nat)
    requires
        lower_items(items, n, t) is Ok,
        t + targets_items(items, n) <= usize::MAX,
    ensures
        t <= lower_items(items, n, t)->Ok_0.1 <= t + targets_items(items, n),
        well_targeted(lower_items(items, n, t)->Ok_0.0, t, lower_items(items, n, t)->Ok_0.1),
    decreases items, n,
{
    if n > 0 && n <= items.len() {
        lemma_lower_items_targets(items, (n - 1) as nat, t);
        let (c1, t1) = lower_items(items, (n - 1) as nat, t)->Ok_0;
        lemma_lower_targets(items[n - 1], t1);
        let (c2, t3) = lower(items[n - 1], t1)->Ok_0;
        lemma_wt_concat(c1, c2, t, t1, t3);
    }
}

/// Code fed to a compiler always builds: no jump is left without a target.
pub proof fn law_fed_code_builds(c: &Compiler)
    requires
        c.wf(),
    ensures
        resolve(peephole(c.code_view()), c.targets()) is Ok,
{
    lemma_peephole_wt(c.code_view(), 0, c.targets());
    lemma_wt_resolves(peephole(c.code_view()), c.targets(), peephole(c.code_view()).len() as int);
}

/// A target marker of `code` stays in its peephole rewrite, and every
/// opcode of the rewrite that names a target is an opcode of `code`.
proof fn lemma_peephole_targets(code: Seq<Op>)
    ensures
        forall|j: int| 0 <= j < code.len() && (#[trigger] code[j]) is Target ==> peephole(code).contains(code[j]),
        forall|k: int|
            0 <= k < peephole(code).len() && (#[trigger] op_id(peephole(code)[k])) is Some ==> code.contains(
                peephole(code)[k],
            ),
    decreases code.len(),
{
    let p = peephole(code);
    if code.len() >= 2 {
        if code[0] is StoreG && code[1] is Pop {
            let r = code.skip(2);
            lemma_peephole_targets(r);
            assert(p == seq![Op::MoveG(code[0]->StoreG_0)] + peephole(r));
            assert forall|j: int| 0 <= j < code.len() && (#[trigger] code[j]) is Target implies p.contains(code[j]) by {
                assert(j >= 2);
                assert(r[j - 2] == code[j]);
                let i = choose|i: int| 0 <= i < peephole(r).len() && #[trigger] peephole(r)[i] == r[j - 2];
                assert(p[i + 1] == peephole(r)[i]);
            }
            assert forall|k: int| 0 <= k < p.len() && (#[trigger] op_id(p[k])) is Some implies code.contains(p[k]) by {
                assert(k >= 1);
                assert(p[k] == peephole(r)[k - 1]);
                let i = choose|i: int| 0 <= i < r.len() && #[trigger] r[i] == peephole(r)[k - 1];
                assert(code[i + 2] == r[i]);
            }
        } else {
            let r = code.skip(1);
            lemma_peephole_targets(r);
            assert(p == seq![code[0]] + peephole(r));
            assert forall|j: int| 0 <= j < code.len() && (#[trigger] code[j]) is Target implies p.contains(code[j]) by {
                if j == 0 {
                    assert(p[0] == code[0]);
                } else {
                    assert(r[j - 1] == code[j]);
                    let i = choose|i: int| 0 <= i < peephole(r).len() && #[trigger] peephole(r)[i] == r[j - 1];
                    assert(p[i + 1] == peephole(r)[i]);
                }
            }
            assert forall|k: int| 0 <= k < p.len() && (#[trigger] op_id(p[k])) is Some implies code.contains(p[k]) by {
                if k == 0 {
                    assert(code[0] == p[0]);
                } else {
                    assert(p[k] == peephole(r)[k - 1]);
                    let i = choose|i: int| 0 <= i < r.len() && #[trigger] r[i] == peephole(r)[k - 1];
                    assert(code[i + 1] == r[i]);
                }
            }
        }
    } else {
        assert forall|k: int| 0 <= k < p.len() && (#[trigger] op_id(p[k])) is Some implies code.contains(p[k]) by {
            assert(p[k] == code[k]);
        }
        assert forall|j: int| 0 <= j < code.len() && (#[trigger] code[j]) is Target implies p.contains(code[j]) by {
            assert(p[j] == code[j]);
        }
    }
}

/// The peephole rewrite keeps code well targeted.
proof fn lemma_peephole_wt(code: Seq<Op>, lo: nat, hi: nat)
    requires
        well_targeted(code, lo, hi),
    ensures
        well_targeted(peephole(code), lo, hi),
{
    lemma_peephole_targets(code);
    let p = peephole(code);
    assert forall|k: int| 0 <= k < p.len() && (#[trigger] op_id(p[k])) is Some implies lo <= op_id(p[k])->0 < hi by {
        let j = choose|j: int| 0 <= j < code.len() && #[trigger] code[j] == p[k];
        assert(op_id(code[j]) is Some);
    }
    assert forall|k: int| 0 <= k < p.len() && (#[trigger] jump_id(p[k])) is Some implies p.contains(
        Op::Target(jump_id(p[k])->0),
    ) by {
        assert(op_id(p[k]) is Some);
        let j = choose|j: int| 0 <= j < code.len() && #[trigger] code[j] == p[k];
        assert(jump_id(code[j]) is Some);
        let m = choose|m: int| 0 <= m < code.len() && #[trigger] code[m] == Op::Target(jump_id(code[j])->0);
        assert(code[m] is Target);
    }
}

/// A marker present among the first `n` opcodes gives an address.
proof fn lemma_marker_found(code: Seq<Op>, id: usize, j: int, n: int)
    requires
        0 <= j < n <= code.len(),
        code[j] == Op::Target(id),
    ensures
        marker(code, id, n) is Some,
    decreases n,
{
    if j < n - 1 && code[n - 1] != Op::Target(id) {
        lemma_marker_found(code, id, j, n - 1);
    }
}

/// Well-targeted code leaves no jump without an address.
proof fn lemma_wt_resolves(code: Seq<Op>, tc: nat, n: int)
    requires
        well_targeted(code, 0, tc),
        0 <= n <= code.len(),
    ensures
        first_missing(code, tc, n) is None,
    decreases n,
{
    if n > 0 {
        lemma_wt_resolves(code, tc, n - 1);
        if jump_id(code[n - 1]) is Some {
            let id = jump_id(code[n - 1])->0;
            assert(op_id(code[n - 1]) is Some);
            let j = choose|j: int| 0 <= j < code.len() && #[trigger] code[j] == Op::Target(id);
            lemma_marker_found(code, id, j, code.len() as int);
        }
    }
}

} // verus!
