//! The instruction set of the virtual machine.
use vstd::prelude::*;

verus! {

/// Built-in operations that the VM performs itself.
#[derive(Debug, Clone, Copy, PartialEq, Eq, Structural)]
pub enum Native {
    Print,
    ToString,
    Length,
    Append,
    DumpStack,
}

/// One instruction.
#[derive(Debug)]
pub enum Op {
    /// A jump target marker; compile-time only, never in final code.
    Target(usize),
    /// Does nothing.
    Nop,
    /// Calls a built-in with that many arguments on the stack.
    Native(usize, Native),
    /// Pushes an integer.
    PushI(i64),
    /// Pushes a string.
    PushS(String),
    /// Boxes the top entries of the stack as a list.
    MakeList(usize),
    /// Pops an index and a target, pushes `target[index]`.
    Index,
    /// Pops a target and an index, stores the (kept) top into `target[index]`.
    IndexStore,
    /// Pushes the pointer at that depth from the top.
    Dup(usize),
    /// Discards the top.
    Pop,
    /// Pushes the pointer bound to a global.
    LoadG(String),
    /// Binds a global to the top pointer, keeping it on the stack.
    StoreG(String),
    /// Binds a global to the top pointer and pops it.
    MoveG(String),
    Lt,
    Lte,
    Gt,
    Gte,
    Eq,
    Neq,
    /// Pops; jumps if the value is falsy.
    JmpF(usize),
    /// Jumps.
    Jmp(usize),
    Add,
    Sub,
    Mul,
    Div,
    Mod,
}

impl Clone for Op {
    fn clone(&self) -> (r: Op)
        ensures
            r == *self,
    {
        match self {
            Op::Target(t) => Op::Target(*t),
            Op::Nop => Op::Nop,
            Op::Native(k, n) => Op::Native(*k, *n),
            Op::PushI(n) => Op::PushI(*n),
            Op::PushS(s) => Op::PushS(s.clone()),
            Op::MakeList(k) => Op::MakeList(*k),
            Op::Index => Op::Index,
            Op::IndexStore => Op::IndexStore,
            Op::Dup(i) => Op::Dup(*i),
            Op::Pop => Op::Pop,
            Op::LoadG(s) => Op::LoadG(s.clone()),
            Op::StoreG(s) => Op::StoreG(s.clone()),
            Op::MoveG(s) => Op::MoveG(s.clone()),
            Op::Lt => Op::Lt,
            Op::Lte => Op::Lte,
            Op::Gt => Op::Gt,
            Op::Gte => Op::Gte,
            Op::Eq => Op::Eq,
            Op::Neq => Op::Neq,
            Op::JmpF(t) => Op::JmpF(*t),
            Op::Jmp(t) => Op::Jmp(*t),
            Op::Add => Op::Add,
            Op::Sub => Op::Sub,
            Op::Mul => Op::Mul,
            Op::Div => Op::Div,
            Op::Mod => Op::Mod,
        }
    }
}

impl Op {
    /// The name of the opcode, as error reports show it.
    pub open spec fn name_spec(&self) -> Seq<char> {
        match self {
            Op::Target(_) => "Target"@,
            Op::Nop => "Nop"@,
            Op::Native(_, _) => "Native"@,
            Op::PushI(_) => "PushI"@,
            Op::PushS(_) => "PushS"@,
            Op::MakeList(_) => "MakeList"@,
            Op::Index => "Index"@,
            Op::IndexStore => "IndexStore"@,
            Op::Dup(_) => "Dup"@,
            Op::Pop => "Pop"@,
            Op::LoadG(_) => "LoadG"@,
            Op::StoreG(_) => "StoreG"@,
            Op::MoveG(_) => "MoveG"@,
            Op::Lt => "Lt"@,
            Op::Lte => "Lte"@,
            Op::Gt => "Gt"@,
            Op::Gte => "Gte"@,
            Op::Eq => "Eq"@,
            Op::Neq => "Neq"@,
            Op::JmpF(_) => "JmpF"@,
            Op::Jmp(_) => "Jmp"@,
            Op::Add => "Add"@,
            Op::Sub => "Sub"@,
            Op::Mul => "Mul"@,
            Op::Div => "Div"@,
            Op::Mod => "Mod"@,
        }
    }

    /// The name of the opcode, as error reports show it.
    pub fn name(&self) -> (r: &'static str)
        ensures
            r@ == self.name_spec(),
    {
        match self {
            Op::Target(_) => "Target",
            Op::Nop => "Nop",
            Op::Native(_, _) => "Native",
            Op::PushI(_) => "PushI",
            Op::PushS(_) => "PushS",
            Op::MakeList(_) => "MakeList",
            Op::Index => "Index",
            Op::IndexStore => "IndexStore",
            Op::Dup(_) => "Dup",
            Op::Pop => "Pop",
            Op::LoadG(_) => "LoadG",
            Op::StoreG(_) => "StoreG",
            Op::MoveG(_) => "MoveG",
            Op::Lt => "Lt",
            Op::Lte => "Lte",
            Op::Gt => "Gt",
            Op::Gte => "Gte",
            Op::Eq => "Eq",
            Op::Neq => "Neq",
            Op::JmpF(_) => "JmpF",
            Op::Jmp(_) => "Jmp",
            Op::Add => "Add",
            Op::Sub => "Sub",
            Op::Mul => "Mul",
            Op::Div => "Div",
            Op::Mod => "Mod",
        }
    }
}

} // verus!
