//! The stack virtual machine and its garbage-collected heap.
use vstd::prelude::*;
use vstd::string::*;
use crate::errors::Error;
use crate::opcodes::{Native, Op};
use crate::text::{decimal, push_char};
use crate::value::{
    fmt_val, int_of, length_of, load,
    arith, arith_error, cmp_error, cmp_fuel, cmp_val, falsy, lemma_arith_pointers, pointers, Val, Value,
};

verus! {

/// A pointer into the VM heap: the index of a slot.
#[derive(Debug, Clone, Copy, Hash, PartialEq, Eq, Structural)]
pub struct HeapPtr(pub usize);

/// The content of a heap slot, as a mathematical value.
pub open spec fn slot_view(o: Option<Value>) -> Option<Val> {
    match o {
        Some(v) => Some(v@),
        None => None,
    }
}

/// `p` points at an allocated slot of `h`.
pub open spec fn ptr_ok(h: Seq<Option<Val>>, p: HeapPtr) -> bool {
    p.0 < h.len() && h[p.0 as int] is Some
}

/// Every pointer held by an allocated slot points at an allocated slot.
pub open spec fn closed_heap(h: Seq<Option<Val>>) -> bool {
    forall|s: int, j: int|
        0 <= s < h.len() && h[s] is Some && 0 <= j < pointers(h[s]->0).len() ==> ptr_ok(
            h,
            #[trigger] pointers(h[s]->0)[j],
        )
}

/// The globals as a map from name to pointer, for a table with unique names.
pub open spec fn table_map(t: Seq<(Seq<char>, HeapPtr)>) -> Map<Seq<char>, HeapPtr> {
    Map::new(
        |k: Seq<char>| exists|i: int| 0 <= i < t.len() && t[i].0 == k,
        |k: Seq<char>| t[choose|i: int| 0 <= i < t.len() && t[i].0 == k].1,
    )
}

/// Slot `q` is allocated in `h` and holds a pointer to `p`.
pub open spec fn edge(h: Seq<Option<Val>>, q: HeapPtr, p: HeapPtr) -> bool {
    ptr_ok(h, q) && pointers(h[q.0 as int]->0).contains(p)
}

/// `p` is reached from the roots `rs` in at most `n` steps through lists.
pub open spec fn reach_in(h: Seq<Option<Val>>, rs: Seq<HeapPtr>, p: HeapPtr, n: nat) -> bool
    decreases n,
{
    rs.contains(p) || (n > 0 && exists|q: HeapPtr| #[trigger] edge(h, q, p) && reach_in(h, rs, q, (n - 1) as nat))
}

/// `p` is reachable from the roots `rs` through list elements.
pub open spec fn reachable(h: Seq<Option<Val>>, rs: Seq<HeapPtr>, p: HeapPtr) -> bool {
    exists|n: nat| #[trigger] reach_in(h, rs, p, n)
}

/// The roots of a collection: the stack, then the globals.
pub open spec fn root_set(vm: &VM) -> Seq<HeapPtr> {
    vm.stack_view() + vm.table().map_values(|e: (Seq<char>, HeapPtr)| e.1)
}

/// A pointer held by a reachable slot is reachable.
proof fn lemma_reach_step(h: Seq<Option<Val>>, rs: Seq<HeapPtr>, q: HeapPtr, p: HeapPtr)
    requires
        reachable(h, rs, q),
        edge(h, q, p),
    ensures
        reachable(h, rs, p),
{
    let n = choose|n: nat| #[trigger] reach_in(h, rs, q, n);
    assert(reach_in(h, rs, p, n + 1));
}

/// Where the roots are marked and marking is closed under list elements,
/// every slot reached in `n` steps is marked.
proof fn lemma_reach_marked(h: Seq<Option<Val>>, rs: Seq<HeapPtr>, marks: Seq<bool>, p: HeapPtr, n: nat)
    requires
        marks.len() == h.len(),
        closed_heap(h),
        forall|k: int| 0 <= k < rs.len() ==> ptr_ok(h, #[trigger] rs[k]) && marks[rs[k].0 as int],
        forall|s: int, j: int|
            0 <= s < h.len() && marks[s] && h[s] is Some && 0 <= j < pointers(h[s]->0).len() ==> marks[(
            #[trigger] pointers(h[s]->0)[j]).0 as int],
        reach_in(h, rs, p, n),
    ensures
        ptr_ok(h, p) && marks[p.0 as int],
    decreases n,
{
    if rs.contains(p) {
        let k = choose|k: int| 0 <= k < rs.len() && rs[k] == p;
        assert(ptr_ok(h, rs[k]));
    } else {
        let q = choose|q: HeapPtr| #[trigger] edge(h, q, p) && reach_in(h, rs, q, (n - 1) as nat);
        lemma_reach_marked(h, rs, marks, q, (n - 1) as nat);
        let j = choose|j: int| 0 <= j < pointers(h[q.0 as int]->0).len() && pointers(h[q.0 as int]->0)[j] == p;
        assert(ptr_ok(h, pointers(h[q.0 as int]->0)[j]));
        assert(marks[(pointers(h[q.0 as int]->0)[j]).0 as int]);
    }
}

/// How many entries of `s` are `false`.
pub open spec fn count_false(s: Seq<bool>) -> nat
    decreases s.len(),
{
    if s.len() == 0 {
        0
    } else {
        count_false(s.drop_last()) + if s.last() {
            0nat
        } else {
            1nat
        }
    }
}

/// Setting a `false` entry to `true` lowers the count by one.
proof fn lemma_count_false_set(s: Seq<bool>, i: int)
    requires
        0 <= i < s.len(),
        !s[i],
    ensures
        count_false(s.update(i, true)) + 1 == count_false(s),
    decreases s.len(),
{
    let t = s.update(i, true);
    if i == s.len() - 1 {
        assert(t.drop_last() =~= s.drop_last());
    } else {
        assert(t.drop_last() =~= s.drop_last().update(i, true));
        lemma_count_false_set(s.drop_last(), i);
    }
}

/// The VM: a heap of optional value slots, an operand stack of pointers, the
/// globals, and the free list of reclaimed slots.
#[derive(Debug)]
pub struct VM {
    heap: Vec<Option<Value>>,
    stack: Vec<HeapPtr>,
    top: Vec<(String, HeapPtr)>,
    free_list: Vec<usize>,
}

/// Every allocated slot of `new` but `except` holds what it holds in `h`.
pub open spec fn kept(h: Seq<Option<Val>>, new: &VM, except: int) -> bool {
    forall|s: int|
        0 <= s < new.heap_view().len() && s != except && (#[trigger] new.heap_view()[s]) is Some ==> s
            < h.len() && new.heap_view()[s] == h[s]
}

/// `p` names a slot that held nothing live: it is not on the stack of
/// `old`, no global of `old` is bound to it, and no other allocated slot of
/// `new` points at it.
pub open spec fn fresh(old: &VM, new: &VM, p: HeapPtr) -> bool {
    &&& !old.stack_view().contains(p)
    &&& forall|name: Seq<char>| #[trigger] old.globals().contains_key(name) ==> old.globals()[name] != p
    &&& forall|s: int|
        0 <= s < new.heap_view().len() && s != p.0 && (#[trigger] new.heap_view()[s]) is Some ==> !pointers(
            new.heap_view()[s]->0,
        ).contains(p)
}

/// `new` is `old` with `v` put in a fresh slot whose pointer is pushed onto
/// the stack `base`; every other allocated slot and the globals are kept.
pub open spec fn pushed(old: &VM, new: &VM, base: Seq<HeapPtr>, v: Val) -> bool {
    &&& fresh(old, new, new.stack_view().last())
    &&& new.stack_view().len() == base.len() + 1
    &&& new.stack_view().drop_last() == base
    &&& new.heap_view()[new.stack_view().last().0 as int] == Some(v)
    &&& old.keeps(new, new.stack_view().last().0 as int)
    &&& new.table() == old.table()
}

/// `new` has the heap and globals of `old`, and the stack `st`.
pub open spec fn restacked(old: &VM, new: &VM, st: Seq<HeapPtr>) -> bool {
    &&& new.stack_view() == st
    &&& new.heap_view() == old.heap_view()
    &&& new.table() == old.table()
}

/// The top two entries of the stack, as operands `(a, b)` with `b` on top.
pub open spec fn operands(vm: &VM) -> (Val, Val) {
    let s = vm.stack_view();
    (vm.deref(s[s.len() - 2]), vm.deref(s[s.len() - 1]))
}

/// What an arithmetic opcode does.
pub open spec fn binary_post(old: &VM, new: &VM, op: Op, r: Result<(), Error>) -> bool {
    let s = old.stack_view();
    if s.len() < 2 {
        r == Err::<(), Error>(Error::StackUnderflow)
    } else {
        let (a, b) = operands(old);
        match arith(op, a, b) {
            Ok(v) => r is Ok && pushed(old, new, s.drop_last().drop_last(), v),
            Err(f) => r is Err && arith_error(f, r->Err_0, op, a, b),
        }
    }
}

/// Whether a comparison opcode holds for a `cmp` result `c`.
pub open spec fn holds(op: Op, c: int) -> bool {
    match op {
        Op::Lt => c < 0,
        Op::Lte => c <= 0,
        Op::Gt => c > 0,
        Op::Gte => c >= 0,
        Op::Eq => c == 0,
        _ => c != 0,
    }
}

/// What a comparison opcode does: it pushes integer 1 or 0.
pub open spec fn compare_post(old: &VM, new: &VM, op: Op, r: Result<(), Error>) -> bool {
    let s = old.stack_view();
    let h = old.heap_view();
    if s.len() < 2 {
        r == Err::<(), Error>(Error::StackUnderflow)
    } else {
        let (a, b) = operands(old);
        match cmp_val(h, a, b, cmp_fuel(h.len())) {
            Ok(c) => r is Ok && pushed(
                old,
                new,
                s.drop_last().drop_last(),
                Val::Int(
                    if holds(op, c) {
                        1
                    } else {
                        0
                    },
                ),
            ),
            Err(f) => r is Err && cmp_error(h, f, r->Err_0, op),
        }
    }
}

/// `e` reports index `k` out of range of `a`.
pub open spec fn index_error(e: Error, a: Val, k: usize) -> bool {
    match e {
        Error::IndexOutOfRange(v, i) => v@ == a && i == k,
        _ => false,
    }
}

/// What `Index` does: a string gives the code point at the index as an
/// integer, a list gives the pointer it holds there.
pub open spec fn index_post(old: &VM, new: &VM, r: Result<(), Error>) -> bool {
    let s = old.stack_view();
    if s.len() < 2 {
        r == Err::<(), Error>(Error::StackUnderflow)
    } else {
        let (a, b) = operands(old);
        let base = s.drop_last().drop_last();
        match (a, b) {
            (Val::Str(t), Val::Int(i)) => if 0 <= i < t.len() {
                r is Ok && pushed(old, new, base, Val::Int(t[i as int] as u32 as i64))
            } else {
                r is Err && index_error(r->Err_0, a, i as usize)
            },
            (Val::List(l), Val::Int(i)) => if 0 <= i < l.len() {
                r is Ok && restacked(old, new, base.push(l[i as int]))
            } else {
                r is Err && index_error(r->Err_0, a, i as usize)
            },
            _ => r is Err && crate::value::incompatible(r->Err_0, Op::Index, a, b),
        }
    }
}

/// What `IndexStore` does: with the target list on top, the index beneath and
/// the value beneath that, the list slot takes the value's pointer; target
/// and index are popped, the value stays.
pub open spec fn index_store_post(old: &VM, new: &VM, r: Result<(), Error>) -> bool {
    let s = old.stack_view();
    let h = old.heap_view();
    if s.len() < 3 {
        r is Err && r->Err_0 is StackUnderflow
    } else {
        let tp = s[s.len() - 1];
        let c = old.deref(tp);
        let b = old.deref(s[s.len() - 2]);
        let v = s[s.len() - 3];
        match (c, b) {
            (Val::List(l), Val::Int(i)) => if 0 <= i < l.len() {
                &&& r is Ok
                &&& new.stack_view() == s.drop_last().drop_last()
                &&& new.heap_view() == h.update(tp.0 as int, Some(Val::List(l.update(i as int, v))))
                &&& new.table() == old.table()
            } else {
                r is Err && index_error(r->Err_0, c, i as usize)
            },
            _ => r is Err && crate::value::incompatible(r->Err_0, Op::IndexStore, c, b),
        }
    }
}

/// What `MakeList(k)` does: the top `k` pointers become a list, in push order.
pub open spec fn make_list_post(old: &VM, new: &VM, k: usize, r: Result<(), Error>) -> bool {
    let s = old.stack_view();
    if k > s.len() {
        r == Err::<(), Error>(Error::StackUnderflow)
    } else {
        r is Ok && pushed(old, new, s.subrange(0, s.len() - k), Val::List(s.subrange(s.len() - k, s.len() as int)))
    }
}

/// `q` is on the stack of `vm`, or in a list that a stack entry points at.
pub open spec fn held(vm: &VM, q: HeapPtr) -> bool {
    exists|k: int|
        0 <= k < vm.stack_view().len() && (vm.stack_view()[k] == q || pointers(
            vm.deref(#[trigger] vm.stack_view()[k]),
        ).contains(q))
}

/// Every pointer of `v` is held by the stack of `vm`.
pub open spec fn anchored(vm: &VM, v: Val) -> bool {
    forall|j: int| 0 <= j < pointers(v).len() ==> held(vm, #[trigger] pointers(v)[j])
}

/// The text of a pointer, as the stack dump shows it: `HeapPtr(3)`.
pub open spec fn ptr_text(p: HeapPtr) -> Seq<char> {
    "HeapPtr("@ + decimal(p.0 as nat) + seq![')']
}

/// The first `n` pointers of `s`, each as `ptr_text`, joined by `, `.
pub open spec fn ptrs_text(s: Seq<HeapPtr>, n: nat) -> Seq<char>
    decreases n,
{
    if n == 0 || n > s.len() {
        Seq::empty()
    } else {
        ptrs_text(s, (n - 1) as nat) + (if n > 1 { ", "@ } else { Seq::empty() }) + ptr_text(s[n - 1])
    }
}

/// The stack as the stack dump shows it: `[HeapPtr(0), HeapPtr(3)]`.
pub open spec fn stack_text(s: Seq<HeapPtr>) -> Seq<char> {
    seq!['['] + ptrs_text(s, s.len()) + seq![']']
}

/// What `print` writes for its first `n` arguments, before the newline.
/// `Err(p)` names the first pointer that could not be read.
pub open spec fn print_text(h: Seq<Option<Val>>, args: Seq<HeapPtr>, n: nat) -> Result<Seq<char>, HeapPtr>
    decreases n,
{
    if n == 0 || n > args.len() {
        Ok(Seq::empty())
    } else {
        match print_text(h, args, (n - 1) as nat) {
            Err(p) => Err(p),
            Ok(pre) => match load(h, args[n - 1]) {
                None => Err(args[n - 1]),
                Some(v) => match fmt_val(h, v, 0) {
                    Err(p) => Err(p),
                    Ok(t) => Ok(pre + t),
                },
            },
        }
    }
}

/// Once the first `i` arguments fail to print, so do the first `n`.
proof fn lemma_print_text_err(h: Seq<Option<Val>>, args: Seq<HeapPtr>, i: nat, n: nat)
    requires
        1 <= i <= n <= args.len(),
        print_text(h, args, i) is Err,
    ensures
        print_text(h, args, n) is Err,
    decreases n - i,
{
    if n > i {
        lemma_print_text_err(h, args, i, (n - 1) as nat);
    }
}

/// `new` is `h` with the value `v` allocated and pushed on `base`: every
/// other allocated slot of `new` holds what it holds in `h`.
pub open spec fn pushed_over(h: Seq<Option<Val>>, old: &VM, new: &VM, base: Seq<HeapPtr>, v: Val) -> bool {
    &&& fresh(old, new, new.stack_view().last())
    &&& new.stack_view().len() == base.len() + 1
    &&& new.stack_view().drop_last() == base
    &&& new.heap_view()[new.stack_view().last().0 as int] == Some(v)
    &&& kept(h, new, new.stack_view().last().0 as int)
    &&& new.table() == old.table()
}

/// What `Native(k, which)` does: the arguments are the top `k` entries,
/// the first argument deepest; they are all popped and one result pushed.
pub open spec fn native_post(
    old: &VM,
    new: &VM,
    k: usize,
    which: Native,
    r: Result<(), Error>,
    o0: Seq<char>,
    o1: Seq<char>,
) -> bool {
    let s = old.stack_view();
    let h = old.heap_view();
    let n = s.len();
    let base = s.subrange(0, n - k);
    if k > n {
        r == Err::<(), Error>(Error::StackUnderflow)
    } else {
        match which {
            Native::Print => match print_text(h, s.subrange(n - k, n as int), k as nat) {
                Ok(t) => r is Ok && o1 == o0 + t + seq!['\n'] && pushed(old, new, base, Val::Int(k as i64)),
                Err(_) => r is Err,
            },
            Native::Length => if n == 0 {
                r == Err::<(), Error>(Error::StackUnderflow)
            } else {
                r is Ok && o1 == o0 && pushed(old, new, base, Val::Int(length_of(old.deref(s.last())) as i64))
            },
            Native::ToString => if n == 0 {
                r == Err::<(), Error>(Error::StackUnderflow)
            } else {
                match fmt_val(h, old.deref(s.last()), 0) {
                    Ok(t) => r is Ok && o1 == o0 && pushed(old, new, base, Val::Str(t)),
                    Err(_) => r is Err,
                }
            },
            Native::Append => if k == 0 {
                r == Err::<(), Error>(Error::StackUnderflow)
            } else {
                let tp = s[n - k];
                match old.deref(tp) {
                    Val::List(l) => {
                        let grown = l + s.subrange(n - k + 1, n as int);
                        &&& r is Ok
                        &&& o1 == o0
                        &&& pushed_over(
                            h.update(tp.0 as int, Some(Val::List(grown))),
                            old,
                            new,
                            base,
                            Val::Int(grown.len() as i64),
                        )
                    },
                    other => r is Err && match r->Err_0 {
                        Error::InvalidAppend(v) => v@ == other,
                        _ => false,
                    },
                }
            },
            Native::DumpStack => {
                let label = if k > 0 {
                    fmt_val(h, old.deref(s.last()), 0)
                } else {
                    Ok("STACK>"@)
                };
                match label {
                    Ok(t) => r is Ok && o1 == o0 + t + seq![' '] + stack_text(s) + seq!['\n'] && pushed(
                        old,
                        new,
                        base,
                        Val::Int(n as i64),
                    ),
                    Err(_) => r is Err,
                }
            },
        }
    }
}

/// The unit result that a sub-step reports for a step result.
pub open spec fn unit_of(r: Result<usize, Error>) -> Result<(), Error> {
    match r {
        Ok(_) => Ok(()),
        Err(e) => Err(e),
    }
}

/// `new` binds `name` to `p` and has the stack `st`; heap and other
/// globals are those of `old`.
pub open spec fn bound(old: &VM, new: &VM, name: Seq<char>, p: HeapPtr, st: Seq<HeapPtr>) -> bool {
    &&& new.stack_view() == st
    &&& new.heap_view() == old.heap_view()
    &&& new.globals() == old.globals().insert(name, p)
}

/// What one instruction `op` at address `pc` does: `r` is the next address
/// or the error, `o0` and `o1` the output before and after.
pub open spec fn step_post(
    old: &VM,
    new: &VM,
    op: Op,
    pc: usize,
    r: Result<usize, Error>,
    o0: Seq<char>,
    o1: Seq<char>,
) -> bool {
    let s = old.stack_view();
    let n = s.len();
    let next = (pc + 1) as usize;
    let underflow = r == Err::<usize, Error>(Error::StackUnderflow);
    let advanced = r is Ok ==> r->Ok_0 == next;
    &&& (r is Err ==> new.heap_view() == old.heap_view() && new.globals() == old.globals())
    &&& (op !is Native ==> o1 == o0)
    &&& match op {
        Op::Nop => r == Ok::<usize, Error>(next) && restacked(old, new, s),
        Op::Target(_) => r == Err::<usize, Error>(Error::InvalidOpCode(pc)),
        Op::PushI(v) => r == Ok::<usize, Error>(next) && pushed(old, new, s, Val::Int(v)),
        Op::PushS(t) => r == Ok::<usize, Error>(next) && pushed(old, new, s, Val::Str(t@)),
        Op::MakeList(k) => advanced && make_list_post(old, new, k, unit_of(r)),
        Op::Index => advanced && index_post(old, new, unit_of(r)),
        Op::IndexStore => advanced && index_store_post(old, new, unit_of(r)),
        Op::Dup(i) => if i >= n {
            underflow
        } else {
            r == Ok::<usize, Error>(next) && restacked(old, new, s.push(s[n - 1 - i]))
        },
        Op::Pop => if n == 0 {
            underflow
        } else {
            r == Ok::<usize, Error>(next) && restacked(old, new, s.drop_last())
        },
        Op::LoadG(name) => if old.globals().contains_key(name@) {
            r == Ok::<usize, Error>(next) && restacked(old, new, s.push(old.globals()[name@]))
        } else {
            r is Err && match r->Err_0 {
                Error::GlobalNotFound(x) => x@ == name@,
                _ => false,
            }
        },
        Op::StoreG(name) => if n == 0 {
            underflow
        } else {
            r == Ok::<usize, Error>(next) && bound(old, new, name@, s.last(), s)
        },
        Op::MoveG(name) => if n == 0 {
            underflow
        } else {
            r == Ok::<usize, Error>(next) && bound(old, new, name@, s.last(), s.drop_last())
        },
        Op::JmpF(t) => if n == 0 {
            underflow
        } else {
            &&& r == Ok::<usize, Error>(if falsy(old.deref(s.last())) { t } else { next })
            &&& restacked(old, new, s.drop_last())
        },
        Op::Jmp(t) => r == Ok::<usize, Error>(t) && restacked(old, new, s),
        Op::Native(k, w) => advanced && native_post(old, new, k, w, unit_of(r), o0, o1),
        Op::Lt | Op::Lte | Op::Gt | Op::Gte | Op::Eq | Op::Neq => advanced && compare_post(old, new, op, unit_of(r)),
        _ => advanced && binary_post(old, new, op, unit_of(r)),
    }
}

/// One successful step of `code` from `m` at `pcm` with output `om` leads to
/// `b` at `pc2` with output `o2`.
#[verifier::opaque]
pub open spec fn transition(code: Seq<Op>, m: VM, pcm: usize, om: Seq<char>, b: VM, pc2: usize, o2: Seq<char>) -> bool {
    pcm < code.len() && step_post(&m, &b, code[pcm as int], pcm, Ok(pc2), om, o2)
}

/// `b` with output `o2` at address `pc2` is where `n` successful steps of
/// `code` lead from `a` with output `o` at address `pc`.
pub open spec fn reaches(
    code: Seq<Op>,
    a: VM,
    pc: usize,
    o: Seq<char>,
    b: VM,
    pc2: usize,
    o2: Seq<char>,
    n: nat,
) -> bool
    decreases n,
{
    if n == 0 {
        b == a && pc2 == pc && o2 == o
    } else {
        exists|m: VM, pcm: usize, om: Seq<char>|
            reaches(code, a, pc, o, m, pcm, om, (n - 1) as nat) && #[trigger] transition(code, m, pcm, om, b, pc2, o2)
    }
}

/// One more successful step extends a run.
proof fn lemma_reaches_step(
    code: Seq<Op>,
    a: VM,
    pc: usize,
    o: Seq<char>,
    m: VM,
    pcm: usize,
    om: Seq<char>,
    b: VM,
    pc2: usize,
    o2: Seq<char>,
    n: nat,
)
    requires
        reaches(code, a, pc, o, m, pcm, om, n),
        transition(code, m, pcm, om, b, pc2, o2),
    ensures
        reaches(code, a, pc, o, b, pc2, o2, n + 1),
{
    assert(((n + 1) - 1) as nat == n);
}
impl VM {
    /// The heap, slot by slot.
    pub closed spec fn heap_view(&self) -> Seq<Option<Val>> {
        self.heap@.map_values(|o: Option<Value>| slot_view(o))
    }

    /// The operand stack, bottom first.
    pub closed spec fn stack_view(&self) -> Seq<HeapPtr> {
        self.stack@
    }

    /// The globals table in order of first assignment.
    pub closed spec fn table(&self) -> Seq<(Seq<char>, HeapPtr)> {
        self.top@.map_values(|e: (String, HeapPtr)| (e.0@, e.1))
    }

    /// The globals, by name.
    pub open spec fn globals(&self) -> Map<Seq<char>, HeapPtr> {
        table_map(self.table())
    }

    /// The free list.
    pub closed spec fn free_view(&self) -> Seq<usize> {
        self.free_list@
    }

    /// `p` points at an allocated slot.
    pub open spec fn valid(&self, p: HeapPtr) -> bool {
        ptr_ok(self.heap_view(), p)
    }

    /// The value that `p` points at.
    pub open spec fn deref(&self, p: HeapPtr) -> Val {
        self.heap_view()[p.0 as int]->0
    }

    /// The VM invariant: stack and globals point at allocated slots, lists
    /// point at allocated slots, global names are unique, and the free list
    /// holds distinct freed slots.
    pub open spec fn wf(&self) -> bool {
        let h = self.heap_view();
        let t = self.table();
        let f = self.free_view();
        &&& forall|i: int| 0 <= i < self.stack_view().len() ==> ptr_ok(h, #[trigger] self.stack_view()[i])
        &&& forall|i: int| 0 <= i < t.len() ==> ptr_ok(h, #[trigger] t[i].1)
        &&& forall|i: int, j: int| 0 <= i < t.len() && 0 <= j < t.len() && i != j ==> #[trigger] t[i].0 != #[trigger] t[j].0
        &&& closed_heap(h)
        &&& f.no_duplicates()
        &&& forall|i: int| 0 <= i < f.len() ==> #[trigger] f[i] < h.len() && h[f[i] as int] is None
    }

    /// Allocated slots of `self` keep their values in `next`, but for `except`.
    pub open spec fn keeps(&self, next: &VM, except: int) -> bool {
        kept(self.heap_view(), next, except)
    }

    /// A VM with nothing in it.
    pub fn new() -> (r: VM)
        ensures
            r.wf(),
            r.heap_view().len() == 0,
            r.stack_view().len() == 0,
            r.globals() == Map::<Seq<char>, HeapPtr>::empty(),
    {
        let r = VM { heap: Vec::new(), stack: Vec::new(), top: Vec::new(), free_list: Vec::new() };
        assert(r.heap_view() =~= Seq::empty());
        assert(r.globals() =~= Map::<Seq<char>, HeapPtr>::empty());
        r
    }

    /// The slot at `ptr`: out of range, freed, or its value.
    pub fn get(&self, ptr: HeapPtr) -> (r: Result<&Value, Error>)
        ensures
            ptr.0 >= self.heap_view().len() ==> r is Err && r->Err_0 == Error::MemoryAccessOutOfRange(ptr),
            ptr.0 < self.heap_view().len() && self.heap_view()[ptr.0 as int] is None ==> r is Err
                && r->Err_0 == Error::InvalidMemoryAccess(ptr),
            self.valid(ptr) ==> r is Ok && r->Ok_0@ == self.deref(ptr),
    {
        if ptr.0 >= self.heap.len() {
            return Err(Error::MemoryAccessOutOfRange(ptr));
        }
        match &self.heap[ptr.0] {
            Some(v) => Ok(v),
            None => Err(Error::InvalidMemoryAccess(ptr)),
        }
    }

    /// A mutable reference to the value at `ptr`, or the error that `get`
    /// gives. A caller that stores pointers through it must keep them
    /// allocated, for the VM invariant does not survive otherwise.
    pub fn get_mut(&mut self, ptr: HeapPtr) -> (r: Result<&mut Value, Error>)
        ensures
            ptr.0 >= old(self).heap_view().len() ==> r is Err && r->Err_0 == Error::MemoryAccessOutOfRange(ptr),
            ptr.0 < old(self).heap_view().len() && old(self).heap_view()[ptr.0 as int] is None ==> r is Err
                && r->Err_0 == Error::InvalidMemoryAccess(ptr),
            old(self).valid(ptr) ==> r is Ok && (*r->Ok_0)@ == old(self).deref(ptr),
            r is Err ==> final(self).heap_view() == old(self).heap_view(),
            r is Ok ==> final(self).heap_view() == old(self).heap_view().update(ptr.0 as int, Some((*final(r->Ok_0))@)),
            final(self).stack_view() == old(self).stack_view(),
            final(self).table() == old(self).table(),
    {
        if ptr.0 >= self.heap.len() {
            return Err(Error::MemoryAccessOutOfRange(ptr));
        }
        match self.heap[ptr.0].as_mut() {
            Some(v) => Ok(v),
            None => Err(Error::InvalidMemoryAccess(ptr)),
        }
    }

    /// A copy of the value at `ptr`, or the error that `get` gives.
    pub fn get_clone(&self, ptr: HeapPtr) -> (r: Result<Value, Error>)
        ensures
            ptr.0 >= self.heap_view().len() ==> r is Err && r->Err_0 == Error::MemoryAccessOutOfRange(ptr),
            ptr.0 < self.heap_view().len() && self.heap_view()[ptr.0 as int] is None ==> r is Err
                && r->Err_0 == Error::InvalidMemoryAccess(ptr),
            self.valid(ptr) ==> r is Ok && r->Ok_0@ == self.deref(ptr),
    {
        match self.get(ptr) {
            Ok(v) => Ok(v.clone()),
            Err(e) => Err(e),
        }
    }

    /// Pushes a pointer to an allocated slot.
    pub fn push(&mut self, ptr: HeapPtr)
        requires
            old(self).wf(),
            old(self).valid(ptr),
        ensures
            final(self).wf(),
            final(self).stack_view() == old(self).stack_view().push(ptr),
            final(self).heap_view() == old(self).heap_view(),
            final(self).table() == old(self).table(),
            final(self).free_view() == old(self).free_view(),
    {
        self.stack.push(ptr);
        proof {
            assert(self.heap_view() == old(self).heap_view());
            assert(self.table() =~= old(self).table());
            assert forall|i: int| 0 <= i < self.stack_view().len() implies ptr_ok(self.heap_view(), #[trigger] self.stack_view()[i]) by {
                if i < old(self).stack_view().len() {
                    assert(self.stack_view()[i] == old(self).stack_view()[i]);
                }
            }
        }
    }

    /// The pointer `i` entries below the top of the stack.
    fn dup(&self, i: usize) -> (r: Result<HeapPtr, Error>)
        ensures
            i >= self.stack_view().len() ==> r is Err && r->Err_0 == Error::StackUnderflow,
            i < self.stack_view().len() ==> r is Ok && r->Ok_0 == self.stack_view()[self.stack_view().len() - 1 - i],
    {
        if i >= self.stack.len() {
            Err(Error::StackUnderflow)
        } else {
            Ok(self.stack[self.stack.len() - i - 1])
        }
    }

    /// Pops the top of the stack.
    fn pop(&mut self) -> (r: Result<HeapPtr, Error>)
        requires
            old(self).wf(),
        ensures
            final(self).wf(),
            final(self).heap_view() == old(self).heap_view(),
            final(self).table() == old(self).table(),
            final(self).free_view() == old(self).free_view(),
            old(self).stack_view().len() == 0 ==> r is Err && r->Err_0 == Error::StackUnderflow
                && final(self).stack_view() == old(self).stack_view(),
            old(self).stack_view().len() > 0 ==> r is Ok && r->Ok_0 == old(self).stack_view().last()
                && final(self).stack_view() == old(self).stack_view().drop_last(),
    {
        let r = match self.stack.pop() {
            Some(p) => Ok(p),
            None => Err(Error::StackUnderflow),
        };
        proof {
            assert(self.heap_view() == old(self).heap_view());
            assert(self.table() =~= old(self).table());
            if old(self).stack_view().len() > 0 {
                assert(self.stack_view() =~= old(self).stack_view().drop_last());
            }
            assert forall|i: int| 0 <= i < self.stack_view().len() implies ptr_ok(self.heap_view(), #[trigger] self.stack_view()[i]) by {
                assert(self.stack_view()[i] == old(self).stack_view()[i]);
            }
        }
        r
    }

    /// Mark-and-sweep collection, rooted at the stack and the globals.
    /// Unmarked slots are freed and listed in the free list; every slot that
    /// stays allocated keeps its value, and the invariant holds after it.
    pub fn collect(&mut self)
        requires
            old(self).wf(),
        ensures
            final(self).wf(),
            final(self).stack_view() == old(self).stack_view(),
            final(self).table() == old(self).table(),
            final(self).heap_view().len() == old(self).heap_view().len(),
            old(self).keeps(final(self), -1),
            forall|s: int| 0 <= s < final(self).heap_view().len() ==>
                (final(self).heap_view()[s] is None <==> final(self).free_view().contains(s as usize)),
            forall|i: int| 0 <= i < final(self).stack_view().len() ==> final(self).valid(#[trigger] final(self).stack_view()[i]),
            forall|name: Seq<char>| #[trigger] final(self).globals().contains_key(name) ==> final(self).valid(final(self).globals()[name]),
            forall|s: int| 0 <= s < final(self).heap_view().len() ==> ((#[trigger] final(self).heap_view()[s]) is Some
                <==> reachable(old(self).heap_view(), root_set(old(self)), HeapPtr(s as usize))),
            forall|a: int, b: int| 0 <= a < b < final(self).free_view().len() ==> #[trigger] final(self).free_view()[a]
                < #[trigger] final(self).free_view()[b],
    {
        let ghost h = self.heap_view();
        let n = self.heap.len();
        let mut marked: Vec<bool> = vec![false; n];
        let mut roots: Vec<HeapPtr> = Vec::new();
        let mut i: usize = 0;
        while i < self.stack.len()
            invariant
                i <= self.stack@.len(),
                roots@ == self.stack@.subrange(0, i as int),
            decreases self.stack@.len() - i,
        {
            roots.push(self.stack[i]);
            i += 1;
            assert(roots@ =~= self.stack@.subrange(0, i as int));
        }
        let ghost ns = roots@.len();
        assert(roots@ =~= self.stack_view());
        let mut i: usize = 0;
        while i < self.top.len()
            invariant
                i <= self.top@.len(),
                roots@.len() == ns + i,
                roots@.subrange(0, ns as int) == self.stack_view(),
                forall|k: int| 0 <= k < i ==> roots@[ns + k] == #[trigger] self.table()[k].1,
                ns == self.stack_view().len(),
            decreases self.top@.len() - i,
        {
            roots.push(self.top[i].1);
            i += 1;
            assert(roots@.subrange(0, ns as int) =~= self.stack_view());
        }
        assert forall|k: int| 0 <= k < self.stack_view().len() implies roots@.contains(#[trigger] self.stack_view()[k]) by {
            assert(roots@[k] == roots@.subrange(0, ns as int)[k]);
        }
        assert forall|k: int| 0 <= k < self.table().len() implies roots@.contains(#[trigger] self.table()[k].1) by {
            assert(roots@[ns + k] == self.table()[k].1);
        }
        assert forall|k: int| 0 <= k < roots@.len() implies ptr_ok(h, #[trigger] roots@[k]) by {
            if k < ns {
                assert(roots@[k] == roots@.subrange(0, ns as int)[k]);
                assert(roots@[k] == self.stack_view()[k]);
            } else {
                assert(roots@[k] == self.table()[k - ns].1);
            }
        }
        let ghost rs = root_set(self);
        assert(roots@ =~= rs) by {
            assert forall|k: int| 0 <= k < roots@.len() implies roots@[k] == rs[k] by {
                if k < ns {
                    assert(roots@[k] == roots@.subrange(0, ns as int)[k]);
                } else {
                    assert(roots@[k] == self.table()[k - ns].1);
                }
            }
        }
        assert forall|k: int| 0 <= k < roots@.len() implies reachable(h, rs, #[trigger] roots@[k]) by {
            assert(rs.contains(roots@[k]));
            assert(reach_in(h, rs, roots@[k], 0));
        }
        while roots.len() > 0
            invariant
                rs == root_set(self),
                forall|k: int| 0 <= k < roots@.len() ==> reachable(h, rs, #[trigger] roots@[k]),
                forall|s: int| 0 <= s < n && #[trigger] marked@[s] ==> reachable(h, rs, HeapPtr(s as usize)),
                self.heap_view() == h,
                self.wf(),
                h.len() == n,
                marked@.len() == n,
                forall|k: int| 0 <= k < roots@.len() ==> ptr_ok(h, #[trigger] roots@[k]),
                forall|s: int| 0 <= s < n && #[trigger] marked@[s] ==> h[s] is Some,
                forall|s: int, j: int|
                    0 <= s < n && marked@[s] && 0 <= j < pointers(h[s]->0).len() ==> {
                        let q = #[trigger] pointers(h[s]->0)[j];
                        marked@[q.0 as int] || roots@.contains(q)
                    },
                forall|k: int| 0 <= k < self.stack_view().len() ==> {
                    let q = #[trigger] self.stack_view()[k];
                    marked@[q.0 as int] || roots@.contains(q)
                },
                forall|k: int| 0 <= k < self.table().len() ==> {
                    let q = #[trigger] self.table()[k].1;
                    marked@[q.0 as int] || roots@.contains(q)
                },
            decreases count_false(marked@), roots@.len(),
        {
            let ghost before = roots@;
            let ghost marked_before = marked@;
            let ptr = roots.pop().unwrap();
            assert(ptr == before.last());
            assert(reachable(h, rs, before[before.len() - 1]));
            assert(roots@ == before.drop_last());
            assert forall|q: HeapPtr| before.contains(q) && q != ptr implies roots@.contains(q) by {
                let k = choose|k: int| 0 <= k < before.len() && before[k] == q;
                assert(k != before.len() - 1);
                assert(roots@[k] == q);
            }
            if !marked[ptr.0] && self.heap[ptr.0].is_some() {
                marked.set(ptr.0, true);
                proof {
                    lemma_count_false_set(marked_before, ptr.0 as int);
                }
                let ghost mid = roots@;
                match &self.heap[ptr.0] {
                    Some(v) => v.mark(&mut roots),
                    None => {},
                }
                assert(pointers(h[ptr.0 as int]->0) == pointers(self.heap@[ptr.0 as int]->0@));
                assert forall|q: HeapPtr| mid.contains(q) implies roots@.contains(q) by {
                    let k = choose|k: int| 0 <= k < mid.len() && mid[k] == q;
                    assert(roots@[k] == q);
                }
                assert forall|j: int| 0 <= j < pointers(h[ptr.0 as int]->0).len() implies roots@.contains(
                    #[trigger] pointers(h[ptr.0 as int]->0)[j],
                ) by {
                    assert(roots@[mid.len() + j] == pointers(h[ptr.0 as int]->0)[j]);
                }
                assert forall|k: int| 0 <= k < roots@.len() implies ptr_ok(h, #[trigger] roots@[k]) by {
                    if k >= mid.len() {
                        assert(roots@[k] == pointers(h[ptr.0 as int]->0)[k - mid.len()]);
                    } else {
                        assert(roots@[k] == mid[k]);
                    }
                }
                assert forall|k: int| 0 <= k < roots@.len() implies reachable(h, rs, #[trigger] roots@[k]) by {
                    if k >= mid.len() {
                        let q = pointers(h[ptr.0 as int]->0)[k - mid.len()];
                        assert(roots@[k] == q);
                        assert(edge(h, ptr, q));
                        lemma_reach_step(h, rs, ptr, q);
                    } else {
                        assert(roots@[k] == mid[k]);
                        assert(mid[k] == before[k]);
                    }
                }
                assert(HeapPtr(ptr.0 as usize) == ptr);
            }
        }
        let ghost marks = marked@;
        let ghost st = self.stack_view();
        let ghost tb = self.table();
        proof {
            assert forall|k: int| 0 <= k < rs.len() implies ptr_ok(h, #[trigger] rs[k]) && marks[rs[k].0 as int] by {
                if k < st.len() {
                    assert(rs[k] == st[k]);
                } else {
                    assert(rs[k] == tb[k - st.len()].1);
                }
            }
            assert forall|s: int, j: int|
                0 <= s < h.len() && marks[s] && h[s] is Some && 0 <= j < pointers(h[s]->0).len() implies marks[(
                #[trigger] pointers(h[s]->0)[j]).0 as int] by {}
            assert forall|s: int| 0 <= s < n implies (#[trigger] marks[s] <==> reachable(h, rs, HeapPtr(s as usize))) by {
                if reachable(h, rs, HeapPtr(s as usize)) {
                    let m = choose|m: nat| #[trigger] reach_in(h, rs, HeapPtr(s as usize), m);
                    lemma_reach_marked(h, rs, marks, HeapPtr(s as usize), m);
                }
            }
        }
        self.free_list.clear();
        let mut i: usize = 0;
        while i < n
            invariant
                i <= n,
                self.heap@.len() == n,
                h.len() == n,
                marks == marked@,
                marked@.len() == n,
                self.stack_view() == st,
                self.table() == tb,
                forall|s: int| 0 <= s < i ==> #[trigger] self.heap_view()[s] == if marks[s] {
                    h[s]
                } else {
                    None
                },
                forall|s: int| i <= s < n ==> #[trigger] self.heap_view()[s] == h[s],
                forall|k: int| 0 <= k < self.free_view().len() ==> #[trigger] self.free_view()[k] < i,
                forall|k: int| 0 <= k < self.free_view().len() ==> !marks[#[trigger] self.free_view()[k] as int],
                self.free_view().no_duplicates(),
                forall|s: int| 0 <= s < i && !marks[s] ==> self.free_view().contains(s as usize),
                forall|a: int, b: int| 0 <= a < b < self.free_view().len() ==> #[trigger] self.free_view()[a]
                    < #[trigger] self.free_view()[b],
                forall|s: int| 0 <= s < n ==> (#[trigger] marks[s] <==> reachable(h, rs, HeapPtr(s as usize))),
                rs == root_set(old(self)),
                h == old(self).heap_view(),
            decreases n - i,
        {
            if !marked[i] {
                let ghost fl = self.free_view();
                let ghost hv0 = self.heap_view();
                self.free_list.push(i);
                self.heap.set(i, None);
                proof {
                    assert(self.heap_view() =~= hv0.update(i as int, None));
                    assert forall|s: int| 0 <= s < i && !marks[s] implies self.free_view().contains(s as usize) by {
                        let k = choose|k: int| 0 <= k < fl.len() && fl[k] == s as usize;
                        assert(self.free_view()[k] == s as usize);
                    }
                    assert(self.free_view()[fl.len() as int] == i);
                }
            }
            proof {
                assert(self.heap_view()[i as int] == if marks[i as int] { h[i as int] } else { None });
            }
            i += 1;
        }
        proof {
            let hn = self.heap_view();
            assert forall|s: int| 0 <= s < n && #[trigger] marks[s] implies hn[s] is Some by {}
            assert forall|name: Seq<char>| #[trigger] self.globals().contains_key(name) implies self.valid(self.globals()[name]) by {
                let t = self.table();
                let c = choose|i: int| 0 <= i < t.len() && t[i].0 == name;
                assert(marks[t[c].1.0 as int]);
            }
            assert forall|k: int| 0 <= k < st.len() implies ptr_ok(hn, #[trigger] st[k]) by {
                assert(marks[st[k].0 as int]);
            }
            assert forall|k: int| 0 <= k < tb.len() implies ptr_ok(hn, #[trigger] tb[k].1) by {
                assert(marks[tb[k].1.0 as int]);
            }
            assert forall|s: int, j: int|
                0 <= s < hn.len() && hn[s] is Some && 0 <= j < pointers(hn[s]->0).len() implies ptr_ok(
                hn,
                #[trigger] pointers(hn[s]->0)[j],
            ) by {
                assert(marks[s]);
                assert(hn[s] == h[s]);
                let q = pointers(h[s]->0)[j];
                assert(marks[q.0 as int]);
            }
            let f = self.free_view();
            assert forall|k: int| 0 <= k < f.len() implies #[trigger] f[k] < hn.len() && hn[f[k] as int] is None by {
                assert(!marks[f[k] as int]);
            }
            assert forall|s: int| 0 <= s < hn.len() implies (hn[s] is None <==> f.contains(s as usize)) by {
                if f.contains(s as usize) {
                    let k = choose|k: int| 0 <= k < f.len() && f[k] == s as usize;
                    assert(!marks[f[k] as int]);
                }
                if hn[s] is None {
                    assert(!marks[s]);
                }
            }
        }
    }

    /// Takes the last entry of the free list, which is then no longer listed.
    fn take_free(&mut self) -> (r: Option<usize>)
        requires
            old(self).wf(),
        ensures
            final(self).wf(),
            final(self).heap_view() == old(self).heap_view(),
            final(self).stack_view() == old(self).stack_view(),
            final(self).table() == old(self).table(),
            old(self).free_view().len() == 0 <==> r is None,
            r is Some ==> r->0 < final(self).heap_view().len() && final(self).heap_view()[r->0 as int] is None
                && !final(self).free_view().contains(r->0),
            old(self).free_view().len() > 0 ==> r == Some(old(self).free_view().last()) && final(self).free_view()
                == old(self).free_view().drop_last(),
    {
        let ghost f = self.free_view();
        let r = self.free_list.pop();
        proof {
            assert(self.stack_view() == old(self).stack_view());
            assert(self.table() =~= old(self).table());
            assert(self.heap_view() =~= old(self).heap_view());
            if f.len() > 0 {
                let g = self.free_view();
                assert(g =~= f.drop_last());
                assert(f[f.len() - 1] == r->0);
                assert forall|k: int| 0 <= k < g.len() implies #[trigger] g[k] != r->0 by {
                    assert(g[k] == f[k]);
                }
                assert forall|k: int| 0 <= k < g.len() implies #[trigger] g[k] < self.heap_view().len()
                    && self.heap_view()[g[k] as int] is None by {
                    assert(g[k] == f[k]);
                }
                assert(g.no_duplicates()) by {
                    assert forall|a: int, b: int| 0 <= a < g.len() && 0 <= b < g.len() && a != b implies g[a] != g[b] by {
                        assert(g[a] == f[a] && g[b] == f[b]);
                    }
                }
            }
        }
        r
    }

    /// A slot that is free to hold a new value. Takes the free list first,
    /// then collects and tries again, then grows the heap by one slot.
    fn find_free_slot(&mut self) -> (r: usize)
        requires
            old(self).wf(),
        ensures
            final(self).wf(),
            r < final(self).heap_view().len(),
            final(self).heap_view()[r as int] is None,
            !final(self).free_view().contains(r),
            final(self).stack_view() == old(self).stack_view(),
            final(self).table() == old(self).table(),
            old(self).keeps(final(self), -1),
            old(self).free_view().len() > 0 ==> r == old(self).free_view().last() && final(self).heap_view()
                == old(self).heap_view() && final(self).free_view() == old(self).free_view().drop_last(),
            old(self).free_view().len() == 0 ==> r <= old(self).heap_view().len() && !reachable(
                old(self).heap_view(),
                root_set(old(self)),
                HeapPtr(r),
            ),
            final(self).heap_view().len() == old(self).heap_view().len() + 1 ==> r == old(self).heap_view().len()
                && forall|s: int|
                0 <= s < old(self).heap_view().len() ==> #[trigger] reachable(
                    old(self).heap_view(),
                    root_set(old(self)),
                    HeapPtr(s as usize),
                ),
            final(self).heap_view().len() <= old(self).heap_view().len() + 1,
    {
        if let Some(i) = self.take_free() {
            return i;
        }
        let ghost o = *self;
        self.collect();
        proof {
            assert(root_set(&o) == root_set(old(self)));
        }
        if let Some(i) = self.take_free() {
            return i;
        }
        proof {
            let hc = self.heap_view();
            assert forall|s: int| 0 <= s < hc.len() implies #[trigger] reachable(
                old(self).heap_view(),
                root_set(old(self)),
                HeapPtr(s as usize),
            ) by {
                assert(!self.free_view().contains(s as usize));
                assert(hc[s] is Some);
            }
        }
        let i = self.heap.len();
        let ghost hv0 = self.heap_view();
        self.heap.push(None);
        proof {
            assert(self.stack_view() == old(self).stack_view());
            assert(self.table() =~= old(self).table());
            assert(self.heap_view() =~= hv0.push(None));
            let h = self.heap_view();
            assert forall|k: int| 0 <= k < self.stack_view().len() implies ptr_ok(h, #[trigger] self.stack_view()[k]) by {
                assert(ptr_ok(hv0, self.stack_view()[k]));
            }
            assert forall|k: int| 0 <= k < self.table().len() implies ptr_ok(h, #[trigger] self.table()[k].1) by {
                assert(ptr_ok(hv0, self.table()[k].1));
            }
            assert forall|s: int, j: int|
                0 <= s < h.len() && h[s] is Some && 0 <= j < pointers(h[s]->0).len() implies ptr_ok(
                h,
                #[trigger] pointers(h[s]->0)[j],
            ) by {
                assert(h[s] == hv0[s]);
                assert(ptr_ok(hv0, pointers(hv0[s]->0)[j]));
            }
            let f = self.free_view();
            assert forall|k: int| 0 <= k < f.len() implies #[trigger] f[k] < h.len() && h[f[k] as int] is None by {
                assert(hv0[f[k] as int] is None);
            }
            assert(!f.contains(i)) by {
                if f.contains(i) {
                    let k = choose|k: int| 0 <= k < f.len() && f[k] == i;
                    assert(f[k] < hv0.len());
                }
            }
        }
        i
    }

    /// Puts `value` into the free slot `index`.
    fn store_heap(&mut self, index: usize, value: Value)
        requires
            old(self).wf(),
            index < old(self).heap_view().len(),
            old(self).heap_view()[index as int] is None,
            !old(self).free_view().contains(index),
            forall|j: int| 0 <= j < pointers(value@).len() ==> old(self).valid(#[trigger] pointers(value@)[j]),
        ensures
            final(self).wf(),
            final(self).heap_view() == old(self).heap_view().update(index as int, Some(value@)),
            final(self).stack_view() == old(self).stack_view(),
            final(self).table() == old(self).table(),
            final(self).free_view() == old(self).free_view(),
    {
        let ghost hv0 = self.heap_view();
        let ghost v = value@;
        self.heap.set(index, Some(value));
        proof {
            assert(self.stack_view() == old(self).stack_view());
            assert(self.table() =~= old(self).table());
            let h = self.heap_view();
            assert(h =~= hv0.update(index as int, Some(v)));
            assert forall|k: int| 0 <= k < self.stack_view().len() implies ptr_ok(h, #[trigger] self.stack_view()[k]) by {
                assert(ptr_ok(hv0, self.stack_view()[k]));
            }
            assert forall|k: int| 0 <= k < self.table().len() implies ptr_ok(h, #[trigger] self.table()[k].1) by {
                assert(ptr_ok(hv0, self.table()[k].1));
            }
            assert forall|s: int, j: int|
                0 <= s < h.len() && h[s] is Some && 0 <= j < pointers(h[s]->0).len() implies ptr_ok(
                h,
                #[trigger] pointers(h[s]->0)[j],
            ) by {
                if s == index {
                    assert(ptr_ok(hv0, pointers(v)[j]));
                } else {
                    assert(ptr_ok(hv0, pointers(hv0[s]->0)[j]));
                }
            }
            let f = self.free_view();
            assert forall|k: int| 0 <= k < f.len() implies #[trigger] f[k] < h.len() && h[f[k] as int] is None by {
                assert(hv0[f[k] as int] is None);
                assert(f[k] != index);
            }
        }
    }

    /// Allocates a slot for `value` and pushes a pointer to it. A list may
    /// hold only pointers that are on the stack, so that a collection made
    /// to find the slot keeps what it points at.
    pub fn push_value(&mut self, value: Value) -> (r: HeapPtr)
        requires
            old(self).wf(),
            forall|j: int| 0 <= j < pointers(value@).len() ==> old(self).stack_view().contains(#[trigger] pointers(value@)[j]),
        ensures
            final(self).wf(),
            r == final(self).stack_view().last(),
            pushed(old(self), final(self), old(self).stack_view(), value@),
            ({
                let p = final(self).stack_view().last();
                p.0 >= old(self).heap_view().len() || old(self).heap_view()[p.0 as int] is None || !reachable(
                    old(self).heap_view(),
                    root_set(old(self)),
                    p,
                )
            }),
    {
        proof {
            assert forall|j: int| 0 <= j < pointers(value@).len() implies held(old(self), #[trigger] pointers(value@)[j]) by {
                let q = pointers(value@)[j];
                let k = choose|k: int| 0 <= k < old(self).stack_view().len() && old(self).stack_view()[k] == q;
                assert(old(self).stack_view()[k] == q);
            }
            assert(old(self).stack_view().subrange(0, old(self).stack_view().len() as int) =~= old(self).stack_view());
        }
        self.alloc_after_pops(value, 0);
        self.stack[self.stack.len() - 1]
    }

    /// The pointer bound to the global `name`, if any.
    fn load_global(&self, name: &String) -> (r: Option<HeapPtr>)
        requires
            self.wf(),
        ensures
            r is Some <==> self.globals().contains_key(name@),
            r is Some ==> r->0 == self.globals()[name@],
    {
        let mut i: usize = 0;
        while i < self.top.len()
            invariant
                self.wf(),
                i <= self.top@.len(),
                forall|k: int| 0 <= k < i ==> (#[trigger] self.table()[k]).0 != name@,
            decreases self.top@.len() - i,
        {
            if self.top[i].0 == *name {
                proof {
                    let t = self.table();
                    assert(t[i as int].0 == name@);
                    let c = choose|k: int| 0 <= k < t.len() && t[k].0 == name@;
                    if c != i {
                        assert(t[c].0 != t[i as int].0);
                    }
                }
                return Some(self.top[i].1);
            }
            assert(self.table()[i as int].0 != name@);
            i += 1;
        }
        None
    }

    /// Binds the global `name` to `ptr`, replacing an earlier binding.
    fn store_global(&mut self, name: &String, ptr: HeapPtr)
        requires
            old(self).wf(),
            old(self).valid(ptr),
        ensures
            final(self).wf(),
            final(self).globals() == old(self).globals().insert(name@, ptr),
            final(self).heap_view() == old(self).heap_view(),
            final(self).stack_view() == old(self).stack_view(),
    {
        let ghost t0 = self.table();
        let mut i: usize = 0;
        while i < self.top.len()
            invariant
                self.table() == t0,
                t0 == old(self).table(),
                old(self).wf(),
                old(self).valid(ptr),
                self.heap@ == old(self).heap@,
                self.stack@ == old(self).stack@,
                self.free_list@ == old(self).free_list@,
                self.top@ == old(self).top@,
                i <= self.top@.len(),
                forall|k: int| 0 <= k < i ==> (#[trigger] t0[k]).0 != name@,
            decreases self.top@.len() - i,
        {
            if self.top[i].0 == *name {
                self.top[i].1 = ptr;
                proof {
                    let t = self.table();
                    assert(t =~= t0.update(i as int, (name@, ptr)));
                    assert(self.stack_view() == old(self).stack_view());
                    assert(self.heap_view() =~= old(self).heap_view());
                    assert forall|k: int| 0 <= k < t.len() implies ptr_ok(self.heap_view(), #[trigger] t[k].1) by {
                        if k != i {
                            assert(t[k] == t0[k]);
                        }
                    }
                    assert forall|a: int, b: int| 0 <= a < t.len() && 0 <= b < t.len() && a != b implies #[trigger] t[a].0 != #[trigger] t[b].0 by {
                        assert(t0[a].0 != t0[b].0);
                    }
                    assert(self.globals() =~= old(self).globals().insert(name@, ptr)) by {
                        assert forall|k: Seq<char>| #[trigger] self.globals().contains_key(k) implies self.globals()[k] == old(self).globals().insert(name@, ptr)[k] by {
                            let c = choose|c: int| 0 <= c < t.len() && t[c].0 == k;
                            if k != name@ {
                                assert(t[c] == t0[c]);
                                let c0 = choose|c: int| 0 <= c < t0.len() && t0[c].0 == k;
                                assert(c0 != i);
                                assert(c == c0);
                            } else {
                                if c != i {
                                    assert(t[c] == t0[c]);
                                    assert(t0[c].0 != t0[i as int].0);
                                }
                            }
                        }
                        assert forall|k: Seq<char>| old(self).globals().insert(name@, ptr).contains_key(k) implies #[trigger] self.globals().contains_key(k) by {
                            if k != name@ {
                                let c0 = choose|c: int| 0 <= c < t0.len() && t0[c].0 == k;
                                assert(t[c0].0 == k);
                            } else {
                                assert(t[i as int].0 == k);
                            }
                        }
                    }
                }
                return;
            }
            assert(t0[i as int].0 != name@);
            i += 1;
        }
        self.top.push((name.clone(), ptr));
        proof {
            let t = self.table();
            assert(t =~= t0.push((name@, ptr)));
            assert(self.stack_view() == old(self).stack_view());
            assert(self.heap_view() =~= old(self).heap_view());
            assert forall|k: int| 0 <= k < t.len() implies ptr_ok(self.heap_view(), #[trigger] t[k].1) by {
                if k < t0.len() {
                    assert(t[k] == t0[k]);
                }
            }
            assert forall|a: int, b: int| 0 <= a < t.len() && 0 <= b < t.len() && a != b implies #[trigger] t[a].0 != #[trigger] t[b].0 by {
                if a < t0.len() && b < t0.len() {
                    assert(t0[a].0 != t0[b].0);
                }
            }
            assert(self.globals() =~= old(self).globals().insert(name@, ptr)) by {
                assert forall|k: Seq<char>| #[trigger] self.globals().contains_key(k) implies self.globals()[k] == old(self).globals().insert(name@, ptr)[k] by {
                    let c = choose|c: int| 0 <= c < t.len() && t[c].0 == k;
                    if k != name@ {
                        assert(c < t0.len());
                        assert(t[c] == t0[c]);
                        let c0 = choose|c: int| 0 <= c < t0.len() && t0[c].0 == k;
                        assert(t[c0] == t0[c0]);
                        assert(c == c0);
                    } else {
                        assert(c == t0.len());
                    }
                }
                assert forall|k: Seq<char>| old(self).globals().insert(name@, ptr).contains_key(k) implies #[trigger] self.globals().contains_key(k) by {
                    if k != name@ {
                        let c0 = choose|c: int| 0 <= c < t0.len() && t0[c].0 == k;
                        assert(t[c0].0 == k);
                    } else {
                        assert(t[t0.len() as int].0 == k);
                    }
                }
            }
        }
    }

    /// The number of heap slots.
    pub(crate) fn heap_len(&self) -> (r: usize)
        ensures
            r == self.heap_view().len(),
    {
        self.heap.len()
    }

    /// The value at an allocated slot.
    fn value_at(&self, p: HeapPtr) -> (r: &Value)
        requires
            self.valid(p),
        ensures
            r@ == self.deref(p),
    {
        self.heap[p.0].as_ref().unwrap()
    }

    /// Pops two pointers and ignores what they held.
    fn drop_two(&mut self)
        requires
            old(self).wf(),
            old(self).stack_view().len() >= 2,
        ensures
            final(self).wf(),
            restacked(old(self), final(self), old(self).stack_view().drop_last().drop_last()),
    {
        let _ = self.pop();
        let _ = self.pop();
    }

    /// Allocates `v`, which holds only pointers that are allocated and stay
    /// so in any collection, and pushes it on `base`, the stack after `pops`
    /// entries are removed.
    fn alloc_after_pops(&mut self, v: Value, pops: usize)
        requires
            old(self).wf(),
            pops <= old(self).stack_view().len(),
            anchored(old(self), v@),
        ensures
            final(self).wf(),
            pushed(old(self), final(self), old(self).stack_view().subrange(0, old(self).stack_view().len() - pops), v@),
            ({
                let p = final(self).stack_view().last();
                p.0 >= old(self).heap_view().len() || old(self).heap_view()[p.0 as int] is None || !reachable(
                    old(self).heap_view(),
                    root_set(old(self)),
                    p,
                )
            }),
    {
        let ghost o = *self;
        let slot = self.find_free_slot();
        proof {
            if o.free_view().len() > 0 {
                assert(o.free_view()[o.free_view().len() - 1] == slot);
            }
            assert forall|j: int| 0 <= j < pointers(v@).len() implies self.valid(#[trigger] pointers(v@)[j]) by {
                let q = pointers(v@)[j];
                assert(held(&o, q));
                let k = choose|k: int| 0 <= k < o.stack_view().len() && (o.stack_view()[k] == q
                    || pointers(o.deref(#[trigger] o.stack_view()[k])).contains(q));
                let sp = o.stack_view()[k];
                assert(self.stack_view()[k] == sp);
                assert(ptr_ok(self.heap_view(), sp));
                if sp != q {
                    assert(self.heap_view()[sp.0 as int] == o.heap_view()[sp.0 as int]);
                    let m = choose|m: int| 0 <= m < pointers(o.deref(sp)).len() && pointers(o.deref(sp))[m] == q;
                    assert(pointers(self.heap_view()[sp.0 as int]->0)[m] == q);
                }
            }
            let h1 = self.heap_view();
            assert forall|k: int| 0 <= k < o.stack_view().len() implies o.stack_view()[k] != HeapPtr(slot) by {
                assert(self.stack_view()[k] == o.stack_view()[k]);
                assert(ptr_ok(h1, self.stack_view()[k]));
            }
            assert(!o.stack_view().contains(HeapPtr(slot)));
            assert forall|name: Seq<char>| #[trigger] o.globals().contains_key(name) implies o.globals()[name] != HeapPtr(slot) by {
                let t = o.table();
                let c = choose|c: int| 0 <= c < t.len() && t[c].0 == name;
                assert(self.table()[c] == t[c]);
                assert(ptr_ok(h1, self.table()[c].1));
            }
        }
        let ghost h1 = self.heap_view();
        let mut i: usize = 0;
        while i < pops
            invariant
                i <= pops,
                self.wf(),
                pops <= o.stack_view().len(),
                self.stack_view() == o.stack_view().subrange(0, o.stack_view().len() - i),
                slot < self.heap_view().len(),
                self.heap_view()[slot as int] is None,
                !self.free_view().contains(slot),
                self.table() == o.table(),
                o.keeps(self, -1),
                self.heap_view() == h1,
                forall|j: int| 0 <= j < pointers(v@).len() ==> self.valid(#[trigger] pointers(v@)[j]),
            decreases pops - i,
        {
            let ghost before = *self;
            let _ = self.pop();
            assert(self.stack_view() =~= o.stack_view().subrange(0, o.stack_view().len() - (i + 1)));
            assert(self.heap_view() == before.heap_view());
            i += 1;
        }
        let ghost mid = *self;
        self.store_heap(slot, v);
        self.push(HeapPtr(slot));
        proof {
            assert(self.stack_view().drop_last() =~= mid.stack_view());
            let h = self.heap_view();
            assert forall|s: int|
                0 <= s < h.len() && s != slot && (#[trigger] h[s]) is Some implies !pointers(h[s]->0).contains(HeapPtr(slot)) by {
                assert(h[s] == h1[s]);
                if pointers(h1[s]->0).contains(HeapPtr(slot)) {
                    let j = choose|j: int| 0 <= j < pointers(h1[s]->0).len() && pointers(h1[s]->0)[j] == HeapPtr(slot);
                    assert(ptr_ok(h1, pointers(h1[s]->0)[j]));
                }
            }
        }
    }

    /// Runs an arithmetic opcode on the top two entries.
    fn exec_binary(&mut self, op: &Op) -> (r: Result<(), Error>)
        requires
            old(self).wf(),
            *op is Add || *op is Sub || *op is Mul || *op is Div || *op is Mod,
        ensures
            r is Err ==> final(self).heap_view() == old(self).heap_view() && final(self).table() == old(self).table(),
            final(self).wf(),
            binary_post(old(self), final(self), *op, r),
    {
        let n = self.stack.len();
        if n < 2 {
            return Err(Error::StackUnderflow);
        }
        let bptr = self.stack[n - 1];
        let aptr = self.stack[n - 2];
        assert(self.stack_view()[n - 1] == bptr && self.stack_view()[n - 2] == aptr);
        let res = {
            let a = self.value_at(aptr);
            let b = self.value_at(bptr);
            match op {
                Op::Add => a.add(b),
                Op::Sub => a.sub(b),
                Op::Mul => a.mul(b),
                Op::Div => a.div(b),
                _ => a.modulo(b),
            }
        };
        let ghost a = self.deref(aptr);
        let ghost b = self.deref(bptr);
        match res {
            Err(e) => {
                self.drop_two();
                Err(e)
            },
            Ok(c) => {
                proof {
                    assert(c@ == arith(*op, a, b)->Ok_0);
                    assert forall|j: int| 0 <= j < pointers(c@).len() implies held(self, #[trigger] pointers(c@)[j]) by {
                        lemma_arith_pointers(*op, a, b, j);
                        if pointers(a).contains(pointers(c@)[j]) {
                            assert(self.stack_view()[n - 2] == aptr);
                            assert(pointers(self.deref(self.stack_view()[n - 2])).contains(pointers(c@)[j]));
                        } else {
                            assert(self.stack_view()[n - 1] == bptr);
                            assert(pointers(self.deref(self.stack_view()[n - 1])).contains(pointers(c@)[j]));
                        }
                    }
                    assert(self.stack_view().subrange(0, n - 2) =~= self.stack_view().drop_last().drop_last());
                }
                self.alloc_after_pops(c, 2);
                Ok(())
            },
        }
    }

    /// Runs a comparison opcode on the top two entries.
    fn exec_compare(&mut self, op: &Op) -> (r: Result<(), Error>)
        requires
            old(self).wf(),
        ensures
            r is Err ==> final(self).heap_view() == old(self).heap_view() && final(self).table() == old(self).table(),
            final(self).wf(),
            compare_post(old(self), final(self), *op, r),
    {
        let n = self.stack.len();
        if n < 2 {
            return Err(Error::StackUnderflow);
        }
        let bptr = self.stack[n - 1];
        let aptr = self.stack[n - 2];
        assert(self.stack_view()[n - 1] == bptr && self.stack_view()[n - 2] == aptr);
        let res = {
            let a = self.value_at(aptr);
            let b = self.value_at(bptr);
            a.cmp(self, b)
        };
        match res {
            Err(e) => {
                let e = match e {
                    Error::IncompatibleOperands(_, a, b) => Error::IncompatibleOperands(op.clone(), a, b),
                    other => other,
                };
                self.drop_two();
                Err(e)
            },
            Ok(c) => {
                let t = match op {
                    Op::Lt => c < 0,
                    Op::Lte => c <= 0,
                    Op::Gt => c > 0,
                    Op::Gte => c >= 0,
                    Op::Eq => c == 0,
                    _ => c != 0,
                };
                let v = Value::Int(if t { 1 } else { 0 });
                proof {
                    assert(self.stack_view().subrange(0, n - 2) =~= self.stack_view().drop_last().drop_last());
                }
                self.alloc_after_pops(v, 2);
                Ok(())
            },
        }
    }

    /// Runs `Index`.
    fn exec_index(&mut self) -> (r: Result<(), Error>)
        requires
            old(self).wf(),
        ensures
            r is Err ==> final(self).heap_view() == old(self).heap_view() && final(self).table() == old(self).table(),
            final(self).wf(),
            index_post(old(self), final(self), r),
    {
        let n = self.stack.len();
        if n < 2 {
            return Err(Error::StackUnderflow);
        }
        let bptr = self.stack[n - 1];
        let aptr = self.stack[n - 2];
        assert(self.stack_view()[n - 1] == bptr && self.stack_view()[n - 2] == aptr);
        proof {
            assert(self.stack_view().subrange(0, n - 2) =~= self.stack_view().drop_last().drop_last());
        }
        let a = self.value_at(aptr);
        let b = self.value_at(bptr);
        match (a, b) {
            (Value::Str(s), Value::Int(i)) => {
                let len = s.as_str().unicode_len();
                if *i < 0 || *i as u64 >= len as u64 {
                    let e = Error::IndexOutOfRange(a.clone(), #[verifier::truncate] (*i as usize));
                    self.drop_two();
                    return Err(e);
                }
                let ch = s.as_str().get_char(*i as usize);
                let v = Value::Int(ch as u32 as i64);
                self.alloc_after_pops(v, 2);
                Ok(())
            },
            (Value::List(lst), Value::Int(i)) => {
                if *i < 0 || *i as u64 >= lst.len() as u64 {
                    let e = Error::IndexOutOfRange(a.clone(), #[verifier::truncate] (*i as usize));
                    self.drop_two();
                    return Err(e);
                }
                let ptr = lst[*i as usize];
                proof {
                    assert(pointers(self.deref(aptr))[*i as int] == ptr);
                    assert(ptr_ok(self.heap_view(), ptr));
                }
                self.drop_two();
                self.push(ptr);
                Ok(())
            },
            _ => {
                let e = Error::IncompatibleOperands(Op::Index, a.clone(), b.clone());
                self.drop_two();
                Err(e)
            },
        }
    }

    /// Runs `IndexStore`.
    fn exec_index_store(&mut self) -> (r: Result<(), Error>)
        requires
            old(self).wf(),
        ensures
            r is Err ==> final(self).heap_view() == old(self).heap_view() && final(self).table() == old(self).table(),
            final(self).wf(),
            index_store_post(old(self), final(self), r),
    {
        let n = self.stack.len();
        if n < 3 {
            return Err(Error::StackUnderflow);
        }
        let cptr = self.stack[n - 1];
        let bptr = self.stack[n - 2];
        let aptr = self.stack[n - 3];
        assert(self.stack_view()[n - 1] == cptr && self.stack_view()[n - 2] == bptr && self.stack_view()[n - 3] == aptr);
        let k: i64 = match self.value_at(bptr) {
            Value::Int(k) => *k,
            b => {
                let e = Error::IncompatibleOperands(Op::IndexStore, self.value_at(cptr).clone(), b.clone());
                self.drop_two();
                return Err(e);
            },
        };
        let ghost h0 = self.heap_view();
        let ghost o = *self;
        let c = self.value_at(cptr);
        match c {
            Value::List(lst) => {
                if k < 0 || k as u64 >= lst.len() as u64 {
                    let e = Error::IndexOutOfRange(c.clone(), #[verifier::truncate] (k as usize));
                    self.drop_two();
                    return Err(e);
                }
                let index = k as usize;
                let mut items = lst.clone();
                assert(items@ =~= lst@);
                items.set(index, aptr);
                self.drop_two();
                let ghost mid = *self;
                self.heap.set(cptr.0, Some(Value::List(items)));
                proof {
                    let h = self.heap_view();
                    assert(h =~= h0.update(cptr.0 as int, Some(Val::List(items@))));
                    assert(self.stack_view() == mid.stack_view());
                    assert(self.table() =~= mid.table());
                    assert(self.free_view() == mid.free_view());
                    assert forall|k: int| 0 <= k < self.stack_view().len() implies ptr_ok(h, #[trigger] self.stack_view()[k]) by {
                        assert(ptr_ok(h0, self.stack_view()[k]));
                    }
                    assert forall|k: int| 0 <= k < self.table().len() implies ptr_ok(h, #[trigger] self.table()[k].1) by {
                        assert(ptr_ok(h0, self.table()[k].1));
                    }
                    assert forall|s: int, j: int|
                        0 <= s < h.len() && h[s] is Some && 0 <= j < pointers(h[s]->0).len() implies ptr_ok(
                        h,
                        #[trigger] pointers(h[s]->0)[j],
                    ) by {
                        if s == cptr.0 {
                            if j == index {
                                assert(ptr_ok(h0, aptr));
                            } else {
                                assert(pointers(h[s]->0)[j] == pointers(h0[s]->0)[j]);
                                assert(ptr_ok(h0, pointers(h0[s]->0)[j]));
                            }
                        } else {
                            assert(ptr_ok(h0, pointers(h0[s]->0)[j]));
                        }
                    }
                    let f = self.free_view();
                    assert forall|k: int| 0 <= k < f.len() implies #[trigger] f[k] < h.len() && h[f[k] as int] is None by {
                        assert(h0[f[k] as int] is None);
                    }
                }
                Ok(())
            },
            _ => {
                let e = Error::IncompatibleOperands(Op::IndexStore, c.clone(), self.value_at(bptr).clone());
                self.drop_two();
                Err(e)
            },
        }
    }

    /// Runs `MakeList(k)`.
    fn exec_make_list(&mut self, k: usize) -> (r: Result<(), Error>)
        requires
            old(self).wf(),
        ensures
            r is Err ==> final(self).heap_view() == old(self).heap_view() && final(self).table() == old(self).table(),
            final(self).wf(),
            make_list_post(old(self), final(self), k, r),
    {
        let n = self.stack.len();
        if k > n {
            return Err(Error::StackUnderflow);
        }
        let mut items: Vec<HeapPtr> = Vec::new();
        let mut i: usize = n - k;
        while i < n
            invariant
                n == self.stack@.len(),
                k <= n,
                n - k <= i <= n,
                items@ == self.stack@.subrange(n - k, i as int),
            decreases n - i,
        {
            items.push(self.stack[i]);
            i += 1;
            assert(items@ =~= self.stack@.subrange(n - k, i as int));
        }
        let v = Value::List(items);
        proof {
            assert forall|j: int| 0 <= j < pointers(v@).len() implies held(self, #[trigger] pointers(v@)[j]) by {
                assert(self.stack_view()[n - k + j] == pointers(v@)[j]);
            }
        }
        self.alloc_after_pops(v, k);
        Ok(())
    }

    /// Replaces the list at `tp` with `items`, whose pointers are allocated.
    fn set_list(&mut self, tp: HeapPtr, items: Vec<HeapPtr>)
        requires
            old(self).wf(),
            old(self).valid(tp),
            forall|j: int| 0 <= j < items@.len() ==> old(self).valid(#[trigger] items@[j]),
        ensures
            final(self).wf(),
            final(self).heap_view() == old(self).heap_view().update(tp.0 as int, Some(Val::List(items@))),
            final(self).stack_view() == old(self).stack_view(),
            final(self).table() == old(self).table(),
            final(self).free_view() == old(self).free_view(),
    {
        let ghost h0 = self.heap_view();
        let ghost it = items@;
        self.heap.set(tp.0, Some(Value::List(items)));
        proof {
            let h = self.heap_view();
            assert(h =~= h0.update(tp.0 as int, Some(Val::List(it))));
            assert(self.stack_view() == old(self).stack_view());
            assert(self.table() =~= old(self).table());
            assert forall|k: int| 0 <= k < self.stack_view().len() implies ptr_ok(h, #[trigger] self.stack_view()[k]) by {
                assert(ptr_ok(h0, self.stack_view()[k]));
            }
            assert forall|k: int| 0 <= k < self.table().len() implies ptr_ok(h, #[trigger] self.table()[k].1) by {
                assert(ptr_ok(h0, self.table()[k].1));
            }
            assert forall|s: int, j: int|
                0 <= s < h.len() && h[s] is Some && 0 <= j < pointers(h[s]->0).len() implies ptr_ok(
                h,
                #[trigger] pointers(h[s]->0)[j],
            ) by {
                if s == tp.0 {
                    assert(ptr_ok(h0, it[j]));
                } else {
                    assert(ptr_ok(h0, pointers(h0[s]->0)[j]));
                }
            }
            let f = self.free_view();
            assert forall|k: int| 0 <= k < f.len() implies #[trigger] f[k] < h.len() && h[f[k] as int] is None by {
                assert(h0[f[k] as int] is None);
            }
        }
    }

    /// Runs `Native(k, which)`, writing what it prints to `out`.
    fn exec_native(&mut self, k: usize, which: Native, out: &mut String) -> (r: Result<(), Error>)
        requires
            old(self).wf(),
        ensures
            r is Err ==> final(self).heap_view() == old(self).heap_view() && final(self).table() == old(self).table(),
            final(self).wf(),
            native_post(old(self), final(self), k, which, r, old(out)@, final(out)@),
    {
        if k > self.stack.len() {
            return Err(Error::StackUnderflow);
        }
        match which {
            Native::Print => self.native_print(k, out),
            Native::Length => self.native_length(k, out),
            Native::ToString => self.native_to_string(k, out),
            Native::Append => self.native_append(k, out),
            Native::DumpStack => self.native_dump_stack(k, out),
        }
    }

    /// Runs the `Print` built-in on the top `k` entries.
    fn native_print(&mut self, k: usize, out: &mut String) -> (r: Result<(), Error>)
        requires
            old(self).wf(),
            k <= old(self).stack_view().len(),
        ensures
            r is Err ==> final(self).heap_view() == old(self).heap_view() && final(self).table() == old(self).table(),
            final(self).wf(),
            native_post(old(self), final(self), k, Native::Print, r, old(out)@, final(out)@),
    {
        let n = self.stack.len();
        let ghost h = self.heap_view();
        let ghost s = self.stack_view();
        proof {
            assert(s.subrange(0, n - k) == s.subrange(0, s.len() - k));
        }
        let mut i: usize = 0;
        let ghost args = s.subrange(n - k, n as int);
        let mut text = String::new();
        while i < k
            invariant
                self.wf(),
                self.heap_view() == h,
                self.stack_view() == s,
                n == s.len(),
                k <= n,
                args == s.subrange(n - k, n as int),
                i <= k,
                print_text(h, args, i as nat) == Ok::<Seq<char>, HeapPtr>(text@),
            decreases k - i,
        {
            let p = self.stack[n - k + i];
            assert(s[n - k + i] == p);
            assert(args[i as int] == p);
            let v = self.value_at(p);
            assert(load(h, p) == Some(v@));
            let t = match v.fmt(self, 0) {
                Ok(t) => t,
                Err(e) => {
                    proof {
                        assert(print_text(h, args, (i + 1) as nat) is Err);
                        lemma_print_text_err(h, args, (i + 1) as nat, k as nat);
                    }
                    return Err(e);
                },
            };
            text.append(t.as_str());
            i += 1;
        }
        out.append(text.as_str());
        push_char(out, '\n');
        assert(out@ =~= old(out)@ + text@ + seq!['\n']);
        self.alloc_after_pops(Value::Int(#[verifier::truncate] (k as i64)), k);
        Ok(())
    }

    /// Runs the `Length` built-in on the top `k` entries.
    fn native_length(&mut self, k: usize, out: &mut String) -> (r: Result<(), Error>)
        requires
            old(self).wf(),
            k <= old(self).stack_view().len(),
        ensures
            r is Err ==> final(self).heap_view() == old(self).heap_view() && final(self).table() == old(self).table(),
            final(self).wf(),
            native_post(old(self), final(self), k, Native::Length, r, old(out)@, final(out)@),
    {
        let n = self.stack.len();
        let ghost h = self.heap_view();
        let ghost s = self.stack_view();
        proof {
            assert(s.subrange(0, n - k) == s.subrange(0, s.len() - k));
        }
        if n == 0 {
            return Err(Error::StackUnderflow);
        }
        let p = self.stack[n - 1];
        assert(s[n - 1] == p);
        let len = self.value_at(p).length();
        self.alloc_after_pops(Value::Int(#[verifier::truncate] (len as i64)), k);
        Ok(())
    }

    /// Runs the `ToString` built-in on the top `k` entries.
    fn native_to_string(&mut self, k: usize, out: &mut String) -> (r: Result<(), Error>)
        requires
            old(self).wf(),
            k <= old(self).stack_view().len(),
        ensures
            r is Err ==> final(self).heap_view() == old(self).heap_view() && final(self).table() == old(self).table(),
            final(self).wf(),
            native_post(old(self), final(self), k, Native::ToString, r, old(out)@, final(out)@),
    {
        let n = self.stack.len();
        let ghost h = self.heap_view();
        let ghost s = self.stack_view();
        proof {
            assert(s.subrange(0, n - k) == s.subrange(0, s.len() - k));
        }
        if n == 0 {
            return Err(Error::StackUnderflow);
        }
        let p = self.stack[n - 1];
        assert(s[n - 1] == p);
        let t = match self.value_at(p).fmt(self, 0) {
            Ok(t) => t,
            Err(e) => return Err(e),
        };
        self.alloc_after_pops(Value::Str(t), k);
        Ok(())
    }

    /// Runs the `Append` built-in on the top `k` entries.
    fn native_append(&mut self, k: usize, out: &mut String) -> (r: Result<(), Error>)
        requires
            old(self).wf(),
            k <= old(self).stack_view().len(),
        ensures
            r is Err ==> final(self).heap_view() == old(self).heap_view() && final(self).table() == old(self).table(),
            final(self).wf(),
            native_post(old(self), final(self), k, Native::Append, r, old(out)@, final(out)@),
    {
        let n = self.stack.len();
        let ghost h = self.heap_view();
        let ghost s = self.stack_view();
        proof {
            assert(s.subrange(0, n - k) == s.subrange(0, s.len() - k));
        }
        if k == 0 {
            return Err(Error::StackUnderflow);
        }
        let tp = self.stack[n - k];
        assert(s[n - k] == tp);
        let mut items = match self.value_at(tp) {
            Value::List(lst) => {
                let c = lst.clone();
                assert(c@ =~= lst@);
                c
            },
            other => {
                return Err(Error::InvalidAppend(other.clone()));
            },
        };
        let ghost l = items@;
        let mut i: usize = n - k + 1;
        while i < n
            invariant
                self.wf(),
                self.stack_view() == s,
                self.heap_view() == h,
                n == s.len(),
                1 <= k <= n,
                n - k + 1 <= i <= n,
                items@ == l + s.subrange(n - k + 1, i as int),
            decreases n - i,
        {
            items.push(self.stack[i]);
            assert(s[i as int] == self.stack@[i as int]);
            i += 1;
            assert(items@ =~= l + s.subrange(n - k + 1, i as int));
        }
        let len = items.len();
        proof {
            assert forall|j: int| 0 <= j < items@.len() implies self.valid(#[trigger] items@[j]) by {
                if j < l.len() {
                    assert(pointers(self.deref(tp))[j] == items@[j]);
                } else {
                    assert(items@[j] == s[n - k + 1 + j - l.len()]);
                }
            }
        }
        self.set_list(tp, items);
        let ghost mid = *self;
        proof {
            assert(mid.globals() == old(self).globals());
        }
        self.alloc_after_pops(Value::Int(#[verifier::truncate] (len as i64)), k);
        Ok(())
    }

    /// Runs the `DumpStack` built-in on the top `k` entries.
    fn native_dump_stack(&mut self, k: usize, out: &mut String) -> (r: Result<(), Error>)
        requires
            old(self).wf(),
            k <= old(self).stack_view().len(),
        ensures
            r is Err ==> final(self).heap_view() == old(self).heap_view() && final(self).table() == old(self).table(),
            final(self).wf(),
            native_post(old(self), final(self), k, Native::DumpStack, r, old(out)@, final(out)@),
    {
        let n = self.stack.len();
        let ghost h = self.heap_view();
        let ghost s = self.stack_view();
        proof {
            assert(s.subrange(0, n - k) == s.subrange(0, s.len() - k));
        }
        let ghost o0 = out@;
        let ghost label;
        if k > 0 {
            let p = self.stack[n - 1];
            assert(s[n - 1] == p);
            let t = match self.value_at(p).fmt(self, 0) {
                Ok(t) => t,
                Err(e) => return Err(e),
            };
            out.append(t.as_str());
            proof {
                label = t@;
            }
        } else {
            out.append("STACK>");
            proof {
                label = "STACK>"@;
            }
        }
        let ghost o1 = out@;
        push_char(out, ' ');
        self.push_stack_text(out);
        push_char(out, '\n');
        assert(out@ =~= o0 + label + seq![' '] + stack_text(s) + seq!['\n']);
        self.alloc_after_pops(Value::Int(#[verifier::truncate] (n as i64)), k);
        Ok(())
    }

    /// Appends the stack dump, `[HeapPtr(0), HeapPtr(3)]`, to `out`.
    fn push_stack_text(&self, out: &mut String)
        ensures
            final(out)@ == old(out)@ + stack_text(self.stack_view()),
    {
        push_char(out, '[');
        let mut i: usize = 0;
        while i < self.stack.len()
            invariant
                i <= self.stack@.len(),
                out@ == old(out)@ + seq!['['] + ptrs_text(self.stack_view(), i as nat),
            decreases self.stack@.len() - i,
        {
            let ghost before = out@;
            if i > 0 {
                out.append(", ");
            }
            out.append("HeapPtr(");
            crate::text::push_usize(out, self.stack[i].0);
            push_char(out, ')');
            proof {
                let sv = self.stack_view();
                assert(sv[i as int] == self.stack@[i as int]);
                assert(ptrs_text(sv, (i + 1) as nat) == ptrs_text(sv, i as nat) + (if i + 1 > 1 { ", "@ } else { Seq::empty() }) + ptr_text(sv[i as int]));
                assert(out@ =~= old(out)@ + seq!['['] + ptrs_text(sv, (i + 1) as nat));
            }
            i += 1;
        }
        push_char(out, ']');
    }

    /// Runs the instruction at `pc` and returns the address of the next one.
    /// What `print` and `dump_stack` write is appended to `out`.
    pub fn step(&mut self, code: &Vec<Op>, pc: usize, out: &mut String) -> (r: Result<usize, Error>)
        requires
            old(self).wf(),
            pc < code.len(),
        ensures
            final(self).wf(),
            step_post(old(self), final(self), code@[pc as int], pc, r, old(out)@, final(out)@),
    {
        let next = pc + 1;
        match &code[pc] {
            Op::Nop => Ok(next),
            Op::Target(_) => Err(Error::InvalidOpCode(pc)),
            Op::PushI(n) => {
                self.alloc_after_pops(Value::Int(*n), 0);
                proof {
                    assert(old(self).stack_view().subrange(0, old(self).stack_view().len() as int) =~= old(self).stack_view());
                }
                Ok(next)
            },
            Op::PushS(t) => {
                self.alloc_after_pops(Value::Str(t.clone()), 0);
                proof {
                    assert(old(self).stack_view().subrange(0, old(self).stack_view().len() as int) =~= old(self).stack_view());
                }
                Ok(next)
            },
            Op::MakeList(k) => {
                match self.exec_make_list(*k) {
                    Ok(()) => Ok(next),
                    Err(e) => Err(e),
                }
            },
            Op::Index => {
                match self.exec_index() {
                    Ok(()) => Ok(next),
                    Err(e) => Err(e),
                }
            },
            Op::IndexStore => {
                match self.exec_index_store() {
                    Ok(()) => Ok(next),
                    Err(e) => Err(e),
                }
            },
            Op::Dup(i) => {
                let p = match self.dup(*i) {
                    Ok(p) => p,
                    Err(e) => return Err(e),
                };
                self.push(p);
                Ok(next)
            },
            Op::Pop => {
                match self.pop() {
                    Ok(_) => Ok(next),
                    Err(e) => Err(e),
                }
            },
            Op::LoadG(name) => {
                match self.load_global(name) {
                    Some(p) => {
                        self.push(p);
                        Ok(next)
                    },
                    None => Err(Error::GlobalNotFound(name.clone())),
                }
            },
            Op::StoreG(name) => {
                let p = match self.dup(0) {
                    Ok(p) => p,
                    Err(e) => return Err(e),
                };
                self.store_global(name, p);
                Ok(next)
            },
            Op::MoveG(name) => {
                let p = match self.pop() {
                    Ok(p) => p,
                    Err(e) => return Err(e),
                };
                self.store_global(name, p);
                Ok(next)
            },
            Op::JmpF(target) => {
                let p = match self.pop() {
                    Ok(p) => p,
                    Err(e) => return Err(e),
                };
                if self.value_at(p).is_false() {
                    Ok(*target)
                } else {
                    Ok(next)
                }
            },
            Op::Jmp(target) => Ok(*target),
            Op::Native(k, which) => {
                match self.exec_native(*k, *which, out) {
                    Ok(()) => Ok(next),
                    Err(e) => Err(e),
                }
            },
            Op::Lt | Op::Lte | Op::Gt | Op::Gte | Op::Eq | Op::Neq => {
                match self.exec_compare(&code[pc]) {
                    Ok(()) => Ok(next),
                    Err(e) => Err(e),
                }
            },
            _ => {
                match self.exec_binary(&code[pc]) {
                    Ok(()) => Ok(next),
                    Err(e) => Err(e),
                }
            },
        }
    }

    /// Runs `code` from address 0 for at most `fuel` steps, keeping the
    /// globals and heap of earlier runs. `Ok(true)`: the program ran to its
    /// end; `Ok(false)`: the steps ran out first. An error stops the run at
    /// the failing instruction, and the VM stays usable.
    pub fn run(&mut self, code: &Vec<Op>, out: &mut String, fuel: u64) -> (r: Result<bool, Error>)
        requires
            old(self).wf(),
        ensures
            final(self).wf(),
            match r {
                Ok(done) => exists|pc: usize, n: nat|
                    #[trigger] reaches(code@, *old(self), 0, old(out)@, *final(self), pc, final(out)@, n) && n <= fuel
                        && (done <==> pc >= code.len()) && (!done ==> n == fuel),
                Err(e) => exists|m: VM, pc: usize, om: Seq<char>, n: nat|
                    #[trigger] reaches(code@, *old(self), 0, old(out)@, m, pc, om, n) && pc < code@.len() && step_post(
                        &m,
                        final(self),
                        code@[pc as int],
                        pc,
                        Err(e),
                        om,
                        final(out)@,
                    ),
            },
    {
        let mut pc: usize = 0;
        let mut steps: u64 = 0;
        while pc < code.len() && steps < fuel
            invariant
                self.wf(),
                steps <= fuel,
                reaches(code@, *old(self), 0, old(out)@, *self, pc, out@, steps as nat),
            decreases fuel - steps,
        {
            let ghost prev = *self;
            let ghost pc0 = pc;
            let ghost o0 = out@;
            match self.step(code, pc, out) {
                Ok(p) => {
                    pc = p;
                    steps += 1;
                    proof {
                        let n1 = steps as nat;
                        assert(reaches(code@, *old(self), 0, old(out)@, prev, pc0, o0, (n1 - 1) as nat));
                        assert(transition(code@, prev, pc0, o0, *self, pc, out@)) by {
                            reveal(transition);
                        }
                        lemma_reaches_step(code@, *old(self), 0, old(out)@, prev, pc0, o0, *self, pc, out@, (n1 - 1) as nat);
                    }
                },
                Err(e) => {
                    proof {
                        assert(reaches(code@, *old(self), 0, old(out)@, prev, pc0, o0, steps as nat));
                    }
                    return Err(e);
                },
            }
        }
        Ok(pc >= code.len())
    }
}

/// After `xs[i] = v`, reading `xs[i]` gives `v`: the list that `IndexStore`
/// writes holds the value's pointer at the index, and `Index` on it pushes
/// that pointer.
pub proof fn law_store_then_read(old: &VM, mid: &VM, new: &VM, r: Result<(), Error>)
    requires
        old.wf(),
        old.stack_view().len() >= 3,
        old.deref(old.stack_view().last()) is List,
        old.deref(old.stack_view()[old.stack_view().len() - 2]) is Int,
        index_store_post(old, mid, Ok(())),
        mid.wf(),
        mid.stack_view().len() >= 2,
        mid.stack_view()[mid.stack_view().len() - 2] == old.stack_view().last(),
        mid.stack_view().last() == old.stack_view()[old.stack_view().len() - 2],
        index_post(mid, new, r),
    ensures
        r is Ok,
        new.stack_view().last() == old.stack_view()[old.stack_view().len() - 3],
{
    let s = old.stack_view();
    let tp = s.last();
    let i = int_of(old.deref(s[s.len() - 2]))->0;
    assert(mid.heap_view()[tp.0 as int] == Some(Val::List(pointers(old.deref(tp)).update(i as int, s[s.len() - 3]))));
}

/// Replacing `StoreG(x); Pop` by `MoveG(x)` keeps what execution does: the
/// pair fails exactly when the single opcode does, and otherwise both leave
/// the same stack, heap and globals.
pub proof fn law_store_pop_is_move(
    a: &VM,
    b: &VM,
    c: &VM,
    d: &VM,
    name: String,
    pc: usize,
    r1: Result<usize, Error>,
    r2: Result<usize, Error>,
    r3: Result<usize, Error>,
    o: Seq<char>,
    o1: Seq<char>,
    o2: Seq<char>,
    o3: Seq<char>,
)
    requires
        a.wf(),
        pc + 2 <= usize::MAX,
        step_post(a, b, Op::StoreG(name), pc, r1, o, o1),
        r1 is Ok ==> step_post(b, c, Op::Pop, (pc + 1) as usize, r2, o1, o2),
        step_post(a, d, Op::MoveG(name), pc, r3, o, o3),
    ensures
        r1 is Err <==> r3 is Err,
        r1 is Ok ==> {
            &&& r2 is Ok
            &&& c.stack_view() == d.stack_view()
            &&& c.heap_view() == d.heap_view()
            &&& c.globals() == d.globals()
            &&& o2 == o3
        },
{
}

/// `append` returns the list's old length plus the number of values
/// appended, and the list it leaves has that length.
pub proof fn law_append_length(old: &VM, new: &VM, k: usize, o0: Seq<char>, o1: Seq<char>)
    requires
        old.wf(),
        1 <= k <= old.stack_view().len(),
        old.deref(old.stack_view()[old.stack_view().len() - k]) is List,
        native_post(old, new, k, Native::Append, Ok(()), o0, o1),
    ensures
        ({
            let s = old.stack_view();
            let l = pointers(old.deref(s[s.len() - k]));
            let grown = l + s.subrange(s.len() - k + 1, s.len() as int);
            &&& new.deref(new.stack_view().last()) == Val::Int(grown.len() as i64)
            &&& grown.len() == l.len() + (k - 1)
            &&& crate::value::length_of(Val::List(grown)) == l.len() + (k - 1)
        }),
{
}

/// `MakeList(k)` keeps push order: reading index `j` of the new list gives
/// the `j`-th of the `k` entries that were on top of the stack.
pub proof fn law_make_list_order(old: &VM, new: &VM, k: usize)
    requires
        old.wf(),
        make_list_post(old, new, k, Ok(())),
    ensures
        ({
            let s = old.stack_view();
            let l = pointers(new.deref(new.stack_view().last()));
            &&& l.len() == k
            &&& forall|j: int| 0 <= j < k ==> #[trigger] l[j] == s[s.len() - k + j]
        }),
{
}

} // verus!
