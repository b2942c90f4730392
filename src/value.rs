//! Values of the language and their operators.
use vstd::prelude::*;
use vstd::string::*;
use crate::errors::Error;
use crate::opcodes::Op;
use crate::text::{chars_of, int_text, lemma_decimal_len, number_of_digits, push_char, push_int};
use crate::vm::{closed_heap, ptr_ok, HeapPtr, VM};

verus! {

/// A value: a 64-bit integer, a string, or a list of heap pointers.
#[derive(Debug)]
pub enum Value {
    Int(i64),
    Str(String),
    List(Vec<HeapPtr>),
}

/// The mathematical content of a `Value`.
pub enum Val {
    Int(i64),
    Str(Seq<char>),
    List(Seq<HeapPtr>),
}

impl View for Value {
    type V = Val;

    open spec fn view(&self) -> Val {
        match self {
            Value::Int(n) => Val::Int(*n),
            Value::Str(s) => Val::Str(s@),
            Value::List(l) => Val::List(l@),
        }
    }
}

impl Clone for Value {
    fn clone(&self) -> (r: Value)
        ensures
            r@ == self@,
    {
        match self {
            Value::Int(n) => Value::Int(*n),
            Value::Str(s) => Value::Str(s.clone()),
            Value::List(l) => {
                let c = l.clone();
                assert(c@ =~= l@);
                Value::List(c)
            },
        }
    }
}

/// Integer division rounded toward zero.
pub open spec fn trunc_div(a: int, b: int) -> int {
    if a >= 0 && b > 0 {
        a / b
    } else if a < 0 && b < 0 {
        (-a) / (-b)
    } else if a < 0 {
        -((-a) / b)
    } else {
        -(a / (-b))
    }
}

/// The remainder that goes with `trunc_div`: it has the sign of `a`.
pub open spec fn trunc_rem(a: int, b: int) -> int {
    a - b * trunc_div(a, b)
}

/// The quotient that `Div` computes: rounded toward zero, and wrapping for
/// the one quotient that does not fit, `i64::MIN / -1`.
pub open spec fn div_int(a: i64, b: i64) -> i64 {
    if a == i64::MIN && b == -1 {
        i64::MIN
    } else {
        trunc_div(a as int, b as int) as i64
    }
}

/// The remainder that `Mod` computes.
pub open spec fn rem_int(a: i64, b: i64) -> i64 {
    if b == -1 {
        0
    } else {
        trunc_rem(a as int, b as int) as i64
    }
}

/// The magnitude of `a`.
fn magnitude(a: i64) -> (r: u64)
    ensures
        r as int == if a < 0 { -(a as int) } else { a as int },
{
    if a < 0 {
        ((-(a + 1)) as u64) + 1
    } else {
        a as u64
    }
}

/// Quotient and remainder of `a` by a nonzero `b`, rounded toward zero.
fn div_rem(a: i64, b: i64) -> (r: (i64, i64))
    requires
        b != 0,
    ensures
        r.0 == div_int(a, b),
        r.1 == rem_int(a, b),
{
    if b == -1 {
        return (0i64.wrapping_sub(a), 0);
    }
    let ua = magnitude(a);
    let ub = magnitude(b);
    let q = ua / ub;
    let m = ua % ub;
    proof {
        assert(ub >= 2 || b == 1);
        vstd::arithmetic::div_mod::lemma_fundamental_div_mod(ua as int, ub as int);
        assert(q <= ua) by {
            vstd::arithmetic::div_mod::lemma_div_is_ordered_by_denominator(ua as int, 1, ub as int);
        }
        assert(q as int * ub as int + m as int == ua as int) by (nonlinear_arith)
            requires
                ua as int == ub as int * (ua as int / ub as int) + (ua as int % ub as int),
                q as int == ua as int / ub as int,
                m as int == ua as int % ub as int;
    }
    let neg_q = (a < 0) != (b < 0);
    let quo: i64 = if neg_q {
        if q == 9223372036854775808u64 {
            i64::MIN
        } else {
            -(q as i64)
        }
    } else {
        proof {
            if b == 1 {
                assert(q == ua) by (nonlinear_arith)
                    requires q as int * ub as int + m as int == ua as int, ub == 1, m < ub;
            } else {
                assert(q as int * 2 <= q as int * ub as int) by (nonlinear_arith)
                    requires ub >= 2;
            }
        }
        q as i64
    };
    let rem: i64 = if a < 0 { -(m as i64) } else { m as i64 };
    proof {
        assert(quo as int == trunc_div(a as int, b as int));
        assert(rem as int == trunc_rem(a as int, b as int)) by (nonlinear_arith)
            requires
                quo as int == trunc_div(a as int, b as int),
                q as int * ub as int + m as int == ua as int,
                ua as int == if a < 0 { -(a as int) } else { a as int },
                ub as int == if b < 0 { -(b as int) } else { b as int },
                quo as int == if (a < 0) != (b < 0) { -(q as int) } else { q as int },
                rem as int == if a < 0 { -(m as int) } else { m as int },
                trunc_rem(a as int, b as int) == a as int - b as int * trunc_div(a as int, b as int);
    }
    (quo, rem)
}

/// `s` repeated `n` times.
pub open spec fn repeat<A>(s: Seq<A>, n: nat) -> Seq<A>
    decreases n,
{
    if n == 0 {
        Seq::empty()
    } else {
        repeat(s, (n - 1) as nat) + s
    }
}

/// What `Add` makes of two values; `None` where it does not take them.
pub open spec fn add_val(a: Val, b: Val) -> Option<Val> {
    match (a, b) {
        (Val::Int(x), Val::Int(y)) => Some(Val::Int(x.wrapping_add(y))),
        (Val::Str(x), Val::Str(y)) => Some(Val::Str(x + y)),
        (Val::List(x), Val::List(y)) => Some(Val::List(x + y)),
        _ => None,
    }
}

/// What `Sub` makes of two values.
pub open spec fn sub_val(a: Val, b: Val) -> Option<Val> {
    match (a, b) {
        (Val::Int(x), Val::Int(y)) => Some(Val::Int(x.wrapping_sub(y))),
        _ => None,
    }
}

/// What `Mul` makes of two values: a product, or a string or list repeated.
pub open spec fn mul_val(a: Val, b: Val) -> Option<Val> {
    match (a, b) {
        (Val::Int(x), Val::Int(y)) => Some(Val::Int(x.wrapping_mul(y))),
        (Val::Str(x), Val::Int(y)) => if y >= 0 {
            Some(Val::Str(repeat(x, y as nat)))
        } else {
            None
        },
        (Val::List(x), Val::Int(y)) => if y >= 0 {
            Some(Val::List(repeat(x, y as nat)))
        } else {
            None
        },
        _ => None,
    }
}

/// The value that `v` holds for the integer `Some(n)`, if it is an integer.
pub open spec fn int_of(v: Val) -> Option<i64> {
    match v {
        Val::Int(n) => Some(n),
        _ => None,
    }
}

/// The heap pointers held directly by a value.
pub open spec fn pointers(v: Val) -> Seq<HeapPtr> {
    match v {
        Val::List(l) => l,
        _ => Seq::empty(),
    }
}

/// Only the integer zero is false.
pub open spec fn falsy(v: Val) -> bool {
    v == Val::Int(0)
}

/// The name of a value's type.
pub open spec fn type_name_of(v: Val) -> Seq<char> {
    match v {
        Val::Int(_) => "integer"@,
        Val::Str(_) => "string"@,
        Val::List(_) => "list"@,
    }
}

/// What `length` returns: characters of a string, elements of a list, 0 for
/// an integer.
pub open spec fn length_of(v: Val) -> nat {
    match v {
        Val::Int(_) => 0,
        Val::Str(s) => s.len(),
        Val::List(l) => l.len(),
    }
}

/// `e` reports that `op` does not take `a` and `b`.
pub open spec fn incompatible(e: Error, op: Op, a: Val, b: Val) -> bool {
    match e {
        Error::IncompatibleOperands(o, x, y) => o == op && x@ == a && y@ == b,
        _ => false,
    }
}

/// The result that a binary operator promises, given its spec result `v`.
pub open spec fn binary_result(r: Result<Value, Error>, v: Option<Val>, op: Op, a: Val, b: Val) -> bool {
    match v {
        Some(c) => r is Ok && r->Ok_0@ == c,
        None => r is Err && incompatible(r->Err_0, op, a, b),
    }
}

/// `s` repeated `n` times.
fn repeat_str(s: &String, n: u64) -> (r: String)
    ensures
        r@ == repeat(s@, n as nat),
{
    let mut r = String::new();
    let mut i: u64 = 0;
    while i < n
        invariant
            i <= n,
            r@ == repeat(s@, i as nat),
        decreases n - i,
    {
        r.append(s.as_str());
        i += 1;
    }
    r
}

/// `l` repeated `n` times.
fn repeat_list(l: &Vec<HeapPtr>, n: u64) -> (r: Vec<HeapPtr>)
    ensures
        r@ == repeat(l@, n as nat),
{
    let mut r: Vec<HeapPtr> = Vec::new();
    let mut i: u64 = 0;
    while i < n
        invariant
            i <= n,
            r@ == repeat(l@, i as nat),
        decreases n - i,
    {
        let mut j: usize = 0;
        let ghost before = r@;
        while j < l.len()
            invariant
                j <= l.len(),
                r@ == before + l@.subrange(0, j as int),
            decreases l.len() - j,
        {
            r.push(l[j]);
            j += 1;
            assert(r@ =~= before + l@.subrange(0, j as int));
        }
        assert(l@.subrange(0, l.len() as int) =~= l@);
        i += 1;
    }
    r
}

/// The value at `p`, or `None` where `p` is out of range or freed.
pub open spec fn load(h: Seq<Option<Val>>, p: HeapPtr) -> Option<Val> {
    if p.0 < h.len() {
        h[p.0 as int]
    } else {
        None
    }
}

/// The error that reading `p` gives where `load` finds nothing.
pub open spec fn access_error(h: Seq<Option<Val>>, p: HeapPtr) -> Error {
    if p.0 >= h.len() {
        Error::MemoryAccessOutOfRange(p)
    } else {
        Error::InvalidMemoryAccess(p)
    }
}

/// The text of a value: integers in decimal, strings as they are, lists as
/// `[a, b, c]`; a list nested deeper than three levels shows as `[...]`.
/// `Err(p)` names the first pointer that could not be read.
pub open spec fn fmt_val(h: Seq<Option<Val>>, v: Val, depth: nat) -> Result<Seq<char>, HeapPtr>
    decreases (if depth <= 4 { 4 - depth } else { 0 }), 1nat, 0nat,
{
    match v {
        Val::Int(n) => Ok(int_text(n as int)),
        Val::Str(s) => Ok(s),
        Val::List(l) => if depth > 3 {
            Ok("[...]"@)
        } else {
            match fmt_items(h, l, l.len(), depth + 1) {
                Ok(t) => Ok(seq!['['] + t + seq![']']),
                Err(p) => Err(p),
            }
        },
    }
}

/// The first `n` items of `l`, formatted and joined by `, `.
pub open spec fn fmt_items(h: Seq<Option<Val>>, l: Seq<HeapPtr>, n: nat, depth: nat) -> Result<Seq<char>, HeapPtr>
    decreases (if depth <= 4 { 5 - depth } else { 1 }), 0nat, n,
{
    if n == 0 || n > l.len() {
        Ok(Seq::empty())
    } else {
        match fmt_items(h, l, (n - 1) as nat, depth) {
            Err(p) => Err(p),
            Ok(pre) => match load(h, l[n - 1]) {
                None => Err(l[n - 1]),
                Some(v) => match fmt_val(h, v, depth) {
                    Err(p) => Err(p),
                    Ok(t) => Ok(pre + (if n > 1 { ", "@ } else { Seq::empty() }) + t),
                },
            },
        }
    }
}

/// Once the first `i` items fail, so do the first `n` for `n >= i`.
proof fn lemma_fmt_items_err(h: Seq<Option<Val>>, l: Seq<HeapPtr>, i: nat, n: nat, depth: nat)
    requires
        1 <= i <= n <= l.len(),
        fmt_items(h, l, i, depth) is Err,
    ensures
        fmt_items(h, l, n, depth) == fmt_items(h, l, i, depth),
    decreases n - i,
{
    if n > i {
        lemma_fmt_items_err(h, l, i, (n - 1) as nat, depth);
    }
}

/// `-1`, `0` or `1` by the sign of `x`.
pub open spec fn sign(x: int) -> int {
    if x < 0 {
        -1
    } else if x > 0 {
        1
    } else {
        0
    }
}

/// Lexicographic order of code points: `-1`, `0` or `1`.
pub open spec fn seq_cmp(a: Seq<char>, b: Seq<char>) -> int
    decreases a.len(),
{
    if a.len() == 0 {
        if b.len() == 0 {
            0
        } else {
            -1
        }
    } else if b.len() == 0 {
        1
    } else if a[0] < b[0] {
        -1
    } else if a[0] > b[0] {
        1
    } else {
        seq_cmp(a.drop_first(), b.drop_first())
    }
}

/// Why a comparison failed.
pub enum CmpFault {
    /// A pointer that could not be read.
    Access(HeapPtr),
    /// Two values that do not compare.
    Mismatch(Val, Val),
    /// Lists nested past the depth budget.
    Depth,
}

/// Comparison of two values: integers by number, strings by code points,
/// lists element by element and then by length. `fuel` bounds how many
/// levels of lists are entered.
pub open spec fn cmp_val(h: Seq<Option<Val>>, a: Val, b: Val, fuel: nat) -> Result<int, CmpFault>
    decreases fuel, 0nat, 0nat,
{
    match (a, b) {
        (Val::Int(x), Val::Int(y)) => Ok(sign(x - y)),
        (Val::Str(x), Val::Str(y)) => Ok(seq_cmp(x, y)),
        (Val::List(x), Val::List(y)) => if fuel == 0 {
            Err(CmpFault::Depth)
        } else {
            cmp_items(h, x, y, 0, (fuel - 1) as nat)
        },
        _ => Err(CmpFault::Mismatch(a, b)),
    }
}

/// Comparison of the lists `x` and `y` from index `i` on.
pub open spec fn cmp_items(h: Seq<Option<Val>>, x: Seq<HeapPtr>, y: Seq<HeapPtr>, i: nat, fuel: nat) -> Result<int, CmpFault>
    decreases fuel, 1nat, (if i < x.len() && i < y.len() { x.len() - i } else { 0 }),
{
    if i >= x.len() || i >= y.len() {
        Ok(sign(x.len() - y.len()))
    } else {
        match load(h, x[i as int]) {
            None => Err(CmpFault::Access(x[i as int])),
            Some(av) => match load(h, y[i as int]) {
                None => Err(CmpFault::Access(y[i as int])),
                Some(bv) => match cmp_val(h, av, bv, fuel) {
                    Err(e) => Err(e),
                    Ok(c) => if c != 0 {
                        Ok(c)
                    } else {
                        cmp_items(h, x, y, i + 1, fuel)
                    },
                },
            },
        }
    }
}

/// The error that a comparison reports for a fault; a mismatch names the
/// opcode `op` that compared.
pub open spec fn cmp_error(h: Seq<Option<Val>>, f: CmpFault, e: Error, op: Op) -> bool {
    match f {
        CmpFault::Access(p) => e == access_error(h, p),
        CmpFault::Mismatch(a, b) => incompatible(e, op, a, b),
        CmpFault::Depth => e is RecursionLimit,
    }
}

/// The depth budget of a comparison on a heap of `n` slots. A descent past
/// `n * n + 1` levels of lists meets the same pair of slots twice, and from
/// there it would repeat forever.
pub open spec fn cmp_fuel(n: nat) -> nat {
    if n >= 0x1_0000_0000 {
        u64::MAX as nat
    } else {
        n * n + 1
    }
}

/// Code-point comparison of two strings.
fn str_cmp(a: &String, b: &String) -> (r: i64)
    ensures
        r == seq_cmp(a@, b@),
{
    let x = chars_of(a.as_str());
    let y = chars_of(b.as_str());
    let mut i: usize = 0;
    assert(x@.skip(0) =~= x@);
    assert(y@.skip(0) =~= y@);
    while i < x.len() && i < y.len()
        invariant
            x@ == a@,
            y@ == b@,
            i <= x@.len(),
            i <= y@.len(),
            seq_cmp(x@, y@) == seq_cmp(x@.skip(i as int), y@.skip(i as int)),
        decreases x@.len() - i,
    {
        assert(x@.skip(i as int)[0] == x@[i as int]);
        assert(y@.skip(i as int)[0] == y@[i as int]);
        assert(x@.skip(i as int).len() > 0);
        assert(y@.skip(i as int).len() > 0);
        if x[i] < y[i] {
            assert(seq_cmp(x@.skip(i as int), y@.skip(i as int)) == -1);
            return -1;
        }
        if x[i] > y[i] {
            assert(seq_cmp(x@.skip(i as int), y@.skip(i as int)) == 1);
            return 1;
        }
        assert(x@.skip(i as int).drop_first() =~= x@.skip(i + 1));
        assert(y@.skip(i as int).drop_first() =~= y@.skip(i + 1));
        i += 1;
    }
    assert(x@.skip(i as int).len() == x@.len() - i);
    assert(y@.skip(i as int).len() == y@.len() - i);
    if x.len() < y.len() {
        -1
    } else if x.len() > y.len() {
        1
    } else {
        0
    }
}

/// Why an arithmetic operator failed.
pub enum ArithFault {
    /// The operator does not take these operands.
    Incompatible,
    /// Division or remainder by zero.
    DivZero,
}

/// What the arithmetic opcode `op` makes of `a` and `b`.
pub open spec fn arith(op: Op, a: Val, b: Val) -> Result<Val, ArithFault> {
    let lift = |v: Option<Val>|
        match v {
            Some(c) => Ok(c),
            None => Err(ArithFault::Incompatible),
        };
    match op {
        Op::Add => lift(add_val(a, b)),
        Op::Sub => lift(sub_val(a, b)),
        Op::Mul => lift(mul_val(a, b)),
        Op::Div => match (a, b) {
            (Val::Int(x), Val::Int(y)) => if y == 0 {
                Err(ArithFault::DivZero)
            } else {
                Ok(Val::Int(div_int(x, y)))
            },
            _ => Err(ArithFault::Incompatible),
        },
        _ => match (a, b) {
            (Val::Int(x), Val::Int(y)) => if y == 0 {
                Err(ArithFault::DivZero)
            } else {
                Ok(Val::Int(rem_int(x, y)))
            },
            _ => Err(ArithFault::Incompatible),
        },
    }
}

/// The error that an arithmetic fault gives.
pub open spec fn arith_error(f: ArithFault, e: Error, op: Op, a: Val, b: Val) -> bool {
    match f {
        ArithFault::Incompatible => incompatible(e, op, a, b),
        ArithFault::DivZero => e is DivisionByZero,
    }
}

/// Every item of `s` repeated is an item of `s`.
pub proof fn lemma_repeat_items<A>(s: Seq<A>, n: nat, j: int)
    requires
        0 <= j < repeat(s, n).len(),
    ensures
        s.contains(repeat(s, n)[j]),
    decreases n,
{
    if n > 0 {
        let r = repeat(s, (n - 1) as nat);
        if j < r.len() {
            lemma_repeat_items(s, (n - 1) as nat, j);
        } else {
            assert(repeat(s, n)[j] == s[j - r.len()]);
        }
    }
}

/// The pointers of an arithmetic result come from its operands.
pub proof fn lemma_arith_pointers(op: Op, a: Val, b: Val, j: int)
    requires
        arith(op, a, b) is Ok,
        0 <= j < pointers(arith(op, a, b)->Ok_0).len(),
    ensures
        pointers(a).contains(pointers(arith(op, a, b)->Ok_0)[j]) || pointers(b).contains(
            pointers(arith(op, a, b)->Ok_0)[j],
        ),
{
    let q = pointers(arith(op, a, b)->Ok_0)[j];
    match (a, b) {
        (Val::List(x), Val::List(y)) => {
            if op is Add {
                if j < x.len() {
                    assert(x[j] == q);
                } else {
                    assert(y[j - x.len()] == q);
                }
            }
        },
        (Val::List(x), Val::Int(y)) => {
            if op is Mul {
                lemma_repeat_items(x, y as nat, j);
            }
        },
        _ => {},
    }
}

impl Value {
    /// Pushes onto `roots` every pointer that the value holds.
    pub fn mark(&self, roots: &mut Vec<HeapPtr>)
        ensures
            final(roots)@ == old(roots)@ + pointers(self@),
    {
        match self {
            Value::List(values) => {
                let mut i: usize = 0;
                while i < values.len()
                    invariant
                        i <= values.len(),
                        roots@ == old(roots)@ + values@.subrange(0, i as int),
                    decreases values.len() - i,
                {
                    roots.push(values[i]);
                    i += 1;
                    assert(roots@ =~= old(roots)@ + values@.subrange(0, i as int));
                }
                assert(values@.subrange(0, values.len() as int) =~= values@);
            },
            _ => {
                assert(old(roots)@ + pointers(self@) =~= old(roots)@);
            },
        }
    }

    /// `true` if the value is the integer zero, the one false value.
    pub fn is_false(&self) -> (r: bool)
        ensures
            r == falsy(self@),
    {
        match self {
            Value::Int(n) => *n == 0,
            _ => false,
        }
    }

    /// The name of the value's type: `integer`, `string` or `list`.
    pub fn kind_name(&self) -> (r: String)
        ensures
            r@ == type_name_of(self@),
    {
        match self {
            Value::Int(_) => String::from_str("integer"),
            Value::Str(_) => String::from_str("string"),
            Value::List(_) => String::from_str("list"),
        }
    }

    /// The length that the `length` built-in returns.
    pub fn length(&self) -> (r: usize)
        ensures
            r == length_of(self@),
    {
        match self {
            Value::Int(_) => 0,
            Value::Str(s) => s.as_str().unicode_len(),
            Value::List(lst) => lst.len(),
        }
    }

    /// `self + other`: integer sum, string or list concatenation.
    pub fn add(&self, other: &Value) -> (r: Result<Value, Error>)
        ensures
            binary_result(r, add_val(self@, other@), Op::Add, self@, other@),
    {
        match (self, other) {
            (Value::Int(a), Value::Int(b)) => Ok(Value::Int(a.wrapping_add(*b))),
            (Value::Str(a), Value::Str(b)) => {
                let mut c = a.clone();
                c.append(b.as_str());
                Ok(Value::Str(c))
            },
            (Value::List(a), Value::List(b)) => {
                let mut c = a.clone();
                assert(c@ =~= a@);
                let mut i: usize = 0;
                while i < b.len()
                    invariant
                        i <= b.len(),
                        c@ == a@ + b@.subrange(0, i as int),
                    decreases b.len() - i,
                {
                    c.push(b[i]);
                    i += 1;
                    assert(c@ =~= a@ + b@.subrange(0, i as int));
                }
                assert(b@.subrange(0, b.len() as int) =~= b@);
                Ok(Value::List(c))
            },
            _ => Err(Error::IncompatibleOperands(Op::Add, self.clone(), other.clone())),
        }
    }

    /// `self - other` on integers.
    pub fn sub(&self, other: &Value) -> (r: Result<Value, Error>)
        ensures
            binary_result(r, sub_val(self@, other@), Op::Sub, self@, other@),
    {
        match (self, other) {
            (Value::Int(a), Value::Int(b)) => Ok(Value::Int(a.wrapping_sub(*b))),
            _ => Err(Error::IncompatibleOperands(Op::Sub, self.clone(), other.clone())),
        }
    }

    /// `self * other`: integer product, or a string or list repeated a
    /// non-negative number of times.
    pub fn mul(&self, other: &Value) -> (r: Result<Value, Error>)
        ensures
            binary_result(r, mul_val(self@, other@), Op::Mul, self@, other@),
    {
        match (self, other) {
            (Value::Int(a), Value::Int(b)) => Ok(Value::Int(a.wrapping_mul(*b))),
            (Value::Str(a), Value::Int(b)) if *b >= 0 => Ok(Value::Str(repeat_str(a, *b as u64))),
            (Value::List(a), Value::Int(b)) if *b >= 0 => Ok(Value::List(repeat_list(a, *b as u64))),
            _ => Err(Error::IncompatibleOperands(Op::Mul, self.clone(), other.clone())),
        }
    }

    /// `self / other` on integers, rounded toward zero.
    pub fn div(&self, other: &Value) -> (r: Result<Value, Error>)
        ensures
            match (self@, other@) {
                (Val::Int(a), Val::Int(b)) => if b == 0 {
                    r is Err && r->Err_0 is DivisionByZero
                } else {
                    r is Ok && r->Ok_0@ == Val::Int(div_int(a, b))
                },
                _ => r is Err && incompatible(r->Err_0, Op::Div, self@, other@),
            },
    {
        match (self, other) {
            (Value::Int(a), Value::Int(b)) => {
                if *b == 0 {
                    Err(Error::DivisionByZero)
                } else {
                    Ok(Value::Int(div_rem(*a, *b).0))
                }
            },
            _ => Err(Error::IncompatibleOperands(Op::Div, self.clone(), other.clone())),
        }
    }

    /// `self % other` on integers; the remainder has the sign of `self`.
    pub fn modulo(&self, other: &Value) -> (r: Result<Value, Error>)
        ensures
            match (self@, other@) {
                (Val::Int(a), Val::Int(b)) => if b == 0 {
                    r is Err && r->Err_0 is DivisionByZero
                } else {
                    r is Ok && r->Ok_0@ == Val::Int(rem_int(a, b))
                },
                _ => r is Err && incompatible(r->Err_0, Op::Mod, self@, other@),
            },
    {
        match (self, other) {
            (Value::Int(a), Value::Int(b)) => {
                if *b == 0 {
                    Err(Error::DivisionByZero)
                } else {
                    Ok(Value::Int(div_rem(*a, *b).1))
                }
            },
            _ => Err(Error::IncompatibleOperands(Op::Mod, self.clone(), other.clone())),
        }
    }

    /// The text of the value, as `print` and `to_string` show it, at the
    /// given nesting depth.
    pub fn fmt(&self, vm: &VM, depth: usize) -> (r: Result<String, Error>)
        ensures
            match fmt_val(vm.heap_view(), self@, depth as nat) {
                Ok(t) => r is Ok && r->Ok_0@ == t,
                Err(p) => r is Err && r->Err_0 == access_error(vm.heap_view(), p),
            },
        decreases (if depth <= 4 { 4 - depth } else { 0 }),
    {
        match self {
            Value::Int(n) => {
                let mut s = String::new();
                push_int(&mut s, *n);
                Ok(s)
            },
            Value::Str(s) => Ok(s.clone()),
            Value::List(lst) => {
                if depth > 3 {
                    return Ok(String::from_str("[...]"));
                }
                let ghost h = vm.heap_view();
                assert(fmt_val(h, self@, depth as nat) == match fmt_items(h, lst@, lst@.len(), (depth + 1) as nat) {
                    Ok(t) => Ok(seq!['['] + t + seq![']']),
                    Err(p) => Err::<Seq<char>, HeapPtr>(p),
                });
                let mut s = String::new();
                let mut i: usize = 0;
                while i < lst.len()
                    invariant
                        h == vm.heap_view(),
                        self@ == Val::List(lst@),
                        depth <= 3,
                        i <= lst@.len(),
                        fmt_items(h, lst@, i as nat, (depth + 1) as nat) == Ok::<Seq<char>, HeapPtr>(s@),
                    decreases lst@.len() - i,
                {
                    let v = match vm.get(lst[i]) {
                        Ok(v) => v,
                        Err(e) => {
                            assert(load(h, lst@[i as int]) is None);
                            assert(fmt_items(h, lst@, (i + 1) as nat, (depth + 1) as nat) == Err::<Seq<char>, HeapPtr>(lst@[i as int]));
                            assert(fmt_items(h, lst@, lst@.len(), (depth + 1) as nat) == Err::<Seq<char>, HeapPtr>(lst@[i as int])) by {
                                lemma_fmt_items_err(h, lst@, (i + 1) as nat, lst@.len(), (depth + 1) as nat);
                            }
                            return Err(e);
                        },
                    };
                    assert(load(h, lst@[i as int]) == Some(v@));
                    let t = match v.fmt(vm, depth + 1) {
                        Ok(t) => t,
                        Err(e) => {
                            proof {
                                assert(fmt_items(h, lst@, (i + 1) as nat, (depth + 1) as nat) == fmt_val(h, v@, (depth + 1) as nat));
                                lemma_fmt_items_err(h, lst@, (i + 1) as nat, lst@.len(), (depth + 1) as nat);
                            }
                            return Err(e);
                        },
                    };
                    if i > 0 {
                        s.append(", ");
                    }
                    s.append(t.as_str());
                    proof {
                        assert(fmt_items(h, lst@, (i + 1) as nat, (depth + 1) as nat) == Ok::<Seq<char>, HeapPtr>(s@));
                    }
                    i += 1;
                }
                let mut r = String::new();
                push_char(&mut r, '[');
                r.append(s.as_str());
                push_char(&mut r, ']');
                Ok(r)
            },
        }
    }

    /// Compares with a budget of `fuel` list levels.
    fn cmp_within(&self, vm: &VM, other: &Value, fuel: u64) -> (r: Result<i64, Error>)
        ensures
            match cmp_val(vm.heap_view(), self@, other@, fuel as nat) {
                Ok(c) => r is Ok && r->Ok_0 == c,
                Err(f) => r is Err && cmp_error(vm.heap_view(), f, r->Err_0, Op::Lt),
            },
        decreases fuel,
    {
        match (self, other) {
            (Value::Int(a), Value::Int(b)) => Ok(
                if a < b {
                    -1
                } else if a > b {
                    1
                } else {
                    0
                },
            ),
            (Value::Str(a), Value::Str(b)) => Ok(str_cmp(a, b)),
            (Value::List(a), Value::List(b)) => {
                if fuel == 0 {
                    return Err(Error::RecursionLimit);
                }
                let ghost h = vm.heap_view();
                assert(cmp_val(h, self@, other@, fuel as nat) == cmp_items(h, a@, b@, 0, (fuel - 1) as nat));
                let n = if a.len() < b.len() { a.len() } else { b.len() };
                let mut i: usize = 0;
                while i < n
                    invariant
                        h == vm.heap_view(),
                        self@ == Val::List(a@),
                        other@ == Val::List(b@),
                        fuel > 0,
                        n == if a@.len() < b@.len() { a@.len() } else { b@.len() },
                        i <= n,
                        cmp_items(h, a@, b@, 0, (fuel - 1) as nat) == cmp_items(h, a@, b@, i as nat, (fuel - 1) as nat),
                    decreases n - i,
                {
                    let ghost items = cmp_items(h, a@, b@, i as nat, (fuel - 1) as nat);
                    let av = match vm.get(a[i]) {
                        Ok(v) => v,
                        Err(e) => {
                            assert(load(h, a@[i as int]) is None);
                            assert(items == Err::<int, CmpFault>(CmpFault::Access(a@[i as int])));
                            return Err(e);
                        },
                    };
                    assert(load(h, a@[i as int]) == Some(av@));
                    let bv = match vm.get(b[i]) {
                        Ok(v) => v,
                        Err(e) => {
                            assert(load(h, b@[i as int]) is None);
                            assert(items == Err::<int, CmpFault>(CmpFault::Access(b@[i as int])));
                            return Err(e);
                        },
                    };
                    assert(load(h, b@[i as int]) == Some(bv@));
                    let c = match av.cmp_within(vm, bv, fuel - 1) {
                        Ok(c) => c,
                        Err(e) => {
                            assert(items == cmp_val(h, av@, bv@, (fuel - 1) as nat));
                            return Err(e);
                        },
                    };
                    if c != 0 {
                        assert(items == Ok::<int, CmpFault>(c as int));
                        return Ok(c);
                    }
                    assert(items == cmp_items(h, a@, b@, (i + 1) as nat, (fuel - 1) as nat));
                    i += 1;
                }
                if a.len() < b.len() {
                    Ok(-1)
                } else if a.len() > b.len() {
                    Ok(1)
                } else {
                    Ok(0)
                }
            },
            _ => Err(Error::IncompatibleOperands(Op::Lt, self.clone(), other.clone())),
        }
    }

    /// Compares `self` with `other`: `-1`, `0` or `1`. Integers compare by
    /// number, strings by code points, lists element by element and then by
    /// length; any other pair is an incompatible-operands error. Lists that
    /// nest past `cmp_fuel` levels are cyclic, and give `RecursionLimit`.
    pub fn cmp(&self, vm: &VM, other: &Value) -> (r: Result<i64, Error>)
        ensures
            match cmp_val(vm.heap_view(), self@, other@, cmp_fuel(vm.heap_view().len())) {
                Ok(c) => r is Ok && r->Ok_0 == c,
                Err(f) => r is Err && cmp_error(vm.heap_view(), f, r->Err_0, Op::Lt),
            },
    {
        let n = vm.heap_len() as u64;
        let fuel: u64 = if n >= 0x1_0000_0000 {
            u64::MAX
        } else {
            proof {
                assert(n * n <= 0xFFFF_FFFE_0000_0001) by (nonlinear_arith)
                    requires n <= 0xFFFF_FFFF;
            }
            n * n + 1
        };
        self.cmp_within(vm, other, fuel)
    }
}

/// Only the integer zero is false: every string and every list, empty
/// ones included, is true.
pub proof fn law_only_zero_is_falsy(v: Val)
    ensures
        falsy(v) <==> v == Val::Int(0),
        v is Str ==> !falsy(v),
        v is List ==> !falsy(v),
{
}

/// Code-point order is antisymmetric, and every string equals itself.
pub proof fn lemma_seq_cmp(a: Seq<char>, b: Seq<char>)
    ensures
        seq_cmp(a, b) == -seq_cmp(b, a),
        seq_cmp(a, a) == 0,
    decreases a.len(),
{
    if a.len() > 0 && b.len() > 0 {
        lemma_seq_cmp(a.drop_first(), b.drop_first());
    }
    if a.len() > 0 {
        lemma_seq_cmp(a.drop_first(), a.drop_first());
    }
}

/// A value compares equal to itself, wherever the comparison succeeds
/// (it fails only on a freed or out-of-range pointer, or past the depth
/// budget); integers and strings always compare equal to themselves.
pub proof fn law_cmp_reflexive(h: Seq<Option<Val>>, v: Val, fuel: nat)
    ensures
        cmp_val(h, v, v, fuel) is Ok ==> cmp_val(h, v, v, fuel)->Ok_0 == 0,
        !(v is List) ==> cmp_val(h, v, v, fuel) == Ok::<int, CmpFault>(0),
    decreases fuel, 0nat, 0nat,
{
    match v {
        Val::Str(s) => lemma_seq_cmp(s, s),
        Val::List(x) => {
            if fuel > 0 {
                lemma_cmp_items_reflexive(h, x, 0, (fuel - 1) as nat);
            }
        },
        _ => {},
    }
}

/// A list compares equal to itself from any index on, where it succeeds.
proof fn lemma_cmp_items_reflexive(h: Seq<Option<Val>>, x: Seq<HeapPtr>, i: nat, fuel: nat)
    ensures
        cmp_items(h, x, x, i, fuel) is Ok ==> cmp_items(h, x, x, i, fuel)->Ok_0 == 0,
    decreases fuel, 1nat, (if i < x.len() { x.len() - i } else { 0 }),
{
    if i < x.len() {
        match load(h, x[i as int]) {
            Some(v) => {
                law_cmp_reflexive(h, v, fuel);
                lemma_cmp_items_reflexive(h, x, i + 1, fuel);
            },
            None => {},
        }
    }
}

/// Swapping the operands of a successful comparison negates its result.
pub proof fn law_cmp_antisymmetric(h: Seq<Option<Val>>, a: Val, b: Val, fuel: nat)
    ensures
        cmp_val(h, a, b, fuel) is Ok ==> cmp_val(h, b, a, fuel) == Ok::<int, CmpFault>(-cmp_val(h, a, b, fuel)->Ok_0),
    decreases fuel, 0nat, 0nat,
{
    match (a, b) {
        (Val::Str(x), Val::Str(y)) => lemma_seq_cmp(x, y),
        (Val::List(x), Val::List(y)) => {
            if fuel > 0 {
                lemma_cmp_items_antisymmetric(h, x, y, 0, (fuel - 1) as nat);
            }
        },
        _ => {},
    }
}

/// Swapping two lists negates a successful comparison from any index on.
proof fn lemma_cmp_items_antisymmetric(h: Seq<Option<Val>>, x: Seq<HeapPtr>, y: Seq<HeapPtr>, i: nat, fuel: nat)
    ensures
        cmp_items(h, x, y, i, fuel) is Ok ==> cmp_items(h, y, x, i, fuel) == Ok::<int, CmpFault>(
            -cmp_items(h, x, y, i, fuel)->Ok_0,
        ),
    decreases fuel, 1nat, (if i < x.len() && i < y.len() { x.len() - i } else { 0 }),
{
    if i < x.len() && i < y.len() {
        match (load(h, x[i as int]), load(h, y[i as int])) {
            (Some(av), Some(bv)) => {
                law_cmp_antisymmetric(h, av, bv, fuel);
                lemma_cmp_items_antisymmetric(h, x, y, i + 1, fuel);
            },
            _ => {},
        }
    }
}

/// `to_string` of a non-negative integer has as many characters as the
/// integer has decimal digits.
pub proof fn law_to_string_length(h: Seq<Option<Val>>, n: i64)
    requires
        n >= 0,
    ensures
        fmt_val(h, Val::Int(n), 0) == Ok::<Seq<char>, HeapPtr>(int_text(n as int)),
        int_text(n as int).len() == number_of_digits(n as nat),
{
    lemma_decimal_len(n as nat);
}

/// On a heap whose lists point only at allocated slots, a value whose
/// pointers are allocated compares equal to itself; the one way that can
/// fail is running out of depth budget, which only cyclic lists do.
pub proof fn law_cmp_self_succeeds(h: Seq<Option<Val>>, v: Val, fuel: nat)
    requires
        closed_heap(h),
        forall|j: int| 0 <= j < pointers(v).len() ==> ptr_ok(h, #[trigger] pointers(v)[j]),
    ensures
        cmp_val(h, v, v, fuel) == Ok::<int, CmpFault>(0) || cmp_val(h, v, v, fuel) == Err::<int, CmpFault>(CmpFault::Depth),
    decreases fuel, 0nat, 0nat,
{
    match v {
        Val::Str(s) => lemma_seq_cmp(s, s),
        Val::List(x) => {
            if fuel > 0 {
                assert forall|j: int| 0 <= j < x.len() implies ptr_ok(h, #[trigger] x[j]) by {
                    assert(pointers(v)[j] == x[j]);
                }
                lemma_cmp_items_self(h, x, 0, (fuel - 1) as nat);
            }
        },
        _ => {},
    }
}

/// `law_cmp_self_succeeds` for a list from index `i` on.
proof fn lemma_cmp_items_self(h: Seq<Option<Val>>, x: Seq<HeapPtr>, i: nat, fuel: nat)
    requires
        closed_heap(h),
        forall|j: int| 0 <= j < x.len() ==> ptr_ok(h, #[trigger] x[j]),
    ensures
        cmp_items(h, x, x, i, fuel) == Ok::<int, CmpFault>(0) || cmp_items(h, x, x, i, fuel) == Err::<int, CmpFault>(
            CmpFault::Depth,
        ),
    decreases fuel, 1nat, (if i < x.len() { x.len() - i } else { 0 }),
{
    if i < x.len() {
        let p = x[i as int];
        assert(ptr_ok(h, p));
        let v = h[p.0 as int]->0;
        assert(load(h, p) == Some(v));
        assert forall|j: int| 0 <= j < pointers(v).len() implies ptr_ok(h, #[trigger] pointers(v)[j]) by {
            assert(ptr_ok(h, pointers(h[p.0 as int]->0)[j]));
        }
        law_cmp_self_succeeds(h, v, fuel);
        lemma_cmp_items_self(h, x, i + 1, fuel);
    }
}

} // verus!
