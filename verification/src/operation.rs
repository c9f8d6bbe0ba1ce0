//! The operations a parsed line is made of, what each does to the stack and
//! to the pending output, and their execution.
use vstd::prelude::*;
use crate::output_error::{Error, strings_view};
use crate::stack::Stack;
use crate::text::{decimal, i16_to_string};

verus! {

/// The meaning of an operation: a value that the contracts speak of.
pub enum Op {
    Num(i16),
    Add,
    Sub,
    Mul,
    Div,
    Dup,
    Drop,
    Swap,
    Over,
    Rot,
    Dot,
    Emit,
    Cr,
    Eq,
    Lt,
    Gt,
    And,
    Or,
    Not,
    If(Seq<Op>, Seq<Op>),
    Else,
    Then,
    Print(Seq<char>),
    Unknown,
}

/// The state an operation works on: the stack (bottom first) and the
/// pending output, one string per printed item.
pub struct Machine {
    pub stack: Seq<i16>,
    pub out: Seq<Seq<char>>,
}

/// What running an operation gives: whether it succeeded, and the machine after it.
pub struct Outcome {
    pub ok: bool,
    pub machine: Machine,
}

/// The Forth truth value of a condition: `-1` for true, `0` for false.
pub open spec fn flag(b: bool) -> i16 {
    if b {
        -1i16
    } else {
        0i16
    }
}

pub open spec fn abs(a: int) -> int {
    if a < 0 {
        -a
    } else {
        a
    }
}

/// Division rounding toward zero; the one quotient out of range
/// (`-32768 / -1`) wraps round to `-32768`.
pub open spec fn div16(a: i16, b: i16) -> i16 {
    let q = if (a < 0) == (b < 0) {
        abs(a as int) / abs(b as int)
    } else {
        -(abs(a as int) / abs(b as int))
    };
    if q > i16::MAX {
        i16::MIN
    } else {
        q as i16
    }
}

/// The character `EMIT` prints for a value: its low byte, read as a code point.
pub open spec fn emit_char(a: i16) -> char {
    ((a as int + 32768) % 256) as char
}

/// Whether an operation takes two items and leaves one.
pub open spec fn is_binary(op: Op) -> bool {
    match op {
        Op::Add | Op::Sub | Op::Mul | Op::Div | Op::Eq | Op::Lt | Op::Gt | Op::And | Op::Or => true,
        _ => false,
    }
}

/// The item a binary operation leaves for `a` (second from top) and `b` (top).
pub open spec fn binary_value(op: Op, a: i16, b: i16) -> i16 {
    match op {
        Op::Add => vstd::wrapping::i16_specs::wrapping_add(a, b),
        Op::Sub => vstd::wrapping::i16_specs::wrapping_sub(a, b),
        Op::Mul => vstd::wrapping::i16_specs::wrapping_mul(a, b),
        Op::Div => div16(a, b),
        Op::Eq => flag(a == b),
        Op::Lt => flag(a < b),
        Op::Gt => flag(a > b),
        Op::And => a & b,
        Op::Or => a | b,
        _ => 0,
    }
}

/// A failure: the stack is left as it was and the error's text is queued.
pub open spec fn failed(e: Error, m: Machine) -> Outcome {
    Outcome { ok: false, machine: Machine { stack: m.stack, out: m.out.push(e.message()) } }
}

pub open spec fn done(stack: Seq<i16>, out: Seq<Seq<char>>) -> Outcome {
    Outcome { ok: true, machine: Machine { stack, out } }
}

/// How many items an operation needs on the stack.
pub open spec fn needs(op: Op) -> nat {
    match op {
        Op::Num(_) | Op::Cr | Op::Else | Op::Then | Op::Print(_) | Op::Unknown => 0,
        Op::Dup | Op::Drop | Op::Dot | Op::Emit | Op::Not | Op::If(_, _) => 1,
        Op::Rot => 3,
        _ => 2,
    }
}

/// What one operation does, with `cap` the most items the stack may grow to.
/// Operations that need more items than the stack holds fail with
/// `stack-underflow`; those that would grow the stack beyond `cap` fail with
/// `stack-overflow`; a division by zero fails with `division-by-zero`; an
/// unknown word fails with `?`. A failing operation leaves the stack as it was.
pub open spec fn step(op: Op, m: Machine, cap: nat) -> Outcome
    decreases op,
{
    let s = m.stack;
    let n = s.len();
    if n < needs(op) {
        failed(Error::Underflow, m)
    } else {
        match op {
            Op::Num(v) => if n >= cap {
                failed(Error::Overflow, m)
            } else {
                done(s.push(v), m.out)
            },
            Op::Dup => if n >= cap {
                failed(Error::Overflow, m)
            } else {
                done(s.push(s[n - 1]), m.out)
            },
            Op::Over => if n >= cap {
                failed(Error::Overflow, m)
            } else {
                done(s.push(s[n - 2]), m.out)
            },
            Op::Drop => done(s.drop_last(), m.out),
            Op::Swap => done(s.take(n - 2).push(s[n - 1]).push(s[n - 2]), m.out),
            Op::Rot => done(s.take(n - 3).push(s[n - 2]).push(s[n - 1]).push(s[n - 3]), m.out),
            Op::Not => done(s.drop_last().push(flag(s[n - 1] == 0)), m.out),
            Op::Dot => done(s.drop_last(), m.out.push(decimal(s[n - 1] as int))),
            Op::Emit => done(s.drop_last(), m.out.push(seq![emit_char(s[n - 1])])),
            Op::Cr => done(s, m.out.push(seq!['\n'])),
            Op::Print(text) => done(s, m.out.push(text)),
            Op::Else | Op::Then => done(s, m.out),
            Op::Unknown => failed(Error::UnknownWord, m),
            Op::If(yes, no) => {
                let rest = Machine { stack: s.drop_last(), out: m.out };
                if s[n - 1] != 0 {
                    run(yes, rest, cap)
                } else {
                    run(no, rest, cap)
                }
            },
            _ => if op is Div && s[n - 1] == 0 {
                failed(Error::DivisionByZero, m)
            } else {
                done(s.take(n - 2).push(binary_value(op, s[n - 2], s[n - 1])), m.out)
            },
        }
    }
}

/// Runs operations in order, stopping at the first that fails.
pub open spec fn run(ops: Seq<Op>, m: Machine, cap: nat) -> Outcome
    decreases ops,
{
    if ops.len() == 0 {
        done(m.stack, m.out)
    } else {
        let r = step(ops[0], m, cap);
        if !r.ok {
            r
        } else {
            run(ops.drop_first(), r.machine, cap)
        }
    }
}


/// An operation of a parsed line.
pub enum Operation {
    N(i16),
    Add,
    Sub,
    Mul,
    Div,
    Dup,
    Drop,
    Swap,
    Over,
    Rot,
    Dot,
    Emit,
    Cr,
    Eq,
    Lt,
    Gt,
    And,
    Or,
    Not,
    BranchIf(Vec<Operation>, Vec<Operation>),
    BranchElse,
    BranchEnd,
    Print(String),
    Unknown,
}

impl Operation {
    /// The meaning of the operation.
    pub open spec fn op(self) -> Op
        decreases self,
    {
        match self {
            Operation::N(v) => Op::Num(v),
            Operation::Add => Op::Add,
            Operation::Sub => Op::Sub,
            Operation::Mul => Op::Mul,
            Operation::Div => Op::Div,
            Operation::Dup => Op::Dup,
            Operation::Drop => Op::Drop,
            Operation::Swap => Op::Swap,
            Operation::Over => Op::Over,
            Operation::Rot => Op::Rot,
            Operation::Dot => Op::Dot,
            Operation::Emit => Op::Emit,
            Operation::Cr => Op::Cr,
            Operation::Eq => Op::Eq,
            Operation::Lt => Op::Lt,
            Operation::Gt => Op::Gt,
            Operation::And => Op::And,
            Operation::Or => Op::Or,
            Operation::Not => Op::Not,
            Operation::BranchIf(yes, no) => Op::If(ops_of(yes@), ops_of(no@)),
            Operation::BranchElse => Op::Else,
            Operation::BranchEnd => Op::Then,
            Operation::Print(text) => Op::Print(text@),
            Operation::Unknown => Op::Unknown,
        }
    }
}

/// The meanings of a sequence of operations.
pub open spec fn ops_of(s: Seq<Operation>) -> Seq<Op>
    decreases s,
{
    if s.len() == 0 {
        Seq::empty()
    } else {
        seq![s[0].op()] + ops_of(s.drop_first())
    }
}

pub proof fn lemma_ops_of(s: Seq<Operation>)
    ensures
        ops_of(s).len() == s.len(),
        forall|i: int| 0 <= i < s.len() ==> #[trigger] ops_of(s)[i] == s[i].op(),
    decreases s.len(),
{
    if s.len() > 0 {
        lemma_ops_of(s.drop_first());
        assert forall|i: int| 0 <= i < s.len() implies #[trigger] ops_of(s)[i] == s[i].op() by {
            if i > 0 {
                assert(ops_of(s)[i] == ops_of(s.drop_first())[i - 1]);
            }
        }
    }
}

pub proof fn lemma_ops_of_skip(s: Seq<Operation>, i: int)
    requires
        0 <= i <= s.len(),
    ensures
        ops_of(s).skip(i) == ops_of(s.skip(i)),
{
    lemma_ops_of(s);
    lemma_ops_of(s.skip(i));
    assert(ops_of(s).skip(i) =~= ops_of(s.skip(i)));
}

/// The machine an operation starts from: the stack and the strings queued so far.
pub open spec fn machine_of(stack: Seq<i16>, buffer: Seq<String>) -> Machine {
    Machine { stack, out: strings_view(buffer) }
}

/// The pending output after queueing one more string.
proof fn lemma_push_view(b: Seq<String>, x: String)
    ensures
        strings_view(b.push(x)) == strings_view(b).push(x@),
{
    assert(strings_view(b.push(x)) =~= strings_view(b).push(x@));
}

fn queue(buffer: &mut Vec<String>, x: String)
    ensures
        strings_view(final(buffer)@) == strings_view(old(buffer)@).push(x@),
{
    proof {
        lemma_push_view(buffer@, x);
    }
    buffer.push(x);
}

/// The item a binary operation leaves; `b` is not zero for a division.
fn binary(op: &Operation, a: i16, b: i16) -> (r: i16)
    requires
        is_binary(op.op()),
        op.op() is Div ==> b != 0,
    ensures
        r == binary_value(op.op(), a, b),
{
    match op {
        Operation::Add => a.wrapping_add(b),
        Operation::Sub => a.wrapping_sub(b),
        Operation::Mul => a.wrapping_mul(b),
        Operation::Div => {
            let ua: u32 = if a < 0 { (-(a as i32)) as u32 } else { a as u32 };
            let ub: u32 = if b < 0 { (-(b as i32)) as u32 } else { b as u32 };
            let q: u32 = ua / ub;
            if (a < 0) == (b < 0) {
                if q > 32767 { -32768 } else { q as i16 }
            } else {
                (-(q as i32)) as i16
            }
        },
        Operation::Eq => if a == b { -1 } else { 0 },
        Operation::Lt => if a < b { -1 } else { 0 },
        Operation::Gt => if a > b { -1 } else { 0 },
        Operation::And => a & b,
        _ => a | b,
    }
}

impl Operation {
    /// Runs the operation on the stack, queueing what it prints (an error's
    /// text included) on `buffer`. `stack_size` is the most items the stack
    /// may grow to. Returns whether it succeeded.
    pub fn apply(&self, stack: &mut Stack, stack_size: usize, buffer: &mut Vec<String>) -> (ok: bool)
        ensures
            ({
                let r = step(self.op(), machine_of(old(stack)@, old(buffer)@), stack_size as nat);
                &&& ok == r.ok
                &&& final(stack)@ == r.machine.stack
                &&& strings_view(final(buffer)@) == r.machine.out
            }),
        decreases self,
    {
        let n = stack.len();
        let ghost m = machine_of(stack@, buffer@);
        match self {
            Operation::N(v) => {
                if n >= stack_size {
                    return Error::Overflow.throw_error(buffer);
                }
                stack.push(*v);
                true
            },
            Operation::Dup | Operation::Over => {
                let depth: usize = if let Operation::Dup = self { 0 } else { 1 };
                if n <= depth {
                    return Error::Underflow.throw_error(buffer);
                }
                if n >= stack_size {
                    return Error::Overflow.throw_error(buffer);
                }
                let v = stack.peek(depth);
                stack.push(v);
                true
            },
            Operation::Drop => {
                if n < 1 {
                    return Error::Underflow.throw_error(buffer);
                }
                stack.pop();
                true
            },
            Operation::Swap => {
                if n < 2 {
                    return Error::Underflow.throw_error(buffer);
                }
                let b = stack.pop();
                let a = stack.pop();
                stack.push(b);
                stack.push(a);
                assert(stack@ =~= m.stack.take(n - 2).push(m.stack[n - 1]).push(m.stack[n - 2]));
                true
            },
            Operation::Rot => {
                if n < 3 {
                    return Error::Underflow.throw_error(buffer);
                }
                let c = stack.pop();
                let b = stack.pop();
                let a = stack.pop();
                stack.push(b);
                stack.push(c);
                stack.push(a);
                assert(stack@ =~= m.stack.take(n - 3).push(m.stack[n - 2]).push(m.stack[n - 1]).push(
                    m.stack[n - 3],
                ));
                true
            },
            Operation::Not => {
                if n < 1 {
                    return Error::Underflow.throw_error(buffer);
                }
                let a = stack.pop();
                stack.push(if a == 0 { -1 } else { 0 });
                true
            },
            Operation::Dot => {
                if n < 1 {
                    return Error::Underflow.throw_error(buffer);
                }
                let a = stack.pop();
                queue(buffer, i16_to_string(a));
                true
            },
            Operation::Emit => {
                if n < 1 {
                    return Error::Underflow.throw_error(buffer);
                }
                let a = stack.pop();
                let code: u8 = ((a as i32 + 32768) as u32 % 256) as u8;
                let c = code as char;
                assert(c == emit_char(a));
                let mut chars: Vec<char> = Vec::new();
                chars.push(c);
                let text = crate::text::string_of(&chars);
                assert(text@ =~= seq![emit_char(a)]);
                queue(buffer, text);
                true
            },
            Operation::Cr => {
                let mut chars: Vec<char> = Vec::new();
                chars.push('\n');
                let text = crate::text::string_of(&chars);
                assert(text@ =~= seq!['\n']);
                queue(buffer, text);
                true
            },
            Operation::Print(text) => {
                queue(buffer, text.clone());
                true
            },
            Operation::BranchElse | Operation::BranchEnd => true,
            Operation::Unknown => Error::UnknownWord.throw_error(buffer),
            Operation::BranchIf(yes, no) => {
                if n < 1 {
                    return Error::Underflow.throw_error(buffer);
                }
                let cond = stack.pop();
                if cond != 0 {
                    apply_all(yes, stack, stack_size, buffer)
                } else {
                    apply_all(no, stack, stack_size, buffer)
                }
            },
            _ => {
                if n < 2 {
                    return Error::Underflow.throw_error(buffer);
                }
                let b = stack.peek(0);
                if let Operation::Div = self {
                    if b == 0 {
                        return Error::DivisionByZero.throw_error(buffer);
                    }
                }
                let b = stack.pop();
                let a = stack.pop();
                let r = binary(self, a, b);
                stack.push(r);
                assert(stack@ =~= m.stack.take(n - 2).push(binary_value(self.op(), m.stack[n - 2], m.stack[n - 1])));
                true
            },
        }
    }
}

/// Runs operations in order, stopping at the first that fails.
pub fn apply_all(ops: &Vec<Operation>, stack: &mut Stack, stack_size: usize, buffer: &mut Vec<String>) -> (ok: bool)
    ensures
        ({
            let r = run(ops_of(ops@), machine_of(old(stack)@, old(buffer)@), stack_size as nat);
            &&& ok == r.ok
            &&& final(stack)@ == r.machine.stack
            &&& strings_view(final(buffer)@) == r.machine.out
        }),
    decreases ops,
{
    let ghost goal = run(ops_of(ops@), machine_of(stack@, buffer@), stack_size as nat);
    proof {
        lemma_ops_of_skip(ops@, 0);
        assert(ops@.skip(0) =~= ops@);
    }
    let mut i: usize = 0;
    while i < ops.len()
        invariant
            i <= ops@.len(),
            goal == run(ops_of(ops@.skip(i as int)), machine_of(stack@, buffer@), stack_size as nat),
            goal == run(ops_of(ops@), machine_of(old(stack)@, old(buffer)@), stack_size as nat),
        decreases ops@.len() - i,
    {
        proof {
            lemma_ops_of(ops@.skip(i as int));
            lemma_ops_of(ops@.skip(i + 1));
            assert(ops_of(ops@.skip(i as int)).drop_first() =~= ops_of(ops@.skip(i + 1))) by {
                lemma_ops_of_skip(ops@.skip(i as int), 1);
                assert(ops@.skip(i as int).skip(1) =~= ops@.skip(i + 1));
            }
        }
        let ghost rest = ops_of(ops@.skip(i as int));
        assert(rest[0] == ops@[i as int].op());
        let ok = ops[i].apply(stack, stack_size, buffer);
        if !ok {
            return false;
        }
        i += 1;
    }
    true
}

} // verus!
