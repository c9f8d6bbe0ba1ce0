//! What each operation does, stated over its inputs and results: the stack
//! words move items as Forth defines, the arithmetic is that of 16-bit
//! two's complement, comparisons give Forth flags, `AND` and `OR` work bit by
//! bit, `.` prints a number that reads back as itself, and `IF` runs its first
//! branch exactly for a non-zero flag.
use vstd::prelude::*;
use crate::operation::{Machine, Op, Outcome, abs, binary_value, div16, emit_char, flag, is_binary, run, step};
use crate::text::{decimal, digit_char, digit_value, digits_of, digits_value, is_digit, parse_i16_spec, split_sign};

verus! {

/// Whether running an operation succeeded with the given stack, printing
/// nothing.
pub open spec fn leaves(r: Outcome, stack: Seq<i16>, out: Seq<Seq<char>>) -> bool {
    r.ok && r.machine.stack == stack && r.machine.out == out
}

/// A binary operation replaces the top two items by one: the rest of the
/// stack below stays, nothing is printed.
proof fn lemma_binary_shape(op: Op, p: Seq<i16>, a: i16, b: i16, out: Seq<Seq<char>>, cap: nat)
    requires
        is_binary(op),
        !(op is Div && b == 0),
    ensures
        step(op, Machine { stack: p.push(a).push(b), out }, cap).ok,
        step(op, Machine { stack: p.push(a).push(b), out }, cap).machine.out == out,
        step(op, Machine { stack: p.push(a).push(b), out }, cap).machine.stack.len() == p.len() + 1,
        step(op, Machine { stack: p.push(a).push(b), out }, cap).machine.stack.drop_last() == p,
{
    let s = p.push(a).push(b);
    assert(s.len() == p.len() + 2);
    assert(s[s.len() - 1] == b);
    assert(s[s.len() - 2] == a);
    assert(s.take(s.len() - 2) =~= p);
    let r = step(op, Machine { stack: s, out }, cap);
    assert(r.machine.stack.drop_last() =~= p);
}

/// The stack words, on any stack `p` below the items they use: `DUP` copies
/// the top, `DROP` removes it, `SWAP` exchanges the top two, `OVER` copies
/// the second to the top, `ROT` moves the third to the top; none of them
/// touches `p` or prints anything.
pub proof fn lemma_stack_words(p: Seq<i16>, a: i16, b: i16, c: i16, out: Seq<Seq<char>>, cap: nat)
    ensures
        p.len() + 1 < cap ==> leaves(step(Op::Dup, Machine { stack: p.push(a), out }, cap), p.push(a).push(a), out),
        leaves(step(Op::Drop, Machine { stack: p.push(a), out }, cap), p, out),
        leaves(step(Op::Swap, Machine { stack: p.push(a).push(b), out }, cap), p.push(b).push(a), out),
        p.len() + 2 < cap ==> leaves(
            step(Op::Over, Machine { stack: p.push(a).push(b), out }, cap),
            p.push(a).push(b).push(a),
            out,
        ),
        leaves(
            step(Op::Rot, Machine { stack: p.push(a).push(b).push(c), out }, cap),
            p.push(b).push(c).push(a),
            out,
        ),
{
    let s1 = p.push(a);
    assert(s1.drop_last() =~= p);
    let s2 = p.push(a).push(b);
    assert(s2[s2.len() - 1] == b && s2[s2.len() - 2] == a);
    assert(s2.take(s2.len() - 2) =~= p);
    let s3 = p.push(a).push(b).push(c);
    assert(s3[s3.len() - 1] == c && s3[s3.len() - 2] == b && s3[s3.len() - 3] == a);
    assert(s3.take(s3.len() - 3) =~= p);
}

/// `IF` pops the flag and runs its first branch when the flag is non-zero,
/// its second when it is zero, on the stack without the flag.
pub proof fn lemma_if_branches(yes: Seq<Op>, no: Seq<Op>, p: Seq<i16>, flag: i16, out: Seq<Seq<char>>, cap: nat)
    ensures
        flag != 0 ==> step(Op::If(yes, no), Machine { stack: p.push(flag), out }, cap) == run(
            yes,
            Machine { stack: p, out },
            cap,
        ),
        flag == 0 ==> step(Op::If(yes, no), Machine { stack: p.push(flag), out }, cap) == run(
            no,
            Machine { stack: p, out },
            cap,
        ),
{
    assert(p.push(flag).drop_last() =~= p);
    assert(p.push(flag)[p.len() as int] == flag);
}

proof fn lemma_digits(n: nat)
    ensures
        digits_of(n).len() >= 1,
        forall|i: int| 0 <= i < digits_of(n).len() ==> is_digit(#[trigger] digits_of(n)[i]),
        digits_value(digits_of(n)) == n,
    decreases n,
{
    if n < 10 {
        let c = digit_char(n as int);
        assert(digits_of(n) == seq![c]);
        assert(seq![c].drop_last() =~= Seq::<char>::empty());
        assert(digits_value(Seq::<char>::empty()) == 0);
        assert(digit_value(c) == n);
        assert(seq![c].last() == c);
    } else {
        lemma_digits(n / 10);
        let s = digits_of(n / 10);
        let c = digit_char((n % 10) as int);
        assert(digits_of(n) == s.push(c));
        assert(s.push(c).drop_last() =~= s);
        assert(digit_value(c) == n % 10);
        assert(s.push(c).last() == c);
        vstd::arithmetic::div_mod::lemma_fundamental_div_mod(n as int, 10);
        assert forall|i: int| 0 <= i < s.push(c).len() implies is_digit(#[trigger] s.push(c)[i]) by {
            if i < s.len() {
                assert(s.push(c)[i] == s[i]);
            }
        }
    }
}

/// What `.` prints reads back as the number printed: parsing the decimal
/// text of any `i16` gives that `i16`.
pub proof fn lemma_decimal_reads_back(v: i16)
    ensures
        parse_i16_spec(decimal(v as int)) == Some(v),
{
    if v < 0 {
        let m = (-(v as int)) as nat;
        lemma_digits(m);
        let t = seq!['-'] + digits_of(m);
        assert(t[0] == '-');
        assert(t.drop_first() =~= digits_of(m));
        assert(split_sign(t) == (true, digits_of(m)));
    } else {
        lemma_digits(v as nat);
        let t = digits_of(v as nat);
        assert(is_digit(t[0]));
        assert(split_sign(t) == (false, t));
    }
}

/// `.` takes the top item off and prints it: the text printed reads back as
/// that item, and the rest of the stack stays.
pub proof fn lemma_dot_prints_top(p: Seq<i16>, v: i16, out: Seq<Seq<char>>, cap: nat)
    ensures
        ({
            let r = step(Op::Dot, Machine { stack: p.push(v), out }, cap);
            &&& r.ok
            &&& r.machine.stack == p
            &&& r.machine.out.len() == out.len() + 1
            &&& r.machine.out.drop_last() == out
            &&& parse_i16_spec(r.machine.out.last()) == Some(v)
        }),
{
    assert(p.push(v).drop_last() =~= p);
    let r = step(Op::Dot, Machine { stack: p.push(v), out }, cap);
    assert(r.machine.out.drop_last() =~= out);
    lemma_decimal_reads_back(v);
}


/// The item a binary operation leaves on the stack it is given.
pub open spec fn top_after(op: Op, p: Seq<i16>, a: i16, b: i16, cap: nat) -> i16 {
    step(op, Machine { stack: p.push(a).push(b), out: Seq::empty() }, cap).machine.stack.last()
}

proof fn lemma_top_after(op: Op, p: Seq<i16>, a: i16, b: i16, cap: nat)
    requires
        is_binary(op),
        !(op is Div && b == 0),
    ensures
        top_after(op, p, a, b, cap) == binary_value(op, a, b),
{
    let s = p.push(a).push(b);
    assert(s[s.len() - 1] == b);
    assert(s[s.len() - 2] == a);
}

/// Whether two integers agree modulo 2^16, as 16-bit words do.
pub open spec fn same_word(x: int, y: int) -> bool {
    (x - y) % 65536 == 0
}

/// `+`, `-` and `*` give the 16-bit word of the exact sum, difference and
/// product: the result agrees with it modulo 2^16 (and, being an `i16`, is
/// the one such value in range).
pub proof fn lemma_arithmetic_wraps(p: Seq<i16>, a: i16, b: i16, cap: nat)
    ensures
        same_word(top_after(Op::Add, p, a, b, cap) as int, a + b),
        same_word(top_after(Op::Sub, p, a, b, cap) as int, a - b),
        same_word(top_after(Op::Mul, p, a, b, cap) as int, a * b),
{
    lemma_top_after(Op::Add, p, a, b, cap);
    lemma_top_after(Op::Sub, p, a, b, cap);
    lemma_top_after(Op::Mul, p, a, b, cap);
    let x = a * b;
    let m: int = 65536;
    vstd::arithmetic::div_mod::lemma_fundamental_div_mod(x, m);
    vstd::arithmetic::div_mod::lemma_mod_bound(x, m);
    let q = x / m;
    vstd::arithmetic::div_mod::lemma_mod_multiples_basic(-q, m);
    vstd::arithmetic::div_mod::lemma_mod_multiples_basic(-q - 1, m);
    assert((x % m) - x == (-q) * m);
    assert((x % m) - m - x == (-q - 1) * m);
}

proof fn lemma_trunc_div(a: int, b: int)
    requires
        b != 0,
    ensures
        ({
            let qa = abs(a) / abs(b);
            let q = if (a < 0) == (b < 0) { qa } else { -qa };
            let rem = a - q * b;
            &&& abs(rem) < abs(b)
            &&& (rem == 0 || (rem < 0) == (a < 0))
            &&& 0 <= qa <= abs(a)
        }),
{
    let x = abs(a);
    let y = abs(b);
    vstd::arithmetic::div_mod::lemma_fundamental_div_mod(x, y);
    vstd::arithmetic::div_mod::lemma_mod_pos_bound(x, y);
    let qa = x / y;
    let ra = x % y;
    assert(0 <= qa <= x) by (nonlinear_arith)
        requires
            x == y * qa + ra,
            0 <= ra < y,
            0 <= x,
            y > 0,
    ;
    let q = if (a < 0) == (b < 0) { qa } else { -qa };
    let rem = a - q * b;
    if a >= 0 && b > 0 {
        assert(rem == ra) by (nonlinear_arith)
            requires a == x, b == y, q == qa, x == y * qa + ra, rem == a - q * b;
    } else if a < 0 && b < 0 {
        assert(rem == -ra) by (nonlinear_arith)
            requires a == -x, b == -y, q == qa, x == y * qa + ra, rem == a - q * b;
    } else if a >= 0 && b < 0 {
        assert(rem == ra) by (nonlinear_arith)
            requires a == x, b == -y, q == -qa, x == y * qa + ra, rem == a - q * b;
    } else {
        assert(rem == -ra) by (nonlinear_arith)
            requires a == -x, b == y, q == -qa, x == y * qa + ra, rem == a - q * b;
    }
}

/// `/` is division rounding toward zero: the quotient `q` of `a` by a
/// non-zero `b` leaves a remainder `a - q * b` smaller than `b` in size and
/// of the sign of `a` (or zero). The one quotient out of range, of
/// `-32768` by `-1`, wraps round to `-32768`.
pub proof fn lemma_division_truncates(p: Seq<i16>, a: i16, b: i16, cap: nat)
    requires
        b != 0,
    ensures
        ({
            let q = top_after(Op::Div, p, a, b, cap);
            let rem = a - q * b;
            &&& !(a == i16::MIN && b == -1) ==> abs(rem) < abs(b as int) && (rem == 0 || (rem < 0) == (a < 0))
            &&& (a == i16::MIN && b == -1) ==> q == i16::MIN
        }),
{
    lemma_top_after(Op::Div, p, a, b, cap);
    lemma_trunc_div(a as int, b as int);
    let qa = abs(a as int) / abs(b as int);
    if !(a == i16::MIN && b == -1) {
        if (a < 0) == (b < 0) {
            // The quotient is in range: at most 32767 unless a is -32768
            // and b is -1.
            if qa > 32767 {
                assert(abs(a as int) == 32768);
                assert(abs(b as int) * qa <= abs(a as int)) by (nonlinear_arith)
                    requires qa == abs(a as int) / abs(b as int), abs(b as int) > 0, abs(a as int) >= 0;
                assert(abs(b as int) * qa >= abs(b as int) * 32768) by (nonlinear_arith)
                    requires qa > 32767, abs(b as int) > 0;
                assert(abs(b as int) == 1);
                assert(false);
            }
        }
    } else {
        assert(abs(a as int) == 32768 && abs(b as int) == 1);
        assert(32768int / 1int == 32768) by (nonlinear_arith);
    }
}

/// `=`, `<` and `>` leave a Forth flag: `-1` exactly when the relation holds,
/// `0` otherwise.
pub proof fn lemma_comparisons(p: Seq<i16>, a: i16, b: i16, cap: nat)
    ensures
        (top_after(Op::Eq, p, a, b, cap) == -1) == (a == b) && (top_after(Op::Eq, p, a, b, cap) == 0) == (a != b),
        (top_after(Op::Lt, p, a, b, cap) == -1) == (a < b) && (top_after(Op::Lt, p, a, b, cap) == 0) == (a >= b),
        (top_after(Op::Gt, p, a, b, cap) == -1) == (a > b) && (top_after(Op::Gt, p, a, b, cap) == 0) == (a <= b),
{
    lemma_top_after(Op::Eq, p, a, b, cap);
    lemma_top_after(Op::Lt, p, a, b, cap);
    lemma_top_after(Op::Gt, p, a, b, cap);
}

/// Bit `i` of a 16-bit word (bit 0 the lowest).
pub open spec fn bit(x: i16, i: u32) -> bool {
    ((x >> i) & 1i16) == 1i16
}

proof fn lemma_and_or_bit(a: i16, b: i16, i: u32)
    requires
        i < 16,
    ensures
        bit(a | b, i) == (bit(a, i) || bit(b, i)),
        bit(a & b, i) == (bit(a, i) && bit(b, i)),
{
    assert((((a | b) >> i) & 1i16 == 1i16) == (((a >> i) & 1i16 == 1i16) || ((b >> i) & 1i16 == 1i16))) by (bit_vector)
        requires i < 16;
    assert((((a & b) >> i) & 1i16 == 1i16) == (((a >> i) & 1i16 == 1i16) && ((b >> i) & 1i16 == 1i16))) by (bit_vector)
        requires i < 16;
}

/// `OR` and `AND` work bit by bit: each of the 16 bits of the result is set
/// exactly when that bit is set in either (for `OR`) or both (for `AND`) of
/// the items.
pub proof fn lemma_bitwise(p: Seq<i16>, a: i16, b: i16, cap: nat)
    ensures
        forall|i: u32| i < 16 ==> #[trigger] bit(top_after(Op::Or, p, a, b, cap), i) == (bit(a, i) || bit(b, i)),
        forall|i: u32| i < 16 ==> #[trigger] bit(top_after(Op::And, p, a, b, cap), i) == (bit(a, i) && bit(b, i)),
{
    lemma_top_after(Op::Or, p, a, b, cap);
    lemma_top_after(Op::And, p, a, b, cap);
    assert forall|i: u32| i < 16 implies #[trigger] bit(top_after(Op::Or, p, a, b, cap), i) == (bit(a, i) || bit(b, i)) by {
        lemma_and_or_bit(a, b, i);
    }
    assert forall|i: u32| i < 16 implies #[trigger] bit(top_after(Op::And, p, a, b, cap), i) == (bit(a, i) && bit(b, i)) by {
        lemma_and_or_bit(a, b, i);
    }
}

/// `NOT` replaces the top item by a Forth flag that is `-1` exactly when the
/// item was zero.
pub proof fn lemma_not(p: Seq<i16>, a: i16, out: Seq<Seq<char>>, cap: nat)
    ensures
        ({
            let r = step(Op::Not, Machine { stack: p.push(a), out }, cap);
            &&& r.ok
            &&& r.machine.out == out
            &&& r.machine.stack.drop_last() == p
            &&& r.machine.stack.len() == p.len() + 1
            &&& (r.machine.stack.last() == -1) == (a == 0)
            &&& (r.machine.stack.last() == 0) == (a != 0)
        }),
{
    assert(p.push(a).drop_last() =~= p);
    let r = step(Op::Not, Machine { stack: p.push(a), out }, cap);
    assert(r.machine.stack.drop_last() =~= p);
}

/// `EMIT` takes the top item off and prints one character, whose code is the
/// item's low byte: below 256 and equal to the item modulo 256.
pub proof fn lemma_emit(p: Seq<i16>, a: i16, out: Seq<Seq<char>>, cap: nat)
    ensures
        ({
            let r = step(Op::Emit, Machine { stack: p.push(a), out }, cap);
            &&& r.ok
            &&& r.machine.stack == p
            &&& r.machine.out.drop_last() == out
            &&& r.machine.out.len() == out.len() + 1
            &&& r.machine.out.last().len() == 1
            &&& (r.machine.out.last()[0] as int) < 256
            &&& (r.machine.out.last()[0] as int - a) % 256 == 0
        }),
{
    assert(p.push(a).drop_last() =~= p);
    let r = step(Op::Emit, Machine { stack: p.push(a), out }, cap);
    assert(r.machine.out.drop_last() =~= out);
    let x = a as int + 32768;
    vstd::arithmetic::div_mod::lemma_fundamental_div_mod(x, 256);
    vstd::arithmetic::div_mod::lemma_mod_bound(x, 256);
    let q = x / 256;
    let k = 128 - q;
    vstd::arithmetic::div_mod::lemma_mod_multiples_basic(k, 256);
    assert(x % 256 - a == k * 256);
    assert(emit_char(a) as int == x % 256);
}

/// `CR` prints a newline and leaves the stack.
pub proof fn lemma_cr(p: Seq<i16>, out: Seq<Seq<char>>, cap: nat)
    ensures
        leaves(step(Op::Cr, Machine { stack: p, out }, cap), p, out.push(seq!['\n'])),
{
}

} // verus!
