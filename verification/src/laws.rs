//! Properties of the interpreter that span several operations or lines.
use vstd::prelude::*;
use crate::dictionary::{Body, subst, subst_one};
use crate::forth_79::{ForthState, define, interpret_spec, own_body, run_instructions_spec, run_text, update_buffer_spec};
use crate::operation::{Machine, Op, done, run, step};
use crate::output_error::Error;
use crate::tokens::{all_ascii, ascii_upper, ascii_upper_char, opens_string, split_spaces, tokenize_spec, tokens_from, upper_cased};

verus! {

/// `ROT` three times over leaves the stack as it was.
pub proof fn lemma_rot_three_times(stack: Seq<i16>, out: Seq<Seq<char>>, cap: nat)
    requires
        stack.len() >= 3,
    ensures
        run(seq![Op::Rot, Op::Rot, Op::Rot], Machine { stack, out }, cap) == done(stack, out),
{
    let ops = seq![Op::Rot, Op::Rot, Op::Rot];
    let n = stack.len();
    let m0 = Machine { stack, out };
    let r1 = step(Op::Rot, m0, cap);
    let s1 = stack.take(n - 3).push(stack[n - 2]).push(stack[n - 1]).push(stack[n - 3]);
    assert(r1.machine.stack == s1);
    let r2 = step(Op::Rot, r1.machine, cap);
    let s2 = s1.take(n - 3).push(s1[n - 2]).push(s1[n - 1]).push(s1[n - 3]);
    assert(r2.machine.stack == s2);
    let r3 = step(Op::Rot, r2.machine, cap);
    let s3 = s2.take(n - 3).push(s2[n - 2]).push(s2[n - 1]).push(s2[n - 3]);
    assert(r3.machine.stack == s3);
    assert(s3 =~= stack);
    let o1 = ops.drop_first();
    let o2 = o1.drop_first();
    let o3 = o2.drop_first();
    assert(o1 =~= seq![Op::Rot, Op::Rot]);
    assert(o2 =~= seq![Op::Rot]);
    assert(o3 =~= Seq::<Op>::empty());
    assert(run(ops, m0, cap) == run(o1, r1.machine, cap));
    assert(run(o1, r1.machine, cap) == run(o2, r2.machine, cap));
    assert(run(o2, r2.machine, cap) == run(o3, r3.machine, cap));
    assert(r3.machine.out == out);
}

/// `SWAP` twice over leaves the stack as it was.
pub proof fn lemma_swap_twice(stack: Seq<i16>, out: Seq<Seq<char>>, cap: nat)
    requires
        stack.len() >= 2,
    ensures
        run(seq![Op::Swap, Op::Swap], Machine { stack, out }, cap) == done(stack, out),
{
    let ops = seq![Op::Swap, Op::Swap];
    let n = stack.len();
    let r1 = step(Op::Swap, Machine { stack, out }, cap);
    let s1 = stack.take(n - 2).push(stack[n - 1]).push(stack[n - 2]);
    assert(r1.machine.stack == s1);
    let r2 = step(Op::Swap, r1.machine, cap);
    let s2 = s1.take(n - 2).push(s1[n - 1]).push(s1[n - 2]);
    assert(s2 =~= stack);
    let o1 = ops.drop_first();
    let o2 = o1.drop_first();
    assert(o1 =~= seq![Op::Swap]);
    assert(o2 =~= Seq::<Op>::empty());
    assert(run(ops, Machine { stack, out }, cap) == run(o1, r1.machine, cap));
    assert(run(o1, r1.machine, cap) == run(o2, r2.machine, cap));
}

/// `DROP` undoes `DUP`, where the stack has room for the copy.
pub proof fn lemma_dup_drop(stack: Seq<i16>, out: Seq<Seq<char>>, cap: nat)
    requires
        1 <= stack.len() < cap,
    ensures
        run(seq![Op::Dup, Op::Drop], Machine { stack, out }, cap) == done(stack, out),
{
    let ops = seq![Op::Dup, Op::Drop];
    let r1 = step(Op::Dup, Machine { stack, out }, cap);
    assert(r1.machine.stack == stack.push(stack.last()));
    assert(stack.push(stack.last()).drop_last() =~= stack);
    let r2 = step(Op::Drop, r1.machine, cap);
    let o1 = ops.drop_first();
    let o2 = o1.drop_first();
    assert(o1 =~= seq![Op::Drop]);
    assert(o2 =~= Seq::<Op>::empty());
    assert(run(ops, Machine { stack, out }, cap) == run(o1, r1.machine, cap));
    assert(run(o1, r1.machine, cap) == run(o2, r2.machine, cap));
}

/// No operation makes the stack hold more than `cap` items, when it did not
/// before.
pub proof fn lemma_step_keeps_bound(op: Op, m: Machine, cap: nat)
    requires
        m.stack.len() <= cap,
    ensures
        step(op, m, cap).machine.stack.len() <= cap,
    decreases op,
{
    match op {
        Op::If(yes, no) => {
            if m.stack.len() >= 1 {
                let rest = Machine { stack: m.stack.drop_last(), out: m.out };
                lemma_run_keeps_bound(yes, rest, cap);
                lemma_run_keeps_bound(no, rest, cap);
            }
        },
        _ => {},
    }
}

/// No sequence of operations makes the stack hold more than `cap` items,
/// when it did not before.
pub proof fn lemma_run_keeps_bound(ops: Seq<Op>, m: Machine, cap: nat)
    requires
        m.stack.len() <= cap,
    ensures
        run(ops, m, cap).machine.stack.len() <= cap,
    decreases ops,
{
    if ops.len() > 0 {
        lemma_step_keeps_bound(ops[0], m, cap);
        let r = step(ops[0], m, cap);
        if r.ok {
            lemma_run_keeps_bound(ops.drop_first(), r.machine, cap);
        }
    }
}

/// Interpreting a line never makes the stack hold more items than the
/// stack size allows, when it did not before; the stack size stays as it is.
pub proof fn lemma_interpret_keeps_bound(st: ForthState, line: Seq<char>)
    requires
        interpret_spec(st, line) is Some,
        st.stack.len() <= st.stack_size,
    ensures
        ({
            let after = interpret_spec(st, line)->0;
            after.0.stack.len() <= st.stack_size && after.0.stack_size == st.stack_size
        }),
{
    let (buffered, definition) = update_buffer_spec(st.definition, line);
    let st1 = ForthState {
        stack: st.stack,
        stack_size: st.stack_size,
        words: st.words,
        pending: st.pending,
        definition: Seq::empty(),
    };
    if buffered && definition.len() > 0 && definition.last() == ';' {
        lemma_run_text_keeps_bound(st1, definition);
    } else if !buffered {
        lemma_run_text_keeps_bound(st, line);
    }
}

proof fn lemma_run_text_keeps_bound(st: ForthState, text: Seq<char>)
    requires
        run_text(st, text) is Some,
        st.stack.len() <= st.stack_size,
    ensures
        ({
            let after = run_text(st, text)->0;
            after.0.stack.len() <= st.stack_size && after.0.stack_size == st.stack_size
        }),
{
    let t = crate::tokens::tokenize_spec(text)->0;
    match crate::syntax::parse_spec(st.words, t) {
        Some(ops) => {
            lemma_run_keeps_bound(ops, Machine { stack: st.stack, out: st.pending }, st.stack_size);
        },
        None => {},
    }
}

/// A definition typed over two lines does what it does typed on one line,
/// the two joined by a space: the first line only opens it. (A second line
/// that starts with `:` is joined without the space.)
pub proof fn lemma_definition_across_lines(st: ForthState, first: Seq<char>, second: Seq<char>)
    requires
        st.definition.len() == 0,
        first.len() > 0,
        first[0] == ':',
        first.last() != ';',
        second.len() == 0 || second[0] != ':',
    ensures
        interpret_spec(st, first) is Some,
        ({
            let opened = interpret_spec(st, first)->0;
            &&& opened.1 == Seq::<char>::empty()
            &&& opened.2
            &&& interpret_spec(opened.0, second) == interpret_spec(st, first + seq![' '] + second)
        }),
{
    let joined = first + seq![' '] + second;
    assert(st.definition + first =~= first);
    let opened = interpret_spec(st, first)->0;
    let st1 = opened.0;
    assert(st1.definition == first);
    assert(joined[0] == ':');
    assert(st.definition + joined =~= joined);
    assert(update_buffer_spec(st1.definition, second).1 =~= joined);
}


/// Whether the last item of the output is the text of an error.
pub open spec fn ends_with_error(out: Seq<Seq<char>>) -> bool {
    out.len() > 0 && exists|e: Error| #[trigger] e.message() == out.last()
}

/// An operation that fails has queued the text of its error last.
pub proof fn lemma_step_failure_reported(op: Op, m: Machine, cap: nat)
    requires
        !step(op, m, cap).ok,
    ensures
        ends_with_error(step(op, m, cap).machine.out),
    decreases op,
{
    let r = step(op, m, cap);
    match op {
        Op::If(yes, no) => {
            if m.stack.len() >= 1 {
                let rest = Machine { stack: m.stack.drop_last(), out: m.out };
                if m.stack[m.stack.len() - 1] != 0 {
                    lemma_run_failure_reported(yes, rest, cap);
                } else {
                    lemma_run_failure_reported(no, rest, cap);
                }
            } else {
                assert(Error::Underflow.message() == r.machine.out.last());
            }
        },
        _ => {
            if m.stack.len() < crate::operation::needs(op) {
                assert(Error::Underflow.message() == r.machine.out.last());
            } else if op is Unknown {
                assert(Error::UnknownWord.message() == r.machine.out.last());
            } else if op is Div {
                assert(Error::DivisionByZero.message() == r.machine.out.last());
            } else {
                assert(Error::Overflow.message() == r.machine.out.last());
            }
        },
    }
}

/// Operations that fail have queued the text of the error that stopped them
/// last.
pub proof fn lemma_run_failure_reported(ops: Seq<Op>, m: Machine, cap: nat)
    requires
        !run(ops, m, cap).ok,
    ensures
        ends_with_error(run(ops, m, cap).machine.out),
    decreases ops,
{
    if ops.len() > 0 {
        let r = step(ops[0], m, cap);
        if !r.ok {
            lemma_step_failure_reported(ops[0], m, cap);
        } else {
            lemma_run_failure_reported(ops.drop_first(), r.machine, cap);
        }
    }
}

/// A line of tokens that fails has queued the text of its error last; one
/// that defines a word leaves the stack and the queued output as they were.
pub proof fn lemma_line_failure_reported(st: ForthState, t: Seq<Seq<char>>)
    requires
        run_instructions_spec(st, t) is Some,
    ensures
        ({
            let r = run_instructions_spec(st, t)->0;
            &&& !r.3 ==> ends_with_error(r.2)
            &&& t[0] == ":"@ ==> r.1 == st.stack
        }),
{
    let r = run_instructions_spec(st, t)->0;
    if t[0] == ":"@ {
        if !r.3 {
            assert(Error::InvalidWord.message() == r.2.last());
        }
    } else {
        let ops = crate::syntax::parse_spec(st.words, t)->0;
        if !r.3 {
            lemma_run_failure_reported(ops, Machine { stack: st.stack, out: st.pending }, st.stack_size);
        }
    }
}


proof fn lemma_own_body_plain(d: Map<Seq<char>, Body>, name: Seq<char>, body: Body)
    requires
        forall|i: int| 0 <= i < body.len() ==> #[trigger] body[i] != name,
    ensures
        own_body(d, name, body) == body,
    decreases body.len(),
{
    if body.len() > 0 {
        assert forall|i: int| 0 <= i < body.drop_first().len() implies #[trigger] body.drop_first()[i] != name by {
            assert(body.drop_first()[i] == body[i + 1]);
        }
        lemma_own_body_plain(d, name, body.drop_first());
        assert(own_body(d, name, body) =~= seq![body[0]] + body.drop_first());
    }
}

/// Defining a new word whose definition does not use it records the
/// definition as written, and leaves every other word as it was.
pub proof fn lemma_define_new_word(d: Map<Seq<char>, Body>, name: Seq<char>, body: Body)
    requires
        !d.contains_key(name),
        forall|i: int| 0 <= i < body.len() ==> #[trigger] body[i] != name,
    ensures
        define(d, name, body) == d.insert(name, body),
{
    lemma_own_body_plain(d, name, body);
}

/// Redefining a word gives every other word the meaning it had: each word it
/// used is replaced by that word's definition before the redefinition (one
/// level deep).
pub proof fn lemma_redefine_keeps_others(d: Map<Seq<char>, Body>, name: Seq<char>, body: Body, k: Seq<char>)
    requires
        d.contains_key(name),
        d.contains_key(k),
        k != name,
    ensures
        define(d, name, body).contains_key(k),
        define(d, name, body)[k] == subst(d, d[k]),
{
}


/// The complete expansion of tokens: every defined word replaced by its
/// definition, expanded in turn, at most `f` definitions deep; `None` where
/// that is not deep enough.
pub open spec fn full(d: Map<Seq<char>, Body>, t: Seq<Seq<char>>, f: nat) -> Option<Seq<Seq<char>>>
    decreases f, t.len(),
{
    if t.len() == 0 {
        Some(Seq::empty())
    } else if d.contains_key(t[0]) {
        if f == 0 {
            None
        } else {
            match (full(d, d[t[0]], (f - 1) as nat), full(d, t.drop_first(), f)) {
                (Some(a), Some(b)) => Some(a + b),
                _ => None,
            }
        }
    } else {
        match full(d, t.drop_first(), f) {
            Some(b) => Some(seq![t[0]] + b),
            None => None,
        }
    }
}

/// Whether the word `v` is met nowhere in the expansion of the tokens, at
/// most `f` definitions deep.
pub open spec fn avoids(d: Map<Seq<char>, Body>, v: Seq<char>, t: Seq<Seq<char>>, f: nat) -> bool
    decreases f, t.len(),
{
    if t.len() == 0 {
        true
    } else {
        &&& t[0] != v
        &&& (d.contains_key(t[0]) && f > 0 ==> avoids(d, v, d[t[0]], (f - 1) as nat))
        &&& avoids(d, v, t.drop_first(), f)
    }
}

/// Whether `v` is met nowhere below the words of the tokens (it may be one
/// of the tokens itself).
pub open spec fn avoids_below(d: Map<Seq<char>, Body>, v: Seq<char>, t: Seq<Seq<char>>, f: nat) -> bool {
    forall|i: int|
        0 <= i < t.len() && d.contains_key(#[trigger] t[i]) && f > 0 ==> avoids(d, v, d[t[i]], (f - 1) as nat)
}

proof fn lemma_full_more(d: Map<Seq<char>, Body>, t: Seq<Seq<char>>, f: nat)
    requires
        full(d, t, f) is Some,
    ensures
        full(d, t, f + 1) == full(d, t, f),
    decreases f, t.len(),
{
    if t.len() > 0 {
        lemma_full_more(d, t.drop_first(), f);
        if d.contains_key(t[0]) {
            lemma_full_more(d, d[t[0]], (f - 1) as nat);
        }
    }
}

proof fn lemma_full_concat(d: Map<Seq<char>, Body>, a: Seq<Seq<char>>, b: Seq<Seq<char>>, f: nat)
    ensures
        full(d, a + b, f) == match (full(d, a, f), full(d, b, f)) {
            (Some(x), Some(y)) => Some(x + y),
            _ => None,
        },
    decreases a.len(),
{
    if a.len() == 0 {
        assert(a + b =~= b);
        if full(d, b, f) is Some {
            assert(Seq::<Seq<char>>::empty() + full(d, b, f)->0 =~= full(d, b, f)->0);
        }
    } else {
        lemma_full_concat(d, a.drop_first(), b, f);
        assert((a + b).drop_first() =~= a.drop_first() + b);
        assert((a + b)[0] == a[0]);
        if full(d, a, f) is Some && full(d, b, f) is Some {
            let x = full(d, a, f)->0;
            let y = full(d, b, f)->0;
            if d.contains_key(a[0]) {
                let h = full(d, d[a[0]], (f - 1) as nat)->0;
                let r = full(d, a.drop_first(), f)->0;
                assert(h + (r + y) =~= (h + r) + y);
            } else {
                let r = full(d, a.drop_first(), f)->0;
                assert(seq![a[0]] + (r + y) =~= (seq![a[0]] + r) + y);
            }
        }
    }
}

/// What the redefinition does to a word other than `v`: `d2` is the
/// dictionary after redefining `v`.
proof fn lemma_redefined_full(
    d: Map<Seq<char>, Body>,
    d2: Map<Seq<char>, Body>,
    v: Seq<char>,
    t: Seq<Seq<char>>,
    f: nat,
)
    requires
        d.contains_key(v),
        d2.dom() == d.dom(),
        forall|x: Seq<char>| d.contains_key(x) && x != v ==> #[trigger] d2[x] == subst(d, d[x]),
        avoids(d, v, t, f),
        full(d, t, f) is Some,
    ensures
        full(d2, t, f) == full(d, t, f),
    decreases f, t.len(),
{
    if t.len() > 0 {
        lemma_redefined_full(d, d2, v, t.drop_first(), f);
        let z = t[0];
        if d.contains_key(z) {
            assert(d2.contains_key(z));
            assert(d2[z] == subst(d, d[z]));
            assert(avoids_below(d, v, d[z], (f - 1) as nat)) by {
                lemma_avoids_split(d, v, d[z], (f - 1) as nat);
            }
            lemma_redefined_subst(d, d2, v, d[z], (f - 1) as nat);
        } else {
            assert(!d2.contains_key(z));
        }
    }
}

proof fn lemma_avoids_split(d: Map<Seq<char>, Body>, v: Seq<char>, t: Seq<Seq<char>>, f: nat)
    requires
        avoids(d, v, t, f),
    ensures
        avoids_below(d, v, t, f),
        forall|i: int| 0 <= i < t.len() ==> #[trigger] t[i] != v,
    decreases t.len(),
{
    if t.len() > 0 {
        lemma_avoids_split(d, v, t.drop_first(), f);
        assert forall|i: int| 0 <= i < t.len() implies #[trigger] t[i] != v by {
            if i > 0 {
                assert(t[i] == t.drop_first()[i - 1]);
            }
        }
        assert forall|i: int| 0 <= i < t.len() && d.contains_key(#[trigger] t[i]) && f > 0 implies avoids(
            d,
            v,
            d[t[i]],
            (f - 1) as nat,
        ) by {
            if i > 0 {
                assert(t[i] == t.drop_first()[i - 1]);
            }
        }
    }
}

/// Expanding one level ahead of time changes nothing in the complete
/// expansion, when `v` is met nowhere below the tokens' words.
proof fn lemma_redefined_subst(
    d: Map<Seq<char>, Body>,
    d2: Map<Seq<char>, Body>,
    v: Seq<char>,
    s: Seq<Seq<char>>,
    g: nat,
)
    requires
        d.contains_key(v),
        d2.dom() == d.dom(),
        forall|x: Seq<char>| d.contains_key(x) && x != v ==> #[trigger] d2[x] == subst(d, d[x]),
        avoids_below(d, v, s, g),
        full(d, s, g) is Some,
    ensures
        full(d2, subst(d, s), g) == full(d, s, g),
    decreases g, s.len(),
{
    if s.len() > 0 {
        let y = s[0];
        let rest = s.drop_first();
        assert(avoids_below(d, v, rest, g)) by {
            assert forall|i: int| 0 <= i < rest.len() && d.contains_key(#[trigger] rest[i]) && g > 0 implies avoids(
                d,
                v,
                d[rest[i]],
                (g - 1) as nat,
            ) by {
                assert(rest[i] == s[i + 1]);
            }
        }
        lemma_redefined_subst(d, d2, v, rest, g);
        assert(subst(d, s) == subst_one(d, y) + subst(d, rest));
        lemma_full_concat(d2, subst_one(d, y), subst(d, rest), g);
        if d.contains_key(y) {
            // The word's definition, expanded with one level less fuel.
            let h = d[y];
            assert(g > 0);
            lemma_redefined_full(d, d2, v, h, (g - 1) as nat);
            lemma_full_more(d2, h, (g - 1) as nat);
            assert(full(d2, h, g) == full(d, h, (g - 1) as nat));
        } else {
            assert(!d2.contains_key(y));
            assert(seq![y].drop_first() =~= Seq::<Seq<char>>::empty());
            assert(full(d2, seq![y].drop_first(), g) == Some(Seq::<Seq<char>>::empty()));
            assert(seq![y][0] == y);
            assert(full(d2, seq![y], g) == Some(seq![y] + Seq::<Seq<char>>::empty()));
            assert(seq![y] + Seq::<Seq<char>>::empty() =~= seq![y]);
        }
    }
}

/// Redefining a word leaves the complete meaning of every other word as it
/// was: the complete expansion of its definition stays the same, where the
/// redefined word is met nowhere below the words that definition uses (it
/// may be used directly).
pub proof fn lemma_redefine_keeps_meaning(
    d: Map<Seq<char>, Body>,
    v: Seq<char>,
    body: Body,
    k: Seq<char>,
    f: nat,
)
    requires
        d.contains_key(v),
        d.contains_key(k),
        k != v,
        full(d, d[k], f) is Some,
        avoids_below(d, v, d[k], f),
    ensures
        define(d, v, body).contains_key(k),
        full(define(d, v, body), define(d, v, body)[k], f) == full(d, d[k], f),
{
    let d2 = define(d, v, body);
    assert(d2.dom() =~= d.dom());
    assert forall|x: Seq<char>| d.contains_key(x) && x != v implies #[trigger] d2[x] == subst(d, d[x]) by {}
    lemma_redefined_subst(d, d2, v, d[k], f);
}


proof fn lemma_upper_char(c: char)
    ensures
        (ascii_upper_char(c) == ' ') == (c == ' '),
        (c as u32) < 0x80 ==> (ascii_upper_char(c) as u32) < 0x80,
        ascii_upper_char(ascii_upper_char(c)) == ascii_upper_char(c),
        (ascii_upper_char(c) == '.') == (c == '.'),
        (ascii_upper_char(c) == '"') == (c == '"'),
{
}

proof fn lemma_upper_drop_last(s: Seq<char>)
    requires
        s.len() > 0,
    ensures
        ascii_upper(s).drop_last() == ascii_upper(s.drop_last()),
        ascii_upper(s).last() == ascii_upper_char(s.last()),
{
    assert(ascii_upper(s).drop_last() =~= ascii_upper(s.drop_last()));
}

/// Upper-casing a line upper-cases each piece of its split, and keeps the
/// pieces of an ASCII line ASCII.
proof fn lemma_split_upper(s: Seq<char>)
    ensures
        split_spaces(ascii_upper(s)) == split_spaces(s).map_values(|q: Seq<char>| ascii_upper(q)),
        all_ascii(s) ==> forall|i: int| 0 <= i < split_spaces(s).len() ==> all_ascii(#[trigger] split_spaces(s)[i]),
    decreases s.len(),
{
    crate::tokens::lemma_split_nonempty(s);
    if s.len() == 0 {
        assert(ascii_upper(s) =~= Seq::<char>::empty());
        assert(ascii_upper(Seq::<char>::empty()) =~= Seq::<char>::empty());
        assert(s =~= Seq::<char>::empty());
        assert(split_spaces(s).map_values(|q: Seq<char>| ascii_upper(q)) =~= seq![Seq::<char>::empty()]);
        assert(all_ascii(Seq::<char>::empty()));
    } else {
        let r = s.drop_last();
        lemma_split_upper(r);
        lemma_upper_drop_last(s);
        lemma_upper_char(s.last());
        crate::tokens::lemma_split_nonempty(r);
        let rest = split_spaces(r);
        let urest = rest.map_values(|q: Seq<char>| ascii_upper(q));
        if s.last() == ' ' {
            assert(ascii_upper(Seq::<char>::empty()) =~= Seq::<char>::empty());
            assert(split_spaces(s).map_values(|q: Seq<char>| ascii_upper(q)) =~= urest.push(Seq::empty()));
        } else {
            assert(ascii_upper(rest.last().push(s.last())) =~= ascii_upper(rest.last()).push(ascii_upper_char(s.last())));
            assert(split_spaces(s).map_values(|q: Seq<char>| ascii_upper(q)) =~= urest.update(
                urest.len() - 1,
                urest.last().push(ascii_upper_char(s.last())),
            ));
        }
        if all_ascii(s) {
            assert(all_ascii(r)) by {
                assert forall|i: int| 0 <= i < r.len() implies (#[trigger] r[i] as u32) < 0x80 by {
                    assert(r[i] == s[i]);
                }
            }
            assert(s[s.len() - 1] == s.last());
            assert forall|i: int| 0 <= i < split_spaces(s).len() implies all_ascii(#[trigger] split_spaces(s)[i]) by {
                if s.last() != ' ' && i == rest.len() - 1 {
                    let q = rest.last().push(s.last());
                    assert(split_spaces(s)[i] == q);
                    assert forall|m: int| 0 <= m < q.len() implies (#[trigger] q[m] as u32) < 0x80 by {
                        if m < q.len() - 1 {
                            assert(q[m] == rest.last()[m]);
                            assert(all_ascii(rest[rest.len() - 1]));
                        }
                    }
                } else if i < rest.len() {
                    assert(split_spaces(s)[i] == rest[i]);
                } else {
                    assert(split_spaces(s)[i] =~= Seq::<char>::empty());
                }
            }
        }
    }
}

proof fn lemma_upper_idempotent(q: Seq<char>)
    requires
        all_ascii(q),
    ensures
        all_ascii(ascii_upper(q)),
        upper_cased(ascii_upper(q)) == upper_cased(q),
        opens_string(ascii_upper(q)) == opens_string(q),
        (ascii_upper(q).len() == 0) == (q.len() == 0),
{
    assert forall|i: int| 0 <= i < q.len() implies (#[trigger] ascii_upper(q)[i] as u32) < 0x80 by {
        lemma_upper_char(q[i]);
    }
    assert(ascii_upper(ascii_upper(q)) =~= ascii_upper(q)) by {
        assert forall|i: int| 0 <= i < q.len() implies #[trigger] ascii_upper(ascii_upper(q))[i] == ascii_upper(q)[i] by {
            lemma_upper_char(q[i]);
        }
    }
    if q.len() == 2 {
        lemma_upper_char(q[0]);
        lemma_upper_char(q[1]);
        if opens_string(q) {
            assert(ascii_upper(q) =~= seq!['.', '"']);
        }
        if opens_string(ascii_upper(q)) {
            assert(ascii_upper(q)[0] == '.');
            assert(ascii_upper(q)[1] == '"');
            assert(q =~= seq!['.', '"']);
        }
    }
}

proof fn lemma_tokens_upper(p: Seq<Seq<char>>, i: nat)
    requires
        forall|m: int| 0 <= m < p.len() ==> all_ascii(#[trigger] p[m]),
        forall|m: int| 0 <= m < p.len() ==> !opens_string(#[trigger] p[m]),
    ensures
        tokens_from(p.map_values(|q: Seq<char>| ascii_upper(q)), i) == tokens_from(p, i),
    decreases p.len() + 1 - i,
{
    let u = p.map_values(|q: Seq<char>| ascii_upper(q));
    if i < p.len() {
        lemma_tokens_upper(p, i + 1);
        lemma_upper_idempotent(p[i as int]);
        assert(u[i as int] == ascii_upper(p[i as int]));
        assert(!opens_string(p[i as int]));
    }
}

/// Case does not matter in a line of ASCII words: upper-casing its letters
/// gives the same tokens (for a line without printed strings, whose text
/// keeps its case).
pub proof fn lemma_tokens_ignore_case(line: Seq<char>)
    requires
        all_ascii(line),
        forall|m: int| 0 <= m < split_spaces(line).len() ==> !opens_string(#[trigger] split_spaces(line)[m]),
    ensures
        tokenize_spec(ascii_upper(line)) == tokenize_spec(line),
{
    lemma_split_upper(line);
    lemma_tokens_upper(split_spaces(line), 0);
}

} // verus!
