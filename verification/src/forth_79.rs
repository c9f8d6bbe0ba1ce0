//! The interpreter: it keeps the stack, the dictionary of defined words, the
//! output waiting to be printed and the definition being typed, and runs one
//! line at a time.
use vstd::prelude::*;
pub use crate::output_error::Error;
pub use crate::tokens::tokenize;
use crate::dictionary::{Body, Dictionary, append_strings, replace_occurrences, replaced};
use crate::operation::{Machine, Op, Operation, ops_of, lemma_ops_of, run, apply_all};
use crate::output_error::strings_view;
use crate::stack::Stack;
use crate::syntax::{collect, expanded_f, is_delimiter, keyword_op, lemma_if_token, lemma_only_if_token, parse_f, parse_spec, print_cut_ok, starts_print, token_op, trimmed};
use crate::text::{chars_of, decimal, i16_to_string, parse_i16, parse_i16_spec, string_of};
use crate::tokens::{tokenize_checked, tokenize_spec};

verus! {

/// `str::trim`: the text without leading and trailing white space (the
/// characters with Unicode's White_Space property). Trusted: the result is
/// `trimmed` of the argument.
#[verifier::external_body]
fn trim(s: &str) -> (r: &str)
    ensures
        r@ == trimmed(s@),
{
    s.trim()
}

/// Whether a token is the given keyword.
fn token_is(token: &String, keyword: &str) -> (r: bool)
    ensures
        r == (token@ == keyword@),
{
    let k = String::from_str(keyword);
    *token == k
}

/// The interpreter of Forth-79 lines.
pub struct Forth79 {
    stack: Stack,
    stack_size: usize,
    words: Dictionary,
    buffer_aux: Vec<String>,
    if_buffer: String,
}

/// The state of an interpreter.
pub struct ForthState {
    /// The stack, bottom first.
    pub stack: Seq<i16>,
    /// The most items the stack may grow to.
    pub stack_size: nat,
    /// The defined words and their definitions.
    pub words: Map<Seq<char>, Body>,
    /// The output queued and not yet printed.
    pub pending: Seq<Seq<char>>,
    /// The definition being typed over several lines, if any.
    pub definition: Seq<char>,
}

impl View for Forth79 {
    type V = ForthState;

    closed spec fn view(&self) -> ForthState {
        ForthState {
            stack: self.stack@,
            stack_size: self.stack_size as nat,
            words: self.words@,
            pending: strings_view(self.buffer_aux@),
            definition: self.if_buffer@,
        }
    }
}

/// The decimal numbers of a sequence, separated by single spaces.
pub open spec fn joined(s: Seq<i16>) -> Seq<char>
    decreases s.len(),
{
    if s.len() == 0 {
        Seq::empty()
    } else if s.len() == 1 {
        decimal(s[0] as int)
    } else {
        joined(s.drop_last()) + seq![' '] + decimal(s.last() as int)
    }
}

/// Whether the text is a number the interpreter reads.
fn is_numerical(string: &String) -> (r: bool)
    ensures
        r == parse_i16_spec(string@) is Some,
{
    let chars = chars_of(string.as_str());
    match parse_i16(&chars) {
        Some(_) => true,
        None => false,
    }
}

/// Index arithmetic of `collect`: collecting from a suffix of the tokens is
/// collecting from the whole at a shifted index.
proof fn lemma_collect_shift(t: Seq<Seq<char>>, s: int, i: nat, depth: nat, stop_at_else: bool)
    requires
        0 <= s <= t.len(),
    ensures
        collect(t.skip(s), i, depth, stop_at_else).0 == collect(t, (s + i) as nat, depth, stop_at_else).0,
        collect(t.skip(s), i, depth, stop_at_else).1 + s == collect(t, (s + i) as nat, depth, stop_at_else).1,
    decreases t.len() - s - i,
{
    if depth == 0 || i >= t.len() - s {
    } else {
        let tok = t[s + i];
        let up: nat = if tok == "IF"@ { 1 } else { 0 };
        let down: nat = if is_delimiter(tok, stop_at_else) { 1 } else { 0 };
        lemma_collect_shift(t, s, i + 1, (depth + up - down) as nat, stop_at_else);
    }
}

proof fn lemma_collect_bound(t: Seq<Seq<char>>, i: nat, depth: nat, stop_at_else: bool)
    requires
        i <= t.len(),
    ensures
        i <= collect(t, i, depth, stop_at_else).1 <= t.len(),
    decreases t.len() - i,
{
    if depth == 0 || i >= t.len() {
    } else {
        let tok = t[i as int];
        let up: nat = if tok == "IF"@ { 1 } else { 0 };
        let down: nat = if is_delimiter(tok, stop_at_else) { 1 } else { 0 };
        lemma_collect_bound(t, i + 1, (depth + up - down) as nat, stop_at_else);
    }
}


/// The text written for the pending item at index `k`: the item itself,
/// preceded by a space when neither it nor the item before it is a newline.
pub open spec fn rendered_item(aux: Seq<Seq<char>>, k: int) -> Seq<char> {
    if k > 0 && aux[k - 1] != seq!['\n'] && aux[k] != seq!['\n'] {
        seq![' '] + aux[k]
    } else {
        aux[k]
    }
}

/// The text written for all pending items, in order.
pub open spec fn rendered(aux: Seq<Seq<char>>) -> Seq<char>
    decreases aux.len(),
{
    if aux.len() == 0 {
        Seq::empty()
    } else {
        rendered(aux.drop_last()) + rendered_item(aux, aux.len() - 1)
    }
}

/// What stays pending once the items are written: nothing when they end
/// with a newline (or there are none), else one empty item, so that the next
/// item written is set off by a space.
pub open spec fn pending_after(aux: Seq<Seq<char>>) -> Seq<Seq<char>> {
    if aux.len() == 0 || aux.last() == seq!['\n'] {
        Seq::empty()
    } else {
        seq![Seq::empty()]
    }
}

pub proof fn lemma_encode_utf8_concat(a: Seq<char>, b: Seq<char>)
    ensures
        vstd::utf8::encode_utf8(a + b) == vstd::utf8::encode_utf8(a) + vstd::utf8::encode_utf8(b),
    decreases a.len(),
{
    if a.len() > 0 {
        lemma_encode_utf8_concat(a.drop_first(), b);
        assert((a + b).drop_first() =~= a.drop_first() + b);
        assert(vstd::utf8::encode_utf8(a + b) =~= vstd::utf8::encode_scalar(a[0] as u32)
            + vstd::utf8::encode_utf8(a.drop_first() + b));
        assert(vstd::utf8::encode_utf8(a) + vstd::utf8::encode_utf8(b) =~= vstd::utf8::encode_scalar(
            a[0] as u32,
        ) + (vstd::utf8::encode_utf8(a.drop_first()) + vstd::utf8::encode_utf8(b)));
    } else {
        assert(a + b =~= b);
        assert(vstd::utf8::encode_utf8(a) =~= Seq::<u8>::empty());
    }
}

/// Appends the UTF-8 encoding of a string to a byte buffer.
fn write_str(buffer: &mut Vec<u8>, s: &str)
    ensures
        final(buffer)@ == old(buffer)@ + vstd::utf8::encode_utf8(s@),
{
    let bytes = s.as_bytes();
    let mut k: usize = 0;
    while k < bytes.len()
        invariant
            k <= bytes@.len(),
            bytes@ == vstd::utf8::encode_utf8(s@),
            buffer@ == old(buffer)@ + bytes@.take(k as int),
        decreases bytes@.len() - k,
    {
        buffer.push(bytes[k]);
        assert(bytes@.take(k + 1) =~= bytes@.take(k as int).push(bytes@[k as int]));
        k += 1;
    }
    assert(bytes@.take(bytes@.len() as int) =~= bytes@);
}

/// Writes the pending items to the buffer, each but a newline set off from
/// the one before by a space, and leaves pending what `pending_after` says.
fn print_buffer(buffer: &mut Vec<u8>, aux_buffer: &mut Vec<String>)
    ensures
        final(buffer)@ == old(buffer)@ + vstd::utf8::encode_utf8(rendered(strings_view(old(aux_buffer)@))),
        strings_view(final(aux_buffer)@) == pending_after(strings_view(old(aux_buffer)@)),
{
    let ghost aux = strings_view(aux_buffer@);
    let mut whitespace: bool = false;
    let mut k: usize = 0;
    let newline = string_of(&vec!['\n']);
    assert(newline@ =~= seq!['\n']);
    while k < aux_buffer.len()
        invariant
            k <= aux.len(),
            aux == strings_view(aux_buffer@),
            newline@ == seq!['\n'],
            whitespace == (k > 0 && aux[k - 1] != seq!['\n']),
            buffer@ == old(buffer)@ + vstd::utf8::encode_utf8(rendered(aux.take(k as int))),
        decreases aux.len() - k,
    {
        let item = &aux_buffer[k];
        assert(item@ == aux[k as int]);
        let is_newline = *item == newline;
        let mut output = String::new();
        if whitespace && !is_newline {
            output.append(" ");
        }
        output.append(item.as_str());
        proof {
            reveal_strlit(" ");
            let t = aux.take(k + 1);
            assert(t.drop_last() =~= aux.take(k as int));
            assert(rendered_item(t, k as int) =~= output@);
            lemma_encode_utf8_concat(rendered(aux.take(k as int)), output@);
        }
        write_str(buffer, output.as_str());
        whitespace = !is_newline;
        k += 1;
    }
    assert(aux.take(aux.len() as int) =~= aux);
    if aux_buffer.len() > 0 {
        let last = aux_buffer.len() - 1;
        let newline_last = aux_buffer[last] == newline;
        aux_buffer.clear();
        if !newline_last {
            aux_buffer.push(String::new());
        }
    }
    assert(strings_view(aux_buffer@) =~= pending_after(aux));
}


/// A definition's tokens with each use of the word being defined replaced by
/// the word's current definition (by nothing when it has none).
pub open spec fn own_body(d: Map<Seq<char>, Body>, name: Seq<char>, b: Body) -> Body
    decreases b.len(),
{
    if b.len() == 0 {
        Seq::empty()
    } else {
        own_token(d, name, b[0]) + own_body(d, name, b.drop_first())
    }
}

/// What one token of a definition of `name` becomes.
pub open spec fn own_token(d: Map<Seq<char>, Body>, name: Seq<char>, t: Seq<char>) -> Body {
    if t == name {
        if d.contains_key(name) {
            d[name]
        } else {
            Seq::empty()
        }
    } else {
        seq![t]
    }
}

pub proof fn lemma_own_body_push(d: Map<Seq<char>, Body>, name: Seq<char>, b: Body, t: Seq<char>)
    ensures
        own_body(d, name, b.push(t)) == own_body(d, name, b) + own_token(d, name, t),
    decreases b.len(),
{
    if b.len() == 0 {
        assert(b.push(t).drop_first() =~= Seq::<Seq<char>>::empty());
        assert(own_body(d, name, b.push(t).drop_first()) =~= Seq::<Seq<char>>::empty());
        assert(b.push(t)[0] == t);
        assert(own_body(d, name, b) =~= Seq::<Seq<char>>::empty());
        assert(own_body(d, name, b.push(t)) =~= own_token(d, name, t));
    } else {
        lemma_own_body_push(d, name, b.drop_first(), t);
        assert(b.push(t).drop_first() =~= b.drop_first().push(t));
        assert(own_body(d, name, b.push(t)) =~= own_body(d, name, b) + own_token(d, name, t));
    }
}

/// The dictionary after defining `name` with the tokens `body`: a word that
/// was already defined first has every definition's words replaced by their
/// definitions, so that what was defined with the old meaning keeps it.
pub open spec fn define(d: Map<Seq<char>, Body>, name: Seq<char>, body: Body) -> Map<Seq<char>, Body> {
    let d1 = if d.contains_key(name) {
        replaced(d)
    } else {
        d
    };
    d1.insert(name, own_body(d1, name, body))
}

/// What a line of tokens does to the dictionary: `Some((1, d))` when it is
/// not a definition, `Some((0, d))` when it tries to define a number,
/// `Some((-1, d'))` when it defines a word; `None` where the tokens are too
/// few for what the first ones start.
pub open spec fn update_word_spec(d: Map<Seq<char>, Body>, t: Seq<Seq<char>>) -> Option<(int, Map<Seq<char>, Body>)> {
    if t.len() == 0 {
        None
    } else if t[0] != ":"@ {
        Some((1, d))
    } else if t.len() < 2 {
        None
    } else if parse_i16_spec(t[1]) is Some {
        Some((0, d))
    } else if t.len() < 3 {
        None
    } else {
        Some((-1, define(d, t[1], t.subrange(2, t.len() - 1))))
    }
}

/// What running a line of tokens does: the dictionary, stack and pending
/// output after it, and whether it succeeded; `None` where it cannot be run
/// to its end.
pub open spec fn run_instructions_spec(st: ForthState, t: Seq<Seq<char>>) -> Option<
    (Map<Seq<char>, Body>, Seq<i16>, Seq<Seq<char>>, bool),
> {
    match update_word_spec(st.words, t) {
        None => None,
        Some((code, d)) => if code == 0 {
            Some((d, st.stack, st.pending.push(Error::InvalidWord.message()), false))
        } else if code == -1 {
            Some((d, st.stack, st.pending, true))
        } else {
            match parse_spec(st.words, t) {
                None => None,
                Some(ops) => {
                    let r = run(ops, Machine { stack: st.stack, out: st.pending }, st.stack_size);
                    Some((st.words, r.machine.stack, r.machine.out, r.ok))
                },
            }
        },
    }
}

/// Runs the tokens of `text` and writes out what is pending: the state after
/// it, the text written and whether the line succeeded; `None` where the
/// text cannot be run to its end (it would stop on a malformed input, or a
/// word's expansion would never end).
pub open spec fn run_text(st: ForthState, text: Seq<char>) -> Option<(ForthState, Seq<char>, bool)> {
    match tokenize_spec(text) {
        None => None,
        Some(t) => match run_instructions_spec(st, t) {
            None => None,
            Some((d, stack, pending, ok)) => Some(
                (
                    ForthState {
                        stack,
                        stack_size: st.stack_size,
                        words: d,
                        pending: pending_after(pending),
                        definition: st.definition,
                    },
                    rendered(pending),
                    ok,
                ),
            ),
        },
    }
}

/// How a line changes the definition being typed: a line starting with `:`
/// is added to it as it is, any line while a definition is open is added
/// after a space; returns whether the line went into the definition.
pub open spec fn update_buffer_spec(definition: Seq<char>, line: Seq<char>) -> (bool, Seq<char>) {
    if line.len() > 0 && line[0] == ':' {
        (true, definition + line)
    } else if definition.len() > 0 {
        (true, definition + seq![' '] + line)
    } else {
        (false, definition)
    }
}

/// What interpreting one line does: the state after it, the text written and
/// whether it succeeded. A definition is run once the text gathered for it
/// ends with `;`. `None` where the line cannot be run to its end.
pub open spec fn interpret_spec(st: ForthState, line: Seq<char>) -> Option<(ForthState, Seq<char>, bool)> {
    let (buffered, definition) = update_buffer_spec(st.definition, line);
    if buffered {
        if definition.len() > 0 && definition.last() == ';' {
            run_text(
                ForthState {
                    stack: st.stack,
                    stack_size: st.stack_size,
                    words: st.words,
                    pending: st.pending,
                    definition: Seq::empty(),
                },
                definition,
            )
        } else {
            Some(
                (
                    ForthState {
                        stack: st.stack,
                        stack_size: st.stack_size,
                        words: st.words,
                        pending: st.pending,
                        definition,
                    },
                    Seq::empty(),
                    true,
                ),
            )
        }
    } else {
        run_text(st, line)
    }
}

impl Forth79 {
    /// A fresh interpreter: empty stack, no words, nothing pending, and a
    /// stack that may grow to `usize::MAX` items.
    pub fn new() -> (f: Forth79)
        ensures
            f@.stack == Seq::<i16>::empty(),
            f@.stack_size == usize::MAX as nat,
            f@.words == Map::<Seq<char>, Body>::empty(),
            f@.pending == Seq::<Seq<char>>::empty(),
            f@.definition == Seq::<char>::empty(),
    {
        let f = Forth79 {
            stack: Stack::new(),
            words: Dictionary::new(),
            stack_size: usize::MAX,
            buffer_aux: Vec::new(),
            if_buffer: String::new(),
        };
        assert(strings_view(f.buffer_aux@) =~= Seq::<Seq<char>>::empty());
        f
    }

    /// The operation a token stands for.
    fn token_to_op(&self, token: &String) -> (op: Operation)
        requires
            token_op(token@) is Some,
        ensures
            op.op() == token_op(token@)->0,
    {
        if token_is(token, "+") {
            Operation::Add
        } else if token_is(token, "-") {
            Operation::Sub
        } else if token_is(token, "*") {
            Operation::Mul
        } else if token_is(token, "/") {
            Operation::Div
        } else if token_is(token, "DUP") {
            Operation::Dup
        } else if token_is(token, "DROP") {
            Operation::Drop
        } else if token_is(token, "SWAP") {
            Operation::Swap
        } else if token_is(token, "OVER") {
            Operation::Over
        } else if token_is(token, "ROT") {
            Operation::Rot
        } else if token_is(token, ".") {
            Operation::Dot
        } else if token_is(token, "EMIT") {
            Operation::Emit
        } else if token_is(token, "CR") {
            Operation::Cr
        } else if token_is(token, "=") {
            Operation::Eq
        } else if token_is(token, "<") {
            Operation::Lt
        } else if token_is(token, ">") {
            Operation::Gt
        } else if token_is(token, "AND") {
            Operation::And
        } else if token_is(token, "OR") {
            Operation::Or
        } else if token_is(token, "NOT") {
            Operation::Not
        } else if token_is(token, "IF") {
            let r = Operation::BranchIf(Vec::new(), Vec::new());
            assert(ops_of(Seq::<Operation>::empty()) =~= Seq::<Op>::empty());
            r
        } else if token_is(token, "ELSE") {
            Operation::BranchElse
        } else if token_is(token, "THEN") {
            Operation::BranchEnd
        } else {
            assert(keyword_op(token@) is None);
            let chars = chars_of(token.as_str());
            match parse_i16(&chars) {
                Some(n) => Operation::N(n),
                None => {
                    let n = chars.len();
                    if n >= 2 && chars[0] == '.' && chars[1] == '"' {
                        assert(starts_print(token@));
                        assert(print_cut_ok(token@));
                        let mut inner: Vec<char> = Vec::new();
                        let mut k: usize = 3;
                        while k < n - 1
                            invariant
                                3 <= k <= n - 1,
                                n == chars@.len(),
                                inner@ == chars@.subrange(3, k as int),
                            decreases n - 1 - k,
                        {
                            inner.push(chars[k]);
                            assert(chars@.subrange(3, k + 1) =~= chars@.subrange(3, k as int).push(
                                chars@[k as int],
                            ));
                            k += 1;
                        }
                        let text = string_of(&inner);
                        let cut = trim(text.as_str());
                        Operation::Print(String::from_str(cut))
                    } else {
                        Operation::Unknown
                    }
                },
            }
        }
    }

    /// Replaces the word at index `i` by its definition.
    fn expand_token(&self, tokens: &mut Vec<String>, i: usize)
        requires
            i < old(tokens)@.len(),
            self.words@.contains_key(old(tokens)@[i as int]@),
        ensures
            strings_view(final(tokens)@) == strings_view(old(tokens)@).take(i as int) + self.words@[old(
                tokens,
            )@[i as int]@] + strings_view(old(tokens)@).skip(i + 1),
    {
        let ghost t0 = strings_view(tokens@);
        let def = match self.words.get(&tokens[i]) {
            Some(d) => d,
            None => {
                return;
            },
        };
        let ghost body = strings_view(def@);
        let mut tokens_added: usize = 0;
        while tokens_added < def.len()
            invariant
                tokens_added <= def@.len(),
                i < t0.len(),
                body == strings_view(def@),
                tokens@.len() == t0.len() + tokens_added,
                strings_view(tokens@) == t0.take(i as int) + body.take(tokens_added as int) + t0.skip(
                    i as int,
                ),
            decreases def@.len() - tokens_added,
        {
            let s = def[tokens_added].clone();
            let ghost before = tokens@;
            let len = tokens.len();
            tokens.insert(i + tokens_added, s);
            assert(strings_view(tokens@) =~= t0.take(i as int) + body.take(tokens_added + 1) + t0.skip(
                i as int,
            )) by {
                assert(strings_view(before).insert(i + tokens_added, s@) =~= strings_view(tokens@));
            }
            tokens_added += 1;
        }
        assert(body.take(def@.len() as int) =~= body);
        let ghost before = tokens@;
        let len = tokens.len();
        tokens.remove(i + tokens_added);
        assert(strings_view(tokens@) =~= strings_view(before).remove(i + tokens_added));
        assert(strings_view(tokens@) =~= t0.take(i as int) + body + t0.skip(i + 1));
    }

    /// Parses tokens into operations: defined words are expanded in place,
    /// `IF` blocks are nested, every other token becomes an operation.
    fn parse_line(&self, tokens: &mut Vec<String>, Ghost(fuel): Ghost<nat>) -> (res: Vec<Operation>)
        requires
            parse_f(self.words@, strings_view(old(tokens)@), fuel) is Some,
        ensures
            ops_of(res@) == parse_f(self.words@, strings_view(old(tokens)@), fuel)->0,
            strings_view(final(tokens)@) == expanded_f(self.words@, strings_view(old(tokens)@), fuel),
        decreases fuel, 2nat,
    {
        let ghost d = self.words@;
        let ghost goal = parse_f(d, strings_view(tokens@), fuel)->0;
        let ghost left = expanded_f(d, strings_view(tokens@), fuel);
        let mut res: Vec<Operation> = Vec::new();
        let mut i: usize = 0;
        let ghost mut fc: nat = fuel;
        proof {
            assert(strings_view(tokens@).skip(0) =~= strings_view(tokens@));
            assert(strings_view(tokens@).take(0) =~= Seq::<Seq<char>>::empty());
            assert(ops_of(res@) =~= Seq::<Op>::empty());
        }
        while i < tokens.len()
            invariant
                d == self.words@,
                i <= tokens@.len(),
                fc <= fuel,
                parse_f(d, strings_view(tokens@).skip(i as int), fc) is Some,
                goal == ops_of(res@) + parse_f(d, strings_view(tokens@).skip(i as int), fc)->0,
                left == strings_view(tokens@).take(i as int) + expanded_f(d, strings_view(tokens@).skip(i as int), fc),
            decreases fc,
        {
            let ghost rest = strings_view(tokens@).skip(i as int);
            let ghost t0 = strings_view(tokens@);
            assert(rest[0] == tokens@[i as int]@);
            proof {
                lemma_ops_of(res@);
            }
            if self.words.contains(&tokens[i]) {
                self.expand_token(tokens, i);
                proof {
                    assert(fc >= 1);
                    assert(parse_f(d, rest, fc) == parse_f(d, d[rest[0]] + rest.drop_first(), (fc - 1) as nat));
                    assert(expanded_f(d, rest, fc) == expanded_f(d, d[rest[0]] + rest.drop_first(), (fc - 1) as nat));
                    assert(rest.drop_first() =~= t0.skip(i + 1));
                    assert(strings_view(tokens@).skip(i as int) =~= d[rest[0]] + rest.drop_first());
                    assert(strings_view(tokens@).take(i as int) =~= t0.take(i as int));
                    fc = (fc - 1) as nat;
                }
                continue;
            }
            if token_is(&tokens[i], "IF") {
                let ghost before = ops_of(res@);
                proof {
                    lemma_if_token();
                }
                self.push_if_token(tokens, &mut i, &mut res, Ghost(fc));
                proof {
                    let (yes, k1) = collect(rest, 1, 1, true);
                    let (no, k2) = collect(rest, k1, 1, false);
                    assert(strings_view(tokens@).skip(i as int) =~= rest.skip(k2 as int));
                    assert(parse_f(d, rest, fc)->0 == seq![
                        Op::If(parse_f(d, yes, (fc - 1) as nat)->0, parse_f(d, no, (fc - 1) as nat)->0),
                    ] + parse_f(d, rest.skip(k2 as int), (fc - 1) as nat)->0);
                    assert(ops_of(res@) == before.push(
                        Op::If(parse_f(d, yes, (fc - 1) as nat)->0, parse_f(d, no, (fc - 1) as nat)->0),
                    ));
                    assert(expanded_f(d, rest, fc) == rest.take(k2 as int) + expanded_f(d, rest.skip(k2 as int), (fc - 1) as nat));
                    assert(t0.take(i as int) =~= t0.take((i - k2) as int) + rest.take(k2 as int));
                    fc = (fc - 1) as nat;
                }
            } else {
                let op = self.token_to_op(&tokens[i]);
                let ghost before = res@;
                res.push(op);
                proof {
                    lemma_ops_of(res@);
                    lemma_ops_of(before);
                    assert(ops_of(res@) =~= ops_of(before) + seq![op.op()]);
                    assert(rest.drop_first() =~= strings_view(tokens@).skip(i + 1));
                    assert(expanded_f(d, rest, fc) == seq![rest[0]] + expanded_f(d, rest.drop_first(), (fc - 1) as nat));
                    assert(t0.take(i + 1) =~= t0.take(i as int).push(rest[0]));
                    fc = (fc - 1) as nat;
                }
                i += 1;
            }
        }
        proof {
            assert(strings_view(tokens@).skip(i as int) =~= Seq::<Seq<char>>::empty());
            assert(strings_view(tokens@).take(i as int) =~= strings_view(tokens@));
            assert(goal =~= ops_of(res@));
            assert(left =~= strings_view(tokens@));
        }
        res
    }

    /// Queues the operation of the token at index `*i`. For `IF` it parses
    /// the block: both branches, then the block's operation is queued and
    /// `*i` left after the block; any other token's operation is queued and
    /// `*i` left as it was.
    fn push_if_token(
        &self,
        tokens: &Vec<String>,
        i: &mut usize,
        res: &mut Vec<Operation>,
        Ghost(fuel): Ghost<nat>,
    )
        requires
            *old(i) < tokens@.len(),
            token_op(tokens@[*old(i) as int]@) is Some,
            tokens@[*old(i) as int]@ == "IF"@ ==> ({
                let t = strings_view(tokens@).skip(*old(i) as int);
                let (yes, k1) = collect(t, 1, 1, true);
                let (no, k2) = collect(t, k1, 1, false);
                &&& fuel >= 1
                &&& parse_f(self.words@, yes, (fuel - 1) as nat) is Some
                &&& parse_f(self.words@, no, (fuel - 1) as nat) is Some
            }),
        ensures
            tokens@[*old(i) as int]@ == "IF"@ ==> ({
                let t = strings_view(tokens@).skip(*old(i) as int);
                let (yes, k1) = collect(t, 1, 1, true);
                let (no, k2) = collect(t, k1, 1, false);
                &&& *final(i) == *old(i) + k2
                &&& *final(i) <= tokens@.len()
                &&& ops_of(final(res)@) == ops_of(old(res)@).push(
                    Op::If(
                        parse_f(self.words@, yes, (fuel - 1) as nat)->0,
                        parse_f(self.words@, no, (fuel - 1) as nat)->0,
                    ),
                )
            }),
            tokens@[*old(i) as int]@ != "IF"@ ==> *final(i) == *old(i) && ops_of(final(res)@) == ops_of(
                old(res)@,
            ).push(token_op(tokens@[*old(i) as int]@)->0),
        decreases fuel, 1nat,
    {
        let ghost t = strings_view(tokens@).skip(*i as int);
        let ghost start = *i as int;
        let ghost before = res@;
        let if_operator = self.token_to_op(&tokens[*i]);
        match if_operator {
            Operation::BranchIf(mut yes, mut no) => {
                proof {
                    lemma_only_if_token(tokens@[start]@);
                }
                assert(t.len() > 0 && t[0] == "IF"@);
                let n = tokens.len();
                *i += 1;
                proof {
                    lemma_collect_shift(strings_view(tokens@), start, 1, 1, true);
                    lemma_collect_bound(t, 1, 1, true);
                    let k1 = collect(t, 1, 1, true).1;
                    lemma_collect_shift(strings_view(tokens@), start, k1, 1, false);
                    lemma_collect_bound(t, k1, 1, false);
                }
                self.push_branch(tokens, i, &mut yes, true, Ghost((fuel - 1) as nat));
                self.push_branch(tokens, i, &mut no, false, Ghost((fuel - 1) as nat));
                let branch = Operation::BranchIf(yes, no);
                res.push(branch);
                proof {
                    lemma_ops_of(res@);
                    lemma_ops_of(before);
                    assert(ops_of(res@) =~= ops_of(before).push(branch.op()));
                }
            },
            other => {
                let ghost o = other;
                proof {
                    if tokens@[start]@ == "IF"@ {
                        lemma_if_token();
                    }
                }
                res.push(other);
                proof {
                    lemma_ops_of(res@);
                    lemma_ops_of(before);
                    assert(ops_of(res@) =~= ops_of(before).push(o.op()));
                }
            },
        }
    }

    /// Collects the tokens of one branch from index `*i`, up to and including
    /// the delimiter that closes it (`THEN`, or `ELSE` as well when
    /// `stop_at_else`), and appends what they parse to to `operations`.
    fn push_branch(
        &self,
        tokens: &Vec<String>,
        i: &mut usize,
        operations: &mut Vec<Operation>,
        stop_at_else: bool,
        Ghost(fuel): Ghost<nat>,
    )
        requires
            *old(i) <= tokens@.len(),
            parse_f(
                self.words@,
                collect(strings_view(tokens@), *old(i) as nat, 1, stop_at_else).0,
                fuel,
            ) is Some,
        ensures
            *final(i) == collect(strings_view(tokens@), *old(i) as nat, 1, stop_at_else).1,
            ops_of(final(operations)@) == ops_of(old(operations)@) + parse_f(
                self.words@,
                collect(strings_view(tokens@), *old(i) as nat, 1, stop_at_else).0,
                fuel,
            )->0,
        decreases fuel + 1, 0nat,
    {
        let ghost t = strings_view(tokens@);
        let ghost whole = collect(t, *i as nat, 1, stop_at_else);
        let mut tokens_aux: Vec<String> = Vec::new();
        let mut j: u128 = 1;
        while j != 0 && *i < tokens.len()
            invariant
                *i <= t.len(),
                t == strings_view(tokens@),
                whole.0 == strings_view(tokens_aux@) + collect(t, *i as nat, j as nat, stop_at_else).0,
                whole.1 == collect(t, *i as nat, j as nat, stop_at_else).1,
                j <= *i + 1,
            decreases t.len() - *i,
        {
            let tok = &tokens[*i];
            let ghost old_j = j;
            assert(tok@ == t[*i as int]);
            let ghost before = tokens_aux@;
            tokens_aux.push(tok.clone());
            if token_is(tok, "IF") {
                j += 1;
            }
            let is_then = token_is(tok, "THEN");
            let is_else = token_is(tok, "ELSE");
            if is_then || (stop_at_else && is_else) {
                j -= 1;
            }
            *i += 1;
            assert(strings_view(tokens_aux@) =~= strings_view(before).push(tok@));
            assert(collect(t, (*i - 1) as nat, old_j as nat, stop_at_else).0 =~= seq![tok@] + collect(
                t,
                *i as nat,
                j as nat,
                stop_at_else,
            ).0);
        }
        let mut branch_operations = self.parse_line(&mut tokens_aux, Ghost(fuel));
        let ghost before = operations@;
        let ghost added = branch_operations@;
        operations.append(&mut branch_operations);
        proof {
            lemma_ops_of(operations@);
            lemma_ops_of(before);
            lemma_ops_of(added);
            assert(ops_of(operations@) =~= ops_of(before) + ops_of(added));
        }
    }

    /// Sets the stack's memory, in bytes: the stack may then hold
    /// `size / 2` items of two bytes each.
    pub fn set_stack_size(&mut self, size: usize)
        ensures
            final(self)@.stack_size == (size / 2) as nat,
            final(self)@.stack == old(self)@.stack,
            final(self)@.words == old(self)@.words,
            final(self)@.pending == old(self)@.pending,
            final(self)@.definition == old(self)@.definition,
    {
        self.stack_size = size / 2;
    }

    /// Keeps track of definitions: a line of tokens `: name body ;` defines
    /// `name`. Returns `1` for a line that is no definition, `0` for an
    /// attempt to define a number, `-1` once the word is defined.
    fn update_word(&mut self, line: &Vec<String>) -> (code: i16)
        requires
            update_word_spec(old(self)@.words, strings_view(line@)) is Some,
        ensures
            ({
                let r = update_word_spec(old(self)@.words, strings_view(line@))->0;
                code == r.0 && final(self)@.words == r.1
            }),
            final(self)@.stack == old(self)@.stack,
            final(self)@.stack_size == old(self)@.stack_size,
            final(self)@.pending == old(self)@.pending,
            final(self)@.definition == old(self)@.definition,
    {
        let ghost t = strings_view(line@);
        assert(t[0] == line@[0]@);
        if !token_is(&line[0], ":") {
            return 1;
        }
        assert(t[1] == line@[1]@);
        if is_numerical(&line[1]) {
            return 0;
        }
        if self.words.contains(&line[1]) {
            self.words = replace_occurrences(&self.words);
        }
        let ghost d1 = self.words@;
        let ghost name = t[1];
        let ghost body = t.subrange(2, t.len() - 1);
        let mut aux: Vec<String> = Vec::new();
        let end = line.len() - 1;
        let mut k: usize = 2;
        assert(body.take(0) =~= Seq::<Seq<char>>::empty());
        assert(own_body(d1, name, Seq::empty()) =~= Seq::<Seq<char>>::empty());
        while k < end
            invariant
                2 <= k <= end,
                end == line@.len() - 1,
                t == strings_view(line@),
                d1 == self.words@,
                name == t[1],
                body == t.subrange(2, t.len() - 1),
                strings_view(aux@) == own_body(d1, name, body.take(k - 2)),
            decreases end - k,
        {
            let token = &line[k];
            assert(token@ == body[k - 2]);
            proof {
                lemma_own_body_push(d1, name, body.take(k - 2), token@);
                assert(body.take(k - 1) =~= body.take(k - 2).push(token@));
            }
            if *token == line[1] {
                match self.words.get(token) {
                    Some(v) => {
                        append_strings(&mut aux, v);
                    },
                    None => {
                        assert(own_token(d1, name, token@) =~= Seq::<Seq<char>>::empty());
                    },
                }
            } else {
                let ghost b = aux@;
                aux.push(token.clone());
                assert(strings_view(aux@) =~= strings_view(b) + own_token(d1, name, token@));
            }
            k += 1;
        }
        assert(body.take(end - 2) =~= body);
        self.words.insert(line[1].clone(), aux);
        -1
    }

    /// Runs a line of tokens: a definition updates the dictionary, any other
    /// line is parsed and its operations run until one fails. Returns whether
    /// the line succeeded.
    fn run_instructions(&mut self, line: &mut Vec<String>) -> (ok: bool)
        requires
            run_instructions_spec(old(self)@, strings_view(old(line)@)) is Some,
        ensures
            ({
                let r = run_instructions_spec(old(self)@, strings_view(old(line)@))->0;
                &&& final(self)@.words == r.0
                &&& final(self)@.stack == r.1
                &&& final(self)@.pending == r.2
                &&& ok == r.3
                &&& final(self)@.stack_size == old(self)@.stack_size
                &&& final(self)@.definition == old(self)@.definition
            }),
    {
        let ghost st = self@;
        let ghost t = strings_view(line@);
        let updated_word_code: i16 = self.update_word(line);
        if updated_word_code == 0 {
            return Error::InvalidWord.throw_error(&mut self.buffer_aux);
        }
        if updated_word_code == -1 {
            return true;
        }
        let ghost fuel = choose|fuel: nat| #[trigger] parse_f(st.words, t, fuel) is Some;
        let tokens = self.parse_line(line, Ghost(fuel));
        apply_all(&tokens, &mut self.stack, self.stack_size, &mut self.buffer_aux)
    }

    /// Adds the line to the definition being typed, when it starts one or one
    /// is open. Returns whether it did.
    fn update_buffer(&mut self, line: &String) -> (r: bool)
        ensures
            (r, final(self)@.definition) == update_buffer_spec(old(self)@.definition, line@),
            final(self)@.stack == old(self)@.stack,
            final(self)@.stack_size == old(self)@.stack_size,
            final(self)@.words == old(self)@.words,
            final(self)@.pending == old(self)@.pending,
    {
        let chars = chars_of(line.as_str());
        if chars.len() > 0 && chars[0] == ':' {
            self.if_buffer.append(line.as_str());
            return true;
        }
        let current = chars_of(self.if_buffer.as_str());
        if current.len() > 0 {
            self.if_buffer.append(" ");
            self.if_buffer.append(line.as_str());
            proof {
                reveal_strlit(" ");
            }
            return true;
        }
        false
    }

    /// Tokenizes the line (or, with `flush`, the definition gathered so far,
    /// which is then cleared), runs it and writes out the pending output.
    fn tokenize_and_print(&mut self, line: &String, flush: bool, buffer: &mut Vec<u8>) -> (ok: bool)
        requires
            run_text(
                if flush {
                    ForthState {
                        stack: old(self)@.stack,
                        stack_size: old(self)@.stack_size,
                        words: old(self)@.words,
                        pending: old(self)@.pending,
                        definition: Seq::empty(),
                    }
                } else {
                    old(self)@
                },
                if flush {
                    old(self)@.definition
                } else {
                    line@
                },
            ) is Some,
        ensures
            ({
                let r = run_text(
                    if flush {
                        ForthState {
                            stack: old(self)@.stack,
                            stack_size: old(self)@.stack_size,
                            words: old(self)@.words,
                            pending: old(self)@.pending,
                            definition: Seq::empty(),
                        }
                    } else {
                        old(self)@
                    },
                    if flush {
                        old(self)@.definition
                    } else {
                        line@
                    },
                )->0;
                &&& final(self)@ == r.0
                &&& final(buffer)@ == old(buffer)@ + vstd::utf8::encode_utf8(r.1)
                &&& ok == r.2
            }),
    {
        let tokens = if flush {
            tokenize_checked(&self.if_buffer)
        } else {
            tokenize_checked(line)
        };
        let mut tokens = match tokens {
            Some(t) => t,
            None => {
                return false;
            },
        };
        if flush {
            self.if_buffer = String::new();
        }
        let ins_state: bool = self.run_instructions(&mut tokens);
        print_buffer(buffer, &mut self.buffer_aux);
        ins_state
    }

    /// Interprets one line, writing what it prints to `buffer`. A line
    /// starting with `:` opens a definition, which gathers lines until it
    /// ends with `;` and is then run. Returns whether the line succeeded.
    pub fn interpret_line(&mut self, line: String, buffer: &mut Vec<u8>) -> (ok: bool)
        requires
            interpret_spec(old(self)@, line@) is Some,
        ensures
            ({
                let r = interpret_spec(old(self)@, line@)->0;
                &&& final(self)@ == r.0
                &&& final(buffer)@ == old(buffer)@ + vstd::utf8::encode_utf8(r.1)
                &&& ok == r.2
            }),
    {
        if self.update_buffer(&line) {
            let chars = chars_of(self.if_buffer.as_str());
            if chars.len() > 0 && chars[chars.len() - 1] == ';' {
                return self.tokenize_and_print(&line, true, buffer);
            }
            assert(buffer@ =~= old(buffer)@ + vstd::utf8::encode_utf8(Seq::<char>::empty()));
            return true;
        }
        self.tokenize_and_print(&line, false, buffer)
    }

    /// The items of the stack, bottom first.
    pub fn get_stack_state(&self) -> (v: Vec<i16>)
        ensures
            v@ == self@.stack,
    {
        self.stack.get_items()
    }

    /// The items of the stack, in decimal, bottom first, separated by spaces.
    pub fn get_stack_output(&self) -> (s: String)
        ensures
            s@ == joined(self@.stack),
    {
        let state = self.get_stack_state();
        let mut out = String::new();
        let mut k: usize = 0;
        while k < state.len()
            invariant
                k <= state@.len(),
                state@ == self@.stack,
                out@ == joined(state@.take(k as int)),
            decreases state@.len() - k,
        {
            let item = i16_to_string(state[k]);
            assert(state@.take(k + 1).drop_last() =~= state@.take(k as int));
            if k > 0 {
                out.append(" ");
                proof {
                    reveal_strlit(" ");
                }
            } else {
                assert(state@.take(0) =~= Seq::<i16>::empty());
            }
            out.append(item.as_str());
            k += 1;
        }
        assert(state@.take(state@.len() as int) =~= state@);
        out
    }

    /// The most items the stack may hold.
    pub fn stack_size(&self) -> (n: usize)
        ensures
            n == self@.stack_size,
    {
        self.stack_size
    }

    /// The definition of a word, if it is defined.
    pub fn word_definition(&self, name: &str) -> (r: Option<Vec<String>>)
        ensures
            r is Some <==> self@.words.contains_key(name@),
            r matches Some(b) ==> strings_view(b@) == self@.words[name@],
    {
        let key = String::from_str(name);
        match self.words.get(&key) {
            Some(b) => {
                let mut copy: Vec<String> = Vec::new();
                append_strings(&mut copy, b);
                assert(strings_view(copy@) =~= strings_view(b@));
                Some(copy)
            },
            None => None,
        }
    }

    /// Whether no word is defined.
    pub fn has_no_words(&self) -> (r: bool)
        ensures
            r == (self@.words.dom() == Set::<Seq<char>>::empty()),
    {
        self.words.is_empty()
    }

    /// Whether no output is waiting to be written.
    pub fn has_no_pending_output(&self) -> (r: bool)
        ensures
            r == (self@.pending.len() == 0),
    {
        self.buffer_aux.len() == 0
    }

    /// The definition being typed over several lines, as gathered so far.
    pub fn pending_definition(&self) -> (s: String)
        ensures
            s@ == self@.definition,
    {
        self.if_buffer.clone()
    }

    /// Whether running these tokens comes to an end: the line must hold at
    /// least the tokens its first ones start, and a line that is no
    /// definition must parse.
    fn tokens_runnable(&self, t: &Vec<String>) -> (r: bool)
        ensures
            forall|st: ForthState|
                st.words == self@.words ==> (r == #[trigger] run_instructions_spec(st, strings_view(t@)) is Some),
    {
        let ghost tv = strings_view(t@);
        let ghost d = self@.words;
        if t.len() == 0 {
            return false;
        }
        assert(tv[0] == t@[0]@);
        if !token_is(&t[0], ":") {
            let gr = self.words.ground();
            let ok = self.words.all_fine_with(&gr, t);
            proof {
                if ok {
                    crate::halting::lemma_parses(d, gr.good@, gr.rank@, gr.bound@, tv);
                } else {
                    crate::halting::lemma_no_parse(d, gr.good@, tv);
                }
            }
            return ok;
        }
        if t.len() < 2 {
            return false;
        }
        assert(tv[1] == t@[1]@);
        if is_numerical(&t[1]) {
            return true;
        }
        t.len() >= 3
    }

    /// Whether interpreting the line comes to an end: it does unless a
    /// printed string is never closed, a line is empty or too short for the
    /// definition it starts, a printed string's text cannot be cut out, or a
    /// word's expansion never ends.
    pub fn can_interpret(&self, line: &String) -> (r: bool)
        ensures
            r == interpret_spec(self@, line@) is Some,
    {
        let lchars = chars_of(line.as_str());
        let dchars = chars_of(self.if_buffer.as_str());
        let mut text = self.if_buffer.clone();
        let buffered = if lchars.len() > 0 && lchars[0] == ':' {
            text.append(line.as_str());
            true
        } else if dchars.len() > 0 {
            text.append(" ");
            text.append(line.as_str());
            proof {
                reveal_strlit(" ");
            }
            true
        } else {
            text = line.clone();
            false
        };
        assert(buffered ==> (buffered, text@) == update_buffer_spec(self@.definition, line@));
        assert(!buffered ==> !update_buffer_spec(self@.definition, line@).0);
        if buffered {
            let tc = chars_of(text.as_str());
            if !(tc.len() > 0 && tc[tc.len() - 1] == ';') {
                return true;
            }
        }
        match tokenize_checked(&text) {
            None => false,
            Some(t) => self.tokens_runnable(&t),
        }
    }

    /// Interprets one line as `interpret_line` does where that comes to an
    /// end (see `can_interpret`), returning whether it succeeded; elsewhere
    /// returns `None` and leaves the interpreter and the buffer as they were.
    pub fn try_interpret_line(&mut self, line: String, buffer: &mut Vec<u8>) -> (r: Option<bool>)
        ensures
            r is None <==> interpret_spec(old(self)@, line@) is None,
            r is None ==> final(self)@ == old(self)@ && final(buffer)@ == old(buffer)@,
            r matches Some(ok) ==> ({
                let s = interpret_spec(old(self)@, line@)->0;
                &&& final(self)@ == s.0
                &&& final(buffer)@ == old(buffer)@ + vstd::utf8::encode_utf8(s.1)
                &&& ok == s.2
            }),
    {
        if self.can_interpret(&line) {
            Some(self.interpret_line(line, buffer))
        } else {
            None
        }
    }
}

} // verus!
