//! What a sequence of tokens parses to: the words of the dictionary are
//! expanded, `IF ... ELSE ... THEN` blocks are nested, and each remaining
//! token becomes an operation.
use vstd::prelude::*;
use crate::dictionary::Body;
use crate::operation::Op;
use crate::text::parse_i16_spec;

verus! {

/// Whether a character has Unicode's White_Space property, which
/// `char::is_whitespace` tests and `str::trim` strips.
pub open spec fn is_white_space(c: char) -> bool {
    let u = c as u32;
    ||| 0x9 <= u <= 0xD
    ||| u == 0x20
    ||| u == 0x85
    ||| u == 0xA0
    ||| u == 0x1680
    ||| 0x2000 <= u <= 0x200A
    ||| u == 0x2028
    ||| u == 0x2029
    ||| u == 0x202F
    ||| u == 0x205F
    ||| u == 0x3000
}

/// The characters without their leading white space.
pub open spec fn trim_start(s: Seq<char>) -> Seq<char>
    decreases s.len(),
{
    if s.len() > 0 && is_white_space(s[0]) {
        trim_start(s.drop_first())
    } else {
        s
    }
}

/// The characters without their trailing white space.
pub open spec fn trim_end(s: Seq<char>) -> Seq<char>
    decreases s.len(),
{
    if s.len() > 0 && is_white_space(s.last()) {
        trim_end(s.drop_last())
    } else {
        s
    }
}

/// What `str::trim` returns for the given characters: without leading and
/// trailing white space.
pub open spec fn trimmed(s: Seq<char>) -> Seq<char> {
    trim_end(trim_start(s))
}

/// The operation a keyword stands for.
pub open spec fn keyword_op(t: Seq<char>) -> Option<Op> {
    if t == "+"@ {
        Some(Op::Add)
    } else if t == "-"@ {
        Some(Op::Sub)
    } else if t == "*"@ {
        Some(Op::Mul)
    } else if t == "/"@ {
        Some(Op::Div)
    } else if t == "DUP"@ {
        Some(Op::Dup)
    } else if t == "DROP"@ {
        Some(Op::Drop)
    } else if t == "SWAP"@ {
        Some(Op::Swap)
    } else if t == "OVER"@ {
        Some(Op::Over)
    } else if t == "ROT"@ {
        Some(Op::Rot)
    } else if t == "."@ {
        Some(Op::Dot)
    } else if t == "EMIT"@ {
        Some(Op::Emit)
    } else if t == "CR"@ {
        Some(Op::Cr)
    } else if t == "="@ {
        Some(Op::Eq)
    } else if t == "<"@ {
        Some(Op::Lt)
    } else if t == ">"@ {
        Some(Op::Gt)
    } else if t == "AND"@ {
        Some(Op::And)
    } else if t == "OR"@ {
        Some(Op::Or)
    } else if t == "NOT"@ {
        Some(Op::Not)
    } else if t == "IF"@ {
        Some(Op::If(Seq::empty(), Seq::empty()))
    } else if t == "ELSE"@ {
        Some(Op::Else)
    } else if t == "THEN"@ {
        Some(Op::Then)
    } else {
        None
    }
}

/// Whether a token starts like a printed string: `."`.
pub open spec fn starts_print(t: Seq<char>) -> bool {
    t.len() >= 2 && t[0] == '.' && t[1] == '"'
}

/// Whether the text between `." ` and the closing `"` of a printed-string
/// token can be cut out: the token has room for it and the cut falls on
/// character boundaries (one-byte characters on both sides).
pub open spec fn print_cut_ok(t: Seq<char>) -> bool {
    t.len() >= 4 && (t[2] as u32) < 0x80 && (t.last() as u32) < 0x80
}

/// The operation a single token becomes; `None` where the token looks like a
/// printed string whose text cannot be cut out.
pub open spec fn token_op(t: Seq<char>) -> Option<Op> {
    match keyword_op(t) {
        Some(op) => Some(op),
        None => match parse_i16_spec(t) {
            Some(n) => Some(Op::Num(n)),
            None => if starts_print(t) {
                if print_cut_ok(t) {
                    Some(Op::Print(trimmed(t.subrange(3, t.len() - 1))))
                } else {
                    None
                }
            } else {
                Some(Op::Unknown)
            },
        },
    }
}

/// Whether a token ends a branch: `THEN`, and `ELSE` for the first branch.
pub open spec fn is_delimiter(t: Seq<char>, stop_at_else: bool) -> bool {
    t == "THEN"@ || (stop_at_else && t == "ELSE"@)
}

/// The tokens of one branch, taken from index `i` on: up to and including
/// the delimiter that closes it, nested `IF`s opening further levels.
/// Returns the branch and the index after it.
pub open spec fn collect(t: Seq<Seq<char>>, i: nat, depth: nat, stop_at_else: bool) -> (Seq<Seq<char>>, nat)
    decreases t.len() - i,
{
    if depth == 0 || i >= t.len() {
        (Seq::empty(), i)
    } else {
        let tok = t[i as int];
        let up: nat = if tok == "IF"@ { 1 } else { 0 };
        let down: nat = if is_delimiter(tok, stop_at_else) { 1 } else { 0 };
        let next = collect(t, i + 1, (depth + up - down) as nat, stop_at_else);
        (seq![tok] + next.0, next.1)
    }
}

/// The operations the tokens parse to, with at most `fuel` steps; `None` where
/// that is not enough, or where a token cannot become an operation.
/// A defined word is replaced by its definition, which is then parsed in turn;
/// `IF` takes the branch up to `ELSE` or `THEN` and the one up to `THEN`.
pub open spec fn parse_f(d: Map<Seq<char>, Body>, t: Seq<Seq<char>>, fuel: nat) -> Option<Seq<Op>>
    decreases fuel,
{
    if t.len() == 0 {
        Some(Seq::empty())
    } else if fuel == 0 {
        None
    } else if d.contains_key(t[0]) {
        parse_f(d, d[t[0]] + t.drop_first(), (fuel - 1) as nat)
    } else if t[0] == "IF"@ {
        let (yes, k1) = collect(t, 1, 1, true);
        let (no, k2) = collect(t, k1, 1, false);
        match parse_f(d, yes, (fuel - 1) as nat) {
            None => None,
            Some(a) => match parse_f(d, no, (fuel - 1) as nat) {
                None => None,
                Some(b) => match parse_f(d, t.skip(k2 as int), (fuel - 1) as nat) {
                    None => None,
                    Some(c) => Some(seq![Op::If(a, b)] + c),
                },
            },
        }
    } else {
        match token_op(t[0]) {
            None => None,
            Some(op) => match parse_f(d, t.drop_first(), (fuel - 1) as nat) {
                None => None,
                Some(r) => Some(seq![op] + r),
            },
        }
    }
}

/// The tokens left behind by parsing with at most `fuel` steps: defined
/// words are replaced by their definitions in place, an `IF` block's tokens
/// are kept as written (its branches are expanded on copies), and every
/// other token stays.
pub open spec fn expanded_f(d: Map<Seq<char>, Body>, t: Seq<Seq<char>>, fuel: nat) -> Seq<Seq<char>>
    decreases fuel,
{
    if t.len() == 0 || fuel == 0 {
        t
    } else if d.contains_key(t[0]) {
        expanded_f(d, d[t[0]] + t.drop_first(), (fuel - 1) as nat)
    } else if t[0] == "IF"@ {
        let k1 = collect(t, 1, 1, true).1;
        let k2 = collect(t, k1, 1, false).1;
        t.take(k2 as int) + expanded_f(d, t.skip(k2 as int), (fuel - 1) as nat)
    } else {
        seq![t[0]] + expanded_f(d, t.drop_first(), (fuel - 1) as nat)
    }
}

/// `IF` is a keyword: alone it becomes an `IF` block with empty branches.
pub proof fn lemma_if_token()
    ensures
        token_op("IF"@) == Some(Op::If(Seq::empty(), Seq::empty())),
{
    reveal_strlit("+");
    reveal_strlit("-");
    reveal_strlit("*");
    reveal_strlit("/");
    reveal_strlit("DUP");
    reveal_strlit("DROP");
    reveal_strlit("SWAP");
    reveal_strlit("OVER");
    reveal_strlit("ROT");
    reveal_strlit(".");
    reveal_strlit("EMIT");
    reveal_strlit("CR");
    reveal_strlit("=");
    reveal_strlit("<");
    reveal_strlit(">");
    reveal_strlit("AND");
    reveal_strlit("OR");
    reveal_strlit("NOT");
    reveal_strlit("IF");
}

/// Only `IF` becomes an `IF` block.
pub proof fn lemma_only_if_token(t: Seq<char>)
    requires
        token_op(t) is Some,
        token_op(t)->0 is If,
    ensures
        t == "IF"@,
{
}

/// Whether parsing the tokens comes to an end without a failure.
pub open spec fn parses(d: Map<Seq<char>, Body>, t: Seq<Seq<char>>) -> bool {
    exists|fuel: nat| #[trigger] parse_f(d, t, fuel) is Some
}

/// The operations the tokens parse to.
pub open spec fn parse_spec(d: Map<Seq<char>, Body>, t: Seq<Seq<char>>) -> Option<Seq<Op>> {
    if parses(d, t) {
        parse_f(d, t, choose|fuel: nat| #[trigger] parse_f(d, t, fuel) is Some)
    } else {
        None
    }
}

} // verus!
