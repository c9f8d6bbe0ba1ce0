//! When parsing comes to an end: a certificate that ranks the defined words,
//! each defined only by words of lower rank, shows that it does; a set of
//! words each of whose definitions uses a word of the set (or a token that
//! cannot be parsed) shows that it does not.
use vstd::prelude::*;
use crate::dictionary::Body;
use crate::syntax::{collect, is_delimiter, parse_f, parses, token_op};

verus! {

/// Whether a token can be parsed, given the set `g` of words known to parse:
/// a defined word must be in `g`; any other token must become an operation.
pub open spec fn fine(d: Map<Seq<char>, Body>, g: Set<Seq<char>>, x: Seq<char>) -> bool {
    if d.contains_key(x) {
        g.contains(x)
    } else {
        token_op(x) is Some
    }
}

/// Whether every token of a sequence is fine.
pub open spec fn all_fine(d: Map<Seq<char>, Body>, g: Set<Seq<char>>, t: Seq<Seq<char>>) -> bool {
    forall|i: int| 0 <= i < t.len() ==> fine(d, g, #[trigger] t[i])
}

/// A ranking of the words of `g`, each below `bound`: every word of `g` is
/// defined, and its definition uses only fine tokens, the words among them
/// of lower rank.
pub open spec fn ranked(d: Map<Seq<char>, Body>, g: Set<Seq<char>>, r: Map<Seq<char>, nat>, bound: nat) -> bool {
    forall|x: Seq<char>|
        #![trigger g.contains(x)]
        g.contains(x) ==> {
            &&& d.contains_key(x)
            &&& r.contains_key(x)
            &&& r[x] < bound
            &&& all_fine(d, g, d[x])
            &&& forall|i: int| 0 <= i < d[x].len() && d.contains_key(#[trigger] d[x][i]) ==> r[d[x][i]] < r[x]
        }
}

/// Every defined word outside `g` uses, in its definition, a token that is
/// not fine.
pub open spec fn stuck(d: Map<Seq<char>, Body>, g: Set<Seq<char>>) -> bool {
    forall|x: Seq<char>|
        #![trigger d.contains_key(x)]
        d.contains_key(x) && !g.contains(x) ==> exists|i: int| 0 <= i < d[x].len() && !fine(d, g, #[trigger] d[x][i])
}

/// The tokens of a branch are the tokens from where collecting starts to
/// where it ends.
pub proof fn lemma_collect_range(t: Seq<Seq<char>>, k: nat, depth: nat, stop_at_else: bool)
    requires
        k <= t.len(),
    ensures
        k <= collect(t, k, depth, stop_at_else).1 <= t.len(),
        collect(t, k, depth, stop_at_else).0 == t.subrange(k as int, collect(t, k, depth, stop_at_else).1 as int),
    decreases t.len() - k,
{
    if depth == 0 || k >= t.len() {
        assert(t.subrange(k as int, k as int) =~= Seq::<Seq<char>>::empty());
    } else {
        let tok = t[k as int];
        let up: nat = if tok == "IF"@ { 1 } else { 0 };
        let down: nat = if is_delimiter(tok, stop_at_else) { 1 } else { 0 };
        let nd = (depth + up - down) as nat;
        lemma_collect_range(t, k + 1, nd, stop_at_else);
        let e = collect(t, k + 1, nd, stop_at_else).1;
        assert(seq![tok] + t.subrange(k + 1int, e as int) =~= t.subrange(k as int, e as int));
    }
}

/// How an `IF` block splits the tokens after it: the first branch, the
/// second, and the rest, in order.
pub proof fn lemma_if_split(t: Seq<Seq<char>>)
    requires
        t.len() > 0,
    ensures
        ({
            let (yes, k1) = collect(t, 1, 1, true);
            let (no, k2) = collect(t, k1, 1, false);
            &&& 1 <= k1 <= k2 <= t.len()
            &&& yes == t.subrange(1, k1 as int)
            &&& no == t.subrange(k1 as int, k2 as int)
        }),
{
    lemma_collect_range(t, 1, 1, true);
    let k1 = collect(t, 1, 1, true).1;
    lemma_collect_range(t, k1, 1, false);
}

/// Parsing never ends well for tokens one of which is not fine, when the
/// words outside `g` are stuck.
pub proof fn lemma_never_parses(d: Map<Seq<char>, Body>, g: Set<Seq<char>>, t: Seq<Seq<char>>, fuel: nat)
    requires
        stuck(d, g),
        exists|i: int| 0 <= i < t.len() && !fine(d, g, #[trigger] t[i]),
    ensures
        parse_f(d, t, fuel) is None,
    decreases fuel,
{
    let i = choose|i: int| 0 <= i < t.len() && !fine(d, g, #[trigger] t[i]);
    if fuel == 0 {
        return;
    }
    let f1 = (fuel - 1) as nat;
    if d.contains_key(t[0]) {
        let next = d[t[0]] + t.drop_first();
        if i == 0 {
            let x = t[0];
            assert(d.contains_key(x) && !g.contains(x));
            let j = choose|j: int| 0 <= j < d[x].len() && !fine(d, g, #[trigger] d[x][j]);
            assert(next[j] == d[x][j]);
        } else {
            assert(next[d[t[0]].len() + i - 1] == t[i]);
        }
        lemma_never_parses(d, g, next, f1);
    } else if t[0] == "IF"@ {
        assert(token_op(t[0]) is Some);
        assert(i > 0);
        lemma_if_split(t);
        let (yes, k1) = collect(t, 1, 1, true);
        let (no, k2) = collect(t, k1, 1, false);
        if i < k1 {
            assert(yes[i - 1] == t[i]);
            lemma_never_parses(d, g, yes, f1);
        } else if i < k2 {
            assert(no[i - k1] == t[i]);
            lemma_never_parses(d, g, no, f1);
        } else {
            assert(t.skip(k2 as int)[i - k2] == t[i]);
            lemma_never_parses(d, g, t.skip(k2 as int), f1);
        }
    } else if token_op(t[0]) is Some {
        assert(i > 0);
        assert(t.drop_first()[i - 1] == t[i]);
        lemma_never_parses(d, g, t.drop_first(), f1);
    }
}

/// A weight of tokens that bounds the steps parsing takes: one per token,
/// plus the weight of each definition expanded, `n` levels deep.
pub open spec fn weight(d: Map<Seq<char>, Body>, l: Seq<Seq<char>>, n: nat) -> nat
    decreases n, l.len(),
{
    if l.len() == 0 {
        0
    } else {
        let head: nat = if n > 0 && d.contains_key(l[0]) {
            1 + weight(d, d[l[0]], (n - 1) as nat)
        } else {
            1
        };
        head + weight(d, l.drop_first(), n)
    }
}

pub proof fn lemma_weight_concat(d: Map<Seq<char>, Body>, a: Seq<Seq<char>>, b: Seq<Seq<char>>, n: nat)
    ensures
        weight(d, a + b, n) == weight(d, a, n) + weight(d, b, n),
    decreases a.len(),
{
    if a.len() == 0 {
        assert(a + b =~= b);
    } else {
        lemma_weight_concat(d, a.drop_first(), b, n);
        assert((a + b).drop_first() =~= a.drop_first() + b);
        assert((a + b)[0] == a[0]);
    }
}

/// Whether the words among the tokens are in `g`, ranked below `k`.
pub open spec fn below(d: Map<Seq<char>, Body>, g: Set<Seq<char>>, r: Map<Seq<char>, nat>, l: Seq<Seq<char>>, k: nat) -> bool {
    forall|i: int| 0 <= i < l.len() && d.contains_key(#[trigger] l[i]) ==> g.contains(l[i]) && r[l[i]] < k
}

/// Deep enough, the weight no longer grows.
pub proof fn lemma_weight_stable(
    d: Map<Seq<char>, Body>,
    g: Set<Seq<char>>,
    r: Map<Seq<char>, nat>,
    bound: nat,
    l: Seq<Seq<char>>,
    k: nat,
    n: nat,
)
    requires
        ranked(d, g, r, bound),
        below(d, g, r, l, k),
        k <= n,
    ensures
        weight(d, l, n) == weight(d, l, n + 1),
    decreases k, l.len(),
{
    if l.len() > 0 {
        assert(below(d, g, r, l.drop_first(), k)) by {
            assert forall|i: int| 0 <= i < l.drop_first().len() && d.contains_key(#[trigger] l.drop_first()[i]) implies g.contains(l.drop_first()[i]) && r[l.drop_first()[i]] < k by {
                assert(l.drop_first()[i] == l[i + 1]);
            }
        }
        lemma_weight_stable(d, g, r, bound, l.drop_first(), k, n);
        let x = l[0];
        if d.contains_key(x) {
            assert(g.contains(x) && r[x] < k);
            assert(g.contains(x));
            assert(below(d, g, r, d[x], r[x]));
            assert(n > 0);
            lemma_weight_stable(d, g, r, bound, d[x], r[x], (n - 1) as nat);
        }
    }
}

/// Tokens all fine under a ranking parse within their weight in steps.
pub proof fn lemma_parses_within(
    d: Map<Seq<char>, Body>,
    g: Set<Seq<char>>,
    r: Map<Seq<char>, nat>,
    bound: nat,
    t: Seq<Seq<char>>,
    fuel: nat,
)
    requires
        ranked(d, g, r, bound),
        all_fine(d, g, t),
        fuel > weight(d, t, bound),
    ensures
        parse_f(d, t, fuel) is Some,
    decreases fuel,
{
    if t.len() == 0 {
        return;
    }
    let f1 = (fuel - 1) as nat;
    assert(fine(d, g, t[0]));
    assert(weight(d, t, bound) == (if bound > 0 && d.contains_key(t[0]) {
        1 + weight(d, d[t[0]], (bound - 1) as nat)
    } else {
        1nat
    }) + weight(d, t.drop_first(), bound));
    assert(all_fine(d, g, t.drop_first())) by {
        assert forall|i: int| 0 <= i < t.drop_first().len() implies fine(d, g, #[trigger] t.drop_first()[i]) by {
            assert(t.drop_first()[i] == t[i + 1]);
        }
    }
    if d.contains_key(t[0]) {
        let x = t[0];
        assert(g.contains(x));
        let next = d[x] + t.drop_first();
        assert(below(d, g, r, d[x], r[x]));
        let k = r[x];
        assert(bound > 0);
        // The definition weighs the same one level deeper.
        lemma_weight_stable(d, g, r, bound, d[x], k, (bound - 1) as nat);
        lemma_weight_concat(d, d[x], t.drop_first(), bound);
        assert(all_fine(d, g, next)) by {
            assert forall|i: int| 0 <= i < next.len() implies fine(d, g, #[trigger] next[i]) by {
                if i < d[x].len() {
                    assert(next[i] == d[x][i]);
                } else {
                    assert(next[i] == t.drop_first()[i - d[x].len()]);
                }
            }
        }
        lemma_parses_within(d, g, r, bound, next, f1);
    } else if t[0] == "IF"@ {
        lemma_if_split(t);
        let (yes, k1) = collect(t, 1, 1, true);
        let (no, k2) = collect(t, k1, 1, false);
        let rest = t.skip(k2 as int);
        assert(t.drop_first() =~= yes + no + rest);
        lemma_weight_concat(d, yes + no, rest, bound);
        lemma_weight_concat(d, yes, no, bound);
        assert forall|s: Seq<Seq<char>>, a: int, b: int|
            #![trigger t.subrange(a, b), all_fine(d, g, s)]
            1 <= a <= b <= t.len() && s == t.subrange(a, b) implies all_fine(d, g, s) by {
            assert forall|i: int| 0 <= i < s.len() implies fine(d, g, #[trigger] s[i]) by {
                assert(s[i] == t[a + i]);
            }
        }
        assert(rest =~= t.subrange(k2 as int, t.len() as int));
        lemma_parses_within(d, g, r, bound, yes, f1);
        lemma_parses_within(d, g, r, bound, no, f1);
        lemma_parses_within(d, g, r, bound, rest, f1);
    } else {
        lemma_parses_within(d, g, r, bound, t.drop_first(), f1);
    }
}

/// Under a ranking, tokens that are all fine parse.
pub proof fn lemma_parses(d: Map<Seq<char>, Body>, g: Set<Seq<char>>, r: Map<Seq<char>, nat>, bound: nat, t: Seq<Seq<char>>)
    requires
        ranked(d, g, r, bound),
        all_fine(d, g, t),
    ensures
        parses(d, t),
{
    let fuel = weight(d, t, bound) + 1;
    lemma_parses_within(d, g, r, bound, t, fuel);
    assert(parse_f(d, t, fuel) is Some);
}

/// When the words outside `g` are stuck, tokens one of which is not fine
/// never parse.
pub proof fn lemma_no_parse(d: Map<Seq<char>, Body>, g: Set<Seq<char>>, t: Seq<Seq<char>>)
    requires
        stuck(d, g),
        exists|i: int| 0 <= i < t.len() && !fine(d, g, #[trigger] t[i]),
    ensures
        !parses(d, t),
{
    assert forall|fuel: nat| !(#[trigger] parse_f(d, t, fuel) is Some) by {
        lemma_never_parses(d, g, t, fuel);
    }
}

} // verus!
