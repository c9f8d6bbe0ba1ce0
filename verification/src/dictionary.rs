//! The dictionary of user-defined words: each name maps to the tokens of its
//! definition.
use vstd::prelude::*;
use crate::output_error::strings_view;
use crate::halting::{all_fine, fine, ranked, stuck};
use crate::syntax::{keyword_op, print_cut_ok, starts_print, token_op};
use crate::text::{chars_of, parse_i16};

verus! {

/// A definition as characters: one sequence per token.
pub type Body = Seq<Seq<char>>;

/// The definition of `k` in a list of entries: the first entry named `k`.
pub open spec fn lookup(e: Seq<(String, Vec<String>)>, k: Seq<char>) -> Option<Body>
    decreases e.len(),
{
    if e.len() == 0 {
        None
    } else if e[0].0@ == k {
        Some(strings_view(e[0].1@))
    } else {
        lookup(e.drop_first(), k)
    }
}

/// The words defined so far, and their definitions.
pub struct Dictionary {
    entries: Vec<(String, Vec<String>)>,
}

impl View for Dictionary {
    type V = Map<Seq<char>, Body>;

    closed spec fn view(&self) -> Map<Seq<char>, Body> {
        Map::new(|k: Seq<char>| lookup(self.entries@, k) is Some, |k: Seq<char>| lookup(self.entries@, k)->0)
    }
}

/// The tokens of `body` with each defined word replaced by its definition
/// (one level deep).
pub open spec fn subst(d: Map<Seq<char>, Body>, body: Body) -> Body
    decreases body.len(),
{
    if body.len() == 0 {
        Seq::empty()
    } else {
        let head = if d.contains_key(body[0]) {
            d[body[0]]
        } else {
            seq![body[0]]
        };
        head + subst(d, body.drop_first())
    }
}

/// Every definition with the words it uses replaced by their definitions.
pub open spec fn replaced(d: Map<Seq<char>, Body>) -> Map<Seq<char>, Body> {
    Map::new(|k: Seq<char>| d.contains_key(k), |k: Seq<char>| subst(d, d[k]))
}

proof fn lemma_lookup_at(e: Seq<(String, Vec<String>)>, k: Seq<char>, i: int)
    requires
        0 <= i < e.len(),
        e[i].0@ == k,
        forall|m: int| 0 <= m < i ==> #[trigger] e[m].0@ != k,
    ensures
        lookup(e, k) == Some(strings_view(e[i].1@)),
    decreases i,
{
    if i > 0 {
        lemma_lookup_at(e.drop_first(), k, i - 1);
    }
}

proof fn lemma_lookup_none(e: Seq<(String, Vec<String>)>, k: Seq<char>)
    requires
        forall|m: int| 0 <= m < e.len() ==> #[trigger] e[m].0@ != k,
    ensures
        lookup(e, k) is None,
    decreases e.len(),
{
    if e.len() > 0 {
        lemma_lookup_none(e.drop_first(), k);
    }
}

proof fn lemma_lookup_update(e: Seq<(String, Vec<String>)>, i: int, x: (String, Vec<String>), k: Seq<char>)
    requires
        0 <= i < e.len(),
        e[i].0@ == x.0@,
        forall|m: int| 0 <= m < i ==> #[trigger] e[m].0@ != x.0@,
    ensures
        lookup(e.update(i, x), k) == if k == x.0@ {
            Some(strings_view(x.1@))
        } else {
            lookup(e, k)
        },
    decreases i,
{
    if i > 0 {
        lemma_lookup_update(e.drop_first(), i - 1, x, k);
        assert(e.update(i, x).drop_first() =~= e.drop_first().update(i - 1, x));
    } else {
        assert(e.update(i, x).drop_first() =~= e.drop_first());
    }
}

proof fn lemma_lookup_push(e: Seq<(String, Vec<String>)>, x: (String, Vec<String>), k: Seq<char>)
    requires
        lookup(e, x.0@) is None,
    ensures
        lookup(e.push(x), k) == if k == x.0@ {
            Some(strings_view(x.1@))
        } else {
            lookup(e, k)
        },
    decreases e.len(),
{
    if e.len() > 0 {
        lemma_lookup_push(e.drop_first(), x, k);
        assert(e.push(x).drop_first() =~= e.drop_first().push(x));
    } else {
        assert(e.push(x).drop_first() =~= e);
    }
}

proof fn lemma_lookup_map(e: Seq<(String, Vec<String>)>, f: Seq<(String, Vec<String>)>, d: Map<Seq<char>, Body>, k: Seq<char>)
    requires
        e.len() == f.len(),
        forall|i: int| 0 <= i < e.len() ==> #[trigger] f[i].0@ == e[i].0@,
        forall|i: int| 0 <= i < e.len() ==> strings_view(#[trigger] f[i].1@) == subst(d, strings_view(e[i].1@)),
    ensures
        lookup(f, k) == match lookup(e, k) {
            Some(b) => Some(subst(d, b)),
            None => None,
        },
    decreases e.len(),
{
    if e.len() > 0 {
        assert(f[0].0@ == e[0].0@);
        assert(strings_view(f[0].1@) == subst(d, strings_view(e[0].1@)));
        lemma_lookup_map(e.drop_first(), f.drop_first(), d, k);
    }
}

impl Dictionary {
    /// An empty dictionary.
    pub fn new() -> (d: Dictionary)
        ensures
            d@ == Map::<Seq<char>, Body>::empty(),
    {
        let d = Dictionary { entries: Vec::new() };
        assert(d@ =~= Map::<Seq<char>, Body>::empty());
        d
    }

    /// Whether no word is defined.
    pub fn is_empty(&self) -> (r: bool)
        ensures
            r == (self@.dom() == Set::<Seq<char>>::empty()),
    {
        if self.entries.len() == 0 {
            assert(self@.dom() =~= Set::<Seq<char>>::empty());
            true
        } else {
            assert(self@.dom().contains(self.entries@[0].0@));
            false
        }
    }

    fn find(&self, k: &String) -> (r: Option<usize>)
        ensures
            r matches Some(i) ==> i < self.entries@.len() && self.entries@[i as int].0@ == k@ && forall|
                m: int,
            | 0 <= m < i ==> #[trigger] self.entries@[m].0@ != k@,
            r is None ==> forall|m: int| 0 <= m < self.entries@.len() ==> #[trigger] self.entries@[m].0@ != k@,
    {
        let mut i: usize = 0;
        while i < self.entries.len()
            invariant
                i <= self.entries@.len(),
                forall|m: int| 0 <= m < i ==> #[trigger] self.entries@[m].0@ != k@,
            decreases self.entries@.len() - i,
        {
            if self.entries[i].0 == *k {
                return Some(i);
            }
            i += 1;
        }
        None
    }

    /// Whether `k` is a defined word.
    pub fn contains(&self, k: &String) -> (r: bool)
        ensures
            r == self@.contains_key(k@),
    {
        match self.find(k) {
            Some(i) => {
                proof {
                    lemma_lookup_at(self.entries@, k@, i as int);
                }
                true
            },
            None => {
                proof {
                    lemma_lookup_none(self.entries@, k@);
                }
                false
            },
        }
    }

    /// The definition of `k`, if it is a defined word.
    pub fn get(&self, k: &String) -> (r: Option<&Vec<String>>)
        ensures
            r is Some <==> self@.contains_key(k@),
            r matches Some(b) ==> strings_view(b@) == self@[k@],
    {
        match self.find(k) {
            Some(i) => {
                proof {
                    lemma_lookup_at(self.entries@, k@, i as int);
                }
                Some(&self.entries[i].1)
            },
            None => {
                proof {
                    lemma_lookup_none(self.entries@, k@);
                }
                None
            },
        }
    }

    /// Defines `k` as `body`, replacing an earlier definition.
    pub fn insert(&mut self, k: String, body: Vec<String>)
        ensures
            final(self)@ == old(self)@.insert(k@, strings_view(body@)),
    {
        let ghost e = self.entries@;
        let ghost x = (k, body);
        match self.find(&k) {
            Some(i) => {
                self.entries.set(i, (k, body));
                proof {
                    assert forall|q: Seq<char>| #![auto] true implies lookup(self.entries@, q) == if q == x.0@ {
                        Some(strings_view(x.1@))
                    } else {
                        lookup(e, q)
                    } by {
                        lemma_lookup_update(e, i as int, x, q);
                    }
                }
            },
            None => {
                proof {
                    lemma_lookup_none(e, k@);
                }
                self.entries.push((k, body));
                proof {
                    assert forall|q: Seq<char>| #![auto] true implies lookup(self.entries@, q) == if q == x.0@ {
                        Some(strings_view(x.1@))
                    } else {
                        lookup(e, q)
                    } by {
                        lemma_lookup_push(e, x, q);
                    }
                }
            },
        }
        assert(self@ =~= old(self)@.insert(x.0@, strings_view(x.1@)));
    }
}


/// What one token of a definition becomes when the words it names are
/// replaced: the word's definition, or the token itself.
pub open spec fn subst_one(d: Map<Seq<char>, Body>, t: Seq<char>) -> Body {
    if d.contains_key(t) {
        d[t]
    } else {
        seq![t]
    }
}

pub proof fn lemma_subst_push(d: Map<Seq<char>, Body>, b: Body, t: Seq<char>)
    ensures
        subst(d, b.push(t)) == subst(d, b) + subst_one(d, t),
    decreases b.len(),
{
    if b.len() == 0 {
        assert(b.push(t).drop_first() =~= Seq::<Seq<char>>::empty());
        assert(subst(d, b.push(t).drop_first()) =~= Seq::<Seq<char>>::empty());
        assert(b.push(t)[0] == t);
        assert(subst(d, b) =~= Seq::<Seq<char>>::empty());
        assert(subst(d, b.push(t)) =~= subst_one(d, t));
    } else {
        lemma_subst_push(d, b.drop_first(), t);
        assert(b.push(t).drop_first() =~= b.drop_first().push(t));
        assert(subst(d, b.push(t)) =~= subst(d, b) + subst_one(d, t));
    }
}

pub(crate) fn append_strings(dst: &mut Vec<String>, src: &Vec<String>)
    ensures
        strings_view(final(dst)@) == strings_view(old(dst)@) + strings_view(src@),
{
    let mut i: usize = 0;
    while i < src.len()
        invariant
            i <= src@.len(),
            strings_view(dst@) == strings_view(old(dst)@) + strings_view(src@.take(i as int)),
        decreases src@.len() - i,
    {
        let s = src[i].clone();
        let ghost before = dst@;
        dst.push(s);
        assert(strings_view(dst@) =~= strings_view(before).push(s@));
        assert(strings_view(src@.take(i + 1)) =~= strings_view(src@.take(i as int)).push(src@[i as int]@));
        i += 1;
    }
    assert(src@.take(src@.len() as int) =~= src@);
}

/// The dictionary with every definition's words replaced by their own
/// definitions, one level deep; the names defined stay the same.
pub fn replace_occurrences(dictionary: &Dictionary) -> (r: Dictionary)
    ensures
        r@ == replaced(dictionary@),
{
    let ghost d = dictionary@;
    let ghost e = dictionary.entries@;
    let mut entries: Vec<(String, Vec<String>)> = Vec::new();
    let mut i: usize = 0;
    while i < dictionary.entries.len()
        invariant
            i <= e.len(),
            e == dictionary.entries@,
            d == dictionary@,
            entries@.len() == i,
            forall|m: int| 0 <= m < i ==> #[trigger] entries@[m].0@ == e[m].0@,
            forall|m: int| 0 <= m < i ==> strings_view(#[trigger] entries@[m].1@) == subst(d, strings_view(e[m].1@)),
        decreases e.len() - i,
    {
        let values = &dictionary.entries[i].1;
        let mut rep: Vec<String> = Vec::new();
        let mut j: usize = 0;
        while j < values.len()
            invariant
                j <= values@.len(),
                d == dictionary@,
                strings_view(rep@) == subst(d, strings_view(values@.take(j as int))),
            decreases values@.len() - j,
        {
            let item = &values[j];
            proof {
                lemma_subst_push(d, strings_view(values@.take(j as int)), item@);
                assert(strings_view(values@.take(j + 1)) =~= strings_view(values@.take(j as int)).push(item@));
            }
            match dictionary.get(item) {
                Some(def) => {
                    append_strings(&mut rep, def);
                },
                None => {
                    let ghost before = rep@;
                    rep.push(item.clone());
                    assert(strings_view(rep@) =~= strings_view(before) + seq![item@]);
                },
            }
            j += 1;
        }
        assert(values@.take(values@.len() as int) =~= values@);
        let key = dictionary.entries[i].0.clone();
        entries.push((key, rep));
        i += 1;
    }
    let r = Dictionary { entries };
    proof {
        assert forall|k: Seq<char>| #![auto] true implies lookup(r.entries@, k) == match lookup(e, k) {
            Some(b) => Some(subst(d, b)),
            None => None,
        } by {
            lemma_lookup_map(e, r.entries@, d, k);
        }
    }
    assert(r@ =~= replaced(d));
    r
}


/// The index of the first entry named `k` (the number of entries if none is).
pub open spec fn first_index(e: Seq<(String, Vec<String>)>, k: Seq<char>) -> int
    decreases e.len(),
{
    if e.len() == 0 {
        0
    } else if e[0].0@ == k {
        0
    } else {
        1 + first_index(e.drop_first(), k)
    }
}

proof fn lemma_first_index(e: Seq<(String, Vec<String>)>, k: Seq<char>)
    ensures
        0 <= first_index(e, k) <= e.len(),
        forall|m: int| 0 <= m < first_index(e, k) ==> #[trigger] e[m].0@ != k,
        first_index(e, k) < e.len() ==> e[first_index(e, k)].0@ == k,
        lookup(e, k) is Some <==> first_index(e, k) < e.len(),
        lookup(e, k) is Some ==> lookup(e, k)->0 == strings_view(e[first_index(e, k)].1@),
    decreases e.len(),
{
    if e.len() > 0 && e[0].0@ != k {
        lemma_first_index(e.drop_first(), k);
        assert forall|m: int| 0 <= m < first_index(e, k) implies #[trigger] e[m].0@ != k by {
            if m > 0 {
                assert(e[m] == e.drop_first()[m - 1]);
            }
        }
    }
}

proof fn lemma_first_index_at(e: Seq<(String, Vec<String>)>, i: int)
    requires
        0 <= i < e.len(),
        forall|m: int| 0 <= m < i ==> #[trigger] e[m].0@ != e[i].0@,
    ensures
        first_index(e, e[i].0@) == i,
    decreases i,
{
    if i > 0 {
        assert(e[0].0@ != e[i].0@);
        assert forall|m: int| 0 <= m < i - 1 implies #[trigger] e.drop_first()[m].0@ != e.drop_first()[i - 1].0@ by {
            assert(e.drop_first()[m] == e[m + 1]);
        }
        lemma_first_index_at(e.drop_first(), i - 1);
    }
}

/// The keywords do not look like printed strings.
proof fn lemma_keywords_are_not_prints(t: Seq<char>)
    requires
        keyword_op(t) is Some,
    ensures
        !starts_print(t),
{
    reveal_strlit("+");
    reveal_strlit("-");
    reveal_strlit("*");
    reveal_strlit("/");
    reveal_strlit("DUP");
    reveal_strlit("DROP");
    reveal_strlit("SWAP");
    reveal_strlit("OVER");
    reveal_strlit("ROT");
    reveal_strlit(".");
    reveal_strlit("EMIT");
    reveal_strlit("CR");
    reveal_strlit("=");
    reveal_strlit("<");
    reveal_strlit(">");
    reveal_strlit("AND");
    reveal_strlit("OR");
    reveal_strlit("NOT");
    reveal_strlit("IF");
    reveal_strlit("ELSE");
    reveal_strlit("THEN");
}

/// Whether a token that is not a word becomes an operation.
pub fn token_parses(token: &String) -> (r: bool)
    ensures
        r == token_op(token@) is Some,
{
    let chars = chars_of(token.as_str());
    if parse_i16(&chars).is_some() {
        return true;
    }
    let n = chars.len();
    if !(n >= 2 && chars[0] == '.' && chars[1] == '"') {
        assert(!starts_print(token@));
        return true;
    }
    assert(starts_print(token@));
    if n >= 4 && (chars[2] as u32) < 0x80 && (chars[n - 1] as u32) < 0x80 {
        assert(print_cut_ok(token@));
        return true;
    }
    proof {
        if keyword_op(token@) is Some {
            lemma_keywords_are_not_prints(token@);
        }
    }
    false
}

/// Which words parse: `flags[i]` tells, for an entry that is the first with
/// its name, whether the word parses; the ghost parts rank those words and
/// show that the others never do.
pub struct Grounding {
    pub flags: Vec<bool>,
    pub good: Ghost<Set<Seq<char>>>,
    pub rank: Ghost<Map<Seq<char>, nat>>,
    pub bound: Ghost<nat>,
}

/// The words named by flagged entries that are the first with their name.
pub open spec fn flagged(e: Seq<(String, Vec<String>)>, flags: Seq<bool>) -> Set<Seq<char>> {
    Set::new(|x: Seq<char>| lookup(e, x) is Some && flags[first_index(e, x)])
}

impl Dictionary {
    /// Whether a grounding describes this dictionary: its flags are the
    /// words in `good`, which are ranked, and the words outside it are stuck.
    pub closed spec fn grounded_by(&self, gr: Grounding) -> bool {
        &&& gr.flags@.len() == self.entries@.len()
        &&& gr.good@ == flagged(self.entries@, gr.flags@)
        &&& ranked(self@, gr.good@, gr.rank@, gr.bound@)
        &&& stuck(self@, gr.good@)
    }

    /// Whether a token parses, given the words that do.
    fn fine_with(&self, flags: &Vec<bool>, token: &String) -> (r: bool)
        requires
            flags@.len() == self.entries@.len(),
        ensures
            r == fine(self@, flagged(self.entries@, flags@), token@),
    {
        proof {
            lemma_first_index(self.entries@, token@);
        }
        match self.find(token) {
            Some(i) => {
                proof {
                    lemma_lookup_at(self.entries@, token@, i as int);
                    lemma_first_index_at(self.entries@, i as int);
                }
                flags[i]
            },
            None => {
                proof {
                    lemma_lookup_none(self.entries@, token@);
                }
                token_parses(token)
            },
        }
    }

    /// Whether all the tokens parse, given the words that do.
    pub fn all_fine_with(&self, gr: &Grounding, tokens: &Vec<String>) -> (r: bool)
        requires
            self.grounded_by(*gr),
        ensures
            r == all_fine(self@, gr.good@, strings_view(tokens@)),
    {
        let mut k: usize = 0;
        while k < tokens.len()
            invariant
                k <= tokens@.len(),
                self.grounded_by(*gr),
                forall|m: int| 0 <= m < k ==> fine(self@, gr.good@, #[trigger] strings_view(tokens@)[m]),
            decreases tokens@.len() - k,
        {
            assert(strings_view(tokens@)[k as int] == tokens@[k as int]@);
            if !self.fine_with(&gr.flags, &tokens[k]) {
                return false;
            }
            k += 1;
        }
        true
    }
}


/// How many flags are set.
pub open spec fn count_true(s: Seq<bool>) -> nat
    decreases s.len(),
{
    if s.len() == 0 {
        0
    } else {
        count_true(s.drop_last()) + if s.last() {
            1nat
        } else {
            0nat
        }
    }
}

proof fn lemma_count_true(s: Seq<bool>, i: int)
    requires
        0 <= i < s.len(),
        !s[i],
    ensures
        count_true(s) < s.len(),
        count_true(s.update(i, true)) == count_true(s) + 1,
    decreases s.len(),
{
    if i < s.len() - 1 {
        lemma_count_true(s.drop_last(), i);
        assert(s.update(i, true).drop_last() =~= s.drop_last().update(i, true));
    } else {
        lemma_count_le(s.drop_last());
        assert(s.update(i, true).drop_last() =~= s.drop_last());
    }
}

proof fn lemma_count_le(s: Seq<bool>)
    ensures
        count_true(s) <= s.len(),
    decreases s.len(),
{
    if s.len() > 0 {
        lemma_count_le(s.drop_last());
    }
}

impl Dictionary {
    /// What the ground computation keeps true: entry `i` is flagged only when
    /// it is the first with its name, ranked below `count`, and its
    /// definition uses only tokens that parse, words of lower rank.
    closed spec fn ground_inv(&self, flags: Seq<bool>, rk: Seq<nat>, count: nat) -> bool {
        let e = self.entries@;
        let g = flagged(e, flags);
        &&& flags.len() == e.len()
        &&& rk.len() == e.len()
        &&& count == count_true(flags)
        &&& forall|i: int| 0 <= i < e.len() && #[trigger] flags[i] ==> {
            &&& forall|m: int| 0 <= m < i ==> #[trigger] e[m].0@ != e[i].0@
            &&& rk[i] < count
            &&& all_fine(self@, g, strings_view(e[i].1@))
            &&& forall|j: int|
                0 <= j < e[i].1@.len() && self@.contains_key(#[trigger] e[i].1@[j]@) ==> rk[first_index(
                    e,
                    e[i].1@[j]@,
                )] < rk[i]
        }
    }

    proof fn lemma_flagged_grows(&self, flags: Seq<bool>, i: int)
        requires
            0 <= i < flags.len(),
            flags.len() == self.entries@.len(),
        ensures
            flagged(self.entries@, flags).subset_of(flagged(self.entries@, flags.update(i, true))),
    {
        let e = self.entries@;
        assert forall|x: Seq<char>| flagged(e, flags).contains(x) implies flagged(e, flags.update(i, true)).contains(x) by {
            lemma_first_index(e, x);
        }
    }

    proof fn lemma_fine_grows(&self, g1: Set<Seq<char>>, g2: Set<Seq<char>>, t: Seq<Seq<char>>)
        requires
            g1.subset_of(g2),
            all_fine(self@, g1, t),
        ensures
            all_fine(self@, g2, t),
    {
        assert forall|k: int| 0 <= k < t.len() implies fine(self@, g2, #[trigger] t[k]) by {
            assert(fine(self@, g1, t[k]));
        }
    }

    /// Finds the words that parse: repeatedly takes in every word whose
    /// definition uses only tokens that parse, until no more can be.
    pub fn ground(&self) -> (gr: Grounding)
        ensures
            self.grounded_by(gr),
            ranked(self@, gr.good@, gr.rank@, gr.bound@),
            stuck(self@, gr.good@),
    {
        let ghost e = self.entries@;
        let ghost d = self@;
        let n = self.entries.len();
        let mut flags: Vec<bool> = Vec::new();
        let ghost mut rk: Seq<nat> = Seq::empty();
        let mut k: usize = 0;
        while k < n
            invariant
                k <= n,
                n == e.len(),
                flags@.len() == k,
                rk.len() == k,
                forall|m: int| 0 <= m < k ==> !(#[trigger] flags@[m]),
            decreases n - k,
        {
            flags.push(false);
            proof {
                rk = rk.push(0nat);
            }
            k += 1;
        }
        proof {
            assert(count_true(flags@) == 0) by {
                lemma_count_zero(flags@);
            }
        }
        let mut count: usize = 0;
        loop
            invariant
                n == e.len(),
                e == self.entries@,
                d == self@,
                self.ground_inv(flags@, rk, count as nat),
                count <= n,
            decreases n - count,
        {
            let ghost start = count;
            let mut changed = false;
            let mut i: usize = 0;
            while i < n
                invariant
                    i <= n,
                    n == e.len(),
                    e == self.entries@,
                    d == self@,
                    self.ground_inv(flags@, rk, count as nat),
                    count <= n,
                    start <= count,
                    changed ==> start < count,
                    !changed ==> count == start,
                    !changed ==> forall|m: int|
                        0 <= m < i && !(#[trigger] flags@[m]) && (forall|p: int| 0 <= p < m ==> e[p].0@ != e[m].0@) ==> !all_fine(
                            d,
                            flagged(e, flags@),
                            strings_view(e[m].1@),
                        ),
                decreases n - i,
            {
                let ghost flags_before = flags@;
                if !flags[i] {
                    let first = match self.find(&self.entries[i].0) {
                        Some(j) => j == i,
                        None => false,
                    };
                    proof {
                        if !first {
                            lemma_first_index(e, e[i as int].0@);
                            let fi = first_index(e, e[i as int].0@);
                            assert(fi <= i);
                            assert(fi != i);
                            assert(!(forall|p: int| 0 <= p < i ==> e[p].0@ != e[i as int].0@)) by {
                                assert(e[fi].0@ == e[i as int].0@);
                            }
                        }
                    }
                    if first {
                        let ok = self.all_fine_flags(&flags, &self.entries[i].1);
                        if ok {
                            let ghost old_flags = flags@;
                            let ghost old_g = flagged(e, old_flags);
                            proof {
                                lemma_count_true(old_flags, i as int);
                                self.lemma_flagged_grows(old_flags, i as int);
                            }
                            flags.set(i, true);
                            proof {
                                rk = rk.update(i as int, count as nat);
                                let g = flagged(e, flags@);
                                assert forall|m: int| 0 <= m < e.len() && #[trigger] flags@[m] implies {
                                    &&& forall|p: int| 0 <= p < m ==> #[trigger] e[p].0@ != e[m].0@
                                    &&& rk[m] < count + 1
                                    &&& all_fine(d, g, strings_view(e[m].1@))
                                    &&& forall|j: int|
                                        0 <= j < e[m].1@.len() && d.contains_key(#[trigger] e[m].1@[j]@) ==> rk[first_index(
                                            e,
                                            e[m].1@[j]@,
                                        )] < rk[m]
                                } by {
                                    if m == i {
                                        self.lemma_fine_grows(old_g, g, strings_view(e[m].1@));
                                        assert forall|j: int|
                                            0 <= j < e[m].1@.len() && d.contains_key(#[trigger] e[m].1@[j]@) implies rk[first_index(
                                                e,
                                                e[m].1@[j]@,
                                            )] < rk[m] by {
                                            let u = e[m].1@[j]@;
                                            assert(strings_view(e[m].1@)[j] == u);
                                            assert(fine(d, old_g, u));
                                            lemma_first_index(e, u);
                                            assert(old_flags[first_index(e, u)]);
                                            assert(first_index(e, u) != i);
                                        }
                                    } else {
                                        assert(old_flags[m]);
                                        self.lemma_fine_grows(old_g, g, strings_view(e[m].1@));
                                        assert forall|j: int|
                                            0 <= j < e[m].1@.len() && d.contains_key(#[trigger] e[m].1@[j]@) implies rk[first_index(
                                                e,
                                                e[m].1@[j]@,
                                            )] < rk[m] by {
                                            let u = e[m].1@[j]@;
                                            assert(strings_view(e[m].1@)[j] == u);
                                            assert(fine(d, old_g, u));
                                            lemma_first_index(e, u);
                                            assert(old_flags[first_index(e, u)]);
                                            assert(first_index(e, u) != i);
                                        }
                                    }
                                }
                            }
                            count += 1;
                            changed = true;
                        }
                    }
                }
                proof {
                    if !changed {
                        assert(flags@ == flags_before);
                        assert(!flags@[i as int] && (forall|p: int| 0 <= p < i ==> e[p].0@ != e[i as int].0@) ==> !all_fine(
                            d,
                            flagged(e, flags@),
                            strings_view(e[i as int].1@),
                        ));
                    }
                }
                i += 1;
            }
            if !changed {
                let ghost g = flagged(e, flags@);
                let ghost r = Map::new(|x: Seq<char>| d.contains_key(x), |x: Seq<char>| rk[first_index(e, x)]);
                proof {
                    assert forall|x: Seq<char>| #![trigger g.contains(x)] g.contains(x) implies {
                        &&& d.contains_key(x)
                        &&& r.contains_key(x)
                        &&& r[x] < count
                        &&& all_fine(d, g, d[x])
                        &&& forall|j: int| 0 <= j < d[x].len() && d.contains_key(#[trigger] d[x][j]) ==> r[d[x][j]] < r[x]
                    } by {
                        lemma_first_index(e, x);
                        let fi = first_index(e, x);
                        assert(flags@[fi]);
                        assert forall|j: int| 0 <= j < d[x].len() && d.contains_key(#[trigger] d[x][j]) implies r[d[x][j]] < r[x] by {
                            assert(d[x][j] == e[fi].1@[j]@);
                        }
                    }
                    assert forall|x: Seq<char>| #![trigger d.contains_key(x)] d.contains_key(x) && !g.contains(x) implies exists|j: int|
                        0 <= j < d[x].len() && !fine(d, g, #[trigger] d[x][j]) by {
                        lemma_first_index(e, x);
                        let fi = first_index(e, x);
                        assert(!flags@[fi]);
                        assert(forall|p: int| 0 <= p < fi ==> e[p].0@ != e[fi].0@);
                        let t = strings_view(e[fi].1@);
                        assert(!all_fine(d, g, t));
                        assert(d[x] == t);
                        let k = choose|k: int| 0 <= k < t.len() && !fine(d, g, #[trigger] t[k]);
                        assert(d[x][k] == t[k]);
                    }
                }
                return Grounding { flags, good: Ghost(g), rank: Ghost(r), bound: Ghost(count as nat) };
            }
        }
    }

    /// Whether all the tokens parse, given the flags computed so far.
    fn all_fine_flags(&self, flags: &Vec<bool>, tokens: &Vec<String>) -> (r: bool)
        requires
            flags@.len() == self.entries@.len(),
        ensures
            r == all_fine(self@, flagged(self.entries@, flags@), strings_view(tokens@)),
    {
        let ghost g = flagged(self.entries@, flags@);
        let mut k: usize = 0;
        while k < tokens.len()
            invariant
                k <= tokens@.len(),
                flags@.len() == self.entries@.len(),
                g == flagged(self.entries@, flags@),
                forall|m: int| 0 <= m < k ==> fine(self@, g, #[trigger] strings_view(tokens@)[m]),
            decreases tokens@.len() - k,
        {
            assert(strings_view(tokens@)[k as int] == tokens@[k as int]@);
            if !self.fine_with(flags, &tokens[k]) {
                return false;
            }
            k += 1;
        }
        true
    }
}

proof fn lemma_count_zero(s: Seq<bool>)
    requires
        forall|m: int| 0 <= m < s.len() ==> !(#[trigger] s[m]),
    ensures
        count_true(s) == 0,
    decreases s.len(),
{
    if s.len() > 0 {
        lemma_count_zero(s.drop_last());
    }
}

} // verus!
