//! Splitting a line into the tokens of the language.
use vstd::prelude::*;
use crate::output_error::strings_view;
use crate::text::{chars_of, string_of};

verus! {

/// What `str::to_uppercase` returns for the given characters: their
/// uppercase mapping under Unicode's rules.
pub uninterp spec fn uppercase(s: Seq<char>) -> Seq<char>;

/// Whether every character is ASCII.
pub open spec fn all_ascii(s: Seq<char>) -> bool {
    forall|i: int| 0 <= i < s.len() ==> (#[trigger] s[i] as u32) < 0x80
}

/// The ASCII upper case of a character: `a` to `z` become `A` to `Z`, any
/// other character stays.
pub open spec fn ascii_upper_char(c: char) -> char {
    if 'a' <= c && c <= 'z' {
        ((c as u32) - 32) as char
    } else {
        c
    }
}

/// The characters, each in ASCII upper case.
pub open spec fn ascii_upper(s: Seq<char>) -> Seq<char> {
    s.map_values(|c: char| ascii_upper_char(c))
}

/// The upper case of a piece, as `str::to_uppercase` gives it: for ASCII
/// text the letters `a` to `z` become `A` to `Z` and the rest stays; other
/// text follows Unicode's rules.
pub open spec fn upper_cased(s: Seq<char>) -> Seq<char> {
    if all_ascii(s) {
        ascii_upper(s)
    } else {
        uppercase(s)
    }
}

/// `str::to_uppercase`: the string mapped to upper case. Trusted: for ASCII
/// text the result maps `a`..`z` to `A`..`Z` and keeps every other
/// character, as std documents; for other text it is `uppercase` of the
/// argument, a function of its characters alone.
#[verifier::external_body]
fn to_uppercase(s: &str) -> (r: String)
    ensures
        all_ascii(s@) ==> r@ == ascii_upper(s@),
        !all_ascii(s@) ==> r@ == uppercase(s@),
{
    s.to_uppercase()
}

/// The pieces between spaces, as `str::split(' ')` yields them: empty pieces
/// between adjacent spaces included, and one piece for a line without any.
pub open spec fn split_spaces(s: Seq<char>) -> Seq<Seq<char>>
    decreases s.len(),
{
    if s.len() == 0 {
        seq![Seq::empty()]
    } else {
        let rest = split_spaces(s.drop_last());
        if s.last() == ' ' {
            rest.push(Seq::empty())
        } else {
            rest.update(rest.len() - 1, rest.last().push(s.last()))
        }
    }
}

pub proof fn lemma_split_nonempty(s: Seq<char>)
    ensures
        split_spaces(s).len() >= 1,
    decreases s.len(),
{
    if s.len() > 0 {
        lemma_split_nonempty(s.drop_last());
    }
}

/// Splits a line on every space.
pub fn split_on_spaces(line: &Vec<char>) -> (pieces: Vec<Vec<char>>)
    ensures
        pieces@.map_values(|p: Vec<char>| p@) == split_spaces(line@),
{
    let mut pieces: Vec<Vec<char>> = Vec::new();
    let mut current: Vec<char> = Vec::new();
    let mut i: usize = 0;
    while i < line.len()
        invariant
            i <= line@.len(),
            pieces@.map_values(|p: Vec<char>| p@).push(current@) == split_spaces(line@.take(i as int)),
        decreases line@.len() - i,
    {
        proof {
            lemma_split_nonempty(line@.take(i as int));
            assert(line@.take(i + 1).drop_last() =~= line@.take(i as int));
        }
        let c = line[i];
        if c == ' ' {
            let ghost before = pieces@.map_values(|p: Vec<char>| p@).push(current@);
            let done = current;
            pieces.push(done);
            current = Vec::new();
            assert(pieces@.map_values(|p: Vec<char>| p@).push(current@) =~= before.push(
                Seq::empty(),
            ));
        } else {
            let ghost before = pieces@.map_values(|p: Vec<char>| p@).push(current@);
            current.push(c);
            assert(pieces@.map_values(|p: Vec<char>| p@).push(current@) =~= before.update(
                before.len() - 1,
                before.last().push(c),
            ));
        }
        i += 1;
    }
    assert(line@.take(line@.len() as int) =~= line@);
    let ghost before = pieces@.map_values(|p: Vec<char>| p@);
    pieces.push(current);
    assert(pieces@.map_values(|p: Vec<char>| p@) =~= before.push(current@));
    pieces
}


/// The pieces of a split line, by their characters.
pub open spec fn pieces_view(p: Seq<Vec<char>>) -> Seq<Seq<char>> {
    p.map_values(|v: Vec<char>| v@)
}

/// The piece that opens a printed string: `."`.
pub open spec fn opens_string(p: Seq<char>) -> bool {
    p == seq!['.', '"']
}

/// Whether a piece ends with a double quote, closing a printed string.
pub open spec fn closes_string(p: Seq<char>) -> bool {
    p.len() > 0 && p.last() == '"'
}

/// The first piece at index `k` or later that closes a printed string.
pub open spec fn closing(p: Seq<Seq<char>>, k: nat) -> Option<nat>
    decreases p.len() - k,
{
    if k >= p.len() {
        None
    } else if closes_string(p[k as int]) {
        Some(k)
    } else {
        closing(p, k + 1)
    }
}

pub proof fn lemma_closing(p: Seq<Seq<char>>, k: nat)
    ensures
        closing(p, k) is Some ==> k <= closing(p, k)->0 < p.len() && closes_string(
            p[closing(p, k)->0 as int],
        ) && (forall|m: int| k <= m < closing(p, k)->0 ==> !closes_string(#[trigger] p[m])),
        closing(p, k) is None ==> forall|m: int| k <= m < p.len() ==> !closes_string(#[trigger] p[m]),
    decreases p.len() - k,
{
    if k < p.len() && !closes_string(p[k as int]) {
        lemma_closing(p, k + 1);
    }
}

/// Pieces joined back together with single spaces.
pub open spec fn join_spaces(s: Seq<Seq<char>>) -> Seq<char>
    decreases s.len(),
{
    if s.len() == 0 {
        Seq::empty()
    } else if s.len() == 1 {
        s[0]
    } else {
        join_spaces(s.drop_last()) + seq![' '] + s.last()
    }
}

/// The tokens made from the pieces from index `i` on: empty pieces are
/// skipped, other pieces are upper-cased, and a `."` piece is joined with the
/// pieces up to the first that ends with `"` into one token, kept as written,
/// and the tokens go on from the piece after that one. `None` where a `."`
/// has no closing piece.
pub open spec fn tokens_from(p: Seq<Seq<char>>, i: nat) -> Option<Seq<Seq<char>>>
    decreases p.len() + 1 - i,
{
    if i >= p.len() {
        Some(Seq::empty())
    } else if opens_string(p[i as int]) {
        proof {
            lemma_closing(p, i + 1);
        }
        match closing(p, i + 1) {
            None => None,
            Some(j) => {
                match tokens_from(p, j + 1) {
                    None => None,
                    Some(rest) => Some(seq![join_spaces(p.subrange(i as int, j + 1int))] + rest),
                }
            },
        }
    } else if p[i as int].len() == 0 {
        tokens_from(p, i + 1)
    } else {
        match tokens_from(p, i + 1) {
            None => None,
            Some(rest) => Some(seq![upper_cased(p[i as int])] + rest),
        }
    }
}

/// The tokens of a line; `None` where a printed string is never closed.
pub open spec fn tokenize_spec(line: Seq<char>) -> Option<Seq<Seq<char>>> {
    tokens_from(split_spaces(line), 0)
}

fn is_open_quote(p: &Vec<char>) -> (r: bool)
    ensures
        r == opens_string(p@),
{
    if p.len() == 2 && p[0] == '.' && p[1] == '"' {
        assert(p@ =~= seq!['.', '"']);
        true
    } else {
        false
    }
}

fn ends_with_quote(p: &Vec<char>) -> (r: bool)
    ensures
        r == closes_string(p@),
{
    p.len() > 0 && p[p.len() - 1] == '"'
}

/// Joins the pieces from `*i` to the first later one that ends with a double
/// quote, with single spaces. Leaves `*i` after that piece and returns it too.
fn extend_token(pieces: &Vec<Vec<char>>, i: &mut usize) -> (r: (Vec<char>, usize))
    requires
        *old(i) < pieces@.len(),
        closing(pieces_view(pieces@), (*old(i) + 1) as nat) is Some,
    ensures
        ({
            let j = closing(pieces_view(pieces@), (*old(i) + 1) as nat)->0;
            &&& r.0@ == join_spaces(pieces_view(pieces@).subrange(*old(i) as int, j + 1int))
            &&& *final(i) == j + 1
            &&& r.1 == j + 1
        }),
{
    let ghost p = pieces_view(pieces@);
    let ghost start = *i as int;
    let ghost j = closing(p, (start + 1) as nat)->0;
    proof {
        lemma_closing(p, (start + 1) as nat);
    }
    let n = pieces.len();
    let mut aux: Vec<char> = Vec::new();
    let first = &pieces[*i];
    let mut k: usize = 0;
    while k < first.len()
        invariant
            k <= first@.len(),
            aux@ == first@.take(k as int),
        decreases first@.len() - k,
    {
        aux.push(first[k]);
        assert(first@.take(k + 1) =~= first@.take(k as int).push(first@[k as int]));
        k += 1;
    }
    assert(first@.take(first@.len() as int) =~= first@);
    assert(p.subrange(start, start + 1) =~= seq![p[start]]);
    *i += 1;
    loop
        invariant_except_break
            *i <= j,
        invariant
            0 <= start,
            start + 1 <= *i <= j + 1,
            j < p.len(),
            n == p.len(),
            p == pieces_view(pieces@),
            aux@ == join_spaces(p.subrange(start, *i as int)),
            forall|m: int| start + 1 <= m < j ==> !closes_string(#[trigger] p[m]),
            closes_string(p[j as int]),
        ensures
            *i == j + 1,
        decreases j - *i,
    {
        let piece = &pieces[*i];
        assert(piece@ == p[*i as int]);
        assert(p.subrange(start, *i + 1).drop_last() =~= p.subrange(start, *i as int));
        let ghost before = aux@;
        aux.push(' ');
        let mut k: usize = 0;
        while k < piece.len()
            invariant
                k <= piece@.len(),
                aux@ == before + seq![' '] + piece@.take(k as int),
            decreases piece@.len() - k,
        {
            aux.push(piece[k]);
            assert(piece@.take(k + 1) =~= piece@.take(k as int).push(piece@[k as int]));
            k += 1;
        }
        assert(piece@.take(piece@.len() as int) =~= piece@);
        let last = ends_with_quote(piece);
        *i += 1;
        if last {
            break;
        }
    }
    (aux, *i)
}


fn find_closing(pieces: &Vec<Vec<char>>, k: usize) -> (r: Option<usize>)
    ensures
        r matches Some(j) ==> closing(pieces_view(pieces@), k as nat) == Some(j as nat),
        r is None ==> closing(pieces_view(pieces@), k as nat) is None,
{
    let ghost p = pieces_view(pieces@);
    let mut m = k;
    while m < pieces.len()
        invariant
            k <= m,
            p == pieces_view(pieces@),
            closing(p, k as nat) == closing(p, m as nat),
        decreases pieces@.len() - m,
    {
        if ends_with_quote(&pieces[m]) {
            return Some(m);
        }
        m += 1;
    }
    None
}

/// Tokens of a split line, or `None` where a printed string is never closed.
fn tokens_of(pieces: &Vec<Vec<char>>) -> (r: Option<Vec<String>>)
    ensures
        r is Some <==> tokens_from(pieces_view(pieces@), 0) is Some,
        r matches Some(t) ==> strings_view(t@) == tokens_from(pieces_view(pieces@), 0)->0,
{
    let ghost p = pieces_view(pieces@);
    let mut tokens: Vec<String> = Vec::new();
    let mut i: usize = 0;
    let n = pieces.len();
    while i < n
        invariant
            i <= n,
            n == p.len(),
            p == pieces_view(pieces@),
            tokens_from(p, 0) is Some <==> tokens_from(p, i as nat) is Some,
            tokens_from(p, i as nat) is Some ==> tokens_from(p, 0)->0 == strings_view(tokens@)
                + tokens_from(p, i as nat)->0,
        decreases n - i,
    {
        let ghost before = strings_view(tokens@);
        let ghost at = i as nat;
        assert(pieces@[i as int]@ == p[i as int]);
        if is_open_quote(&pieces[i]) {
            match find_closing(pieces, i + 1) {
                None => {
                    return None;
                },
                Some(_) => {},
            }
            proof {
                lemma_closing(p, at + 1);
            }
            let (aux, j) = extend_token(pieces, &mut i);
            let t = string_of(&aux);
            tokens.push(t);
            assert(strings_view(tokens@) =~= before.push(t@));
            // The tokens go on from the piece after the closing one.
            i = j;
            proof {
                if tokens_from(p, i as nat) is Some {
                    assert(tokens_from(p, at)->0 =~= seq![t@] + tokens_from(p, i as nat)->0);
                }
            }
        } else if pieces[i].len() == 0 {
            i += 1;
        } else {
            let word = string_of(&pieces[i]);
            let t = to_uppercase(word.as_str());
            tokens.push(t);
            assert(strings_view(tokens@) =~= before.push(t@));
            i += 1;
            proof {
                if tokens_from(p, i as nat) is Some {
                    assert(tokens_from(p, at)->0 =~= seq![t@] + tokens_from(p, i as nat)->0);
                }
            }
        }
    }
    assert(strings_view(tokens@) + Seq::<Seq<char>>::empty() =~= strings_view(tokens@));
    Some(tokens)
}

/// The tokens of a line, or `None` where a printed string (`."`) is never
/// closed.
pub fn tokenize_checked(line: &String) -> (r: Option<Vec<String>>)
    ensures
        r is Some <==> tokenize_spec(line@) is Some,
        r matches Some(t) ==> strings_view(t@) == tokenize_spec(line@)->0,
{
    let chars = chars_of(line.as_str());
    let pieces = split_on_spaces(&chars);
    assert(pieces_view(pieces@) == split_spaces(line@));
    tokens_of(&pieces)
}

/// The tokens of a line: words split on spaces and upper-cased, and each
/// printed string (`." ... "`) kept whole, as written.
pub fn tokenize(line: &String) -> (tokens: Vec<String>)
    requires
        tokenize_spec(line@) is Some,
    ensures
        strings_view(tokens@) == tokenize_spec(line@)->0,
{
    match tokenize_checked(line) {
        Some(t) => t,
        None => Vec::new(),
    }
}

} // verus!
