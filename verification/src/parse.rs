//! Reading a formula from its textual form, such as `{a,b},{-a,c}`.
//!
//! Blanks are ignored. Clauses are separated by `},`; what remains of a
//! clause once its braces are taken out is a list of literals separated by
//! commas. A literal that holds a `-` is negated, and its name is what is
//! left when the dashes at both ends are taken off.

use vstd::prelude::*;
use crate::formula::{Clause, Formula, Lit, Literal, CNF};
use crate::text::{chars_of, string_of};

verus! {

/// The sequence without the occurrences of `c`.
pub open spec fn without(s: Seq<char>, c: char) -> Seq<char> {
    s.filter(|x: char| x != c)
}

/// The separator `sep` occurs in `s` at position `i`.
pub open spec fn occurs_at(s: Seq<char>, sep: Seq<char>, i: int) -> bool {
    0 <= i && i + sep.len() <= s.len() && s.subrange(i, i + sep.len()) == sep
}

/// Position `i` is the leftmost one where `sep` occurs in `s`.
pub open spec fn first_occurrence_at(s: Seq<char>, sep: Seq<char>, i: int) -> bool {
    occurs_at(s, sep, i) && forall|k: int| 0 <= k < i ==> !occurs_at(s, sep, k)
}

/// The pieces of `s` between the occurrences of `sep`, taken from the left
/// and without overlap. There is one piece more than there are separators,
/// and a piece may be empty.
pub open spec fn split(s: Seq<char>, sep: Seq<char>) -> Seq<Seq<char>>
    decreases s.len(),
    when sep.len() > 0
{
    if exists|i: int| first_occurrence_at(s, sep, i) {
        let i = choose|i: int| first_occurrence_at(s, sep, i);
        seq![s.take(i)] + split(s.skip(i + sep.len()), sep)
    } else {
        seq![s]
    }
}

/// The sequence without the run of `c` at its start.
pub open spec fn trim_start(s: Seq<char>, c: char) -> Seq<char>
    decreases s.len(),
{
    if s.len() > 0 && s.first() == c {
        trim_start(s.drop_first(), c)
    } else {
        s
    }
}

/// The sequence without the run of `c` at its end.
pub open spec fn trim_end(s: Seq<char>, c: char) -> Seq<char>
    decreases s.len(),
{
    if s.len() > 0 && s.last() == c {
        trim_end(s.drop_last(), c)
    } else {
        s
    }
}

/// The sequence without the runs of `c` at its two ends.
pub open spec fn trim(s: Seq<char>, c: char) -> Seq<char> {
    trim_end(trim_start(s, c), c)
}

/// The literal that a token stands for.
pub open spec fn literal_of(token: Seq<char>) -> Lit {
    if token.contains('-') {
        Lit { name: trim(token, '-'), negated: true }
    } else {
        Lit { name: token, negated: false }
    }
}

/// The clause that a piece of text between clause separators stands for.
pub open spec fn clause_of(piece: Seq<char>) -> Seq<Lit> {
    split(without(without(piece, '{'), '}'), seq![',']).map_values(|t: Seq<char>| literal_of(t))
}

/// The formula that a text stands for.
pub open spec fn formula_of(text: Seq<char>) -> Formula {
    split(without(text, ' '), seq!['}', ',']).map_values(|p: Seq<char>| clause_of(p))
}

/// A copy of the characters from position `from` up to position `to`.
fn copy_range(s: &Vec<char>, from: usize, to: usize) -> (part: Vec<char>)
    requires
        from <= to <= s.len(),
    ensures
        part@ == s@.subrange(from as int, to as int),
{
    let mut part: Vec<char> = Vec::new();
    let mut i: usize = from;
    while i < to
        invariant
            from <= i <= to <= s.len(),
            part@ == s@.subrange(from as int, i as int),
        decreases to - i,
    {
        part.push(s[i]);
        assert(s@.subrange(from as int, i + 1) =~= s@.subrange(from as int, i as int).push(
            s@[i as int],
        ));
        i += 1;
    }
    part
}

/// A copy of the characters without the occurrences of `c`.
fn remove_char(s: &Vec<char>, c: char) -> (kept: Vec<char>)
    ensures
        kept@ == without(s@, c),
{
    let mut kept: Vec<char> = Vec::new();
    let mut i: usize = 0;
    proof {
        reveal(Seq::filter);
        assert(kept@ =~= without(s@.take(0), c));
    }
    while i < s.len()
        invariant
            i <= s.len(),
            kept@ == without(s@.take(i as int), c),
        decreases s.len() - i,
    {
        proof {
            reveal(Seq::filter);
            assert(s@.take(i + 1).drop_last() =~= s@.take(i as int));
        }
        if s[i] != c {
            kept.push(s[i]);
        }
        i += 1;
    }
    assert(s@.take(s.len() as int) =~= s@);
    kept
}

/// Whether `c` occurs among the characters.
fn contains_char(s: &Vec<char>, c: char) -> (found: bool)
    ensures
        found == s@.contains(c),
{
    let mut i: usize = 0;
    while i < s.len()
        invariant
            i <= s.len(),
            forall|k: int| 0 <= k < i ==> s@[k] != c,
        decreases s.len() - i,
    {
        if s[i] == c {
            return true;
        }
        i += 1;
    }
    false
}

/// Whether the separator occurs at position `i`.
fn matches_at(s: &Vec<char>, sep: &Vec<char>, i: usize) -> (found: bool)
    requires
        i + sep.len() <= s.len(),
    ensures
        found == occurs_at(s@, sep@, i as int),
{
    let ghost window = s@.subrange(i as int, i + sep.len());
    let mut k: usize = 0;
    while k < sep.len()
        invariant
            k <= sep.len(),
            i + sep.len() <= s.len(),
            window == s@.subrange(i as int, i + sep.len()),
            forall|h: int| 0 <= h < k ==> window[h] == sep@[h],
        decreases sep.len() - k,
    {
        if s[i + k] != sep[k] {
            assert(window[k as int] != sep@[k as int]);
            return false;
        }
        k += 1;
    }
    assert(window =~= sep@);
    true
}

/// The pieces of the text between the occurrences of the separator.
fn split_on(s: &Vec<char>, sep: &Vec<char>) -> (pieces: Vec<Vec<char>>)
    requires
        sep.len() > 0,
    ensures
        pieces.deep_view() == split(s@, sep@),
{
    let n = sep.len();
    let mut pieces: Vec<Vec<char>> = Vec::new();
    let mut start: usize = 0;
    let mut i: usize = 0;
    proof {
        assert(s@.skip(0) =~= s@);
        assert(pieces.deep_view() + split(s@.skip(0), sep@) =~= split(s@, sep@));
    }
    while s.len() - i >= n
        invariant
            n == sep.len(),
            n > 0,
            start <= i <= s.len(),
            split(s@, sep@) == pieces.deep_view() + split(s@.skip(start as int), sep@),
            forall|k: int| start <= k < i ==> !occurs_at(s@, sep@, k),
        decreases s.len() - i,
    {
        let ghost rest = s@.skip(start as int);
        let ghost done = pieces.deep_view();
        if matches_at(s, sep, i) {
            proof {
                assert(rest.subrange(i - start, i - start + n) =~= s@.subrange(i as int, i + n));
                assert forall|k: int| 0 <= k < i - start implies !occurs_at(rest, sep@, k) by {
                    assert(!occurs_at(s@, sep@, start + k));
                    assert(rest.subrange(k, k + n) =~= s@.subrange(start + k, start + k + n));
                }
                lemma_split_at(rest, sep@, i - start);
                assert(rest.take(i - start) =~= s@.subrange(start as int, i as int));
                assert(rest.skip(i - start + n) =~= s@.skip(i + n));
            }
            let piece = copy_range(s, start, i);
            proof {
                lemma_chars_model(piece);
            }
            pieces.push(piece);
            proof {
                assert(pieces.deep_view() =~= done.push(s@.subrange(start as int, i as int)));
                assert(done + (seq![s@.subrange(start as int, i as int)] + split(
                    s@.skip(i + n),
                    sep@,
                )) =~= done.push(s@.subrange(start as int, i as int)) + split(
                    s@.skip(i + n),
                    sep@,
                ));
            }
            i = i + n;
            start = i;
        } else {
            i += 1;
        }
    }
    let ghost rest = s@.skip(start as int);
    let ghost done = pieces.deep_view();
    proof {
        assert forall|k: int| !occurs_at(rest, sep@, k) by {
            if occurs_at(rest, sep@, k) {
                assert(rest.subrange(k, k + n) =~= s@.subrange(start + k, start + k + n));
                assert(occurs_at(s@, sep@, start + k));
            }
        }
        lemma_split_whole(rest, sep@);
        assert(rest =~= s@.subrange(start as int, s.len() as int));
    }
    let piece = copy_range(s, start, s.len());
    proof {
        lemma_chars_model(piece);
    }
    pieces.push(piece);
    proof {
        assert(pieces.deep_view() =~= done.push(rest));
        assert(done + seq![rest] =~= done.push(rest));
    }
    pieces
}

/// A copy of the characters without the runs of `c` at the two ends.
fn trim_char(s: &Vec<char>, c: char) -> (trimmed: Vec<char>)
    ensures
        trimmed@ == trim(s@, c),
{
    let mut from: usize = 0;
    proof {
        assert(s@.skip(0) =~= s@);
    }
    while from < s.len() && s[from] == c
        invariant
            from <= s.len(),
            trim_start(s@, c) == trim_start(s@.skip(from as int), c),
        decreases s.len() - from,
    {
        assert(s@.skip(from as int).drop_first() =~= s@.skip(from + 1));
        from += 1;
    }
    let ghost body = s@.skip(from as int);
    assert(trim_start(s@, c) == body);
    let mut to: usize = s.len();
    proof {
        assert(body.take(to - from) =~= body);
    }
    while from < to && s[to - 1] == c
        invariant
            from <= to <= s.len(),
            body == s@.skip(from as int),
            trim_end(body, c) == trim_end(body.take(to - from), c),
        decreases to - from,
    {
        assert(body.take(to - from).drop_last() =~= body.take(to - 1 - from));
        to -= 1;
    }
    assert(trim_end(body, c) == body.take(to - from));
    assert(body.take(to - from) =~= s@.subrange(from as int, to as int));
    copy_range(s, from, to)
}

/// Reads one literal.
fn parse_literal(token: &Vec<char>) -> (literal: Literal)
    ensures
        literal@ == literal_of(token@),
{
    if contains_char(token, '-') {
        let name = trim_char(token, '-');
        Literal { name: string_of(&name), negated: true }
    } else {
        Literal { name: string_of(token), negated: false }
    }
}

/// Reads one clause from the text between two clause separators.
fn parse_clause(piece: &Vec<char>) -> (clause: Clause)
    ensures
        clause.deep_view() == clause_of(piece@),
{
    let body = remove_char(&remove_char(piece, '{'), '}');
    let mut comma: Vec<char> = Vec::new();
    comma.push(',');
    assert(comma@ =~= seq![',']);
    let tokens = split_on(&body, &comma);
    let mut clause: Clause = Vec::new();
    let mut i: usize = 0;
    while i < tokens.len()
        invariant
            i <= tokens.len(),
            clause.len() == i,
            forall|k: int| 0 <= k < i ==> clause[k]@ == literal_of(tokens[k]@),
        decreases tokens.len() - i,
    {
        clause.push(parse_literal(&tokens[i]));
        i += 1;
    }
    assert(clause.deep_view() =~= tokens.deep_view().map_values(|t: Seq<char>| literal_of(t))) by {
        assert forall|k: int| 0 <= k < tokens.len() implies tokens.deep_view()[k] == tokens[k]@ by {
            lemma_chars_model(tokens[k]);
        }
    }
    clause
}

/// Reads a formula from text such as `{a,b},{-a,c},{-b,-c}`.
pub fn parse2(formula: &str) -> (cnf: CNF)
    ensures
        cnf.deep_view() == formula_of(formula@),
{
    let text = remove_char(&chars_of(formula), ' ');
    let mut separator: Vec<char> = Vec::new();
    separator.push('}');
    separator.push(',');
    assert(separator@ =~= seq!['}', ',']);
    let pieces = split_on(&text, &separator);
    let mut cnf: CNF = Vec::new();
    let mut i: usize = 0;
    while i < pieces.len()
        invariant
            i <= pieces.len(),
            cnf.len() == i,
            forall|k: int| 0 <= k < i ==> cnf[k].deep_view() == clause_of(pieces[k]@),
        decreases pieces.len() - i,
    {
        cnf.push(parse_clause(&pieces[i]));
        i += 1;
    }
    assert(cnf.deep_view() =~= pieces.deep_view().map_values(|p: Seq<char>| clause_of(p))) by {
        assert forall|k: int| 0 <= k < pieces.len() implies pieces.deep_view()[k] == pieces[k]@ by {
            lemma_chars_model(pieces[k]);
        }
    }
    cnf
}

/// Splitting at the leftmost separator gives the text before it, then the
/// pieces of the text after it.
pub proof fn lemma_split_at(s: Seq<char>, sep: Seq<char>, i: int)
    requires
        sep.len() > 0,
        first_occurrence_at(s, sep, i),
    ensures
        split(s, sep) == seq![s.take(i)] + split(s.skip(i + sep.len()), sep),
{
    let k = choose|k: int| first_occurrence_at(s, sep, k);
    assert(first_occurrence_at(s, sep, k));
    if k < i {
        assert(!occurs_at(s, sep, k));
    } else if i < k {
        assert(!occurs_at(s, sep, i));
    }
}

/// A text in which the separator does not occur is a single piece.
pub proof fn lemma_split_whole(s: Seq<char>, sep: Seq<char>)
    requires
        sep.len() > 0,
        forall|k: int| !occurs_at(s, sep, k),
    ensures
        split(s, sep) == seq![s],
{
    if exists|i: int| first_occurrence_at(s, sep, i) {
        let i = choose|i: int| first_occurrence_at(s, sep, i);
        assert(occurs_at(s, sep, i));
    }
}

/// Characters are their own model, so a vector of characters is modelled by
/// its plain view.
proof fn lemma_chars_model(v: Vec<char>)
    ensures
        v.deep_view() == v@,
{
    assert(v.deep_view() =~= v@);
}

} // verus!
