//! The text form of an edge: a line that starts with two node identifiers in
//! decimal notation, separated by whitespace.

use crate::graph::SocialNetwork;
use vstd::prelude::*;
use vstd::std_specs::iter::IteratorSpec;

verus! {

broadcast use vstd::string::group_string_axioms;

/// `c` is a whitespace character: one with Unicode's property White_Space.
pub open spec fn is_space(c: char) -> bool {
    let u = c as u32;
    ||| 0x09 <= u <= 0x0D
    ||| u == 0x20
    ||| u == 0x85
    ||| u == 0xA0
    ||| u == 0x1680
    ||| 0x2000 <= u <= 0x200A
    ||| u == 0x2028
    ||| u == 0x2029
    ||| u == 0x202F
    ||| u == 0x205F
    ||| u == 0x3000
}

/// `c` is one of the digits `0` to `9`.
pub open spec fn is_digit(c: char) -> bool {
    0x30 <= c as u32 <= 0x39
}

/// The value of the digit `c`.
pub open spec fn digit_value(c: char) -> nat {
    if is_digit(c) {
        (c as u32 - 0x30) as nat
    } else {
        0
    }
}

/// The first index from `i` on at which `s` has no whitespace character, or
/// the length of `s` if there is none.
pub open spec fn skip_spaces(s: Seq<char>, i: int) -> int
    decreases s.len() - i,
{
    if 0 <= i < s.len() && is_space(s[i]) {
        skip_spaces(s, i + 1)
    } else {
        i
    }
}

/// The first index from `i` on at which `s` has a whitespace character, or
/// the length of `s` if there is none.
pub open spec fn token_end(s: Seq<char>, i: int) -> int
    decreases s.len() - i,
{
    if 0 <= i < s.len() && !is_space(s[i]) {
        token_end(s, i + 1)
    } else {
        i
    }
}

/// The number that the digits `ds` denote in decimal notation.
pub open spec fn decimal(ds: Seq<char>) -> nat
    decreases ds.len(),
{
    if ds.len() == 0 {
        0
    } else {
        decimal(ds.drop_last()) * 10 + digit_value(ds.last())
    }
}

/// Every character of `ds` is a digit.
pub open spec fn all_digits(ds: Seq<char>) -> bool {
    forall|i: int| 0 <= i < ds.len() ==> is_digit(#[trigger] ds[i])
}

/// The node identifier that `ds` denotes: one or more digits whose value
/// fits the identifier.
pub open spec fn unsigned(ds: Seq<char>) -> Option<u32> {
    if ds.len() > 0 && all_digits(ds) && decimal(ds) <= u32::MAX {
        Some(decimal(ds) as u32)
    } else {
        None
    }
}

/// The node identifier that the token `tok` denotes: one that its digits
/// denote, with or without a `+` before them.
pub open spec fn number(tok: Seq<char>) -> Option<u32> {
    if tok.len() > 0 && tok[0] == '+' {
        unsigned(tok.subrange(1, tok.len() as int))
    } else {
        unsigned(tok)
    }
}

/// The edge that the line `s` denotes: its two tokens, where it has exactly
/// two and both are node identifiers. After the second token nothing but
/// whitespace may follow.
pub open spec fn edge_of(s: Seq<char>) -> Option<(u32, u32)> {
    let a = skip_spaces(s, 0);
    let b = token_end(s, a);
    let c = skip_spaces(s, b);
    let d = token_end(s, c);
    if skip_spaces(s, d) == s.len() {
        match (number(s.subrange(a, b)), number(s.subrange(c, d))) {
            (Some(x), Some(y)) => Some((x, y)),
            _ => None,
        }
    } else {
        None
    }
}

/// The digits of a prefix denote no more than all the digits do.
proof fn lemma_decimal_prefix(ds: Seq<char>, k: int)
    requires
        0 <= k <= ds.len(),
    ensures
        decimal(ds.take(k)) <= decimal(ds),
    decreases ds.len(),
{
    if k == ds.len() {
        assert(ds.take(k) =~= ds);
    } else {
        lemma_decimal_prefix(ds.drop_last(), k);
        assert(ds.drop_last().take(k) =~= ds.take(k));
    }
}

fn is_space_char(c: char) -> (b: bool)
    ensures
        b == is_space(c),
{
    let u: u32 = c as u32;
    (0x09 <= u && u <= 0x0D) || u == 0x20 || u == 0x85 || u == 0xA0 || u == 0x1680 || (0x2000 <= u
        && u <= 0x200A) || u == 0x2028 || u == 0x2029 || u == 0x202F || u == 0x205F || u == 0x3000
}

fn skip_spaces_from(chars: &Vec<char>, start: usize) -> (r: usize)
    requires
        start <= chars.len(),
    ensures
        r == skip_spaces(chars@, start as int),
        start <= r <= chars.len(),
{
    let mut i: usize = start;
    while i < chars.len() && is_space_char(chars[i])
        invariant
            start <= i <= chars.len(),
            skip_spaces(chars@, start as int) == skip_spaces(chars@, i as int),
        decreases chars.len() - i,
    {
        i += 1;
    }
    i
}

fn token_end_from(chars: &Vec<char>, start: usize) -> (r: usize)
    requires
        start <= chars.len(),
    ensures
        r == token_end(chars@, start as int),
        start <= r <= chars.len(),
{
    let mut i: usize = start;
    while i < chars.len() && !is_space_char(chars[i])
        invariant
            start <= i <= chars.len(),
            token_end(chars@, start as int) == token_end(chars@, i as int),
        decreases chars.len() - i,
    {
        i += 1;
    }
    i
}

/// Reads the token that `chars` holds from index `from` up to `to`.
fn parse_number(chars: &Vec<char>, from: usize, to: usize) -> (r: Option<u32>)
    requires
        from <= to <= chars.len(),
    ensures
        r == number(chars@.subrange(from as int, to as int)),
{
    let ghost tok = chars@.subrange(from as int, to as int);
    let mut first: usize = from;
    if first < to && chars[first] == '+' {
        first += 1;
    }
    let ghost ds = chars@.subrange(first as int, to as int);
    proof {
        if first > from {
            assert(tok[0] == '+');
            assert(ds =~= tok.subrange(1, tok.len() as int));
        } else {
            assert(tok.len() > 0 ==> tok[0] == chars@[from as int]);
            assert(ds =~= tok);
        }
        assert(number(tok) == unsigned(ds));
    }
    if first == to {
        return None;
    }
    let mut acc: u64 = 0;
    let mut j: usize = first;
    while j < to
        invariant
            from <= first <= j <= to <= chars.len(),
            ds == chars@.subrange(first as int, to as int),
            number(chars@.subrange(from as int, to as int)) == unsigned(ds),
            acc == decimal(ds.take(j - first)),
            acc <= u32::MAX,
            forall|i: int| 0 <= i < j - first ==> is_digit(#[trigger] ds[i]),
        decreases to - j,
    {
        let u: u32 = chars[j] as u32;
        assert(chars@[j as int] == ds[j - first]);
        if u < 0x30 || u > 0x39 {
            assert(!is_digit(ds[j - first]));
            return None;
        }
        proof {
            assert(ds.take(j + 1 - first).drop_last() =~= ds.take(j - first));
            assert(ds.take(j + 1 - first).last() == ds[j - first]);
        }
        acc = acc * 10 + (u - 0x30) as u64;
        if acc > 0xFFFF_FFFF {
            proof {
                lemma_decimal_prefix(ds, j + 1 - first);
            }
            return None;
        }
        j += 1;
    }
    proof {
        assert(ds.take(to - first) =~= ds);
    }
    Some(acc as u32)
}

/// Reads an edge from a line of text: two whitespace-separated tokens that
/// both denote node identifiers. A line with fewer or more tokens, or with a
/// token that is no node identifier, gives `None`.
pub fn parse_edge(line: &str) -> (r: Option<(u32, u32)>)
    ensures
        r == edge_of(line@),
{
    let mut chars: Vec<char> = Vec::new();
    for c in it: line.chars()
        invariant
            it.seq() == line@,
            chars@ == line@.take(it.index()),
    {
        chars.push(c);
        assert(line@.take(it.index() + 1) =~= line@.take(it.index()).push(line@[it.index()]));
    }
    assert(chars@ =~= line@);
    let a = skip_spaces_from(&chars, 0);
    let b = token_end_from(&chars, a);
    let c = skip_spaces_from(&chars, b);
    let d = token_end_from(&chars, c);
    if skip_spaces_from(&chars, d) != chars.len() {
        return None;
    }
    match (parse_number(&chars, a, b), parse_number(&chars, c, d)) {
        (Some(x), Some(y)) => Some((x, y)),
        _ => None,
    }
}

impl SocialNetwork {
    /// Inserts the edge that `line` denotes, if it denotes one, and says
    /// whether it did; any other line leaves the graph as it is, and so does
    /// a line whose edge the graph already has.
    pub fn add_line(&mut self, line: &str) -> (added: bool)
        requires
            old(self).wf(),
        ensures
            final(self).wf(),
            added == edge_of(line@).is_some(),
            !added ==> final(self)@ == old(self)@,
            added ==> {
                let (a, b) = edge_of(line@).unwrap();
                &&& final(self)@.dom() == old(self)@.dom().insert(a).insert(b)
                &&& final(self).adjacent(a, b)
                &&& final(self).adjacent(b, a)
                &&& forall|x: u32, y: u32|
                    final(self).adjacent(x, y) <==> old(self).adjacent(x, y) || (x == a && y == b)
                        || (x == b && y == a)
                &&& old(self).adjacent(a, b) ==> final(self)@ == old(self)@
            },
    {
        match parse_edge(line) {
            Some((a, b)) => {
                self.add_edge(a, b);
                true
            },
            None => false,
        }
    }
}

} // verus!
