//! Verified text primitives shared by both description grammars: whitespace
//! stripping, splitting on a delimiter, and decimal parsing.  The grammars
//! are whitespace-insensitive, so every line is stripped of whitespace before
//! interpretation.

use vstd::prelude::*;
use vstd::string::StrSliceExecFns;

verus! {

/// Whitespace, for the purposes of the grammars: the ASCII space, tab,
/// newline, carriage return, vertical tab and form feed.
pub open spec fn is_ws(c: char) -> bool {
    c == ' ' || c == '\t' || c == '\n' || c == '\r' || c == '\u{b}' || c == '\u{c}'
}

pub(crate) fn is_ws_exec(c: char) -> (r: bool)
    ensures
        r == is_ws(c),
{
    c == ' ' || c == '\t' || c == '\n' || c == '\r' || c == '\u{b}' || c == '\u{c}'
}

/// `s` with every whitespace character removed.
pub open spec fn strip_ws(s: Seq<char>) -> Seq<char>
    decreases s.len(),
{
    if s.len() == 0 {
        Seq::empty()
    } else if is_ws(s.last()) {
        strip_ws(s.drop_last())
    } else {
        strip_ws(s.drop_last()).push(s.last())
    }
}

pub(crate) fn strip_ws_exec(v: &Vec<char>) -> (r: Vec<char>)
    ensures
        r@ == strip_ws(v@),
{
    let mut r: Vec<char> = Vec::new();
    let mut i: usize = 0;
    while i < v.len()
        invariant
            i <= v.len(),
            r@ == strip_ws(v@.subrange(0, i as int)),
        decreases v.len() - i,
    {
        proof {
            assert(v@.subrange(0, i + 1).drop_last() =~= v@.subrange(0, i as int));
        }
        let c = v[i];
        if !is_ws_exec(c) {
            r.push(c);
        }
        i += 1;
    }
    proof {
        assert(v@.subrange(0, v.len() as int) =~= v@);
    }
    r
}

/// `s` split on the delimiter `d`: one part more than there are delimiters,
/// parts in order, each delimiter-free.  The empty sequence splits into one
/// empty part.
pub open spec fn split_on(s: Seq<char>, d: char) -> Seq<Seq<char>>
    decreases s.len(),
{
    if s.len() == 0 {
        seq![Seq::empty()]
    } else if s.last() == d {
        split_on(s.drop_last(), d).push(Seq::empty())
    } else {
        let p = split_on(s.drop_last(), d);
        p.update(p.len() - 1, p.last().push(s.last()))
    }
}

pub proof fn lemma_split_on_len(s: Seq<char>, d: char)
    ensures
        split_on(s, d).len() >= 1,
    decreases s.len(),
{
    if s.len() != 0 {
        lemma_split_on_len(s.drop_last(), d);
    }
}

pub(crate) fn split_exec(v: &Vec<char>, d: char) -> (r: Vec<Vec<char>>)
    ensures
        r@.map_values(|p: Vec<char>| p@) == split_on(v@, d),
{
    let mut done: Vec<Vec<char>> = Vec::new();
    let mut cur: Vec<char> = Vec::new();
    let mut i: usize = 0;
    while i < v.len()
        invariant
            i <= v.len(),
            split_on(v@.subrange(0, i as int), d) == done@.map_values(
                |p: Vec<char>| p@,
            ).push(cur@),
        decreases v.len() - i,
    {
        proof {
            assert(v@.subrange(0, i + 1).drop_last() =~= v@.subrange(0, i as int));
            lemma_split_on_len(v@.subrange(0, i as int), d);
        }
        let c = v[i];
        if c == d {
            done.push(cur);
            cur = Vec::new();
            proof {
                assert(done@.map_values(|p: Vec<char>| p@).drop_last() =~= done@.drop_last().map_values(
                    |p: Vec<char>| p@,
                ));
                assert(split_on(v@.subrange(0, i + 1), d) =~= done@.map_values(
                    |p: Vec<char>| p@,
                ).push(cur@));
            }
        } else {
            cur.push(c);
            proof {
                let ghost m = done@.map_values(|p: Vec<char>| p@);
                assert(split_on(v@.subrange(0, i + 1), d) =~= m.push(cur@));
            }
        }
        i += 1;
    }
    proof {
        assert(v@.subrange(0, v.len() as int) =~= v@);
    }
    done.push(cur);
    proof {
        assert(done@.drop_last().map_values(|p: Vec<char>| p@).push(done@.last()@) =~= done@.map_values(
            |p: Vec<char>| p@,
        ));
    }
    done
}

/// A decimal digit.
pub open spec fn is_digit(c: char) -> bool {
    c == '0' || c == '1' || c == '2' || c == '3' || c == '4' || c == '5' || c == '6' || c == '7'
        || c == '8' || c == '9'
}

/// The value of one digit.
pub open spec fn digit_val(c: char) -> nat {
    if c == '0' {
        0
    } else if c == '1' {
        1
    } else if c == '2' {
        2
    } else if c == '3' {
        3
    } else if c == '4' {
        4
    } else if c == '5' {
        5
    } else if c == '6' {
        6
    } else if c == '7' {
        7
    } else if c == '8' {
        8
    } else if c == '9' {
        9
    } else {
        0
    }
}

pub(crate) fn digit_of(c: char) -> (r: Option<usize>)
    ensures
        r is Some <==> is_digit(c),
        r is Some ==> r.unwrap() == digit_val(c),
{
    match c {
        '0' => Some(0),
        '1' => Some(1),
        '2' => Some(2),
        '3' => Some(3),
        '4' => Some(4),
        '5' => Some(5),
        '6' => Some(6),
        '7' => Some(7),
        '8' => Some(8),
        '9' => Some(9),
        _ => None,
    }
}

/// Every position holds a digit.
pub open spec fn all_digits(s: Seq<char>) -> bool {
    forall|i: int| 0 <= i < s.len() ==> is_digit(s[i])
}

/// The value of a digit string, most significant digit first.
pub open spec fn digits_val(s: Seq<char>) -> nat
    decreases s.len(),
{
    if s.len() == 0 {
        0
    } else {
        digits_val(s.drop_last()) * 10 + digit_val(s.last())
    }
}

/// When a field parses as a `usize`: non-empty, digits only, in range.
pub open spec fn parse_usize_ok(s: Seq<char>) -> bool {
    s.len() > 0 && all_digits(s) && digits_val(s) <= usize::MAX
}

pub(crate) fn parse_usize(v: &Vec<char>) -> (r: Option<usize>)
    ensures
        r is Some <==> parse_usize_ok(v@),
        r is Some ==> r.unwrap() == digits_val(v@),
{
    if v.len() == 0 {
        return None;
    }
    let mut val: usize = 0;
    let mut over: bool = false;
    let mut i: usize = 0;
    while i < v.len()
        invariant
            i <= v.len(),
            all_digits(v@.subrange(0, i as int)),
            !over ==> val == digits_val(v@.subrange(0, i as int)),
            over ==> digits_val(v@.subrange(0, i as int)) > usize::MAX,
        decreases v.len() - i,
    {
        proof {
            assert(v@.subrange(0, i + 1).drop_last() =~= v@.subrange(0, i as int));
        }
        let c = v[i];
        let d: usize;
        match digit_of(c) {
            None => {
                assert(!is_digit(v@[i as int]));
                return None;
            },
            Some(dd) => {
                d = dd;
            },
        }
        if over {
            assert(digits_val(v@.subrange(0, i + 1)) > usize::MAX);
        } else {
            match val.checked_mul(10) {
                None => {
                    over = true;
                    assert(digits_val(v@.subrange(0, i + 1)) > usize::MAX);
                },
                Some(m) => {
                    match m.checked_add(d) {
                        None => {
                            over = true;
                            assert(digits_val(v@.subrange(0, i + 1)) > usize::MAX);
                        },
                        Some(t) => {
                            val = t;
                        },
                    }
                },
            }
        }
        i += 1;
    }
    proof {
        assert(v@.subrange(0, v.len() as int) =~= v@);
    }
    if over {
        None
    } else {
        Some(val)
    }
}

/// `s` is the canonical decimal rendering of `n`: digits only, the value is
/// `n`, and no leading zero unless `s` is exactly `0`.
pub open spec fn canonical_dec(s: Seq<char>, n: nat) -> bool {
    s.len() > 0 && all_digits(s) && digits_val(s) == n && (s.len() == 1 || s[0] != '0')
}

pub(crate) fn is_canonical_dec(v: &Vec<char>, n: usize) -> (r: bool)
    ensures
        r == canonical_dec(v@, n as nat),
{
    match parse_usize(v) {
        None => false,
        Some(m) => m == n && (v.len() == 1 || v[0] != '0'),
    }
}

/// The last position of `c` in `s`, if any.
pub open spec fn find_last_idx(s: Seq<char>, c: char) -> Option<int>
    decreases s.len(),
{
    if s.len() == 0 {
        None
    } else if s.last() == c {
        Some(s.len() - 1)
    } else {
        find_last_idx(s.drop_last(), c)
    }
}

pub proof fn lemma_find_last_idx(s: Seq<char>, c: char)
    ensures
        find_last_idx(s, c) is Some <==> s.contains(c),
        find_last_idx(s, c) matches Some(i) ==> 0 <= i < s.len() && s[i] == c,
    decreases s.len(),
{
    if s.len() != 0 {
        lemma_find_last_idx(s.drop_last(), c);
        if s.last() == c {
            assert(s[s.len() - 1] == c);
        } else {
            if s.drop_last().contains(c) {
                let i = choose|i: int| 0 <= i < s.drop_last().len() && s.drop_last()[i] == c;
                assert(s[i] == c);
            }
            if s.contains(c) {
                let i = choose|i: int| 0 <= i < s.len() && s[i] == c;
                assert(i < s.len() - 1 && s.drop_last()[i] == c);
            }
        }
    }
}

pub(crate) fn find_last(v: &Vec<char>, c: char) -> (r: Option<usize>)
    ensures
        match r {
            Some(i) => find_last_idx(v@, c) == Some(i as int),
            None => find_last_idx(v@, c) is None,
        },
{
    let mut i: usize = v.len();
    proof {
        assert(v@.subrange(0, v.len() as int) =~= v@);
    }
    while i > 0
        invariant
            i <= v.len(),
            find_last_idx(v@, c) == find_last_idx(v@.subrange(0, i as int), c),
        decreases i,
    {
        i = i - 1;
        proof {
            assert(v@.subrange(0, i + 1).drop_last() =~= v@.subrange(0, i as int));
        }
        if v[i] == c {
            return Some(i);
        }
    }
    proof {
        assert(v@.subrange(0, 0) =~= Seq::<char>::empty());
    }
    None
}

pub(crate) fn contains_char(v: &Vec<char>, c: char) -> (r: bool)
    ensures
        r == v@.contains(c),
{
    proof {
        lemma_find_last_idx(v@, c);
    }
    match find_last(v, c) {
        Some(_) => true,
        None => false,
    }
}

/// The characters of `s`, as a vector.
pub(crate) fn str_to_chars(s: &str) -> (r: Vec<char>)
    ensures
        r@ == s@,
{
    let n = s.unicode_len();
    let mut r: Vec<char> = Vec::new();
    let mut i: usize = 0;
    while i < n
        invariant
            i <= n,
            n == s@.len(),
            r@ == s@.subrange(0, i as int),
        decreases n - i,
    {
        r.push(s.get_char(i));
        proof {
            assert(r@ =~= s@.subrange(0, i + 1));
        }
        i += 1;
    }
    proof {
        assert(s@.subrange(0, n as int) =~= s@);
    }
    r
}

/// The characters of `v` from `a` up to `b`.
pub(crate) fn subvec(v: &Vec<char>, a: usize, b: usize) -> (r: Vec<char>)
    requires
        a <= b <= v@.len(),
    ensures
        r@ == v@.subrange(a as int, b as int),
{
    let mut r: Vec<char> = Vec::new();
    let mut i: usize = a;
    while i < b
        invariant
            a <= i <= b <= v@.len(),
            r@ == v@.subrange(a as int, i as int),
        decreases b - i,
    {
        r.push(v[i]);
        proof {
            assert(r@ =~= v@.subrange(a as int, i + 1));
        }
        i += 1;
    }
    r
}

/// Whether every character of `v` is a member of `alphabet`.
pub(crate) fn all_in_alphabet(v: &Vec<char>, alphabet: &Vec<char>) -> (r: bool)
    ensures
        r == (forall|q: int| 0 <= q < v@.len() ==> alphabet@.contains(#[trigger] v@[q])),
{
    let mut q: usize = 0;
    while q < v.len()
        invariant
            q <= v@.len(),
            forall|t: int| 0 <= t < q ==> alphabet@.contains(#[trigger] v@[t]),
        decreases v.len() - q,
    {
        if !contains_char(alphabet, v[q]) {
            return false;
        }
        q += 1;
    }
    true
}

/// Line `k` of a split file, stripped of whitespace; a line past the end of
/// the file reads as empty.
pub open spec fn line_at(lines: Seq<Seq<char>>, k: int) -> Seq<char> {
    if 0 <= k < lines.len() {
        strip_ws(lines[k])
    } else {
        Seq::empty()
    }
}

pub(crate) fn get_line(lines: &Vec<Vec<char>>, k: usize) -> (r: Vec<char>)
    ensures
        r@ == line_at(lines@.map_values(|p: Vec<char>| p@), k as int),
{
    if k < lines.len() {
        strip_ws_exec(&lines[k])
    } else {
        Vec::new()
    }
}

/// Line `a + b` of a split file, stripped; the sum is taken without overflow,
/// since a line index past any representable file reads as empty anyway.
pub(crate) fn get_line_sum(lines: &Vec<Vec<char>>, a: usize, b: usize) -> (r: Vec<char>)
    ensures
        r@ == line_at(lines@.map_values(|p: Vec<char>| p@), a + b),
{
    match a.checked_add(b) {
        Some(k) => get_line(lines, k),
        None => {
            let nlines = lines.len();
            assert(nlines <= usize::MAX && a + b > usize::MAX);
            assert(a + b >= lines@.map_values(|p: Vec<char>| p@).len());
            Vec::new()
        },
    }
}

/// The stripped line reads exactly `END`.
pub open spec fn is_end_line(s: Seq<char>) -> bool {
    s == seq!['E', 'N', 'D']
}

pub(crate) fn is_end_line_exec(v: &Vec<char>) -> (r: bool)
    ensures
        r == is_end_line(v@),
{
    if v.len() == 3 && v[0] == 'E' && v[1] == 'N' && v[2] == 'D' {
        proof {
            assert(v@ =~= seq!['E', 'N', 'D']);
        }
        true
    } else {
        proof {
            assert(v@.len() == 3 ==> (v@ =~= seq!['E', 'N', 'D'] ==> v@[0] == 'E' && v@[1] == 'N'
                && v@[2] == 'D'));
        }
        false
    }
}

} // verus!
