//! Trimming and searching text, seen as a sequence of characters.

use vstd::prelude::*;

verus! {

/// Whether `c` is white space: a character with the Unicode property
/// `White_Space`.
pub open spec fn is_whitespace(c: char) -> bool {
    let code = c as u32;
    ||| 0x09 <= code <= 0x0D
    ||| code == 0x20
    ||| code == 0x85
    ||| code == 0xA0
    ||| code == 0x1680
    ||| 0x2000 <= code <= 0x200A
    ||| code == 0x2028
    ||| code == 0x2029
    ||| code == 0x202F
    ||| code == 0x205F
    ||| code == 0x3000
}

/// `s` without the white space it begins with.
pub open spec fn trim_start(s: Seq<char>) -> Seq<char>
    decreases s.len(),
{
    if s.len() > 0 && is_whitespace(s.first()) {
        trim_start(s.drop_first())
    } else {
        s
    }
}

/// `s` without the white space it ends with.
pub open spec fn trim_end(s: Seq<char>) -> Seq<char>
    decreases s.len(),
{
    if s.len() > 0 && is_whitespace(s.last()) {
        trim_end(s.drop_last())
    } else {
        s
    }
}

/// `s` without the white space around it.
pub open spec fn trim(s: Seq<char>) -> Seq<char> {
    trim_end(trim_start(s))
}

/// The index of the first `c` in `s`, or `s.len()` where `s` holds none.
pub open spec fn first_index_of(s: Seq<char>, c: char) -> int
    decreases s.len(),
{
    if s.len() == 0 || s.first() == c {
        0
    } else {
        1 + first_index_of(s.drop_first(), c)
    }
}

/// The index at which `a` directly followed by `b` first occurs in `s`, or
/// `s.len()` where it does not occur.
pub open spec fn first_index_of_pair(s: Seq<char>, a: char, b: char) -> int
    decreases s.len(),
{
    if s.len() < 2 {
        s.len() as int
    } else if s[0] == a && s[1] == b {
        0
    } else {
        1 + first_index_of_pair(s.drop_first(), a, b)
    }
}

/// Whether `a` stands at index `j` of `s`, directly followed by `b`.
pub open spec fn pair_at(s: Seq<char>, j: int, a: char, b: char) -> bool {
    0 <= j && j + 1 < s.len() && s[j] == a && s[j + 1] == b
}

/// `s` up to its first `c`, or all of `s` where it holds none.
pub open spec fn before_char(s: Seq<char>, c: char) -> Seq<char> {
    s.take(first_index_of(s, c))
}

/// What follows the first `c` in `s`, or all of `s` where it holds none.
pub open spec fn after_char(s: Seq<char>, c: char) -> Seq<char> {
    if s.contains(c) {
        s.skip(first_index_of(s, c) + 1)
    } else {
        s
    }
}

/// `s` up to the first `a` directly followed by `b`, or all of `s` where
/// that pair does not occur.
pub open spec fn before_pair(s: Seq<char>, a: char, b: char) -> Seq<char> {
    s.take(first_index_of_pair(s, a, b))
}

/// What `first_index_of` returns is the least index that holds `c`.
pub proof fn lemma_first_index_of(s: Seq<char>, c: char)
    ensures
        0 <= first_index_of(s, c) <= s.len(),
        forall|j: int| 0 <= j < first_index_of(s, c) ==> s[j] != c,
        first_index_of(s, c) < s.len() ==> s[first_index_of(s, c)] == c,
        s.contains(c) <==> first_index_of(s, c) < s.len(),
    decreases s.len(),
{
    if s.len() == 0 {
    } else if s.first() == c {
        assert(s[0] == c);
    } else {
        let rest = s.drop_first();
        lemma_first_index_of(rest, c);
        assert forall|j: int| 0 <= j < first_index_of(s, c) implies s[j] != c by {
            if j > 0 {
                assert(s[j] == rest[j - 1]);
            }
        }
        let k = first_index_of(rest, c);
        if k < rest.len() {
            assert(s[k + 1] == rest[k]);
        }
        if s.contains(c) {
            let i = choose|i: int| 0 <= i < s.len() && s[i] == c;
            assert(rest[i - 1] == c);
        }
    }
}

/// An index that holds `c`, with no `c` before it, is the first index of `c`;
/// so is `s.len()` where `s` holds no `c`.
pub proof fn lemma_first_index_of_is(s: Seq<char>, c: char, k: int)
    requires
        0 <= k <= s.len(),
        forall|j: int| 0 <= j < k ==> s[j] != c,
        k < s.len() ==> s[k] == c,
    ensures
        first_index_of(s, c) == k,
    decreases s.len(),
{
    if s.len() == 0 || s.first() == c {
    } else {
        let rest = s.drop_first();
        assert forall|j: int| 0 <= j < k - 1 implies rest[j] != c by {
            assert(rest[j] == s[j + 1]);
        }
        lemma_first_index_of_is(rest, c, k - 1);
    }
}

/// What `first_index_of_pair` returns is the least index at which the pair
/// stands.
pub proof fn lemma_first_index_of_pair(s: Seq<char>, a: char, b: char)
    ensures
        0 <= first_index_of_pair(s, a, b) <= s.len(),
        forall|j: int| 0 <= j < first_index_of_pair(s, a, b) ==> !#[trigger] pair_at(s, j, a, b),
        first_index_of_pair(s, a, b) < s.len() ==> pair_at(s, first_index_of_pair(s, a, b), a, b),
    decreases s.len(),
{
    if s.len() < 2 {
    } else if s[0] == a && s[1] == b {
    } else {
        let rest = s.drop_first();
        lemma_first_index_of_pair(rest, a, b);
        let k = first_index_of_pair(s, a, b);
        assert forall|j: int| 0 <= j < k implies !#[trigger] pair_at(s, j, a, b) by {
            if j > 0 && j + 1 < s.len() {
                assert(!pair_at(rest, j - 1, a, b));
                assert(s[j] == rest[j - 1]);
                assert(s[j + 1] == rest[j]);
            }
        }
        if k < s.len() {
            assert(pair_at(rest, k - 1, a, b));
            assert(s[k] == rest[k - 1]);
            assert(s[k + 1] == rest[k]);
        }
    }
}

/// An index at which the pair stands, with no pair before it, is the first
/// index of the pair; so is `s.len()` where the pair does not occur.
pub proof fn lemma_first_index_of_pair_is(s: Seq<char>, a: char, b: char, k: int)
    requires
        0 <= k <= s.len(),
        forall|j: int| 0 <= j < k ==> !#[trigger] pair_at(s, j, a, b),
        k < s.len() ==> pair_at(s, k, a, b),
    ensures
        first_index_of_pair(s, a, b) == k,
    decreases s.len(),
{
    if s.len() < 2 {
        assert(k == s.len()) by {
            if k < s.len() {
                assert(pair_at(s, k, a, b));
            }
        }
    } else if s[0] == a && s[1] == b {
        assert(pair_at(s, 0, a, b));
    } else {
        let rest = s.drop_first();
        assert(!pair_at(s, 0, a, b));
        assert forall|j: int| 0 <= j < k - 1 implies !#[trigger] pair_at(rest, j, a, b) by {
            assert(!pair_at(s, j + 1, a, b));
            if j + 1 < rest.len() {
                assert(rest[j] == s[j + 1]);
                assert(rest[j + 1] == s[j + 2]);
            }
        }
        if k < s.len() {
            assert(rest[k - 1] == s[k]);
            assert(rest[k] == s[k + 1]);
        }
        lemma_first_index_of_pair_is(rest, a, b, k - 1);
    }
}

/// Trimming cuts a stretch out of `s`: what is cut away is white space, and
/// what is left neither begins nor ends with white space.
pub proof fn lemma_trim(s: Seq<char>)
    ensures
        exists|from: int, to: int|
            {
                &&& 0 <= from <= to <= s.len()
                &&& #[trigger] s.subrange(from, to) == trim(s)
                &&& forall|j: int| 0 <= j < from ==> is_whitespace(s[j])
                &&& forall|j: int| to <= j < s.len() ==> is_whitespace(s[j])
            },
        trim(s).len() > 0 ==> !is_whitespace(trim(s).first()) && !is_whitespace(trim(s).last()),
{
    let from = lemma_trim_start(s);
    let t = trim_start(s);
    let keep = lemma_trim_end(t);
    let to = from + keep;
    assert(s.subrange(from, to) =~= trim(s));
    assert forall|j: int| to <= j < s.len() implies is_whitespace(s[j]) by {
        assert(s[j] == t[j - from]);
    }
    if trim(s).len() > 0 {
        assert(trim(s).first() == t.first());
    }
}

/// The number of characters that `trim_start` removes.
pub proof fn lemma_trim_start(s: Seq<char>) -> (from: int)
    ensures
        0 <= from <= s.len(),
        trim_start(s) == s.skip(from),
        forall|j: int| 0 <= j < from ==> is_whitespace(s[j]),
        from < s.len() ==> !is_whitespace(s[from]),
    decreases s.len(),
{
    if s.len() > 0 && is_whitespace(s.first()) {
        let rest = s.drop_first();
        let inner = lemma_trim_start(rest);
        assert(rest.skip(inner) =~= s.skip(inner + 1));
        assert forall|j: int| 0 <= j < inner + 1 implies is_whitespace(s[j]) by {
            if j > 0 {
                assert(s[j] == rest[j - 1]);
            }
        }
        if inner + 1 < s.len() {
            assert(s[inner + 1] == rest[inner]);
        }
        inner + 1
    } else {
        assert(s.skip(0) =~= s);
        0
    }
}

/// The number of characters that `trim_end` keeps.
pub proof fn lemma_trim_end(s: Seq<char>) -> (to: int)
    ensures
        0 <= to <= s.len(),
        trim_end(s) == s.take(to),
        forall|j: int| to <= j < s.len() ==> is_whitespace(s[j]),
        to > 0 ==> !is_whitespace(s[to - 1]),
    decreases s.len(),
{
    if s.len() > 0 && is_whitespace(s.last()) {
        let rest = s.drop_last();
        let inner = lemma_trim_end(rest);
        assert(rest.take(inner) =~= s.take(inner));
        assert forall|j: int| inner <= j < s.len() implies is_whitespace(s[j]) by {
            if j < s.len() - 1 {
                assert(s[j] == rest[j]);
            }
        }
        if inner > 0 {
            assert(s[inner - 1] == rest[inner - 1]);
        }
        inner
    } else {
        assert(s.take(s.len() as int) =~= s);
        s.len() as int
    }
}

/// A stretch of `s` with white space before and after it, which itself
/// neither begins nor ends with white space, is what trimming leaves.
pub proof fn lemma_trim_is(s: Seq<char>, from: int, to: int)
    requires
        0 <= from <= to <= s.len(),
        forall|j: int| 0 <= j < from ==> is_whitespace(s[j]),
        forall|j: int| to <= j < s.len() ==> is_whitespace(s[j]),
        from < to ==> !is_whitespace(s[from]) && !is_whitespace(s[to - 1]),
    ensures
        trim(s) == s.subrange(from, to),
{
    let f = lemma_trim_start(s);
    let t = trim_start(s);
    let k = lemma_trim_end(t);
    if from < to {
        assert(f == from) by {
            if f < from {
                assert(is_whitespace(s[f]));
            }
            if f > from {
                assert(is_whitespace(s[from]));
            }
        }
        assert(f + k == to) by {
            if f + k < to {
                assert(t[to - 1 - f] == s[to - 1]);
                assert(is_whitespace(t[to - 1 - f]));
            }
            if f + k > to {
                assert(t[k - 1] == s[f + k - 1]);
                assert(is_whitespace(s[f + k - 1]));
            }
        }
        assert(t.take(k) =~= s.subrange(from, to));
    } else {
        assert(f == s.len()) by {
            if f < s.len() {
                assert(is_whitespace(s[f]));
            }
        }
        assert(t.take(k) =~= s.subrange(from, to));
    }
}

/// `String::push` of the standard library: the text afterwards is the text
/// before with `ch` appended, as its documentation says.
pub assume_specification[ String::push ](s: &mut String, ch: char)
    ensures
        final(s)@ == old(s)@.push(ch),
;

/// Tells whether `c` is white space.
pub fn is_whitespace_char(c: char) -> (b: bool)
    ensures
        b == is_whitespace(c),
{
    let code = c as u32;
    (0x09 <= code && code <= 0x0D) || code == 0x20 || code == 0x85 || code == 0xA0 || code
        == 0x1680 || (0x2000 <= code && code <= 0x200A) || code == 0x2028 || code == 0x2029
        || code == 0x202F || code == 0x205F || code == 0x3000
}

/// The characters of `s`, one element each.
pub fn chars_of(s: &str) -> (chars: Vec<char>)
    ensures
        chars@ == s@,
{
    let mut chars: Vec<char> = Vec::new();
    for c in it: s.chars()
        invariant
            it.seq() == s@,
            chars@ == s@.take(it.index() as int),
    {
        chars.push(c);
    }
    chars
}

/// Where the text that trimming leaves begins and ends in `s`.
pub fn trim_bounds(s: &[char]) -> (bounds: (usize, usize))
    ensures
        bounds.0 <= bounds.1 <= s.len(),
        s@.subrange(bounds.0 as int, bounds.1 as int) == trim(s@),
{
    let mut from: usize = 0;
    while from < s.len() && is_whitespace_char(s[from])
        invariant
            from <= s.len(),
            forall|j: int| 0 <= j < from ==> is_whitespace(s@[j]),
        decreases s.len() - from,
    {
        from += 1;
    }
    let mut to: usize = s.len();
    while to > from && is_whitespace_char(s[to - 1])
        invariant
            from <= to <= s.len(),
            forall|j: int| to <= j < s.len() ==> is_whitespace(s@[j]),
        decreases to,
    {
        to -= 1;
    }
    proof {
        lemma_trim_is(s@, from as int, to as int);
    }
    (from, to)
}

/// The index of the first `c` in `s`, or `s.len()` where `s` holds none.
pub fn find_char(s: &[char], c: char) -> (index: usize)
    ensures
        index == first_index_of(s@, c),
        index <= s.len(),
{
    let mut i: usize = 0;
    while i < s.len() && s[i] != c
        invariant
            i <= s.len(),
            forall|j: int| 0 <= j < i ==> s@[j] != c,
        decreases s.len() - i,
    {
        i += 1;
    }
    proof {
        lemma_first_index_of_is(s@, c, i as int);
    }
    i
}

/// The index at which `a` directly followed by `b` first occurs in `s`, or
/// `s.len()` where it does not occur.
pub fn find_pair(s: &[char], a: char, b: char) -> (index: usize)
    ensures
        index == first_index_of_pair(s@, a, b),
        index <= s.len(),
{
    let n = s.len();
    if n < 2 {
        proof {
            lemma_first_index_of_pair_is(s@, a, b, n as int);
        }
        return n;
    }
    let mut i: usize = 0;
    while i < n - 1 && !(s[i] == a && s[i + 1] == b)
        invariant
            n == s.len(),
            n >= 2,
            i <= n - 1,
            forall|j: int| 0 <= j < i ==> !#[trigger] pair_at(s@, j, a, b),
        decreases n - i,
    {
        i += 1;
    }
    if i < n - 1 {
        proof {
            lemma_first_index_of_pair_is(s@, a, b, i as int);
        }
        i
    } else {
        proof {
            lemma_first_index_of_pair_is(s@, a, b, n as int);
        }
        n
    }
}

} // verus!
