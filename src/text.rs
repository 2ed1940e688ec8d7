//! Character-level reading of one script line: comment removal, splitting
//! into whitespace-separated words, and decimal integer literals.
use vstd::prelude::*;

verus! {

broadcast use vstd::string::axiom_spec_iter;

/// The characters that carry Unicode's `White_Space` property.
pub open spec fn is_space(c: char) -> bool {
    ('\u{9}' <= c && c <= '\u{d}') || c == ' ' || c == '\u{85}' || c == '\u{a0}'
        || c == '\u{1680}' || ('\u{2000}' <= c && c <= '\u{200a}') || c == '\u{2028}'
        || c == '\u{2029}' || c == '\u{202f}' || c == '\u{205f}' || c == '\u{3000}'
}

pub fn is_space_char(c: char) -> (r: bool)
    ensures
        r == is_space(c),
{
    ('\u{9}' <= c && c <= '\u{d}') || c == ' ' || c == '\u{85}' || c == '\u{a0}'
        || c == '\u{1680}' || ('\u{2000}' <= c && c <= '\u{200a}') || c == '\u{2028}'
        || c == '\u{2029}' || c == '\u{202f}' || c == '\u{205f}' || c == '\u{3000}'
}

/// Position of the first comment marker `**` at or after `i`, or the length
/// of `s` when the rest of the line holds none.
pub open spec fn comment_from(s: Seq<char>, i: int) -> int
    decreases s.len() - i,
{
    if i + 1 >= s.len() {
        s.len() as int
    } else if s[i] == '*' && s[i + 1] == '*' {
        i
    } else {
        comment_from(s, i + 1)
    }
}

/// The part of a line that precedes its comment.
pub open spec fn code_part(s: Seq<char>) -> Seq<char> {
    s.take(comment_from(s, 0))
}

proof fn lemma_comment_from_bounds(s: Seq<char>, i: int)
    requires
        0 <= i <= s.len(),
    ensures
        i <= comment_from(s, i) <= s.len(),
    decreases s.len() - i,
{
    if i + 1 < s.len() && !(s[i] == '*' && s[i + 1] == '*') {
        lemma_comment_from_bounds(s, i + 1);
    }
}

/// Words read so far from `s`: the finished ones, and the one being read.
pub open spec fn scan(s: Seq<char>) -> (Seq<Seq<char>>, Seq<char>)
    decreases s.len(),
{
    if s.len() == 0 {
        (Seq::empty(), Seq::empty())
    } else {
        let (done, cur) = scan(s.drop_last());
        if is_space(s.last()) {
            if cur.len() == 0 {
                (done, cur)
            } else {
                (done.push(cur), Seq::empty())
            }
        } else {
            (done, cur.push(s.last()))
        }
    }
}

/// The maximal runs of non-space characters of `s`, in order.
pub open spec fn words(s: Seq<char>) -> Seq<Seq<char>> {
    let (done, cur) = scan(s);
    if cur.len() == 0 {
        done
    } else {
        done.push(cur)
    }
}

pub open spec fn word_views(v: Seq<Vec<char>>) -> Seq<Seq<char>> {
    v.map_values(|w: Vec<char>| w@)
}

/// The words of a script line, its comment left out.
pub open spec fn line_words(line: Seq<char>) -> Seq<Seq<char>> {
    words(code_part(line))
}

pub fn chars_of(s: &str) -> (r: Vec<char>)
    ensures
        r@ == s@,
{
    let mut v: Vec<char> = Vec::new();
    for c in it: s.chars()
        invariant
            v@ == it.seq().take(it.index() as int),
            it.seq() == s@,
    {
        v.push(c);
    }
    v
}

/// Length of the part of `s` before its comment.
fn code_len(s: &Vec<char>) -> (r: usize)
    ensures
        r == comment_from(s@, 0),
        r <= s.len(),
{
    let n = s.len();
    let mut i: usize = 0;
    while i < n && i + 1 < n && !(s[i] == '*' && s[i + 1] == '*')
        invariant
            i <= n,
            n == s.len(),
            comment_from(s@, 0) == comment_from(s@, i as int),
        decreases n - i,
    {
        i = i + 1;
    }
    proof {
        lemma_comment_from_bounds(s@, i as int);
    }
    if i < n && i + 1 < n {
        i
    } else {
        n
    }
}

/// The words of the first `end` characters of `s`.
fn split_words(s: &Vec<char>, end: usize) -> (r: Vec<Vec<char>>)
    requires
        end <= s.len(),
    ensures
        word_views(r@) == words(s@.take(end as int)),
{
    let mut done: Vec<Vec<char>> = Vec::new();
    let mut cur: Vec<char> = Vec::new();
    let mut i: usize = 0;
    while i < end
        invariant
            i <= end <= s.len(),
            word_views(done@) == scan(s@.take(i as int)).0,
            cur@ == scan(s@.take(i as int)).1,
        decreases end - i,
    {
        let c = s[i];
        assert(s@.take(i + 1).drop_last() =~= s@.take(i as int));
        if is_space_char(c) {
            if cur.len() > 0 {
                let ghost before = done@;
                done.push(cur);
                assert(word_views(done@) =~= word_views(before).push(cur@));
                cur = Vec::new();
            }
        } else {
            cur.push(c);
        }
        i = i + 1;
    }
    assert(s@.take(i as int) =~= s@.take(end as int));
    if cur.len() > 0 {
        let ghost before = done@;
        done.push(cur);
        assert(word_views(done@) =~= word_views(before).push(cur@));
    }
    done
}

/// Splits a script line into its words, leaving out the comment.
pub fn tokens(line: &str) -> (r: Vec<Vec<char>>)
    ensures
        word_views(r@) == line_words(line@),
{
    let s = chars_of(line);
    let end = code_len(&s);
    split_words(&s, end)
}

pub open spec fn is_digit(c: char) -> bool {
    '0' <= c && c <= '9'
}

pub open spec fn digit_value(c: char) -> nat {
    (c as u32 - '0' as u32) as nat
}

/// A non-empty run of ASCII digits.
pub open spec fn is_numeral(s: Seq<char>) -> bool {
    s.len() > 0 && forall|i: int| 0 <= i < s.len() ==> is_digit(#[trigger] s[i])
}

/// The number that a run of decimal digits denotes.
pub open spec fn digits_value(s: Seq<char>) -> nat
    decreases s.len(),
{
    if s.len() == 0 {
        0
    } else {
        digits_value(s.drop_last()) * 10 + digit_value(s.last())
    }
}

/// The digits of an unsigned literal, after its optional `+` sign.
pub open spec fn unsigned_digits(s: Seq<char>) -> Seq<char> {
    if s.len() > 0 && s[0] == '+' {
        s.drop_first()
    } else {
        s
    }
}

/// The value of an unsigned decimal literal (`+` sign allowed), of any size.
pub open spec fn unsigned_value(s: Seq<char>) -> Option<int> {
    if is_numeral(unsigned_digits(s)) {
        Some(digits_value(unsigned_digits(s)) as int)
    } else {
        None
    }
}

/// The value of a signed decimal literal (`+` or `-` sign allowed), of any size.
pub open spec fn signed_value(s: Seq<char>) -> Option<int> {
    if s.len() > 0 && s[0] == '-' {
        if is_numeral(s.drop_first()) {
            Some(-(digits_value(s.drop_first()) as int))
        } else {
            None
        }
    } else {
        unsigned_value(s)
    }
}

/// The `usize` that a word denotes, if it is a literal in range.
pub open spec fn usize_of(s: Seq<char>) -> Option<usize> {
    match unsigned_value(s) {
        Some(v) => if v <= usize::MAX {
            Some(v as usize)
        } else {
            None
        },
        None => None,
    }
}

/// The `i32` that a word denotes, if it is a literal in range.
pub open spec fn i32_of(s: Seq<char>) -> Option<i32> {
    match signed_value(s) {
        Some(v) => if i32::MIN <= v <= i32::MAX {
            Some(v as i32)
        } else {
            None
        },
        None => None,
    }
}

proof fn lemma_digits_prefix(s: Seq<char>, k: int)
    requires
        0 <= k <= s.len(),
    ensures
        digits_value(s.take(k)) <= digits_value(s),
    decreases s.len(),
{
    if k < s.len() {
        assert(s.drop_last().take(k) =~= s.take(k));
        lemma_digits_prefix(s.drop_last(), k);
    } else {
        assert(s.take(k) =~= s);
    }
}

/// The value of the digits `s[start..]`, where it is a numeral not above `bound`.
fn digits_upto(s: &Vec<char>, start: usize, bound: u128) -> (r: Option<u128>)
    requires
        start <= s.len(),
        bound <= u64::MAX,
    ensures
        r is Some <==> is_numeral(s@.skip(start as int)) && digits_value(s@.skip(start as int))
            <= bound,
        r is Some ==> r->0 == digits_value(s@.skip(start as int)),
{
    let n = s.len();
    if start == n {
        return None;
    }
    let ghost t = s@.skip(start as int);
    let mut acc: u128 = 0;
    let mut i: usize = start;
    while i < n
        invariant
            start <= i <= n,
            n == s.len(),
            t == s@.skip(start as int),
            acc == digits_value(t.take(i - start)),
            acc <= bound <= u64::MAX,
            forall|j: int| 0 <= j < i - start ==> is_digit(#[trigger] t[j]),
        decreases n - i,
    {
        let c = s[i];
        if !('0' <= c && c <= '9') {
            assert(t[i - start] == c);
            return None;
        }
        let d = (c as u32 - '0' as u32) as u128;
        assert(t.take(i + 1 - start).drop_last() =~= t.take(i - start));
        let next = acc * 10 + d;
        if next > bound {
            proof {
                if is_numeral(t) {
                    lemma_digits_prefix(t, i + 1 - start);
                }
            }
            return None;
        }
        acc = next;
        i = i + 1;
    }
    assert(t.take(n - start) =~= t);
    Some(acc)
}

/// Reads a word as a `usize` literal: optional `+`, then decimal digits.
pub fn parse_usize(w: &Vec<char>) -> (r: Option<usize>)
    ensures
        r == usize_of(w@),
{
    let start: usize = if w.len() > 0 && w[0] == '+' { 1 } else { 0 };
    assert(unsigned_digits(w@) =~= w@.skip(start as int));
    match digits_upto(w, start, usize::MAX as u128) {
        Some(v) => Some(v as usize),
        None => None,
    }
}

/// Reads a word as an `i32` literal: optional `+` or `-`, then decimal digits.
pub fn parse_i32(w: &Vec<char>) -> (r: Option<i32>)
    ensures
        r == i32_of(w@),
{
    if w.len() > 0 && w[0] == '-' {
        assert(w@.drop_first() =~= w@.skip(1));
        match digits_upto(w, 1, 2147483648) {
            Some(v) => Some((0 - v as i64) as i32),
            None => None,
        }
    } else {
        let start: usize = if w.len() > 0 && w[0] == '+' { 1 } else { 0 };
        assert(unsigned_digits(w@) =~= w@.skip(start as int));
        match digits_upto(w, start, 2147483647) {
            Some(v) => Some(v as i32),
            None => None,
        }
    }
}

/// No comment marker starts in `s` at a position in `[i, k)`.
pub open spec fn no_marker_between(s: Seq<char>, i: int, k: int) -> bool {
    forall|j: int| i <= j < k && j + 1 < s.len() ==> !(s[j] == '*' && #[trigger] s[j + 1] == '*')
}

pub proof fn lemma_comment_at(s: Seq<char>, i: int, k: int)
    requires
        0 <= i <= k,
        k + 1 < s.len(),
        s[k] == '*' && s[k + 1] == '*',
        no_marker_between(s, i, k),
    ensures
        comment_from(s, i) == k,
    decreases k - i,
{
    if i < k {
        assert(!(s[i] == '*' && s[i + 1] == '*'));
        lemma_comment_at(s, i + 1, k);
    }
}

pub proof fn lemma_comment_none(s: Seq<char>, i: int)
    requires
        0 <= i,
        no_marker_between(s, i, s.len() as int),
    ensures
        comment_from(s, i) == s.len(),
    decreases s.len() - i,
{
    if i + 1 < s.len() {
        assert(!(s[i] == '*' && s[i + 1] == '*'));
        lemma_comment_none(s, i + 1);
    }
}

pub proof fn lemma_words_of_spaces(s: Seq<char>)
    requires
        forall|j: int| 0 <= j < s.len() ==> is_space(#[trigger] s[j]),
    ensures
        scan(s) == (Seq::<Seq<char>>::empty(), Seq::<char>::empty()),
        words(s) == Seq::<Seq<char>>::empty(),
    decreases s.len(),
{
    if s.len() > 0 {
        lemma_words_of_spaces(s.drop_last());
    }
}

} // verus!
