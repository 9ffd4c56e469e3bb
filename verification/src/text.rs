//! Character-sequence model of text.
//!
//! All engine logic works on sequences of Unicode scalar values. This module
//! holds the shared vocabulary: whitespace, trimming, line splitting and
//! joining, substring occurrence, and substring replacement, each as a
//! specification function with a matching executable helper.

use vstd::prelude::*;

verus! {

// ---------------------------------------------------------------------------
// Whitespace
// ---------------------------------------------------------------------------

/// The Unicode White_Space property, written out by scalar value.
pub open spec fn is_ws_char(c: char) -> bool {
    let u = c as u32;
    u == 0x09 || u == 0x0A || u == 0x0B || u == 0x0C || u == 0x0D || u == 0x20
        || u == 0x85 || u == 0xA0 || u == 0x1680
        || (0x2000 <= u && u <= 0x200A)
        || u == 0x2028 || u == 0x2029 || u == 0x202F || u == 0x205F || u == 0x3000
}

/// Whether `c` is Unicode whitespace.
pub fn is_ws(c: char) -> (r: bool)
    ensures
        r == is_ws_char(c),
{
    let u = c as u32;
    u == 0x09 || u == 0x0A || u == 0x0B || u == 0x0C || u == 0x0D || u == 0x20
        || u == 0x85 || u == 0xA0 || u == 0x1680
        || (0x2000 <= u && u <= 0x200A)
        || u == 0x2028 || u == 0x2029 || u == 0x202F || u == 0x205F || u == 0x3000
}

// ---------------------------------------------------------------------------
// Bridges between `str`/`String` and character vectors
// ---------------------------------------------------------------------------

/// Relies on `str::chars`: yields exactly the characters of the string in
/// order, which is the string's view in specifications.
#[verifier::external_body]
pub(crate) fn chars_of(s: &str) -> (r: Vec<char>)
    ensures
        r@ == s@,
{
    s.chars().collect()
}

/// Relies on `String`'s `FromIterator<char>` impl: builds the string holding
/// exactly the given characters in order.
#[verifier::external_body]
pub(crate) fn string_of(v: &Vec<char>) -> (r: String)
    ensures
        r@ == v@,
{
    v.iter().collect()
}

// ---------------------------------------------------------------------------
// Basic vector helpers
// ---------------------------------------------------------------------------

/// Copy of the character range `[a, b)` of `v`.
#[verifier::loop_isolation(false)]
pub fn sub_vec(v: &Vec<char>, a: usize, b: usize) -> (r: Vec<char>)
    requires
        a <= b <= v@.len(),
    ensures
        r@ == v@.subrange(a as int, b as int),
{
    let mut r: Vec<char> = Vec::new();
    let mut i: usize = a;
    while i < b
        invariant
            a <= i <= b,
            r@ == v@.subrange(a as int, i as int),
        decreases b - i,
    {
        r.push(v[i]);
        assert(v@.subrange(a as int, i as int).push(v@[i as int]) =~= v@.subrange(
            a as int,
            i as int + 1,
        ));
        i = i + 1;
    }
    r
}

/// Character-for-character equality of two vectors.
#[verifier::loop_isolation(false)]
pub fn chars_eq(a: &Vec<char>, b: &Vec<char>) -> (r: bool)
    ensures
        r == (a@ == b@),
{
    if a.len() != b.len() {
        return false;
    }
    let mut i: usize = 0;
    while i < a.len()
        invariant
            i <= a@.len(),
            a@.len() == b@.len(),
            forall|j: int| 0 <= j < i ==> a@[j] == b@[j],
        decreases a@.len() - i,
    {
        if a[i] != b[i] {
            return false;
        }
        i = i + 1;
    }
    assert(a@ =~= b@);
    true
}

// ---------------------------------------------------------------------------
// Trimming
// ---------------------------------------------------------------------------

/// Number of whitespace characters at the start of `s`.
pub open spec fn leading_ws_count(s: Seq<char>) -> nat
    decreases s.len(),
{
    if s.len() > 0 && is_ws_char(s[0]) {
        (1 + leading_ws_count(s.drop_first())) as nat
    } else {
        0
    }
}

/// Number of whitespace characters at the end of `s`.
pub open spec fn trailing_ws_count(s: Seq<char>) -> nat
    decreases s.len(),
{
    if s.len() > 0 && is_ws_char(s.last()) {
        (1 + trailing_ws_count(s.drop_last())) as nat
    } else {
        0
    }
}

pub open spec fn trim_start_of(s: Seq<char>) -> Seq<char> {
    s.skip(leading_ws_count(s) as int)
}

pub open spec fn trim_end_of(s: Seq<char>) -> Seq<char> {
    s.take(s.len() - trailing_ws_count(s))
}

/// `s` with leading and trailing whitespace removed.
pub open spec fn trim_of(s: Seq<char>) -> Seq<char> {
    trim_end_of(trim_start_of(s))
}

pub proof fn lemma_leading_ws_count_is(s: Seq<char>, i: int)
    requires
        0 <= i <= s.len(),
        forall|j: int| 0 <= j < i ==> is_ws_char(s[j]),
        i == s.len() || !is_ws_char(s[i]),
    ensures
        leading_ws_count(s) == i,
    decreases s.len(),
{
    if i == 0 {
    } else {
        lemma_leading_ws_count_is(s.drop_first(), i - 1);
    }
}

pub proof fn lemma_trailing_ws_count_is(s: Seq<char>, i: int)
    requires
        0 <= i <= s.len(),
        forall|j: int| i <= j < s.len() ==> is_ws_char(s[j]),
        i == 0 || !is_ws_char(s[i - 1]),
    ensures
        trailing_ws_count(s) == s.len() - i,
    decreases s.len(),
{
    if i == s.len() {
    } else {
        assert(is_ws_char(s.last()));
        assert(forall|j: int| i <= j < s.drop_last().len() ==> is_ws_char(s.drop_last()[j]));
        lemma_trailing_ws_count_is(s.drop_last(), i);
    }
}

/// `v` with leading and trailing whitespace removed.
#[verifier::loop_isolation(false)]
pub fn trim_vec(v: &Vec<char>) -> (r: Vec<char>)
    ensures
        r@ == trim_of(v@),
{
    let mut i: usize = 0;
    while i < v.len() && is_ws(v[i])
        invariant
            i <= v@.len(),
            forall|j: int| 0 <= j < i ==> is_ws_char(v@[j]),
        decreases v@.len() - i,
    {
        i = i + 1;
    }
    proof {
        lemma_leading_ws_count_is(v@, i as int);
    }
    let mut j: usize = v.len();
    while j > i && is_ws(v[j - 1])
        invariant
            i <= j <= v@.len(),
            forall|k: int| j <= k < v@.len() ==> is_ws_char(v@[k]),
        decreases j,
    {
        j = j - 1;
    }
    let r = sub_vec(v, i, j);
    proof {
        let t = trim_start_of(v@);
        assert(t == v@.skip(i as int));
        if j == i {
            lemma_trailing_ws_count_is(t, 0);
        } else {
            assert(!is_ws_char(v@[j - 1]));
            assert(t[j - 1 - i] == v@[j - 1]);
            lemma_trailing_ws_count_is(t, j - i);
        }
        assert(trim_of(v@) =~= v@.subrange(i as int, j as int));
    }
    r
}

// ---------------------------------------------------------------------------
// Lines
// ---------------------------------------------------------------------------

/// The views of a sequence of owned values, element by element.
pub open spec fn views_of<T: View>(vs: Seq<T>) -> Seq<T::V> {
    Seq::new(vs.len(), |i: int| vs[i]@)
}

/// Position of the first `sep` in `s`, or `s.len()` if there is none.
pub open spec fn first_sep(s: Seq<char>, sep: char) -> nat
    decreases s.len(),
{
    if s.len() == 0 {
        0
    } else if s[0] == sep {
        0
    } else {
        (1 + first_sep(s.drop_first(), sep)) as nat
    }
}

pub proof fn lemma_first_sep_le(s: Seq<char>, sep: char)
    ensures
        first_sep(s, sep) <= s.len(),
    decreases s.len(),
{
    if s.len() > 0 && s[0] != sep {
        lemma_first_sep_le(s.drop_first(), sep);
    }
}

pub proof fn lemma_first_sep_is(s: Seq<char>, sep: char, i: int)
    requires
        0 <= i <= s.len(),
        forall|j: int| 0 <= j < i ==> s[j] != sep,
        i == s.len() || s[i] == sep,
    ensures
        first_sep(s, sep) == i,
    decreases s.len(),
{
    if i > 0 {
        lemma_first_sep_is(s.drop_first(), sep, i - 1);
    }
}

/// `s` split at every occurrence of `sep`; always at least one (possibly
/// empty) piece.
pub open spec fn split_by(s: Seq<char>, sep: char) -> Seq<Seq<char>>
    decreases s.len(),
{
    let i = first_sep(s, sep);
    if i >= s.len() {
        seq![s]
    } else {
        seq![s.take(i as int)] + split_by(s.skip(i as int + 1), sep)
    }
}

/// `s` split at every line break.
pub open spec fn lines_of(s: Seq<char>) -> Seq<Seq<char>> {
    split_by(s, '\n')
}

/// Pieces joined back with the given separator between consecutive elements.
pub open spec fn join_with(ls: Seq<Seq<char>>, sep: Seq<char>) -> Seq<char>
    decreases ls.len(),
{
    if ls.len() == 0 {
        Seq::empty()
    } else if ls.len() == 1 {
        ls[0]
    } else {
        ls[0] + sep + join_with(ls.drop_first(), sep)
    }
}

pub open spec fn nl_seq() -> Seq<char> {
    seq!['\n']
}

pub proof fn lemma_join_with_push(ls: Seq<Seq<char>>, sep: Seq<char>, x: Seq<char>)
    ensures
        ls.len() == 0 ==> join_with(ls.push(x), sep) == x,
        ls.len() > 0 ==> join_with(ls.push(x), sep) == join_with(ls, sep) + sep + x,
    decreases ls.len(),
{
    if ls.len() == 0 {
        assert(ls.push(x)[0] == x);
        assert(join_with(ls.push(x), sep) == x);
    } else if ls.len() == 1 {
        assert(ls.push(x).drop_first() =~= seq![x]);
        assert(join_with(seq![x], sep) == x);
        assert(ls.push(x)[0] == ls[0]);
        assert(join_with(ls.push(x), sep) == ls[0] + sep + x);
    } else {
        lemma_join_with_push(ls.drop_first(), sep, x);
        assert(ls.push(x).drop_first() =~= ls.drop_first().push(x));
        assert(join_with(ls, sep) + sep + x =~= ls[0] + sep + (join_with(ls.drop_first(), sep)
            + sep + x));
    }
}

/// The character at `first_sep(s, sep)` is `sep` when one exists.
pub proof fn lemma_first_sep_at(s: Seq<char>, sep: char)
    requires
        first_sep(s, sep) < s.len(),
    ensures
        s[first_sep(s, sep) as int] == sep,
        forall|j: int| 0 <= j < first_sep(s, sep) ==> s[j] != sep,
    decreases s.len(),
{
    if s.len() > 0 && s[0] != sep {
        lemma_first_sep_at(s.drop_first(), sep);
        assert(forall|j: int| 1 <= j < first_sep(s, sep) ==> s[j] == s.drop_first()[j - 1]);
    }
}

/// Append every character of `src` to `dst`.
#[verifier::loop_isolation(false)]
pub fn push_all(dst: &mut Vec<char>, src: &Vec<char>)
    ensures
        final(dst)@ == old(dst)@ + src@,
{
    let mut k: usize = 0;
    while k < src.len()
        invariant
            k <= src@.len(),
            dst@ == old(dst)@ + src@.take(k as int),
        decreases src@.len() - k,
    {
        dst.push(src[k]);
        assert(old(dst)@ + src@.take(k as int) + seq![src@[k as int]] =~= old(dst)@ + src@.take(
            k as int + 1,
        ));
        k = k + 1;
    }
    assert(src@.take(src@.len() as int) =~= src@);
}

/// Split `v` at every occurrence of `sep`.
#[verifier::loop_isolation(false)]
pub fn split_at_char(v: &Vec<char>, sep: char) -> (r: Vec<Vec<char>>)
    ensures
        views_of(r@) == split_by(v@, sep),
        r@.len() >= 1,
{
    let n = v.len();
    let mut r: Vec<Vec<char>> = Vec::new();
    let mut start: usize = 0;
    proof {
        assert(v@.skip(0) =~= v@);
        assert(views_of(r@) =~= Seq::<Seq<char>>::empty());
    }
    loop
        invariant
            start <= n,
            n == v@.len(),
            split_by(v@, sep) =~= views_of(r@) + split_by(v@.skip(start as int), sep),
        decreases n - start,
    {
        let mut j: usize = start;
        while j < n && v[j] != sep
            invariant
                start <= j <= n,
                forall|k: int| start <= k < j ==> v@[k] != sep,
            decreases n - j,
        {
            j = j + 1;
        }
        let ghost tail = v@.skip(start as int);
        proof {
            assert(forall|k: int| 0 <= k < j - start ==> tail[k] != sep);
            lemma_first_sep_is(tail, sep, j - start);
        }
        let line = sub_vec(v, start, j);
        r.push(line);
        proof {
            assert(line@ =~= tail.take(j - start));
        }
        if j == n {
            proof {
                assert(tail.take(j - start) =~= tail);
                assert(split_by(tail, sep) =~= seq![line@]);
                assert(views_of(r@) =~= views_of(r@.drop_last()) + seq![line@]);
            }
            break;
        }
        proof {
            assert(split_by(tail, sep) =~= seq![line@] + split_by(tail.skip(j - start + 1), sep));
            assert(tail.skip(j - start + 1) =~= v@.skip(j + 1));
            assert(views_of(r@) =~= views_of(r@.drop_last()) + seq![line@]);
        }
        start = j + 1;
    }
    proof {
        assert(views_of(r@).len() >= 1);
    }
    r
}

/// Split `v` at every line break.
pub fn split_lines(v: &Vec<char>) -> (r: Vec<Vec<char>>)
    ensures
        views_of(r@) == lines_of(v@),
        r@.len() >= 1,
{
    split_at_char(v, '\n')
}

/// Join lines `[a, b)` with line breaks between them.
#[verifier::loop_isolation(false)]
pub fn join_window(lines: &Vec<Vec<char>>, a: usize, b: usize) -> (r: Vec<char>)
    requires
        a < b <= lines@.len(),
    ensures
        r@ == join_with(views_of(lines@).subrange(a as int, b as int), nl_seq()),
{
    let mut r: Vec<char> = Vec::new();
    let mut k: usize = a;
    while k < b
        invariant
            a <= k <= b,
            b <= lines@.len(),
            r@ == join_with(views_of(lines@).subrange(a as int, k as int), nl_seq()),
        decreases b - k,
    {
        let ghost pre = views_of(lines@).subrange(a as int, k as int);
        if k > a {
            r.push('\n');
        }
        push_all(&mut r, &lines[k]);
        proof {
            lemma_join_with_push(pre, nl_seq(), lines@[k as int]@);
            assert(views_of(lines@).subrange(a as int, k as int + 1) =~= pre.push(
                lines@[k as int]@,
            ));
            if k > a {
                assert(r@ =~= join_with(pre, nl_seq()) + nl_seq() + lines@[k as int]@);
            } else {
                assert(pre.len() == 0);
                assert(r@ =~= lines@[k as int]@);
            }
        }
        k = k + 1;
    }
    r
}

/// `v` with leading whitespace removed.
#[verifier::loop_isolation(false)]
pub fn trim_start_vec(v: &Vec<char>) -> (r: Vec<char>)
    ensures
        r@ == trim_start_of(v@),
{
    let mut i: usize = 0;
    while i < v.len() && is_ws(v[i])
        invariant
            i <= v@.len(),
            forall|j: int| 0 <= j < i ==> is_ws_char(v@[j]),
        decreases v@.len() - i,
    {
        i = i + 1;
    }
    proof {
        lemma_leading_ws_count_is(v@, i as int);
    }
    let r = sub_vec(v, i, v.len());
    proof {
        assert(trim_start_of(v@) =~= v@.subrange(i as int, v@.len() as int));
    }
    r
}

/// The candidate vectors rendered as owned strings, views preserved.
#[verifier::loop_isolation(false)]
pub fn to_strings(vs: &Vec<Vec<char>>) -> (r: Vec<String>)
    ensures
        views_of(r@) == views_of(vs@),
{
    let mut r: Vec<String> = Vec::new();
    let mut i: usize = 0;
    while i < vs.len()
        invariant
            i <= vs@.len(),
            views_of(r@) =~= views_of(vs@).take(i as int),
        decreases vs@.len() - i,
    {
        r.push(string_of(&vs[i]));
        proof {
            assert(views_of(r@) =~= views_of(vs@).take(i as int).push(vs@[i as int]@));
            assert(views_of(vs@).take(i as int).push(vs@[i as int]@) =~= views_of(vs@).take(
                i as int + 1,
            ));
        }
        i = i + 1;
    }
    proof {
        assert(views_of(vs@).take(vs@.len() as int) =~= views_of(vs@));
    }
    r
}

/// Whether some element of `vs` holds exactly the characters of `x`.
#[verifier::loop_isolation(false)]
pub fn contains_seq(vs: &Vec<Vec<char>>, x: &Vec<char>) -> (r: bool)
    ensures
        r == views_of(vs@).contains(x@),
{
    let mut i: usize = 0;
    while i < vs.len()
        invariant
            i <= vs@.len(),
            forall|k: int| 0 <= k < i ==> views_of(vs@)[k] != x@,
        decreases vs@.len() - i,
    {
        if chars_eq(&vs[i], x) {
            proof {
                assert(views_of(vs@)[i as int] == x@);
            }
            return true;
        }
        i = i + 1;
    }
    false
}

/// Whether `needle` occurs anywhere in `hay`; the empty needle occurs
/// trivially.
pub fn occurs_check(hay: &Vec<char>, needle: &Vec<char>) -> (r: bool)
    ensures
        r == occurs_in(hay@, needle@),
{
    if needle.len() == 0 {
        proof {
            assert(hay@.subrange(0, 0) =~= needle@);
            assert(occurs_at(hay@, needle@, 0));
        }
        return true;
    }
    match find_from(hay, needle, 0) {
        Some(_) => true,
        None => {
            proof {
                assert(forall|j: int| occurs_at(hay@, needle@, j) ==> j >= 0);
            }
            false
        },
    }
}

// ---------------------------------------------------------------------------
// Byte lengths
// ---------------------------------------------------------------------------

/// Number of bytes in the UTF-8 encoding of `c`.
pub open spec fn char_utf8_len(c: char) -> int {
    let u = c as u32;
    if u < 0x80 {
        1
    } else if u < 0x800 {
        2
    } else if u < 0x10000 {
        3
    } else {
        4
    }
}

/// Number of bytes in the UTF-8 encoding of `s`.
pub open spec fn spec_byte_len(s: Seq<char>) -> int
    decreases s.len(),
{
    if s.len() == 0 {
        0
    } else {
        spec_byte_len(s.drop_last()) + char_utf8_len(s.last())
    }
}

/// A character sequence takes at least one and at most four bytes per
/// character.
pub proof fn lemma_byte_len_bounds(s: Seq<char>)
    ensures
        s.len() <= spec_byte_len(s) <= 4 * s.len(),
    decreases s.len(),
{
    if s.len() > 0 {
        lemma_byte_len_bounds(s.drop_last());
    }
}

/// Number of bytes in the UTF-8 encoding of `c`.
pub fn utf8_len(c: char) -> (r: u8)
    ensures
        r as int == char_utf8_len(c),
{
    let u = c as u32;
    if u < 0x80 {
        1
    } else if u < 0x800 {
        2
    } else if u < 0x10000 {
        3
    } else {
        4
    }
}

/// Number of bytes in the UTF-8 encoding of `v`.
#[verifier::loop_isolation(false)]
pub fn byte_len(v: &Vec<char>) -> (r: u128)
    ensures
        r as int == spec_byte_len(v@),
{
    let mut sum: u128 = 0;
    let mut i: usize = 0;
    proof {
        assert(v@.take(0) =~= Seq::<char>::empty());
    }
    while i < v.len()
        invariant
            i <= v@.len(),
            sum as int == spec_byte_len(v@.take(i as int)),
            sum <= 4 * (i as u128),
        decreases v@.len() - i,
    {
        proof {
            assert(v@.take(i as int + 1).drop_last() =~= v@.take(i as int));
            assert(v@.take(i as int + 1).last() == v@[i as int]);
        }
        sum = sum + utf8_len(v[i]) as u128;
        i = i + 1;
    }
    proof {
        assert(v@.take(v@.len() as int) =~= v@);
    }
    sum
}

// ---------------------------------------------------------------------------
// Substring occurrence and replacement
// ---------------------------------------------------------------------------

/// `needle` occurs in `hay` starting at position `i`.
pub open spec fn occurs_at(hay: Seq<char>, needle: Seq<char>, i: int) -> bool {
    0 <= i && i + needle.len() <= hay.len() && hay.subrange(i, i + needle.len()) == needle
}

/// `needle` occurs somewhere in `hay`.
pub open spec fn occurs_in(hay: Seq<char>, needle: Seq<char>) -> bool {
    exists|i: int| occurs_at(hay, needle, i)
}

/// `needle` occurs in `hay` at exactly one position; overlapping occurrences
/// count separately, so `"aa"` in `"aaa"` is not unique.
pub open spec fn unique_occurrence(hay: Seq<char>, needle: Seq<char>) -> bool {
    occurs_in(hay, needle) && forall|i: int, j: int|
        occurs_at(hay, needle, i) && occurs_at(hay, needle, j) ==> i == j
}

/// `hay` with the `old_len` characters at position `i` replaced by `repl`.
pub open spec fn splice_at(hay: Seq<char>, i: int, old_len: int, repl: Seq<char>) -> Seq<char> {
    hay.take(i) + repl + hay.skip(i + old_len)
}

/// Every non-overlapping occurrence of `needle`, scanned left to right,
/// replaced by `repl`.
pub open spec fn replace_all_with(hay: Seq<char>, needle: Seq<char>, repl: Seq<char>) -> Seq<char>
    decreases hay.len(),
{
    if needle.len() == 0 || hay.len() < needle.len() {
        hay
    } else if hay.take(needle.len() as int) == needle {
        repl + replace_all_with(hay.skip(needle.len() as int), needle, repl)
    } else {
        seq![hay[0]] + replace_all_with(hay.drop_first(), needle, repl)
    }
}

/// Number of non-overlapping occurrences of `needle`, scanned left to right.
pub open spec fn count_occ(hay: Seq<char>, needle: Seq<char>) -> nat
    decreases hay.len(),
{
    if needle.len() == 0 || hay.len() < needle.len() {
        0
    } else if hay.take(needle.len() as int) == needle {
        (1 + count_occ(hay.skip(needle.len() as int), needle)) as nat
    } else {
        count_occ(hay.drop_first(), needle)
    }
}

/// A text with no occurrence of `needle` is left unchanged and counts zero.
pub proof fn lemma_no_occurrence(hay: Seq<char>, needle: Seq<char>, repl: Seq<char>)
    requires
        needle.len() > 0,
        !occurs_in(hay, needle),
    ensures
        replace_all_with(hay, needle, repl) == hay,
        count_occ(hay, needle) == 0,
    decreases hay.len(),
{
    if hay.len() >= needle.len() {
        assert(!occurs_at(hay, needle, 0));
        assert(hay.take(needle.len() as int) =~= hay.subrange(0, needle.len() as int));
        assert(hay.take(needle.len() as int) != needle);
        assert forall|j: int| !occurs_at(hay.drop_first(), needle, j) by {
            if occurs_at(hay.drop_first(), needle, j) {
                assert(hay.drop_first().subrange(j, j + needle.len()) =~= hay.subrange(
                    j + 1,
                    j + 1 + needle.len(),
                ));
                assert(occurs_at(hay, needle, j + 1));
            }
        }
        lemma_no_occurrence(hay.drop_first(), needle, repl);
        assert(seq![hay[0]] + hay.drop_first() =~= hay);
    }
}

/// Unfolding at the first occurrence: the replaced text is the prefix, then
/// `repl`, then the recursively replaced remainder.
pub proof fn lemma_first_occurrence(hay: Seq<char>, needle: Seq<char>, repl: Seq<char>, k: int)
    requires
        needle.len() > 0,
        occurs_at(hay, needle, k),
        forall|j: int| 0 <= j < k ==> !occurs_at(hay, needle, j),
    ensures
        replace_all_with(hay, needle, repl) == hay.take(k) + repl + replace_all_with(
            hay.skip(k + needle.len()),
            needle,
            repl,
        ),
        count_occ(hay, needle) == 1 + count_occ(hay.skip(k + needle.len()), needle),
    decreases hay.len(),
{
    if k == 0 {
        assert(hay.take(needle.len() as int) =~= hay.subrange(0, needle.len() as int));
        assert(hay.take(needle.len() as int) == needle);
        assert(hay.take(0) + repl =~= repl);
        assert(hay.take(0) + repl + replace_all_with(hay.skip(needle.len() as int), needle, repl)
            =~= repl + replace_all_with(hay.skip(needle.len() as int), needle, repl));
    } else {
        assert(!occurs_at(hay, needle, 0));
        assert(hay.take(needle.len() as int) =~= hay.subrange(0, needle.len() as int));
        assert(hay.take(needle.len() as int) != needle);
        assert(occurs_at(hay.drop_first(), needle, k - 1)) by {
            assert(hay.drop_first().subrange(k - 1, k - 1 + needle.len()) =~= hay.subrange(
                k,
                k + needle.len(),
            ));
        }
        assert forall|j: int| 0 <= j < k - 1 implies !occurs_at(hay.drop_first(), needle, j) by {
            if occurs_at(hay.drop_first(), needle, j) {
                assert(hay.drop_first().subrange(j, j + needle.len()) =~= hay.subrange(
                    j + 1,
                    j + 1 + needle.len(),
                ));
                assert(occurs_at(hay, needle, j + 1));
            }
        }
        lemma_first_occurrence(hay.drop_first(), needle, repl, k - 1);
        assert(hay.drop_first().take(k - 1) =~= hay.take(k).drop_first());
        assert(hay.drop_first().skip(k - 1 + needle.len()) =~= hay.skip(k + needle.len()));
        assert(seq![hay[0]] + (hay.take(k).drop_first() + repl + replace_all_with(
            hay.skip(k + needle.len()),
            needle,
            repl,
        )) =~= hay.take(k) + repl + replace_all_with(hay.skip(k + needle.len()), needle, repl));
    }
}

/// First occurrence of `needle` in `hay` at or after `from`.
#[verifier::loop_isolation(false)]
pub fn find_from(hay: &Vec<char>, needle: &Vec<char>, from: usize) -> (r: Option<usize>)
    requires
        needle@.len() >= 1,
    ensures
        match r {
            Some(i) => from <= i && occurs_at(hay@, needle@, i as int) && forall|j: int|
                from <= j < i ==> !occurs_at(hay@, needle@, j),
            None => forall|j: int| from <= j ==> !occurs_at(hay@, needle@, j),
        },
{
    let n = hay.len();
    let m = needle.len();
    if n < m || from > n - m {
        return None;
    }
    let mut i: usize = from;
    while i <= n - m
        invariant
            from <= i <= n - m + 1,
            m <= n,
            forall|j: int| from <= j < i ==> !occurs_at(hay@, needle@, j),
        decreases n - m - i + 1,
    {
        let mut k: usize = 0;
        let mut matches = true;
        while k < m
            invariant
                k <= m,
                i + m <= n,
                matches <==> forall|t: int| 0 <= t < k ==> hay@[i + t] == needle@[t],
                !matches ==> k == m,
            decreases m - k,
        {
            if hay[i + k] != needle[k] {
                matches = false;
                k = m;
            } else {
                proof {
                    assert(forall|t: int| 0 <= t < k ==> hay@[i + t] == needle@[t]);
                    assert(hay@[i + k] == needle@[k as int]);
                }
                k = k + 1;
            }
        }
        if matches {
            proof {
                assert(hay@.subrange(i as int, i + m) =~= needle@);
            }
            return Some(i);
        }
        proof {
            assert(!occurs_at(hay@, needle@, i as int)) by {
                if occurs_at(hay@, needle@, i as int) {
                    assert(forall|t: int|
                        0 <= t < m ==> #[trigger] hay@.subrange(i as int, i + m)[t] == hay@[i
                            + t]);
                }
            }
        }
        i = i + 1;
    }
    None
}

/// Last occurrence of `needle` in `hay`.
#[verifier::loop_isolation(false)]
pub fn find_last(hay: &Vec<char>, needle: &Vec<char>) -> (r: Option<usize>)
    requires
        needle@.len() >= 1,
    ensures
        match r {
            Some(i) => occurs_at(hay@, needle@, i as int) && forall|j: int|
                i < j ==> !occurs_at(hay@, needle@, j),
            None => forall|j: int| !occurs_at(hay@, needle@, j),
        },
{
    let n = hay.len();
    let m = needle.len();
    if n < m {
        return None;
    }
    let mut i: usize = n - m + 1;
    while i > 0
        invariant
            i <= n - m + 1,
            m <= n,
            forall|j: int| i <= j ==> !occurs_at(hay@, needle@, j),
        decreases i,
    {
        i = i - 1;
        let mut k: usize = 0;
        let mut matches = true;
        while k < m
            invariant
                k <= m,
                i + m <= n,
                matches <==> forall|t: int| 0 <= t < k ==> hay@[i + t] == needle@[t],
                !matches ==> k == m,
            decreases m - k,
        {
            if hay[i + k] != needle[k] {
                matches = false;
                k = m;
            } else {
                proof {
                    assert(hay@[i + k] == needle@[k as int]);
                }
                k = k + 1;
            }
        }
        if matches {
            proof {
                assert(hay@.subrange(i as int, i + m) =~= needle@);
            }
            return Some(i);
        }
        proof {
            assert(!occurs_at(hay@, needle@, i as int)) by {
                if occurs_at(hay@, needle@, i as int) {
                    assert(forall|t: int|
                        0 <= t < m ==> #[trigger] hay@.subrange(i as int, i + m)[t] == hay@[i
                            + t]);
                }
            }
        }
    }
    None
}

/// `hay` with the characters `[i, i + old_len)` replaced by `repl`.
#[verifier::loop_isolation(false)]
pub fn splice_vec(hay: &Vec<char>, i: usize, old_len: usize, repl: &Vec<char>) -> (r: Vec<char>)
    requires
        i + old_len <= hay@.len(),
    ensures
        r@ == splice_at(hay@, i as int, old_len as int, repl@),
{
    let n = hay.len();
    let mut r = sub_vec(hay, 0, i);
    push_all(&mut r, repl);
    let tail = sub_vec(hay, i + old_len, n);
    push_all(&mut r, &tail);
    proof {
        assert(hay@.subrange(0, i as int) =~= hay@.take(i as int));
        assert(hay@.subrange(i + old_len, hay@.len() as int) =~= hay@.skip(i + old_len));
    }
    r
}

/// Every non-overlapping occurrence of `needle` replaced by `repl`.
#[verifier::loop_isolation(false)]
pub fn replace_every(hay: &Vec<char>, needle: &Vec<char>, repl: &Vec<char>) -> (r: Vec<char>)
    requires
        needle@.len() >= 1,
    ensures
        r@ == replace_all_with(hay@, needle@, repl@),
{
    let n = hay.len();
    let mut r: Vec<char> = Vec::new();
    let mut start: usize = 0;
    proof {
        assert(hay@.skip(0) =~= hay@);
    }
    loop
        invariant
            start <= n,
            n == hay@.len(),
            replace_all_with(hay@, needle@, repl@) == r@ + replace_all_with(
                hay@.skip(start as int),
                needle@,
                repl@,
            ),
        decreases n - start,
    {
        let ghost tail = hay@.skip(start as int);
        match find_from(hay, needle, start) {
            Some(i) => {
                proof {
                    assert(occurs_at(tail, needle@, i - start)) by {
                        assert(tail.subrange(i - start, i - start + needle@.len()) =~= hay@
                            .subrange(i as int, i + needle@.len()));
                    }
                    assert forall|j: int| 0 <= j < i - start implies !occurs_at(
                        tail,
                        needle@,
                        j,
                    ) by {
                        if occurs_at(tail, needle@, j) {
                            assert(tail.subrange(j, j + needle@.len()) =~= hay@.subrange(
                                start + j,
                                start + j + needle@.len(),
                            ));
                            assert(occurs_at(hay@, needle@, start + j));
                        }
                    }
                    lemma_first_occurrence(tail, needle@, repl@, i - start);
                }
                let piece = sub_vec(hay, start, i);
                push_all(&mut r, &piece);
                push_all(&mut r, repl);
                proof {
                    assert(tail.take(i - start) =~= hay@.subrange(start as int, i as int));
                    assert(tail.skip(i - start + needle@.len()) =~= hay@.skip(
                        i + needle@.len(),
                    ));
                }
                start = i + needle.len();
            },
            None => {
                proof {
                    assert forall|j: int| !occurs_at(tail, needle@, j) by {
                        if occurs_at(tail, needle@, j) && j >= 0 {
                            assert(tail.subrange(j, j + needle@.len()) =~= hay@.subrange(
                                start + j,
                                start + j + needle@.len(),
                            ));
                            assert(occurs_at(hay@, needle@, start + j));
                        }
                    }
                    lemma_no_occurrence(tail, needle@, repl@);
                }
                let piece = sub_vec(hay, start, n);
                push_all(&mut r, &piece);
                proof {
                    assert(hay@.subrange(start as int, n as int) =~= tail);
                }
                return r;
            },
        }
    }
}

} // verus!
