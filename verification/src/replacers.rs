//! The nine replacers.
//!
//! Each replacer maps `(content, find)` to a list of candidate strings: text
//! actually present in `content` that the layer considers equivalent to
//! `find`. The orchestrator in [`crate::engine`] locates each candidate in
//! `content` and performs the substitution. A replacer never emits an empty
//! candidate.
//!
//! The layers, in chain order:
//! 1. exact — the search string itself;
//! 2. line-trimmed — lines compared after trimming;
//! 3. block-anchor — first and last lines anchor a block, interior lines
//!    scored by similarity;
//! 4. whitespace-normalized — runs of whitespace collapse to one space;
//! 5. indentation-flexible — common leading indentation removed;
//! 6. escape-normalized — backslash escape sequences resolved;
//! 7. trimmed-boundary — the search string trimmed at its boundaries;
//! 8. context-aware — anchored blocks accepted when at least half of the
//!    interior lines match exactly;
//! 9. multi-occurrence — one candidate per exact occurrence.

use vstd::prelude::*;

use crate::pattern::{escape_pattern, find_pattern, regex_escaped, regex_first_match};
use crate::text::{
    byte_len, chars_of, chars_eq, char_utf8_len, contains_seq, count_occ, find_from, is_ws,
    is_ws_char, join_window, join_with, lines_of, nl_seq, occurs_check, occurs_in, occurs_at,
    spec_byte_len, split_lines, string_of, sub_vec, to_strings, trim_of, trim_start_of,
    trim_start_vec, trim_vec, utf8_len, views_of, lemma_first_occurrence, lemma_no_occurrence,
};
use crate::levenshtein::{
    similarity_scaled_chars, spec_similarity_scaled, SIMILARITY_SCALE,
};
use vstd::string::StringExecFns;

verus! {

/// No candidate in the list is empty.
pub open spec fn all_nonempty(cands: Seq<Seq<char>>) -> bool {
    forall|k: int| 0 <= k < cands.len() ==> #[trigger] cands[k].len() > 0
}

// ---------------------------------------------------------------------------
// Shared: the search string's lines, with a trailing empty line dropped
// ---------------------------------------------------------------------------

/// The lines of `f`, with a trailing empty line (from a trailing line break)
/// dropped.
pub open spec fn search_lines_of(f: Seq<char>) -> Seq<Seq<char>> {
    let ls = lines_of(f);
    if ls.last().len() == 0 {
        ls.drop_last()
    } else {
        ls
    }
}

/// The lines of `f` with a trailing empty line dropped.
fn search_lines(f: &Vec<char>) -> (r: Vec<Vec<char>>)
    ensures
        views_of(r@) == search_lines_of(f@),
{
    let mut ls = split_lines(f);
    let last_idx = ls.len() - 1;
    if ls[last_idx].len() == 0 {
        let ghost before = ls@;
        ls.pop();
        proof {
            assert(views_of(before).last().len() == 0);
            assert(views_of(ls@) =~= views_of(before).drop_last());
        }
    } else {
        proof {
            assert(views_of(ls@).last().len() != 0);
        }
    }
    ls
}

// ---------------------------------------------------------------------------
// Layer 1: exact
// ---------------------------------------------------------------------------

pub open spec fn simple_candidates(find: Seq<char>) -> Seq<Seq<char>> {
    if find.len() > 0 {
        seq![find]
    } else {
        Seq::<Seq<char>>::empty()
    }
}

/// Layer 1: the search string itself is the sole candidate.
pub fn simple_replacer(_content: &str, find: &str) -> (r: Vec<String>)
    ensures
        views_of(r@) == simple_candidates(find@),
{
    let f = chars_of(find);
    let mut r: Vec<String> = Vec::new();
    if f.len() > 0 {
        r.push(string_of(&f));
    }
    proof {
        assert(views_of(r@) =~= simple_candidates(find@));
    }
    r
}

// ---------------------------------------------------------------------------
// Layer 9: multi-occurrence
// ---------------------------------------------------------------------------

pub open spec fn multi_occurrence_candidates(c: Seq<char>, f: Seq<char>) -> Seq<Seq<char>> {
    if f.len() > 0 {
        Seq::new(count_occ(c, f), |i: int| f)
    } else {
        Seq::<Seq<char>>::empty()
    }
}

/// Layer 9: the search string once for every non-overlapping exact
/// occurrence, scanned left to right.
#[verifier::loop_isolation(false)]
pub fn multi_occurrence_replacer(content: &str, find: &str) -> (r: Vec<String>)
    ensures
        views_of(r@) == multi_occurrence_candidates(content@, find@),
{
    let c = chars_of(content);
    let f = chars_of(find);
    let mut r: Vec<String> = Vec::new();
    if f.len() == 0 {
        proof {
            assert(views_of(r@) =~= multi_occurrence_candidates(content@, find@));
        }
        return r;
    }
    let n = c.len();
    let mut start: usize = 0;
    proof {
        assert(c@.skip(0) =~= c@);
    }
    loop
        invariant
            start <= n,
            n == c@.len(),
            f@.len() >= 1,
            f@ == find@,
            c@ == content@,
            count_occ(c@, f@) == r@.len() + count_occ(c@.skip(start as int), f@),
            forall|k: int| 0 <= k < r@.len() ==> views_of(r@)[k] == f@,
        decreases n - start,
    {
        let ghost tail = c@.skip(start as int);
        match find_from(&c, &f, start) {
            Some(i) => {
                proof {
                    assert(occurs_at(tail, f@, i - start)) by {
                        assert(tail.subrange(i - start, i - start + f@.len()) =~= c@.subrange(
                            i as int,
                            i + f@.len(),
                        ));
                    }
                    assert forall|j: int| 0 <= j < i - start implies !occurs_at(tail, f@, j) by {
                        if occurs_at(tail, f@, j) {
                            assert(tail.subrange(j, j + f@.len()) =~= c@.subrange(
                                start + j,
                                start + j + f@.len(),
                            ));
                            assert(occurs_at(c@, f@, start + j));
                        }
                    }
                    lemma_first_occurrence(tail, f@, f@, i - start);
                    assert(tail.skip(i - start + f@.len()) =~= c@.skip(i + f@.len()));
                }
                let ghost before = r@;
                r.push(string_of(&f));
                proof {
                    assert forall|k: int| 0 <= k < r@.len() implies views_of(r@)[k] == f@ by {
                        if k < before.len() {
                            assert(r@[k] == before[k]);
                            assert(views_of(before)[k] == f@);
                        } else {
                            assert(r@[k]@ == f@);
                        }
                    }
                }
                start = i + f.len();
            },
            None => {
                proof {
                    assert forall|j: int| !occurs_at(tail, f@, j) by {
                        if occurs_at(tail, f@, j) {
                            assert(j >= 0);
                            assert(tail.subrange(j, j + f@.len()) =~= c@.subrange(
                                start + j,
                                start + j + f@.len(),
                            ));
                            assert(occurs_at(c@, f@, start + j));
                        }
                    }
                    lemma_no_occurrence(tail, f@, f@);
                    assert(views_of(r@) =~= multi_occurrence_candidates(content@, find@));
                }
                return r;
            },
        }
    }
}

// ---------------------------------------------------------------------------
// Layer 7: trimmed-boundary
// ---------------------------------------------------------------------------

/// Window candidates for the trimmed-boundary layer: every aligned window of
/// `fl_len` lines whose trimmed join equals `t`, appended to `acc` unless
/// already present.
pub open spec fn tb_windows(
    cl: Seq<Seq<char>>,
    fl_len: int,
    t: Seq<char>,
    i: int,
    acc: Seq<Seq<char>>,
) -> Seq<Seq<char>>
    decreases cl.len() - i,
{
    if i < 0 || fl_len < 1 || i + fl_len > cl.len() {
        acc
    } else {
        let cand = join_with(cl.subrange(i, i + fl_len), nl_seq());
        let acc2 = if trim_of(cand) == t && cand.len() > 0 && !acc.contains(cand) {
            acc.push(cand)
        } else {
            acc
        };
        tb_windows(cl, fl_len, t, i + 1, acc2)
    }
}

pub open spec fn trimmed_boundary_candidates(c: Seq<char>, f: Seq<char>) -> Seq<Seq<char>> {
    let t = trim_of(f);
    if t == f {
        Seq::<Seq<char>>::empty()
    } else {
        let direct = if t.len() > 0 && occurs_in(c, t) {
            seq![t]
        } else {
            Seq::<Seq<char>>::empty()
        };
        tb_windows(lines_of(c), lines_of(f).len() as int, t, 0, direct)
    }
}

/// Layer 7: when the search string is not already boundary-trimmed, its
/// trimmed form, plus every aligned window whose trimmed join equals it.
#[verifier::loop_isolation(false)]
pub fn trimmed_boundary_replacer(content: &str, find: &str) -> (r: Vec<String>)
    ensures
        views_of(r@) == trimmed_boundary_candidates(content@, find@),
{
    let c = chars_of(content);
    let f = chars_of(find);
    let t = trim_vec(&f);
    let mut out: Vec<Vec<char>> = Vec::new();
    if chars_eq(&t, &f) {
        proof {
            assert(views_of(out@) =~= trimmed_boundary_candidates(content@, find@));
        }
        return to_strings(&out);
    }
    if t.len() > 0 && occurs_check(&c, &t) {
        let tc = sub_vec(&t, 0, t.len());
        proof {
            assert(tc@ =~= t@);
        }
        out.push(tc);
    }
    let ghost direct = views_of(out@);
    proof {
        if t@.len() > 0 && occurs_in(c@, t@) {
            assert(direct =~= seq![trim_of(f@)]);
        } else {
            assert(direct =~= Seq::<Seq<char>>::empty());
        }
    }
    let cl = split_lines(&c);
    let fl = split_lines(&f);
    let fl_len = fl.len();
    let n = cl.len();
    let mut i: usize = 0;
    while n - i >= fl_len && fl_len >= 1
        invariant
            i <= n,
            n == views_of(cl@).len(),
            fl_len == lines_of(f@).len(),
            tb_windows(views_of(cl@), fl_len as int, t@, 0, direct) == tb_windows(
                views_of(cl@),
                fl_len as int,
                t@,
                i as int,
                views_of(out@),
            ),
        decreases n - i,
    {
        let cand = join_window(&cl, i, i + fl_len);
        let ghost acc0 = views_of(out@);
        let tr = trim_vec(&cand);
        if chars_eq(&tr, &t) && cand.len() > 0 && !contains_seq(&out, &cand) {
            out.push(cand);
            proof {
                assert(views_of(out@) =~= acc0.push(out@.last()@));
            }
        }
        proof {
            assert(views_of(cl@).subrange(i as int, i + fl_len) =~= views_of(cl@).subrange(
                i as int,
                i as int + fl_len as int,
            ));
        }
        i = i + 1;
    }
    proof {
        assert(tb_windows(views_of(cl@), fl_len as int, t@, i as int, views_of(out@))
            == views_of(out@));
    }
    to_strings(&out)
}

// ---------------------------------------------------------------------------
// Layer 2: line-trimmed
// ---------------------------------------------------------------------------

/// Every line of the window starting at `i` equals the corresponding search
/// line after trimming.
pub open spec fn window_trim_match(cl: Seq<Seq<char>>, sl: Seq<Seq<char>>, i: int) -> bool {
    forall|j: int| 0 <= j < sl.len() ==> trim_of(cl[i + j]) == trim_of(sl[j])
}

pub open spec fn ltr_from(cl: Seq<Seq<char>>, sl: Seq<Seq<char>>, i: int) -> Seq<Seq<char>>
    decreases cl.len() - i,
{
    if i < 0 || sl.len() < 1 || i + sl.len() > cl.len() {
        Seq::<Seq<char>>::empty()
    } else {
        let rest = ltr_from(cl, sl, i + 1);
        let cand = join_with(cl.subrange(i, i + sl.len() as int), nl_seq());
        if window_trim_match(cl, sl, i) && cand.len() > 0 {
            seq![cand] + rest
        } else {
            rest
        }
    }
}

pub open spec fn line_trimmed_candidates(c: Seq<char>, f: Seq<char>) -> Seq<Seq<char>> {
    ltr_from(lines_of(c), search_lines_of(f), 0)
}

/// Layer 2: every aligned window of lines whose trimmed lines equal the
/// trimmed search lines, emitted verbatim.
#[verifier::loop_isolation(false)]
pub fn line_trimmed_replacer(content: &str, find: &str) -> (r: Vec<String>)
    ensures
        views_of(r@) == line_trimmed_candidates(content@, find@),
{
    let c = chars_of(content);
    let f = chars_of(find);
    let cl = split_lines(&c);
    let sl = search_lines(&f);
    let mut out: Vec<Vec<char>> = Vec::new();
    let n = cl.len();
    let m = sl.len();
    let mut i: usize = 0;
    while m >= 1 && n - i >= m
        invariant
            i <= n,
            n == views_of(cl@).len(),
            m == search_lines_of(f@).len(),
            views_of(sl@) == search_lines_of(f@),
            line_trimmed_candidates(content@, find@) =~= views_of(out@) + ltr_from(
                views_of(cl@),
                views_of(sl@),
                i as int,
            ),
        decreases n - i,
    {
        let mut j: usize = 0;
        let mut ok = true;
        while j < m
            invariant
                j <= m,
                i + m <= n,
                ok <==> forall|t: int|
                    0 <= t < j ==> trim_of(views_of(cl@)[i + t]) == trim_of(views_of(sl@)[t]),
                !ok ==> j == m,
            decreases m - j,
        {
            let to = trim_vec(&cl[i + j]);
            let ts = trim_vec(&sl[j]);
            if !chars_eq(&to, &ts) {
                proof {
                    assert(views_of(cl@)[i + j] == cl@[i + j]@);
                    assert(views_of(sl@)[j as int] == sl@[j as int]@);
                    assert(trim_of(views_of(cl@)[i + j]) != trim_of(views_of(sl@)[j as int]));
                }
                ok = false;
                j = m;
            } else {
                proof {
                    assert(trim_of(views_of(cl@)[i + j]) == trim_of(views_of(sl@)[j as int]));
                }
                j = j + 1;
            }
        }
        let ghost acc0 = views_of(out@);
        let ghost rest = ltr_from(views_of(cl@), views_of(sl@), i as int + 1);
        let ghost candg = join_with(
            views_of(cl@).subrange(i as int, i as int + m as int),
            nl_seq(),
        );
        proof {
            assert(ok == window_trim_match(views_of(cl@), views_of(sl@), i as int));
        }
        if ok {
            let cand = join_window(&cl, i, i + m);
            proof {
                assert(cand@ == candg);
            }
            if cand.len() > 0 {
                out.push(cand);
                proof {
                    assert(views_of(out@) =~= acc0.push(candg));
                    assert(views_of(out@) + rest =~= acc0 + (seq![candg] + rest));
                }
            }
        }
        i = i + 1;
    }
    proof {
        assert(ltr_from(views_of(cl@), views_of(sl@), i as int) =~= Seq::<Seq<char>>::empty());
        assert(views_of(out@) + Seq::<Seq<char>>::empty() =~= views_of(out@));
    }
    to_strings(&out)
}

// ---------------------------------------------------------------------------
// Layer 5: indentation-flexible
// ---------------------------------------------------------------------------

/// A line holding only whitespace (or nothing).
pub open spec fn line_is_blank(l: Seq<char>) -> bool {
    trim_of(l).len() == 0
}

/// Number of bytes taken by the whitespace at the start of `l`.
pub open spec fn leading_ws_bytes(l: Seq<char>) -> int
    decreases l.len(),
{
    if l.len() > 0 && is_ws_char(l[0]) {
        char_utf8_len(l[0]) + leading_ws_bytes(l.drop_first())
    } else {
        0
    }
}

/// The smallest leading-whitespace byte count over the non-blank lines.
pub open spec fn min_indent_of(ls: Seq<Seq<char>>) -> Option<int>
    decreases ls.len(),
{
    if ls.len() == 0 {
        Option::None
    } else {
        let rest = min_indent_of(ls.drop_first());
        if line_is_blank(ls[0]) {
            rest
        } else {
            let mine = leading_ws_bytes(ls[0]);
            match rest {
                Option::None => Option::Some(mine),
                Option::Some(r) => Option::Some(
                    if mine <= r {
                        mine
                    } else {
                        r
                    },
                ),
            }
        }
    }
}

/// Number of characters whose encodings together take exactly `n` bytes at
/// the start of `l`, or `None` when `n` lands inside a character.
pub open spec fn chars_for_bytes(l: Seq<char>, n: int) -> Option<int>
    decreases l.len(),
{
    if n == 0 {
        Option::Some(0)
    } else if n < 0 || l.len() == 0 {
        Option::None
    } else if char_utf8_len(l[0]) <= n {
        match chars_for_bytes(l.drop_first(), n - char_utf8_len(l[0])) {
            Option::Some(k) => Option::Some(1 + k),
            Option::None => Option::None,
        }
    } else {
        Option::None
    }
}

pub proof fn lemma_chars_for_bytes_le(l: Seq<char>, n: int)
    ensures
        chars_for_bytes(l, n) matches Option::Some(k) ==> 0 <= k <= l.len(),
    decreases l.len(),
{
    if n > 0 && l.len() > 0 && char_utf8_len(l[0]) <= n {
        lemma_chars_for_bytes_le(l.drop_first(), n - char_utf8_len(l[0]));
    }
}

/// A line with `n` leading bytes stripped: blank lines stay, a clean cut at
/// `n` bytes is taken, and a cut inside a character falls back to trimming
/// the start.
pub open spec fn strip_line(l: Seq<char>, n: int) -> Seq<char> {
    if line_is_blank(l) {
        l
    } else if spec_byte_len(l) > n {
        match chars_for_bytes(l, n) {
            Option::Some(k) => l.skip(k),
            Option::None => trim_start_of(l),
        }
    } else {
        trim_start_of(l)
    }
}

/// `s` with the smallest common leading-whitespace byte count removed from
/// every non-blank line; unchanged when every line is blank.
pub open spec fn dedent_of(s: Seq<char>) -> Seq<char> {
    let ls = lines_of(s);
    match min_indent_of(ls) {
        Option::None => s,
        Option::Some(n) => join_with(
            Seq::new(ls.len(), |i: int| strip_line(ls[i], n)),
            nl_seq(),
        ),
    }
}

/// Number of bytes taken by the whitespace at the start of `l`.
#[verifier::loop_isolation(false)]
fn lead_ws_bytes(l: &Vec<char>) -> (r: u128)
    ensures
        r as int == leading_ws_bytes(l@),
{
    let mut acc: u128 = 0;
    let mut i: usize = 0;
    proof {
        assert(l@.skip(0) =~= l@);
        crate::text::lemma_byte_len_bounds(l@);
    }
    while i < l.len() && is_ws(l[i])
        invariant
            i <= l@.len(),
            acc <= 4 * (i as u128),
            leading_ws_bytes(l@) == acc + leading_ws_bytes(l@.skip(i as int)),
        decreases l@.len() - i,
    {
        proof {
            assert(l@.skip(i as int)[0] == l@[i as int]);
            assert(l@.skip(i as int).drop_first() =~= l@.skip(i as int + 1));
        }
        acc = acc + utf8_len(l[i]) as u128;
        i = i + 1;
    }
    proof {
        assert(leading_ws_bytes(l@.skip(i as int)) == 0) by {
            if i < l@.len() {
                assert(l@.skip(i as int)[0] == l@[i as int]);
            }
        }
    }
    acc
}

/// The exact character count for an `n`-byte prefix of `l`, when `n` falls
/// on a character boundary.
#[verifier::loop_isolation(false)]
fn strip_count(l: &Vec<char>, n: u128) -> (r: Option<usize>)
    ensures
        match r {
            Some(k) => chars_for_bytes(l@, n as int) == Option::Some(k as int),
            None => chars_for_bytes(l@, n as int) is None,
        },
{
    let mut i: usize = 0;
    let mut rem: u128 = n;
    proof {
        assert(l@.skip(0) =~= l@);
    }
    loop
        invariant
            i <= l@.len(),
            (chars_for_bytes(l@.skip(i as int), rem as int) matches Option::Some(k)
                ==> chars_for_bytes(l@, n as int) == Option::Some(i + k)),
            (chars_for_bytes(l@.skip(i as int), rem as int) is None ==> chars_for_bytes(
                l@,
                n as int,
            ) is None),
        decreases l@.len() - i,
    {
        if rem == 0 {
            return Some(i);
        }
        if i == l.len() {
            proof {
                assert(l@.skip(i as int).len() == 0);
            }
            return None;
        }
        let w = utf8_len(l[i]);
        proof {
            assert(l@.skip(i as int)[0] == l@[i as int]);
            assert(l@.skip(i as int).drop_first() =~= l@.skip(i as int + 1));
        }
        if (w as u128) <= rem {
            rem = rem - w as u128;
            i = i + 1;
        } else {
            return None;
        }
    }
}

/// A single line with `n` leading bytes stripped, as `strip_line` says.
fn strip_line_vec(l: &Vec<char>, n: u128) -> (r: Vec<char>)
    ensures
        r@ == strip_line(l@, n as int),
{
    let t = trim_vec(l);
    if t.len() == 0 {
        let copy = sub_vec(l, 0, l.len());
        proof {
            assert(copy@ =~= l@);
        }
        return copy;
    }
    let bl = byte_len(l);
    if bl > n {
        match strip_count(l, n) {
            Some(k) => {
                proof {
                    lemma_chars_for_bytes_le(l@, n as int);
                }
                let r = sub_vec(l, k, l.len());
                proof {
                    assert(r@ =~= l@.skip(k as int));
                }
                r
            },
            None => trim_start_vec(l),
        }
    } else {
        trim_start_vec(l)
    }
}

/// `v` with the smallest common indentation removed, as `dedent_of` says.
#[verifier::loop_isolation(false)]
fn dedent_vec(v: &Vec<char>) -> (r: Vec<char>)
    ensures
        r@ == dedent_of(v@),
{
    let ls = split_lines(v);
    let n_lines = ls.len();
    let mut k: usize = n_lines;
    let mut min_ind: Option<u128> = None;
    proof {
        assert(views_of(ls@).skip(n_lines as int) =~= Seq::<Seq<char>>::empty());
    }
    while k > 0
        invariant
            k <= n_lines,
            n_lines == views_of(ls@).len(),
            match min_ind {
                Some(m) => min_indent_of(views_of(ls@).skip(k as int)) == Option::Some(m as int),
                None => min_indent_of(views_of(ls@).skip(k as int)) is None,
            },
        decreases k,
    {
        k = k - 1;
        let ghost tail = views_of(ls@).skip(k as int);
        proof {
            assert(tail[0] == views_of(ls@)[k as int]);
            assert(tail.drop_first() =~= views_of(ls@).skip(k as int + 1));
        }
        let t = trim_vec(&ls[k]);
        if t.len() > 0 {
            let mine = lead_ws_bytes(&ls[k]);
            min_ind = match min_ind {
                None => Some(mine),
                Some(m) => Some(
                    if mine <= m {
                        mine
                    } else {
                        m
                    },
                ),
            };
        }
    }
    proof {
        assert(views_of(ls@).skip(0) =~= views_of(ls@));
    }
    match min_ind {
        None => {
            let copy = sub_vec(v, 0, v.len());
            proof {
                assert(copy@ =~= v@);
            }
            copy
        },
        Some(n) => {
            let ghost stripped = Seq::new(
                views_of(ls@).len(),
                |i: int| strip_line(views_of(ls@)[i], n as int),
            );
            let mut r: Vec<char> = Vec::new();
            let mut i: usize = 0;
            proof {
                assert(stripped.subrange(0, 0) =~= Seq::<Seq<char>>::empty());
            }
            while i < n_lines
                invariant
                    i <= n_lines,
                    n_lines == views_of(ls@).len(),
                    r@ == join_with(stripped.subrange(0, i as int), nl_seq()),
                decreases n_lines - i,
            {
                let ghost pre = stripped.subrange(0, i as int);
                if i > 0 {
                    r.push('\n');
                }
                let piece = strip_line_vec(&ls[i], n);
                crate::text::push_all(&mut r, &piece);
                proof {
                    crate::text::lemma_join_with_push(pre, nl_seq(), stripped[i as int]);
                    assert(stripped.subrange(0, i as int + 1) =~= pre.push(stripped[i as int]));
                    if i > 0 {
                        assert(r@ =~= join_with(pre, nl_seq()) + nl_seq() + stripped[i as int]);
                    } else {
                        assert(pre.len() == 0);
                        assert(r@ =~= stripped[i as int]);
                    }
                }
                i = i + 1;
            }
            proof {
                assert(stripped.subrange(0, n_lines as int) =~= stripped);
            }
            r
        },
    }
}

pub open spec fn if_windows(cl: Seq<Seq<char>>, fl_len: int, df: Seq<char>, i: int) -> Seq<
    Seq<char>,
>
    decreases cl.len() - i,
{
    if i < 0 || fl_len < 1 || i + fl_len > cl.len() {
        Seq::<Seq<char>>::empty()
    } else {
        let rest = if_windows(cl, fl_len, df, i + 1);
        let cand = join_with(cl.subrange(i, i + fl_len), nl_seq());
        if dedent_of(cand) == df && cand.len() > 0 {
            seq![cand] + rest
        } else {
            rest
        }
    }
}

pub open spec fn indentation_flexible_candidates(c: Seq<char>, f: Seq<char>) -> Seq<Seq<char>> {
    if_windows(lines_of(c), lines_of(f).len() as int, dedent_of(f), 0)
}

/// Layer 5: every aligned window whose dedented join equals the dedented
/// search string, emitted verbatim.
#[verifier::loop_isolation(false)]
pub fn indentation_flexible_replacer(content: &str, find: &str) -> (r: Vec<String>)
    ensures
        views_of(r@) == indentation_flexible_candidates(content@, find@),
{
    let c = chars_of(content);
    let f = chars_of(find);
    let df = dedent_vec(&f);
    let cl = split_lines(&c);
    let fl = split_lines(&f);
    let fl_len = fl.len();
    let mut out: Vec<Vec<char>> = Vec::new();
    let n = cl.len();
    let mut i: usize = 0;
    while n - i >= fl_len && fl_len >= 1
        invariant
            i <= n,
            n == views_of(cl@).len(),
            fl_len == lines_of(f@).len(),
            df@ == dedent_of(f@),
            indentation_flexible_candidates(content@, find@) =~= views_of(out@) + if_windows(
                views_of(cl@),
                fl_len as int,
                df@,
                i as int,
            ),
        decreases n - i,
    {
        let ghost acc0 = views_of(out@);
        let ghost rest = if_windows(views_of(cl@), fl_len as int, df@, i as int + 1);
        let cand = join_window(&cl, i, i + fl_len);
        proof {
            assert(views_of(cl@).subrange(i as int, i + fl_len) =~= views_of(cl@).subrange(
                i as int,
                i as int + fl_len as int,
            ));
        }
        let dc = dedent_vec(&cand);
        if chars_eq(&dc, &df) && cand.len() > 0 {
            out.push(cand);
            proof {
                assert(views_of(out@) =~= acc0.push(out@.last()@));
                assert(views_of(out@) + rest =~= acc0 + (seq![out@.last()@] + rest));
            }
        }
        i = i + 1;
    }
    proof {
        assert(if_windows(views_of(cl@), fl_len as int, df@, i as int) =~= Seq::<
            Seq<char>,
        >::empty());
        assert(views_of(out@) + Seq::<Seq<char>>::empty() =~= views_of(out@));
    }
    to_strings(&out)
}

// ---------------------------------------------------------------------------
// Layer 6: escape-normalized
// ---------------------------------------------------------------------------

/// The characters that a backslash may escape.
pub open spec fn escapable(c: char) -> bool {
    c == 'n' || c == 't' || c == 'r' || c == '\\' || c == '\'' || c == '"' || c == '`'
        || c == '$' || c == '\n'
}

/// What an escaped character resolves to.
pub open spec fn unescaped_char(c: char) -> char {
    if c == 'n' {
        '\n'
    } else if c == 't' {
        '\t'
    } else if c == 'r' {
        '\r'
    } else {
        c
    }
}

/// `s` with every backslash escape sequence resolved; a backslash that
/// starts no escape sequence stays verbatim.
pub open spec fn unescape_of(s: Seq<char>) -> Seq<char>
    decreases s.len(),
{
    if s.len() == 0 {
        Seq::<char>::empty()
    } else if s[0] == '\\' && s.len() >= 2 && escapable(s[1]) {
        seq![unescaped_char(s[1])] + unescape_of(s.skip(2))
    } else {
        seq![s[0]] + unescape_of(s.skip(1))
    }
}

/// `v` with every backslash escape sequence resolved.
#[verifier::loop_isolation(false)]
fn unescape_vec(v: &Vec<char>) -> (r: Vec<char>)
    ensures
        r@ == unescape_of(v@),
{
    let n = v.len();
    let mut r: Vec<char> = Vec::new();
    let mut i: usize = 0;
    proof {
        assert(v@.skip(0) =~= v@);
    }
    while i < n
        invariant
            i <= n,
            n == v@.len(),
            unescape_of(v@) == r@ + unescape_of(v@.skip(i as int)),
        decreases n - i,
    {
        let ghost tail = v@.skip(i as int);
        proof {
            assert(tail[0] == v@[i as int]);
            if tail.len() >= 2 {
                assert(tail[1] == v@[i as int + 1]);
            }
        }
        let ch = v[i];
        let mut esc = false;
        if ch == '\\' && i + 1 < n {
            let nx = v[i + 1];
            if nx == 'n' || nx == 't' || nx == 'r' || nx == '\\' || nx == '\'' || nx == '"'
                || nx == '`' || nx == '$' || nx == '\n' {
                esc = true;
                let unescaped = if nx == 'n' {
                    '\n'
                } else if nx == 't' {
                    '\t'
                } else if nx == 'r' {
                    '\r'
                } else {
                    nx
                };
                r.push(unescaped);
                proof {
                    assert(tail.skip(2) =~= v@.skip(i as int + 2));
                    assert(r@ + unescape_of(v@.skip(i as int + 2)) =~= r@.drop_last() + (seq![
                        unescaped_char(tail[1]),
                    ] + unescape_of(tail.skip(2))));
                }
                i = i + 2;
            }
        }
        if !esc {
            r.push(ch);
            proof {
                assert(tail.skip(1) =~= v@.skip(i as int + 1));
                assert(r@ + unescape_of(v@.skip(i as int + 1)) =~= r@.drop_last() + (seq![tail[0]]
                    + unescape_of(tail.skip(1))));
            }
            i = i + 1;
        }
    }
    proof {
        assert(unescape_of(v@.skip(n as int)) =~= Seq::<char>::empty());
        assert(r@ + Seq::<char>::empty() =~= r@);
    }
    r
}

/// Window candidates for the escape-normalized layer, appended to `acc`
/// unless already present.
pub open spec fn en_windows(
    cl: Seq<Seq<char>>,
    fl_len: int,
    u: Seq<char>,
    i: int,
    acc: Seq<Seq<char>>,
) -> Seq<Seq<char>>
    decreases cl.len() - i,
{
    if i < 0 || fl_len < 1 || i + fl_len > cl.len() {
        acc
    } else {
        let cand = join_with(cl.subrange(i, i + fl_len), nl_seq());
        let acc2 = if unescape_of(cand) == u && cand.len() > 0 && !acc.contains(cand) {
            acc.push(cand)
        } else {
            acc
        };
        en_windows(cl, fl_len, u, i + 1, acc2)
    }
}

pub open spec fn escape_normalized_candidates(c: Seq<char>, f: Seq<char>) -> Seq<Seq<char>> {
    let u = unescape_of(f);
    let direct = if u.len() > 0 && occurs_in(c, u) {
        seq![u]
    } else {
        Seq::<Seq<char>>::empty()
    };
    en_windows(lines_of(c), lines_of(u).len() as int, u, 0, direct)
}

/// Layer 6: the unescaped search string when it occurs verbatim, plus every
/// aligned window whose unescaped join equals it.
#[verifier::loop_isolation(false)]
pub fn escape_normalized_replacer(content: &str, find: &str) -> (r: Vec<String>)
    ensures
        views_of(r@) == escape_normalized_candidates(content@, find@),
{
    let c = chars_of(content);
    let f = chars_of(find);
    let u = unescape_vec(&f);
    let mut out: Vec<Vec<char>> = Vec::new();
    if u.len() > 0 && occurs_check(&c, &u) {
        let uc = sub_vec(&u, 0, u.len());
        proof {
            assert(uc@ =~= u@);
        }
        out.push(uc);
    }
    let ghost direct = views_of(out@);
    proof {
        if u@.len() > 0 && occurs_in(c@, u@) {
            assert(direct =~= seq![unescape_of(f@)]);
        } else {
            assert(direct =~= Seq::<Seq<char>>::empty());
        }
    }
    let cl = split_lines(&c);
    let ul = split_lines(&u);
    let fl_len = ul.len();
    let n = cl.len();
    let mut i: usize = 0;
    while n - i >= fl_len && fl_len >= 1
        invariant
            i <= n,
            n == views_of(cl@).len(),
            fl_len == lines_of(u@).len(),
            u@ == unescape_of(f@),
            en_windows(views_of(cl@), fl_len as int, u@, 0, direct) == en_windows(
                views_of(cl@),
                fl_len as int,
                u@,
                i as int,
                views_of(out@),
            ),
        decreases n - i,
    {
        let cand = join_window(&cl, i, i + fl_len);
        let ghost acc0 = views_of(out@);
        proof {
            assert(views_of(cl@).subrange(i as int, i + fl_len) =~= views_of(cl@).subrange(
                i as int,
                i as int + fl_len as int,
            ));
        }
        let uc = unescape_vec(&cand);
        if chars_eq(&uc, &u) && cand.len() > 0 && !contains_seq(&out, &cand) {
            out.push(cand);
            proof {
                assert(views_of(out@) =~= acc0.push(out@.last()@));
            }
        }
        i = i + 1;
    }
    proof {
        assert(en_windows(views_of(cl@), fl_len as int, u@, i as int, views_of(out@))
            == views_of(out@));
    }
    to_strings(&out)
}

// ---------------------------------------------------------------------------
// Layer 4: whitespace-normalized
// ---------------------------------------------------------------------------

/// Position of the first whitespace character in `s`, or `s.len()`.
pub open spec fn first_ws(s: Seq<char>) -> nat
    decreases s.len(),
{
    if s.len() == 0 {
        0
    } else if is_ws_char(s[0]) {
        0
    } else {
        (1 + first_ws(s.drop_first())) as nat
    }
}

pub proof fn lemma_first_ws_is(s: Seq<char>, i: int)
    requires
        0 <= i <= s.len(),
        forall|j: int| 0 <= j < i ==> !is_ws_char(s[j]),
        i == s.len() || is_ws_char(s[i]),
    ensures
        first_ws(s) == i,
    decreases s.len(),
{
    if i > 0 {
        lemma_first_ws_is(s.drop_first(), i - 1);
    }
}

/// The maximal whitespace-free runs of `s`, in order.
pub open spec fn ws_tokens(s: Seq<char>) -> Seq<Seq<char>>
    decreases s.len(),
{
    if s.len() == 0 {
        Seq::<Seq<char>>::empty()
    } else if is_ws_char(s[0]) {
        ws_tokens(s.drop_first())
    } else {
        let k = if first_ws(s) <= s.len() {
            first_ws(s) as int
        } else {
            s.len() as int
        };
        seq![s.take(k)] + ws_tokens(s.skip(k))
    }
}

/// `s` with every whitespace run collapsed to a single space and boundary
/// whitespace dropped.
pub open spec fn norm_ws(s: Seq<char>) -> Seq<char> {
    join_with(ws_tokens(s), seq![' '])
}

/// The whitespace-free runs of `v`, in order.
#[verifier::loop_isolation(false)]
pub fn split_ws(v: &Vec<char>) -> (r: Vec<Vec<char>>)
    ensures
        views_of(r@) == ws_tokens(v@),
{
    let n = v.len();
    let mut r: Vec<Vec<char>> = Vec::new();
    let mut i: usize = 0;
    proof {
        assert(v@.skip(0) =~= v@);
        assert(views_of(r@) =~= Seq::<Seq<char>>::empty());
    }
    while i < n
        invariant
            i <= n,
            n == v@.len(),
            ws_tokens(v@) =~= views_of(r@) + ws_tokens(v@.skip(i as int)),
        decreases n - i,
    {
        let ghost tail = v@.skip(i as int);
        proof {
            assert(tail[0] == v@[i as int]);
        }
        if is_ws(v[i]) {
            proof {
                assert(tail.drop_first() =~= v@.skip(i as int + 1));
            }
            i = i + 1;
        } else {
            let mut j: usize = i;
            while j < n && !is_ws(v[j])
                invariant
                    i <= j <= n,
                    forall|k: int| i <= k < j ==> !is_ws_char(v@[k]),
                decreases n - j,
            {
                j = j + 1;
            }
            proof {
                assert(forall|k: int| 0 <= k < j - i ==> !is_ws_char(tail[k]));
                lemma_first_ws_is(tail, j - i);
            }
            let tok = sub_vec(v, i, j);
            r.push(tok);
            proof {
                assert(tok@ =~= tail.take(j - i));
                assert(tail.skip(j - i) =~= v@.skip(j as int));
                assert(views_of(r@) =~= views_of(r@.drop_last()) + seq![tok@]);
            }
            i = j;
        }
    }
    proof {
        assert(ws_tokens(v@.skip(n as int)) =~= Seq::<Seq<char>>::empty());
        assert(views_of(r@) + Seq::<Seq<char>>::empty() =~= views_of(r@));
    }
    r
}

/// The pieces joined with a single separator character between them.
#[verifier::loop_isolation(false)]
pub fn join_all(ls: &Vec<Vec<char>>, sep: char) -> (r: Vec<char>)
    ensures
        r@ == join_with(views_of(ls@), seq![sep]),
{
    let n = ls.len();
    let mut r: Vec<char> = Vec::new();
    let mut k: usize = 0;
    proof {
        assert(views_of(ls@).take(0) =~= Seq::<Seq<char>>::empty());
    }
    while k < n
        invariant
            k <= n,
            n == views_of(ls@).len(),
            r@ == join_with(views_of(ls@).take(k as int), seq![sep]),
        decreases n - k,
    {
        let ghost pre = views_of(ls@).take(k as int);
        if k > 0 {
            r.push(sep);
        }
        crate::text::push_all(&mut r, &ls[k]);
        proof {
            crate::text::lemma_join_with_push(pre, seq![sep], ls@[k as int]@);
            assert(views_of(ls@).take(k as int + 1) =~= pre.push(ls@[k as int]@));
            if k > 0 {
                assert(r@ =~= join_with(pre, seq![sep]) + seq![sep] + ls@[k as int]@);
            } else {
                assert(pre.len() == 0);
                assert(r@ =~= ls@[k as int]@);
            }
        }
        k = k + 1;
    }
    proof {
        assert(views_of(ls@).take(n as int) =~= views_of(ls@));
    }
    r
}

/// `v` with whitespace runs collapsed, as `norm_ws` says.
fn norm_ws_vec(v: &Vec<char>) -> (r: Vec<char>)
    ensures
        r@ == norm_ws(v@),
{
    let toks = split_ws(v);
    join_all(&toks, ' ')
}

/// Every token escaped for use as a regular-expression literal.
pub open spec fn escaped_tokens(toks: Seq<Seq<char>>) -> Seq<Seq<char>> {
    Seq::new(toks.len(), |i: int| regex_escaped(toks[i]))
}

/// The whitespace-flexible pattern: the escaped tokens joined by a
/// whitespace-run pattern.
pub open spec fn ws_pattern_of(f: Seq<char>) -> Seq<char> {
    join_with(escaped_tokens(ws_tokens(f)), seq!['\\', 's', '+'])
}

/// Build the whitespace-flexible pattern text for the given tokens.
#[verifier::loop_isolation(false)]
fn build_pattern(toks: &Vec<Vec<char>>) -> (r: String)
    ensures
        r@ == join_with(escaped_tokens(views_of(toks@)), seq!['\\', 's', '+']),
{
    let n = toks.len();
    let ghost esc = escaped_tokens(views_of(toks@));
    let mut pat = String::new();
    let mut k: usize = 0;
    proof {
        reveal_strlit("\\s+");
        assert(esc.take(0) =~= Seq::<Seq<char>>::empty());
    }
    while k < n
        invariant
            k <= n,
            n == views_of(toks@).len(),
            esc == escaped_tokens(views_of(toks@)),
            pat@ == join_with(esc.take(k as int), seq!['\\', 's', '+']),
        decreases n - k,
    {
        let ghost pre = esc.take(k as int);
        if k > 0 {
            pat.append("\\s+");
            proof {
                assert("\\s+"@ =~= seq!['\\', 's', '+']);
            }
        }
        let tok_s = string_of(&toks[k]);
        let piece = escape_pattern(tok_s.as_str());
        pat.append(piece.as_str());
        proof {
            assert(piece@ == regex_escaped(views_of(toks@)[k as int]));
            assert(piece@ == esc[k as int]);
            crate::text::lemma_join_with_push(pre, seq!['\\', 's', '+'], esc[k as int]);
            assert(esc.take(k as int + 1) =~= pre.push(esc[k as int]));
            if k > 0 {
                assert(pat@ =~= join_with(pre, seq!['\\', 's', '+']) + seq!['\\', 's', '+']
                    + esc[k as int]);
            } else {
                assert(pre.len() == 0);
                assert(pat@ =~= esc[k as int]);
            }
        }
        k = k + 1;
    }
    proof {
        assert(esc.take(n as int) =~= esc);
    }
    pat
}

/// Single-line candidates of the whitespace-normalized layer: a line equal
/// to the search string after normalization, or the first match of the
/// whitespace-flexible pattern in a line that contains the normalized search
/// string.
pub open spec fn wsn_singles(
    cl: Seq<Seq<char>>,
    nf: Seq<char>,
    has_toks: bool,
    pat: Seq<char>,
    i: int,
) -> Seq<Seq<char>>
    decreases cl.len() - i,
{
    if i < 0 || i >= cl.len() {
        Seq::<Seq<char>>::empty()
    } else {
        let line = cl[i];
        let here = if norm_ws(line) == nf {
            if line.len() > 0 {
                seq![line]
            } else {
                Seq::<Seq<char>>::empty()
            }
        } else if occurs_in(norm_ws(line), nf) && has_toks {
            match regex_first_match(pat, line) {
                Option::Some(mm) => if mm.len() > 0 {
                    seq![mm]
                } else {
                    Seq::<Seq<char>>::empty()
                },
                Option::None => Seq::<Seq<char>>::empty(),
            }
        } else {
            Seq::<Seq<char>>::empty()
        };
        here + wsn_singles(cl, nf, has_toks, pat, i + 1)
    }
}

/// Window candidates of the whitespace-normalized layer.
pub open spec fn wsn_windows(cl: Seq<Seq<char>>, fl_len: int, nf: Seq<char>, i: int) -> Seq<
    Seq<char>,
>
    decreases cl.len() - i,
{
    if i < 0 || fl_len < 1 || i + fl_len > cl.len() {
        Seq::<Seq<char>>::empty()
    } else {
        let rest = wsn_windows(cl, fl_len, nf, i + 1);
        let cand = join_with(cl.subrange(i, i + fl_len), nl_seq());
        if norm_ws(cand) == nf && cand.len() > 0 {
            seq![cand] + rest
        } else {
            rest
        }
    }
}

pub open spec fn whitespace_normalized_candidates(c: Seq<char>, f: Seq<char>) -> Seq<Seq<char>> {
    let nf = norm_ws(f);
    let singles = wsn_singles(lines_of(c), nf, ws_tokens(f).len() > 0, ws_pattern_of(f), 0);
    let multi = if lines_of(f).len() > 1 {
        wsn_windows(lines_of(c), lines_of(f).len() as int, nf, 0)
    } else {
        Seq::<Seq<char>>::empty()
    };
    singles + multi
}

/// Layer 4: lines and windows that equal the search string after collapsing
/// whitespace runs, plus the first whitespace-flexible pattern match within
/// a line that contains the normalized search string.
#[verifier::loop_isolation(false)]
pub fn whitespace_normalized_replacer(content: &str, find: &str) -> (r: Vec<String>)
    ensures
        views_of(r@) == whitespace_normalized_candidates(content@, find@),
{
    let c = chars_of(content);
    let f = chars_of(find);
    let nf = norm_ws_vec(&f);
    let toks = split_ws(&f);
    let has = toks.len() > 0;
    let pat = build_pattern(&toks);
    let cl = split_lines(&c);
    let mut out: Vec<Vec<char>> = Vec::new();
    let n = cl.len();
    let mut i: usize = 0;
    let ghost clv = views_of(cl@);
    let ghost singles = wsn_singles(clv, nf@, has, pat@, 0);
    while i < n
        invariant
            i <= n,
            n == clv.len(),
            clv == views_of(cl@),
            nf@ == norm_ws(f@),
            has == (ws_tokens(f@).len() > 0),
            pat@ == ws_pattern_of(f@),
            singles == wsn_singles(clv, nf@, has, pat@, 0),
            singles =~= views_of(out@) + wsn_singles(clv, nf@, has, pat@, i as int),
        decreases n - i,
    {
        let ghost acc0 = views_of(out@);
        let ghost rest = wsn_singles(clv, nf@, has, pat@, i as int + 1);
        let line_norm = norm_ws_vec(&cl[i]);
        proof {
            assert(clv[i as int] == cl@[i as int]@);
        }
        if chars_eq(&line_norm, &nf) {
            if cl[i].len() > 0 {
                let copy = sub_vec(&cl[i], 0, cl[i].len());
                proof {
                    assert(copy@ =~= cl@[i as int]@);
                }
                out.push(copy);
                proof {
                    assert(views_of(out@) =~= acc0.push(clv[i as int]));
                    assert(views_of(out@) + rest =~= acc0 + (seq![clv[i as int]] + rest));
                }
            }
        } else if occurs_check(&line_norm, &nf) && has {
            let line_s = string_of(&cl[i]);
            match find_pattern(pat.as_str(), line_s.as_str()) {
                Some(m) => {
                    let mv = chars_of(m.as_str());
                    if mv.len() > 0 {
                        out.push(mv);
                        proof {
                            assert(views_of(out@) =~= acc0.push(m@));
                            assert(views_of(out@) + rest =~= acc0 + (seq![m@] + rest));
                        }
                    }
                },
                None => {},
            }
        }
        i = i + 1;
    }
    proof {
        assert(wsn_singles(clv, nf@, has, pat@, n as int) =~= Seq::<Seq<char>>::empty());
        assert(views_of(out@) + Seq::<Seq<char>>::empty() =~= views_of(out@));
        assert(views_of(out@) =~= singles);
    }
    let fl = split_lines(&f);
    let fl_len = fl.len();
    if fl_len > 1 {
        let mut i2: usize = 0;
        while n - i2 >= fl_len
            invariant
                i2 <= n,
                n == clv.len(),
                clv == views_of(cl@),
                nf@ == norm_ws(f@),
                fl_len == lines_of(f@).len(),
                fl_len >= 1,
                singles + wsn_windows(clv, fl_len as int, nf@, 0) =~= views_of(out@)
                    + wsn_windows(clv, fl_len as int, nf@, i2 as int),
            decreases n - i2,
        {
            let ghost acc0 = views_of(out@);
            let ghost rest = wsn_windows(clv, fl_len as int, nf@, i2 as int + 1);
            let cand = join_window(&cl, i2, i2 + fl_len);
            proof {
                assert(clv.subrange(i2 as int, i2 + fl_len) =~= clv.subrange(
                    i2 as int,
                    i2 as int + fl_len as int,
                ));
            }
            let cn = norm_ws_vec(&cand);
            if chars_eq(&cn, &nf) && cand.len() > 0 {
                out.push(cand);
                proof {
                    assert(views_of(out@) =~= acc0.push(out@.last()@));
                    assert(views_of(out@) + rest =~= acc0 + (seq![out@.last()@] + rest));
                }
            }
            i2 = i2 + 1;
        }
        proof {
            assert(wsn_windows(clv, fl_len as int, nf@, i2 as int) =~= Seq::<Seq<char>>::empty());
            assert(views_of(out@) + Seq::<Seq<char>>::empty() =~= views_of(out@));
        }
    } else {
        proof {
            assert(whitespace_normalized_candidates(content@, find@) =~= singles);
        }
    }
    to_strings(&out)
}

// ---------------------------------------------------------------------------
// Shared: anchored block scanning
// ---------------------------------------------------------------------------

/// The first line index at or after `j` whose trimmed text equals `t`.
pub open spec fn next_anchor(cl: Seq<Seq<char>>, t: Seq<char>, j: int) -> Option<int>
    decreases cl.len() - j,
{
    if j < 0 || j >= cl.len() {
        Option::None
    } else if trim_of(cl[j]) == t {
        Option::Some(j)
    } else {
        next_anchor(cl, t, j + 1)
    }
}

/// The block of lines `i` through `j`, joined with line breaks.
pub open spec fn extract_lines(cl: Seq<Seq<char>>, i: int, j: int) -> Seq<char> {
    join_with(cl.subrange(i, j + 1), nl_seq())
}

/// The first line index at or after `from` whose trimmed text equals `t`.
#[verifier::loop_isolation(false)]
fn find_anchor(cl: &Vec<Vec<char>>, t: &Vec<char>, from: usize) -> (r: Option<usize>)
    ensures
        match r {
            Some(j) => next_anchor(views_of(cl@), t@, from as int) == Option::Some(j as int)
                && from <= j < cl@.len(),
            None => next_anchor(views_of(cl@), t@, from as int) is None,
        },
{
    let n = cl.len();
    let mut j: usize = from;
    while j < n
        invariant
            from <= j,
            j <= n || j == from,
            n == cl@.len(),
            next_anchor(views_of(cl@), t@, from as int) == next_anchor(views_of(cl@), t@, j as int),
        decreases n - j,
    {
        let tj = trim_vec(&cl[j]);
        proof {
            assert(views_of(cl@)[j as int] == cl@[j as int]@);
        }
        if chars_eq(&tj, t) {
            return Some(j);
        }
        j = j + 1;
    }
    None
}

/// The block of lines `[i, j]`, joined with line breaks.
pub fn extract_block(cl: &Vec<Vec<char>>, i: usize, j: usize) -> (r: Vec<char>)
    requires
        i <= j < cl@.len(),
    ensures
        r@ == extract_lines(views_of(cl@), i as int, j as int),
{
    let n = cl.len();
    let r = join_window(cl, i, j + 1);
    proof {
        assert(views_of(cl@).subrange(i as int, j as int + 1) =~= views_of(cl@).subrange(
            i as int,
            j + 1,
        ));
    }
    r
}

// ---------------------------------------------------------------------------
// Layer 3: block-anchor
// ---------------------------------------------------------------------------

/// All candidate regions: for every line whose trimmed text equals the first
/// anchor, the first line at least two below it whose trimmed text equals
/// the last anchor.
pub open spec fn anchor_pairs(cl: Seq<Seq<char>>, ft: Seq<char>, lt: Seq<char>, i: int) -> Seq<
    (int, int),
>
    decreases cl.len() - i,
{
    if i < 0 || i >= cl.len() {
        Seq::<(int, int)>::empty()
    } else {
        let rest = anchor_pairs(cl, ft, lt, i + 1);
        if trim_of(cl[i]) == ft {
            match next_anchor(cl, lt, i + 2) {
                Option::Some(j) => seq![(i, j)] + rest,
                Option::None => rest,
            }
        } else {
            rest
        }
    }
}

/// A line pair's contribution to a region's score: zero when both trimmed
/// lines are empty, the scaled similarity otherwise.
pub open spec fn pair_contrib(o: Seq<char>, s: Seq<char>) -> int {
    if spec_byte_len(o) == 0 && spec_byte_len(s) == 0 {
        0
    } else {
        spec_similarity_scaled(o, s)
    }
}

/// Sum of contributions over interior line offsets `[j, hi)`.
pub open spec fn contrib_sum(
    cl: Seq<Seq<char>>,
    sl: Seq<Seq<char>>,
    start: int,
    j: int,
    hi: int,
) -> int
    decreases hi - j,
{
    if j >= hi {
        0
    } else {
        pair_contrib(trim_of(cl[start + j]), trim_of(sl[j])) + contrib_sum(cl, sl, start, j + 1, hi)
    }
}

/// The mean scaled similarity of the region `(i, j)` over its checked
/// interior lines; the full scale when there is no interior line to check.
pub open spec fn mean_sim_of(cl: Seq<Seq<char>>, sl: Seq<Seq<char>>, i: int, j: int) -> int {
    let region_size = j - i + 1;
    let search_size = sl.len() as int;
    let mn = if search_size <= region_size {
        search_size
    } else {
        region_size
    };
    let checked = mn - 2;
    if checked > 0 {
        contrib_sum(cl, sl, i, 1, mn - 1) / checked
    } else {
        SIMILARITY_SCALE as int
    }
}

/// The region with the highest mean similarity, the earliest winning ties.
pub open spec fn best_from(
    cl: Seq<Seq<char>>,
    sl: Seq<Seq<char>>,
    pairs: Seq<(int, int)>,
    k: int,
    best: (int, int),
) -> (int, int)
    decreases pairs.len() - k,
{
    if k < 0 || k >= pairs.len() {
        best
    } else {
        let nb = if mean_sim_of(cl, sl, pairs[k].0, pairs[k].1) > mean_sim_of(
            cl,
            sl,
            best.0,
            best.1,
        ) {
            pairs[k]
        } else {
            best
        };
        best_from(cl, sl, pairs, k + 1, nb)
    }
}

pub open spec fn block_anchor_candidates(c: Seq<char>, f: Seq<char>) -> Seq<Seq<char>> {
    let cl = lines_of(c);
    let sl = search_lines_of(f);
    if sl.len() < 3 {
        Seq::<Seq<char>>::empty()
    } else {
        let ft = trim_of(sl[0]);
        let lt = trim_of(sl.last());
        let pairs = anchor_pairs(cl, ft, lt, 0);
        if pairs.len() == 0 {
            Seq::<Seq<char>>::empty()
        } else if pairs.len() == 1 {
            seq![extract_lines(cl, pairs[0].0, pairs[0].1)]
        } else {
            let b = best_from(cl, sl, pairs, 1, pairs[0]);
            if mean_sim_of(cl, sl, b.0, b.1) >= 3 * (SIMILARITY_SCALE as int) / 10 {
                seq![extract_lines(cl, b.0, b.1)]
            } else {
                Seq::<Seq<char>>::empty()
            }
        }
    }
}

/// The mean scaled similarity of the region `(i, j)`.
#[verifier::loop_isolation(false)]
fn mean_sim(cl: &Vec<Vec<char>>, sl: &Vec<Vec<char>>, i: usize, j: usize) -> (r: u128)
    requires
        i + 2 <= j < cl@.len(),
        3 <= sl@.len(),
    ensures
        r as int == mean_sim_of(views_of(cl@), views_of(sl@), i as int, j as int),
{
    let n_lines = cl.len();
    let region_size = j - i + 1;
    let search_size = sl.len();
    let mn = if search_size <= region_size {
        search_size
    } else {
        region_size
    };
    let checked = mn - 2;
    if checked == 0 {
        return SIMILARITY_SCALE as u128;
    }
    let mut sum: u128 = 0;
    let mut t: usize = 1;
    while t < mn - 1
        invariant
            1 <= t <= mn - 1,
            mn <= sl@.len(),
            mn <= j - i + 1,
            i + 2 <= j < cl@.len(),
            sum as int == contrib_sum(views_of(cl@), views_of(sl@), i as int, 1, t as int),
            sum <= (t as u128 - 1) * (SIMILARITY_SCALE as u128),
        decreases mn - t,
    {
        let to = trim_vec(&cl[i + t]);
        let ts = trim_vec(&sl[t]);
        proof {
            assert(views_of(cl@)[i + t] == cl@[i + t]@);
            assert(views_of(sl@)[t as int] == sl@[t as int]@);
        }
        let bo = byte_len(&to);
        let bs = byte_len(&ts);
        let pc: u64 = if bo == 0 && bs == 0 {
            0u64
        } else {
            similarity_scaled_chars(&to, &ts)
        };
        proof {
            crate::text::lemma_byte_len_bounds(to@);
            crate::text::lemma_byte_len_bounds(ts@);
            assert(pc as int == pair_contrib(
                trim_of(views_of(cl@)[i + t]),
                trim_of(views_of(sl@)[t as int]),
            ));
            assert(contrib_sum(views_of(cl@), views_of(sl@), i as int, 1, t as int + 1)
                == contrib_sum(views_of(cl@), views_of(sl@), i as int, 1, t as int)
                + pair_contrib(trim_of(views_of(cl@)[i + t]), trim_of(views_of(sl@)[t as int])))
                by {
                lemma_contrib_sum_snoc(views_of(cl@), views_of(sl@), i as int, 1, t as int);
            }
        }
        sum = sum + pc as u128;
        t = t + 1;
    }
    sum / (checked as u128)
}

/// Splitting a contribution sum at its last element.
proof fn lemma_contrib_sum_snoc(cl: Seq<Seq<char>>, sl: Seq<Seq<char>>, start: int, j: int, hi: int)
    requires
        j <= hi,
    ensures
        contrib_sum(cl, sl, start, j, hi + 1) == contrib_sum(cl, sl, start, j, hi) + pair_contrib(
            trim_of(cl[start + hi]),
            trim_of(sl[hi]),
        ),
    decreases hi - j,
{
    if j < hi {
        lemma_contrib_sum_snoc(cl, sl, start, j + 1, hi);
    } else {
        assert(contrib_sum(cl, sl, start, hi + 1, hi + 1) == 0);
    }
}

/// Layer 3: regions anchored on the search string's first and last trimmed
/// lines; a sole region is accepted outright, several compete on mean
/// interior similarity.
#[verifier::loop_isolation(false)]
pub fn block_anchor_replacer(content: &str, find: &str) -> (r: Vec<String>)
    ensures
        views_of(r@) == block_anchor_candidates(content@, find@),
{
    let c = chars_of(content);
    let f = chars_of(find);
    let cl = split_lines(&c);
    let sl = search_lines(&f);
    let ghost clv = views_of(cl@);
    let ghost slv = views_of(sl@);
    let mut out: Vec<Vec<char>> = Vec::new();
    if sl.len() < 3 {
        proof {
            assert(views_of(out@) =~= block_anchor_candidates(content@, find@));
        }
        return to_strings(&out);
    }
    let ft = trim_vec(&sl[0]);
    let last_idx = sl.len() - 1;
    let lt = trim_vec(&sl[last_idx]);
    proof {
        assert(slv[0] == sl@[0]@);
        assert(slv.last() == sl@[last_idx as int]@);
    }
    let n = cl.len();
    let mut starts: Vec<usize> = Vec::new();
    let mut ends: Vec<usize> = Vec::new();
    let ghost mut pairsg: Seq<(int, int)> = Seq::empty();
    let mut i: usize = 0;
    while i < n
        invariant
            i <= n,
            n == clv.len(),
            clv == views_of(cl@),
            ft@ == trim_of(slv[0]),
            lt@ == trim_of(slv.last()),
            starts@.len() == ends@.len(),
            pairsg.len() == starts@.len(),
            forall|k: int| 0 <= k < pairsg.len() ==> pairsg[k] == (
                starts@[k] as int,
                ends@[k] as int,
            ),
            forall|k: int|
                0 <= k < pairsg.len() ==> starts@[k] + 2 <= #[trigger] ends@[k] && ends@[k] < n,
            anchor_pairs(clv, ft@, lt@, 0) =~= pairsg + anchor_pairs(clv, ft@, lt@, i as int),
        decreases n - i,
    {
        let ti = trim_vec(&cl[i]);
        proof {
            assert(clv[i as int] == cl@[i as int]@);
        }
        let ghost rest = anchor_pairs(clv, ft@, lt@, i as int + 1);
        if chars_eq(&ti, &ft) {
            if n - i >= 3 {
                match find_anchor(&cl, &lt, i + 2) {
                    Some(j) => {
                        let ghost s0 = starts@;
                        let ghost e0 = ends@;
                        starts.push(i);
                        ends.push(j);
                        proof {
                            pairsg = pairsg.push((i as int, j as int));
                            assert(pairsg + rest =~= pairsg.drop_last() + (seq![
                                (i as int, j as int),
                            ] + rest));
                            assert forall|k2: int|
                                0 <= k2 < pairsg.len() implies starts@[k2] + 2
                                <= #[trigger] ends@[k2] && ends@[k2] < n by {
                                if k2 < s0.len() {
                                    assert(starts@[k2] == s0[k2]);
                                    assert(ends@[k2] == e0[k2]);
                                    assert(s0[k2] + 2 <= e0[k2] && e0[k2] < n);
                                } else {
                                    assert(starts@[k2] == i);
                                    assert(ends@[k2] == j);
                                }
                            }
                        }
                    },
                    None => {},
                }
            } else {
                proof {
                    assert(next_anchor(clv, lt@, i as int + 2) is None);
                }
            }
        }
        i = i + 1;
    }
    proof {
        assert(anchor_pairs(clv, ft@, lt@, n as int) =~= Seq::<(int, int)>::empty());
        assert(pairsg + Seq::<(int, int)>::empty() =~= pairsg);
        assert(anchor_pairs(clv, ft@, lt@, 0) == pairsg);
    }
    let np = starts.len();
    if np == 0 {
        proof {
            assert(views_of(out@) =~= block_anchor_candidates(content@, find@));
        }
        return to_strings(&out);
    }
    if np == 1 {
        let cand = extract_block(&cl, starts[0], ends[0]);
        out.push(cand);
        proof {
            assert(pairsg[0] == (starts@[0] as int, ends@[0] as int));
            assert(views_of(out@) =~= seq![extract_lines(clv, pairsg[0].0, pairsg[0].1)]);
        }
        return to_strings(&out);
    }
    let mut best_s = starts[0];
    let mut best_e = ends[0];
    proof {
        assert(pairsg[0] == (starts@[0] as int, ends@[0] as int));
    }
    let mut best_mean = mean_sim(&cl, &sl, best_s, best_e);
    let mut k: usize = 1;
    while k < np
        invariant
            1 <= k <= np,
            np == pairsg.len(),
            clv == views_of(cl@),
            slv == views_of(sl@),
            3 <= slv.len(),
            n == clv.len(),
            starts@.len() == np,
            ends@.len() == np,
            forall|t: int| 0 <= t < np ==> pairsg[t] == (starts@[t] as int, ends@[t] as int),
            forall|t: int|
                0 <= t < np ==> starts@[t] + 2 <= #[trigger] ends@[t] && ends@[t] < n,
            best_s + 2 <= best_e < n,
            best_mean as int == mean_sim_of(clv, slv, best_s as int, best_e as int),
            best_from(clv, slv, pairsg, 1, pairsg[0]) == best_from(
                clv,
                slv,
                pairsg,
                k as int,
                (best_s as int, best_e as int),
            ),
        decreases np - k,
    {
        let m = mean_sim(&cl, &sl, starts[k], ends[k]);
        if m > best_mean {
            best_s = starts[k];
            best_e = ends[k];
            best_mean = m;
        }
        k = k + 1;
    }
    proof {
        assert(best_from(clv, slv, pairsg, np as int, (best_s as int, best_e as int)) == (
            best_s as int,
            best_e as int,
        ));
        assert(3 * (SIMILARITY_SCALE as int) / 10 == 300000);
    }
    if best_mean >= 300000 {
        let cand = extract_block(&cl, best_s, best_e);
        out.push(cand);
        proof {
            assert(views_of(out@) =~= seq![
                extract_lines(clv, best_s as int, best_e as int),
            ]);
        }
    } else {
        proof {
            assert(views_of(out@) =~= Seq::<Seq<char>>::empty());
        }
    }
    to_strings(&out)
}

// ---------------------------------------------------------------------------
// Layer 8: context-aware
// ---------------------------------------------------------------------------

/// Number of interior line pairs, at offsets `[k, hi)`, where at least one
/// trimmed side is non-empty.
pub open spec fn ctx_total(cl: Seq<Seq<char>>, fl: Seq<Seq<char>>, i: int, k: int, hi: int) -> int
    decreases hi - k,
{
    if k >= hi {
        0
    } else {
        let bt = trim_of(cl[i + k]);
        let ft = trim_of(fl[k]);
        (if bt.len() > 0 || ft.len() > 0 {
            1int
        } else {
            0int
        }) + ctx_total(cl, fl, i, k + 1, hi)
    }
}

/// Number of counted interior line pairs whose trimmed sides are equal.
pub open spec fn ctx_matching(cl: Seq<Seq<char>>, fl: Seq<Seq<char>>, i: int, k: int, hi: int) -> int
    decreases hi - k,
{
    if k >= hi {
        0
    } else {
        let bt = trim_of(cl[i + k]);
        let ft = trim_of(fl[k]);
        (if (bt.len() > 0 || ft.len() > 0) && bt == ft {
            1int
        } else {
            0int
        }) + ctx_matching(cl, fl, i, k + 1, hi)
    }
}

/// The scan of the context-aware layer: for each line matching the first
/// anchor, the first matching last anchor at least two below; the block is
/// accepted when its size equals the search block's and at least half of the
/// counted interior pairs match exactly.
pub open spec fn ctx_scan(cl: Seq<Seq<char>>, fl: Seq<Seq<char>>, i: int) -> Seq<Seq<char>>
    decreases cl.len() - i,
{
    if i < 0 || i >= cl.len() {
        Seq::<Seq<char>>::empty()
    } else if trim_of(cl[i]) != trim_of(fl[0]) {
        ctx_scan(cl, fl, i + 1)
    } else {
        match next_anchor(cl, trim_of(fl.last()), i + 2) {
            Option::None => ctx_scan(cl, fl, i + 1),
            Option::Some(j) => {
                if j - i + 1 != fl.len() {
                    ctx_scan(cl, fl, i + 1)
                } else {
                    let total = ctx_total(cl, fl, i, 1, fl.len() - 1);
                    let matching = ctx_matching(cl, fl, i, 1, fl.len() - 1);
                    if total == 0 || 2 * matching >= total {
                        seq![extract_lines(cl, i, j)]
                    } else {
                        ctx_scan(cl, fl, i + 1)
                    }
                }
            },
        }
    }
}

pub open spec fn context_aware_candidates(c: Seq<char>, f: Seq<char>) -> Seq<Seq<char>> {
    let fl = search_lines_of(f);
    if fl.len() < 3 {
        Seq::<Seq<char>>::empty()
    } else {
        ctx_scan(lines_of(c), fl, 0)
    }
}

/// Layer 8: at most one anchored block, accepted when at least half of its
/// counted interior lines match the search lines exactly.
#[verifier::loop_isolation(false)]
pub fn context_aware_replacer(content: &str, find: &str) -> (r: Vec<String>)
    ensures
        views_of(r@) == context_aware_candidates(content@, find@),
{
    let c = chars_of(content);
    let f = chars_of(find);
    let cl = split_lines(&c);
    let fl = search_lines(&f);
    let ghost clv = views_of(cl@);
    let ghost flv = views_of(fl@);
    let mut out: Vec<Vec<char>> = Vec::new();
    if fl.len() < 3 {
        proof {
            assert(views_of(out@) =~= context_aware_candidates(content@, find@));
        }
        return to_strings(&out);
    }
    let ft = trim_vec(&fl[0]);
    let last_idx = fl.len() - 1;
    let lt = trim_vec(&fl[last_idx]);
    proof {
        assert(flv[0] == fl@[0]@);
        assert(flv.last() == fl@[last_idx as int]@);
    }
    let n = cl.len();
    let m = fl.len();
    let mut i: usize = 0;
    while i < n
        invariant
            i <= n,
            n == clv.len(),
            m == flv.len(),
            3 <= m,
            clv == views_of(cl@),
            flv == views_of(fl@),
            ft@ == trim_of(flv[0]),
            lt@ == trim_of(flv.last()),
            out@.len() == 0,
            ctx_scan(clv, flv, 0) == ctx_scan(clv, flv, i as int),
        decreases n - i,
    {
        let ti = trim_vec(&cl[i]);
        proof {
            assert(clv[i as int] == cl@[i as int]@);
        }
        if chars_eq(&ti, &ft) {
            let anchor = if n - i >= 3 {
                find_anchor(&cl, &lt, i + 2)
            } else {
                proof {
                    assert(next_anchor(clv, lt@, i as int + 2) is None);
                }
                None
            };
            match anchor {
                Some(j) => {
                    if j - i + 1 == m {
                        let mut total: usize = 0;
                        let mut matching: usize = 0;
                        let mut k: usize = 1;
                        while k < m - 1
                            invariant
                                1 <= k <= m - 1,
                                3 <= m == flv.len(),
                                i + m <= n + 1,
                                j == i + m - 1,
                                j < n == clv.len(),
                                clv == views_of(cl@),
                                flv == views_of(fl@),
                                total as int == ctx_total(clv, flv, i as int, 1, k as int),
                                matching as int == ctx_matching(clv, flv, i as int, 1, k as int),
                                matching <= total <= k,
                            decreases m - k,
                        {
                            let bt = trim_vec(&cl[i + k]);
                            let ftk = trim_vec(&fl[k]);
                            proof {
                                assert(clv[i + k] == cl@[i + k]@);
                                assert(flv[k as int] == fl@[k as int]@);
                                lemma_ctx_counts_snoc(clv, flv, i as int, 1, k as int);
                            }
                            if bt.len() > 0 || ftk.len() > 0 {
                                total = total + 1;
                                if chars_eq(&bt, &ftk) {
                                    matching = matching + 1;
                                }
                            }
                            k = k + 1;
                        }
                        if total == 0 || 2 * (matching as u128) >= total as u128 {
                            let cand = extract_block(&cl, i, j);
                            out.push(cand);
                            proof {
                                assert(views_of(out@) =~= seq![
                                    extract_lines(clv, i as int, j as int),
                                ]);
                            }
                            return to_strings(&out);
                        }
                    }
                },
                None => {},
            }
        }
        i = i + 1;
    }
    proof {
        assert(ctx_scan(clv, flv, n as int) =~= Seq::<Seq<char>>::empty());
        assert(views_of(out@) =~= context_aware_candidates(content@, find@));
    }
    to_strings(&out)
}

/// Splitting the interior counts at their last element.
proof fn lemma_ctx_counts_snoc(cl: Seq<Seq<char>>, fl: Seq<Seq<char>>, i: int, k: int, hi: int)
    requires
        k <= hi,
    ensures
        ctx_total(cl, fl, i, k, hi + 1) == ctx_total(cl, fl, i, k, hi) + (
        if trim_of(cl[i + hi]).len() > 0 || trim_of(fl[hi]).len() > 0 {
            1int
        } else {
            0int
        }),
        ctx_matching(cl, fl, i, k, hi + 1) == ctx_matching(cl, fl, i, k, hi) + (
        if (trim_of(cl[i + hi]).len() > 0 || trim_of(fl[hi]).len() > 0) && trim_of(cl[i + hi])
            == trim_of(fl[hi]) {
            1int
        } else {
            0int
        }),
    decreases hi - k,
{
    if k < hi {
        lemma_ctx_counts_snoc(cl, fl, i, k + 1, hi);
    } else {
        assert(ctx_total(cl, fl, i, hi + 1, hi + 1) == 0);
        assert(ctx_matching(cl, fl, i, hi + 1, hi + 1) == 0);
    }
}

// ---------------------------------------------------------------------------
// No layer emits an empty candidate
// ---------------------------------------------------------------------------

pub proof fn lemma_simple_nonempty(f: Seq<char>)
    ensures
        all_nonempty(simple_candidates(f)),
{
}

pub proof fn lemma_multi_occurrence_nonempty(c: Seq<char>, f: Seq<char>)
    ensures
        all_nonempty(multi_occurrence_candidates(c, f)),
{
}

proof fn lemma_ltr_from_nonempty(cl: Seq<Seq<char>>, sl: Seq<Seq<char>>, i: int)
    ensures
        all_nonempty(ltr_from(cl, sl, i)),
    decreases cl.len() - i,
{
    if !(i < 0 || sl.len() < 1 || i + sl.len() > cl.len()) {
        lemma_ltr_from_nonempty(cl, sl, i + 1);
    }
}

pub proof fn lemma_line_trimmed_nonempty(c: Seq<char>, f: Seq<char>)
    ensures
        all_nonempty(line_trimmed_candidates(c, f)),
{
    lemma_ltr_from_nonempty(lines_of(c), search_lines_of(f), 0);
}

proof fn lemma_tb_windows_nonempty(
    cl: Seq<Seq<char>>,
    fl_len: int,
    t: Seq<char>,
    i: int,
    acc: Seq<Seq<char>>,
)
    requires
        all_nonempty(acc),
    ensures
        all_nonempty(tb_windows(cl, fl_len, t, i, acc)),
    decreases cl.len() - i,
{
    if !(i < 0 || fl_len < 1 || i + fl_len > cl.len()) {
        let cand = join_with(cl.subrange(i, i + fl_len), nl_seq());
        let acc2 = if trim_of(cand) == t && cand.len() > 0 && !acc.contains(cand) {
            acc.push(cand)
        } else {
            acc
        };
        lemma_tb_windows_nonempty(cl, fl_len, t, i + 1, acc2);
    }
}

pub proof fn lemma_trimmed_boundary_nonempty(c: Seq<char>, f: Seq<char>)
    ensures
        all_nonempty(trimmed_boundary_candidates(c, f)),
{
    let t = trim_of(f);
    if t != f {
        let direct = if t.len() > 0 && occurs_in(c, t) {
            seq![t]
        } else {
            Seq::<Seq<char>>::empty()
        };
        assert(all_nonempty(direct));
        lemma_tb_windows_nonempty(lines_of(c), lines_of(f).len() as int, t, 0, direct);
    }
}

proof fn lemma_en_windows_nonempty(
    cl: Seq<Seq<char>>,
    fl_len: int,
    u: Seq<char>,
    i: int,
    acc: Seq<Seq<char>>,
)
    requires
        all_nonempty(acc),
    ensures
        all_nonempty(en_windows(cl, fl_len, u, i, acc)),
    decreases cl.len() - i,
{
    if !(i < 0 || fl_len < 1 || i + fl_len > cl.len()) {
        let cand = join_with(cl.subrange(i, i + fl_len), nl_seq());
        let acc2 = if unescape_of(cand) == u && cand.len() > 0 && !acc.contains(cand) {
            acc.push(cand)
        } else {
            acc
        };
        lemma_en_windows_nonempty(cl, fl_len, u, i + 1, acc2);
    }
}

pub proof fn lemma_escape_normalized_nonempty(c: Seq<char>, f: Seq<char>)
    ensures
        all_nonempty(escape_normalized_candidates(c, f)),
{
    let u = unescape_of(f);
    let direct = if u.len() > 0 && occurs_in(c, u) {
        seq![u]
    } else {
        Seq::<Seq<char>>::empty()
    };
    assert(all_nonempty(direct));
    lemma_en_windows_nonempty(lines_of(c), lines_of(u).len() as int, u, 0, direct);
}

proof fn lemma_if_windows_nonempty(cl: Seq<Seq<char>>, fl_len: int, df: Seq<char>, i: int)
    ensures
        all_nonempty(if_windows(cl, fl_len, df, i)),
    decreases cl.len() - i,
{
    if !(i < 0 || fl_len < 1 || i + fl_len > cl.len()) {
        lemma_if_windows_nonempty(cl, fl_len, df, i + 1);
    }
}

pub proof fn lemma_indentation_flexible_nonempty(c: Seq<char>, f: Seq<char>)
    ensures
        all_nonempty(indentation_flexible_candidates(c, f)),
{
    lemma_if_windows_nonempty(lines_of(c), lines_of(f).len() as int, dedent_of(f), 0);
}

proof fn lemma_wsn_singles_nonempty(
    cl: Seq<Seq<char>>,
    nf: Seq<char>,
    has_toks: bool,
    pat: Seq<char>,
    i: int,
)
    ensures
        all_nonempty(wsn_singles(cl, nf, has_toks, pat, i)),
    decreases cl.len() - i,
{
    if !(i < 0 || i >= cl.len()) {
        lemma_wsn_singles_nonempty(cl, nf, has_toks, pat, i + 1);
    }
}

proof fn lemma_wsn_windows_nonempty(cl: Seq<Seq<char>>, fl_len: int, nf: Seq<char>, i: int)
    ensures
        all_nonempty(wsn_windows(cl, fl_len, nf, i)),
    decreases cl.len() - i,
{
    if !(i < 0 || fl_len < 1 || i + fl_len > cl.len()) {
        lemma_wsn_windows_nonempty(cl, fl_len, nf, i + 1);
    }
}

pub proof fn lemma_whitespace_normalized_nonempty(c: Seq<char>, f: Seq<char>)
    ensures
        all_nonempty(whitespace_normalized_candidates(c, f)),
{
    lemma_wsn_singles_nonempty(lines_of(c), norm_ws(f), ws_tokens(f).len() > 0, ws_pattern_of(f), 0);
    if lines_of(f).len() > 1 {
        lemma_wsn_windows_nonempty(lines_of(c), lines_of(f).len() as int, norm_ws(f), 0);
    }
}

/// A `next_anchor` hit lies between the scan start and the end of the lines.
pub proof fn lemma_next_anchor_bounds(cl: Seq<Seq<char>>, t: Seq<char>, j: int)
    ensures
        next_anchor(cl, t, j) matches Option::Some(j2) ==> j <= j2 < cl.len(),
    decreases cl.len() - j,
{
    if !(j < 0 || j >= cl.len()) {
        if trim_of(cl[j]) != t {
            lemma_next_anchor_bounds(cl, t, j + 1);
        }
    }
}

/// An anchored block of at least two lines joins to non-empty text.
pub proof fn lemma_extract_nonempty(cl: Seq<Seq<char>>, i: int, j: int)
    requires
        0 <= i,
        i < j,
        j < cl.len(),
    ensures
        extract_lines(cl, i, j).len() > 0,
{
    let w = cl.subrange(i, j + 1);
    assert(w.len() >= 2);
    assert(join_with(w, nl_seq()) == w[0] + nl_seq() + join_with(w.drop_first(), nl_seq()));
}

/// Every candidate region's bounds: the end anchor is at least two lines
/// below the start and within the lines.
proof fn lemma_anchor_pairs_bounds(cl: Seq<Seq<char>>, ft: Seq<char>, lt: Seq<char>, i: int)
    ensures
        forall|k: int|
            0 <= k < anchor_pairs(cl, ft, lt, i).len() ==> (#[trigger] anchor_pairs(
                cl,
                ft,
                lt,
                i,
            )[k]).0 + 2 <= anchor_pairs(cl, ft, lt, i)[k].1 < cl.len() && 0 <= anchor_pairs(
                cl,
                ft,
                lt,
                i,
            )[k].0,
    decreases cl.len() - i,
{
    if !(i < 0 || i >= cl.len()) {
        lemma_anchor_pairs_bounds(cl, ft, lt, i + 1);
        let pairs = anchor_pairs(cl, ft, lt, i);
        let rest = anchor_pairs(cl, ft, lt, i + 1);
        if trim_of(cl[i]) == ft {
            lemma_next_anchor_bounds(cl, lt, i + 2);
            match next_anchor(cl, lt, i + 2) {
                Option::Some(j) => {
                    assert forall|k: int| 0 <= k < pairs.len() implies (#[trigger] pairs[k]).0 + 2
                        <= pairs[k].1 < cl.len() && 0 <= pairs[k].0 by {
                        if k == 0 {
                            assert(pairs[0] == (i, j));
                        } else {
                            assert(pairs[k] == rest[k - 1]);
                        }
                    }
                },
                Option::None => {
                },
            }
        }
    }
}

/// The selected region is the initial one or one of the scanned pairs.
proof fn lemma_best_from_mem(
    cl: Seq<Seq<char>>,
    sl: Seq<Seq<char>>,
    pairs: Seq<(int, int)>,
    k: int,
    best: (int, int),
)
    ensures
        best_from(cl, sl, pairs, k, best) == best || exists|t: int|
            k <= t < pairs.len() && pairs[t] == best_from(cl, sl, pairs, k, best),
    decreases pairs.len() - k,
{
    if !(k < 0 || k >= pairs.len()) {
        let nb = if mean_sim_of(cl, sl, pairs[k].0, pairs[k].1) > mean_sim_of(
            cl,
            sl,
            best.0,
            best.1,
        ) {
            pairs[k]
        } else {
            best
        };
        lemma_best_from_mem(cl, sl, pairs, k + 1, nb);
    }
}

pub proof fn lemma_block_anchor_nonempty(c: Seq<char>, f: Seq<char>)
    ensures
        all_nonempty(block_anchor_candidates(c, f)),
{
    let cl = lines_of(c);
    let sl = search_lines_of(f);
    if sl.len() >= 3 {
        let ft = trim_of(sl[0]);
        let lt = trim_of(sl.last());
        let pairs = anchor_pairs(cl, ft, lt, 0);
        lemma_anchor_pairs_bounds(cl, ft, lt, 0);
        if pairs.len() == 1 {
            lemma_extract_nonempty(cl, pairs[0].0, pairs[0].1);
        } else if pairs.len() > 1 {
            let b = best_from(cl, sl, pairs, 1, pairs[0]);
            lemma_best_from_mem(cl, sl, pairs, 1, pairs[0]);
            lemma_extract_nonempty(cl, b.0, b.1);
        }
    }
}

proof fn lemma_ctx_scan_nonempty(cl: Seq<Seq<char>>, fl: Seq<Seq<char>>, i: int)
    ensures
        all_nonempty(ctx_scan(cl, fl, i)),
    decreases cl.len() - i,
{
    if !(i < 0 || i >= cl.len()) {
        if trim_of(cl[i]) != trim_of(fl[0]) {
            lemma_ctx_scan_nonempty(cl, fl, i + 1);
        } else {
            match next_anchor(cl, trim_of(fl.last()), i + 2) {
                Option::None => {
                    lemma_ctx_scan_nonempty(cl, fl, i + 1);
                },
                Option::Some(j) => {
                    lemma_next_anchor_bounds(cl, trim_of(fl.last()), i + 2);
                    if j - i + 1 != fl.len() {
                        lemma_ctx_scan_nonempty(cl, fl, i + 1);
                    } else {
                        let total = ctx_total(cl, fl, i, 1, fl.len() - 1);
                        let matching = ctx_matching(cl, fl, i, 1, fl.len() - 1);
                        if total == 0 || 2 * matching >= total {
                            lemma_extract_nonempty(cl, i, j);
                        } else {
                            lemma_ctx_scan_nonempty(cl, fl, i + 1);
                        }
                    }
                },
            }
        }
    }
}

pub proof fn lemma_context_aware_nonempty(c: Seq<char>, f: Seq<char>)
    ensures
        all_nonempty(context_aware_candidates(c, f)),
{
    let fl = search_lines_of(f);
    if fl.len() >= 3 {
        lemma_ctx_scan_nonempty(lines_of(c), fl, 0);
    }
}

} // verus!
