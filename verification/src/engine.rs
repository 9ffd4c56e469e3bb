//! The orchestrator: nine replacers tried in order, candidate by candidate.
//!
//! For each candidate, the orchestrator locates it in the content. In
//! replace-all mode the first candidate found anywhere commits, substituting
//! every occurrence. In single-replace mode a candidate commits only when its
//! first and last occurrences coincide; an ambiguous candidate is skipped and
//! the scan moves to the next candidate, then the next replacer. Once any
//! candidate commits the engine returns at once; when the chain runs out,
//! there is no confident match.

use vstd::prelude::*;

use crate::replacers::{
    all_nonempty, block_anchor_candidates, block_anchor_replacer, context_aware_candidates,
    context_aware_replacer, escape_normalized_candidates, escape_normalized_replacer,
    indentation_flexible_candidates, indentation_flexible_replacer, line_trimmed_candidates,
    line_trimmed_replacer, multi_occurrence_candidates, multi_occurrence_replacer,
    simple_candidates, simple_replacer, trimmed_boundary_candidates, trimmed_boundary_replacer,
    whitespace_normalized_candidates, whitespace_normalized_replacer, lemma_block_anchor_nonempty,
    lemma_context_aware_nonempty, lemma_escape_normalized_nonempty,
    lemma_indentation_flexible_nonempty, lemma_line_trimmed_nonempty,
    lemma_multi_occurrence_nonempty, lemma_simple_nonempty, lemma_trimmed_boundary_nonempty,
    lemma_whitespace_normalized_nonempty,
};
use crate::text::{
    chars_of, find_from, find_last, occurs_at, occurs_in, replace_all_with, replace_every,
    splice_at, splice_vec, string_of, unique_occurrence, views_of,
};

verus! {

/// What committing candidate `s` against `content` yields: every occurrence
/// replaced in replace-all mode, the sole occurrence replaced when it is
/// unique, nothing otherwise.
pub open spec fn commit_of(
    content: Seq<char>,
    s: Seq<char>,
    new: Seq<char>,
    replace_all: bool,
) -> Option<Seq<char>> {
    if !occurs_in(content, s) {
        Option::None
    } else if replace_all {
        Option::Some(replace_all_with(content, s, new))
    } else if unique_occurrence(content, s) {
        let i = choose|i: int| occurs_at(content, s, i);
        Option::Some(splice_at(content, i, s.len() as int, new))
    } else {
        Option::None
    }
}

/// The first candidate in the list that commits, if any.
pub open spec fn first_commit(
    content: Seq<char>,
    cands: Seq<Seq<char>>,
    new: Seq<char>,
    replace_all: bool,
) -> Option<Seq<char>>
    decreases cands.len(),
{
    if cands.len() == 0 {
        Option::None
    } else {
        match commit_of(content, cands[0], new, replace_all) {
            Option::Some(r) => Option::Some(r),
            Option::None => first_commit(content, cands.drop_first(), new, replace_all),
        }
    }
}

/// The candidates of all nine layers, in chain order.
pub open spec fn chain_candidates(c: Seq<char>, f: Seq<char>) -> Seq<Seq<char>> {
    simple_candidates(f) + line_trimmed_candidates(c, f) + block_anchor_candidates(c, f)
        + whitespace_normalized_candidates(c, f) + indentation_flexible_candidates(c, f)
        + escape_normalized_candidates(c, f) + trimmed_boundary_candidates(c, f)
        + context_aware_candidates(c, f) + multi_occurrence_candidates(c, f)
}

/// What `replace` returns: the first commit over the whole chain.
pub open spec fn spec_replace(
    c: Seq<char>,
    f: Seq<char>,
    n: Seq<char>,
    replace_all: bool,
) -> Option<Seq<char>> {
    first_commit(c, chain_candidates(c, f), n, replace_all)
}

/// Scanning a concatenation commits on the left part first.
pub proof fn lemma_first_commit_append(
    content: Seq<char>,
    a: Seq<Seq<char>>,
    b: Seq<Seq<char>>,
    new: Seq<char>,
    replace_all: bool,
)
    ensures
        first_commit(content, a + b, new, replace_all) == (match first_commit(
            content,
            a,
            new,
            replace_all,
        ) {
            Option::Some(r) => Option::Some(r),
            Option::None => first_commit(content, b, new, replace_all),
        }),
    decreases a.len(),
{
    if a.len() == 0 {
        assert(a + b =~= b);
    } else {
        assert((a + b)[0] == a[0]);
        assert((a + b).drop_first() =~= a.drop_first() + b);
        assert((a + b).len() > 0);
        lemma_first_commit_append(content, a.drop_first(), b, new, replace_all);
    }
}

/// Try one replacer's candidates in order against the content.
#[verifier::loop_isolation(false)]
fn try_candidates(cv: &Vec<char>, cands: &Vec<String>, nv: &Vec<char>, replace_all: bool) -> (r:
    Option<Vec<char>>)
    requires
        all_nonempty(views_of(cands@)),
    ensures
        match r {
            Some(out) => first_commit(cv@, views_of(cands@), nv@, replace_all) == Option::Some(
                out@,
            ),
            None => first_commit(cv@, views_of(cands@), nv@, replace_all) is None,
        },
{
    let n_c = cands.len();
    let mut k: usize = 0;
    proof {
        assert(views_of(cands@).skip(0) =~= views_of(cands@));
    }
    while k < n_c
        invariant
            k <= n_c,
            n_c == cands@.len(),
            first_commit(cv@, views_of(cands@), nv@, replace_all) == first_commit(
                cv@,
                views_of(cands@).skip(k as int),
                nv@,
                replace_all,
            ),
        decreases n_c - k,
    {
        let ghost rem = views_of(cands@).skip(k as int);
        proof {
            assert(rem[0] == views_of(cands@)[k as int]);
            assert(rem.drop_first() =~= views_of(cands@).skip(k as int + 1));
            assert(views_of(cands@)[k as int].len() > 0);
        }
        let s = chars_of(cands[k].as_str());
        match find_from(cv, &s, 0) {
            None => {
                proof {
                    assert(!occurs_in(cv@, s@)) by {
                        if occurs_in(cv@, s@) {
                            let w = choose|w: int| occurs_at(cv@, s@, w);
                            assert(w >= 0);
                        }
                    }
                    assert(commit_of(cv@, rem[0], nv@, replace_all) is None);
                }
            },
            Some(i) => {
                proof {
                    assert(occurs_in(cv@, s@));
                }
                if replace_all {
                    let out = replace_every(cv, &s, nv);
                    proof {
                        assert(commit_of(cv@, rem[0], nv@, replace_all) == Option::Some(out@));
                    }
                    return Some(out);
                }
                match find_last(cv, &s) {
                    Some(i2) => {
                        if i == i2 {
                            proof {
                                assert forall|x: int, y: int|
                                    occurs_at(cv@, s@, x) && occurs_at(cv@, s@, y) implies x
                                    == y by {
                                    assert(x >= i as int && y >= i as int);
                                    assert(x <= i2 as int && y <= i2 as int);
                                }
                                assert(unique_occurrence(cv@, s@));
                                let ci = choose|ci: int| occurs_at(cv@, s@, ci);
                                assert(occurs_at(cv@, s@, i as int));
                                assert(ci == i as int);
                            }
                            let out = splice_vec(cv, i, s.len(), nv);
                            proof {
                                assert(commit_of(cv@, rem[0], nv@, replace_all) == Option::Some(
                                    out@,
                                ));
                            }
                            return Some(out);
                        } else {
                            proof {
                                assert(occurs_at(cv@, s@, i as int));
                                assert(occurs_at(cv@, s@, i2 as int));
                                assert(!unique_occurrence(cv@, s@));
                                assert(commit_of(cv@, rem[0], nv@, replace_all) is None);
                            }
                        }
                    },
                    None => {
                        proof {
                            assert(false);
                        }
                    },
                }
            },
        }
        k = k + 1;
    }
    proof {
        assert(views_of(cands@).skip(n_c as int).len() == 0);
    }
    None
}

/// Replace `old` with `new` in `content` using the nine-layer chain.
///
/// Returns the substituted text when some candidate commits, `None` when the
/// chain runs out without a confident match.
pub fn replace(content: &str, old: &str, new: &str, replace_all: bool) -> (r: Option<String>)
    ensures
        match r {
            Some(s) => spec_replace(content@, old@, new@, replace_all) == Option::Some(s@),
            None => spec_replace(content@, old@, new@, replace_all) is None,
        },
{
    let cv = chars_of(content);
    let nv = chars_of(new);
    let ghost c = content@;
    let ghost f = old@;
    let ghost nn = new@;
    let ghost l1 = simple_candidates(f);
    let ghost l2 = line_trimmed_candidates(c, f);
    let ghost l3 = block_anchor_candidates(c, f);
    let ghost l4 = whitespace_normalized_candidates(c, f);
    let ghost l5 = indentation_flexible_candidates(c, f);
    let ghost l6 = escape_normalized_candidates(c, f);
    let ghost l7 = trimmed_boundary_candidates(c, f);
    let ghost l8 = context_aware_candidates(c, f);
    let ghost l9 = multi_occurrence_candidates(c, f);
    let ghost r9 = l9;
    let ghost r8 = l8 + r9;
    let ghost r7 = l7 + r8;
    let ghost r6 = l6 + r7;
    let ghost r5 = l5 + r6;
    let ghost r4 = l4 + r5;
    let ghost r3 = l3 + r4;
    let ghost r2 = l2 + r3;
    let ghost r1 = l1 + r2;
    proof {
        assert(chain_candidates(c, f) =~= r1);
        lemma_simple_nonempty(f);
        lemma_line_trimmed_nonempty(c, f);
        lemma_block_anchor_nonempty(c, f);
        lemma_whitespace_normalized_nonempty(c, f);
        lemma_indentation_flexible_nonempty(c, f);
        lemma_escape_normalized_nonempty(c, f);
        lemma_trimmed_boundary_nonempty(c, f);
        lemma_context_aware_nonempty(c, f);
        lemma_multi_occurrence_nonempty(c, f);
    }
    let cands1 = simple_replacer(content, old);
    proof {
        lemma_first_commit_append(c, l1, r2, nn, replace_all);
    }
    match try_candidates(&cv, &cands1, &nv, replace_all) {
        Some(out) => {
            return Some(string_of(&out));
        },
        None => {},
    }
    let cands2 = line_trimmed_replacer(content, old);
    proof {
        lemma_first_commit_append(c, l2, r3, nn, replace_all);
    }
    match try_candidates(&cv, &cands2, &nv, replace_all) {
        Some(out) => {
            return Some(string_of(&out));
        },
        None => {},
    }
    let cands3 = block_anchor_replacer(content, old);
    proof {
        lemma_first_commit_append(c, l3, r4, nn, replace_all);
    }
    match try_candidates(&cv, &cands3, &nv, replace_all) {
        Some(out) => {
            return Some(string_of(&out));
        },
        None => {},
    }
    let cands4 = whitespace_normalized_replacer(content, old);
    proof {
        lemma_first_commit_append(c, l4, r5, nn, replace_all);
    }
    match try_candidates(&cv, &cands4, &nv, replace_all) {
        Some(out) => {
            return Some(string_of(&out));
        },
        None => {},
    }
    let cands5 = indentation_flexible_replacer(content, old);
    proof {
        lemma_first_commit_append(c, l5, r6, nn, replace_all);
    }
    match try_candidates(&cv, &cands5, &nv, replace_all) {
        Some(out) => {
            return Some(string_of(&out));
        },
        None => {},
    }
    let cands6 = escape_normalized_replacer(content, old);
    proof {
        lemma_first_commit_append(c, l6, r7, nn, replace_all);
    }
    match try_candidates(&cv, &cands6, &nv, replace_all) {
        Some(out) => {
            return Some(string_of(&out));
        },
        None => {},
    }
    let cands7 = trimmed_boundary_replacer(content, old);
    proof {
        lemma_first_commit_append(c, l7, r8, nn, replace_all);
    }
    match try_candidates(&cv, &cands7, &nv, replace_all) {
        Some(out) => {
            return Some(string_of(&out));
        },
        None => {},
    }
    let cands8 = context_aware_replacer(content, old);
    proof {
        lemma_first_commit_append(c, l8, r9, nn, replace_all);
    }
    match try_candidates(&cv, &cands8, &nv, replace_all) {
        Some(out) => {
            return Some(string_of(&out));
        },
        None => {},
    }
    let cands9 = multi_occurrence_replacer(content, old);
    match try_candidates(&cv, &cands9, &nv, replace_all) {
        Some(out) => {
            return Some(string_of(&out));
        },
        None => {},
    }
    None
}

} // verus!
