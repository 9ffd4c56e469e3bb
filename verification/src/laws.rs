//! The engine's guarantees, stated and proved as standalone laws.

use vstd::prelude::*;

use crate::engine::{
    chain_candidates, commit_of, first_commit, lemma_first_commit_append, spec_replace,
};
use crate::levenshtein::{
    lemma_lev_self, lemma_lev_symmetric, spec_distance, MAX_LEVENSHTEIN_INPUT,
};
use crate::replacers::{
    all_nonempty, block_anchor_candidates, context_aware_candidates, line_trimmed_candidates,
    search_lines_of, simple_candidates, trimmed_boundary_candidates, lemma_block_anchor_nonempty,
    lemma_context_aware_nonempty, lemma_escape_normalized_nonempty,
    lemma_indentation_flexible_nonempty, lemma_line_trimmed_nonempty,
    lemma_multi_occurrence_nonempty, lemma_simple_nonempty, lemma_trimmed_boundary_nonempty,
    lemma_whitespace_normalized_nonempty,
};
use crate::text::{
    first_sep, join_with, lines_of, occurs_at, occurs_in, replace_all_with, splice_at, split_by,
    trim_of, unique_occurrence, lemma_first_sep_at, lemma_first_sep_is, lemma_first_sep_le,
};

verus! {

// ---------------------------------------------------------------------------
// The shape of every successful replacement
// ---------------------------------------------------------------------------

proof fn lemma_all_nonempty_append(a: Seq<Seq<char>>, b: Seq<Seq<char>>)
    requires
        all_nonempty(a),
        all_nonempty(b),
    ensures
        all_nonempty(a + b),
{
    assert forall|k: int| 0 <= k < (a + b).len() implies (#[trigger] (a + b)[k]).len() > 0 by {
        if k < a.len() {
            assert((a + b)[k] == a[k]);
        } else {
            assert((a + b)[k] == b[k - a.len()]);
        }
    }
}

proof fn lemma_chain_nonempty(c: Seq<char>, f: Seq<char>)
    ensures
        all_nonempty(chain_candidates(c, f)),
{
    lemma_simple_nonempty(f);
    lemma_line_trimmed_nonempty(c, f);
    lemma_block_anchor_nonempty(c, f);
    lemma_whitespace_normalized_nonempty(c, f);
    lemma_indentation_flexible_nonempty(c, f);
    lemma_escape_normalized_nonempty(c, f);
    lemma_trimmed_boundary_nonempty(c, f);
    lemma_context_aware_nonempty(c, f);
    lemma_multi_occurrence_nonempty(c, f);
    lemma_all_nonempty_append(
        simple_candidates(f),
        line_trimmed_candidates(c, f),
    );
    lemma_all_nonempty_append(
        simple_candidates(f) + line_trimmed_candidates(c, f),
        block_anchor_candidates(c, f),
    );
    lemma_all_nonempty_append(
        simple_candidates(f) + line_trimmed_candidates(c, f) + block_anchor_candidates(c, f),
        crate::replacers::whitespace_normalized_candidates(c, f),
    );
    lemma_all_nonempty_append(
        simple_candidates(f) + line_trimmed_candidates(c, f) + block_anchor_candidates(c, f)
            + crate::replacers::whitespace_normalized_candidates(c, f),
        crate::replacers::indentation_flexible_candidates(c, f),
    );
    lemma_all_nonempty_append(
        simple_candidates(f) + line_trimmed_candidates(c, f) + block_anchor_candidates(c, f)
            + crate::replacers::whitespace_normalized_candidates(c, f)
            + crate::replacers::indentation_flexible_candidates(c, f),
        crate::replacers::escape_normalized_candidates(c, f),
    );
    lemma_all_nonempty_append(
        simple_candidates(f) + line_trimmed_candidates(c, f) + block_anchor_candidates(c, f)
            + crate::replacers::whitespace_normalized_candidates(c, f)
            + crate::replacers::indentation_flexible_candidates(c, f)
            + crate::replacers::escape_normalized_candidates(c, f),
        trimmed_boundary_candidates(c, f),
    );
    lemma_all_nonempty_append(
        simple_candidates(f) + line_trimmed_candidates(c, f) + block_anchor_candidates(c, f)
            + crate::replacers::whitespace_normalized_candidates(c, f)
            + crate::replacers::indentation_flexible_candidates(c, f)
            + crate::replacers::escape_normalized_candidates(c, f) + trimmed_boundary_candidates(
            c,
            f,
        ),
        context_aware_candidates(c, f),
    );
    lemma_all_nonempty_append(
        simple_candidates(f) + line_trimmed_candidates(c, f) + block_anchor_candidates(c, f)
            + crate::replacers::whitespace_normalized_candidates(c, f)
            + crate::replacers::indentation_flexible_candidates(c, f)
            + crate::replacers::escape_normalized_candidates(c, f) + trimmed_boundary_candidates(
            c,
            f,
        ) + context_aware_candidates(c, f),
        crate::replacers::multi_occurrence_candidates(c, f),
    );
}

proof fn lemma_first_commit_witness(
    content: Seq<char>,
    cands: Seq<Seq<char>>,
    new: Seq<char>,
    replace_all: bool,
)
    requires
        all_nonempty(cands),
    ensures
        first_commit(content, cands, new, replace_all) matches Option::Some(res) ==> exists|k: int|
            0 <= k < cands.len() && #[trigger] commit_of(content, cands[k], new, replace_all)
                == Option::Some(res) && cands[k].len() > 0,
    decreases cands.len(),
{
    if cands.len() > 0 {
        match commit_of(content, cands[0], new, replace_all) {
            Option::Some(_r) => {
            },
            Option::None => {
                assert(all_nonempty(cands.drop_first())) by {
                    assert(forall|k: int|
                        0 <= k < cands.drop_first().len() ==> #[trigger] cands.drop_first()[k]
                            == cands[k + 1]);
                }
                lemma_first_commit_witness(content, cands.drop_first(), new, replace_all);
                if first_commit(content, cands, new, replace_all) is Some {
                    let res = first_commit(content, cands, new, replace_all)->Some_0;
                    let k = choose|k: int|
                        0 <= k < cands.drop_first().len() && #[trigger] commit_of(
                            content,
                            cands.drop_first()[k],
                            new,
                            replace_all,
                        ) == Option::Some(res) && cands.drop_first()[k].len() > 0;
                    assert(cands.drop_first()[k] == cands[k + 1]);
                    assert(commit_of(content, cands[k + 1], new, replace_all) == Option::Some(
                        res,
                    ));
                }
            },
        }
    }
}

/// Every successful replacement substitutes a non-empty substring of the
/// content: all of its non-overlapping occurrences in replace-all mode, its
/// unique occurrence otherwise.
pub proof fn lemma_replacement_shape(c: Seq<char>, f: Seq<char>, n: Seq<char>, replace_all: bool)
    ensures
        spec_replace(c, f, n, replace_all) matches Option::Some(res) ==> exists|s: Seq<char>|
            #![auto]
            s.len() > 0 && occurs_in(c, s) && (replace_all ==> res == replace_all_with(c, s, n))
                && (!replace_all ==> unique_occurrence(c, s) && exists|i: int|
                occurs_at(c, s, i) && res == splice_at(c, i, s.len() as int, n)),
{
    lemma_chain_nonempty(c, f);
    lemma_first_commit_witness(c, chain_candidates(c, f), n, replace_all);
    if spec_replace(c, f, n, replace_all) is Some {
        let res = spec_replace(c, f, n, replace_all)->Some_0;
        let cands = chain_candidates(c, f);
        let k = choose|k: int|
            0 <= k < cands.len() && #[trigger] commit_of(c, cands[k], n, replace_all)
                == Option::Some(res) && cands[k].len() > 0;
        let s = cands[k];
        assert(occurs_in(c, s));
        if !replace_all {
            let i = choose|i: int| occurs_at(c, s, i);
            assert(occurs_at(c, s, i));
        }
    }
}

// ---------------------------------------------------------------------------
// A verbatim match always commits
// ---------------------------------------------------------------------------

/// When the search string occurs verbatim and either replace-all is set or
/// the occurrence is unique, the engine commits on the search string itself.
pub proof fn lemma_direct_match(c: Seq<char>, f: Seq<char>, n: Seq<char>, replace_all: bool)
    requires
        f.len() > 0,
        occurs_in(c, f),
        replace_all || unique_occurrence(c, f),
    ensures
        replace_all ==> spec_replace(c, f, n, replace_all) == Option::Some(
            replace_all_with(c, f, n),
        ),
        !replace_all ==> forall|i: int|
            occurs_at(c, f, i) ==> spec_replace(c, f, n, replace_all) == Option::Some(
                splice_at(c, i, f.len() as int, n),
            ),
{
    let cands = chain_candidates(c, f);
    assert(simple_candidates(f) == seq![f]);
    assert(cands[0] == f) by {
        assert(cands[0] == (simple_candidates(f) + line_trimmed_candidates(c, f))[0]);
    }
    assert(cands.len() > 0);
    if replace_all {
        assert(commit_of(c, f, n, replace_all) == Option::Some(replace_all_with(c, f, n)));
    } else {
        let ci = choose|ci: int| occurs_at(c, f, ci);
        assert(occurs_at(c, f, ci));
        assert forall|i: int| occurs_at(c, f, i) implies spec_replace(c, f, n, replace_all)
            == Option::Some(splice_at(c, i, f.len() as int, n)) by {
            assert(i == ci);
        }
    }
}

// ---------------------------------------------------------------------------
// Replacing a string by itself changes nothing
// ---------------------------------------------------------------------------

proof fn lemma_replace_all_self(c: Seq<char>, f: Seq<char>)
    requires
        f.len() > 0,
    ensures
        replace_all_with(c, f, f) == c,
    decreases c.len(),
{
    if c.len() >= f.len() {
        if c.take(f.len() as int) == f {
            lemma_replace_all_self(c.skip(f.len() as int), f);
            assert(f + c.skip(f.len() as int) =~= c.take(f.len() as int) + c.skip(
                f.len() as int,
            ));
            assert(c.take(f.len() as int) + c.skip(f.len() as int) =~= c);
        } else {
            lemma_replace_all_self(c.drop_first(), f);
            assert(seq![c[0]] + c.drop_first() =~= c);
        }
    }
}

/// With the replacement equal to the search string, a commit returns the
/// content unchanged: the engine answers with the original text or nothing.
pub proof fn lemma_replace_self_identity(c: Seq<char>, f: Seq<char>, replace_all: bool)
    requires
        f.len() > 0,
        occurs_in(c, f),
        replace_all || unique_occurrence(c, f),
    ensures
        spec_replace(c, f, f, replace_all) == Option::Some(c),
{
    lemma_direct_match(c, f, f, replace_all);
    if replace_all {
        lemma_replace_all_self(c, f);
    } else {
        let i = choose|i: int| occurs_at(c, f, i);
        assert(occurs_at(c, f, i));
        assert(splice_at(c, i, f.len() as int, f) =~= c) by {
            assert(c.subrange(i, i + f.len()) == f);
            assert(c.take(i) + c.subrange(i, i + f.len()) + c.skip(i + f.len()) =~= c);
        }
    }
}

// ---------------------------------------------------------------------------
// The distance function's symmetry and self-distance
// ---------------------------------------------------------------------------

/// The guarded distance is symmetric in its arguments.
pub proof fn lemma_distance_symmetric(a: Seq<char>, b: Seq<char>)
    ensures
        spec_distance(a, b) == spec_distance(b, a),
{
    lemma_lev_symmetric(a, b);
}

/// Under the size cap, the distance from a sequence to itself is zero.
pub proof fn lemma_distance_self_zero(a: Seq<char>)
    requires
        a.len() <= MAX_LEVENSHTEIN_INPUT,
    ensures
        spec_distance(a, a) == 0,
{
    lemma_lev_self(a);
}

/// Over the size cap, the distance is the pessimistic bound `max(m, n)`,
/// with no table computed.
pub proof fn lemma_distance_capped(a: Seq<char>, b: Seq<char>)
    requires
        a.len() > MAX_LEVENSHTEIN_INPUT || b.len() > MAX_LEVENSHTEIN_INPUT,
    ensures
        spec_distance(a, b) == if a.len() >= b.len() {
            a.len() as int
        } else {
            b.len() as int
        },
{
}

// ---------------------------------------------------------------------------
// The text model: splitting and joining are inverse
// ---------------------------------------------------------------------------

/// Splitting at a separator and joining the pieces back with it rebuilds the
/// original text, so line splitting loses nothing.
pub proof fn lemma_join_split(s: Seq<char>, sep: char)
    ensures
        join_with(split_by(s, sep), seq![sep]) == s,
    decreases s.len(),
{
    let i = first_sep(s, sep) as int;
    lemma_first_sep_le(s, sep);
    if i >= s.len() {
        assert(join_with(split_by(s, sep), seq![sep]) == s);
    } else {
        assert(s[i] == sep) by {
            lemma_first_sep_at(s, sep);
        }
        let rest = s.skip(i + 1);
        lemma_join_split(rest, sep);
        assert(split_by(s, sep).drop_first() =~= split_by(rest, sep));
        assert(s.take(i) + seq![sep] + rest =~= s);
    }
}

// ---------------------------------------------------------------------------
// A trailing empty line in the search string changes nothing
// ---------------------------------------------------------------------------

proof fn lemma_first_sep_prefix_none(s: Seq<char>, sep: char)
    ensures
        forall|j: int| 0 <= j < first_sep(s, sep) && j < s.len() ==> s[j] != sep,
    decreases s.len(),
{
    if s.len() > 0 && s[0] != sep {
        lemma_first_sep_prefix_none(s.drop_first(), sep);
        assert(forall|j: int|
            1 <= j < first_sep(s, sep) && j < s.len() ==> s[j] == s.drop_first()[j - 1]);
    }
}

proof fn lemma_lines_push_nl(f: Seq<char>)
    ensures
        lines_of(f.push('\n')) == lines_of(f).push(Seq::<char>::empty()),
    decreases f.len(),
{
    let g = f.push('\n');
    lemma_first_sep_le(f, '\n');
    let i = first_sep(f, '\n') as int;
    if i >= f.len() {
        lemma_first_sep_prefix_none(f, '\n');
        assert(forall|j: int| 0 <= j < f.len() ==> g[j] == f[j]);
        lemma_first_sep_is(g, '\n', f.len() as int);
        assert(g.take(f.len() as int) =~= f);
        assert(g.skip(f.len() as int + 1) =~= Seq::<char>::empty());
        assert(first_sep(Seq::<char>::empty(), '\n') == 0);
        assert(lines_of(Seq::<char>::empty()) =~= seq![Seq::<char>::empty()]);
        assert(lines_of(g) =~= seq![g.take(f.len() as int)] + lines_of(
            g.skip(f.len() as int + 1),
        ));
        assert(lines_of(g) =~= seq![f, Seq::<char>::empty()]);
        assert(lines_of(f).push(Seq::<char>::empty()) =~= seq![f, Seq::<char>::empty()]);
    } else {
        lemma_first_sep_at(f, '\n');
        assert(forall|j: int| 0 <= j < i ==> g[j] == f[j]);
        assert(g[i] == f[i]);
        lemma_first_sep_is(g, '\n', i);
        assert(g.take(i) =~= f.take(i));
        assert(g.skip(i + 1) =~= f.skip(i + 1).push('\n'));
        lemma_lines_push_nl(f.skip(i + 1));
        assert(lines_of(g) =~= seq![f.take(i)] + lines_of(f.skip(i + 1)).push(
            Seq::<char>::empty(),
        ));
        assert((seq![f.take(i)] + lines_of(f.skip(i + 1))).push(Seq::<char>::empty())
            =~= seq![f.take(i)] + lines_of(f.skip(i + 1)).push(Seq::<char>::empty()));
    }
}

proof fn lemma_last_line_nonempty(f: Seq<char>)
    requires
        f.len() > 0,
        f.last() != '\n',
    ensures
        lines_of(f).last().len() > 0,
    decreases f.len(),
{
    lemma_first_sep_le(f, '\n');
    let i = first_sep(f, '\n') as int;
    if i >= f.len() {
        assert(lines_of(f).last() == f);
    } else {
        lemma_first_sep_at(f, '\n');
        assert(i < f.len() - 1) by {
            if i == f.len() - 1 {
                assert(f[i] == '\n');
            }
        }
        let rest = f.skip(i + 1);
        assert(rest.len() > 0);
        assert(rest.last() == f.last());
        lemma_last_line_nonempty(rest);
        assert(lines_of(f).last() == lines_of(rest).last());
    }
}

/// A search string with a trailing line break is treated exactly like the
/// same search string without it by the line-trimmed, block-anchor and
/// context-aware layers.
pub proof fn lemma_trailing_newline_irrelevant(c: Seq<char>, f: Seq<char>)
    requires
        f.len() > 0,
        f.last() != '\n',
    ensures
        line_trimmed_candidates(c, f.push('\n')) == line_trimmed_candidates(c, f),
        block_anchor_candidates(c, f.push('\n')) == block_anchor_candidates(c, f),
        context_aware_candidates(c, f.push('\n')) == context_aware_candidates(c, f),
{
    lemma_lines_push_nl(f);
    lemma_last_line_nonempty(f);
    let g = f.push('\n');
    assert(lines_of(g).last().len() == 0);
    assert(lines_of(g).drop_last() =~= lines_of(f));
    assert(search_lines_of(g) == lines_of(f));
    assert(search_lines_of(f) == lines_of(f));
}

// ---------------------------------------------------------------------------
// Anchored layers need at least three search lines
// ---------------------------------------------------------------------------

/// With fewer than three search lines after the trailing-line drop, the
/// block-anchor and context-aware layers emit nothing.
pub proof fn lemma_short_search_no_anchors(c: Seq<char>, f: Seq<char>)
    requires
        search_lines_of(f).len() < 3,
    ensures
        block_anchor_candidates(c, f).len() == 0,
        context_aware_candidates(c, f).len() == 0,
{
}

// ---------------------------------------------------------------------------
// A boundary-trimmed search string skips the trimmed-boundary layer
// ---------------------------------------------------------------------------

/// When the search string is already boundary-trimmed, the trimmed-boundary
/// layer emits nothing.
pub proof fn lemma_trimmed_search_skipped(c: Seq<char>, f: Seq<char>)
    requires
        trim_of(f) == f,
    ensures
        trimmed_boundary_candidates(c, f).len() == 0,
{
}

} // verus!
