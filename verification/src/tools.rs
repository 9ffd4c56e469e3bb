//! The tool registry and the path rules every file tool obeys.
//!
//! Path validation here is lexical: a path is rejected when it holds a null
//! byte or when, after joining it to the workspace and resolving `.` and `..`
//! components textually, it leaves the workspace. Resolving symbolic links
//! needs the file system and is left to the caller.

pub mod bash;
pub mod edit;
pub mod glob;
pub mod grep;
pub mod read;
pub mod write;

use vstd::prelude::*;

use crate::replacers::join_all;
use crate::text::{
    chars_of, chars_eq, join_with, push_all, split_at_char, split_by, string_of, sub_vec,
    views_of,
};

verus! {

/// The string holds a null character.
pub open spec fn has_null(s: Seq<char>) -> bool {
    exists|i: int| 0 <= i < s.len() && s[i] == '\0'
}

/// The string is an absolute path.
pub open spec fn is_abs(s: Seq<char>) -> bool {
    s.len() > 0 && s[0] == '/'
}

/// The path to resolve: the file path itself when absolute, else the file
/// path under the workspace.
pub open spec fn raw_path(workspace: Seq<char>, file_path: Seq<char>) -> Seq<char> {
    if is_abs(file_path) {
        file_path
    } else {
        workspace + seq!['/'] + file_path
    }
}

/// Textual normalization of path components: empty and `.` components are
/// dropped, `..` removes the previous kept component.
pub open spec fn norm_from(comps: Seq<Seq<char>>, i: int, acc: Seq<Seq<char>>) -> Seq<Seq<char>>
    decreases comps.len() - i,
{
    if i < 0 || i >= comps.len() {
        acc
    } else {
        let cmp = comps[i];
        let acc2 = if cmp.len() == 0 || cmp == seq!['.'] {
            acc
        } else if cmp == seq!['.', '.'] {
            if acc.len() > 0 {
                acc.drop_last()
            } else {
                acc
            }
        } else {
            acc.push(cmp)
        };
        norm_from(comps, i + 1, acc2)
    }
}

/// The normalized components of a path string.
pub open spec fn norm_comps(s: Seq<char>) -> Seq<Seq<char>> {
    norm_from(split_by(s, '/'), 0, Seq::<Seq<char>>::empty())
}

/// The resolved path stays under the workspace.
pub open spec fn within_workspace(workspace: Seq<char>, file_path: Seq<char>) -> bool {
    norm_comps(workspace).is_prefix_of(norm_comps(raw_path(workspace, file_path)))
}

/// The normalized path rendered back as a string.
pub open spec fn resolved_path(workspace: Seq<char>, file_path: Seq<char>) -> Seq<char> {
    let raw = raw_path(workspace, file_path);
    let comps = norm_comps(raw);
    if is_abs(raw) {
        seq!['/'] + join_with(comps, seq!['/'])
    } else {
        join_with(comps, seq!['/'])
    }
}

/// Why a path was rejected.
#[derive(Clone, Copy, Debug, PartialEq, Eq, Structural)]
pub enum PathError {
    /// The path holds a null character.
    ContainsNull,
    /// The path resolves outside the workspace.
    EscapesWorkspace,
}

/// Normalize the components of `v` textually.
#[verifier::loop_isolation(false)]
fn normalize_comps(v: &Vec<char>) -> (r: Vec<Vec<char>>)
    ensures
        views_of(r@) == norm_comps(v@),
{
    let comps = split_at_char(v, '/');
    let n = comps.len();
    let mut acc: Vec<Vec<char>> = Vec::new();
    let mut i: usize = 0;
    proof {
        assert(views_of(acc@) =~= Seq::<Seq<char>>::empty());
    }
    while i < n
        invariant
            i <= n,
            n == views_of(comps@).len(),
            norm_comps(v@) == norm_from(views_of(comps@), i as int, views_of(acc@)),
        decreases n - i,
    {
        let ghost acc0 = views_of(acc@);
        let c = &comps[i];
        proof {
            assert(views_of(comps@)[i as int] == comps@[i as int]@);
        }
        let is_dot = c.len() == 1 && c[0] == '.';
        let is_dotdot = c.len() == 2 && c[0] == '.' && c[1] == '.';
        proof {
            if is_dot {
                assert(c@ =~= seq!['.']);
            } else {
                assert(c@ != seq!['.']);
            }
            if is_dotdot {
                assert(c@ =~= seq!['.', '.']);
            } else {
                assert(c@ != seq!['.', '.']);
            }
        }
        if c.len() == 0 || is_dot {
        } else if is_dotdot {
            if acc.len() > 0 {
                acc.pop();
                proof {
                    assert(views_of(acc@) =~= acc0.drop_last());
                }
            }
        } else {
            let copy = sub_vec(c, 0, c.len());
            proof {
                assert(copy@ =~= c@);
            }
            acc.push(copy);
            proof {
                assert(views_of(acc@) =~= acc0.push(comps@[i as int]@));
            }
        }
        i = i + 1;
    }
    acc
}

/// Whether every component of `a` starts `b`.
#[verifier::loop_isolation(false)]
fn comps_prefix(a: &Vec<Vec<char>>, b: &Vec<Vec<char>>) -> (r: bool)
    ensures
        r == views_of(a@).is_prefix_of(views_of(b@)),
{
    if a.len() > b.len() {
        return false;
    }
    let mut k: usize = 0;
    while k < a.len()
        invariant
            k <= a@.len(),
            a@.len() <= b@.len(),
            forall|t: int| 0 <= t < k ==> views_of(a@)[t] == views_of(b@)[t],
        decreases a@.len() - k,
    {
        if !chars_eq(&a[k], &b[k]) {
            proof {
                assert(views_of(a@)[k as int] != views_of(b@)[k as int]);
                assert(!views_of(a@).is_prefix_of(views_of(b@)));
            }
            return false;
        }
        proof {
            assert(views_of(a@)[k as int] == views_of(b@)[k as int]);
        }
        k = k + 1;
    }
    proof {
        assert(views_of(a@) =~= views_of(b@).subrange(0, a@.len() as int));
    }
    true
}

/// Resolve and validate a file path, ensuring it stays within the workspace.
///
/// Rejects null characters and paths whose textual resolution leaves the
/// workspace; returns the resolved path otherwise.
#[verifier::loop_isolation(false)]
pub fn validate_path(workspace: &str, file_path: &str) -> (r: Result<String, PathError>)
    ensures
        match r {
            Ok(p) => !has_null(file_path@) && within_workspace(workspace@, file_path@) && p@
                == resolved_path(workspace@, file_path@),
            Err(e) => (e == PathError::ContainsNull && has_null(file_path@)) || (
            e == PathError::EscapesWorkspace && !has_null(file_path@) && !within_workspace(
                workspace@,
                file_path@,
            )),
        },
{
    let w = chars_of(workspace);
    let f = chars_of(file_path);
    let mut i: usize = 0;
    while i < f.len()
        invariant
            i <= f@.len(),
            forall|j: int| 0 <= j < i ==> f@[j] != '\0',
        decreases f@.len() - i,
    {
        if f[i] == '\0' {
            proof {
                assert(has_null(file_path@));
            }
            return Err(PathError::ContainsNull);
        }
        i = i + 1;
    }
    proof {
        assert(!has_null(file_path@));
    }
    let abs = f.len() > 0 && f[0] == '/';
    let mut raw: Vec<char> = Vec::new();
    if abs {
        push_all(&mut raw, &f);
        proof {
            assert(raw@ =~= raw_path(workspace@, file_path@));
        }
    } else {
        push_all(&mut raw, &w);
        raw.push('/');
        push_all(&mut raw, &f);
        proof {
            assert(raw@ =~= raw_path(workspace@, file_path@));
        }
    }
    let wn = normalize_comps(&w);
    let rn = normalize_comps(&raw);
    if !comps_prefix(&wn, &rn) {
        return Err(PathError::EscapesWorkspace);
    }
    let joined = join_all(&rn, '/');
    let mut out: Vec<char> = Vec::new();
    let raw_abs = raw.len() > 0 && raw[0] == '/';
    if raw_abs {
        out.push('/');
    }
    push_all(&mut out, &joined);
    proof {
        assert(out@ =~= resolved_path(workspace@, file_path@));
    }
    Ok(string_of(&out))
}

/// Resolve a directory path for search operations; the rules are those of
/// `validate_path`.
pub fn validate_dir_path(workspace: &str, dir_path: &str) -> (r: Result<String, PathError>)
    ensures
        match r {
            Ok(p) => !has_null(dir_path@) && within_workspace(workspace@, dir_path@) && p@
                == resolved_path(workspace@, dir_path@),
            Err(e) => (e == PathError::ContainsNull && has_null(dir_path@)) || (
            e == PathError::EscapesWorkspace && !has_null(dir_path@) && !within_workspace(
                workspace@,
                dir_path@,
            )),
        },
{
    validate_path(workspace, dir_path)
}

/// Tool router that dispatches tool calls to implementations.
pub struct ToolRouter {
    /// Working directory for file operations.
    pub workspace: String,
    /// Whether command execution uses the sandbox.
    pub sandboxed: bool,
}

impl ToolRouter {
    /// Create a new tool router.
    pub fn new(workspace: String, sandboxed: bool) -> (r: ToolRouter)
        ensures
            r.workspace@ == workspace@,
            r.sandboxed == sandboxed,
    {
        ToolRouter { workspace, sandboxed }
    }
}

} // verus!
