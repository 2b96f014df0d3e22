//! Per-file scan context: the enrichment values derived for one file before
//! its evaluation, and the named-variable injection protocol that hands them
//! to an evaluator. Absent values are injected as empty strings, never left
//! unset, and a matching reset restores every variable to empty before the
//! evaluator is reused, so no value leaks from one file to the next.

use vstd::prelude::*;
use crate::magic::{file_type_spec, find_file_type};
use crate::text::{empty_string, substring_to_string, to_chars};
use crate::userid::OwnershipTable;

verus! {

/// The part of `p` after the last occurrence of `c` (all of `p` when `c`
/// does not occur).
pub open spec fn after_last(p: Seq<char>, c: char) -> Seq<char>
    decreases p.len(),
{
    if p.len() == 0 {
        Seq::empty()
    } else if p.last() == c {
        Seq::empty()
    } else {
        after_last(p.drop_last(), c).push(p.last())
    }
}

pub proof fn lemma_after_last_at(p: Seq<char>, c: char, j: int)
    requires
        0 <= j < p.len(),
        p[j] == c,
        forall|k: int| j < k < p.len() ==> p[k] != c,
    ensures
        after_last(p, c) == p.skip(j + 1),
    decreases p.len() - j,
{
    if j == p.len() - 1 {
        assert(p.skip(j + 1) =~= Seq::<char>::empty());
    } else {
        assert(p.last() != c);
        assert(p.drop_last()[j] == c);
        lemma_after_last_at(p.drop_last(), c, j);
        assert(p.drop_last().skip(j + 1).push(p.last()) =~= p.skip(j + 1));
    }
}

pub proof fn lemma_after_last_none(p: Seq<char>, c: char)
    requires
        forall|k: int| 0 <= k < p.len() ==> p[k] != c,
    ensures
        after_last(p, c) == p,
    decreases p.len(),
{
    if p.len() > 0 {
        lemma_after_last_none(p.drop_last(), c);
        assert(p.drop_last().push(p.last()) =~= p);
    }
}

/// The file name of a path: everything after the last path separator.
#[verifier::loop_isolation(false)]
pub fn file_name_of(path: &str) -> (r: String)
    ensures
        r@ == after_last(path@, '/'),
{
    let chars = to_chars(path);
    let n = chars.len();
    let mut j: usize = n;
    while j > 0
        invariant
            j <= n,
            n == path@.len(),
            forall|k: int| j <= k < n ==> path@[k] != '/',
        decreases j,
    {
        if chars[j - 1] == '/' {
            proof {
                lemma_after_last_at(path@, '/', j as int - 1);
                assert(path@.skip(j as int) =~= path@.subrange(j as int, n as int));
            }
            return substring_to_string(path, j, n);
        }
        j = j - 1;
    }
    proof {
        lemma_after_last_none(path@, '/');
    }
    path.to_owned()
}

/// The extension of a file name: everything after the last dot, provided
/// that dot stands after the first character; a name with no dot, or only a
/// leading dot, has the empty extension.
pub open spec fn extension_spec(name: Seq<char>) -> Seq<char> {
    if exists|j: int| 1 <= j < name.len() && name[j] == '.' {
        after_last(name, '.')
    } else {
        Seq::empty()
    }
}

#[verifier::loop_isolation(false)]
pub fn extension_of(name: &str) -> (r: String)
    ensures
        r@ == extension_spec(name@),
{
    let chars = to_chars(name);
    let n = chars.len();
    let mut j: usize = n;
    while j > 0
        invariant
            j <= n,
            n == name@.len(),
            forall|k: int| j <= k < n ==> name@[k] != '.',
        decreases j,
    {
        if chars[j - 1] == '.' {
            if j - 1 >= 1 {
                proof {
                    assert(1 <= j as int - 1 < name@.len() && name@[j as int - 1] == '.');
                    lemma_after_last_at(name@, '.', j as int - 1);
                    assert(name@.skip(j as int) =~= name@.subrange(j as int, n as int));
                }
                return substring_to_string(name, j, n);
            } else {
                proof {
                    assert(forall|k: int| 1 <= k < name@.len() ==> name@[k] != '.');
                }
                return empty_string();
            }
        }
        j = j - 1;
    }
    proof {
        assert(forall|k: int| 1 <= k < name@.len() ==> name@[k] != '.');
    }
    empty_string()
}

/// The enrichment values derived for one file, alive only for that file's
/// evaluation. Absent owner or file-type stay `None` here; injection turns
/// them into empty strings.
pub struct FileContext {
    pub filepath: String,
    pub filename: String,
    pub extension: String,
    pub owner: Option<String>,
    pub filetype: Option<String>,
}

/// The size guard: a file is evaluated only when its size does not exceed
/// the configured maximum. A skipped file is abandoned before any context is
/// built, is never evaluated, and never reaches the counters or the report.
pub fn should_scan(file_size: u64, max_size: u64) -> (r: bool)
    ensures
        r == (file_size <= max_size),
{
    file_size <= max_size
}

/// Derives the context of one file: its path, name and extension, the owner
/// name looked up by owner id (absent when the table has no record), and the
/// file-type label resolved from the file's leading bytes (absent when no
/// pattern is a prefix).
pub fn build_file_context(
    path: &str,
    owner_uid: u32,
    users: &OwnershipTable,
    definitions: &Vec<(Vec<u8>, String)>,
    leading_bytes: &Vec<u8>,
) -> (r: FileContext)
    ensures
        r.filepath@ == path@,
        r.filename@ == after_last(path@, '/'),
        r.extension@ == extension_spec(after_last(path@, '/')),
        match r.owner {
            Some(n) => users@.contains_key(owner_uid) && n@ == users@[owner_uid],
            None => !users@.contains_key(owner_uid),
        },
        match r.filetype {
            Some(l) => file_type_spec(definitions@, leading_bytes@) == Some(l@),
            None => file_type_spec(definitions@, leading_bytes@) is None,
        },
{
    let filename = file_name_of(path);
    let extension = extension_of(filename.as_str());
    let owner = match users.lookup(owner_uid) {
        Some(n) => Some(n.clone()),
        None => None,
    };
    let filetype = find_file_type(definitions, leading_bytes);
    FileContext { filepath: path.to_owned(), filename, extension, owner, filetype }
}

/// The five variables injected before each evaluation, in a fixed order,
/// with every absent value present as the empty string.
pub fn injection_assignments(ctx: &FileContext) -> (r: Vec<(String, String)>)
    ensures
        r@.len() == 5,
        r@[0].0@ == "owner"@ && r@[0].1@ == match ctx.owner {
            Some(n) => n@,
            None => Seq::<char>::empty(),
        },
        r@[1].0@ == "filepath"@ && r@[1].1@ == ctx.filepath@,
        r@[2].0@ == "filename"@ && r@[2].1@ == ctx.filename@,
        r@[3].0@ == "extension"@ && r@[3].1@ == ctx.extension@,
        r@[4].0@ == "filetype"@ && r@[4].1@ == match ctx.filetype {
            Some(l) => l@,
            None => Seq::<char>::empty(),
        },
{
    let owner_val = match &ctx.owner {
        Some(n) => n.clone(),
        None => empty_string(),
    };
    let filetype_val = match &ctx.filetype {
        Some(l) => l.clone(),
        None => empty_string(),
    };
    let mut r: Vec<(String, String)> = Vec::new();
    r.push(("owner".to_owned(), owner_val));
    r.push(("filepath".to_owned(), ctx.filepath.clone()));
    r.push(("filename".to_owned(), ctx.filename.clone()));
    r.push(("extension".to_owned(), ctx.extension.clone()));
    r.push(("filetype".to_owned(), filetype_val));
    r
}

/// The reset applied after each evaluation: the same five variables, every
/// one set back to the empty string, so that nothing bleeds into the next
/// file evaluated on the same worker.
pub fn reset_assignments() -> (r: Vec<(String, String)>)
    ensures
        r@.len() == 5,
        r@[0].0@ == "owner"@,
        r@[1].0@ == "filepath"@,
        r@[2].0@ == "filename"@,
        r@[3].0@ == "extension"@,
        r@[4].0@ == "filetype"@,
        forall|k: int| 0 <= k < 5 ==> (#[trigger] r@[k]).1@ == Seq::<char>::empty(),
{
    let mut r: Vec<(String, String)> = Vec::new();
    r.push(("owner".to_owned(), empty_string()));
    r.push(("filepath".to_owned(), empty_string()));
    r.push(("filename".to_owned(), empty_string()));
    r.push(("extension".to_owned(), empty_string()));
    r.push(("filetype".to_owned(), empty_string()));
    r
}

} // verus!
