//! Which files are loaded as assets: the files named one by one, or the files of
//! a directory whose extension is one of the extensions asked for; each is keyed
//! by its file stem.

use vstd::prelude::*;

use crate::text::str_eq;

verus! {

/// Whether a file whose extension is `extension` is one of the assets with the
/// given extensions.
pub fn has_asset_extension(extension: &str, extensions: &Vec<String>) -> (r: bool)
    ensures
        r == exists|i: int| 0 <= i < extensions@.len() && (#[trigger] extensions@[i])@ == extension@,
{
    let mut i: usize = 0;
    while i < extensions.len()
        invariant
            i <= extensions@.len(),
            forall|j: int| 0 <= j < i ==> (#[trigger] extensions@[j])@ != extension@,
        decreases extensions@.len() - i,
    {
        if str_eq(extensions[i].as_str(), extension) {
            return true;
        }
        i = i + 1;
    }
    false
}

/// The file stem of a path, as `std::path::Path::file_stem` gives it, read as text.
pub uninterp spec fn path_stem(path: Seq<char>) -> Option<Seq<char>>;

/// The extension of a path, as `std::path::Path::extension` gives it, read as text.
pub uninterp spec fn path_extension(path: Seq<char>) -> Option<Seq<char>>;

/// Text by its characters, if any.
pub open spec fn opt_text(s: Option<String>) -> Option<Seq<char>> {
    match s {
        Some(s) => Some(s@),
        None => None,
    }
}

/// Calls `std::path::Path::file_stem` on `path` and reads the stem as text
/// (lossily); the result is named `path_stem`.
#[verifier::external_body]
fn file_stem(path: &str) -> (r: Option<String>)
    ensures
        opt_text(r) == path_stem(path@),
{
    match std::path::Path::new(path).file_stem() {
        Some(stem) => Some(stem.to_string_lossy().to_string()),
        None => None,
    }
}

/// Calls `std::path::Path::extension` on `path` and reads the extension as text
/// (lossily); the result is named `path_extension`.
#[verifier::external_body]
fn file_extension(path: &str) -> (r: Option<String>)
    ensures
        opt_text(r) == path_extension(path@),
{
    match std::path::Path::new(path).extension() {
        Some(ext) => Some(ext.to_string_lossy().to_string()),
        None => None,
    }
}

/// The first `n` paths, each keyed by its file stem; a path without one is left out.
pub open spec fn stem_entries(paths: Seq<String>, n: int) -> Seq<(Seq<char>, Seq<char>)>
    decreases n,
{
    if n <= 0 {
        Seq::empty()
    } else {
        let before = stem_entries(paths, n - 1);
        match path_stem(paths[n - 1]@) {
            Some(stem) => before.push((stem, paths[n - 1]@)),
            None => before,
        }
    }
}

/// The entries, by their characters.
pub open spec fn entries_view(entries: Seq<(String, String)>) -> Seq<(Seq<char>, Seq<char>)> {
    entries.map_values(|e: (String, String)| (e.0@, e.1@))
}

/// The files named one by one, each keyed by its file stem; a path without a
/// file stem is left out.
pub fn keyed_by_stem(paths: &Vec<String>) -> (r: Vec<(String, String)>)
    ensures
        entries_view(r@) == stem_entries(paths@, paths@.len() as int),
{
    let mut r: Vec<(String, String)> = Vec::new();
    let mut i: usize = 0;
    while i < paths.len()
        invariant
            i <= paths@.len(),
            entries_view(r@) == stem_entries(paths@, i as int),
        decreases paths@.len() - i,
    {
        match file_stem(paths[i].as_str()) {
            Some(stem) => {
                r.push((stem, paths[i].clone()));
                proof {
                    assert(entries_view(r@) =~= stem_entries(paths@, i + 1));
                }
            },
            None => {},
        }
        i = i + 1;
    }
    r
}

/// Whether a directory entry, a path and whether it is a regular file, is an
/// asset: a regular file whose extension (none counting as empty) is one of
/// `extensions`.
pub open spec fn is_asset(entry: (String, bool), extensions: Seq<String>) -> bool {
    let ext = match path_extension(entry.0@) {
        Some(e) => e,
        None => Seq::empty(),
    };
    entry.1 && exists|i: int| 0 <= i < extensions.len() && extensions[i]@ == ext
}

/// The assets among the first `n` entries of a directory, each keyed by its
/// file stem; an asset without one is left out.
pub open spec fn directory_entries(entries: Seq<(String, bool)>, extensions: Seq<String>, n: int) -> Seq<(Seq<char>, Seq<char>)>
    decreases n,
{
    if n <= 0 {
        Seq::empty()
    } else {
        let before = directory_entries(entries, extensions, n - 1);
        let e = entries[n - 1];
        if is_asset(e, extensions) {
            match path_stem(e.0@) {
                Some(stem) => before.push((stem, e.0@)),
                None => before,
            }
        } else {
            before
        }
    }
}

/// The assets among the entries of a directory (see `is_asset`), in order, each
/// keyed by its file stem.
pub fn directory_assets(entries: &Vec<(String, bool)>, extensions: &Vec<String>) -> (r: Vec<(String, String)>)
    ensures
        entries_view(r@) == directory_entries(entries@, extensions@, entries@.len() as int),
{
    let mut r: Vec<(String, String)> = Vec::new();
    let mut i: usize = 0;
    while i < entries.len()
        invariant
            i <= entries@.len(),
            entries_view(r@) == directory_entries(entries@, extensions@, i as int),
        decreases entries@.len() - i,
    {
        let is_file = entries[i].1;
        if is_file {
            let ext = match file_extension(entries[i].0.as_str()) {
                Some(e) => e,
                None => String::new(),
            };
            if has_asset_extension(ext.as_str(), extensions) {
                match file_stem(entries[i].0.as_str()) {
                    Some(stem) => {
                        r.push((stem, entries[i].0.clone()));
                        proof {
                            assert(entries_view(r@) =~= directory_entries(entries@, extensions@, i + 1));
                        }
                    },
                    None => {},
                }
            }
        }
        i = i + 1;
    }
    r
}

/// The path that `std::path::PathBuf::push` makes of `base` followed by `path`
/// (`path` itself when it is absolute), read as text.
pub uninterp spec fn path_joined(base: Seq<char>, path: Seq<char>) -> Seq<char>;

/// Pushes `path` onto `base` with `std::path::PathBuf::push`, and reads the
/// result as text (lossily); the result is named `path_joined`.
#[verifier::external_body]
fn join_path(base: &str, path: &str) -> (r: String)
    ensures
        r@ == path_joined(base@, path@),
{
    let mut joined = std::path::PathBuf::from(base);
    joined.push(path);
    joined.to_string_lossy().to_string()
}

/// The first `n` files listed one by one, each joined to the base directory and
/// keyed by the file stem of the joined path; a path without one is left out.
pub open spec fn listed_entries(base: Seq<char>, files: Seq<String>, n: int) -> Seq<(Seq<char>, Seq<char>)>
    decreases n,
{
    if n <= 0 {
        Seq::empty()
    } else {
        let before = listed_entries(base, files, n - 1);
        let path = path_joined(base, files[n - 1]@);
        match path_stem(path) {
            Some(stem) => before.push((stem, path)),
            None => before,
        }
    }
}

/// The files listed one by one as assets, in order and whatever their extension:
/// each joined to the base directory and keyed by its file stem.
pub fn listed_assets(base: &str, files: &Vec<String>) -> (r: Vec<(String, String)>)
    ensures
        entries_view(r@) == listed_entries(base@, files@, files@.len() as int),
{
    let mut r: Vec<(String, String)> = Vec::new();
    let mut i: usize = 0;
    while i < files.len()
        invariant
            i <= files@.len(),
            entries_view(r@) == listed_entries(base@, files@, i as int),
        decreases files@.len() - i,
    {
        let path = join_path(base, files[i].as_str());
        match file_stem(path.as_str()) {
            Some(stem) => {
                r.push((stem, path));
                proof {
                    assert(entries_view(r@) =~= listed_entries(base@, files@, i + 1));
                }
            },
            None => {},
        }
        i = i + 1;
    }
    r
}

} // verus!
