use vstd::prelude::*;

use crate::model::str_is;
use crate::text::{chars_of, ends_with, string_of};

verus! {

/// A file or directory on disk that the layout does not claim.
#[derive(Debug)]
pub struct UnmanagedEntry {
    /// Path shown to users; directories end with `/`.
    pub display_path: String,
    /// Path relative to the working directory, one name per segment.
    pub relative_path: Vec<String>,
    /// Whether the entry is a directory.
    pub is_directory: bool,
}

/// Files that generation manages, and build and tool files: never offered for loading.
pub open spec fn skipped_file(name: Seq<char>) -> bool {
    name == "mod.rs"@ || name == "__init__.py"@ || name == "index.ts"@ || name == "index.js"@ || name == "moli.yml"@ || name == "Cargo.toml"@ || name == "Cargo.lock"@ || name == "package.json"@ || name == "package-lock.json"@ || name == "yarn.lock"@ || name == "pnpm-lock.yaml"@ || name == "go.mod"@ || name == "go.sum"@ || name == "pyproject.toml"@ || name == "setup.py"@ || name == "setup.cfg"@ || name == ".gitignore"@ || name == ".gitattributes"@
}

/// Directories that are never offered for loading.
pub open spec fn skipped_directory(name: Seq<char>) -> bool {
    name == ".git"@ || name == "node_modules"@ || name == "target"@ || name == "__pycache__"@ || name == ".venv"@ || name == "venv"@
}

/// Helpers that match files on disk against layout entries.
pub struct FilesystemScanner;

/// Whether `s` ends with `e`.
pub open spec fn has_suffix(s: Seq<char>, e: Seq<char>) -> bool {
    s.len() >= e.len() && s.subrange(s.len() - e.len(), s.len() as int) == e
}

/// The standard extension that the layout leaves out for a language, if any.
pub open spec fn standard_extension(lang: Seq<char>) -> Option<Seq<char>> {
    if lang == "rust"@ {
        Some(".rs"@)
    } else if lang == "go"@ {
        Some(".go"@)
    } else if lang == "python"@ {
        Some(".py"@)
    } else if lang == "typescript"@ {
        Some(".ts"@)
    } else if lang == "javascript"@ {
        Some(".js"@)
    } else {
        None
    }
}

/// The name a layout entry gets for a file on disk: without the language's standard
/// extension when it ends with it.
pub open spec fn entry_name(filename: Seq<char>, lang: Seq<char>) -> Seq<char> {
    match standard_extension(lang) {
        Some(e) => if has_suffix(filename, e) {
            filename.subrange(0, filename.len() - e.len())
        } else {
            filename
        },
        None => filename,
    }
}

/// The first of `.rs`, `.go`, `.py`, `.ts`, `.js` that a path ends with.
pub open spec fn any_standard_extension(path: Seq<char>) -> Option<Seq<char>> {
    if has_suffix(path, ".rs"@) {
        Some(".rs"@)
    } else if has_suffix(path, ".go"@) {
        Some(".go"@)
    } else if has_suffix(path, ".py"@) {
        Some(".py"@)
    } else if has_suffix(path, ".ts"@) {
        Some(".ts"@)
    } else if has_suffix(path, ".js"@) {
        Some(".js"@)
    } else {
        None
    }
}

fn drop_suffix(s: &Vec<char>, n: usize) -> (r: String)
    requires
        n <= s@.len(),
    ensures
        r@ == s@.subrange(0, s@.len() - n),
{
    let mut out: Vec<char> = Vec::new();
    let end = s.len() - n;
    let mut i: usize = 0;
    while i < end
        invariant
            end == s@.len() - n,
            i <= end,
            out@ == s@.subrange(0, i as int),
        decreases end - i,
    {
        out.push(s[i]);
        assert(out@ =~= s@.subrange(0, i + 1));
        i = i + 1;
    }
    string_of(out.as_slice())
}

impl FilesystemScanner {
    /// A path without whichever standard extension it ends with, if any.
    pub fn strip_standard_extension(path: &str) -> (r: Option<String>)
        ensures
            r is None <==> any_standard_extension(path@) is None,
            r is Some ==> r->0@ == path@.subrange(
                0,
                path@.len() - any_standard_extension(path@)->0.len(),
            ),
    {
        let p = chars_of(path);
        let exts = [".rs", ".go", ".py", ".ts", ".js"];
        let mut k: usize = 0;
        proof {
            reveal_strlit(".rs");
            reveal_strlit(".go");
            reveal_strlit(".py");
            reveal_strlit(".ts");
            reveal_strlit(".js");
        }
        while k < 5
            invariant
                k <= 5,
                exts@ == seq![".rs", ".go", ".py", ".ts", ".js"],
                forall|j: int| 0 <= j < k ==> !has_suffix(path@, exts@[j]@),
                p@ == path@,
            decreases 5 - k,
        {
            let e = chars_of(exts[k]);
            if ends_with(p.as_slice(), e.as_slice()) {
                assert(any_standard_extension(path@) == Some(e@));
                return Some(drop_suffix(&p, e.len()));
            }
            k = k + 1;
        }
        None
    }

    /// The layout name of a file on disk: the standard extension of the project's
    /// language dropped when the file name ends with it.
    pub fn filename_without_standard_extension(filename: &str, language: &str) -> (r: String)
        ensures
            r@ == entry_name(filename@, language@),
    {
        let ext = if crate::model::str_is(language, "rust") {
            ".rs"
        } else if crate::model::str_is(language, "go") {
            ".go"
        } else if crate::model::str_is(language, "python") {
            ".py"
        } else if crate::model::str_is(language, "typescript") {
            ".ts"
        } else if crate::model::str_is(language, "javascript") {
            ".js"
        } else {
            return String::from_str(filename);
        };
        let f = chars_of(filename);
        let e = chars_of(ext);
        if ends_with(f.as_slice(), e.as_slice()) {
            drop_suffix(&f, e.len())
        } else {
            String::from_str(filename)
        }
    }

    /// Whether a file or directory on disk, by its name, may be offered for loading.
    pub fn is_candidate(name: &str, is_directory: bool) -> (r: bool)
        ensures
            r == !((is_directory && skipped_directory(name@)) || skipped_file(name@)),
    {
        let dir_skipped = str_is(name, ".git") || str_is(name, "node_modules") || str_is(name, "target") || str_is(name, "__pycache__") || str_is(name, ".venv") || str_is(name, "venv");
        let file_skipped = str_is(name, "mod.rs") || str_is(name, "__init__.py") || str_is(name, "index.ts") || str_is(name, "index.js") || str_is(name, "moli.yml") || str_is(name, "Cargo.toml") || str_is(name, "Cargo.lock") || str_is(name, "package.json") || str_is(name, "package-lock.json") || str_is(name, "yarn.lock") || str_is(name, "pnpm-lock.yaml") || str_is(name, "go.mod") || str_is(name, "go.sum") || str_is(name, "pyproject.toml") || str_is(name, "setup.py") || str_is(name, "setup.cfg") || str_is(name, ".gitignore") || str_is(name, ".gitattributes");
        !((is_directory && dir_skipped) || file_skipped)
    }
}

} // verus!
