use vstd::prelude::*;

use crate::text::{chars_of, contains_char, ends_with, same_chars, string_of};

verus! {

/// The language tags that the layout document may name.
#[derive(PartialEq, Eq, Structural, Clone, Copy, Debug)]
pub enum Language {
    Rust,
    Go,
    Python,
    JavaScript,
    TypeScript,
    Markdown,
    Any,
    Other,
}

/// The language that a tag names.
pub open spec fn language_of(tag: Seq<char>) -> Language {
    if tag == "rust"@ {
        Language::Rust
    } else if tag == "go"@ {
        Language::Go
    } else if tag == "python"@ {
        Language::Python
    } else if tag == "javascript"@ {
        Language::JavaScript
    } else if tag == "typescript"@ {
        Language::TypeScript
    } else if tag == "markdown"@ {
        Language::Markdown
    } else if tag == "any"@ {
        Language::Any
    } else {
        Language::Other
    }
}

/// The extension given to a bare file name.
pub open spec fn extension_of(lang: Language) -> Seq<char> {
    match lang {
        Language::Rust => "rs"@,
        Language::Go => "go"@,
        Language::Python => "py"@,
        Language::JavaScript => "js"@,
        Language::TypeScript => "ts"@,
        Language::Markdown => "md"@,
        _ => "txt"@,
    }
}

/// Whether two string slices hold the same characters.
pub fn str_is(a: &str, b: &str) -> (r: bool)
    ensures
        r == (a@ == b@),
{
    let x = chars_of(a);
    let y = chars_of(b);
    same_chars(x.as_slice(), y.as_slice())
}

impl Language {
    /// The language that a tag names.
    pub fn from_tag(tag: &str) -> (r: Language)
        ensures
            r == language_of(tag@),
    {
        if str_is(tag, "rust") {
            Language::Rust
        } else if str_is(tag, "go") {
            Language::Go
        } else if str_is(tag, "python") {
            Language::Python
        } else if str_is(tag, "javascript") {
            Language::JavaScript
        } else if str_is(tag, "typescript") {
            Language::TypeScript
        } else if str_is(tag, "markdown") {
            Language::Markdown
        } else if str_is(tag, "any") {
            Language::Any
        } else {
            Language::Other
        }
    }

    /// The extension given to a bare file name.
    pub fn extension(&self) -> (r: &'static str)
        ensures
            r@ == extension_of(*self),
    {
        match self {
            Language::Rust => "rs",
            Language::Go => "go",
            Language::Python => "py",
            Language::JavaScript => "js",
            Language::TypeScript => "ts",
            Language::Markdown => "md",
            _ => "txt",
        }
    }
}

/// A file declared in the layout.
#[derive(Clone, Debug)]
pub struct CodeFile {
    pub name: String,
    pub visibility: Option<String>,
}

/// A directory node of the layout, or a clone target when `from` is set.
#[derive(Debug)]
pub struct Module {
    pub name: Option<String>,
    pub from: Option<String>,
    pub visibility: Option<String>,
    pub tree: Vec<Module>,
    pub file: Vec<CodeFile>,
}

/// One project of the layout.
#[derive(Debug)]
pub struct Project {
    pub name: String,
    pub root: bool,
    pub lang: String,
    pub file: Vec<CodeFile>,
    pub tree: Vec<Module>,
}

/// The whole layout document.
#[derive(Debug)]
pub struct MoliConfig {
    pub projects: Vec<Project>,
}

/// Index of the last `c` in `s` before `k`, or -1.
pub open spec fn last_index_before(s: Seq<char>, c: char, k: int) -> int
    decreases k,
{
    if k <= 0 {
        -1
    } else if s[k - 1] == c {
        k - 1
    } else {
        last_index_before(s, c, k - 1)
    }
}

/// A URL without a trailing `.git`.
pub open spec fn without_git_suffix(url: Seq<char>) -> Seq<char> {
    if url.len() >= 4 && url.subrange(url.len() - 4, url.len() as int) == ".git"@ {
        url.subrange(0, url.len() - 4)
    } else {
        url
    }
}

/// The repository name of a clone URL: its last `/`-separated segment, `.git` dropped.
pub open spec fn repo_name(url: Seq<char>) -> Seq<char> {
    let u = without_git_suffix(url);
    u.subrange(last_index_before(u, '/', u.len() as int) + 1, u.len() as int)
}

/// The name under which a module materializes.
pub open spec fn module_name(m: Module) -> Seq<char> {
    match m.name {
        Some(n) => n@,
        None => match m.from {
            Some(u) => repo_name(u@),
            None => "unknown"@,
        },
    }
}

/// The final file name of a declared file in a project of the given language.
pub open spec fn file_name_for(name: Seq<char>, lang: Language) -> Seq<char> {
    if name.contains('.') {
        name
    } else {
        name + "."@ + extension_of(lang)
    }
}

/// The repository name of a clone URL.
fn extract_repo_name(url: &str) -> (r: String)
    ensures
        r@ == repo_name(url@),
{
    let u = chars_of(url);
    let suffix = chars_of(".git");
    proof {
        reveal_strlit(".git");
    }
    assert(suffix@.len() == 4);
    let mut end = u.len();
    if ends_with(u.as_slice(), suffix.as_slice()) {
        end = u.len() - 4;
        assert(u@.subrange(0, end as int) =~= without_git_suffix(url@));
    } else {
        assert(u@ =~= without_git_suffix(url@));
    }
    let ghost w = without_git_suffix(url@);
    let mut k = end;
    while k > 0 && u[k - 1] != '/'
        invariant
            k <= end <= u@.len(),
            w == u@.subrange(0, end as int),
            last_index_before(w, '/', k as int) == last_index_before(w, '/', end as int),
        decreases k,
    {
        k = k - 1;
    }
    let mut out: Vec<char> = Vec::new();
    let mut i = k;
    while i < end
        invariant
            k <= i <= end <= u@.len(),
            out@ == u@.subrange(k as int, i as int),
        decreases end - i,
    {
        out.push(u[i]);
        assert(out@ =~= u@.subrange(k as int, i + 1));
        i = i + 1;
    }
    assert(out@ =~= repo_name(url@));
    string_of(out.as_slice())
}

impl MoliConfig {
    /// All projects, in document order.
    pub fn projects(&self) -> (r: &[Project])
        ensures
            r@ == self.projects@,
    {
        self.projects.as_slice()
    }

    /// The first project marked as root, if any.
    pub fn root_project(&self) -> (r: Option<&Project>)
        ensures
            r is None <==> (forall|i: int| 0 <= i < self.projects@.len() ==> !self.projects@[i].root),
            r is Some ==> exists|i: int|
                0 <= i < self.projects@.len() && self.projects@[i] == *r->0 && r->0.root && (forall|j: int|
                    0 <= j < i ==> !self.projects@[j].root),
    {
        let mut i: usize = 0;
        while i < self.projects.len()
            invariant
                i <= self.projects@.len(),
                forall|j: int| 0 <= j < i ==> !self.projects@[j].root,
            decreases self.projects.len() - i,
        {
            if self.projects[i].root {
                return Some(&self.projects[i]);
            }
            i = i + 1;
        }
        None
    }

    /// The projects not marked as root, in document order.
    pub fn sub_projects(&self) -> (r: Vec<&Project>)
        ensures
            r@.map_values(|p: &Project| *p) == self.projects@.filter(|p: Project| !p.root),
    {
        let mut r: Vec<&Project> = Vec::new();
        let mut i: usize = 0;
        while i < self.projects.len()
            invariant
                i <= self.projects@.len(),
                r@.map_values(|p: &Project| *p) == self.projects@.take(i as int).filter(
                    |p: Project| !p.root,
                ),
            decreases self.projects.len() - i,
        {
            assert(self.projects@.take(i + 1).drop_last() =~= self.projects@.take(i as int));
            reveal(Seq::filter);
            if !self.projects[i].root {
                r.push(&self.projects[i]);
                assert(r@.map_values(|p: &Project| *p) =~= self.projects@.take(i + 1).filter(
                    |p: Project| !p.root,
                ));
            }
            i = i + 1;
        }
        assert(self.projects@.take(self.projects@.len() as int) =~= self.projects@);
        r
    }

    /// Whether some project is marked as root.
    pub fn is_single_project(&self) -> (r: bool)
        ensures
            r == exists|i: int| 0 <= i < self.projects@.len() && self.projects@[i].root,
    {
        let p = self.root_project();
        if p.is_some() {
            true
        } else {
            assert(forall|i: int| 0 <= i < self.projects@.len() ==> !self.projects@[i].root);
            false
        }
    }
}

impl Project {
    /// The project name.
    pub fn name(&self) -> (r: &str)
        ensures
            r@ == self.name@,
    {
        self.name.as_str()
    }

    /// Whether the project materializes into the working directory.
    pub fn is_root(&self) -> (r: bool)
        ensures
            r == self.root,
    {
        self.root
    }

    /// The language tag.
    pub fn language(&self) -> (r: &str)
        ensures
            r@ == self.lang@,
    {
        self.lang.as_str()
    }

    /// The top-level modules.
    pub fn tree(&self) -> (r: &[Module])
        ensures
            r@ == self.tree@,
    {
        self.tree.as_slice()
    }

    /// The project-level files.
    pub fn files(&self) -> (r: &[CodeFile])
        ensures
            r@ == self.file@,
    {
        self.file.as_slice()
    }
}

impl Module {
    /// The module name: the explicit one, else the repository name of the clone URL.
    pub fn name(&self) -> (r: String)
        ensures
            r@ == module_name(*self),
    {
        match &self.name {
            Some(n) => n.clone(),
            None => match &self.from {
                Some(u) => extract_repo_name(u.as_str()),
                None => String::from_str("unknown"),
            },
        }
    }

    /// Whether the module is a clone target.
    pub fn is_git_clone(&self) -> (r: bool)
        ensures
            r == self.from is Some,
    {
        self.from.is_some()
    }

    /// The clone URL of a clone target.
    pub fn git_url(&self) -> (r: Option<&str>)
        ensures
            r is Some == self.from is Some,
            r is Some ==> r->0@ == self.from->0@,
    {
        match &self.from {
            Some(u) => Some(u.as_str()),
            None => None,
        }
    }

    /// The child modules.
    pub fn subtree(&self) -> (r: &[Module])
        ensures
            r@ == self.tree@,
    {
        self.tree.as_slice()
    }

    /// The files of this module.
    pub fn files(&self) -> (r: &[CodeFile])
        ensures
            r@ == self.file@,
    {
        self.file.as_slice()
    }

    /// Whether the module has child modules.
    pub fn has_subtree(&self) -> (r: bool)
        ensures
            r == (self.tree@.len() > 0),
    {
        self.tree.len() > 0
    }

    /// Whether the module has files.
    pub fn has_files(&self) -> (r: bool)
        ensures
            r == (self.file@.len() > 0),
    {
        self.file.len() > 0
    }

    /// The visibility hint.
    pub fn pub_setting(&self) -> (r: Option<&str>)
        ensures
            r is Some == self.visibility is Some,
            r is Some ==> r->0@ == self.visibility->0@,
    {
        match &self.visibility {
            Some(v) => Some(v.as_str()),
            None => None,
        }
    }
}

impl CodeFile {
    /// The declared name.
    pub fn name(&self) -> (r: &str)
        ensures
            r@ == self.name@,
    {
        self.name.as_str()
    }

    /// The final file name: the declared one when it holds a dot, else the declared
    /// name with the language's extension.
    pub fn filename_with_extension(&self, language: &str) -> (r: String)
        ensures
            r@ == file_name_for(self.name@, language_of(language@)),
    {
        let n = chars_of(self.name.as_str());
        if contains_char(n.as_slice(), '.') {
            self.name.clone()
        } else {
            let lang = Language::from_tag(language);
            let mut r = self.name.clone();
            r.append(".");
            r.append(lang.extension());
            r
        }
    }

    /// The visibility hint.
    pub fn pub_setting(&self) -> (r: Option<&str>)
        ensures
            r is Some == self.visibility is Some,
            r is Some ==> r->0@ == self.visibility->0@,
    {
        match &self.visibility {
            Some(v) => Some(v.as_str()),
            None => None,
        }
    }
}

} // verus!
