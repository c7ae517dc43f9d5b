use vstd::prelude::*;

use crate::collector::{base_of, strings_view};
use crate::editor::{append_lines, first_from, scan, LineTest, Probe};
use crate::model::{file_name_for, language_of, module_name, str_is, CodeFile, Language, Module, Project};
use crate::scanner::{entry_name, has_suffix, FilesystemScanner};
use crate::text::{chars_of, concat, join_like, join_lines, lines_of, split_lines, string_of, text_like, view_lines};

verus! {

/// How a manifest writes a comment line.
#[derive(PartialEq, Eq, Structural, Clone, Copy, Debug)]
pub enum Comment {
    /// `// ...`
    Slash,
    /// `# ...`
    Hash,
}

/// What a manifest is for; it decides the skeleton of a new file.
#[derive(PartialEq, Eq, Structural, Clone, Copy, Debug)]
pub enum ManifestRole {
    /// The per-directory index (`mod.rs`, `__init__.py`, `index.ts`, `index.js`).
    ModuleIndex,
    /// The program entry (`src/main.rs`).
    EntryMain,
    /// The library entry (`src/lib.rs`).
    EntryLib,
}

/// The line that opens the generated block.
pub open spec fn start_marker(c: Comment) -> Seq<char> {
    match c {
        Comment::Slash => "// start auto exported by moli."@,
        Comment::Hash => "# start auto exported by moli."@,
    }
}

/// The line that closes the generated block.
pub open spec fn end_marker(c: Comment) -> Seq<char> {
    match c {
        Comment::Slash => "// end auto exported by moli."@,
        Comment::Hash => "# end auto exported by moli."@,
    }
}

/// The generated block: the two markers around the declarations.
pub open spec fn block_of(c: Comment, decls: Seq<Seq<char>>) -> Seq<Seq<char>> {
    seq![start_marker(c)] + decls + seq![end_marker(c)]
}

/// The block as text, ending with a newline.
pub open spec fn block_text(c: Comment, decls: Seq<Seq<char>>) -> Seq<char> {
    join_lines(block_of(c, decls)) + "\n"@
}

/// A manifest's content after regeneration: the lines between the first start
/// marker and the next end marker are replaced by the declarations and everything
/// else stays; without markers the block is put first, then a blank line.
pub open spec fn merged(content: Seq<char>, c: Comment, decls: Seq<Seq<char>>) -> Seq<char> {
    let ls = lines_of(content);
    let s = first_from(ls, 0, ls.len() as int, LineTest::At(0, start_marker(c)));
    let e = first_from(ls, s + 1, ls.len() as int, LineTest::At(0, end_marker(c)));
    if s < ls.len() && e < ls.len() {
        join_like(
            ls.subrange(0, s) + block_of(c, decls) + ls.subrange(e + 1, ls.len() as int),
            content,
        )
    } else {
        block_text(c, decls) + "\n"@ + content
    }
}

/// A new manifest's content.
pub open spec fn fresh(role: ManifestRole, c: Comment, decls: Seq<Seq<char>>) -> Seq<char> {
    match role {
        ManifestRole::ModuleIndex => block_text(c, decls) + "\n"@,
        ManifestRole::EntryMain => (if decls.len() == 0 {
            Seq::empty()
        } else {
            block_text(c, decls) + "\n"@
        }) + "fn main() {\n    println!(\"Hello, world!\");\n}\n"@,
        ManifestRole::EntryLib => if decls.len() == 0 {
            "// Library root\n"@
        } else {
            block_text(c, decls) + "\n"@
        },
    }
}

fn marker_line(c: Comment, start: bool) -> (r: Vec<char>)
    ensures
        r@ == (if start {
            start_marker(c)
        } else {
            end_marker(c)
        }),
{
    match (c, start) {
        (Comment::Slash, true) => chars_of("// start auto exported by moli."),
        (Comment::Slash, false) => chars_of("// end auto exported by moli."),
        (Comment::Hash, true) => chars_of("# start auto exported by moli."),
        (Comment::Hash, false) => chars_of("# end auto exported by moli."),
    }
}

fn decl_lines(decls: &Vec<String>) -> (r: Vec<Vec<char>>)
    ensures
        view_lines(r@) == crate::collector::strings_view(decls@),
{
    let mut r: Vec<Vec<char>> = Vec::new();
    let mut i: usize = 0;
    while i < decls.len()
        invariant
            i <= decls@.len(),
            view_lines(r@) == crate::collector::strings_view(decls@).take(i as int),
        decreases decls.len() - i,
    {
        let ghost before = view_lines(r@);
        r.push(chars_of(decls[i].as_str()));
        assert(view_lines(r@) =~= before.push(decls@[i as int]@));
        assert(view_lines(r@) =~= crate::collector::strings_view(decls@).take(i + 1));
        i = i + 1;
    }
    assert(crate::collector::strings_view(decls@).take(decls@.len() as int)
        =~= crate::collector::strings_view(decls@));
    r
}

fn block_vec(c: Comment, decls: &Vec<String>) -> (r: Vec<Vec<char>>)
    ensures
        view_lines(r@) == block_of(c, crate::collector::strings_view(decls@)),
{
    let mut r: Vec<Vec<char>> = Vec::new();
    r.push(marker_line(c, true));
    assert(view_lines(r@) =~= seq![start_marker(c)]);
    let d = decl_lines(decls);
    append_lines(&mut r, &d, 0, d.len());
    assert(view_lines(d@).subrange(0, d@.len() as int) =~= view_lines(d@));
    let ghost mid = view_lines(r@);
    assert(mid == seq![start_marker(c)] + crate::collector::strings_view(decls@));
    r.push(marker_line(c, false));
    assert(view_lines(r@) =~= mid.push(end_marker(c)));
    assert(view_lines(r@) =~= block_of(c, crate::collector::strings_view(decls@)));
    r
}

fn block_chars(c: Comment, decls: &Vec<String>) -> (r: Vec<char>)
    ensures
        r@ == block_text(c, crate::collector::strings_view(decls@)),
{
    let b = block_vec(c, decls);
    let mut j = crate::text::join_vec(&b);
    j.push('\n');
    proof {
        reveal_strlit("\n");
    }
    assert(j@ =~= block_text(c, crate::collector::strings_view(decls@)));
    j
}

/// A manifest's content after its generated block is brought up to date.
pub fn merge_block(content: &str, c: Comment, decls: &Vec<String>) -> (r: String)
    ensures
        r@ == merged(content@, c, crate::collector::strings_view(decls@)),
{
    let text = chars_of(content);
    let lines = split_lines(text.as_slice());
    let n = lines.len();
    let s = scan(&lines, 0, n, &Probe::At(0, 0, marker_line(c, true)));
    let e = if s < n {
        scan(&lines, s + 1, n, &Probe::At(0, 0, marker_line(c, false)))
    } else {
        n
    };
    let ghost ls = view_lines(lines@);
    assert(ls == lines_of(content@));
    assert(s == first_from(ls, 0, ls.len() as int, LineTest::At(0, start_marker(c))));
    assert(e == first_from(ls, s + 1, ls.len() as int, LineTest::At(0, end_marker(c))));
    if s < n && e < n {
        let mut out: Vec<Vec<char>> = Vec::new();
        append_lines(&mut out, &lines, 0, s);
        assert(view_lines(out@) =~= ls.subrange(0, s as int));
        let b = block_vec(c, decls);
        append_lines(&mut out, &b, 0, b.len());
        assert(view_lines(b@).subrange(0, b@.len() as int) =~= view_lines(b@));
        append_lines(&mut out, &lines, e + 1, n);
        assert(view_lines(out@) =~= ls.subrange(0, s as int) + block_of(
            c,
            crate::collector::strings_view(decls@),
        ) + ls.subrange(e + 1, ls.len() as int));
        text_like(&out, text.as_slice())
    } else {
        let mut b = block_chars(c, decls);
        b.push('\n');
        let r = concat(b.as_slice(), text.as_slice());
        proof {
            reveal_strlit("\n");
        }
        assert(r@ =~= merged(content@, c, crate::collector::strings_view(decls@)));
        string_of(r.as_slice())
    }
}

/// A new manifest's content.
pub fn fresh_manifest(role: ManifestRole, c: Comment, decls: &Vec<String>) -> (r: String)
    ensures
        r@ == fresh(role, c, crate::collector::strings_view(decls@)),
{
    match role {
        ManifestRole::ModuleIndex => {
            let mut b = block_chars(c, decls);
            b.push('\n');
            proof {
                reveal_strlit("\n");
            }
            assert(b@ =~= fresh(role, c, crate::collector::strings_view(decls@)));
            string_of(b.as_slice())
        },
        ManifestRole::EntryMain => {
            let body = chars_of("fn main() {\n    println!(\"Hello, world!\");\n}\n");
            if decls.len() == 0 {
                assert(Seq::<char>::empty() + body@ =~= body@);
                string_of(body.as_slice())
            } else {
                let mut b = block_chars(c, decls);
                b.push('\n');
                let r = concat(b.as_slice(), body.as_slice());
                proof {
                    reveal_strlit("\n");
                }
                assert(r@ =~= fresh(role, c, crate::collector::strings_view(decls@)));
                string_of(r.as_slice())
            }
        },
        ManifestRole::EntryLib => {
            if decls.len() == 0 {
                String::from_str("// Library root\n")
            } else {
                let mut b = block_chars(c, decls);
                b.push('\n');
                proof {
                    reveal_strlit("\n");
                }
                assert(b@ =~= fresh(role, c, crate::collector::strings_view(decls@)));
                string_of(b.as_slice())
            }
        },
    }
}

/// One thing that generation makes or keeps up to date, at a path relative to the
/// working directory.
#[derive(Debug)]
pub struct Step {
    pub path: String,
    pub kind: StepKind,
}

/// The kinds of generation steps, with the protection tier of each file kind.
#[derive(Debug)]
pub enum StepKind {
    /// A module directory; making it again is harmless.
    Directory,
    /// A clone target, filled by cloning this URL.
    Clone(String),
    /// A code file (first tier): written with this skeleton only when absent.
    CodeFile(String),
    /// A manifest (second tier): its generated block holds these declarations.
    Manifest(Vec<String>, Comment, ManifestRole),
    /// A project file (third tier): written with this skeleton only when absent.
    ProjectFile(String),
}

/// What is on disk at a step's path.
pub enum OnDisk {
    Absent,
    Directory,
    File(String),
}

/// What the caller must do for one step.
#[derive(Debug)]
pub enum Action {
    /// Leave the disk as it is.
    Nothing,
    /// Make the directory, with any missing parents.
    CreateDirectory,
    /// Write this content to the file.
    Write(String),
    /// Clone this URL into the path; a failure there is only a warning.
    Clone(String),
    /// The clone target already exists: skip it with a warning.
    SkipClone,
}

/// The action that a step calls for, given what is on disk.
pub open spec fn action_for(kind: StepKind, disk: OnDisk) -> Action {
    match kind {
        StepKind::Directory => match disk {
            OnDisk::Directory => Action::Nothing,
            _ => Action::CreateDirectory,
        },
        StepKind::Clone(url) => match disk {
            OnDisk::Absent => Action::Clone(url),
            _ => Action::SkipClone,
        },
        StepKind::CodeFile(content) => match disk {
            OnDisk::Absent => Action::Write(content),
            _ => Action::Nothing,
        },
        StepKind::ProjectFile(content) => match disk {
            OnDisk::Absent => Action::Write(content),
            _ => Action::Nothing,
        },
        StepKind::Manifest(_, _, _) => Action::Nothing,
    }
}

/// Decides what to do for one step.
///
/// An existing code file or project file is never written: its content stays
/// exactly what it was. A manifest is written with its block regenerated and every
/// line outside the markers kept; a new one gets its skeleton. An existing clone
/// target is skipped without cloning.
pub fn decide(step: &Step, disk: &OnDisk) -> (r: Action)
    ensures
        match step.kind {
            StepKind::Manifest(decls, c, role) => match *disk {
                OnDisk::Absent => r is Write && r->Write_0@ == fresh(
                    role,
                    c,
                    crate::collector::strings_view(decls@),
                ),
                OnDisk::File(content) => r is Write && r->Write_0@ == merged(
                    content@,
                    c,
                    crate::collector::strings_view(decls@),
                ),
                OnDisk::Directory => r is Nothing,
            },
            _ => r == action_for(step.kind, *disk),
        },
        (step.kind is CodeFile || step.kind is ProjectFile) && disk is File ==> r is Nothing,
        step.kind is Clone && !(disk is Absent) ==> r is SkipClone,
{
    match &step.kind {
        StepKind::Directory => match disk {
            OnDisk::Directory => Action::Nothing,
            _ => Action::CreateDirectory,
        },
        StepKind::Clone(url) => match disk {
            OnDisk::Absent => Action::Clone(url.clone()),
            _ => Action::SkipClone,
        },
        StepKind::CodeFile(content) => match disk {
            OnDisk::Absent => Action::Write(content.clone()),
            _ => Action::Nothing,
        },
        StepKind::ProjectFile(content) => match disk {
            OnDisk::Absent => Action::Write(content.clone()),
            _ => Action::Nothing,
        },
        StepKind::Manifest(decls, c, role) => match disk {
            OnDisk::Absent => Action::Write(fresh_manifest(*role, *c, decls)),
            OnDisk::File(content) => Action::Write(merge_block(content.as_str(), *c, decls)),
            OnDisk::Directory => Action::Nothing,
        },
    }
}

/// What a step says, as mathematical values.
pub enum KindView {
    Directory,
    Clone(Seq<char>),
    CodeFile(Seq<char>),
    Manifest(Seq<Seq<char>>, Comment, ManifestRole),
    ProjectFile(Seq<char>),
}

/// A step as mathematical values.
pub struct StepView {
    pub path: Seq<char>,
    pub kind: KindView,
}

/// The view of a step kind.
pub open spec fn kind_view(k: StepKind) -> KindView {
    match k {
        StepKind::Directory => KindView::Directory,
        StepKind::Clone(u) => KindView::Clone(u@),
        StepKind::CodeFile(c) => KindView::CodeFile(c@),
        StepKind::Manifest(d, c, r) => KindView::Manifest(strings_view(d@), c, r),
        StepKind::ProjectFile(c) => KindView::ProjectFile(c@),
    }
}

impl View for Step {
    type V = StepView;

    open spec fn view(&self) -> StepView {
        StepView { path: self.path@, kind: kind_view(self.kind) }
    }
}

/// The view of each step.
pub open spec fn steps_view(v: Seq<Step>) -> Seq<StepView> {
    Seq::new(v.len(), |i: int| v[i]@)
}

/// The characters of an optional string.
pub open spec fn opt_view(o: Option<String>) -> Option<Seq<char>> {
    match o {
        Some(s) => Some(s@),
        None => None,
    }
}

/// The visibility written before a Rust `mod` declaration; without a hint, private
/// in a program entry and public elsewhere.
pub open spec fn visibility_prefix(v: Option<Seq<char>>, in_main: bool) -> Seq<char> {
    match v {
        Some(x) => if x == "yes"@ {
            "pub "@
        } else if x == "no"@ {
            Seq::empty()
        } else if x == "crate"@ {
            "pub(crate) "@
        } else if x == "super"@ {
            "pub(super) "@
        } else {
            "pub "@
        },
        None => if in_main {
            Seq::empty()
        } else {
            "pub "@
        },
    }
}

/// The file name that generation writes: verbatim for language `any`.
pub open spec fn generated_name(lang: Language, name: Seq<char>) -> Seq<char> {
    if lang == Language::Any {
        name
    } else {
        file_name_for(name, lang)
    }
}

/// The per-directory manifest of a language, empty when it has none.
pub open spec fn manifest_name(lang: Language) -> Seq<char> {
    match lang {
        Language::Rust => "mod.rs"@,
        Language::Python => "__init__.py"@,
        Language::TypeScript => "index.ts"@,
        Language::JavaScript => "index.js"@,
        _ => Seq::empty(),
    }
}

/// The comment style of a language's manifests.
pub open spec fn comment_of(lang: Language) -> Comment {
    if lang == Language::Python {
        Comment::Hash
    } else {
        Comment::Slash
    }
}

/// Some file in `files` is named `stem`, or gets the file name `full`.
pub open spec fn files_have(files: Seq<CodeFile>, lang: Language, stem: Seq<char>, full: Seq<char>) -> bool {
    exists|i: int|
        0 <= i < files.len() && (files[i].name@ == stem || file_name_for(files[i].name@, lang) == full)
}

/// Whether a module directory gets a manifest.
pub open spec fn has_manifest(lang: Language, m: Module) -> bool {
    match lang {
        Language::Rust => module_name(m) != "src"@,
        Language::Python => true,
        Language::TypeScript => files_have(m.file@, lang, "index"@, "index.ts"@),
        Language::JavaScript => files_have(m.file@, lang, "index"@, "index.js"@),
        _ => false,
    }
}

/// Whether a file of this name is declared in its directory's manifest.
pub open spec fn declares(lang: Language, fname: Seq<char>) -> bool {
    match lang {
        Language::Rust => has_suffix(fname, ".rs"@) && fname != "mod.rs"@,
        Language::Python => has_suffix(fname, ".py"@) && fname != "__init__.py"@,
        Language::TypeScript => (has_suffix(fname, ".ts"@) || has_suffix(fname, ".tsx"@)) && fname
            != "index.ts"@,
        Language::JavaScript => (has_suffix(fname, ".js"@) || has_suffix(fname, ".jsx"@)
            || has_suffix(fname, ".mjs"@)) && fname != "index.js"@,
        _ => false,
    }
}

/// The manifest declaration of a file.
pub open spec fn file_decl(lang: Language, f: CodeFile) -> Seq<char> {
    let fname = file_name_for(f.name@, lang);
    match lang {
        Language::Rust => visibility_prefix(opt_view(f.visibility), false) + "mod "@ + entry_name(
            fname,
            "rust"@,
        ) + ";"@,
        Language::Python => "from ."@ + entry_name(fname, "python"@) + " import *"@,
        Language::TypeScript => "export * from './"@ + entry_name(fname, "typescript"@) + "';"@,
        _ => "export * from './"@ + fname + "';"@,
    }
}

/// The manifest declaration of a child module.
pub open spec fn child_decl(lang: Language, c: Module) -> Seq<char> {
    match lang {
        Language::Rust => visibility_prefix(opt_view(c.visibility), false) + "mod "@ + module_name(c)
            + ";"@,
        Language::Python => "from ."@ + module_name(c) + " import *"@,
        Language::TypeScript => "export * from './"@ + module_name(c) + "';"@,
        _ => "export * from './"@ + module_name(c) + "/index.js';"@,
    }
}

/// The declarations of the first `n` files that a manifest declares.
pub open spec fn file_decls(lang: Language, files: Seq<CodeFile>, n: int) -> Seq<Seq<char>>
    decreases n,
{
    if n <= 0 || n > files.len() {
        Seq::empty()
    } else if declares(lang, file_name_for(files[n - 1].name@, lang)) {
        file_decls(lang, files, n - 1).push(file_decl(lang, files[n - 1]))
    } else {
        file_decls(lang, files, n - 1)
    }
}

/// A module manifest's declarations: its files, then its child modules.
pub open spec fn module_decls(lang: Language, m: Module) -> Seq<Seq<char>> {
    file_decls(lang, m.file@, m.file@.len() as int) + Seq::new(
        m.tree@.len(),
        |k: int| child_decl(lang, m.tree@[k]),
    )
}

/// `s` holds `sub` somewhere.
pub open spec fn holds_text(s: Seq<char>, sub: Seq<char>) -> bool {
    exists|i: int| 0 <= i && i + sub.len() <= s.len() && #[trigger] s.subrange(i, i + sub.len()) == sub
}

/// The skeleton of a new code file.
pub open spec fn code_content(lang: Language, f: CodeFile) -> Seq<char> {
    let fname = generated_name(lang, f.name@);
    match lang {
        Language::Go => if has_suffix(fname, ".go"@) {
            if holds_text(f.name@, "main"@) {
                "package main\n\nfunc main() {\n}\n"@
            } else {
                "package main\n"@
            }
        } else {
            Seq::empty()
        },
        Language::Python => if f.name@ == "__init__"@ {
            "# Package initialization\n"@
        } else {
            Seq::empty()
        },
        Language::JavaScript | Language::TypeScript => if holds_text(f.name@, "index"@) {
            "// Main entry point\nconsole.log('Hello, world!');\n"@
        } else {
            Seq::empty()
        },
        _ => Seq::empty(),
    }
}

/// Whether a file of a module is left to a manifest step instead of a code step:
/// the directory's manifest, and the entry files of a top-level Rust `src`.
pub open spec fn left_to_manifest(lang: Language, fname: Seq<char>, m: Module, top: bool) -> bool {
    (has_manifest(lang, m) && fname == manifest_name(lang)) || (lang == Language::Rust && top
        && module_name(m) == "src"@ && (fname == "main.rs"@ || fname == "lib.rs"@))
}

/// The code steps of the first `n` files of a module in directory `dir` (ending with `/`).
pub open spec fn code_steps(lang: Language, dir: Seq<char>, m: Module, top: bool, n: int) -> Seq<
    StepView,
>
    decreases n,
{
    if n <= 0 || n > m.file@.len() {
        Seq::empty()
    } else {
        let f = m.file@[n - 1];
        let fname = generated_name(lang, f.name@);
        if left_to_manifest(lang, fname, m, top) {
            code_steps(lang, dir, m, top, n - 1)
        } else {
            code_steps(lang, dir, m, top, n - 1).push(
                StepView { path: dir + fname, kind: KindView::CodeFile(code_content(lang, f)) },
            )
        }
    }
}

/// The steps of a module under `parent` (empty or ending with `/`): a clone target
/// alone; else its directory, its files, its children in order, then its manifest.
pub open spec fn module_steps(lang: Language, parent: Seq<char>, m: Module, top: bool) -> Seq<
    StepView,
>
    decreases m, m.tree@.len() + 1,
{
    let dir = parent + module_name(m);
    let inner = dir + "/"@;
    match m.from {
        Some(u) => seq![StepView { path: dir, kind: KindView::Clone(u@) }],
        None => seq![StepView { path: dir, kind: KindView::Directory }] + code_steps(
            lang,
            inner,
            m,
            top,
            m.file@.len() as int,
        ) + child_steps(lang, inner, m, 0) + if has_manifest(lang, m) {
            seq![
                StepView {
                    path: inner + manifest_name(lang),
                    kind: KindView::Manifest(
                        module_decls(lang, m),
                        comment_of(lang),
                        ManifestRole::ModuleIndex,
                    ),
                },
            ]
        } else {
            Seq::empty()
        },
    }
}

/// The steps of the children of `m` from the `k`-th on.
pub open spec fn child_steps(lang: Language, parent: Seq<char>, m: Module, k: int) -> Seq<StepView>
    decreases m, m.tree@.len() - k,
{
    if k < 0 || k >= m.tree@.len() {
        Seq::empty()
    } else {
        module_steps(lang, parent, m.tree@[k], false) + child_steps(lang, parent, m, k + 1)
    }
}

fn lit(s: &str) -> (r: Vec<char>)
    ensures
        r@ == s@,
{
    chars_of(s)
}

fn join3(a: &[char], b: &[char], c: &[char]) -> (r: Vec<char>)
    ensures
        r@ == a@ + b@ + c@,
{
    let ab = concat(a, b);
    concat(ab.as_slice(), c)
}

fn vis_prefix(v: &Option<String>, in_main: bool) -> (r: Vec<char>)
    ensures
        r@ == visibility_prefix(opt_view(*v), in_main),
{
    match v {
        Some(x) => {
            if str_is(x.as_str(), "yes") {
                lit("pub ")
            } else if str_is(x.as_str(), "no") {
                Vec::new()
            } else if str_is(x.as_str(), "crate") {
                lit("pub(crate) ")
            } else if str_is(x.as_str(), "super") {
                lit("pub(super) ")
            } else {
                lit("pub ")
            }
        },
        None => if in_main {
            Vec::new()
        } else {
            lit("pub ")
        },
    }
}

fn generated_name_of(lang: Language, tag: &str, name: &String) -> (r: String)
    requires
        lang == language_of(tag@),
    ensures
        r@ == generated_name(lang, name@),
{
    if lang == Language::Any {
        name.clone()
    } else {
        let f = CodeFile { name: name.clone(), visibility: None };
        f.filename_with_extension(tag)
    }
}

fn manifest_name_of(lang: Language) -> (r: &'static str)
    ensures
        r@ == manifest_name(lang),
{
    match lang {
        Language::Rust => "mod.rs",
        Language::Python => "__init__.py",
        Language::TypeScript => "index.ts",
        Language::JavaScript => "index.js",
        _ => {
            proof {
                reveal_strlit("");
            }
            ""
        },
    }
}

fn comment_for(lang: Language) -> (r: Comment)
    ensures
        r == comment_of(lang),
{
    if lang == Language::Python {
        Comment::Hash
    } else {
        Comment::Slash
    }
}

fn any_file_named(files: &[CodeFile], lang: Language, tag: &str, stem: &str, full: &str) -> (r: bool)
    requires
        lang == language_of(tag@),
    ensures
        r == files_have(files@, lang, stem@, full@),
{
    let mut i: usize = 0;
    while i < files.len()
        invariant
            i <= files@.len(),
            lang == language_of(tag@),
            forall|j: int|
                0 <= j < i ==> !(files@[j].name@ == stem@ || file_name_for(files@[j].name@, lang)
                    == full@),
        decreases files.len() - i,
    {
        let f = &files[i];
        let fname = f.filename_with_extension(tag);
        if str_is(f.name.as_str(), stem) || str_is(fname.as_str(), full) {
            return true;
        }
        i = i + 1;
    }
    false
}

fn manifest_wanted(lang: Language, tag: &str, m: &Module) -> (r: bool)
    requires
        lang == language_of(tag@),
    ensures
        r == has_manifest(lang, *m),
{
    match lang {
        Language::Rust => !str_is(m.name().as_str(), "src"),
        Language::Python => true,
        Language::TypeScript => any_file_named(m.file.as_slice(), lang, tag, "index", "index.ts"),
        Language::JavaScript => any_file_named(m.file.as_slice(), lang, tag, "index", "index.js"),
        _ => false,
    }
}

fn suffix_is(s: &Vec<char>, e: &str) -> (r: bool)
    ensures
        r == has_suffix(s@, e@),
{
    let ec = chars_of(e);
    crate::text::ends_with(s.as_slice(), ec.as_slice())
}

fn is_declared(lang: Language, fname: &String) -> (r: bool)
    ensures
        r == declares(lang, fname@),
{
    let f = chars_of(fname.as_str());
    match lang {
        Language::Rust => suffix_is(&f, ".rs") && !str_is(fname.as_str(), "mod.rs"),
        Language::Python => suffix_is(&f, ".py") && !str_is(fname.as_str(), "__init__.py"),
        Language::TypeScript => (suffix_is(&f, ".ts") || suffix_is(&f, ".tsx")) && !str_is(
            fname.as_str(),
            "index.ts",
        ),
        Language::JavaScript => (suffix_is(&f, ".js") || suffix_is(&f, ".jsx") || suffix_is(
            &f,
            ".mjs",
        )) && !str_is(fname.as_str(), "index.js"),
        _ => false,
    }
}

fn decl_of_file(lang: Language, tag: &str, f: &CodeFile) -> (r: String)
    requires
        lang == language_of(tag@),
    ensures
        r@ == file_decl(lang, *f),
{
    let fname = f.filename_with_extension(tag);
    let r = match lang {
        Language::Rust => {
            let v = vis_prefix(&f.visibility, false);
            let stem = FilesystemScanner::filename_without_standard_extension(fname.as_str(), "rust");
            let a = join3(v.as_slice(), lit("mod ").as_slice(), chars_of(stem.as_str()).as_slice());
            concat(a.as_slice(), lit(";").as_slice())
        },
        Language::Python => {
            let stem = FilesystemScanner::filename_without_standard_extension(
                fname.as_str(),
                "python",
            );
            join3(lit("from .").as_slice(), chars_of(stem.as_str()).as_slice(), lit(" import *").as_slice())
        },
        Language::TypeScript => {
            let stem = FilesystemScanner::filename_without_standard_extension(
                fname.as_str(),
                "typescript",
            );
            join3(lit("export * from './").as_slice(), chars_of(stem.as_str()).as_slice(), lit("';").as_slice())
        },
        _ => join3(lit("export * from './").as_slice(), chars_of(fname.as_str()).as_slice(), lit("';").as_slice()),
    };
    string_of(r.as_slice())
}

fn decl_of_child(lang: Language, c: &Module) -> (r: String)
    ensures
        r@ == child_decl(lang, *c),
{
    let name = chars_of(c.name().as_str());
    let r = match lang {
        Language::Rust => {
            let v = vis_prefix(&c.visibility, false);
            let a = join3(v.as_slice(), lit("mod ").as_slice(), name.as_slice());
            concat(a.as_slice(), lit(";").as_slice())
        },
        Language::Python => join3(lit("from .").as_slice(), name.as_slice(), lit(" import *").as_slice()),
        Language::TypeScript => join3(lit("export * from './").as_slice(), name.as_slice(), lit("';").as_slice()),
        _ => join3(lit("export * from './").as_slice(), name.as_slice(), lit("/index.js';").as_slice()),
    };
    string_of(r.as_slice())
}

fn decls_of_module(lang: Language, tag: &str, m: &Module) -> (r: Vec<String>)
    requires
        lang == language_of(tag@),
    ensures
        strings_view(r@) == module_decls(lang, *m),
{
    let mut r: Vec<String> = Vec::new();
    let mut i: usize = 0;
    while i < m.file.len()
        invariant
            i <= m.file@.len(),
            lang == language_of(tag@),
            strings_view(r@) == file_decls(lang, m.file@, i as int),
        decreases m.file.len() - i,
    {
        let f = &m.file[i];
        let fname = f.filename_with_extension(tag);
        if is_declared(lang, &fname) {
            let ghost before = strings_view(r@);
            r.push(decl_of_file(lang, tag, f));
            assert(strings_view(r@) =~= before.push(file_decl(lang, m.file@[i as int])));
        }
        i = i + 1;
    }
    let ghost files_part = strings_view(r@);
    let mut k: usize = 0;
    while k < m.tree.len()
        invariant
            k <= m.tree@.len(),
            strings_view(r@) == files_part + Seq::new(
                k as nat,
                |j: int| child_decl(lang, m.tree@[j]),
            ),
        decreases m.tree.len() - k,
    {
        let ghost before = strings_view(r@);
        r.push(decl_of_child(lang, &m.tree[k]));
        assert(strings_view(r@) =~= before.push(child_decl(lang, m.tree@[k as int])));
        assert(strings_view(r@) =~= files_part + Seq::new(
            (k + 1) as nat,
            |j: int| child_decl(lang, m.tree@[j]),
        ));
        k = k + 1;
    }
    r
}

fn has_text(s: &Vec<char>, sub: &str) -> (r: bool)
    ensures
        r == holds_text(s@, sub@),
{
    let p = chars_of(sub);
    if p.len() > s.len() {
        return false;
    }
    let n = s.len();
    let last = n - p.len();
    let mut i: usize = 0;
    while i <= last
        invariant
            p@ == sub@,
            n == s@.len(),
            p@.len() <= s@.len(),
            last == s@.len() - p@.len(),
            i <= last + 1,
            forall|j: int| 0 <= j < i ==> #[trigger] s@.subrange(j, j + p@.len()) != p@,
        decreases s.len() - i,
    {
        let mut same = true;
        let mut k: usize = 0;
        while k < p.len()
            invariant
                i <= last,
                n == s@.len(),
                p@.len() <= s@.len(),
                last == s@.len() - p@.len(),
                k <= p@.len(),
                same == (forall|q: int| 0 <= q < k ==> s@[i + q] == p@[q]),
            decreases p.len() - k,
        {
            if s[i + k] != p[k] {
                same = false;
            }
            k = k + 1;
        }
        if same {
            assert(s@.subrange(i as int, i + p@.len()) =~= p@);
            return true;
        }
        assert(s@.subrange(i as int, i + p@.len()) != p@) by {
            let q = choose|q: int| 0 <= q < p@.len() && s@[i + q] != p@[q];
            assert(s@.subrange(i as int, i + p@.len())[q] != p@[q]);
        }
        i = i + 1;
    }
    assert forall|j: int|
        0 <= j && j + sub@.len() <= s@.len() implies #[trigger] s@.subrange(j, j + sub@.len())
        != sub@ by {
        assert(j < i);
    }
    false
}

fn content_of_code(lang: Language, tag: &str, f: &CodeFile) -> (r: String)
    requires
        lang == language_of(tag@),
    ensures
        r@ == code_content(lang, *f),
{
    let fname = generated_name_of(lang, tag, &f.name);
    let n = chars_of(f.name.as_str());
    match lang {
        Language::Go => {
            let fc = chars_of(fname.as_str());
            if suffix_is(&fc, ".go") {
                if has_text(&n, "main") {
                    String::from_str("package main\n\nfunc main() {\n}\n")
                } else {
                    String::from_str("package main\n")
                }
            } else {
                String::new()
            }
        },
        Language::Python => if str_is(f.name.as_str(), "__init__") {
            String::from_str("# Package initialization\n")
        } else {
            String::new()
        },
        Language::JavaScript | Language::TypeScript => if has_text(&n, "index") {
            String::from_str("// Main entry point\nconsole.log('Hello, world!');\n")
        } else {
            String::new()
        },
        _ => String::new(),
    }
}

fn to_manifest(lang: Language, tag: &str, fname: &String, m: &Module, top: bool) -> (r: bool)
    requires
        lang == language_of(tag@),
    ensures
        r == left_to_manifest(lang, fname@, *m, top),
{
    let mname = manifest_name_of(lang);
    (manifest_wanted(lang, tag, m) && str_is(fname.as_str(), mname)) || (lang == Language::Rust
        && top && str_is(m.name().as_str(), "src") && (str_is(fname.as_str(), "main.rs") || str_is(
        fname.as_str(),
        "lib.rs",
    )))
}

fn push_step(steps: &mut Vec<Step>, path: &[char], kind: StepKind)
    ensures
        steps_view(final(steps)@) == steps_view(old(steps)@).push(
            StepView { path: path@, kind: kind_view(kind) },
        ),
{
    steps.push(Step { path: string_of(path), kind });
    assert(steps_view(final(steps)@) =~= steps_view(old(steps)@).push(
        StepView { path: path@, kind: kind_view(kind) },
    ));
}

/// Appends the steps of a module and everything below it.
fn plan_module(
    lang: Language,
    tag: &str,
    parent: &[char],
    m: &Module,
    top: bool,
    steps: &mut Vec<Step>,
)
    requires
        lang == language_of(tag@),
    ensures
        steps_view(final(steps)@) == steps_view(old(steps)@) + module_steps(lang, parent@, *m, top),
    decreases m, m.tree@.len() + 1,
{
    let ghost start = steps_view(old(steps)@);
    let name = chars_of(m.name().as_str());
    let dir = concat(parent, name.as_slice());
    let inner = concat(dir.as_slice(), lit("/").as_slice());
    match &m.from {
        Some(u) => {
            push_step(steps, dir.as_slice(), StepKind::Clone(u.clone()));
            assert(steps_view(steps@) =~= start + module_steps(lang, parent@, *m, top));
            return;
        },
        None => {},
    }
    push_step(steps, dir.as_slice(), StepKind::Directory);
    let ghost after_dir = steps_view(steps@);
    let mut i: usize = 0;
    while i < m.file.len()
        invariant
            i <= m.file@.len(),
            lang == language_of(tag@),
            m.from is None,
            steps_view(steps@) == after_dir + code_steps(lang, inner@, *m, top, i as int),
        decreases m.file.len() - i,
    {
        let f = &m.file[i];
        let fname = generated_name_of(lang, tag, &f.name);
        if !to_manifest(lang, tag, &fname, m, top) {
            let fc = chars_of(fname.as_str());
            let path = concat(inner.as_slice(), fc.as_slice());
            let content = content_of_code(lang, tag, f);
            push_step(steps, path.as_slice(), StepKind::CodeFile(content));
            assert(steps_view(steps@) =~= after_dir + code_steps(lang, inner@, *m, top, i + 1));
        }
        i = i + 1;
    }
    let ghost after_files = steps_view(steps@);
    let mut k: usize = 0;
    while k < m.tree.len()
        invariant
            k <= m.tree@.len(),
            lang == language_of(tag@),
            m.from is None,
            steps_view(steps@) == after_files + done_child_steps(lang, inner@, *m, k as int),
        decreases m.tree.len() - k,
    {
        let ghost before = steps_view(steps@);
        plan_module(lang, tag, inner.as_slice(), &m.tree[k], false, steps);
        assert(steps_view(steps@) =~= after_files + done_child_steps(
            lang,
            inner@,
            *m,
            k + 1,
        ));
        k = k + 1;
    }
    proof {
        lemma_done_child_steps(lang, inner@, *m, m.tree@.len() as int);
    }
    let ghost after_children = steps_view(steps@);
    if manifest_wanted(lang, tag, m) {
        let mname = chars_of(manifest_name_of(lang));
        let path = concat(inner.as_slice(), mname.as_slice());
        let decls = decls_of_module(lang, tag, m);
        push_step(
            steps,
            path.as_slice(),
            StepKind::Manifest(decls, comment_for(lang), ManifestRole::ModuleIndex),
        );
    }
    assert(steps_view(steps@) =~= start + module_steps(lang, parent@, *m, top));
}

/// The steps of the first `k` children of `m`.
pub open spec fn done_child_steps(lang: Language, parent: Seq<char>, m: Module, k: int) -> Seq<
    StepView,
>
    decreases k,
{
    if k <= 0 || k > m.tree@.len() {
        Seq::empty()
    } else {
        done_child_steps(lang, parent, m, k - 1) + module_steps(lang, parent, m.tree@[k - 1], false)
    }
}

proof fn lemma_done_child_steps(lang: Language, parent: Seq<char>, m: Module, k: int)
    requires
        0 <= k <= m.tree@.len(),
    ensures
        done_child_steps(lang, parent, m, k) + child_steps(lang, parent, m, k) == child_steps(
            lang,
            parent,
            m,
            0,
        ),
    decreases k,
{
    if k > 0 {
        lemma_done_child_steps(lang, parent, m, k - 1);
        assert(done_child_steps(lang, parent, m, k) + child_steps(lang, parent, m, k)
            =~= done_child_steps(lang, parent, m, k - 1) + child_steps(lang, parent, m, k - 1));
    } else {
        assert(done_child_steps(lang, parent, m, 0) + child_steps(lang, parent, m, 0)
            =~= child_steps(lang, parent, m, 0));
    }
}

/// Some module at or below `m` has a file named `stem` or `full`.
pub open spec fn module_has(m: Module, lang: Language, stem: Seq<char>, full: Seq<char>) -> bool
    decreases m, m.tree@.len() + 1,
{
    files_have(m.file@, lang, stem, full) || children_have(m, lang, stem, full, 0)
}

/// Some child of `m` from the `k`-th on has such a file at or below it.
pub open spec fn children_have(m: Module, lang: Language, stem: Seq<char>, full: Seq<char>, k: int) -> bool
    decreases m, m.tree@.len() - k,
{
    if k < 0 || k >= m.tree@.len() {
        false
    } else {
        module_has(m.tree@[k], lang, stem, full) || children_have(m, lang, stem, full, k + 1)
    }
}

/// Some file of the project, at any depth, is named `stem` or `full`.
pub open spec fn project_has(p: Project, lang: Language, stem: Seq<char>, full: Seq<char>) -> bool {
    files_have(p.file@, lang, stem, full) || exists|i: int|
        0 <= i < p.tree@.len() && #[trigger] module_has(p.tree@[i], lang, stem, full)
}

/// The project files of a project (third tier), by language.
pub open spec fn project_files(p: Project, base: Seq<char>) -> Seq<StepView> {
    let name = p.name@;
    match language_of(p.lang@) {
        Language::Rust => seq![
            StepView {
                path: base + "Cargo.toml"@,
                kind: KindView::ProjectFile(
                    "[package]\nname = \""@ + name
                        + "\"\nversion = \"0.1.0\"\nedition = \"2021\"\n\n[dependencies]\n"@,
                ),
            },
        ],
        Language::Go => seq![
            StepView {
                path: base + "go.mod"@,
                kind: KindView::ProjectFile("module "@ + name + "\n\ngo 1.21\n"@),
            },
            StepView { path: base + "go.sum"@, kind: KindView::ProjectFile(Seq::empty()) },
        ] + if project_has(p, Language::Go, "main"@, "main.go"@) {
            Seq::empty()
        } else {
            seq![
                StepView {
                    path: base + "main.go"@,
                    kind: KindView::ProjectFile(GO_MAIN@),
                },
            ]
        },
        Language::Python => seq![
            StepView { path: base + "requirements.txt"@, kind: KindView::ProjectFile(REQUIREMENTS@) },
            StepView {
                path: base + "setup.py"@,
                kind: KindView::ProjectFile(SETUP_HEAD@ + name + SETUP_TAIL@),
            },
        ] + if project_has(p, Language::Python, "main"@, "main.py"@) {
            Seq::empty()
        } else {
            seq![StepView { path: base + "main.py"@, kind: KindView::ProjectFile(MAIN_PY@) }]
        },
        Language::JavaScript => seq![
            StepView {
                path: base + "package.json"@,
                kind: KindView::ProjectFile(JS_PACKAGE_HEAD@ + name + JS_PACKAGE_TAIL@),
            },
        ] + if project_has(p, Language::JavaScript, "index"@, "index.js"@) {
            Seq::empty()
        } else {
            seq![StepView { path: base + "index.js"@, kind: KindView::ProjectFile(INDEX_JS@) }]
        },
        Language::TypeScript => seq![
            StepView {
                path: base + "package.json"@,
                kind: KindView::ProjectFile(TS_PACKAGE_HEAD@ + name + TS_PACKAGE_TAIL@),
            },
            StepView { path: base + "tsconfig.json"@, kind: KindView::ProjectFile(TSCONFIG@) },
        ],
        Language::Any => seq![
            StepView { path: base + "README.md"@, kind: KindView::ProjectFile(Seq::empty()) },
        ],
        _ => Seq::empty(),
    }
}

/// A Go program entry.
pub const GO_MAIN: &'static str = "package main\n\nimport \"fmt\"\n\nfunc main() {\n    fmt.Println(\"Hello, world!\")\n}\n";

/// A Python requirements list.
pub const REQUIREMENTS: &'static str = "# Add your Python dependencies here\n# Example:\n# requests>=2.25.0\n# numpy>=1.21.0\n";

/// A Python package descriptor, up to the project name.
pub const SETUP_HEAD: &'static str = "from setuptools import setup, find_packages\n\nsetup(\n    name=\"";

/// A Python package descriptor, after the project name.
pub const SETUP_TAIL: &'static str = "\",\n    version=\"1.0.0\",\n    description=\"\",\n    packages=find_packages(),\n    install_requires=[],\n    python_requires=\">=3.8\",\n)\n";

/// A Python program entry.
pub const MAIN_PY: &'static str = "#!/usr/bin/env python3\n\"\"\"Main entry point for the application.\"\"\"\n\ndef main():\n    \"\"\"Main function.\"\"\"\n    print(\"Hello, world!\")\n\nif __name__ == \"__main__\":\n    main()\n";

/// A JavaScript package descriptor, up to the project name.
pub const JS_PACKAGE_HEAD: &'static str = "{\n  \"name\": \"";

/// A JavaScript package descriptor, after the project name.
pub const JS_PACKAGE_TAIL: &'static str = "\",\n  \"version\": \"1.0.0\",\n  \"description\": \"\",\n  \"main\": \"index.js\",\n  \"type\": \"module\",\n  \"scripts\": {\n    \"start\": \"node index.js\"\n  },\n  \"keywords\": [],\n  \"author\": \"\",\n  \"license\": \"ISC\"\n}\n";

/// A JavaScript program entry.
pub const INDEX_JS: &'static str = "console.log(\"Hello, world!\");\n";

/// A TypeScript package descriptor, up to the project name.
pub const TS_PACKAGE_HEAD: &'static str = "{\n  \"name\": \"";

/// A TypeScript package descriptor, after the project name.
pub const TS_PACKAGE_TAIL: &'static str = "\",\n  \"version\": \"1.0.0\",\n  \"description\": \"\",\n  \"main\": \"dist/index.js\",\n  \"scripts\": {\n    \"build\": \"tsc\",\n    \"start\": \"node dist/index.js\"\n  },\n  \"devDependencies\": {\n    \"typescript\": \"^5.0.0\"\n  },\n  \"license\": \"ISC\"\n}\n";

/// A TypeScript compiler configuration.
pub const TSCONFIG: &'static str = "{\n  \"compilerOptions\": {\n    \"target\": \"ES2020\",\n    \"module\": \"commonjs\",\n    \"outDir\": \"./dist\",\n    \"rootDir\": \"./src\",\n    \"strict\": true\n  },\n  \"include\": [\"src/**/*\"],\n  \"exclude\": [\"node_modules\", \"dist\"]\n}\n";

/// The first module named `src` among `ms[k..]`, or the length.
pub open spec fn first_src(ms: Seq<Module>, k: int) -> int
    decreases ms.len() - k,
{
    if k < 0 || k >= ms.len() {
        ms.len() as int
    } else if module_name(ms[k]) == "src"@ {
        k
    } else {
        first_src(ms, k + 1)
    }
}

/// The project, or one of its top-level `src` modules, lists a file named `stem` or `full`.
pub open spec fn entry_declared(p: Project, stem: Seq<char>, full: Seq<char>) -> bool {
    files_have(p.file@, Language::Rust, stem, full) || exists|i: int|
        0 <= i < p.tree@.len() && module_name(p.tree@[i]) == "src"@ && #[trigger] files_have(
            p.tree@[i].file@,
            Language::Rust,
            stem,
            full,
        )
}

/// The declarations of the first `n` files of `src` in its entry module.
pub open spec fn entry_file_decls(files: Seq<CodeFile>, n: int, in_main: bool) -> Seq<Seq<char>>
    decreases n,
{
    if n <= 0 || n > files.len() {
        Seq::empty()
    } else {
        let f = files[n - 1];
        let fname = file_name_for(f.name@, Language::Rust);
        if declares(Language::Rust, fname) && fname != "main.rs"@ && fname != "lib.rs"@ {
            entry_file_decls(files, n - 1, in_main).push(
                visibility_prefix(opt_view(f.visibility), in_main) + "mod "@ + entry_name(
                    fname,
                    "rust"@,
                ) + ";"@,
            )
        } else {
            entry_file_decls(files, n - 1, in_main)
        }
    }
}

/// The declarations of an entry module: the files of `src`, then its child modules.
pub open spec fn entry_decls(src: Module, in_main: bool) -> Seq<Seq<char>> {
    entry_file_decls(src.file@, src.file@.len() as int, in_main) + Seq::new(
        src.tree@.len(),
        |k: int|
            visibility_prefix(opt_view(src.tree@[k].visibility), in_main) + "mod "@ + module_name(
                src.tree@[k],
            ) + ";"@,
    )
}

/// The entry module of a Rust project: `src/main.rs` when a `main` file is listed,
/// else `src/lib.rs` when a `lib` file is; none otherwise, nor without `src`.
pub open spec fn entry_steps(p: Project, base: Seq<char>) -> Seq<StepView> {
    let i = first_src(p.tree@, 0);
    if language_of(p.lang@) != Language::Rust || i >= p.tree@.len() {
        Seq::empty()
    } else if entry_declared(p, "main"@, "main.rs"@) {
        seq![
            StepView {
                path: base + "src/main.rs"@,
                kind: KindView::Manifest(
                    entry_decls(p.tree@[i], true),
                    Comment::Slash,
                    ManifestRole::EntryMain,
                ),
            },
        ]
    } else if entry_declared(p, "lib"@, "lib.rs"@) {
        seq![
            StepView {
                path: base + "src/lib.rs"@,
                kind: KindView::Manifest(
                    entry_decls(p.tree@[i], false),
                    Comment::Slash,
                    ManifestRole::EntryLib,
                ),
            },
        ]
    } else {
        Seq::empty()
    }
}

/// The code steps of the first `n` project-level files.
pub open spec fn top_file_steps(p: Project, base: Seq<char>, n: int) -> Seq<StepView>
    decreases n,
{
    if n <= 0 || n > p.file@.len() {
        Seq::empty()
    } else {
        let lang = language_of(p.lang@);
        let f = p.file@[n - 1];
        top_file_steps(p, base, n - 1).push(
            StepView {
                path: base + generated_name(lang, f.name@),
                kind: KindView::CodeFile(code_content(lang, f)),
            },
        )
    }
}

/// The steps of the first `n` top-level modules.
pub open spec fn top_module_steps(p: Project, base: Seq<char>, n: int) -> Seq<StepView>
    decreases n,
{
    if n <= 0 || n > p.tree@.len() {
        Seq::empty()
    } else {
        top_module_steps(p, base, n - 1) + module_steps(
            language_of(p.lang@),
            base,
            p.tree@[n - 1],
            true,
        )
    }
}

/// Everything generation does for a project, in order: its directory (unless it is
/// the root project), its project files, its own files, its modules in pre-order,
/// then its entry module.
pub open spec fn project_steps(p: Project) -> Seq<StepView> {
    let base = base_of(p);
    (if p.root {
        Seq::empty()
    } else {
        seq![StepView { path: p.name@, kind: KindView::Directory }]
    }) + project_files(p, base) + top_file_steps(p, base, p.file@.len() as int) + top_module_steps(
        p,
        base,
        p.tree@.len() as int,
    ) + entry_steps(p, base)
}

proof fn lemma_children_have(m: Module, lang: Language, stem: Seq<char>, full: Seq<char>, k: int)
    requires
        0 <= k <= m.tree@.len(),
    ensures
        children_have(m, lang, stem, full, k) <==> exists|j: int|
            k <= j < m.tree@.len() && #[trigger] module_has(m.tree@[j], lang, stem, full),
    decreases m.tree@.len() - k,
{
    if k < m.tree@.len() {
        lemma_children_have(m, lang, stem, full, k + 1);
        if module_has(m.tree@[k], lang, stem, full) {
            assert(exists|j: int|
                k <= j < m.tree@.len() && #[trigger] module_has(m.tree@[j], lang, stem, full));
        }
        if exists|j: int| k <= j < m.tree@.len() && #[trigger] module_has(m.tree@[j], lang, stem, full) {
            let j = choose|j: int| k <= j < m.tree@.len() && #[trigger] module_has(m.tree@[j], lang, stem, full);
            if j > k {
                assert(children_have(m, lang, stem, full, k + 1));
            }
        }
    }
}

fn module_has_file(m: &Module, lang: Language, tag: &str, stem: &str, full: &str) -> (r: bool)
    requires
        lang == language_of(tag@),
    ensures
        r == module_has(*m, lang, stem@, full@),
    decreases m, m.tree@.len() + 1,
{
    if any_file_named(m.file.as_slice(), lang, tag, stem, full) {
        return true;
    }
    let mut k: usize = 0;
    while k < m.tree.len()
        invariant
            k <= m.tree@.len(),
            lang == language_of(tag@),
            forall|j: int| 0 <= j < k ==> !#[trigger] module_has(m.tree@[j], lang, stem@, full@),
        decreases m.tree.len() - k,
    {
        if module_has_file(&m.tree[k], lang, tag, stem, full) {
            proof {
                lemma_children_have(*m, lang, stem@, full@, 0);
            }
            return true;
        }
        k = k + 1;
    }
    proof {
        lemma_children_have(*m, lang, stem@, full@, 0);
    }
    false
}

fn project_has_file(p: &Project, lang: Language, tag: &str, stem: &str, full: &str) -> (r: bool)
    requires
        lang == language_of(tag@),
    ensures
        r == project_has(*p, lang, stem@, full@),
{
    if any_file_named(p.file.as_slice(), lang, tag, stem, full) {
        return true;
    }
    let mut k: usize = 0;
    while k < p.tree.len()
        invariant
            k <= p.tree@.len(),
            lang == language_of(tag@),
            !files_have(p.file@, lang, stem@, full@),
            forall|j: int| 0 <= j < k ==> !#[trigger] module_has(p.tree@[j], lang, stem@, full@),
        decreases p.tree.len() - k,
    {
        if module_has_file(&p.tree[k], lang, tag, stem, full) {
            return true;
        }
        k = k + 1;
    }
    false
}

fn around(head: &str, name: &String, tail: &str) -> (r: String)
    ensures
        r@ == head@ + name@ + tail@,
{
    let mut r = String::from_str(head);
    r.append(name.as_str());
    r.append(tail);
    r
}

fn push_project_file(steps: &mut Vec<Step>, base: &Vec<char>, file: &str, content: String)
    ensures
        steps_view(final(steps)@) == steps_view(old(steps)@).push(
            StepView { path: base@ + file@, kind: KindView::ProjectFile(content@) },
        ),
{
    let path = concat(base.as_slice(), chars_of(file).as_slice());
    push_step(steps, path.as_slice(), StepKind::ProjectFile(content));
}

fn plan_project_files(p: &Project, base: &Vec<char>, steps: &mut Vec<Step>)
    ensures
        steps_view(final(steps)@) == steps_view(old(steps)@) + project_files(*p, base@),
{
    let ghost start = steps_view(old(steps)@);
    let lang = Language::from_tag(p.lang.as_str());
    let tag = p.lang.as_str();
    proof {
        reveal_strlit("");
    }
    match lang {
        Language::Rust => {
            push_project_file(
                steps,
                base,
                "Cargo.toml",
                around(
                    "[package]\nname = \"",
                    &p.name,
                    "\"\nversion = \"0.1.0\"\nedition = \"2021\"\n\n[dependencies]\n",
                ),
            );
        },
        Language::Go => {
            push_project_file(steps, base, "go.mod", around("module ", &p.name, "\n\ngo 1.21\n"));
            push_project_file(steps, base, "go.sum", String::new());
            if !project_has_file(p, lang, tag, "main", "main.go") {
                push_project_file(steps, base, "main.go", String::from_str(GO_MAIN));
            }
        },
        Language::Python => {
            push_project_file(steps, base, "requirements.txt", String::from_str(REQUIREMENTS));
            push_project_file(steps, base, "setup.py", around(SETUP_HEAD, &p.name, SETUP_TAIL));
            if !project_has_file(p, lang, tag, "main", "main.py") {
                push_project_file(steps, base, "main.py", String::from_str(MAIN_PY));
            }
        },
        Language::JavaScript => {
            push_project_file(
                steps,
                base,
                "package.json",
                around(JS_PACKAGE_HEAD, &p.name, JS_PACKAGE_TAIL),
            );
            if !project_has_file(p, lang, tag, "index", "index.js") {
                push_project_file(steps, base, "index.js", String::from_str(INDEX_JS));
            }
        },
        Language::TypeScript => {
            push_project_file(
                steps,
                base,
                "package.json",
                around(TS_PACKAGE_HEAD, &p.name, TS_PACKAGE_TAIL),
            );
            push_project_file(steps, base, "tsconfig.json", String::from_str(TSCONFIG));
        },
        Language::Any => {
            push_project_file(steps, base, "README.md", String::new());
        },
        _ => {},
    }
    assert(steps_view(steps@) =~= start + project_files(*p, base@));
}

fn entry_file_list(files: &[CodeFile], in_main: bool) -> (r: Vec<String>)
    ensures
        strings_view(r@) == entry_file_decls(files@, files@.len() as int, in_main),
{
    let mut r: Vec<String> = Vec::new();
    let mut i: usize = 0;
    while i < files.len()
        invariant
            i <= files@.len(),
            strings_view(r@) == entry_file_decls(files@, i as int, in_main),
        decreases files.len() - i,
    {
        let f = &files[i];
        let fname = f.filename_with_extension("rust");
        if is_declared(Language::Rust, &fname) && !str_is(fname.as_str(), "main.rs") && !str_is(
            fname.as_str(),
            "lib.rs",
        ) {
            let v = vis_prefix(&f.visibility, in_main);
            let stem = FilesystemScanner::filename_without_standard_extension(fname.as_str(), "rust");
            let a = join3(v.as_slice(), lit("mod ").as_slice(), chars_of(stem.as_str()).as_slice());
            let d = concat(a.as_slice(), lit(";").as_slice());
            let ghost before = strings_view(r@);
            r.push(string_of(d.as_slice()));
            assert(strings_view(r@) =~= before.push(d@));
        }
        i = i + 1;
    }
    r
}

fn entry_decl_list(src: &Module, in_main: bool) -> (r: Vec<String>)
    ensures
        strings_view(r@) == entry_decls(*src, in_main),
{
    let mut r = entry_file_list(src.file.as_slice(), in_main);
    let ghost files_part = strings_view(r@);
    let mut k: usize = 0;
    while k < src.tree.len()
        invariant
            k <= src.tree@.len(),
            strings_view(r@) == files_part + Seq::new(
                k as nat,
                |j: int|
                    visibility_prefix(opt_view(src.tree@[j].visibility), in_main) + "mod "@
                        + module_name(src.tree@[j]) + ";"@,
            ),
        decreases src.tree.len() - k,
    {
        let c = &src.tree[k];
        let v = vis_prefix(&c.visibility, in_main);
        let a = join3(v.as_slice(), lit("mod ").as_slice(), chars_of(c.name().as_str()).as_slice());
        let d = concat(a.as_slice(), lit(";").as_slice());
        let ghost before = strings_view(r@);
        r.push(string_of(d.as_slice()));
        assert(strings_view(r@) =~= before.push(d@));
        assert(strings_view(r@) =~= files_part + Seq::new(
            (k + 1) as nat,
            |j: int|
                visibility_prefix(opt_view(src.tree@[j].visibility), in_main) + "mod "@
                    + module_name(src.tree@[j]) + ";"@,
        ));
        k = k + 1;
    }
    r
}

fn entry_listed(p: &Project, stem: &str, full: &str) -> (r: bool)
    ensures
        r == entry_declared(*p, stem@, full@),
{
    if any_file_named(p.file.as_slice(), Language::Rust, "rust", stem, full) {
        return true;
    }
    let mut k: usize = 0;
    while k < p.tree.len()
        invariant
            k <= p.tree@.len(),
            !files_have(p.file@, Language::Rust, stem@, full@),
            forall|j: int|
                0 <= j < k ==> !(module_name(p.tree@[j]) == "src"@ && #[trigger] files_have(
                    p.tree@[j].file@,
                    Language::Rust,
                    stem@,
                    full@,
                )),
        decreases p.tree.len() - k,
    {
        let m = &p.tree[k];
        if str_is(m.name().as_str(), "src") && any_file_named(
            m.file.as_slice(),
            Language::Rust,
            "rust",
            stem,
            full,
        ) {
            return true;
        }
        k = k + 1;
    }
    false
}

fn plan_entry(p: &Project, base: &Vec<char>, steps: &mut Vec<Step>)
    ensures
        steps_view(final(steps)@) == steps_view(old(steps)@) + entry_steps(*p, base@),
{
    let ghost start = steps_view(old(steps)@);
    let lang = Language::from_tag(p.lang.as_str());
    let mut i: usize = 0;
    while i < p.tree.len() && !str_is(p.tree[i].name().as_str(), "src")
        invariant
            i <= p.tree@.len(),
            first_src(p.tree@, i as int) == first_src(p.tree@, 0),
        decreases p.tree.len() - i,
    {
        i = i + 1;
    }
    if lang != Language::Rust || i >= p.tree.len() {
        assert(steps_view(steps@) =~= start + entry_steps(*p, base@));
        return;
    }
    if entry_listed(p, "main", "main.rs") {
        let path = concat(base.as_slice(), lit("src/main.rs").as_slice());
        let decls = entry_decl_list(&p.tree[i], true);
        push_step(
            steps,
            path.as_slice(),
            StepKind::Manifest(decls, Comment::Slash, ManifestRole::EntryMain),
        );
    } else if entry_listed(p, "lib", "lib.rs") {
        let path = concat(base.as_slice(), lit("src/lib.rs").as_slice());
        let decls = entry_decl_list(&p.tree[i], false);
        push_step(
            steps,
            path.as_slice(),
            StepKind::Manifest(decls, Comment::Slash, ManifestRole::EntryLib),
        );
    }
    assert(steps_view(steps@) =~= start + entry_steps(*p, base@));
}

/// Plans the generation of layouts: what to make, in which order, and what each file
/// should hold.
pub struct FileBuilder;

impl FileBuilder {
    /// The steps that generate one project, as `project_steps` describes them.
    pub fn build_project_files(project: &Project) -> (r: Vec<Step>)
        ensures
            steps_view(r@) == project_steps(*project),
    {
        let mut steps: Vec<Step> = Vec::new();
        let base: Vec<char> = if project.root {
            Vec::new()
        } else {
            concat(chars_of(project.name.as_str()).as_slice(), lit("/").as_slice())
        };
        assert(base@ == base_of(*project));
        if !project.root {
            push_step(&mut steps, chars_of(project.name.as_str()).as_slice(), StepKind::Directory);
        }
        let ghost head = steps_view(steps@);
        assert(head == (if project.root {
            Seq::empty()
        } else {
            seq![StepView { path: project.name@, kind: KindView::Directory }]
        }));
        plan_project_files(project, &base, &mut steps);
        let ghost after_files = steps_view(steps@);
        let lang = Language::from_tag(project.lang.as_str());
        let tag = project.lang.as_str();
        let mut i: usize = 0;
        while i < project.file.len()
            invariant
                i <= project.file@.len(),
                lang == language_of(tag@),
                tag@ == project.lang@,
                steps_view(steps@) == after_files + top_file_steps(*project, base@, i as int),
            decreases project.file.len() - i,
        {
            let f = &project.file[i];
            let fname = generated_name_of(lang, tag, &f.name);
            let path = concat(base.as_slice(), chars_of(fname.as_str()).as_slice());
            let content = content_of_code(lang, tag, f);
            push_step(&mut steps, path.as_slice(), StepKind::CodeFile(content));
            assert(steps_view(steps@) =~= after_files + top_file_steps(*project, base@, i + 1));
            i = i + 1;
        }
        let ghost after_top = steps_view(steps@);
        let mut k: usize = 0;
        while k < project.tree.len()
            invariant
                k <= project.tree@.len(),
                lang == language_of(tag@),
                tag@ == project.lang@,
                steps_view(steps@) == after_top + top_module_steps(*project, base@, k as int),
            decreases project.tree.len() - k,
        {
            plan_module(lang, tag, base.as_slice(), &project.tree[k], true, &mut steps);
            assert(steps_view(steps@) =~= after_top + top_module_steps(*project, base@, k + 1));
            k = k + 1;
        }
        plan_entry(project, &base, &mut steps);
        assert(steps_view(steps@) =~= project_steps(*project));
        steps
    }
}

/// The entry declarations of the first `n` modules named `src`.
pub open spec fn src_decls(ms: Seq<Module>, n: int, in_main: bool) -> Seq<Seq<char>>
    decreases n,
{
    if n <= 0 || n > ms.len() {
        Seq::empty()
    } else if module_name(ms[n - 1]) == "src"@ {
        src_decls(ms, n - 1, in_main) + entry_decls(ms[n - 1], in_main)
    } else {
        src_decls(ms, n - 1, in_main)
    }
}

fn src_decl_list(src_modules: &[Module], in_main: bool) -> (r: Vec<String>)
    ensures
        strings_view(r@) == src_decls(src_modules@, src_modules@.len() as int, in_main),
{
    let mut r: Vec<String> = Vec::new();
    let mut i: usize = 0;
    while i < src_modules.len()
        invariant
            i <= src_modules@.len(),
            strings_view(r@) == src_decls(src_modules@, i as int, in_main),
        decreases src_modules.len() - i,
    {
        let m = &src_modules[i];
        if str_is(m.name().as_str(), "src") {
            let d = entry_decl_list(m, in_main);
            let ghost before = strings_view(r@);
            let mut k: usize = 0;
            while k < d.len()
                invariant
                    k <= d@.len(),
                    strings_view(r@) == before + strings_view(d@).take(k as int),
                decreases d.len() - k,
            {
                let ghost prev = strings_view(r@);
                r.push(d[k].clone());
                assert(strings_view(r@) =~= prev.push(d@[k as int]@));
                assert(strings_view(d@).take(k + 1) =~= strings_view(d@).take(k as int).push(
                    d@[k as int]@,
                ));
                assert(strings_view(r@) =~= before + strings_view(d@).take(k + 1));
                k = k + 1;
            }
            assert(strings_view(d@).take(d@.len() as int) =~= strings_view(d@));
        }
        i = i + 1;
    }
    r
}

/// The tags `go`, `python` and `javascript` name their languages.
proof fn lemma_language_tags()
    ensures
        language_of("go"@) == Language::Go,
        language_of("python"@) == Language::Python,
        language_of("javascript"@) == Language::JavaScript,
{
    reveal_strlit("rust");
    reveal_strlit("go");
    reveal_strlit("python");
    reveal_strlit("javascript");
    assert("rust"@.len() == 4 && "go"@.len() == 2 && "python"@.len() == 6);
    assert("javascript"@.len() == 10);
}

/// Rust wiring: `mod.rs` per directory, `src/main.rs` or `src/lib.rs` as entry.
pub struct RustModuleGenerator;

impl RustModuleGenerator {
    /// The declarations of the program entry `src/main.rs`, from the modules named
    /// `src`: their files (but the entry files) and child modules, private by default.
    pub fn generate_main_rs(src_modules: &[Module]) -> (r: Vec<String>)
        ensures
            strings_view(r@) == src_decls(src_modules@, src_modules@.len() as int, true),
    {
        src_decl_list(src_modules, true)
    }

    /// The declarations of the library entry `src/lib.rs`, public by default.
    pub fn generate_lib_rs(src_modules: &[Module]) -> (r: Vec<String>)
        ensures
            strings_view(r@) == src_decls(src_modules@, src_modules@.len() as int, false),
    {
        src_decl_list(src_modules, false)
    }

    /// Whether the layout names a `main` file, at the project level or in `src`.
    pub fn should_generate_main_rs(project: &Project) -> (r: bool)
        ensures
            r == entry_declared(*project, "main"@, "main.rs"@),
    {
        entry_listed(project, "main", "main.rs")
    }

    /// Whether the layout names a `lib` file, at the project level or in `src`.
    pub fn should_generate_lib_rs(project: &Project) -> (r: bool)
        ensures
            r == entry_declared(*project, "lib"@, "lib.rs"@),
    {
        entry_listed(project, "lib", "lib.rs")
    }
}

/// Go layout: package stubs, `go.mod`, `go.sum`, and `main.go` unless one is listed.
pub struct GoPackageGenerator;

impl GoPackageGenerator {
    /// Whether the project needs a `main.go` of its own: no `main` file anywhere.
    pub fn should_generate_main_go(project: &Project) -> (r: bool)
        ensures
            r == !project_has(*project, Language::Go, "main"@, "main.go"@),
    {
        proof {
            lemma_language_tags();
        }
        !project_has_file(project, Language::Go, "go", "main", "main.go")
    }
}

/// Python layout: `__init__.py` per directory, `setup.py`, `requirements.txt`.
pub struct PythonPackageGenerator;

impl PythonPackageGenerator {
    /// Whether the project needs a `main.py` of its own: no `main` file anywhere.
    pub fn should_generate_main_py(project: &Project) -> (r: bool)
        ensures
            r == !project_has(*project, Language::Python, "main"@, "main.py"@),
    {
        proof {
            lemma_language_tags();
        }
        !project_has_file(project, Language::Python, "python", "main", "main.py")
    }
}

/// JavaScript layout: `index.js` barrels where listed, `package.json`.
pub struct JavaScriptModuleGenerator;

impl JavaScriptModuleGenerator {
    /// Whether the project needs an `index.js` of its own: no `index` file anywhere.
    pub fn should_generate_main_index_js(project: &Project) -> (r: bool)
        ensures
            r == !project_has(*project, Language::JavaScript, "index"@, "index.js"@),
    {
        proof {
            lemma_language_tags();
        }
        !project_has_file(project, Language::JavaScript, "javascript", "index", "index.js")
    }
}

/// TypeScript layout: `index.ts` barrels where listed, `package.json`, `tsconfig.json`.
pub struct TypeScriptModuleGenerator;

/// Layout of language `any`: exactly the files named, plus a `README.md`.
pub struct AnyFileHandler;

/// Whether a step makes a directory (a module directory or a clone target).
pub open spec fn makes_directory(k: KindView) -> bool {
    k is Directory || k is Clone
}

/// The paths of the first `n` steps that make directories (`dirs`) or files.
pub open spec fn paths_of(steps: Seq<StepView>, dirs: bool, n: int) -> Seq<Seq<char>>
    decreases n,
{
    if n <= 0 || n > steps.len() {
        Seq::empty()
    } else if makes_directory(steps[n - 1].kind) == dirs {
        paths_of(steps, dirs, n - 1).push(steps[n - 1].path)
    } else {
        paths_of(steps, dirs, n - 1)
    }
}

fn step_paths(steps: &Vec<Step>, dirs: bool) -> (r: Vec<String>)
    ensures
        strings_view(r@) == paths_of(steps_view(steps@), dirs, steps@.len() as int),
{
    let mut r: Vec<String> = Vec::new();
    let mut i: usize = 0;
    while i < steps.len()
        invariant
            i <= steps@.len(),
            strings_view(r@) == paths_of(steps_view(steps@), dirs, i as int),
        decreases steps.len() - i,
    {
        let is_dir = match &steps[i].kind {
            StepKind::Directory => true,
            StepKind::Clone(_) => true,
            _ => false,
        };
        assert(is_dir == makes_directory(steps_view(steps@)[i as int].kind));
        if is_dir == dirs {
            let ghost before = strings_view(r@);
            r.push(steps[i].path.clone());
            assert(strings_view(r@) =~= before.push(steps@[i as int].path@));
        }
        i = i + 1;
    }
    r
}

/// Lists the directories that generation makes.
pub struct DirectoryBuilder;

impl DirectoryBuilder {
    /// The directories that generating a project makes or clones, in order: the
    /// project's own directory (unless it is the root project), then its modules in
    /// pre-order.
    pub fn get_project_directories(project: &Project) -> (r: Vec<String>)
        ensures
            strings_view(r@) == paths_of(project_steps(*project), true, project_steps(*project).len() as int),
    {
        let steps = FileBuilder::build_project_files(project);
        step_paths(&steps, true)
    }
}

impl FileBuilder {
    /// The files that generating a project makes or keeps up to date, in order.
    pub fn get_project_files(project: &Project) -> (r: Vec<String>)
        ensures
            strings_view(r@) == paths_of(project_steps(*project), false, project_steps(*project).len() as int),
    {
        let steps = FileBuilder::build_project_files(project);
        step_paths(&steps, false)
    }
}

} // verus!
