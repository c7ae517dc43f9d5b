use vstd::prelude::*;

use crate::collector::{entries_view, strings_view, ManagedFile, ManagedView};
use crate::editor::{addition, edited_text, AddChild, EditError, Outcome, YamlModifier};
use crate::model::{str_is, MoliConfig, Project};
use crate::scanner::UnmanagedEntry;
use crate::text::{chars_of, lines_of, starts_with};

verus! {

/// The first root project from index `k` on, or the number of projects.
pub open spec fn first_root(ps: Seq<Project>, k: int) -> int
    decreases ps.len() - k,
{
    if k < 0 || k >= ps.len() {
        ps.len() as int
    } else if ps[k].root {
        k
    } else {
        first_root(ps, k + 1)
    }
}

/// The first project named `name` from index `k` on, or the number of projects.
pub open spec fn first_named(ps: Seq<Project>, name: Seq<char>, k: int) -> int
    decreases ps.len() - k,
{
    if k < 0 || k >= ps.len() {
        ps.len() as int
    } else if ps[k].name@ == name {
        k
    } else {
        first_named(ps, name, k + 1)
    }
}

/// The project that a path on disk belongs to, and the path relative to it: the root
/// project takes every path; else the project named by the first segment takes the
/// rest; else a project named `.` takes the whole path.
pub open spec fn resolution(ps: Seq<Project>, segs: Seq<Seq<char>>) -> Option<(int, Seq<Seq<char>>)> {
    let r = first_root(ps, 0);
    if r < ps.len() {
        Some((r, segs))
    } else if segs.len() == 0 {
        None
    } else if first_named(ps, segs[0], 0) < ps.len() {
        Some((first_named(ps, segs[0], 0), segs.drop_first()))
    } else if first_named(ps, "."@, 0) < ps.len() {
        Some((first_named(ps, "."@, 0), segs))
    } else {
        None
    }
}

fn find_root(ps: &Vec<Project>) -> (r: usize)
    ensures
        r == first_root(ps@, 0),
        r <= ps@.len(),
{
    let mut i: usize = 0;
    while i < ps.len() && !ps[i].root
        invariant
            i <= ps@.len(),
            first_root(ps@, i as int) == first_root(ps@, 0),
        decreases ps.len() - i,
    {
        i = i + 1;
    }
    i
}

fn find_named(ps: &Vec<Project>, name: &str) -> (r: usize)
    ensures
        r == first_named(ps@, name@, 0),
        r <= ps@.len(),
{
    let mut i: usize = 0;
    while i < ps.len() && !str_is(ps[i].name.as_str(), name)
        invariant
            i <= ps@.len(),
            first_named(ps@, name@, i as int) == first_named(ps@, name@, 0),
        decreases ps.len() - i,
    {
        i = i + 1;
    }
    i
}

fn copy_segments(v: &Vec<String>, from: usize) -> (r: Vec<String>)
    requires
        from <= v@.len(),
    ensures
        r@ == v@.subrange(from as int, v@.len() as int),
{
    let mut r: Vec<String> = Vec::new();
    let mut i = from;
    while i < v.len()
        invariant
            from <= i <= v@.len(),
            r@ == v@.subrange(from as int, i as int),
        decreases v.len() - i,
    {
        r.push(v[i].clone());
        assert(r@ =~= v@.subrange(from as int, i + 1));
        i = i + 1;
    }
    r
}

/// Finds the project that an unmanaged entry belongs to and its path inside that
/// project; the error says why none fits.
pub fn resolve_project(config: &MoliConfig, entry: &UnmanagedEntry) -> (r: Result<
    (usize, Vec<String>),
    String,
>)
    ensures
        r is Ok <==> resolution(config.projects@, strings_view(entry.relative_path@)) is Some,
        r is Ok ==> {
            let (i, segs) = resolution(config.projects@, strings_view(entry.relative_path@))->0;
            r->Ok_0.0 as int == i && strings_view(r->Ok_0.1@) == segs
        },
{
    let ps = &config.projects;
    let segs = &entry.relative_path;
    let ghost sv = strings_view(segs@);
    let r = find_root(ps);
    if r < ps.len() {
        return Ok((r, copy_segments(segs, 0)));
    }
    if segs.len() == 0 {
        return Err(String::from_str("Cannot resolve an empty path to a project"));
    }
    let i = find_named(ps, segs[0].as_str());
    if i < ps.len() {
        let rest = copy_segments(segs, 1);
        assert(strings_view(rest@) =~= sv.drop_first());
        return Ok((i, rest));
    }
    let d = find_named(ps, ".");
    if d < ps.len() {
        return Ok((d, copy_segments(segs, 0)));
    }
    let mut msg = String::from_str("No matching project found for '");
    msg.append(entry.display_path.as_str());
    msg.append("'; add a project named `.` or put the entry under a project directory");
    Err(msg)
}

/// The text after an addition, when it succeeds.
pub open spec fn added_text(
    text: Seq<char>,
    project: int,
    path: Seq<Seq<char>>,
    directory: bool,
    lang: Seq<char>,
    children: Seq<AddChild>,
) -> Option<Seq<char>> {
    match addition(lines_of(text), project, path, directory, lang, children) {
        Outcome::Done(ls) => Some(edited_text(ls, text)),
        _ => None,
    }
}

/// The text after adding `cs[k..]` one by one at the project's top, when all succeed.
pub open spec fn added_each(text: Seq<char>, project: int, cs: Seq<AddChild>, lang: Seq<char>, k: int) -> Option<
    Seq<char>,
>
    decreases cs.len() - k,
{
    if k < 0 || k >= cs.len() {
        Some(text)
    } else {
        match added_text(text, project, seq![cs[k].name@], cs[k].is_directory, lang, cs[k].children@) {
            Some(t) => added_each(t, project, cs, lang, k + 1),
            None => None,
        }
    }
}

/// The text after adding an unmanaged entry to the project it belongs to, when that
/// project is found and every addition succeeds: a directory that is a project's
/// root has each of its children added at the project's top; any other entry is
/// added at its path, with its children.
pub open spec fn added_for(
    config: MoliConfig,
    text: Seq<char>,
    entry: UnmanagedEntry,
    children: Seq<AddChild>,
) -> Option<Seq<char>> {
    match resolution(config.projects@, strings_view(entry.relative_path@)) {
        None => None,
        Some((i, segs)) => {
            let lang = config.projects@[i].lang@;
            if segs.len() == 0 && entry.is_directory {
                added_each(text, i, children, lang, 0)
            } else {
                added_text(text, i, segs, entry.is_directory, lang, children)
            }
        },
    }
}

/// Whether adding an entry would change the document: true when its project cannot
/// be found or the addition fails, so that the caller still sees it.
pub open spec fn changes(
    config: MoliConfig,
    text: Seq<char>,
    entry: UnmanagedEntry,
    children: Seq<AddChild>,
) -> bool {
    match added_for(config, text, entry, children) {
        None => true,
        Some(t) => t != text,
    }
}

/// Why an unmanaged entry could not be added.
#[derive(Debug)]
pub enum LoadError {
    /// No project takes the entry; the message says why.
    NoProject(String),
    /// The document could not be edited.
    Edit(EditError),
}

/// Adds an unmanaged entry (with `children`, what was found inside a directory) to
/// the project it belongs to.
pub fn add_unmanaged(
    config: &MoliConfig,
    yaml_content: &str,
    entry: &UnmanagedEntry,
    children: &[AddChild],
) -> (r: Result<String, LoadError>)
    ensures
        r is Ok <==> added_for(*config, yaml_content@, *entry, children@) is Some,
        r is Ok ==> r->Ok_0@ == added_for(*config, yaml_content@, *entry, children@)->0,
        r is Err && r->Err_0 is NoProject <==> resolution(
            config.projects@,
            strings_view(entry.relative_path@),
        ) is None,
{
    let (index, segs) = match resolve_project(config, entry) {
        Ok(v) => v,
        Err(m) => {
            return Err(LoadError::NoProject(m));
        },
    };
    let language = config.projects[index].lang.as_str();
    assert(resolution(config.projects@, strings_view(entry.relative_path@)) == Some(
        (index as int, strings_view(segs@)),
    ));
    if segs.len() == 0 && entry.is_directory {
        let mut result = String::from_str(yaml_content);
        let mut k: usize = 0;
        while k < children.len()
            invariant
                k <= children@.len(),
                index < config.projects@.len(),
                resolution(config.projects@, strings_view(entry.relative_path@)) == Some(
                    (index as int, strings_view(segs@)),
                ),
                segs@.len() == 0,
                entry.is_directory,
                language@ == config.projects@[index as int].lang@,
                added_each(result@, index as int, children@, language@, k as int) == added_each(
                    yaml_content@,
                    index as int,
                    children@,
                    language@,
                    0,
                ),
            decreases children.len() - k,
        {
            let child = &children[k];
            let path = vec![child.name.clone()];
            assert(strings_view(path@) =~= seq![child.name@]);
            match YamlModifier::add_entry(
                result.as_str(),
                index,
                path.as_slice(),
                child.is_directory,
                language,
                child.children.as_slice(),
            ) {
                Ok(t) => {
                    result = t;
                },
                Err(e) => {
                    assert(added_text(
                        result@,
                        index as int,
                        seq![child.name@],
                        child.is_directory,
                        language@,
                        child.children@,
                    ) is None);
                    assert(added_each(result@, index as int, children@, language@, k as int) is None);
                    return Err(LoadError::Edit(e));
                },
            }
            k = k + 1;
        }
        Ok(result)
    } else {
        match YamlModifier::add_entry(
            yaml_content,
            index,
            segs.as_slice(),
            entry.is_directory,
            language,
            children,
        ) {
            Ok(t) => Ok(t),
            Err(e) => Err(LoadError::Edit(e)),
        }
    }
}

/// Whether adding an entry (with `children`, what was found inside a directory)
/// would change the document.
pub fn would_produce_changes(
    config: &MoliConfig,
    yaml_content: &str,
    entry: &UnmanagedEntry,
    children: &[AddChild],
) -> (r: bool)
    ensures
        r == changes(*config, yaml_content@, *entry, children@),
{
    match add_unmanaged(config, yaml_content, entry, children) {
        Ok(t) => !str_is(t.as_str(), yaml_content),
        Err(_) => true,
    }
}

/// `d` is a directory path that lies strictly above `e`'s path.
pub open spec fn lies_under(d: ManagedView, e: ManagedView) -> bool {
    d.directory && d.path != e.path && e.path.len() >= d.path.len() && e.path.subrange(
        0,
        d.path.len() as int,
    ) == d.path
}

/// Some directory of `all` lies above `e`.
pub open spec fn covered(all: Seq<ManagedView>, e: ManagedView) -> bool {
    exists|j: int| 0 <= j < all.len() && #[trigger] lies_under(all[j], e)
}

fn covered_by_some(all: &Vec<ManagedFile>, e: &ManagedFile) -> (r: bool)
    ensures
        r == covered(entries_view(all@), e@),
{
    let p = chars_of(e.display_path.as_str());
    let mut j: usize = 0;
    while j < all.len()
        invariant
            j <= all@.len(),
            p@ == e.display_path@,
            forall|q: int| 0 <= q < j ==> !#[trigger] lies_under(entries_view(all@)[q], e@),
        decreases all.len() - j,
    {
        let d = &all[j];
        if d.is_directory && !str_is(d.display_path.as_str(), e.display_path.as_str()) {
            let dp = chars_of(d.display_path.as_str());
            if starts_with(p.as_slice(), dp.as_slice()) {
                assert(lies_under(entries_view(all@)[j as int], e@));
                return true;
            }
        }
        j = j + 1;
    }
    false
}

/// The entries to remove, without those that sit below a directory that is removed
/// too: removing a directory removes everything below it.
pub fn filter_redundant_removals(entries: &Vec<ManagedFile>) -> (r: Vec<&ManagedFile>)
    ensures
        r@.map_values(|e: &ManagedFile| e@) == entries_view(entries@).filter(
            |e: ManagedView| !covered(entries_view(entries@), e),
        ),
{
    let ghost all = entries_view(entries@);
    let mut r: Vec<&ManagedFile> = Vec::new();
    let mut i: usize = 0;
    while i < entries.len()
        invariant
            i <= entries@.len(),
            all == entries_view(entries@),
            r@.map_values(|e: &ManagedFile| e@) == all.take(i as int).filter(
                |e: ManagedView| !covered(all, e),
            ),
        decreases entries.len() - i,
    {
        assert(all.take(i + 1).drop_last() =~= all.take(i as int));
        reveal(Seq::filter);
        if !covered_by_some(entries, &entries[i]) {
            r.push(&entries[i]);
            assert(r@.map_values(|e: &ManagedFile| e@) =~= all.take(i + 1).filter(
                |e: ManagedView| !covered(all, e),
            ));
        }
        i = i + 1;
    }
    assert(all.take(entries@.len() as int) =~= all);
    r
}

/// The first file of a new project.
pub open spec fn main_file_name(language: Seq<char>, is_root: bool) -> Seq<char> {
    if language == "rust"@ {
        if is_root {
            "main"@
        } else {
            "lib"@
        }
    } else if language == "typescript"@ || language == "javascript"@ {
        "index"@
    } else if language == "any"@ {
        "README.md"@
    } else {
        "main"@
    }
}

/// The layout of a new project: Go and `any` list their first file at the project
/// root, the others inside `src`.
pub open spec fn new_project_text(name: Seq<char>, language: Seq<char>, is_root: bool) -> Seq<char> {
    let root_line = if is_root {
        "  root: true\n"@
    } else {
        Seq::empty()
    };
    let head = "- name: "@ + name + "\n"@ + root_line + "  lang: "@ + language + "\n"@;
    if language == "go"@ || language == "any"@ {
        head + "  file:\n    - name: "@ + main_file_name(language, is_root) + "\n"@
    } else {
        head + "  tree:\n    - name: src\n      file:\n        - name: "@ + main_file_name(
            language,
            is_root,
        ) + "\n"@
    }
}

/// The first file of a new project.
pub fn get_main_file_name(language: &str, is_root: bool) -> (r: &'static str)
    ensures
        r@ == main_file_name(language@, is_root),
{
    if str_is(language, "rust") {
        if is_root {
            "main"
        } else {
            "lib"
        }
    } else if str_is(language, "typescript") || str_is(language, "javascript") {
        "index"
    } else if str_is(language, "any") {
        "README.md"
    } else {
        "main"
    }
}

/// The layout text of a new project.
pub fn generate_new_project_yaml(project_name: &str, language: &str, is_root: bool) -> (r: String)
    ensures
        r@ == new_project_text(project_name@, language@, is_root),
{
    let main_file = get_main_file_name(language, is_root);
    let mut r = String::from_str("- name: ");
    r.append(project_name);
    r.append("\n");
    if is_root {
        r.append("  root: true\n");
    }
    r.append("  lang: ");
    r.append(language);
    r.append("\n");
    if str_is(language, "go") || str_is(language, "any") {
        r.append("  file:\n    - name: ");
    } else {
        r.append("  tree:\n    - name: src\n      file:\n        - name: ");
    }
    r.append(main_file);
    r.append("\n");
    proof {
        reveal_strlit("");
    }
    assert(r@ =~= new_project_text(project_name@, language@, is_root));
    r
}

/// The layout text of a new root project.
pub fn generate_new_moli_yml(project_name: &str, language: &str) -> (r: String)
    ensures
        r@ == new_project_text(project_name@, language@, true),
{
    generate_new_project_yaml(project_name, language, true)
}

/// Shells that completion scripts can be written for.
#[derive(PartialEq, Eq, Structural, Clone, Copy, Debug)]
pub enum CompletionShell {
    Bash,
    Zsh,
    Fish,
    PowerShell,
    Elvish,
}

/// The value of a run of decimal digits.
pub open spec fn digits_value(s: Seq<char>) -> int
    decreases s.len(),
{
    if s.len() == 0 {
        0
    } else {
        digits_value(s.drop_last()) * 10 + (s.last() as int - '0' as int)
    }
}

/// The whole text is decimal digits.
pub open spec fn all_digits(s: Seq<char>) -> bool {
    forall|i: int| 0 <= i < s.len() ==> '0' <= #[trigger] s[i] <= '9'
}

/// The number an existing project name `app_N` gives, with an optional `+`, when `N`
/// is a 32-bit count.
pub open spec fn app_number(line: Seq<char>) -> Option<int> {
    let prefix = "- name: app_"@;
    if line.len() >= prefix.len() && line.subrange(0, prefix.len() as int) == prefix {
        let rest = line.subrange(prefix.len() as int, line.len() as int);
        let digits = if rest.len() > 0 && rest[0] == '+' {
            rest.drop_first()
        } else {
            rest
        };
        if digits.len() > 0 && all_digits(digits) && digits_value(digits) <= 2147483647 {
            Some(digits_value(digits))
        } else {
            None
        }
    } else {
        None
    }
}

/// The number for the next `app_N` project after the first `n` lines: one more than
/// the largest number in use, and at least 1.
pub open spec fn next_number(ls: Seq<Seq<char>>, n: int) -> int
    decreases n,
{
    if n <= 0 || n > ls.len() {
        1
    } else {
        let before = next_number(ls, n - 1);
        match app_number(ls[n - 1]) {
            Some(v) => if v >= before {
                v + 1
            } else {
                before
            },
            None => before,
        }
    }
}

proof fn lemma_next_number_bounds(ls: Seq<Seq<char>>, n: int)
    ensures
        1 <= next_number(ls, n) <= 2147483648,
    decreases n,
{
    if 0 < n <= ls.len() {
        lemma_next_number_bounds(ls, n - 1);
    }
}

fn digits_of(s: &[char], from: usize) -> (r: Option<u64>)
    requires
        from <= s@.len(),
    ensures
        ({
            let d = s@.subrange(from as int, s@.len() as int);
            &&& r is Some <==> (d.len() > 0 && all_digits(d) && digits_value(d) <= 2147483647)
            &&& r is Some ==> r->0 as int == digits_value(d)
        }),
{
    let ghost d = s@.subrange(from as int, s@.len() as int);
    if from == s.len() {
        return None;
    }
    let mut v: u64 = 0;
    let mut i = from;
    while i < s.len()
        invariant
            from <= i <= s@.len(),
            d == s@.subrange(from as int, s@.len() as int),
            all_digits(s@.subrange(from as int, i as int)),
            v as int == digits_value(s@.subrange(from as int, i as int)),
            v <= 2147483647,
        decreases s.len() - i,
    {
        let c = s[i];
        if c < '0' || c > '9' {
            assert(!all_digits(d)) by {
                assert(d[i - from] == c);
            }
            return None;
        }
        let digit: u64 = (c as u64) - ('0' as u64);
        let ghost pre = s@.subrange(from as int, i as int);
        assert(s@.subrange(from as int, i + 1).drop_last() =~= pre);
        assert(digits_value(s@.subrange(from as int, i + 1)) == v * 10 + digit);
        if v > (2147483647 - digit) / 10 {
            proof {
                if all_digits(d) {
                    assert(d.subrange(0, i + 1 - from) =~= s@.subrange(from as int, i + 1));
                    assert(d.subrange(0, d.len() as int) =~= d);
                    lemma_digits_monotone(d, i + 1 - from, d.len() as int);
                }
            }
            return None;
        }
        v = v * 10 + digit;
        assert(all_digits(s@.subrange(from as int, i + 1))) by {
            assert forall|q: int| 0 <= q < i + 1 - from implies '0' <= #[trigger] s@.subrange(
                from as int,
                i + 1,
            )[q] <= '9' by {
                if q < i - from {
                    assert(s@.subrange(from as int, i + 1)[q] == pre[q]);
                }
            }
        }
        i = i + 1;
    }
    assert(s@.subrange(from as int, s@.len() as int) =~= d);
    Some(v)
}

proof fn lemma_digits_monotone(d: Seq<char>, k: int, m: int)
    requires
        0 <= k <= m <= d.len(),
        all_digits(d.subrange(0, m)),
    ensures
        0 <= digits_value(d.subrange(0, k)) <= digits_value(d.subrange(0, m)),
    decreases m - k,
{
    if k < m {
        assert(d.subrange(0, m).drop_last() =~= d.subrange(0, m - 1));
        assert(all_digits(d.subrange(0, m - 1))) by {
            assert forall|i: int| 0 <= i < m - 1 implies '0' <= #[trigger] d.subrange(0, m - 1)[i]
                <= '9' by {
                assert(d.subrange(0, m - 1)[i] == d.subrange(0, m)[i]);
            }
        }
        lemma_digits_monotone(d, k, m - 1);
        assert('0' <= d.subrange(0, m)[m - 1] <= '9');
    } else {
        lemma_digits_nonneg(d.subrange(0, k));
    }
}

proof fn lemma_digits_nonneg(d: Seq<char>)
    requires
        all_digits(d),
    ensures
        digits_value(d) >= 0,
    decreases d.len(),
{
    if d.len() > 0 {
        assert(all_digits(d.drop_last())) by {
            assert forall|i: int| 0 <= i < d.len() - 1 implies '0' <= #[trigger] d.drop_last()[i] <= '9' by {
                assert(d.drop_last()[i] == d[i]);
            }
        }
        lemma_digits_nonneg(d.drop_last());
        assert('0' <= d[d.len() - 1] <= '9');
    }
}

fn number_in_line(line: &Vec<char>) -> (r: Option<u64>)
    ensures
        r is Some <==> app_number(line@) is Some,
        r is Some ==> r->0 as int == app_number(line@)->0,
{
    let prefix = chars_of("- name: app_");
    proof {
        reveal_strlit("- name: app_");
    }
    if !starts_with(line.as_slice(), prefix.as_slice()) {
        return None;
    }
    let start = prefix.len();
    let ghost rest = line@.subrange(start as int, line@.len() as int);
    if start < line.len() && line[start] == '+' {
        assert(rest.drop_first() =~= line@.subrange(start + 1, line@.len() as int));
        digits_of(line.as_slice(), start + 1)
    } else {
        digits_of(line.as_slice(), start)
    }
}

/// The number for the next `app_N` project of a layout text: one more than the
/// largest `N` in use, and at least 1.
pub fn next_app_number(text: &str) -> (r: u64)
    ensures
        r as int == next_number(lines_of(text@), lines_of(text@).len() as int),
{
    let chars = chars_of(text);
    let lines = crate::text::split_lines(chars.as_slice());
    let ghost ls = crate::text::view_lines(lines@);
    let mut counter: u64 = 1;
    let mut i: usize = 0;
    while i < lines.len()
        invariant
            i <= lines@.len(),
            ls == crate::text::view_lines(lines@),
            ls == lines_of(text@),
            counter as int == next_number(ls, i as int),
        decreases lines.len() - i,
    {
        proof {
            lemma_next_number_bounds(ls, i as int);
        }
        match number_in_line(&lines[i]) {
            Some(v) => {
                if v >= counter {
                    counter = v + 1;
                }
            },
            None => {},
        }
        i = i + 1;
    }
    counter
}

} // verus!
