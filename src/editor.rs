use vstd::prelude::*;

use crate::collector::{strings_view, ManagedFile};
use crate::scanner::{entry_name, FilesystemScanner};
use crate::text::{
    chars_of, concat, indent_of, is_blank, line_indent, line_is_blank, make_spaces, spaces,
    split_lines, text_like, trim, trimmed_is, trimmed_starts_with, view_lines, join_like, lines_of,
};

verus! {

/// A test on one line of the layout document.
pub enum LineTest {
    /// The line has exactly this indentation and this trimmed text.
    At(int, Seq<char>),
    /// The line is not blank and is indented at most this much.
    Stop(int),
    /// The line is not blank.
    Filled,
}

/// Whether a line passes a test.
pub open spec fn passes(t: LineTest, l: Seq<char>) -> bool {
    match t {
        LineTest::At(d, s) => indent_of(l) == d && trim(l) == s,
        LineTest::Stop(d) => !is_blank(l) && indent_of(l) <= d,
        LineTest::Filled => !is_blank(l),
    }
}

/// The first line in `from..to` that passes the test, or `to`.
pub open spec fn first_from(ls: Seq<Seq<char>>, from: int, to: int, t: LineTest) -> int
    decreases to - from,
{
    if from >= to {
        to
    } else if passes(t, ls[from]) {
        from
    } else {
        first_from(ls, from + 1, to, t)
    }
}

/// The anchor text of a node named `name`.
pub open spec fn anchor_of(name: Seq<char>) -> Seq<char> {
    "- name: "@ + name
}

/// A project's first line: unindented and starting with `- name:`.
pub open spec fn is_header(l: Seq<char>) -> bool {
    indent_of(l) == 0 && trim(l).len() >= 7 && trim(l).subrange(0, 7) == "- name:"@
}

/// The line of the `k`-th project line at or after `i`, or the number of lines.
pub open spec fn nth_header(ls: Seq<Seq<char>>, i: int, k: int) -> int
    decreases ls.len() - i,
{
    if i >= ls.len() || i < 0 {
        ls.len() as int
    } else if is_header(ls[i]) {
        if k <= 0 {
            i
        } else {
            nth_header(ls, i + 1, k - 1)
        }
    } else {
        nth_header(ls, i + 1, k)
    }
}

/// The first line after line `i` that is not blank and not deeper than line `i`.
pub open spec fn block_stop(ls: Seq<Seq<char>>, i: int) -> int {
    first_from(ls, i + 1, ls.len() as int, LineTest::Stop(indent_of(ls[i])))
}

/// Last line, from `j` on, of a run of lines deeper than `d`, blank lines aside;
/// `last` when there is none.
pub open spec fn span_last(ls: Seq<Seq<char>>, d: int, j: int, last: int) -> int
    decreases ls.len() - j,
{
    if j >= ls.len() || j < 0 {
        last
    } else if is_blank(ls[j]) {
        span_last(ls, d, j + 1, last)
    } else if indent_of(ls[j]) > d {
        span_last(ls, d, j + 1, j)
    } else {
        last
    }
}

/// The last line of the block that line `i` opens: the deeper lines that follow it.
pub open spec fn block_last(ls: Seq<Seq<char>>, i: int) -> int {
    span_last(ls, indent_of(ls[i]), i + 1, i)
}

/// The line of the `key` section (`tree:` or `file:`) of the node on line `p`, or
/// `block_stop(ls, p)` when it has none.
pub open spec fn section_of(ls: Seq<Seq<char>>, p: int, key: Seq<char>) -> int {
    first_from(ls, p + 1, block_stop(ls, p), LineTest::At(indent_of(ls[p]) + 2, key))
}

/// The line of the entry `name` in the `key` section of the node on line `p`, or -1.
pub open spec fn child(ls: Seq<Seq<char>>, p: int, key: Seq<char>, name: Seq<char>) -> int {
    let k = section_of(ls, p, key);
    if k >= block_stop(ls, p) {
        -1
    } else {
        let c = first_from(
            ls,
            k + 1,
            block_stop(ls, k),
            LineTest::At(indent_of(ls[p]) + 4, anchor_of(name)),
        );
        if c >= block_stop(ls, k) {
            -1
        } else {
            c
        }
    }
}

/// Follows `path[k..]` down the `tree:` sections from the node on line `p`: the line
/// reached, or the index of the first name that is missing.
pub open spec fn walk(ls: Seq<Seq<char>>, p: int, path: Seq<Seq<char>>, k: int) -> Result<
    int,
    int,
>
    decreases path.len() - k,
{
    if k < 0 || k >= path.len() {
        Ok(p)
    } else {
        let c = child(ls, p, "tree:"@, path[k]);
        if c < 0 {
            Err(k)
        } else {
            walk(ls, c, path, k + 1)
        }
    }
}

/// The lines without those from `a` to `b`, both included.
pub open spec fn cut(ls: Seq<Seq<char>>, a: int, b: int) -> Seq<Seq<char>> {
    ls.subrange(0, a) + ls.subrange(b + 1, ls.len() as int)
}

/// Whether line `i`, a section key, has an entry: its next non-blank line is deeper
/// and starts a list item.
pub open spec fn has_entries(ls: Seq<Seq<char>>, i: int) -> bool {
    let j = first_from(ls, i + 1, ls.len() as int, LineTest::Filled);
    j < ls.len() && indent_of(ls[j]) > indent_of(ls[i]) && trim(ls[j]).len() >= 2 && trim(
        ls[j],
    ).subrange(0, 2) == "- "@
}

/// What an edit of the layout document comes to.
pub enum Outcome {
    /// The edited lines.
    Done(Seq<Seq<char>>),
    /// The project index names no project.
    NoProject,
    /// The path names no node at this position.
    Missing(int),
    /// The entry to remove is not there.
    NoEntry,
    /// An addition was asked with an empty path.
    EmptyPath,
}

/// Removal of an entry named `name`, with its deeper lines, from the `key` section of
/// the node that `path` reaches from the line of project `project`; the section's
/// key goes too when no entry is left under it.
pub open spec fn removal(
    ls: Seq<Seq<char>>,
    project: int,
    path: Seq<Seq<char>>,
    key: Seq<char>,
    name: Seq<char>,
) -> Outcome {
    let ps = nth_header(ls, 0, project);
    if ps >= ls.len() {
        Outcome::NoProject
    } else {
        match walk(ls, ps, path, 0) {
            Err(k) => Outcome::Missing(k),
            Ok(o) => {
                let c = child(ls, o, key, name);
                if c < 0 {
                    Outcome::NoEntry
                } else {
                    let rest = cut(ls, c, block_last(ls, c));
                    let k = section_of(ls, o, key);
                    if has_entries(rest, k) {
                        Outcome::Done(rest)
                    } else {
                        Outcome::Done(cut(rest, k, k))
                    }
                }
            },
        }
    }
}

/// The section key that holds an entry of this kind.
pub open spec fn key_for(directory: bool) -> Seq<char> {
    if directory {
        "tree:"@
    } else {
        "file:"@
    }
}

/// Why an edit was refused.
#[derive(Debug)]
pub enum EditError {
    /// An addition was asked with an empty path.
    EmptyPath,
    /// The project index names no project in the document.
    ProjectNotFound(usize),
    /// A node on the way to the target is missing; it holds that node's name.
    MissingSegment(String),
    /// The entry to remove is not there; it holds the entry's name.
    EntryNotFound(String),
}

/// The text of edited lines: the edited text itself when the lines did not change.
pub open spec fn edited_text(ls: Seq<Seq<char>>, text: Seq<char>) -> Seq<char> {
    if ls == lines_of(text) {
        text
    } else {
        join_like(ls, text)
    }
}

/// Whether an edit's result agrees with what the edit comes to.
pub open spec fn reports(
    r: Result<String, EditError>,
    o: Outcome,
    text: Seq<char>,
    path: Seq<Seq<char>>,
    name: Seq<char>,
    project: int,
) -> bool {
    match o {
        Outcome::Done(ls) => r is Ok && r->Ok_0@ == edited_text(ls, text),
        Outcome::NoProject => r is Err && r->Err_0 == EditError::ProjectNotFound(project as usize),
        Outcome::Missing(k) => r is Err && r->Err_0 is MissingSegment && r->Err_0->MissingSegment_0@
            == path[k],
        Outcome::NoEntry => r is Err && r->Err_0 is EntryNotFound && r->Err_0->EntryNotFound_0@
            == name,
        Outcome::EmptyPath => r is Err && r->Err_0 == EditError::EmptyPath,
    }
}

/// A line test as the code runs it: `At(d, off, text)` asks for indentation `d + off`.
pub enum Probe {
    At(usize, usize, Vec<char>),
    Stop(usize),
    Filled,
}

impl View for Probe {
    type V = LineTest;

    open spec fn view(&self) -> LineTest {
        match self {
            Probe::At(d, off, s) => LineTest::At(*d as int + *off as int, s@),
            Probe::Stop(d) => LineTest::Stop(*d as int),
            Probe::Filled => LineTest::Filled,
        }
    }
}

fn probe_passes(t: &Probe, l: &Vec<char>) -> (r: bool)
    ensures
        r == passes(t@, l@),
{
    match t {
        Probe::At(d, off, s) => {
            let ind = line_indent(l.as_slice());
            ind >= *off && ind - *off == *d && trimmed_is(l.as_slice(), s.as_slice())
        },
        Probe::Stop(d) => !line_is_blank(l.as_slice()) && line_indent(l.as_slice()) <= *d,
        Probe::Filled => !line_is_blank(l.as_slice()),
    }
}

/// The first line in `from..to` that passes the test, or `to`.
pub(crate) fn scan(lines: &Vec<Vec<char>>, from: usize, to: usize, t: &Probe) -> (r: usize)
    requires
        from <= to <= lines@.len(),
    ensures
        r == first_from(view_lines(lines@), from as int, to as int, t@),
        from <= r <= to,
{
    let mut i = from;
    while i < to
        invariant
            from <= i <= to <= lines@.len(),
            first_from(view_lines(lines@), i as int, to as int, t@) == first_from(
                view_lines(lines@),
                from as int,
                to as int,
                t@,
            ),
        decreases to - i,
    {
        if probe_passes(t, &lines[i]) {
            return i;
        }
        i = i + 1;
    }
    i
}

/// The line of project `project`, or the number of lines.
fn project_line(lines: &Vec<Vec<char>>, project: usize) -> (r: usize)
    ensures
        r == nth_header(view_lines(lines@), 0, project as int),
        r <= lines@.len(),
{
    let head = chars_of("- name:");
    proof {
        reveal_strlit("- name:");
    }
    let mut i: usize = 0;
    let mut k = project;
    while i < lines.len()
        invariant
            i <= lines@.len(),
            head@ == "- name:"@,
            head@.len() == 7,
            nth_header(view_lines(lines@), i as int, k as int) == nth_header(
                view_lines(lines@),
                0,
                project as int,
            ),
        decreases lines.len() - i,
    {
        let l = &lines[i];
        if line_indent(l.as_slice()) == 0 && trimmed_starts_with(l.as_slice(), head.as_slice()) {
            if k == 0 {
                return i;
            }
            k = k - 1;
        }
        i = i + 1;
    }
    i
}

/// The first line after line `i` that is not blank and not deeper than it.
fn stop_after(lines: &Vec<Vec<char>>, i: usize) -> (r: usize)
    requires
        i < lines@.len(),
    ensures
        r == block_stop(view_lines(lines@), i as int),
        i < r <= lines@.len(),
{
    let n = lines.len();
    let d = line_indent(lines[i].as_slice());
    scan(lines, i + 1, n, &Probe::Stop(d))
}

/// The last line of the block that line `i` opens.
fn last_of_block(lines: &Vec<Vec<char>>, i: usize) -> (r: usize)
    requires
        i < lines@.len(),
    ensures
        r == block_last(view_lines(lines@), i as int),
        i <= r < lines@.len(),
{
    let n = lines.len();
    let d = line_indent(lines[i].as_slice());
    let mut last = i;
    let mut j = i + 1;
    while j < lines.len()
        invariant
            i <= last < j <= lines@.len(),
            d == indent_of(view_lines(lines@)[i as int]),
            span_last(view_lines(lines@), d as int, j as int, last as int) == block_last(
                view_lines(lines@),
                i as int,
            ),
        decreases lines.len() - j,
    {
        let l = &lines[j];
        if line_is_blank(l.as_slice()) {
        } else if line_indent(l.as_slice()) > d {
            last = j;
        } else {
            return last;
        }
        j = j + 1;
    }
    last
}

/// The line of the `key` section of the node on line `p`, if it has one.
fn find_section(lines: &Vec<Vec<char>>, p: usize, key: &Vec<char>) -> (r: usize)
    requires
        p < lines@.len(),
    ensures
        r == section_of(view_lines(lines@), p as int, key@),
        p < r <= block_stop(view_lines(lines@), p as int),
{
    let d = line_indent(lines[p].as_slice());
    let stop = stop_after(lines, p);
    let mut k = Vec::new();
    k = concat(k.as_slice(), key.as_slice());
    scan(lines, p + 1, stop, &Probe::At(d, 2, k))
}

/// The line of the entry `name` in the `key` section of the node on line `p`.
fn find_child(lines: &Vec<Vec<char>>, p: usize, key: &Vec<char>, name: &Vec<char>) -> (r: Option<
    usize,
>)
    requires
        p < lines@.len(),
    ensures
        r is None <==> child(view_lines(lines@), p as int, key@, name@) < 0,
        r is Some ==> r->0 == child(view_lines(lines@), p as int, key@, name@),
        r is Some ==> p < r->0 < lines@.len(),
        r is Some ==> section_of(view_lines(lines@), p as int, key@) < r->0,
{
    let d = line_indent(lines[p].as_slice());
    let stop = stop_after(lines, p);
    let k = find_section(lines, p, key);
    if k >= stop {
        return None;
    }
    let ks = stop_after(lines, k);
    let prefix = chars_of("- name: ");
    let anchor = concat(prefix.as_slice(), name.as_slice());
    proof {
        reveal_strlit("- name: ");
    }
    let c = scan(lines, k + 1, ks, &Probe::At(d, 4, anchor));
    if c >= ks {
        None
    } else {
        Some(c)
    }
}

fn copy_lines(v: &Vec<Vec<char>>) -> (r: Vec<Vec<char>>)
    ensures
        view_lines(r@) == view_lines(v@),
{
    let mut r: Vec<Vec<char>> = Vec::new();
    append_lines(&mut r, v, 0, v.len());
    assert(view_lines(v@).subrange(0, v@.len() as int) =~= view_lines(v@));
    assert(view_lines(r@) =~= view_lines(v@));
    r
}

fn same_lines(a: &Vec<Vec<char>>, b: &Vec<Vec<char>>) -> (r: bool)
    ensures
        r == (view_lines(a@) == view_lines(b@)),
{
    if a.len() != b.len() {
        assert(view_lines(a@).len() != view_lines(b@).len());
        return false;
    }
    let mut i: usize = 0;
    while i < a.len()
        invariant
            a@.len() == b@.len(),
            i <= a@.len(),
            forall|j: int| 0 <= j < i ==> a@[j]@ == b@[j]@,
        decreases a.len() - i,
    {
        if !crate::text::same_chars(a[i].as_slice(), b[i].as_slice()) {
            assert(view_lines(a@)[i as int] != view_lines(b@)[i as int]);
            return false;
        }
        i = i + 1;
    }
    assert(view_lines(a@) =~= view_lines(b@));
    true
}

/// The text of `result`, or `source` itself when `result` holds its lines unchanged.
fn edited(result: &Vec<Vec<char>>, lines: &Vec<Vec<char>>, source: &str, text: &Vec<char>) -> (r: String)
    requires
        view_lines(lines@) == lines_of(source@),
        text@ == source@,
    ensures
        r@ == edited_text(view_lines(result@), source@),
{
    if same_lines(result, lines) {
        String::from_str(source)
    } else {
        text_like(result, text.as_slice())
    }
}

/// Follows `path` down the `tree:` sections from the node on line `p`.
fn follow(lines: &Vec<Vec<char>>, p: usize, path: &Vec<String>) -> (r: Result<usize, usize>)
    requires
        p < lines@.len(),
    ensures
        r is Ok ==> walk(view_lines(lines@), p as int, strings_view(path@), 0) == Ok::<int, int>(
            r->Ok_0 as int,
        ) && r->Ok_0 < lines@.len(),
        r is Err ==> walk(view_lines(lines@), p as int, strings_view(path@), 0) == Err::<int, int>(
            r->Err_0 as int,
        ) && r->Err_0 < path@.len(),
{
    let tree = chars_of("tree:");
    let mut cur = p;
    let mut k: usize = 0;
    while k < path.len()
        invariant
            k <= path@.len(),
            cur < lines@.len(),
            tree@ == "tree:"@,
            walk(view_lines(lines@), cur as int, strings_view(path@), k as int) == walk(
                view_lines(lines@),
                p as int,
                strings_view(path@),
                0,
            ),
        decreases path.len() - k,
    {
        let name = chars_of(path[k].as_str());
        match find_child(lines, cur, &tree, &name) {
            None => {
                return Err(k);
            },
            Some(c) => {
                cur = c;
            },
        }
        k = k + 1;
    }
    Ok(cur)
}

fn copy_line(l: &Vec<char>) -> (r: Vec<char>)
    ensures
        r@ == l@,
{
    let e: Vec<char> = Vec::new();
    let r = concat(l.as_slice(), e.as_slice());
    assert(r@ =~= l@);
    r
}

/// The lines without those from `a` to `b`, both included.
fn cut_lines(lines: &Vec<Vec<char>>, a: usize, b: usize) -> (r: Vec<Vec<char>>)
    requires
        a <= b < lines@.len(),
    ensures
        view_lines(r@) == cut(view_lines(lines@), a as int, b as int),
{
    let ghost want = cut(view_lines(lines@), a as int, b as int);
    let mut r: Vec<Vec<char>> = Vec::new();
    let mut i: usize = 0;
    while i < lines.len()
        invariant
            a <= b < lines@.len(),
            i <= lines@.len(),
            want == cut(view_lines(lines@), a as int, b as int),
            i <= a ==> view_lines(r@) == view_lines(lines@).subrange(0, i as int),
            a < i <= b + 1 ==> view_lines(r@) == view_lines(lines@).subrange(0, a as int),
            i > b + 1 ==> view_lines(r@) == view_lines(lines@).subrange(0, a as int) + view_lines(
                lines@,
            ).subrange(b + 1, i as int),
        decreases lines.len() - i,
    {
        if i < a || i > b {
            let ghost before = view_lines(r@);
            r.push(copy_line(&lines[i]));
            assert(view_lines(r@) =~= before.push(view_lines(lines@)[i as int]));
            if i < a {
                assert(view_lines(r@) =~= view_lines(lines@).subrange(0, i + 1));
            } else {
                assert(view_lines(r@) =~= view_lines(lines@).subrange(0, a as int) + view_lines(
                    lines@,
                ).subrange(b + 1, i + 1));
            }
        } else if i == b {
            assert(view_lines(r@) =~= view_lines(lines@).subrange(0, a as int) + view_lines(
                lines@,
            ).subrange(b + 1, b + 1));
        }
        i = i + 1;
    }
    assert(view_lines(r@) =~= want);
    r
}

/// Removes the entry `name` from the `key` section of the node that `path` reaches
/// from the line of project `project`.
fn remove_in(
    yaml_content: &str,
    project: usize,
    path: &Vec<String>,
    key: &str,
    name: &String,
) -> (r: Result<String, EditError>)
    ensures
        reports(
            r,
            removal(lines_of(yaml_content@), project as int, strings_view(path@), key@, name@),
            yaml_content@,
            strings_view(path@),
            name@,
            project as int,
        ),
{
    let text = chars_of(yaml_content);
    let lines = split_lines(text.as_slice());
    let ghost ls = view_lines(lines@);
    let ps = project_line(&lines, project);
    if ps >= lines.len() {
        return Err(EditError::ProjectNotFound(project));
    }
    let owner = match follow(&lines, ps, path) {
        Ok(o) => o,
        Err(k) => {
            return Err(EditError::MissingSegment(path[k].clone()));
        },
    };
    let k = chars_of(key);
    let n = chars_of(name.as_str());
    let c = match find_child(&lines, owner, &k, &n) {
        Some(c) => c,
        None => {
            return Err(EditError::EntryNotFound(name.clone()));
        },
    };
    let last = last_of_block(&lines, c);
    let rest = cut_lines(&lines, c, last);
    let section = find_section(&lines, owner, &k);
    let n_rest = rest.len();
    let j = scan(&rest, section + 1, n_rest, &Probe::Filled);
    let dash = chars_of("- ");
    proof {
        reveal_strlit("- ");
    }
    let has = j < n_rest && line_indent(rest[j].as_slice()) > line_indent(rest[section].as_slice())
        && trimmed_starts_with(rest[j].as_slice(), dash.as_slice());
    assert(has == has_entries(view_lines(rest@), section as int));
    if has {
        Ok(edited(&rest, &lines, yaml_content, &text))
    } else {
        let result = cut_lines(&rest, section, section);
        Ok(edited(&result, &lines, yaml_content, &text))
    }
}

/// A directory entry to add, with what it holds.
#[derive(Debug)]
pub struct AddChild {
    pub name: String,
    pub is_directory: bool,
    pub children: Vec<AddChild>,
}

/// The lines with `new` put before line `pos`.
pub open spec fn insert_at(ls: Seq<Seq<char>>, pos: int, new: Seq<Seq<char>>) -> Seq<Seq<char>> {
    ls.subrange(0, pos) + new + ls.subrange(pos, ls.len() as int)
}

/// The entry line of `name` in a section of a node indented `d`.
pub open spec fn entry_line(d: int, name: Seq<char>) -> Seq<char> {
    spaces(d as nat) + spaces(4) + anchor_of(name)
}

/// The `key` line of a section of a node indented `d`.
pub open spec fn key_line(d: int, key: Seq<char>) -> Seq<char> {
    spaces(d as nat) + spaces(2) + key
}

/// Makes sure the node on line `o` has a child node `name`, appending it at the end of
/// its `tree:` section (made at the end of the node when missing): the new lines and
/// the line of that child.
pub open spec fn ensure_node(ls: Seq<Seq<char>>, o: int, name: Seq<char>) -> (Seq<Seq<char>>, int) {
    let c = child(ls, o, "tree:"@, name);
    let d = indent_of(ls[o]);
    let t = section_of(ls, o, "tree:"@);
    if c >= 0 {
        (ls, c)
    } else if t < block_stop(ls, o) {
        let pos = block_last(ls, t) + 1;
        (insert_at(ls, pos, seq![entry_line(d, name)]), pos)
    } else {
        let pos = block_last(ls, o) + 1;
        (insert_at(ls, pos, seq![key_line(d, "tree:"@), entry_line(d, name)]), pos + 1)
    }
}

/// Makes sure the node on line `o` lists file `name`, appending it at the end of its
/// `file:` section; a missing section is made before the `tree:` section, or at the
/// end of the node when that is missing too.
pub open spec fn ensure_file(ls: Seq<Seq<char>>, o: int, name: Seq<char>) -> Seq<Seq<char>> {
    let d = indent_of(ls[o]);
    let f = section_of(ls, o, "file:"@);
    let t = section_of(ls, o, "tree:"@);
    let new_section = seq![key_line(d, "file:"@), entry_line(d, name)];
    if child(ls, o, "file:"@, name) >= 0 {
        ls
    } else if f < block_stop(ls, o) {
        insert_at(ls, block_last(ls, f) + 1, seq![entry_line(d, name)])
    } else if t < block_stop(ls, o) {
        insert_at(ls, t, new_section)
    } else {
        insert_at(ls, block_last(ls, o) + 1, new_section)
    }
}

/// Makes sure the nodes `path[k..]` exist below the node on line `o`: the new lines
/// and the line of the last node.
pub open spec fn ensure_path(ls: Seq<Seq<char>>, o: int, path: Seq<Seq<char>>, k: int) -> (Seq<
    Seq<char>,
>, int)
    decreases path.len() - k,
{
    if k < 0 || k >= path.len() {
        (ls, o)
    } else {
        let (ls2, c) = ensure_node(ls, o, path[k]);
        ensure_path(ls2, c, path, k + 1)
    }
}

/// Adds one found entry below the node on line `o`: a directory as a child node with
/// its own entries below it, a file by its layout name.
pub open spec fn add_child(ls: Seq<Seq<char>>, o: int, c: AddChild, lang: Seq<char>) -> Seq<
    Seq<char>,
>
    decreases c, c.children@.len() + 1,
{
    if c.is_directory {
        let (ls2, n) = ensure_node(ls, o, c.name@);
        add_children(ls2, n, c, lang, 0)
    } else {
        ensure_file(ls, o, entry_name(c.name@, lang))
    }
}

/// Adds the entries of `c` from the `k`-th on below the node on line `o`.
pub open spec fn add_children(ls: Seq<Seq<char>>, o: int, c: AddChild, lang: Seq<char>, k: int) -> Seq<
    Seq<char>,
>
    decreases c, c.children@.len() - k,
{
    if k < 0 || k >= c.children@.len() {
        ls
    } else {
        add_children(add_child(ls, o, c.children@[k], lang), o, c, lang, k + 1)
    }
}

/// Adds the entries `cs[k..]` below the node on line `o`.
pub open spec fn add_list(ls: Seq<Seq<char>>, o: int, cs: Seq<AddChild>, lang: Seq<char>, k: int) -> Seq<
    Seq<char>,
>
    decreases cs.len() - k,
{
    if k < 0 || k >= cs.len() {
        ls
    } else {
        add_list(add_child(ls, o, cs[k], lang), o, cs, lang, k + 1)
    }
}

/// Addition of a directory (with what it holds) or of a file at `path`, relative to
/// project `project`; what already stands is left as it is.
pub open spec fn addition(
    ls: Seq<Seq<char>>,
    project: int,
    path: Seq<Seq<char>>,
    directory: bool,
    lang: Seq<char>,
    children: Seq<AddChild>,
) -> Outcome {
    let ps = nth_header(ls, 0, project);
    if path.len() == 0 {
        Outcome::EmptyPath
    } else if ps >= ls.len() {
        Outcome::NoProject
    } else if directory {
        let (ls2, n) = ensure_path(ls, ps, path, 0);
        Outcome::Done(add_list(ls2, n, children, lang, 0))
    } else {
        let (ls2, o) = ensure_path(ls, ps, path.drop_last(), 0);
        Outcome::Done(ensure_file(ls2, o, entry_name(path.last(), lang)))
    }
}

pub(crate) fn append_lines(r: &mut Vec<Vec<char>>, src: &Vec<Vec<char>>, from: usize, to: usize)
    requires
        from <= to <= src@.len(),
    ensures
        view_lines(final(r)@) == view_lines(old(r)@) + view_lines(src@).subrange(
            from as int,
            to as int,
        ),
{
    let ghost start = view_lines(r@);
    let mut i = from;
    while i < to
        invariant
            from <= i <= to <= src@.len(),
            view_lines(r@) == start + view_lines(src@).subrange(from as int, i as int),
        decreases to - i,
    {
        let ghost before = view_lines(r@);
        r.push(copy_line(&src[i]));
        assert(view_lines(r@) =~= before.push(view_lines(src@)[i as int]));
        assert(view_lines(r@) =~= start + view_lines(src@).subrange(from as int, i + 1));
        i = i + 1;
    }
}

/// The lines with `new` put before line `pos`.
fn insert_lines(lines: &Vec<Vec<char>>, pos: usize, new: &Vec<Vec<char>>) -> (r: Vec<Vec<char>>)
    requires
        pos <= lines@.len(),
    ensures
        view_lines(r@) == insert_at(view_lines(lines@), pos as int, view_lines(new@)),
        r@.len() == lines@.len() + new@.len(),
{
    let mut r: Vec<Vec<char>> = Vec::new();
    append_lines(&mut r, lines, 0, pos);
    append_lines(&mut r, new, 0, new.len());
    append_lines(&mut r, lines, pos, lines.len());
    assert(view_lines(new@).subrange(0, new@.len() as int) =~= view_lines(new@));
    assert(view_lines(r@) =~= insert_at(view_lines(lines@), pos as int, view_lines(new@)));
    r
}

fn entry_line_of(d: usize, name: &Vec<char>) -> (r: Vec<char>)
    ensures
        r@ == entry_line(d as int, name@),
{
    let sp = make_spaces(d);
    let four = chars_of("    ");
    let prefix = chars_of("- name: ");
    proof {
        reveal_strlit("    ");
    }
    assert(four@ =~= spaces(4));
    let a = concat(sp.as_slice(), four.as_slice());
    let b = concat(a.as_slice(), prefix.as_slice());
    let r = concat(b.as_slice(), name.as_slice());
    assert(r@ =~= entry_line(d as int, name@));
    r
}

fn key_line_of(d: usize, key: &str) -> (r: Vec<char>)
    ensures
        r@ == key_line(d as int, key@),
{
    let sp = make_spaces(d);
    let two = chars_of("  ");
    let k = chars_of(key);
    proof {
        reveal_strlit("  ");
    }
    assert(two@ =~= spaces(2));
    let a = concat(sp.as_slice(), two.as_slice());
    let r = concat(a.as_slice(), k.as_slice());
    assert(r@ =~= key_line(d as int, key@));
    r
}

/// Makes sure the node on line `o` has a child node `name`.
fn ensure_node_at(lines: Vec<Vec<char>>, o: usize, name: &Vec<char>) -> (r: (Vec<Vec<char>>, usize))
    requires
        o < lines@.len(),
    ensures
        (view_lines(r.0@), r.1 as int) == ensure_node(view_lines(lines@), o as int, name@),
        r.1 < r.0@.len(),
        r.0@.len() >= lines@.len(),
{
    let tree = chars_of("tree:");
    match find_child(&lines, o, &tree, name) {
        Some(c) => {
            return (lines, c);
        },
        None => {},
    }
    let total = lines.len();
    let d = line_indent(lines[o].as_slice());
    let stop = stop_after(&lines, o);
    let t = find_section(&lines, o, &tree);
    if t < stop {
        let pos = last_of_block(&lines, t) + 1;
        let mut new: Vec<Vec<char>> = Vec::new();
        new.push(entry_line_of(d, name));
        assert(view_lines(new@) =~= seq![entry_line(d as int, name@)]);
        let r = insert_lines(&lines, pos, &new);
        (r, pos)
    } else {
        let pos = last_of_block(&lines, o) + 1;
        let mut new: Vec<Vec<char>> = Vec::new();
        new.push(key_line_of(d, "tree:"));
        new.push(entry_line_of(d, name));
        assert(view_lines(new@) =~= seq![key_line(d as int, "tree:"@), entry_line(d as int, name@)]);
        let r = insert_lines(&lines, pos, &new);
        let rn = r.len();
        assert(pos + 1 < rn);
        (r, pos + 1)
    }
}

/// Makes sure the node on line `o` lists file `name`.
fn ensure_file_at(lines: Vec<Vec<char>>, o: usize, name: &Vec<char>) -> (r: Vec<Vec<char>>)
    requires
        o < lines@.len(),
    ensures
        view_lines(r@) == ensure_file(view_lines(lines@), o as int, name@),
        r@.len() >= lines@.len(),
{
    let file = chars_of("file:");
    let tree = chars_of("tree:");
    if find_child(&lines, o, &file, name).is_some() {
        return lines;
    }
    let total = lines.len();
    let d = line_indent(lines[o].as_slice());
    let stop = stop_after(&lines, o);
    let f = find_section(&lines, o, &file);
    if f < stop {
        let pos = last_of_block(&lines, f) + 1;
        let mut new: Vec<Vec<char>> = Vec::new();
        new.push(entry_line_of(d, name));
        assert(view_lines(new@) =~= seq![entry_line(d as int, name@)]);
        return insert_lines(&lines, pos, &new);
    }
    let mut new: Vec<Vec<char>> = Vec::new();
    new.push(key_line_of(d, "file:"));
    new.push(entry_line_of(d, name));
    assert(view_lines(new@) =~= seq![key_line(d as int, "file:"@), entry_line(d as int, name@)]);
    let t = find_section(&lines, o, &tree);
    if t < stop {
        insert_lines(&lines, t, &new)
    } else {
        let pos = last_of_block(&lines, o) + 1;
        insert_lines(&lines, pos, &new)
    }
}

/// Makes sure the nodes named by the first `upto` segments exist below line `o`.
fn ensure_path_at(lines: Vec<Vec<char>>, o: usize, path: &[String], upto: usize) -> (r: (
    Vec<Vec<char>>,
    usize,
))
    requires
        o < lines@.len(),
        upto <= path@.len(),
    ensures
        (view_lines(r.0@), r.1 as int) == ensure_path(
            view_lines(lines@),
            o as int,
            strings_view(path@).take(upto as int),
            0,
        ),
        r.1 < r.0@.len(),
        r.0@.len() >= lines@.len(),
{
    let ghost want = ensure_path(view_lines(lines@), o as int, strings_view(path@).take(upto as int), 0);
    let ghost pv = strings_view(path@).take(upto as int);
    let mut cur = lines;
    let mut at = o;
    let mut k: usize = 0;
    while k < upto
        invariant
            k <= upto <= path@.len(),
            at < cur@.len(),
            cur@.len() >= lines@.len(),
            pv == strings_view(path@).take(upto as int),
            ensure_path(view_lines(cur@), at as int, pv, k as int) == want,
        decreases upto - k,
    {
        let name = chars_of(path[k].as_str());
        assert(name@ == pv[k as int]);
        let (next, c) = ensure_node_at(cur, at, &name);
        cur = next;
        at = c;
        k = k + 1;
    }
    (cur, at)
}

/// Adds one found entry below the node on line `o`.
fn add_child_at(lines: Vec<Vec<char>>, o: usize, c: &AddChild, language: &str) -> (r: Vec<Vec<char>>)
    requires
        o < lines@.len(),
    ensures
        view_lines(r@) == add_child(view_lines(lines@), o as int, *c, language@),
        r@.len() >= lines@.len(),
    decreases c, c.children@.len() + 1,
{
    if c.is_directory {
        let name = chars_of(c.name.as_str());
        let (cur0, n) = ensure_node_at(lines, o, &name);
        let ghost start = view_lines(cur0@);
        let mut cur = cur0;
        let mut k: usize = 0;
        while k < c.children.len()
            invariant
                k <= c.children@.len(),
                n < cur@.len(),
                cur@.len() >= lines@.len(),
                add_children(view_lines(cur@), n as int, *c, language@, k as int) == add_children(
                    start,
                    n as int,
                    *c,
                    language@,
                    0,
                ),
            decreases c.children@.len() - k,
        {
            cur = add_child_at(cur, n, &c.children[k], language);
            k = k + 1;
        }
        cur
    } else {
        let stem = FilesystemScanner::filename_without_standard_extension(c.name.as_str(), language);
        let sc = chars_of(stem.as_str());
        ensure_file_at(lines, o, &sc)
    }
}

/// Edits the layout document line by line.
pub struct YamlModifier;

impl YamlModifier {
    /// Removes a managed entry from the document: a directory from its parent's
    /// `tree:` section, a file from its owner's `file:` section, together with every
    /// deeper line below it; sections left empty go too.
    pub fn remove_entry(yaml_content: &str, target: &ManagedFile) -> (r: Result<String, EditError>)
        ensures
            reports(
                r,
                removal(
                    lines_of(yaml_content@),
                    target.project_index as int,
                    strings_view(target.parent_modules@),
                    key_for(target.is_directory),
                    target.file_name@,
                ),
                yaml_content@,
                strings_view(target.parent_modules@),
                target.file_name@,
                target.project_index as int,
            ),
    {
        if target.is_directory {
            Self::remove_module_entry(yaml_content, target)
        } else {
            Self::remove_file_entry(yaml_content, target)
        }
    }

    /// Removes a file entry, with its deeper lines, from its owner's `file:` section.
    pub fn remove_file_entry(yaml_content: &str, target: &ManagedFile) -> (r: Result<String, EditError>)
        ensures
            reports(
                r,
                removal(
                    lines_of(yaml_content@),
                    target.project_index as int,
                    strings_view(target.parent_modules@),
                    "file:"@,
                    target.file_name@,
                ),
                yaml_content@,
                strings_view(target.parent_modules@),
                target.file_name@,
                target.project_index as int,
            ),
    {
        remove_in(
            yaml_content,
            target.project_index,
            &target.parent_modules,
            "file:",
            &target.file_name,
        )
    }

    /// Removes a module entry and everything below it from its parent's `tree:`
    /// section.
    pub fn remove_module_entry(yaml_content: &str, target: &ManagedFile) -> (r: Result<String, EditError>)
        ensures
            reports(
                r,
                removal(
                    lines_of(yaml_content@),
                    target.project_index as int,
                    strings_view(target.parent_modules@),
                    "tree:"@,
                    target.file_name@,
                ),
                yaml_content@,
                strings_view(target.parent_modules@),
                target.file_name@,
                target.project_index as int,
            ),
    {
        remove_in(
            yaml_content,
            target.project_index,
            &target.parent_modules,
            "tree:",
            &target.file_name,
        )
    }

    /// Adds a file, or a directory with the entries found in it, to the project
    /// `project_index`. `path_segments` is relative to the project; a file's name loses
    /// the language's standard extension. Missing nodes on the way are made; what
    /// already stands is left as it is, so adding twice changes nothing more.
    pub fn add_entry(
        yaml_content: &str,
        project_index: usize,
        path_segments: &[String],
        is_directory: bool,
        language: &str,
        children: &[AddChild],
    ) -> (r: Result<String, EditError>)
        ensures
            reports(
                r,
                addition(
                    lines_of(yaml_content@),
                    project_index as int,
                    strings_view(path_segments@),
                    is_directory,
                    language@,
                    children@,
                ),
                yaml_content@,
                strings_view(path_segments@),
                Seq::empty(),
                project_index as int,
            ),
    {
        if path_segments.len() == 0 {
            return Err(EditError::EmptyPath);
        }
        let text = chars_of(yaml_content);
        let lines = split_lines(text.as_slice());
        let ps = project_line(&lines, project_index);
        if ps >= lines.len() {
            return Err(EditError::ProjectNotFound(project_index));
        }
        let n = path_segments.len();
        let ghost pv = strings_view(path_segments@);
        let lines0 = copy_lines(&lines);
        if is_directory {
            let (cur0, node) = ensure_path_at(lines, ps, path_segments, n);
            assert(pv.take(n as int) =~= pv);
            let ghost start = view_lines(cur0@);
            let mut cur = cur0;
            let mut k: usize = 0;
            while k < children.len()
                invariant
                    k <= children@.len(),
                    node < cur@.len(),
                    add_list(view_lines(cur@), node as int, children@, language@, k as int)
                        == add_list(start, node as int, children@, language@, 0),
                decreases children@.len() - k,
            {
                cur = add_child_at(cur, node, &children[k], language);
                k = k + 1;
            }
            Ok(edited(&cur, &lines0, yaml_content, &text))
        } else {
            let (cur, owner) = ensure_path_at(lines, ps, path_segments, n - 1);
            assert(pv.take(n - 1) =~= pv.drop_last());
            let stem = FilesystemScanner::filename_without_standard_extension(
                path_segments[n - 1].as_str(),
                language,
            );
            let sc = chars_of(stem.as_str());
            let result = ensure_file_at(cur, owner, &sc);
            Ok(edited(&result, &lines0, yaml_content, &text))
        }
    }
}

pub(crate) proof fn lemma_existing_path(ls: Seq<Seq<char>>, p: int, path: Seq<Seq<char>>, k: int)
    requires
        walk(ls, p, path, k) is Ok,
    ensures
        ensure_path(ls, p, path, k) == (ls, walk(ls, p, path, k)->Ok_0),
    decreases path.len() - k,
{
    if 0 <= k < path.len() {
        lemma_existing_path(ls, child(ls, p, "tree:"@, path[k]), path, k + 1);
    }
}

/// Adding what the document already lists changes nothing: when every node on the
/// path exists and the file is listed under the last one, the addition keeps every
/// line and gives back the very same text.
pub proof fn lemma_add_listed_file_is_noop(
    text: Seq<char>,
    project: int,
    path: Seq<Seq<char>>,
    lang: Seq<char>,
)
    requires
        path.len() > 0,
        nth_header(lines_of(text), 0, project) < lines_of(text).len(),
        walk(lines_of(text), nth_header(lines_of(text), 0, project), path.drop_last(), 0) is Ok,
        child(
            lines_of(text),
            walk(lines_of(text), nth_header(lines_of(text), 0, project), path.drop_last(), 0)->Ok_0,
            "file:"@,
            entry_name(path.last(), lang),
        ) >= 0,
    ensures
        addition(lines_of(text), project, path, false, lang, Seq::empty()) == Outcome::Done(
            lines_of(text),
        ),
        edited_text(lines_of(text), text) == text,
{
    let ls = lines_of(text);
    lemma_existing_path(ls, nth_header(ls, 0, project), path.drop_last(), 0);
}

/// Adding a directory that the document already lists, with nothing found inside
/// it, changes nothing.
pub proof fn lemma_add_listed_directory_is_noop(
    text: Seq<char>,
    project: int,
    path: Seq<Seq<char>>,
    lang: Seq<char>,
)
    requires
        path.len() > 0,
        nth_header(lines_of(text), 0, project) < lines_of(text).len(),
        walk(lines_of(text), nth_header(lines_of(text), 0, project), path, 0) is Ok,
    ensures
        addition(lines_of(text), project, path, true, lang, Seq::empty()) == Outcome::Done(
            lines_of(text),
        ),
        edited_text(lines_of(text), text) == text,
{
    let ls = lines_of(text);
    lemma_existing_path(ls, nth_header(ls, 0, project), path, 0);
}

} // verus!
