use vstd::prelude::*;

use crate::model::{file_name_for, language_of, module_name, CodeFile, Language, MoliConfig, Module, Project};
use crate::text::{chars_of, concat, string_of};

verus! {

/// A file or directory that the layout claims.
#[derive(Debug)]
pub struct ManagedFile {
    /// Path shown to users; directories end with `/`.
    pub display_path: String,
    /// Index of the owning project.
    pub project_index: usize,
    /// The file or module name as the layout writes it.
    pub file_name: String,
    /// Names of the modules from the project root down to the entry's parent.
    pub parent_modules: Vec<String>,
    /// Whether the file sits directly under the project.
    pub is_project_level: bool,
    /// Whether the entry is a module directory.
    pub is_directory: bool,
}

/// What a managed entry says, as mathematical values.
pub struct ManagedView {
    pub path: Seq<char>,
    pub project: int,
    pub name: Seq<char>,
    pub parent_modules: Seq<Seq<char>>,
    pub project_level: bool,
    pub directory: bool,
}

/// The characters of each string.
pub open spec fn strings_view(v: Seq<String>) -> Seq<Seq<char>> {
    Seq::new(v.len(), |i: int| v[i]@)
}

impl View for ManagedFile {
    type V = ManagedView;

    open spec fn view(&self) -> ManagedView {
        ManagedView {
            path: self.display_path@,
            project: self.project_index as int,
            name: self.file_name@,
            parent_modules: strings_view(self.parent_modules@),
            project_level: self.is_project_level,
            directory: self.is_directory,
        }
    }
}

/// The view of each entry.
pub open spec fn entries_view(v: Seq<ManagedFile>) -> Seq<ManagedView> {
    Seq::new(v.len(), |i: int| v[i]@)
}

/// Names joined with `/`.
pub open spec fn join_path(parts: Seq<Seq<char>>) -> Seq<char>
    decreases parts.len(),
{
    if parts.len() == 0 {
        Seq::empty()
    } else if parts.len() == 1 {
        parts[0]
    } else {
        join_path(parts.drop_last()) + "/"@ + parts.last()
    }
}

/// Where a project's paths start: nothing for the root project, else its name and `/`.
pub open spec fn base_of(p: Project) -> Seq<char> {
    if p.root {
        Seq::empty()
    } else {
        p.name@ + "/"@
    }
}

/// The entries of some files that sit in directory `dir`.
pub open spec fn file_entries(
    dir: Seq<char>,
    files: Seq<CodeFile>,
    lang: Language,
    project: int,
    parent_modules: Seq<Seq<char>>,
    project_level: bool,
) -> Seq<ManagedView> {
    Seq::new(
        files.len(),
        |k: int|
            ManagedView {
                path: dir + file_name_for(files[k].name@, lang),
                project,
                name: files[k].name@,
                parent_modules,
                project_level,
                directory: false,
            },
    )
}

/// The entries of a module: its directory, then its files, then its children in order.
pub open spec fn module_entries(
    base: Seq<char>,
    m: Module,
    lang: Language,
    project: int,
    parents: Seq<Seq<char>>,
) -> Seq<ManagedView>
    decreases m, m.tree@.len() + 1,
{
    let cur = parents.push(module_name(m));
    let dir = base + join_path(cur) + "/"@;
    seq![
        ManagedView {
            path: dir,
            project,
            name: module_name(m),
            parent_modules: parents,
            project_level: false,
            directory: true,
        },
    ] + file_entries(dir, m.file@, lang, project, cur, false) + subtree_entries(
        base,
        m,
        lang,
        project,
        cur,
        0,
    )
}

/// The entries of the children of `m` from the `k`-th on.
pub open spec fn subtree_entries(
    base: Seq<char>,
    m: Module,
    lang: Language,
    project: int,
    cur: Seq<Seq<char>>,
    k: int,
) -> Seq<ManagedView>
    decreases m, m.tree@.len() - k,
{
    if k < 0 || k >= m.tree@.len() {
        Seq::empty()
    } else {
        module_entries(base, m.tree@[k], lang, project, cur) + subtree_entries(
            base,
            m,
            lang,
            project,
            cur,
            k + 1,
        )
    }
}

/// The entries of the first `k` top-level modules of a project.
pub open spec fn tree_entries(p: Project, project: int, k: int) -> Seq<ManagedView>
    decreases k,
{
    if k <= 0 || k > p.tree@.len() {
        Seq::empty()
    } else {
        tree_entries(p, project, k - 1) + module_entries(
            base_of(p),
            p.tree@[k - 1],
            language_of(p.lang@),
            project,
            Seq::empty(),
        )
    }
}

/// The entries of a project: its own files, then its modules in pre-order.
pub open spec fn project_entries(p: Project, project: int) -> Seq<ManagedView> {
    file_entries(base_of(p), p.file@, language_of(p.lang@), project, Seq::empty(), true)
        + tree_entries(p, project, p.tree@.len() as int)
}

/// The entries of the first `n` projects.
pub open spec fn config_entries(ps: Seq<Project>, n: int) -> Seq<ManagedView>
    decreases n,
{
    if n <= 0 || n > ps.len() {
        Seq::empty()
    } else {
        config_entries(ps, n - 1) + project_entries(ps[n - 1], n - 1)
    }
}

/// All entries that a layout claims, in the order described above.
pub open spec fn all_entries(c: MoliConfig) -> Seq<ManagedView> {
    config_entries(c.projects@, c.projects@.len() as int)
}

/// Derives the managed paths of a layout.
pub struct PathCollector;

fn copy_strings(v: &Vec<String>) -> (r: Vec<String>)
    ensures
        r@ == v@,
{
    let mut r: Vec<String> = Vec::new();
    let mut i: usize = 0;
    while i < v.len()
        invariant
            i <= v@.len(),
            r@ == v@.take(i as int),
        decreases v.len() - i,
    {
        r.push(v[i].clone());
        assert(r@ =~= v@.take(i + 1));
        i = i + 1;
    }
    assert(v@.take(v@.len() as int) =~= v@);
    r
}

fn copy_entry(e: &ManagedFile) -> (r: ManagedFile)
    ensures
        r@ == e@,
{
    ManagedFile {
        display_path: e.display_path.clone(),
        project_index: e.project_index,
        file_name: e.file_name.clone(),
        parent_modules: copy_strings(&e.parent_modules),
        is_project_level: e.is_project_level,
        is_directory: e.is_directory,
    }
}

fn joined(parts: &Vec<String>) -> (r: Vec<char>)
    ensures
        r@ == join_path(strings_view(parts@)),
{
    let mut r: Vec<char> = Vec::new();
    let slash = chars_of("/");
    let mut k: usize = 0;
    while k < parts.len()
        invariant
            k <= parts@.len(),
            slash@ == "/"@,
            r@ == join_path(strings_view(parts@).take(k as int)),
        decreases parts.len() - k,
    {
        let ghost prev = strings_view(parts@).take(k as int);
        let ghost next = strings_view(parts@).take(k + 1);
        assert(next.drop_last() =~= prev);
        let c = chars_of(parts[k].as_str());
        if k == 0 {
            r = c;
        } else {
            let r1 = concat(r.as_slice(), slash.as_slice());
            r = concat(r1.as_slice(), c.as_slice());
        }
        k = k + 1;
    }
    assert(strings_view(parts@).take(parts@.len() as int) =~= strings_view(parts@));
    r
}

fn push_file_entries(
    dir: &[char],
    files: &[CodeFile],
    language: &str,
    project_index: usize,
    parent_modules: &Vec<String>,
    project_level: bool,
    entries: &mut Vec<ManagedFile>,
)
    ensures
        entries_view(final(entries)@) == entries_view(old(entries)@) + file_entries(
            dir@,
            files@,
            language_of(language@),
            project_index as int,
            strings_view(parent_modules@),
            project_level,
        ),
{
    let ghost start = entries_view(old(entries)@);
    let ghost want = file_entries(
        dir@,
        files@,
        language_of(language@),
        project_index as int,
        strings_view(parent_modules@),
        project_level,
    );
    let mut k: usize = 0;
    while k < files.len()
        invariant
            k <= files@.len(),
            want.len() == files@.len(),
            want == file_entries(
                dir@,
                files@,
                language_of(language@),
                project_index as int,
                strings_view(parent_modules@),
                project_level,
            ),
            entries_view(entries@) == start + want.take(k as int),
        decreases files.len() - k,
    {
        let f = &files[k];
        let filename = f.filename_with_extension(language);
        let fc = chars_of(filename.as_str());
        let p = concat(dir, fc.as_slice());
        let e = ManagedFile {
            display_path: string_of(p.as_slice()),
            project_index,
            file_name: f.name.clone(),
            parent_modules: copy_strings(parent_modules),
            is_project_level: project_level,
            is_directory: false,
        };
        assert(e@ == want[k as int]);
        let ghost before = entries_view(entries@);
        entries.push(e);
        assert(entries_view(entries@) =~= before.push(want[k as int]));
        assert(want.take(k + 1) =~= want.take(k as int).push(want[k as int]));
        assert(entries_view(entries@) =~= start + want.take(k + 1));
        k = k + 1;
    }
    assert(want.take(files@.len() as int) =~= want);
}

impl PathCollector {
    /// All managed files and directories of the layout: for each project its own
    /// files, then its modules in pre-order (a directory before its files and children).
    pub fn collect_all_entries(config: &MoliConfig) -> (r: Vec<ManagedFile>)
        ensures
            entries_view(r@) == all_entries(*config),
    {
        let mut entries: Vec<ManagedFile> = Vec::new();
        let ps = &config.projects;
        let mut i: usize = 0;
        while i < ps.len()
            invariant
                i <= ps@.len(),
                entries_view(entries@) == config_entries(ps@, i as int),
            decreases ps.len() - i,
        {
            let project = &ps[i];
            let base: Vec<char> = if project.root {
                Vec::new()
            } else {
                let n = chars_of(project.name.as_str());
                let s = chars_of("/");
                concat(n.as_slice(), s.as_slice())
            };
            assert(base@ == base_of(*project));
            let none: Vec<String> = Vec::new();
            assert(strings_view(none@) =~= Seq::<Seq<char>>::empty());
            push_file_entries(
                base.as_slice(),
                project.file.as_slice(),
                project.lang.as_str(),
                i,
                &none,
                true,
                &mut entries,
            );
            let mut k: usize = 0;
            while k < project.tree.len()
                invariant
                    i < ps@.len(),
                    *project == ps@[i as int],
                    k <= project.tree@.len(),
                    base@ == base_of(*project),
                    strings_view(none@) == Seq::<Seq<char>>::empty(),
                    entries_view(entries@) == config_entries(ps@, i as int) + file_entries(
                        base_of(*project),
                        project.file@,
                        language_of(project.lang@),
                        i as int,
                        Seq::empty(),
                        true,
                    ) + tree_entries(*project, i as int, k as int),
                decreases project.tree.len() - k,
            {
                Self::collect_module_entries(
                    base.as_slice(),
                    &project.tree[k],
                    project.lang.as_str(),
                    i,
                    &none,
                    &mut entries,
                );
                k = k + 1;
            }
            proof {
                assert(config_entries(ps@, i + 1) == config_entries(ps@, i as int) + project_entries(
                    ps@[i as int],
                    i as int,
                ));
            }
            i = i + 1;
        }
        entries
    }

    /// Only the files among the managed entries.
    pub fn collect_all_files(config: &MoliConfig) -> (r: Vec<ManagedFile>)
        ensures
            entries_view(r@) == all_entries(*config).filter(|e: ManagedView| !e.directory),
    {
        let all = Self::collect_all_entries(config);
        let ghost full = entries_view(all@);
        let mut out: Vec<ManagedFile> = Vec::new();
        let mut i: usize = 0;
        while i < all.len()
            invariant
                i <= all@.len(),
                full == entries_view(all@),
                entries_view(out@) == full.take(i as int).filter(|e: ManagedView| !e.directory),
            decreases all.len() - i,
        {
            assert(full.take(i + 1).drop_last() =~= full.take(i as int));
            reveal(Seq::filter);
            if !all[i].is_directory {
                out.push(copy_entry(&all[i]));
                assert(entries_view(out@) =~= full.take(i + 1).filter(|e: ManagedView| !e.directory));
            }
            i = i + 1;
        }
        assert(full.take(all@.len() as int) =~= full);
        out
    }

    /// Appends the entries of one module and everything below it.
    fn collect_module_entries(
        base: &[char],
        module: &Module,
        language: &str,
        project_index: usize,
        parents: &Vec<String>,
        entries: &mut Vec<ManagedFile>,
    )
        ensures
            entries_view(final(entries)@) == entries_view(old(entries)@) + module_entries(
                base@,
                *module,
                language_of(language@),
                project_index as int,
                strings_view(parents@),
            ),
        decreases module, module.tree@.len() + 1,
    {
        let ghost start = entries_view(old(entries)@);
        let ghost lang = language_of(language@);
        let module_name = module.name();
        let mut current = copy_strings(parents);
        current.push(module_name.clone());
        let ghost cur = strings_view(current@);
        assert(cur =~= strings_view(parents@).push(crate::model::module_name(*module)));
        let j = joined(&current);
        let slash = chars_of("/");
        let d0 = concat(base, j.as_slice());
        let dir = concat(d0.as_slice(), slash.as_slice());
        entries.push(
            ManagedFile {
                display_path: string_of(dir.as_slice()),
                project_index,
                file_name: module_name,
                parent_modules: copy_strings(parents),
                is_project_level: false,
                is_directory: true,
            },
        );
        push_file_entries(
            dir.as_slice(),
            module.file.as_slice(),
            language,
            project_index,
            &current,
            false,
            entries,
        );
        let ghost prefix = entries_view(entries@);
        assert(prefix == start + seq![
            ManagedView {
                path: dir@,
                project: project_index as int,
                name: crate::model::module_name(*module),
                parent_modules: strings_view(parents@),
                project_level: false,
                directory: true,
            },
        ] + file_entries(dir@, module.file@, lang, project_index as int, cur, false));
        assert(prefix =~= prefix + Self::done_children(base@, *module, lang, project_index as int, cur, 0));
        let mut k: usize = 0;
        while k < module.tree.len()
            invariant
                k <= module.tree@.len(),
                cur == strings_view(current@),
                lang == language_of(language@),
                entries_view(entries@) == prefix + Self::done_children(
                    base@,
                    *module,
                    lang,
                    project_index as int,
                    cur,
                    k as int,
                ),
            decreases module.tree.len() - k,
        {
            let ghost before = entries_view(entries@);
            Self::collect_module_entries(
                base,
                &module.tree[k],
                language,
                project_index,
                &current,
                entries,
            );
            let ghost me = module_entries(base@, module.tree@[k as int], lang, project_index as int, cur);
            let ghost dk = Self::done_children(base@, *module, lang, project_index as int, cur, k as int);
            assert(before == prefix + dk);
            assert(entries_view(entries@) == before + module_entries(
                base@,
                module.tree@[k as int],
                language_of(language@),
                project_index as int,
                strings_view(current@),
            ));
            assert(entries_view(entries@) == before + me);
            assert(Self::done_children(base@, *module, lang, project_index as int, cur, k + 1)
                == dk + me);
            assert(before + me =~= prefix + (dk + me));
            assert(entries_view(entries@) =~= prefix + Self::done_children(
                base@,
                *module,
                lang,
                project_index as int,
                cur,
                k + 1,
            ));
            k = k + 1;
        }
        proof {
            Self::lemma_done_children(base@, *module, lang, project_index as int, cur);
            assert(dir@ == base@ + join_path(cur) + "/"@);
        }
        assert(entries_view(entries@) =~= start + module_entries(
            base@,
            *module,
            lang,
            project_index as int,
            strings_view(parents@),
        ));
    }

    /// The entries of the first `k` children of `m`.
    spec fn done_children(
        base: Seq<char>,
        m: Module,
        lang: Language,
        project: int,
        cur: Seq<Seq<char>>,
        k: int,
    ) -> Seq<ManagedView>
        decreases k,
    {
        if k <= 0 || k > m.tree@.len() {
            Seq::empty()
        } else {
            Self::done_children(base, m, lang, project, cur, k - 1) + module_entries(
                base,
                m.tree@[k - 1],
                lang,
                project,
                cur,
            )
        }
    }

    proof fn lemma_done_children(
        base: Seq<char>,
        m: Module,
        lang: Language,
        project: int,
        cur: Seq<Seq<char>>,
    )
        ensures
            Self::done_children(base, m, lang, project, cur, m.tree@.len() as int)
                == subtree_entries(base, m, lang, project, cur, 0),
    {
        Self::lemma_split_children(base, m, lang, project, cur, m.tree@.len() as int);
    }

    proof fn lemma_split_children(
        base: Seq<char>,
        m: Module,
        lang: Language,
        project: int,
        cur: Seq<Seq<char>>,
        k: int,
    )
        requires
            0 <= k <= m.tree@.len(),
        ensures
            Self::done_children(base, m, lang, project, cur, k) + subtree_entries(
                base,
                m,
                lang,
                project,
                cur,
                k,
            ) == subtree_entries(base, m, lang, project, cur, 0),
        decreases k,
    {
        if k > 0 {
            Self::lemma_split_children(base, m, lang, project, cur, k - 1);
            assert(subtree_entries(base, m, lang, project, cur, k - 1) == module_entries(
                base,
                m.tree@[k - 1],
                lang,
                project,
                cur,
            ) + subtree_entries(base, m, lang, project, cur, k));
            assert(Self::done_children(base, m, lang, project, cur, k) + subtree_entries(
                base,
                m,
                lang,
                project,
                cur,
                k,
            ) =~= Self::done_children(base, m, lang, project, cur, k - 1) + subtree_entries(
                base,
                m,
                lang,
                project,
                cur,
                k - 1,
            ));
        } else {
            assert(Self::done_children(base, m, lang, project, cur, 0) + subtree_entries(
                base,
                m,
                lang,
                project,
                cur,
                0,
            ) =~= subtree_entries(base, m, lang, project, cur, 0));
        }
    }
}

/// `d` is the directory entry of the module that holds `e`: same project, the
/// module path of `e` ends with `d`'s module, and `d`'s path is a proper prefix of
/// `e`'s path.
pub open spec fn is_parent(d: ManagedView, e: ManagedView) -> bool {
    &&& d.directory
    &&& d.project == e.project
    &&& e.parent_modules.len() > 0
    &&& d.name == e.parent_modules.last()
    &&& d.parent_modules == e.parent_modules.drop_last()
    &&& d.path.len() < e.path.len()
    &&& e.path.subrange(0, d.path.len() as int) == d.path
}

/// Some entry before the `j`-th is its parent directory entry.
pub open spec fn parented(s: Seq<ManagedView>, j: int) -> bool {
    exists|i: int| 0 <= i < j && #[trigger] is_parent(s[i], s[j])
}

proof fn lemma_parented_after(t: Seq<ManagedView>, s: Seq<ManagedView>, j: int)
    requires
        0 <= j < s.len(),
        parented(s, j),
    ensures
        parented(t + s, t.len() + j),
{
    let i = choose|i: int| 0 <= i < j && #[trigger] is_parent(s[i], s[j]);
    assert((t + s)[t.len() + i] == s[i]);
    assert((t + s)[t.len() + j] == s[j]);
    assert(is_parent((t + s)[t.len() + i], (t + s)[t.len() + j]));
}

proof fn lemma_parented_before(s: Seq<ManagedView>, u: Seq<ManagedView>, j: int)
    requires
        0 <= j < s.len(),
        parented(s, j),
    ensures
        parented(s + u, j),
{
    let i = choose|i: int| 0 <= i < j && #[trigger] is_parent(s[i], s[j]);
    assert((s + u)[i] == s[i]);
    assert((s + u)[j] == s[j]);
}

proof fn lemma_join_push(parts: Seq<Seq<char>>, x: Seq<char>)
    requires
        parts.len() > 0,
    ensures
        join_path(parts.push(x)) == join_path(parts) + "/"@ + x,
{
    assert(parts.push(x).drop_last() =~= parts);
}

/// The entries of a module: its directory first, every other entry after its parent.
proof fn lemma_module_parents(
    base: Seq<char>,
    m: Module,
    lang: Language,
    project: int,
    parents: Seq<Seq<char>>,
)
    ensures
        ({
            let me = module_entries(base, m, lang, project, parents);
            let cur = parents.push(module_name(m));
            &&& me.len() > 0
            &&& me[0].directory
            &&& me[0].project == project
            &&& me[0].name == module_name(m)
            &&& me[0].parent_modules == parents
            &&& me[0].path == base + join_path(cur) + "/"@
            &&& forall|j: int| 1 <= j < me.len() ==> parented(me, j)
        }),
    decreases m, m.tree@.len() + 1,
{
    let me = module_entries(base, m, lang, project, parents);
    let cur = parents.push(module_name(m));
    let dir = base + join_path(cur) + "/"@;
    let head = seq![
        ManagedView {
            path: dir,
            project,
            name: module_name(m),
            parent_modules: parents,
            project_level: false,
            directory: true,
        },
    ];
    let files = file_entries(dir, m.file@, lang, project, cur, false);
    let sub = subtree_entries(base, m, lang, project, cur, 0);
    assert(me == head + files + sub);
    lemma_subtree_parents(base, m, lang, project, cur, 0);
    assert(cur.drop_last() =~= parents);
    assert forall|j: int| 1 <= j < me.len() implies parented(me, j) by {
        if j < 1 + files.len() {
            let f = m.file@[j - 1];
            assert(me[j] == files[j - 1]);
            let fname = file_name_for(f.name@, lang);
            if f.name@.contains('.') {
                let w = choose|w: int| 0 <= w < f.name@.len() && f.name@[w] == '.';
                assert(0 <= w < f.name@.len());
                assert(fname == f.name@);
                assert(fname.len() > 0);
            } else {
                reveal_strlit(".");
                assert(fname.len() > 0);
            }
            assert(me[j].path == dir + fname);
            assert(me[j].path.subrange(0, dir.len() as int) =~= dir);
            assert(is_parent(me[0], me[j]));
        } else {
            let k = j - 1 - files.len();
            assert(me[j] == sub[k]);
            if parented(sub, k) {
                lemma_parented_after(head + files, sub, k);
                assert(head + files + sub == me);
            } else {
                assert(sub[k].directory && sub[k].parent_modules == cur);
                assert(sub[k].path.len() > dir.len());
                assert(sub[k].path.subrange(0, dir.len() as int) == dir);
                assert(is_parent(me[0], me[j]));
            }
        }
    }
}

/// Each entry below the children of `m` comes after its parent, but the children's
/// own directories, which sit right below `dir`.
proof fn lemma_subtree_parents(
    base: Seq<char>,
    m: Module,
    lang: Language,
    project: int,
    cur: Seq<Seq<char>>,
    k: int,
)
    requires
        cur.len() > 0,
    ensures
        ({
            let st = subtree_entries(base, m, lang, project, cur, k);
            let dir = base + join_path(cur) + "/"@;
            forall|j: int|
                0 <= j < st.len() ==> parented(st, j) || (st[j].directory && st[j].project
                    == project && st[j].parent_modules == cur && st[j].path.len() > dir.len()
                    && st[j].path.subrange(0, dir.len() as int) == dir)
        }),
    decreases m, m.tree@.len() - k,
{
    let st = subtree_entries(base, m, lang, project, cur, k);
    let dir = base + join_path(cur) + "/"@;
    if 0 <= k < m.tree@.len() {
        let c = m.tree@[k];
        let me = module_entries(base, c, lang, project, cur);
        let rest = subtree_entries(base, m, lang, project, cur, k + 1);
        assert(st == me + rest);
        lemma_module_parents(base, c, lang, project, cur);
        lemma_subtree_parents(base, m, lang, project, cur, k + 1);
        lemma_join_push(cur, module_name(c));
        assert forall|j: int|
            0 <= j < st.len() implies parented(st, j) || (st[j].directory && st[j].project
                == project && st[j].parent_modules == cur && st[j].path.len() > dir.len()
                && st[j].path.subrange(0, dir.len() as int) == dir) by {
            if j == 0 {
                assert(st[0] == me[0]);
                reveal_strlit("/");
                assert(me[0].path =~= dir + (module_name(c) + "/"@));
                assert(me[0].path.len() > dir.len());
                assert(me[0].path.subrange(0, dir.len() as int) =~= dir);
            } else if j < me.len() {
                assert(parented(me, j));
                lemma_parented_before(me, rest, j);
            } else {
                let q = j - me.len();
                assert(st[j] == rest[q]);
                if parented(rest, q) {
                    lemma_parented_after(me, rest, q);
                }
            }
        }
    }
}

proof fn lemma_tree_parents(p: Project, project: int, n: int)
    requires
        0 <= n <= p.tree@.len(),
    ensures
        ({
            let t = tree_entries(p, project, n);
            forall|j: int|
                0 <= j < t.len() && #[trigger] t[j].parent_modules.len() > 0 ==> parented(t, j)
        }),
    decreases n,
{
    if n > 0 {
        let prev = tree_entries(p, project, n - 1);
        let me = module_entries(
            base_of(p),
            p.tree@[n - 1],
            language_of(p.lang@),
            project,
            Seq::empty(),
        );
        lemma_tree_parents(p, project, n - 1);
        lemma_module_parents(base_of(p), p.tree@[n - 1], language_of(p.lang@), project, Seq::empty());
        let t = tree_entries(p, project, n);
        assert(t == prev + me);
        assert forall|j: int|
            0 <= j < t.len() && #[trigger] t[j].parent_modules.len() > 0 implies parented(t, j) by {
            if j < prev.len() {
                assert(t[j] == prev[j]);
                lemma_parented_before(prev, me, j);
            } else {
                let q = j - prev.len();
                assert(t[j] == me[q]);
                if q == 0 {
                    assert(me[0].parent_modules.len() == 0);
                } else {
                    lemma_parented_after(prev, me, q);
                }
            }
        }
    }
}

proof fn lemma_config_parents(ps: Seq<Project>, n: int)
    requires
        0 <= n <= ps.len(),
    ensures
        ({
            let c = config_entries(ps, n);
            forall|j: int|
                0 <= j < c.len() && #[trigger] c[j].parent_modules.len() > 0 ==> parented(c, j)
        }),
    decreases n,
{
    if n > 0 {
        let prev = config_entries(ps, n - 1);
        let p = ps[n - 1];
        let files = file_entries(
            base_of(p),
            p.file@,
            language_of(p.lang@),
            n - 1,
            Seq::empty(),
            true,
        );
        let tree = tree_entries(p, n - 1, p.tree@.len() as int);
        lemma_config_parents(ps, n - 1);
        lemma_tree_parents(p, n - 1, p.tree@.len() as int);
        let c = config_entries(ps, n);
        assert(c == prev + (files + tree));
        assert forall|j: int|
            0 <= j < c.len() && #[trigger] c[j].parent_modules.len() > 0 implies parented(c, j) by {
            if j < prev.len() {
                assert(c[j] == prev[j]);
                lemma_parented_before(prev, files + tree, j);
            } else {
                let q = j - prev.len();
                assert(c[j] == (files + tree)[q]);
                if q < files.len() {
                    assert(files[q].parent_modules.len() == 0);
                } else {
                    let r = q - files.len();
                    assert((files + tree)[q] == tree[r]);
                    lemma_parented_after(files, tree, r);
                    lemma_parented_after(prev, files + tree, q);
                }
            }
        }
    }
}

/// Directories come before their contents: every managed entry that lies inside a
/// module comes after the directory entry of that module, and that directory's path
/// is a proper prefix of the entry's path.
pub proof fn lemma_directory_precedes_children(config: MoliConfig)
    ensures
        forall|j: int|
            0 <= j < all_entries(config).len() && #[trigger] all_entries(config)[j].parent_modules.len()
                > 0 ==> exists|i: int|
                0 <= i < j && #[trigger] is_parent(all_entries(config)[i], all_entries(config)[j]),
{
    lemma_config_parents(config.projects@, config.projects@.len() as int);
}

} // verus!
