use vstd::prelude::*;

use crate::model::{module_name, MoliConfig, Module, Project};
use crate::text::{chars_of, concat, contains_char, decimal, decimal_of, string_of};

verus! {

/// One broken rule, with the place in the document where it was found.
pub struct ValidationError {
    pub message: String,
    pub path: String,
}

impl ValidationError {
    /// The error as one line of text.
    pub fn describe(&self) -> (r: String)
        ensures
            r@ == "Validation error at "@ + self.path@ + ": "@ + self.message@,
    {
        let mut r = String::from_str("Validation error at ");
        r.append(self.path.as_str());
        r.append(": ");
        r.append(self.message.as_str());
        r
    }
}

/// Checks a layout against the structural rules.
pub struct ConfigValidator;

/// The language tags that generation supports.
pub open spec fn is_supported_language(lang: Seq<char>) -> bool {
    lang == "rust"@ || lang == "go"@ || lang == "python"@ || lang == "javascript"@ || lang
        == "typescript"@ || lang == "any"@ || lang == "bash"@ || lang == "lua"@
}

/// The rules on one module, leaving its children aside.
pub open spec fn module_locally_valid(m: Module, lang_is_any: bool) -> bool {
    &&& (m.name is Some || m.from is Some)
    &&& module_name(m).len() > 0
    &&& !module_name(m).contains('/')
    &&& !module_name(m).contains('\\')
    &&& (m.from is Some ==> lang_is_any && m.tree@.len() == 0 && m.file@.len() == 0)
}

/// The rules on a module and, recursively, on all modules below it.
pub open spec fn module_valid(m: Module, lang_is_any: bool) -> bool
    decreases m, m.tree@.len() + 1,
{
    module_locally_valid(m, lang_is_any) && children_valid(m, lang_is_any, 0)
}

/// The modules below `m`, from its `k`-th child on, are valid.
pub open spec fn children_valid(m: Module, lang_is_any: bool, k: int) -> bool
    decreases m, m.tree@.len() - k,
{
    if k < 0 || k >= m.tree@.len() {
        true
    } else {
        module_valid(m.tree@[k], lang_is_any) && children_valid(m, lang_is_any, k + 1)
    }
}

proof fn lemma_children_valid(m: Module, lang_is_any: bool, k: int)
    requires
        0 <= k <= m.tree@.len(),
    ensures
        children_valid(m, lang_is_any, k) <==> forall|j: int|
            k <= j < m.tree@.len() ==> #[trigger] module_valid(m.tree@[j], lang_is_any),
    decreases m.tree@.len() - k,
{
    if k < m.tree@.len() {
        lemma_children_valid(m, lang_is_any, k + 1);
        assert(children_valid(m, lang_is_any, k) == (module_valid(m.tree@[k], lang_is_any)
            && children_valid(m, lang_is_any, k + 1)));
        if children_valid(m, lang_is_any, k) {
            assert forall|j: int| k <= j < m.tree@.len() implies #[trigger] module_valid(
                m.tree@[j],
                lang_is_any,
            ) by {
                if j > k {
                }
            }
        }
    }
}

/// The rules on one project and its modules.
pub open spec fn project_valid(p: Project) -> bool {
    let any = p.lang@ == "any"@;
    &&& p.name@.len() > 0
    &&& is_supported_language(p.lang@)
    &&& forall|i: int|
        0 <= i < p.tree@.len() ==> #[trigger] module_valid(p.tree@[i], any)
}

/// How many projects are marked as root.
pub open spec fn root_count(ps: Seq<Project>) -> nat {
    ps.filter(|p: Project| p.root).len()
}

/// No two projects share a name.
pub open spec fn names_unique(ps: Seq<Project>) -> bool {
    forall|i: int, j: int| 0 <= j < i < ps.len() ==> ps[i].name@ != ps[j].name@
}

/// A layout that generation and editing may work on.
pub open spec fn config_valid(c: MoliConfig) -> bool {
    &&& c.projects@.len() > 0
    &&& forall|i: int| 0 <= i < c.projects@.len() ==> #[trigger] project_valid(c.projects@[i])
    &&& root_count(c.projects@) <= 1
    &&& names_unique(c.projects@)
}

/// `errors` grew, keeping what it held.
pub open spec fn extends(old_errors: Seq<ValidationError>, new_errors: Seq<ValidationError>) -> bool {
    &&& new_errors.len() >= old_errors.len()
    &&& forall|k: int| 0 <= k < old_errors.len() ==> new_errors[k] == old_errors[k]
}

/// `p` starts with `prefix`.
pub open spec fn under(p: Seq<char>, prefix: Seq<char>) -> bool {
    p.len() >= prefix.len() && p.subrange(0, prefix.len() as int) == prefix
}

/// Some error sits exactly at `path`.
pub open spec fn reported(errs: Seq<ValidationError>, path: Seq<char>) -> bool {
    exists|k: int| 0 <= k < errs.len() && (#[trigger] errs[k]).path@ == path
}

/// Some error sits at `prefix` or below it.
pub open spec fn reported_under(errs: Seq<ValidationError>, prefix: Seq<char>) -> bool {
    exists|k: int| 0 <= k < errs.len() && under((#[trigger] errs[k]).path@, prefix)
}

/// The locator of the `i`-th project.
pub open spec fn project_path(i: int) -> Seq<char> {
    "projects["@ + decimal_of(i as nat) + "]"@
}

/// The locator of the `j`-th top-level module of the `i`-th project.
pub open spec fn module_locator(i: int, j: int) -> Seq<char> {
    project_path(i) + ".tree["@ + decimal_of(j as nat) + "]"@
}

/// Every error from `from` on sits at `prefix` or below it.
pub open spec fn all_under(errs: Seq<ValidationError>, from: int, prefix: Seq<char>) -> bool {
    forall|k: int| from <= k < errs.len() ==> under((#[trigger] errs[k]).path@, prefix)
}

proof fn lemma_under_concat(a: Seq<char>, b: Seq<char>)
    ensures
        under(a + b, a),
{
    assert((a + b).subrange(0, a.len() as int) =~= a);
}

proof fn lemma_under_trans(p: Seq<char>, q: Seq<char>, r: Seq<char>)
    requires
        under(p, q),
        under(q, r),
    ensures
        under(p, r),
{
    assert(p.subrange(0, r.len() as int) =~= p.subrange(0, q.len() as int).subrange(0, r.len() as int));
}

proof fn lemma_reported_kept(a: Seq<ValidationError>, b: Seq<ValidationError>, path: Seq<char>)
    requires
        extends(a, b),
        reported(a, path),
    ensures
        reported(b, path),
{
    let k = choose|k: int| 0 <= k < a.len() && (#[trigger] a[k]).path@ == path;
    assert(b[k] == a[k]);
}

proof fn lemma_under_kept(a: Seq<ValidationError>, b: Seq<ValidationError>, prefix: Seq<char>)
    requires
        extends(a, b),
        reported_under(a, prefix),
    ensures
        reported_under(b, prefix),
{
    let k = choose|k: int| 0 <= k < a.len() && under((#[trigger] a[k]).path@, prefix);
    assert(b[k] == a[k]);
}

fn push_error(errors: &mut Vec<ValidationError>, message: String, path: &[char], suffix: &str)
    ensures
        final(errors)@.len() == old(errors)@.len() + 1,
        extends(old(errors)@, final(errors)@),
        final(errors)@.last().message@ == message@,
        final(errors)@.last().path@ == path@ + suffix@,
{
    let s = chars_of(suffix);
    let p = concat(path, s.as_slice());
    errors.push(ValidationError { message, path: string_of(p.as_slice()) });
}

impl ConfigValidator {
    /// Checks every rule and collects every violation; `Ok` exactly when the layout
    /// is valid.
    pub fn validate(config: &MoliConfig) -> (r: Result<(), Vec<ValidationError>>)
        ensures
            r is Ok <==> config_valid(*config),
            r is Err ==> r->Err_0@.len() > 0,
            root_count(config.projects@) > 1 ==> r is Err && exists|k: int|
                0 <= k < r->Err_0@.len() && r->Err_0@[k].path@ == "projects"@,
            config.projects@.len() == 0 ==> r is Err && reported(r->Err_0@, "projects"@),
            forall|i: int|
                0 <= i < config.projects@.len() && (#[trigger] config.projects@[i]).name@.len() == 0
                    ==> r is Err && reported(r->Err_0@, project_path(i) + ".name"@),
            forall|i: int|
                0 <= i < config.projects@.len() && !is_supported_language(
                    (#[trigger] config.projects@[i]).lang@,
                ) ==> r is Err && reported(r->Err_0@, project_path(i) + ".lang"@),
            forall|i: int, j: int|
                0 <= i < config.projects@.len() && 0 <= j < config.projects@[i].tree@.len()
                    && !module_valid(
                    #[trigger] config.projects@[i].tree@[j],
                    config.projects@[i].lang@ == "any"@,
                ) ==> r is Err && reported_under(r->Err_0@, module_locator(i, j)),
            forall|i: int, b: int|
                0 <= b < i < config.projects@.len() && (#[trigger] config.projects@[i]).name@
                    == (#[trigger] config.projects@[b]).name@ ==> r is Err && reported(
                    r->Err_0@,
                    project_path(i) + ".name"@,
                ),
    {
        let mut errors: Vec<ValidationError> = Vec::new();
        if config.projects.len() == 0 {
            let root = chars_of("projects");
            push_error(
                &mut errors,
                String::from_str("Configuration must contain at least one project"),
                root.as_slice(),
                "",
            );
            proof {
                reveal_strlit("");
            }
            assert(errors@[0].path@ =~= "projects"@);
            assert(reported(errors@, "projects"@));
            return Err(errors);
        }
        let mut i: usize = 0;
        while i < config.projects.len()
            invariant
                i <= config.projects@.len(),
                (errors@.len() == 0) <==> (forall|j: int|
                    0 <= j < i ==> #[trigger] project_valid(config.projects@[j])),
                forall|q: int|
                    0 <= q < i && (#[trigger] config.projects@[q]).name@.len() == 0 ==> reported(
                        errors@,
                        project_path(q) + ".name"@,
                    ),
                forall|q: int|
                    0 <= q < i && !is_supported_language((#[trigger] config.projects@[q]).lang@)
                        ==> reported(errors@, project_path(q) + ".lang"@),
                forall|q: int, j: int|
                    0 <= q < i && 0 <= j < config.projects@[q].tree@.len() && !module_valid(
                        #[trigger] config.projects@[q].tree@[j],
                        config.projects@[q].lang@ == "any"@,
                    ) ==> reported_under(errors@, module_locator(q, j)),
            decreases config.projects.len() - i,
        {
            let ghost before = errors@;
            Self::validate_project(&config.projects[i], i, &mut errors);
            proof {
                Self::lemma_keep_project_reports(config.projects@, before, errors@, i as int);
            }
            i = i + 1;
        }
        let n_project_errors = errors.len();
        let ghost after_projects = errors@;
        let roots_ok = Self::validate_root_projects(config, &mut errors);
        let ghost after_roots = errors@;
        let names_ok = Self::validate_project_names(config, &mut errors);
        proof {
            assert(extends(after_projects, after_roots));
            assert(extends(after_projects, errors@));
            Self::lemma_keep_project_reports(
                config.projects@,
                after_projects,
                errors@,
                config.projects@.len() as int,
            );
            assert forall|q: int|
                0 <= q < config.projects@.len() && !project_valid(#[trigger] config.projects@[q])
                    implies errors@.len() > 0 by {
                assert(after_projects.len() > 0);
            }
        }
        assert(root_count(config.projects@) > 1 ==> exists|k: int|
            0 <= k < errors@.len() && errors@[k].path@ == "projects"@) by {
            if root_count(config.projects@) > 1 {
                let k = n_project_errors as int;
                assert(after_roots.len() == k + 1);
                assert(after_roots[k].path@ == "projects"@);
                assert(errors@[k] == after_roots[k]);
                assert(0 <= k < errors@.len() && errors@[k].path@ == "projects"@);
            }
        }
        if errors.len() == 0 {
            Ok(())
        } else {
            let ghost e = errors@;
            let r: Result<(), Vec<ValidationError>> = Err(errors);
            assert(r->Err_0@ == e);
            r
        }
    }

    proof fn lemma_keep_project_reports(
        ps: Seq<Project>,
        a: Seq<ValidationError>,
        b: Seq<ValidationError>,
        upto: int,
    )
        requires
            extends(a, b),
            0 <= upto <= ps.len(),
        ensures
            forall|q: int|
                0 <= q < upto && (#[trigger] ps[q]).name@.len() == 0 && reported(
                    a,
                    project_path(q) + ".name"@,
                ) ==> reported(b, project_path(q) + ".name"@),
            forall|q: int|
                0 <= q < upto && !is_supported_language((#[trigger] ps[q]).lang@) && reported(
                    a,
                    project_path(q) + ".lang"@,
                ) ==> reported(b, project_path(q) + ".lang"@),
            forall|q: int, j: int|
                0 <= q < upto && 0 <= j < ps[q].tree@.len() && reported_under(
                    a,
                    module_locator(q, j),
                ) && !module_valid(#[trigger] ps[q].tree@[j], ps[q].lang@ == "any"@)
                    ==> reported_under(b, module_locator(q, j)),
    {
        assert forall|q: int|
            0 <= q < upto && (#[trigger] ps[q]).name@.len() == 0 && reported(
                a,
                project_path(q) + ".name"@,
            ) implies reported(b, project_path(q) + ".name"@) by {
            lemma_reported_kept(a, b, project_path(q) + ".name"@);
        }
        assert forall|q: int|
            0 <= q < upto && !is_supported_language((#[trigger] ps[q]).lang@) && reported(
                a,
                project_path(q) + ".lang"@,
            ) implies reported(b, project_path(q) + ".lang"@) by {
            lemma_reported_kept(a, b, project_path(q) + ".lang"@);
        }
        assert forall|q: int, j: int|
            0 <= q < upto && 0 <= j < ps[q].tree@.len() && reported_under(
                a,
                module_locator(q, j),
            ) && !module_valid(#[trigger] ps[q].tree@[j], ps[q].lang@ == "any"@) implies reported_under(
                b,
                module_locator(q, j),
            ) by {
            lemma_under_kept(a, b, module_locator(q, j));
        }
    }

    /// Checks one project and its modules, appending what is broken.
    fn validate_project(project: &Project, index: usize, errors: &mut Vec<ValidationError>)
        ensures
            extends(old(errors)@, final(errors)@),
            (final(errors)@.len() == old(errors)@.len()) <==> project_valid(*project),
            project.name@.len() == 0 ==> reported(final(errors)@, project_path(index as int) + ".name"@),
            !is_supported_language(project.lang@) ==> reported(
                final(errors)@,
                project_path(index as int) + ".lang"@,
            ),
            forall|j: int|
                0 <= j < project.tree@.len() && !module_valid(
                    #[trigger] project.tree@[j],
                    project.lang@ == "any"@,
                ) ==> reported_under(final(errors)@, module_locator(index as int, j)),
    {
        let ghost start = old(errors)@;
        let head = chars_of("projects[");
        let num = decimal(index);
        let close = chars_of("]");
        let p0 = concat(head.as_slice(), num.as_slice());
        let path = concat(p0.as_slice(), close.as_slice());
        assert(path@ =~= project_path(index as int));
        let name = chars_of(project.name.as_str());
        let mut ok = true;
        if name.len() == 0 {
            push_error(errors, String::from_str("Project name cannot be empty"), path.as_slice(), ".name");
            ok = false;
        }
        let ghost after_name = errors@;
        assert(project.name@.len() == 0 ==> reported(errors@, project_path(index as int) + ".name"@));
        let lang = chars_of(project.lang.as_str());
        if lang.len() == 0 {
            push_error(errors, String::from_str("Project language cannot be empty"), path.as_slice(), ".lang");
            ok = false;
        } else if !Self::is_supported_language(project.lang.as_str()) {
            let mut msg = String::from_str("Unsupported language: ");
            msg.append(project.lang.as_str());
            push_error(errors, msg, path.as_slice(), ".lang");
            ok = false;
        }
        proof {
            if project.name@.len() == 0 {
                lemma_reported_kept(after_name, errors@, project_path(index as int) + ".name"@);
            }
        }
        proof {
            reveal_strlit("rust");
            reveal_strlit("go");
            reveal_strlit("python");
            reveal_strlit("javascript");
            reveal_strlit("typescript");
            reveal_strlit("any");
            reveal_strlit("bash");
            reveal_strlit("lua");
        }
        assert(ok == (project.name@.len() > 0 && is_supported_language(project.lang@)));
        assert(ok ==> errors@.len() == start.len());
        assert(!ok ==> errors@.len() > start.len());
        assert(!is_supported_language(project.lang@) ==> reported(
            errors@,
            project_path(index as int) + ".lang"@,
        ));
        let any = Self::str_any(project.lang.as_str());
        let tree_key = chars_of(".tree[");
        let mut i: usize = 0;
        while i < project.tree.len()
            invariant
                i <= project.tree@.len(),
                any == (project.lang@ == "any"@),
                path@ == project_path(index as int),
                tree_key@ == ".tree["@,
                close@ == "]"@,
                project.name@.len() == 0 ==> reported(errors@, project_path(index as int) + ".name"@),
                !is_supported_language(project.lang@) ==> reported(
                    errors@,
                    project_path(index as int) + ".lang"@,
                ),
                forall|j: int|
                    0 <= j < i && !module_valid(#[trigger] project.tree@[j], any) ==> reported_under(
                        errors@,
                        module_locator(index as int, j),
                    ),
                extends(start, errors@),
                (errors@.len() == start.len()) <==> (ok && forall|j: int|
                    0 <= j < i ==> #[trigger] module_valid(project.tree@[j], any)),
            decreases project.tree.len() - i,
        {
            let ghost before = errors@;
            let q0 = concat(path.as_slice(), tree_key.as_slice());
            let qn = decimal(i);
            let q1 = concat(q0.as_slice(), qn.as_slice());
            let q = concat(q1.as_slice(), close.as_slice());
            Self::validate_module(&project.tree[i], q.as_slice(), any, project.lang.as_str(), errors);
            proof {
                assert(q@ =~= module_locator(index as int, i as int));
                if project.name@.len() == 0 {
                    lemma_reported_kept(before, errors@, project_path(index as int) + ".name"@);
                }
                if !is_supported_language(project.lang@) {
                    lemma_reported_kept(before, errors@, project_path(index as int) + ".lang"@);
                }
                assert forall|j: int|
                    0 <= j < i + 1 && !module_valid(#[trigger] project.tree@[j], any) implies reported_under(
                        errors@,
                        module_locator(index as int, j),
                    ) by {
                    if j < i {
                        lemma_under_kept(before, errors@, module_locator(index as int, j));
                    } else {
                        assert(errors@.len() > before.len());
                        let k = before.len() as int;
                        assert(under(errors@[k].path@, q@));
                    }
                }
            }
            i = i + 1;
        }
    }

    fn str_any(lang: &str) -> (r: bool)
        ensures
            r == (lang@ == "any"@),
    {
        crate::model::str_is(lang, "any")
    }

    /// Checks one module and, recursively, the modules below it.
    fn validate_module(
        module: &Module,
        path: &[char],
        lang_is_any: bool,
        lang: &str,
        errors: &mut Vec<ValidationError>,
    )
        ensures
            extends(old(errors)@, final(errors)@),
            (final(errors)@.len() == old(errors)@.len()) <==> module_valid(*module, lang_is_any),
            all_under(final(errors)@, old(errors)@.len() as int, path@),
        decreases module,
    {
        let ghost start = old(errors)@;
        proof {
            reveal_strlit("");
            reveal_strlit(".name");
            reveal_strlit(".from");
            reveal_strlit(".tree");
            reveal_strlit(".file");
            lemma_under_concat(path@, ""@);
            lemma_under_concat(path@, ".name"@);
            lemma_under_concat(path@, ".from"@);
            lemma_under_concat(path@, ".tree"@);
            lemma_under_concat(path@, ".file"@);
        }
        let mut ok = true;
        if module.name.is_none() && module.from.is_none() {
            push_error(
                errors,
                String::from_str("Module must have either 'name' or 'from' field"),
                path,
                "",
            );
            ok = false;
        }
        let name = module.name();
        let n = chars_of(name.as_str());
        if n.len() == 0 {
            push_error(errors, String::from_str("Module name cannot be empty"), path, ".name");
            ok = false;
        }
        if contains_char(n.as_slice(), '/') || contains_char(n.as_slice(), '\\') {
            push_error(
                errors,
                String::from_str("Module name cannot contain path separators"),
                path,
                ".name",
            );
            ok = false;
        }
        if module.from.is_some() && !lang_is_any {
            let mut msg = String::from_str(
                "Module with 'from' field can only be used with 'lang: any' (current: ",
            );
            msg.append(lang);
            msg.append(")");
            push_error(errors, msg, path, ".from");
            ok = false;
        }
        if module.from.is_some() {
            if module.tree.len() > 0 {
                push_error(
                    errors,
                    String::from_str(
                        "Module with 'from' field cannot have 'tree' (a clone target cannot have subdirectories)",
                    ),
                    path,
                    ".tree",
                );
                ok = false;
            }
            if module.file.len() > 0 {
                push_error(
                    errors,
                    String::from_str(
                        "Module with 'from' field cannot have 'file' (a clone target cannot have files)",
                    ),
                    path,
                    ".file",
                );
                ok = false;
            }
        }
        assert(ok == module_locally_valid(*module, lang_is_any));
        assert(ok <==> errors@.len() == start.len());
        assert(all_under(errors@, start.len() as int, path@));
        let tree_key = chars_of(".tree[");
        let close = chars_of("]");
        let mut i: usize = 0;
        while i < module.tree.len()
            invariant
                i <= module.tree@.len(),
                ok == module_locally_valid(*module, lang_is_any),
                all_under(errors@, start.len() as int, path@),
                extends(start, errors@),
                (errors@.len() == start.len()) <==> (ok && forall|j: int|
                    0 <= j < i ==> #[trigger] module_valid(module.tree@[j], lang_is_any)),
            decreases module.tree.len() - i,
        {
            let ghost before = errors@;
            let q0 = concat(path, tree_key.as_slice());
            let qn = decimal(i);
            let q1 = concat(q0.as_slice(), qn.as_slice());
            let q = concat(q1.as_slice(), close.as_slice());
            Self::validate_module(&module.tree[i], q.as_slice(), lang_is_any, lang, errors);
            proof {
                assert(q@ =~= path@ + (tree_key@ + qn@ + close@));
                lemma_under_concat(path@, tree_key@ + qn@ + close@);
                assert forall|k: int| start.len() <= k < errors@.len() implies under(
                    (#[trigger] errors@[k]).path@,
                    path@,
                ) by {
                    if k >= before.len() {
                        lemma_under_trans(errors@[k].path@, q@, path@);
                    } else {
                        assert(errors@[k] == before[k]);
                    }
                }
            }
            i = i + 1;
        }
        proof {
            lemma_children_valid(*module, lang_is_any, 0);
        }
    }

    /// Appends an error at `projects` when more than one project is marked as root.
    fn validate_root_projects(config: &MoliConfig, errors: &mut Vec<ValidationError>) -> (ok: bool)
        ensures
            ok == (root_count(config.projects@) <= 1),
            ok ==> final(errors)@ == old(errors)@,
            !ok ==> final(errors)@ == old(errors)@.push(final(errors)@.last()),
            !ok ==> final(errors)@.last().path@ == "projects"@,
    {
        let mut count: usize = 0;
        let mut i: usize = 0;
        while i < config.projects.len()
            invariant
                i <= config.projects@.len(),
                count == config.projects@.take(i as int).filter(|p: Project| p.root).len(),
                count <= i,
            decreases config.projects.len() - i,
        {
            assert(config.projects@.take(i + 1).drop_last() =~= config.projects@.take(i as int));
            reveal(Seq::filter);
            if config.projects[i].root {
                count = count + 1;
            }
            i = i + 1;
        }
        assert(config.projects@.take(config.projects@.len() as int) =~= config.projects@);
        if count <= 1 {
            true
        } else {
            let p = chars_of("projects");
            push_error(errors, String::from_str("Only one project can be marked as root"), p.as_slice(), "");
            proof {
                reveal_strlit("");
                assert(errors@.last().path@ =~= "projects"@);
                assert(errors@ =~= old(errors)@.push(errors@.last()));
            }
            false
        }
    }

    /// Appends an error for each project whose name an earlier project already has.
    fn validate_project_names(config: &MoliConfig, errors: &mut Vec<ValidationError>) -> (ok: bool)
        ensures
            ok == names_unique(config.projects@),
            extends(old(errors)@, final(errors)@),
            ok <==> final(errors)@.len() == old(errors)@.len(),
            forall|i: int, b: int|
                0 <= b < i < config.projects@.len() && (#[trigger] config.projects@[i]).name@
                    == (#[trigger] config.projects@[b]).name@ ==> reported(
                    final(errors)@,
                    project_path(i) + ".name"@,
                ),
    {
        let ghost start = old(errors)@;
        let n0 = errors.len();
        let ps = &config.projects;
        let mut i: usize = 0;
        while i < ps.len()
            invariant
                i <= ps@.len(),
                extends(start, errors@),
                (errors@.len() == start.len()) <==> (forall|a: int, b: int|
                    0 <= b < a < i ==> ps@[a].name@ != ps@[b].name@),
                forall|a: int, b: int|
                    0 <= b < a < i && (#[trigger] ps@[a]).name@ == (#[trigger] ps@[b]).name@
                        ==> reported(errors@, project_path(a) + ".name"@),
            decreases ps.len() - i,
        {
            let ghost before = errors@;
            let mut dup = false;
            let mut j: usize = 0;
            while j < i
                invariant
                    i < ps@.len(),
                    j <= i,
                    dup <==> exists|b: int| 0 <= b < j && ps@[i as int].name@ == ps@[b].name@,
                decreases i - j,
            {
                let a = chars_of(ps[i].name.as_str());
                let b = chars_of(ps[j].name.as_str());
                if crate::text::same_chars(a.as_slice(), b.as_slice()) {
                    dup = true;
                }
                j = j + 1;
            }
            if dup {
                let head = chars_of("projects[");
                let num = decimal(i);
                let p0 = concat(head.as_slice(), num.as_slice());
                let mut msg = String::from_str("Duplicate project name: ");
                msg.append(ps[i].name.as_str());
                push_error(errors, msg, p0.as_slice(), "].name");
                proof {
                    reveal_strlit("].name");
                    reveal_strlit("]");
                    reveal_strlit(".name");
                    assert(errors@.last().path@ =~= project_path(i as int) + ".name"@);
                    assert(reported(errors@, project_path(i as int) + ".name"@));
                }
            }
            proof {
                assert forall|a: int, b: int|
                    0 <= b < a < i + 1 && (#[trigger] ps@[a]).name@ == (#[trigger] ps@[b]).name@
                        implies reported(errors@, project_path(a) + ".name"@) by {
                    if a < i {
                        lemma_reported_kept(before, errors@, project_path(a) + ".name"@);
                    } else {
                        assert(dup);
                    }
                }
            }
            i = i + 1;
        }
        errors.len() == n0
    }

    /// Whether generation supports a language tag.
    fn is_supported_language(lang: &str) -> (r: bool)
        ensures
            r == is_supported_language(lang@),
    {
        crate::model::str_is(lang, "rust") || crate::model::str_is(lang, "go")
            || crate::model::str_is(lang, "python") || crate::model::str_is(lang, "javascript")
            || crate::model::str_is(lang, "typescript") || crate::model::str_is(lang, "any")
            || crate::model::str_is(lang, "bash") || crate::model::str_is(lang, "lua")
    }
}

} // verus!
