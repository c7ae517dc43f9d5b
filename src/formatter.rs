use vstd::prelude::*;

use crate::text::{chars_of, concat, lines_of, split_lines, string_of, view_lines};

verus! {

/// A line that opens a project: it starts, unindented, with `- name:`.
pub open spec fn opens_project(l: Seq<char>) -> bool {
    l.len() >= 7 && l.subrange(0, 7) == "- name:"@
}

/// Some line before line `n` opens a project.
pub open spec fn opened_before(ls: Seq<Seq<char>>, n: int) -> bool {
    exists|j: int| 0 <= j < n && opens_project(ls[j])
}

/// The first `n` lines, each ending with a newline, with three blank lines before
/// every project but the first.
pub open spec fn spaced(ls: Seq<Seq<char>>, n: int) -> Seq<char>
    decreases n,
{
    if n <= 0 || n > ls.len() {
        Seq::empty()
    } else {
        let gap = if opens_project(ls[n - 1]) && opened_before(ls, n - 1) {
            "\n\n\n"@
        } else {
            Seq::empty()
        };
        spaced(ls, n - 1) + gap + ls[n - 1] + "\n"@
    }
}

/// Puts three blank lines between projects; every line ends with a newline.
pub fn add_project_spacing(yaml: &str) -> (r: String)
    ensures
        r@ == spaced(lines_of(yaml@), lines_of(yaml@).len() as int),
{
    let text = chars_of(yaml);
    let lines = split_lines(text.as_slice());
    let ghost ls = view_lines(lines@);
    let head = chars_of("- name:");
    let gap = chars_of("\n\n\n");
    let nl = chars_of("\n");
    proof {
        reveal_strlit("- name:");
    }
    let mut out: Vec<char> = Vec::new();
    let mut seen = false;
    let mut i: usize = 0;
    while i < lines.len()
        invariant
            i <= lines@.len(),
            ls == view_lines(lines@),
            ls == lines_of(yaml@),
            head@ == "- name:"@,
            head@.len() == 7,
            gap@ == "\n\n\n"@,
            nl@ == "\n"@,
            seen == opened_before(ls, i as int),
            out@ == spaced(ls, i as int),
        decreases lines.len() - i,
    {
        let l = &lines[i];
        let starts = crate::text::starts_with(l.as_slice(), head.as_slice());
        assert(starts == opens_project(ls[i as int]));
        let mut next = out;
        if starts && seen {
            next = concat(next.as_slice(), gap.as_slice());
        }
        let with_line = concat(next.as_slice(), l.as_slice());
        out = concat(with_line.as_slice(), nl.as_slice());
        proof {
            if starts && seen {
                assert(out@ =~= spaced(ls, i as int) + "\n\n\n"@ + ls[i as int] + "\n"@);
            } else {
                assert(out@ =~= spaced(ls, i as int) + Seq::<char>::empty() + ls[i as int] + "\n"@);
            }
            if starts {
                assert(opened_before(ls, i + 1));
            } else if seen {
                let w = choose|j: int| 0 <= j < i && opens_project(ls[j]);
                assert(opened_before(ls, i + 1));
            } else {
                assert(!opened_before(ls, i + 1));
            }
        }
        seen = seen || starts;
        i = i + 1;
    }
    string_of(out.as_slice())
}

} // verus!
