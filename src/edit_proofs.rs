use vstd::prelude::*;

use crate::editor::{
    add_child, add_children, add_list, addition, anchor_of, AddChild, block_last, block_stop, child, cut,
    ensure_file, ensure_node, ensure_path,
    edited_text, entry_line, has_entries, removal,
    first_from, insert_at, is_header, key_line, lemma_existing_path, nth_header, passes,
    section_of, span_last, walk, LineTest, Outcome,
};
use crate::commands::added_text;
use crate::scanner::entry_name;
use crate::text::{
    clean_lines, indent_of, is_blank, is_space, join_like, lead_from, lemma_join_last,
    lemma_joined_lines_of, lemma_last_line_empty, lemma_lines_clean, lemma_lines_of_joined, lines_of, spaces, tail_from, trim,
};

verus! {

/// Two line sequences agree on their first `pos` lines.
pub open spec fn agree_before(a: Seq<Seq<char>>, b: Seq<Seq<char>>, pos: int) -> bool {
    &&& 0 <= pos <= a.len()
    &&& pos <= b.len()
    &&& forall|i: int| 0 <= i < pos ==> #[trigger] a[i] == b[i]
}

/// A search that finds a line before `pos` finds the same line in any sequence that
/// agrees on the lines before `pos`, whatever its bound past that line.
proof fn lemma_found_stable(
    a: Seq<Seq<char>>,
    b: Seq<Seq<char>>,
    pos: int,
    from: int,
    to_a: int,
    to_b: int,
    t: LineTest,
)
    requires
        agree_before(a, b, pos),
        0 <= from,
        first_from(a, from, to_a, t) < to_a,
        first_from(a, from, to_a, t) < pos,
        first_from(a, from, to_a, t) < to_b,
        to_a <= a.len(),
        to_b <= b.len(),
    ensures
        first_from(b, from, to_b, t) == first_from(a, from, to_a, t),
    decreases to_a - from,
{
    if from < to_a {
        lemma_first_bounds(a, from, to_a, t);
        assert(a[from] == b[from]);
        if !passes(t, a[from]) {
            lemma_found_stable(a, b, pos, from + 1, to_a, to_b, t);
        }
    }
}

/// What a search finds passes the test.
proof fn lemma_found_passes(a: Seq<Seq<char>>, from: int, to: int, t: LineTest)
    requires
        0 <= from,
        first_from(a, from, to, t) < to,
    ensures
        passes(t, a[first_from(a, from, to, t)]),
    decreases to - from,
{
    if from < to && !passes(t, a[from]) {
        lemma_found_passes(a, from + 1, to, t);
    }
}

/// A search ends between its bounds.
proof fn lemma_first_bounds(a: Seq<Seq<char>>, from: int, to: int, t: LineTest)
    requires
        from <= to,
    ensures
        from <= first_from(a, from, to, t) <= to,
    decreases to - from,
{
    if from < to && !passes(t, a[from]) {
        lemma_first_bounds(a, from + 1, to, t);
    }
}

/// A search over lines that agree and fail up to `pos`, where the line at `pos`
/// passes, finds `pos`.
proof fn lemma_found_at(a: Seq<Seq<char>>, b: Seq<Seq<char>>, pos: int, from: int, to_a: int, to_b: int, t: LineTest)
    requires
        agree_before(a, b, pos),
        0 <= from <= pos,
        pos < to_b <= b.len(),
        to_a <= a.len(),
        pos <= to_a,
        first_from(a, from, to_a, t) >= pos,
        passes(t, b[pos]),
    ensures
        first_from(b, from, to_b, t) == pos,
    decreases pos - from,
{
    if from < pos {
        assert(!passes(t, a[from]));
        lemma_found_at(a, b, pos, from + 1, to_a, to_b, t);
    }
}

/// A search finds nothing before the first line that passes.
proof fn lemma_none_before(a: Seq<Seq<char>>, from: int, to: int, t: LineTest, j: int)
    requires
        0 <= from <= j < first_from(a, from, to, t),
        to <= a.len(),
    ensures
        !passes(t, a[j]),
    decreases j - from,
{
    if from < j {
        lemma_none_before(a, from + 1, to, t, j);
    }
}

/// When no line from `from` up to `pos` passes, a search starting at `from` does not
/// end before `pos + 1`.
proof fn lemma_not_before(b: Seq<Seq<char>>, from: int, to: int, t: LineTest, pos: int)
    requires
        0 <= from,
        pos < to <= b.len(),
        forall|j: int| from <= j <= pos ==> !passes(t, #[trigger] b[j]),
    ensures
        first_from(b, from, to, t) > pos,
    decreases pos + 1 - from,
{
    if from <= pos {
        assert(!passes(t, b[from]));
        lemma_not_before(b, from + 1, to, t, pos);
    } else if from <= to {
        lemma_first_bounds(b, from, to, t);
    }
}

/// The lines after a block's opening line, up to its last line, are not stops for it.
proof fn lemma_span_no_stop(ls: Seq<Seq<char>>, d: int, j: int, last: int, x: int)
    requires
        0 <= j,
        last < j,
        j <= x <= span_last(ls, d, j, last),
        x < ls.len(),
    ensures
        !passes(LineTest::Stop(d), ls[x]),
    decreases ls.len() - j,
{
    if j < ls.len() {
        if is_blank(ls[j]) {
            if x > j {
                lemma_span_no_stop(ls, d, j + 1, last, x);
            }
        } else if indent_of(ls[j]) > d {
            if x > j {
                lemma_span_no_stop(ls, d, j + 1, j, x);
            }
        }
    }
}

proof fn lemma_span_bounds(ls: Seq<Seq<char>>, d: int, j: int, last: int)
    requires
        0 <= last < j,
        last < ls.len(),
    ensures
        last <= span_last(ls, d, j, last) < ls.len(),
        span_last(ls, d, j, last) >= j - 1 || span_last(ls, d, j, last) == last,
    decreases ls.len() - j,
{
    if j < ls.len() {
        if is_blank(ls[j]) {
            lemma_span_bounds(ls, d, j + 1, last);
        } else if indent_of(ls[j]) > d {
            lemma_span_bounds(ls, d, j + 1, j);
        }
    }
}

/// A block's last line comes before the line that stops it.
proof fn lemma_last_before_stop(ls: Seq<Seq<char>>, i: int)
    requires
        0 <= i < ls.len(),
    ensures
        i <= block_last(ls, i) < block_stop(ls, i),
        forall|x: int| i < x <= block_last(ls, i) ==> !passes(LineTest::Stop(indent_of(ls[i])), #[trigger] ls[x]),
{
    let d = indent_of(ls[i]);
    lemma_span_bounds(ls, d, i + 1, i);
    assert forall|x: int| i < x <= block_last(ls, i) implies !passes(LineTest::Stop(d), #[trigger] ls[x]) by {
        lemma_span_no_stop(ls, d, i + 1, i, x);
    }
    if block_last(ls, i) > i {
        lemma_not_before(ls, i + 1, ls.len() as int, LineTest::Stop(d), block_last(ls, i));
    } else {
        lemma_first_bounds(ls, i + 1, ls.len() as int, LineTest::Stop(d));
    }
}

proof fn lemma_lead_spaces(l: Seq<char>, n: int, k: int)
    requires
        0 <= k <= n < l.len(),
        forall|x: int| 0 <= x < n ==> l[x] == ' ',
        !is_space(l[n]),
    ensures
        lead_from(l, k) == n,
    decreases n - k,
{
    if k < n {
        lemma_lead_spaces(l, n, k + 1);
    }
}

/// Text after `n` spaces, starting and ending with a non-blank, is indented `n` and
/// trims to itself.
proof fn lemma_padded(n: nat, s: Seq<char>)
    requires
        s.len() > 0,
        !is_space(s[0]),
        !is_space(s.last()),
    ensures
        indent_of(spaces(n) + s) == n,
        trim(spaces(n) + s) == s,
        !is_blank(spaces(n) + s),
{
    let l = spaces(n) + s;
    assert(l[n as int] == s[0]);
    assert forall|x: int| 0 <= x < n implies l[x] == ' ' by {
        assert(l[x] == spaces(n)[x]);
    }
    lemma_lead_spaces(l, n as int, 0);
    assert(l[l.len() - 1] == s.last());
    assert(tail_from(l, n as int, l.len() as int) == l.len());
    assert(l.subrange(n as int, l.len() as int) =~= s);
}

/// A name that an entry line shows back exactly: not empty, not ending with a blank.
pub open spec fn well_named(name: Seq<char>) -> bool {
    name.len() > 0 && !is_space(name.last())
}

proof fn lemma_entry_line(d: int, name: Seq<char>)
    requires
        d >= 0,
        well_named(name),
    ensures
        indent_of(entry_line(d, name)) == d + 4,
        trim(entry_line(d, name)) == anchor_of(name),
        !is_blank(entry_line(d, name)),
{
    reveal_strlit("- name: ");
    let a = anchor_of(name);
    assert(a[0] == '-');
    assert(a.last() == name.last());
    assert(spaces(d as nat) + spaces(4) + a =~= spaces((d + 4) as nat) + a);
    lemma_padded((d + 4) as nat, a);
}

proof fn lemma_key_line(d: int, key: Seq<char>)
    requires
        d >= 0,
        key == "file:"@ || key == "tree:"@,
    ensures
        indent_of(key_line(d, key)) == d + 2,
        trim(key_line(d, key)) == key,
        !is_blank(key_line(d, key)),
{
    reveal_strlit("file:");
    reveal_strlit("tree:");
    assert(spaces(d as nat) + spaces(2) + key =~= spaces((d + 2) as nat) + key);
    lemma_padded((d + 2) as nat, key);
}

/// When no line from `from` before `pos` passes, a search does not end before `pos`.
proof fn lemma_at_least(b: Seq<Seq<char>>, from: int, to: int, t: LineTest, pos: int)
    requires
        0 <= from <= pos <= to <= b.len(),
        forall|j: int| from <= j < pos ==> !passes(t, #[trigger] b[j]),
    ensures
        first_from(b, from, to, t) >= pos,
    decreases pos - from,
{
    if from < pos {
        assert(!passes(t, b[from]));
        lemma_at_least(b, from + 1, to, t, pos);
    } else {
        lemma_first_bounds(b, from, to, t);
    }
}

/// The stop of a block opened before `pos` ends after `x` in a sequence that agrees
/// before `pos`, when it did in the first one and `x` comes before `pos`.
proof fn lemma_stop_after(a: Seq<Seq<char>>, b: Seq<Seq<char>>, pos: int, i: int, x: int)
    requires
        agree_before(a, b, pos),
        0 <= i < x < pos,
        x < block_stop(a, i),
        pos <= a.len(),
    ensures
        block_stop(b, i) > x,
        block_stop(b, i) <= b.len(),
        indent_of(b[i]) == indent_of(a[i]),
{
    let d = indent_of(a[i]);
    assert(a[i] == b[i]);
    lemma_first_bounds(b, i + 1, b.len() as int, LineTest::Stop(d));
    let sa = block_stop(a, i);
    lemma_first_bounds(a, i + 1, a.len() as int, LineTest::Stop(d));
    if sa < pos {
        lemma_found_stable(a, b, pos, i + 1, a.len() as int, b.len() as int, LineTest::Stop(d));
    } else {
        assert forall|j: int| i + 1 <= j < pos implies !passes(LineTest::Stop(d), #[trigger] b[j]) by {
            assert(a[j] == b[j]);
            lemma_none_before(a, i + 1, a.len() as int, LineTest::Stop(d), j);
        }
        lemma_at_least(b, i + 1, b.len() as int, LineTest::Stop(d), pos);
    }
}

/// A child found before `pos` is found again in a sequence that agrees before `pos`.
proof fn lemma_child_stable(
    a: Seq<Seq<char>>,
    b: Seq<Seq<char>>,
    pos: int,
    p: int,
    key: Seq<char>,
    name: Seq<char>,
)
    requires
        agree_before(a, b, pos),
        0 <= p < a.len(),
        child(a, p, key, name) >= 0,
        child(a, p, key, name) < pos,
    ensures
        child(b, p, key, name) == child(a, p, key, name),
{
    let d = indent_of(a[p]);
    let k = section_of(a, p, key);
    let c = child(a, p, key, name);
    lemma_first_bounds(a, p + 1, a.len() as int, LineTest::Stop(d));
    lemma_first_bounds(a, p + 1, block_stop(a, p), LineTest::At(d + 2, key));
    lemma_first_bounds(a, k + 1, a.len() as int, LineTest::Stop(indent_of(a[k])));
    lemma_first_bounds(a, k + 1, block_stop(a, k), LineTest::At(d + 4, anchor_of(name)));
    lemma_stop_after(a, b, pos, p, k);
    lemma_found_stable(a, b, pos, p + 1, block_stop(a, p), block_stop(b, p), LineTest::At(d + 2, key));
    lemma_stop_after(a, b, pos, k, c);
    lemma_found_stable(
        a,
        b,
        pos,
        k + 1,
        block_stop(a, k),
        block_stop(b, k),
        LineTest::At(d + 4, anchor_of(name)),
    );
}

/// A child lies after its node.
proof fn lemma_child_after(a: Seq<Seq<char>>, p: int, key: Seq<char>, name: Seq<char>)
    requires
        0 <= p < a.len(),
        child(a, p, key, name) >= 0,
    ensures
        p < child(a, p, key, name) < a.len(),
{
    let d = indent_of(a[p]);
    let k = section_of(a, p, key);
    lemma_first_bounds(a, p + 1, a.len() as int, LineTest::Stop(d));
    lemma_first_bounds(a, p + 1, block_stop(a, p), LineTest::At(d + 2, key));
    lemma_first_bounds(a, k + 1, a.len() as int, LineTest::Stop(indent_of(a[k])));
    lemma_first_bounds(a, k + 1, block_stop(a, k), LineTest::At(d + 4, anchor_of(name)));
}

/// A walk ends at or after where it starts.
proof fn lemma_walk_after(a: Seq<Seq<char>>, p: int, path: Seq<Seq<char>>, k: int)
    requires
        0 <= p < a.len(),
        walk(a, p, path, k) is Ok,
    ensures
        p <= walk(a, p, path, k)->Ok_0 < a.len(),
    decreases path.len() - k,
{
    if 0 <= k < path.len() {
        let c = child(a, p, "tree:"@, path[k]);
        lemma_child_after(a, p, "tree:"@, path[k]);
        lemma_walk_after(a, c, path, k + 1);
    }
}

/// A walk that ends before `pos` ends at the same line in a sequence that agrees
/// before `pos`.
proof fn lemma_walk_stable(a: Seq<Seq<char>>, b: Seq<Seq<char>>, pos: int, p: int, path: Seq<Seq<char>>, k: int)
    requires
        agree_before(a, b, pos),
        0 <= p < a.len(),
        walk(a, p, path, k) is Ok,
        walk(a, p, path, k)->Ok_0 < pos,
    ensures
        walk(b, p, path, k) == walk(a, p, path, k),
    decreases path.len() - k,
{
    if 0 <= k < path.len() {
        let c = child(a, p, "tree:"@, path[k]);
        lemma_child_after(a, p, "tree:"@, path[k]);
        lemma_walk_after(a, c, path, k + 1);
        lemma_child_stable(a, b, pos, p, "tree:"@, path[k]);
        lemma_walk_stable(a, b, pos, c, path, k + 1);
    }
}

/// A project line before `pos` is found again in a sequence that agrees before `pos`.
proof fn lemma_header_stable(a: Seq<Seq<char>>, b: Seq<Seq<char>>, pos: int, i: int, k: int)
    requires
        agree_before(a, b, pos),
        0 <= i,
        nth_header(a, i, k) < pos,
    ensures
        nth_header(b, i, k) == nth_header(a, i, k),
    decreases a.len() - i,
{
    if i < a.len() {
        assert(a[i] == b[i]) by {
            lemma_header_bounds(a, i, k);
        }
        if !(is_header(a[i]) && k <= 0) {
            lemma_header_stable(a, b, pos, i + 1, if is_header(a[i]) { k - 1 } else { k });
        }
    }
}

proof fn lemma_header_bounds(a: Seq<Seq<char>>, i: int, k: int)
    requires
        0 <= i,
    ensures
        nth_header(a, i, k) >= i || nth_header(a, i, k) == a.len(),
    decreases a.len() - i,
{
    if i < a.len() {
        if !(is_header(a[i]) && k <= 0) {
            lemma_header_bounds(a, i + 1, if is_header(a[i]) { k - 1 } else { k });
        }
    }
}

proof fn lemma_insert_agrees(ls: Seq<Seq<char>>, pos: int, new: Seq<Seq<char>>)
    requires
        0 <= pos <= ls.len(),
    ensures
        agree_before(ls, insert_at(ls, pos, new), pos),
        insert_at(ls, pos, new).len() == ls.len() + new.len(),
        forall|j: int| 0 <= j < new.len() ==> insert_at(ls, pos, new)[pos + j] == new[j],
{
    let l2 = insert_at(ls, pos, new);
    assert forall|i: int| 0 <= i < pos implies #[trigger] ls[i] == l2[i] by {
        assert(l2[i] == ls.subrange(0, pos)[i]);
    }
    assert forall|j: int| 0 <= j < new.len() implies insert_at(ls, pos, new)[pos + j] == new[j] by {
        assert((ls.subrange(0, pos) + new)[pos + j] == new[j]);
    }
}

/// An entry appended at the end of an existing section is found there.
proof fn lemma_append_found(ls: Seq<Seq<char>>, o: int, key: Seq<char>, name: Seq<char>)
    requires
        0 <= o < ls.len(),
        well_named(name),
        section_of(ls, o, key) < block_stop(ls, o),
        child(ls, o, key, name) < 0,
    ensures
        ({
            let f = section_of(ls, o, key);
            let pos = block_last(ls, f) + 1;
            let l2 = insert_at(ls, pos, seq![entry_line(indent_of(ls[o]), name)]);
            o < pos && child(l2, o, key, name) == pos && section_of(l2, o, key) == f
        }),
{
    let d = indent_of(ls[o]);
    let f = section_of(ls, o, key);
    lemma_first_bounds(ls, o + 1, ls.len() as int, LineTest::Stop(d));
    lemma_first_bounds(ls, o + 1, block_stop(ls, o), LineTest::At(d + 2, key));
    lemma_last_before_stop(ls, f);
    lemma_first_bounds(ls, f + 1, ls.len() as int, LineTest::Stop(indent_of(ls[f])));
    let pos = block_last(ls, f) + 1;
    let line = entry_line(d, name);
    let l2 = insert_at(ls, pos, seq![line]);
    lemma_insert_agrees(ls, pos, seq![line]);
    assert(l2[pos] == line);
    assert(d >= 0) by {
        crate::text::lemma_indent_nonneg(ls[o]);
    }
    lemma_entry_line(d, name);
    lemma_found_passes(ls, o + 1, block_stop(ls, o), LineTest::At(d + 2, key));
    assert(indent_of(ls[f]) == d + 2);
    // the node's block in the new lines reaches past `f`
    lemma_stop_after(ls, l2, pos, o, f);
    lemma_found_stable(ls, l2, pos, o + 1, block_stop(ls, o), block_stop(l2, o), LineTest::At(d + 2, key));
    assert(section_of(l2, o, key) == f);
    // the section's block in the new lines reaches past `pos`
    assert(ls[f] == l2[f]);
    assert forall|j: int| f + 1 <= j <= pos implies !passes(LineTest::Stop(d + 2), #[trigger] l2[j]) by {
        if j < pos {
            assert(ls[j] == l2[j]);
        }
    }
    lemma_not_before(l2, f + 1, l2.len() as int, LineTest::Stop(d + 2), pos);
    lemma_first_bounds(l2, f + 1, l2.len() as int, LineTest::Stop(d + 2));
    // the entry is the first match in the section
    lemma_first_bounds(ls, f + 1, block_stop(ls, f), LineTest::At(d + 4, anchor_of(name)));
    lemma_found_at(
        ls,
        l2,
        pos,
        f + 1,
        block_stop(ls, f),
        block_stop(l2, f),
        LineTest::At(d + 4, anchor_of(name)),
    );
}

/// A section made at `q` with one entry makes that entry found.
proof fn lemma_new_section_found(ls: Seq<Seq<char>>, o: int, key: Seq<char>, name: Seq<char>, q: int)
    requires
        0 <= o < q <= block_stop(ls, o),
        well_named(name),
        key == "file:"@ || key == "tree:"@,
        section_of(ls, o, key) >= q,
    ensures
        ({
            let d = indent_of(ls[o]);
            let l2 = insert_at(ls, q, seq![key_line(d, key), entry_line(d, name)]);
            child(l2, o, key, name) == q + 1 && section_of(l2, o, key) == q
        }),
{
    let d = indent_of(ls[o]);
    lemma_first_bounds(ls, o + 1, ls.len() as int, LineTest::Stop(d));
    let new = seq![key_line(d, key), entry_line(d, name)];
    let l2 = insert_at(ls, q, new);
    lemma_insert_agrees(ls, q, new);
    assert(l2[q] == key_line(d, key));
    assert(l2[q + 1] == entry_line(d, name));
    assert(d >= 0) by {
        crate::text::lemma_indent_nonneg(ls[o]);
    }
    lemma_entry_line(d, name);
    lemma_key_line(d, key);
    assert(ls[o] == l2[o]);
    assert forall|j: int| o + 1 <= j <= q + 1 implies !passes(LineTest::Stop(d), #[trigger] l2[j]) by {
        if j < q {
            assert(ls[j] == l2[j]);
            lemma_none_before(ls, o + 1, ls.len() as int, LineTest::Stop(d), j);
        }
    }
    lemma_not_before(l2, o + 1, l2.len() as int, LineTest::Stop(d), q + 1);
    lemma_first_bounds(l2, o + 1, l2.len() as int, LineTest::Stop(d));
    lemma_first_bounds(ls, o + 1, block_stop(ls, o), LineTest::At(d + 2, key));
    lemma_found_at(ls, l2, q, o + 1, block_stop(ls, o), block_stop(l2, o), LineTest::At(d + 2, key));
    assert(section_of(l2, o, key) == q);
    assert forall|j: int| q + 1 <= j <= q + 1 implies !passes(LineTest::Stop(d + 2), #[trigger] l2[j]) by {}
    lemma_not_before(l2, q + 1, l2.len() as int, LineTest::Stop(d + 2), q + 1);
    assert(passes(LineTest::At(d + 4, anchor_of(name)), l2[q + 1]));
}

/// After making sure a node lists a file, it does; lines up to the node stay.
proof fn lemma_ensure_file_lists(ls: Seq<Seq<char>>, o: int, name: Seq<char>)
    requires
        0 <= o < ls.len(),
        well_named(name),
    ensures
        agree_before(ls, ensure_file(ls, o, name), o + 1),
        ensure_file(ls, o, name).len() >= ls.len(),
        child(ensure_file(ls, o, name), o, "file:"@, name) >= 0,
{
    let d = indent_of(ls[o]);
    let f = section_of(ls, o, "file:"@);
    let t = section_of(ls, o, "tree:"@);
    let stop = block_stop(ls, o);
    lemma_first_bounds(ls, o + 1, ls.len() as int, LineTest::Stop(d));
    lemma_first_bounds(ls, o + 1, stop, LineTest::At(d + 2, "file:"@));
    lemma_first_bounds(ls, o + 1, stop, LineTest::At(d + 2, "tree:"@));
    let l2 = ensure_file(ls, o, name);
    if child(ls, o, "file:"@, name) >= 0 {
        assert(l2 == ls);
    } else if f < stop {
        lemma_append_found(ls, o, "file:"@, name);
        let pos = block_last(ls, f) + 1;
        lemma_last_before_stop(ls, f);
        lemma_first_bounds(ls, f + 1, ls.len() as int, LineTest::Stop(indent_of(ls[f])));
        lemma_insert_agrees(ls, pos, seq![entry_line(d, name)]);
    } else if t < stop {
        lemma_new_section_found(ls, o, "file:"@, name, t);
        lemma_insert_agrees(ls, t, seq![key_line(d, "file:"@), entry_line(d, name)]);
    } else {
        lemma_last_before_stop(ls, o);
        let q = block_last(ls, o) + 1;
        lemma_new_section_found(ls, o, "file:"@, name, q);
        lemma_insert_agrees(ls, q, seq![key_line(d, "file:"@), entry_line(d, name)]);
    }
}

/// After making sure a node has a child node, it has, on the line that is returned;
/// lines up to the node stay.
proof fn lemma_ensure_node_found(ls: Seq<Seq<char>>, o: int, name: Seq<char>)
    requires
        0 <= o < ls.len(),
        well_named(name),
    ensures
        agree_before(ls, ensure_node(ls, o, name).0, o + 1),
        ensure_node(ls, o, name).0.len() >= ls.len(),
        child(ensure_node(ls, o, name).0, o, "tree:"@, name) == ensure_node(ls, o, name).1,
        ensure_node(ls, o, name).1 >= 0,
{
    let d = indent_of(ls[o]);
    let t = section_of(ls, o, "tree:"@);
    let stop = block_stop(ls, o);
    lemma_first_bounds(ls, o + 1, ls.len() as int, LineTest::Stop(d));
    lemma_first_bounds(ls, o + 1, stop, LineTest::At(d + 2, "tree:"@));
    if child(ls, o, "tree:"@, name) >= 0 {
    } else if t < stop {
        lemma_append_found(ls, o, "tree:"@, name);
        let pos = block_last(ls, t) + 1;
        lemma_last_before_stop(ls, t);
        lemma_first_bounds(ls, t + 1, ls.len() as int, LineTest::Stop(indent_of(ls[t])));
        lemma_insert_agrees(ls, pos, seq![entry_line(d, name)]);
    } else {
        lemma_last_before_stop(ls, o);
        let q = block_last(ls, o) + 1;
        lemma_new_section_found(ls, o, "tree:"@, name, q);
        lemma_insert_agrees(ls, q, seq![key_line(d, "tree:"@), entry_line(d, name)]);
    }
}

/// Every name of a path reads back exactly.
pub open spec fn path_well_named(path: Seq<Seq<char>>) -> bool {
    forall|i: int| 0 <= i < path.len() ==> #[trigger] well_named(path[i])
}

proof fn lemma_agree_trans(a: Seq<Seq<char>>, b: Seq<Seq<char>>, c: Seq<Seq<char>>, p: int, q: int)
    requires
        agree_before(a, b, p),
        agree_before(b, c, q),
        p <= q,
    ensures
        agree_before(a, c, p),
{
    assert forall|i: int| 0 <= i < p implies #[trigger] a[i] == c[i] by {
        assert(a[i] == b[i]);
        assert(b[i] == c[i]);
    }
}

/// After making sure a path exists below line `p`, the path walks to the line that
/// is returned, and the lines up to `p` stay.
proof fn lemma_ensure_path_walks(ls: Seq<Seq<char>>, p: int, path: Seq<Seq<char>>, k: int)
    requires
        0 <= p < ls.len(),
        0 <= k <= path.len(),
        path_well_named(path),
    ensures
        agree_before(ls, ensure_path(ls, p, path, k).0, p + 1),
        ensure_path(ls, p, path, k).0.len() >= ls.len(),
        p <= ensure_path(ls, p, path, k).1 < ensure_path(ls, p, path, k).0.len(),
        walk(ensure_path(ls, p, path, k).0, p, path, k) == Ok::<int, int>(
            ensure_path(ls, p, path, k).1,
        ),
    decreases path.len() - k,
{
    if k < path.len() {
        assert(well_named(path[k]));
        let (l1, c) = ensure_node(ls, p, path[k]);
        lemma_ensure_node_found(ls, p, path[k]);
        lemma_child_after(l1, p, "tree:"@, path[k]);
        lemma_ensure_path_walks(l1, c, path, k + 1);
        let (l2, n) = ensure_path(l1, c, path, k + 1);
        assert(ensure_path(ls, p, path, k) == (l2, n));
        lemma_child_stable(l1, l2, c + 1, p, "tree:"@, path[k]);
        lemma_agree_trans(ls, l1, l2, p + 1, c + 1);
        assert(walk(l2, p, path, k) == walk(l2, c, path, k + 1));
    } else {
        assert(agree_before(ls, ls, p + 1));
    }
}

/// Adding a file twice leaves the lines that adding it once gives, when every name
/// on its path, and its layout name, reads back exactly (not empty, no trailing
/// blank).
pub proof fn lemma_add_file_twice(ls: Seq<Seq<char>>, project: int, path: Seq<Seq<char>>, lang: Seq<char>)
    requires
        path.len() > 0,
        0 <= nth_header(ls, 0, project) < ls.len(),
        path_well_named(path.drop_last()),
        well_named(entry_name(path.last(), lang)),
    ensures
        addition(ls, project, path, false, lang, Seq::empty()) is Done,
        addition(
            addition(ls, project, path, false, lang, Seq::empty())->Done_0,
            project,
            path,
            false,
            lang,
            Seq::empty(),
        ) == addition(ls, project, path, false, lang, Seq::empty()),
{
    let ps = nth_header(ls, 0, project);
    let dirs = path.drop_last();
    let stem = entry_name(path.last(), lang);
    lemma_ensure_path_walks(ls, ps, dirs, 0);
    let (l1, o) = ensure_path(ls, ps, dirs, 0);
    let l2 = ensure_file(l1, o, stem);
    assert(addition(ls, project, path, false, lang, Seq::empty()) == Outcome::Done(l2));
    lemma_ensure_file_lists(l1, o, stem);
    lemma_header_stable(ls, l1, ps + 1, 0, project);
    lemma_header_stable(l1, l2, o + 1, 0, project);
    lemma_walk_stable(l1, l2, o + 1, ps, dirs, 0);
    lemma_existing_path(l2, ps, dirs, 0);
    assert(ensure_file(l2, o, stem) == l2);
}

/// Adding a directory twice, with nothing found inside it, leaves the lines that
/// adding it once gives, when every name on its path reads back exactly (not
/// empty, no trailing blank).
pub proof fn lemma_add_directory_twice(
    ls: Seq<Seq<char>>,
    project: int,
    path: Seq<Seq<char>>,
    lang: Seq<char>,
)
    requires
        path.len() > 0,
        0 <= nth_header(ls, 0, project) < ls.len(),
        path_well_named(path),
    ensures
        addition(ls, project, path, true, lang, Seq::empty()) is Done,
        addition(
            addition(ls, project, path, true, lang, Seq::empty())->Done_0,
            project,
            path,
            true,
            lang,
            Seq::empty(),
        ) == addition(ls, project, path, true, lang, Seq::empty()),
{
    let ps = nth_header(ls, 0, project);
    lemma_ensure_path_walks(ls, ps, path, 0);
    let (l2, n) = ensure_path(ls, ps, path, 0);
    assert(addition(ls, project, path, true, lang, Seq::empty()) == Outcome::Done(l2));
    lemma_header_stable(ls, l2, ps + 1, 0, project);
    lemma_existing_path(l2, ps, path, 0);
}

/// A name fit for a line of its own: it reads back exactly and holds no newline.
pub open spec fn line_name(name: Seq<char>) -> bool {
    well_named(name) && !name.contains('\n')
}

/// Every name of a path is fit for a line of its own.
pub open spec fn path_line_names(path: Seq<Seq<char>>) -> bool {
    forall|i: int| 0 <= i < path.len() ==> #[trigger] line_name(path[i])
}

proof fn lemma_padded_clean(n: nat, s: Seq<char>)
    requires
        !s.contains('\n'),
        s.len() > 0,
    ensures
        !(spaces(n) + s).contains('\n'),
        (spaces(n) + s).len() > 0,
{
    let l = spaces(n) + s;
    assert forall|j: int| 0 <= j < l.len() implies l[j] != '\n' by {
        if j < n {
            assert(l[j] == ' ');
        } else {
            assert(l[j] == s[j - n]);
            if s[j - n] == '\n' {
                assert(s.contains('\n'));
            }
        }
    }
}

proof fn lemma_entry_clean(d: int, name: Seq<char>)
    requires
        d >= 0,
        !name.contains('\n'),
    ensures
        !entry_line(d, name).contains('\n'),
        entry_line(d, name).len() > 0,
{
    reveal_strlit("- name: ");
    let a = anchor_of(name);
    assert forall|j: int| 0 <= j < a.len() implies a[j] != '\n' by {
        if j >= 8 {
            assert(a[j] == name[j - 8]);
            if name[j - 8] == '\n' {
                assert(name.contains('\n'));
            }
        }
    }
    if a.contains('\n') {
        let w = choose|w: int| 0 <= w < a.len() && a[w] == '\n';
        assert(false);
    }
    assert(spaces(d as nat) + spaces(4) + a =~= spaces((d + 4) as nat) + a);
    lemma_padded_clean((d + 4) as nat, a);
}

proof fn lemma_key_clean(d: int, key: Seq<char>)
    requires
        d >= 0,
        key == "file:"@ || key == "tree:"@,
    ensures
        !key_line(d, key).contains('\n'),
        key_line(d, key).len() > 0,
{
    reveal_strlit("file:");
    reveal_strlit("tree:");
    if key.contains('\n') {
        let w = choose|w: int| 0 <= w < key.len() && key[w] == '\n';
        assert(false);
    }
    assert(spaces(d as nat) + spaces(2) + key =~= spaces((d + 2) as nat) + key);
    lemma_padded_clean((d + 2) as nat, key);
}

proof fn lemma_clean_insert(ls: Seq<Seq<char>>, pos: int, new: Seq<Seq<char>>)
    requires
        0 <= pos <= ls.len(),
        clean_lines(ls),
        new.len() > 0,
        forall|j: int| 0 <= j < new.len() ==> !(#[trigger] new[j]).contains('\n') && new[j].len() > 0,
    ensures
        clean_lines(insert_at(ls, pos, new)),
{
    let l2 = insert_at(ls, pos, new);
    lemma_insert_agrees(ls, pos, new);
    assert forall|i: int| 0 <= i < l2.len() implies !(#[trigger] l2[i]).contains('\n') by {
        if i < pos {
            assert(l2[i] == ls[i]);
        } else if i < pos + new.len() {
            assert(l2[i] == new[i - pos]);
        } else {
            assert(l2[i] == ls[i - new.len()]);
        }
    }
}

proof fn lemma_ensure_node_clean(ls: Seq<Seq<char>>, o: int, name: Seq<char>)
    requires
        0 <= o < ls.len(),
        clean_lines(ls),
        !name.contains('\n'),
    ensures
        clean_lines(ensure_node(ls, o, name).0),
{
    let d = indent_of(ls[o]);
    crate::text::lemma_indent_nonneg(ls[o]);
    lemma_entry_clean(d, name);
    lemma_key_clean(d, "tree:"@);
    let t = section_of(ls, o, "tree:"@);
    lemma_first_bounds(ls, o + 1, ls.len() as int, LineTest::Stop(d));
    lemma_first_bounds(ls, o + 1, block_stop(ls, o), LineTest::At(d + 2, "tree:"@));
    if child(ls, o, "tree:"@, name) < 0 {
        if t < block_stop(ls, o) {
            lemma_last_before_stop(ls, t);
            lemma_first_bounds(ls, t + 1, ls.len() as int, LineTest::Stop(indent_of(ls[t])));
            lemma_clean_insert(ls, block_last(ls, t) + 1, seq![entry_line(d, name)]);
        } else {
            lemma_last_before_stop(ls, o);
            lemma_clean_insert(
                ls,
                block_last(ls, o) + 1,
                seq![key_line(d, "tree:"@), entry_line(d, name)],
            );
        }
    }
}

proof fn lemma_ensure_file_clean(ls: Seq<Seq<char>>, o: int, name: Seq<char>)
    requires
        0 <= o < ls.len(),
        clean_lines(ls),
        !name.contains('\n'),
    ensures
        clean_lines(ensure_file(ls, o, name)),
{
    let d = indent_of(ls[o]);
    crate::text::lemma_indent_nonneg(ls[o]);
    lemma_entry_clean(d, name);
    lemma_key_clean(d, "file:"@);
    let f = section_of(ls, o, "file:"@);
    let t = section_of(ls, o, "tree:"@);
    let stop = block_stop(ls, o);
    lemma_first_bounds(ls, o + 1, ls.len() as int, LineTest::Stop(d));
    lemma_first_bounds(ls, o + 1, stop, LineTest::At(d + 2, "file:"@));
    lemma_first_bounds(ls, o + 1, stop, LineTest::At(d + 2, "tree:"@));
    let new_section = seq![key_line(d, "file:"@), entry_line(d, name)];
    if child(ls, o, "file:"@, name) < 0 {
        if f < stop {
            lemma_last_before_stop(ls, f);
            lemma_first_bounds(ls, f + 1, ls.len() as int, LineTest::Stop(indent_of(ls[f])));
            lemma_clean_insert(ls, block_last(ls, f) + 1, seq![entry_line(d, name)]);
        } else if t < stop {
            lemma_clean_insert(ls, t, new_section);
        } else {
            lemma_last_before_stop(ls, o);
            lemma_clean_insert(ls, block_last(ls, o) + 1, new_section);
        }
    }
}

/// Adding a file to a layout text twice gives the text that adding it once gives,
/// when every name on its path, and its layout name, fits a line of its own (not
/// empty, no trailing blank, no newline).
pub proof fn lemma_add_file_text_twice(text: Seq<char>, project: int, path: Seq<Seq<char>>, lang: Seq<char>)
    requires
        path.len() > 0,
        0 <= nth_header(lines_of(text), 0, project) < lines_of(text).len(),
        path_line_names(path.drop_last()),
        line_name(entry_name(path.last(), lang)),
    ensures
        added_text(text, project, path, false, lang, Seq::empty()) is Some,
        added_text(
            added_text(text, project, path, false, lang, Seq::empty())->0,
            project,
            path,
            false,
            lang,
            Seq::empty(),
        ) == added_text(text, project, path, false, lang, Seq::empty()),
{
    let ls = lines_of(text);
    let ps = nth_header(ls, 0, project);
    let dirs = path.drop_last();
    let stem = entry_name(path.last(), lang);
    assert(path_well_named(dirs)) by {
        assert forall|i: int| 0 <= i < dirs.len() implies #[trigger] well_named(dirs[i]) by {
            assert(line_name(dirs[i]));
        }
    }
    lemma_add_file_twice(ls, project, path, lang);
    lemma_ensure_path_walks(ls, ps, dirs, 0);
    lemma_lines_clean(text);
    assert forall|i: int| 0 <= i < dirs.len() implies !(#[trigger] dirs[i]).contains('\n') by {
        assert(line_name(dirs[i]));
    }
    lemma_ensure_path_clean(ls, ps, dirs, 0);
    let (l1, o) = ensure_path(ls, ps, dirs, 0);
    lemma_ensure_file_clean(l1, o, stem);
    lemma_ensure_file_lists(l1, o, stem);
    let l2 = ensure_file(l1, o, stem);
    assert(addition(ls, project, path, false, lang, Seq::empty()) == Outcome::Done(l2));
    if l2 != ls {
        lemma_lines_of_joined(l2, text);
    }
}

/// Adding a directory, with nothing found inside it, to a layout text twice gives
/// the text that adding it once gives, when every name on its path fits a line of
/// its own.
pub proof fn lemma_add_directory_text_twice(
    text: Seq<char>,
    project: int,
    path: Seq<Seq<char>>,
    lang: Seq<char>,
)
    requires
        path.len() > 0,
        0 <= nth_header(lines_of(text), 0, project) < lines_of(text).len(),
        path_line_names(path),
    ensures
        added_text(text, project, path, true, lang, Seq::empty()) is Some,
        added_text(
            added_text(text, project, path, true, lang, Seq::empty())->0,
            project,
            path,
            true,
            lang,
            Seq::empty(),
        ) == added_text(text, project, path, true, lang, Seq::empty()),
{
    let ls = lines_of(text);
    let ps = nth_header(ls, 0, project);
    assert(path_well_named(path)) by {
        assert forall|i: int| 0 <= i < path.len() implies #[trigger] well_named(path[i]) by {
            assert(line_name(path[i]));
        }
    }
    lemma_add_directory_twice(ls, project, path, lang);
    lemma_ensure_path_walks(ls, ps, path, 0);
    lemma_lines_clean(text);
    assert forall|i: int| 0 <= i < path.len() implies !(#[trigger] path[i]).contains('\n') by {
        assert(line_name(path[i]));
    }
    lemma_ensure_path_clean(ls, ps, path, 0);
    let (l2, n) = ensure_path(ls, ps, path, 0);
    assert(addition(ls, project, path, true, lang, Seq::empty()) == Outcome::Done(l2));
    if l2 != ls {
        lemma_lines_of_joined(l2, text);
    }
}

/// Once a span has stopped, scanning again from just after its last line stops at once.
proof fn lemma_span_again(ls: Seq<Seq<char>>, d: int, j: int, last: int)
    requires
        0 <= last < j,
        forall|x: int| last < x < j ==> #[trigger] is_blank(ls[x]),
    ensures
        span_last(ls, d, span_last(ls, d, j, last) + 1, span_last(ls, d, j, last)) == span_last(
            ls,
            d,
            j,
            last,
        ),
    decreases ls.len() - j,
{
    if j < ls.len() {
        if is_blank(ls[j]) {
            lemma_span_again(ls, d, j + 1, last);
        } else if indent_of(ls[j]) > d {
            lemma_span_again(ls, d, j + 1, j);
        } else {
            lemma_span_skip(ls, d, last + 1, last, j);
        }
    } else {
        lemma_span_skip(ls, d, last + 1, last, j);
    }
}

/// A span that meets only blank lines up to `j` goes on as from `j`.
proof fn lemma_span_skip(ls: Seq<Seq<char>>, d: int, x: int, last: int, j: int)
    requires
        0 <= x <= j,
        forall|y: int| x <= y < j ==> #[trigger] is_blank(ls[y]),
        j < ls.len() ==> !is_blank(ls[j]) && indent_of(ls[j]) <= d,
    ensures
        span_last(ls, d, x, last) == last,
    decreases j - x,
{
    if x < j {
        if x < ls.len() {
            lemma_span_skip(ls, d, x + 1, last, j);
        }
    }
}

/// A span that finds nothing deeper keeps finding nothing over the same lines with a
/// deeper threshold, wherever they sit.
proof fn lemma_span_shifted(a: Seq<Seq<char>>, b: Seq<Seq<char>>, off: int, d: int, e: int, j: int, la: int, lb: int)
    requires
        0 <= j,
        la < j,
        j + off >= 0,
        d <= e,
        b.len() == a.len() + off,
        forall|x: int| j <= x < a.len() ==> #[trigger] b[x + off] == a[x],
        span_last(a, d, j, la) == la,
    ensures
        span_last(b, e, j + off, lb) == lb,
    decreases a.len() - j,
{
    if j < a.len() {
        assert(b[j + off] == a[j]);
        if is_blank(a[j]) {
            lemma_span_shifted(a, b, off, d, e, j + 1, la, lb);
        } else if indent_of(a[j]) > d {
            let r = span_last(a, d, j + 1, j);
            lemma_span_bounds(a, d, j + 1, j);
            assert(false);
        }
    }
}

/// An entry appended to an existing section and then cut with its block leaves the
/// lines as they were, and the cut finds that entry with nothing below it.
proof fn lemma_append_then_cut(ls: Seq<Seq<char>>, o: int, key: Seq<char>, name: Seq<char>)
    requires
        0 <= o < ls.len(),
        well_named(name),
        section_of(ls, o, key) < block_stop(ls, o),
        child(ls, o, key, name) < 0,
    ensures
        ({
            let d = indent_of(ls[o]);
            let pos = block_last(ls, section_of(ls, o, key)) + 1;
            let l2 = insert_at(ls, pos, seq![entry_line(d, name)]);
            &&& o < pos <= ls.len()
            &&& agree_before(ls, l2, o + 1)
            &&& child(l2, o, key, name) == pos
            &&& section_of(l2, o, key) == section_of(ls, o, key)
            &&& block_last(l2, pos) == pos
            &&& cut(l2, pos, pos) == ls
        }),
{
    let d = indent_of(ls[o]);
    let f = section_of(ls, o, key);
    let pos = block_last(ls, f) + 1;
    let line = entry_line(d, name);
    let l2 = insert_at(ls, pos, seq![line]);
    lemma_append_found(ls, o, key, name);
    lemma_first_bounds(ls, o + 1, ls.len() as int, LineTest::Stop(d));
    lemma_first_bounds(ls, o + 1, block_stop(ls, o), LineTest::At(d + 2, key));
    lemma_last_before_stop(ls, f);
    lemma_first_bounds(ls, f + 1, ls.len() as int, LineTest::Stop(indent_of(ls[f])));
    lemma_insert_agrees(ls, pos, seq![line]);
    lemma_agree_trans(ls, l2, l2, o + 1, o + 1);
    crate::text::lemma_indent_nonneg(ls[o]);
    lemma_entry_line(d, name);
    lemma_found_passes(ls, o + 1, block_stop(ls, o), LineTest::At(d + 2, key));
    lemma_span_again(ls, d + 2, f + 1, f);
    assert forall|x: int| pos <= x < ls.len() implies #[trigger] l2[x + 1] == ls[x] by {
        assert(l2[x + 1] == ls.subrange(pos, ls.len() as int)[x - pos]);
    }
    lemma_span_shifted(ls, l2, 1, d + 2, d + 4, pos, pos - 1, pos);
    assert(cut(l2, pos, pos) =~= ls);
}

/// Where the entry of a file added to the node on line `o` goes: the lines put in
/// and the line they are put before.
pub open spec fn file_insertion(ls: Seq<Seq<char>>, o: int, name: Seq<char>) -> (int, Seq<Seq<char>>) {
    let d = indent_of(ls[o]);
    let f = section_of(ls, o, "file:"@);
    let t = section_of(ls, o, "tree:"@);
    if f < block_stop(ls, o) {
        (block_last(ls, f) + 1, seq![entry_line(d, name)])
    } else if t < block_stop(ls, o) {
        (t, seq![key_line(d, "file:"@), entry_line(d, name)])
    } else {
        (block_last(ls, o) + 1, seq![key_line(d, "file:"@), entry_line(d, name)])
    }
}

/// Adding an unlisted file to the node on line `o` and then cutting its entry gives
/// the lines back once empty `file:` sections are dropped.
proof fn lemma_file_round_trip(ls: Seq<Seq<char>>, o: int, name: Seq<char>)
    requires
        0 <= o < ls.len(),
        dashed(ls[o]),
        well_named(name),
        child(ls, o, "file:"@, name) < 0,
        section_of(ls, o, "file:"@) < block_stop(ls, o) ==> has_entries(ls, section_of(ls, o, "file:"@)),
    ensures
        ({
            let (pos, new) = file_insertion(ls, o, name);
            let l2 = insert_at(ls, pos, new);
            let c = child(l2, o, "file:"@, name);
            &&& o < pos <= ls.len()
            &&& ensure_file(ls, o, name) == l2
            &&& agree_before(ls, l2, o + 1)
            &&& c >= 0
            &&& (if has_entries(cut(l2, c, block_last(l2, c)), section_of(l2, o, "file:"@)) {
                cut(l2, c, block_last(l2, c))
            } else {
                cut(cut(l2, c, block_last(l2, c)), section_of(l2, o, "file:"@), section_of(l2, o, "file:"@))
            }) == ls
            &&& forall|j: int| 0 <= j < new.len() ==> (line_name(name) ==> !(#[trigger] new[j]).contains('\n') && new[j].len() > 0)
        }),
{
    let d = indent_of(ls[o]);
    let f = section_of(ls, o, "file:"@);
    let t = section_of(ls, o, "tree:"@);
    let stop = block_stop(ls, o);
    crate::text::lemma_indent_nonneg(ls[o]);
    lemma_first_bounds(ls, o + 1, ls.len() as int, LineTest::Stop(d));
    lemma_first_bounds(ls, o + 1, stop, LineTest::At(d + 2, "file:"@));
    lemma_first_bounds(ls, o + 1, stop, LineTest::At(d + 2, "tree:"@));
    lemma_last_before_stop(ls, o);
    let (pos, new) = file_insertion(ls, o, name);
    let l2 = insert_at(ls, pos, new);
    if f < stop {
        lemma_append_then_cut(ls, o, "file:"@, name);
    } else {
        lemma_section_then_cut(ls, o, "file:"@, name, pos);
        let l3 = cut(l2, pos + 1, pos + 1);
        assert(l3.len() == ls.len() + 1) by {
            lemma_insert_agrees(ls, pos, new);
        }
    }
    lemma_insert_agrees(ls, pos, new);
    lemma_agree_trans(ls, l2, l2, o + 1, pos);
    if line_name(name) {
        lemma_entry_clean(d, name);
        lemma_key_clean(d, "file:"@);
    }
}

/// Removing a file right after adding it gives the lines back, when the directories
/// on its path stand, the file was not listed, its layout name reads back exactly,
/// and the file section it goes into, if there is one, lists something.
pub proof fn lemma_add_then_remove_file(ls: Seq<Seq<char>>, project: int, path: Seq<Seq<char>>, lang: Seq<char>)
    requires
        path.len() > 0,
        0 <= nth_header(ls, 0, project) < ls.len(),
        walk(ls, nth_header(ls, 0, project), path.drop_last(), 0) is Ok,
        child(
            ls,
            walk(ls, nth_header(ls, 0, project), path.drop_last(), 0)->Ok_0,
            "file:"@,
            entry_name(path.last(), lang),
        ) < 0,
        well_named(entry_name(path.last(), lang)),
        section_of(ls, walk(ls, nth_header(ls, 0, project), path.drop_last(), 0)->Ok_0, "file:"@)
            < block_stop(ls, walk(ls, nth_header(ls, 0, project), path.drop_last(), 0)->Ok_0)
            ==> has_entries(
            ls,
            section_of(ls, walk(ls, nth_header(ls, 0, project), path.drop_last(), 0)->Ok_0, "file:"@),
        ),
    ensures
        addition(ls, project, path, false, lang, Seq::empty()) is Done,
        removal(
            addition(ls, project, path, false, lang, Seq::empty())->Done_0,
            project,
            path.drop_last(),
            "file:"@,
            entry_name(path.last(), lang),
        ) == Outcome::Done(ls),
{
    let ps = nth_header(ls, 0, project);
    let dirs = path.drop_last();
    let stem = entry_name(path.last(), lang);
    let o = walk(ls, ps, dirs, 0)->Ok_0;
    lemma_existing_path(ls, ps, dirs, 0);
    lemma_walk_after(ls, ps, dirs, 0);
    lemma_header_dashed(ls, 0, project);
    lemma_walk_dashed(ls, ps, dirs, 0);
    lemma_file_round_trip(ls, o, stem);
    let (pos, new) = file_insertion(ls, o, stem);
    let l2 = insert_at(ls, pos, new);
    assert(addition(ls, project, path, false, lang, Seq::empty()) == Outcome::Done(l2));
    lemma_header_stable(ls, l2, o + 1, 0, project);
    lemma_walk_stable(ls, l2, o + 1, ps, dirs, 0);
}

proof fn lemma_ensure_snoc(ls: Seq<Seq<char>>, p: int, dirs: Seq<Seq<char>>, x: Seq<char>, k: int)
    requires
        0 <= k <= dirs.len(),
    ensures
        ensure_path(ls, p, dirs.push(x), k) == ensure_node(
            ensure_path(ls, p, dirs, k).0,
            ensure_path(ls, p, dirs, k).1,
            x,
        ),
    decreases dirs.len() - k,
{
    let path = dirs.push(x);
    if k < dirs.len() {
        assert(path[k] == dirs[k]);
        let (l2, c) = ensure_node(ls, p, dirs[k]);
        assert(ensure_path(ls, p, dirs, k) == ensure_path(l2, c, dirs, k + 1));
        assert(ensure_path(ls, p, path, k) == ensure_path(l2, c, path, k + 1));
        lemma_ensure_snoc(l2, c, dirs, x, k + 1);
    } else {
        assert(path[k] == x);
        assert(ensure_path(ls, p, dirs, k) == (ls, p));
        let (l2, c) = ensure_node(ls, p, x);
        assert(ensure_path(l2, c, path, k + 1) == (l2, c));
    }
}

/// Where the entry of a directory added to the node on line `o` goes: the lines put
/// in and the line they are put before.
pub open spec fn node_insertion(ls: Seq<Seq<char>>, o: int, name: Seq<char>) -> (int, Seq<Seq<char>>) {
    let d = indent_of(ls[o]);
    let t = section_of(ls, o, "tree:"@);
    if t < block_stop(ls, o) {
        (block_last(ls, t) + 1, seq![entry_line(d, name)])
    } else {
        (block_last(ls, o) + 1, seq![key_line(d, "tree:"@), entry_line(d, name)])
    }
}

/// Adding an unlisted child node to the node on line `o` and then cutting it gives
/// the lines back once empty `tree:` sections are dropped.
proof fn lemma_node_round_trip(ls: Seq<Seq<char>>, o: int, name: Seq<char>)
    requires
        0 <= o < ls.len(),
        dashed(ls[o]),
        well_named(name),
        child(ls, o, "tree:"@, name) < 0,
        section_of(ls, o, "tree:"@) < block_stop(ls, o) ==> has_entries(ls, section_of(ls, o, "tree:"@)),
    ensures
        ({
            let (pos, new) = node_insertion(ls, o, name);
            let l2 = insert_at(ls, pos, new);
            let c = child(l2, o, "tree:"@, name);
            &&& o < pos <= ls.len()
            &&& ensure_node(ls, o, name).0 == l2
            &&& agree_before(ls, l2, o + 1)
            &&& c >= 0
            &&& (if has_entries(cut(l2, c, block_last(l2, c)), section_of(l2, o, "tree:"@)) {
                cut(l2, c, block_last(l2, c))
            } else {
                cut(cut(l2, c, block_last(l2, c)), section_of(l2, o, "tree:"@), section_of(l2, o, "tree:"@))
            }) == ls
            &&& forall|j: int| 0 <= j < new.len() ==> (line_name(name) ==> !(#[trigger] new[j]).contains('\n') && new[j].len() > 0)
        }),
{
    let d = indent_of(ls[o]);
    let t = section_of(ls, o, "tree:"@);
    let stop = block_stop(ls, o);
    crate::text::lemma_indent_nonneg(ls[o]);
    lemma_first_bounds(ls, o + 1, ls.len() as int, LineTest::Stop(d));
    lemma_first_bounds(ls, o + 1, stop, LineTest::At(d + 2, "tree:"@));
    lemma_last_before_stop(ls, o);
    let (pos, new) = node_insertion(ls, o, name);
    let l2 = insert_at(ls, pos, new);
    if t < stop {
        lemma_append_then_cut(ls, o, "tree:"@, name);
    } else {
        lemma_section_then_cut(ls, o, "tree:"@, name, pos);
        lemma_insert_agrees(ls, pos, new);
    }
    lemma_insert_agrees(ls, pos, new);
    lemma_agree_trans(ls, l2, l2, o + 1, pos);
    if line_name(name) {
        lemma_entry_clean(d, name);
        lemma_key_clean(d, "tree:"@);
    }
}

/// Removing a directory right after adding it (with nothing found inside) gives the
/// lines back, when its parent directories stand, the directory was not listed, its
/// name reads back exactly, and the directory section it goes into, if there is
/// one, lists something.
pub proof fn lemma_add_then_remove_directory(
    ls: Seq<Seq<char>>,
    project: int,
    path: Seq<Seq<char>>,
    lang: Seq<char>,
)
    requires
        path.len() > 0,
        0 <= nth_header(ls, 0, project) < ls.len(),
        walk(ls, nth_header(ls, 0, project), path.drop_last(), 0) is Ok,
        child(
            ls,
            walk(ls, nth_header(ls, 0, project), path.drop_last(), 0)->Ok_0,
            "tree:"@,
            path.last(),
        ) < 0,
        well_named(path.last()),
        section_of(ls, walk(ls, nth_header(ls, 0, project), path.drop_last(), 0)->Ok_0, "tree:"@)
            < block_stop(ls, walk(ls, nth_header(ls, 0, project), path.drop_last(), 0)->Ok_0)
            ==> has_entries(
            ls,
            section_of(ls, walk(ls, nth_header(ls, 0, project), path.drop_last(), 0)->Ok_0, "tree:"@),
        ),
    ensures
        addition(ls, project, path, true, lang, Seq::empty()) is Done,
        removal(
            addition(ls, project, path, true, lang, Seq::empty())->Done_0,
            project,
            path.drop_last(),
            "tree:"@,
            path.last(),
        ) == Outcome::Done(ls),
{
    let ps = nth_header(ls, 0, project);
    let dirs = path.drop_last();
    let x = path.last();
    assert(dirs.push(x) =~= path);
    let o = walk(ls, ps, dirs, 0)->Ok_0;
    lemma_existing_path(ls, ps, dirs, 0);
    lemma_walk_after(ls, ps, dirs, 0);
    lemma_ensure_snoc(ls, ps, dirs, x, 0);
    lemma_header_dashed(ls, 0, project);
    lemma_walk_dashed(ls, ps, dirs, 0);
    lemma_node_round_trip(ls, o, x);
    let (pos, new) = node_insertion(ls, o, x);
    let l2 = insert_at(ls, pos, new);
    assert(addition(ls, project, path, true, lang, Seq::empty()) == Outcome::Done(l2));
    lemma_header_stable(ls, l2, o + 1, 0, project);
    lemma_walk_stable(ls, l2, o + 1, ps, dirs, 0);
}

/// The text after a removal, when it succeeds.
pub open spec fn removed_text(
    text: Seq<char>,
    project: int,
    parents: Seq<Seq<char>>,
    key: Seq<char>,
    name: Seq<char>,
) -> Option<Seq<char>> {
    match removal(lines_of(text), project, parents, key, name) {
        Outcome::Done(ls) => Some(edited_text(ls, text)),
        _ => None,
    }
}

/// Lines with clean, non-empty lines put in, as text, split back into those lines;
/// and the lines before, written over that text, give the text back.
proof fn lemma_text_insert_round_trip(text: Seq<char>, pos: int, new: Seq<Seq<char>>)
    requires
        0 <= pos <= lines_of(text).len(),
        new.len() > 0,
        forall|j: int| 0 <= j < new.len() ==> !(#[trigger] new[j]).contains('\n') && new[j].len() > 0,
    ensures
        ({
            let ls = lines_of(text);
            let l2 = insert_at(ls, pos, new);
            let x = edited_text(l2, text);
            &&& lines_of(x) == l2
            &&& edited_text(ls, x) == text
        }),
{
    let ls = lines_of(text);
    let l2 = insert_at(ls, pos, new);
    lemma_lines_clean(text);
    lemma_clean_insert(ls, pos, new);
    lemma_insert_agrees(ls, pos, new);
    assert(l2 != ls) by {
        assert(l2.len() == ls.len() + new.len());
    }
    let x = join_like(l2, text);
    lemma_lines_of_joined(l2, text);
    lemma_joined_lines_of(text);
    let ends = text.len() > 0 && text.last() == '\n';
    // the last line of the new lines is empty only when the text's was, and then the
    // text ends with a newline
    if pos < ls.len() {
        assert(l2.last() == ls.last());
    } else {
        assert(l2.last() == new.last());
    }
    if ls.len() > 0 && ls.last().len() == 0 {
        lemma_last_line_empty(text);
    }
    let pushed = (ends || l2.last().len() == 0);
    assert(pushed == ends);
    if !pushed {
        lemma_join_last(l2);
        assert(l2.last().last() != '\n') by {
            let l = l2.last();
            assert(l[l.len() - 1] == l.last());
            if l.last() == '\n' {
                assert(l.contains('\n'));
            }
            assert(!l2[l2.len() - 1].contains('\n'));
        }
    }
    assert((x.len() > 0 && x.last() == '\n') == ends);
    assert(join_like(ls, x) == join_like(ls, text));
}

/// Removing a file right after adding it gives the text back, under the conditions
/// of `lemma_add_then_remove_file`, when the layout name holds no newline.
pub proof fn lemma_add_then_remove_file_text(
    text: Seq<char>,
    project: int,
    path: Seq<Seq<char>>,
    lang: Seq<char>,
)
    requires
        path.len() > 0,
        0 <= nth_header(lines_of(text), 0, project) < lines_of(text).len(),
        walk(lines_of(text), nth_header(lines_of(text), 0, project), path.drop_last(), 0) is Ok,
        child(
            lines_of(text),
            walk(lines_of(text), nth_header(lines_of(text), 0, project), path.drop_last(), 0)->Ok_0,
            "file:"@,
            entry_name(path.last(), lang),
        ) < 0,
        line_name(entry_name(path.last(), lang)),
        section_of(
            lines_of(text),
            walk(lines_of(text), nth_header(lines_of(text), 0, project), path.drop_last(), 0)->Ok_0,
            "file:"@,
        ) < block_stop(
            lines_of(text),
            walk(lines_of(text), nth_header(lines_of(text), 0, project), path.drop_last(), 0)->Ok_0,
        ) ==> has_entries(
            lines_of(text),
            section_of(
                lines_of(text),
                walk(lines_of(text), nth_header(lines_of(text), 0, project), path.drop_last(), 0)->Ok_0,
                "file:"@,
            ),
        ),
    ensures
        added_text(text, project, path, false, lang, Seq::empty()) is Some,
        removed_text(
            added_text(text, project, path, false, lang, Seq::empty())->0,
            project,
            path.drop_last(),
            "file:"@,
            entry_name(path.last(), lang),
        ) == Some(text),
{
    let ls = lines_of(text);
    let ps = nth_header(ls, 0, project);
    let dirs = path.drop_last();
    let stem = entry_name(path.last(), lang);
    lemma_add_then_remove_file(ls, project, path, lang);
    let o = walk(ls, ps, dirs, 0)->Ok_0;
    lemma_walk_after(ls, ps, dirs, 0);
    lemma_existing_path(ls, ps, dirs, 0);
    lemma_header_dashed(ls, 0, project);
    lemma_walk_dashed(ls, ps, dirs, 0);
    lemma_file_round_trip(ls, o, stem);
    let (pos, new) = file_insertion(ls, o, stem);
    let l2 = insert_at(ls, pos, new);
    assert(addition(ls, project, path, false, lang, Seq::empty()) == Outcome::Done(l2));
    lemma_text_insert_round_trip(text, pos, new);
    let x = edited_text(l2, text);
    assert(added_text(text, project, path, false, lang, Seq::empty()) == Some(x));
    assert(removal(lines_of(x), project, dirs, "file:"@, stem) == Outcome::Done(ls));
}

/// Removing a directory right after adding it gives the text back, under the
/// conditions of `lemma_add_then_remove_directory`, when its name holds no newline.
pub proof fn lemma_add_then_remove_directory_text(
    text: Seq<char>,
    project: int,
    path: Seq<Seq<char>>,
    lang: Seq<char>,
)
    requires
        path.len() > 0,
        0 <= nth_header(lines_of(text), 0, project) < lines_of(text).len(),
        walk(lines_of(text), nth_header(lines_of(text), 0, project), path.drop_last(), 0) is Ok,
        child(
            lines_of(text),
            walk(lines_of(text), nth_header(lines_of(text), 0, project), path.drop_last(), 0)->Ok_0,
            "tree:"@,
            path.last(),
        ) < 0,
        line_name(path.last()),
        section_of(
            lines_of(text),
            walk(lines_of(text), nth_header(lines_of(text), 0, project), path.drop_last(), 0)->Ok_0,
            "tree:"@,
        ) < block_stop(
            lines_of(text),
            walk(lines_of(text), nth_header(lines_of(text), 0, project), path.drop_last(), 0)->Ok_0,
        ) ==> has_entries(
            lines_of(text),
            section_of(
                lines_of(text),
                walk(lines_of(text), nth_header(lines_of(text), 0, project), path.drop_last(), 0)->Ok_0,
                "tree:"@,
            ),
        ),
    ensures
        added_text(text, project, path, true, lang, Seq::empty()) is Some,
        removed_text(
            added_text(text, project, path, true, lang, Seq::empty())->0,
            project,
            path.drop_last(),
            "tree:"@,
            path.last(),
        ) == Some(text),
{
    let ls = lines_of(text);
    let ps = nth_header(ls, 0, project);
    let dirs = path.drop_last();
    let x = path.last();
    assert(dirs.push(x) =~= path);
    lemma_add_then_remove_directory(ls, project, path, lang);
    let o = walk(ls, ps, dirs, 0)->Ok_0;
    lemma_walk_after(ls, ps, dirs, 0);
    lemma_existing_path(ls, ps, dirs, 0);
    lemma_ensure_snoc(ls, ps, dirs, x, 0);
    lemma_header_dashed(ls, 0, project);
    lemma_walk_dashed(ls, ps, dirs, 0);
    lemma_node_round_trip(ls, o, x);
    let (pos, new) = node_insertion(ls, o, x);
    let l2 = insert_at(ls, pos, new);
    assert(addition(ls, project, path, true, lang, Seq::empty()) == Outcome::Done(l2));
    lemma_text_insert_round_trip(text, pos, new);
    let t2 = edited_text(l2, text);
    assert(added_text(text, project, path, true, lang, Seq::empty()) == Some(t2));
    assert(removal(lines_of(t2), project, dirs, "tree:"@, x) == Outcome::Done(ls));
}

/// After a span ends, the next non-blank line is not deeper than its threshold.
proof fn lemma_filled_after_span(ls: Seq<Seq<char>>, d: int, j: int, last: int)
    requires
        0 <= last < j <= ls.len(),
        span_last(ls, d, j, last) == last,
    ensures
        first_from(ls, j, ls.len() as int, LineTest::Filled) == ls.len() || indent_of(
            ls[first_from(ls, j, ls.len() as int, LineTest::Filled)],
        ) <= d,
    decreases ls.len() - j,
{
    if j < ls.len() {
        if is_blank(ls[j]) {
            lemma_filled_after_span(ls, d, j + 1, last);
        } else if indent_of(ls[j]) > d {
            lemma_span_bounds(ls, d, j + 1, j);
        }
    }
}

/// A search over lines moved by `off` ends `off` further on.
proof fn lemma_first_shifted(a: Seq<Seq<char>>, b: Seq<Seq<char>>, off: int, x: int, to: int, t: LineTest)
    requires
        0 <= x <= to <= a.len(),
        x + off >= 0,
        forall|y: int| x <= y < to ==> #[trigger] b[y + off] == a[y],
    ensures
        first_from(b, x + off, to + off, t) == first_from(a, x, to, t) + off,
    decreases to - x,
{
    if x < to {
        assert(b[x + off] == a[x]);
        lemma_first_shifted(a, b, off, x + 1, to, t);
    }
}

/// A node line, trimmed, starts with a list dash.
pub open spec fn dashed(l: Seq<char>) -> bool {
    trim(l).len() > 0 && trim(l)[0] == '-'
}

/// A walk from a node line ends on a node line.
proof fn lemma_walk_dashed(ls: Seq<Seq<char>>, p: int, path: Seq<Seq<char>>, k: int)
    requires
        0 <= p < ls.len(),
        dashed(ls[p]),
        walk(ls, p, path, k) is Ok,
    ensures
        dashed(ls[walk(ls, p, path, k)->Ok_0]),
    decreases path.len() - k,
{
    if 0 <= k < path.len() {
        let d = indent_of(ls[p]);
        let c = child(ls, p, "tree:"@, path[k]);
        let sk = section_of(ls, p, "tree:"@);
        lemma_child_after(ls, p, "tree:"@, path[k]);
        lemma_first_bounds(ls, p + 1, ls.len() as int, LineTest::Stop(d));
        lemma_first_bounds(ls, p + 1, block_stop(ls, p), LineTest::At(d + 2, "tree:"@));
        lemma_first_bounds(ls, sk + 1, ls.len() as int, LineTest::Stop(indent_of(ls[sk])));
        lemma_found_passes(ls, sk + 1, block_stop(ls, sk), LineTest::At(d + 4, anchor_of(path[k])));
        reveal_strlit("- name: ");
        assert(anchor_of(path[k])[0] == '-');
        lemma_walk_dashed(ls, c, path, k + 1);
    }
}

proof fn lemma_header_dashed(ls: Seq<Seq<char>>, i: int, k: int)
    requires
        0 <= i,
        nth_header(ls, i, k) < ls.len(),
    ensures
        dashed(ls[nth_header(ls, i, k)]),
    decreases ls.len() - i,
{
    if i < ls.len() {
        if is_header(ls[i]) && k <= 0 {
            reveal_strlit("- name:");
            assert(trim(ls[i]).subrange(0, 7)[0] == trim(ls[i])[0]);
        } else {
            lemma_header_dashed(ls, i + 1, if is_header(ls[i]) { k - 1 } else { k });
        }
    }
}


/// A `key` section made at `q` with one entry, then cut back to the bare key, has no
/// entry left, and cutting the key too leaves the lines as they were.
proof fn lemma_section_then_cut(ls: Seq<Seq<char>>, o: int, key: Seq<char>, name: Seq<char>, q: int)
    requires
        0 <= o < q <= block_stop(ls, o),
        q <= ls.len(),
        key == "file:"@ || key == "tree:"@,
        well_named(name),
        dashed(ls[o]),
        section_of(ls, o, key) >= q,
        (key == "file:"@ && q == section_of(ls, o, "tree:"@) && q < block_stop(ls, o)) || q
            == block_last(ls, o) + 1,
    ensures
        ({
            let d = indent_of(ls[o]);
            let l2 = insert_at(ls, q, seq![key_line(d, key), entry_line(d, name)]);
            &&& child(l2, o, key, name) == q + 1
            &&& block_last(l2, q + 1) == q + 1
            &&& section_of(l2, o, key) == q
            &&& !has_entries(cut(l2, q + 1, q + 1), q)
            &&& cut(cut(l2, q + 1, q + 1), q, q) == ls
        }),
{
    let d = indent_of(ls[o]);
    let kl = key_line(d, key);
    let el = entry_line(d, name);
    let l2 = insert_at(ls, q, seq![kl, el]);
    crate::text::lemma_indent_nonneg(ls[o]);
    lemma_new_section_found(ls, o, key, name, q);
    lemma_insert_agrees(ls, q, seq![kl, el]);
    lemma_entry_line(d, name);
    lemma_key_line(d, key);
    lemma_first_bounds(ls, o + 1, ls.len() as int, LineTest::Stop(d));
    lemma_first_bounds(ls, o + 1, block_stop(ls, o), LineTest::At(d + 2, "tree:"@));
    assert forall|x: int| q <= x < ls.len() implies #[trigger] l2[x + 2] == ls[x] by {
        assert(l2[x + 2] == ls.subrange(q, ls.len() as int)[x - q]);
    }
    lemma_last_before_stop(ls, o);
    let case_b = key == "file:"@ && q == section_of(ls, o, "tree:"@) && q < block_stop(ls, o);
    // nothing deeper follows the new entry
    if case_b {
        lemma_found_passes(ls, o + 1, block_stop(ls, o), LineTest::At(d + 2, "tree:"@));
        reveal_strlit("tree:");
        assert(l2[q + 2] == ls[q]);
        assert(!is_blank(l2[q + 2]));
    } else {
        lemma_span_again(ls, d, o + 1, o);
        lemma_span_shifted(ls, l2, 2, d, d + 4, q, q - 1, q + 1);
    }
    assert(block_last(l2, q + 1) == q + 1);
    // cutting the entry leaves the bare key at `q`
    let l3 = cut(l2, q + 1, q + 1);
    assert(l3 =~= insert_at(ls, q, seq![kl]));
    lemma_insert_agrees(ls, q, seq![kl]);
    assert forall|i: int| q < i < l3.len() implies #[trigger] l3[i] == ls[i - 1] by {
        assert(l3[i] == ls.subrange(q, ls.len() as int)[i - 1 - q]);
    }
    assert forall|x: int| q <= x < ls.len() implies #[trigger] l3[x + 1] == ls[x] by {
        assert(l3[x + 1] == ls[x]);
    }
    lemma_first_shifted(ls, l3, 1, q, ls.len() as int, LineTest::Filled);
    // the bare key has no entry
    assert(!has_entries(l3, q)) by {
        lemma_first_bounds(ls, q, ls.len() as int, LineTest::Filled);
        if case_b {
            reveal_strlit("tree:");
            assert(passes(LineTest::Filled, ls[q]));
            assert(first_from(ls, q, ls.len() as int, LineTest::Filled) == q);
        } else {
            lemma_span_again(ls, d, o + 1, o);
            lemma_filled_after_span(ls, d, q, q - 1);
        }
    }
    assert(cut(l3, q, q) =~= ls);
}

/// `f` places each line of `a`, in order, at an equal line of `b`.
pub open spec fn embeds(a: Seq<Seq<char>>, b: Seq<Seq<char>>, f: spec_fn(int) -> int) -> bool {
    &&& forall|i: int| 0 <= i < a.len() ==> 0 <= #[trigger] f(i) < b.len() && b[f(i)] == a[i]
    &&& forall|i: int, j: int| 0 <= i < j < a.len() ==> #[trigger] f(i) < #[trigger] f(j)
}

/// Every line of `a` stands, unchanged and in the same order, in `b`.
pub open spec fn lines_kept(a: Seq<Seq<char>>, b: Seq<Seq<char>>) -> bool {
    exists|f: spec_fn(int) -> int| embeds(a, b, f)
}

proof fn lemma_kept_refl(a: Seq<Seq<char>>)
    ensures
        lines_kept(a, a),
{
    let f = |i: int| i;
    assert(embeds(a, a, f));
}

proof fn lemma_kept_trans(a: Seq<Seq<char>>, b: Seq<Seq<char>>, c: Seq<Seq<char>>)
    requires
        lines_kept(a, b),
        lines_kept(b, c),
    ensures
        lines_kept(a, c),
{
    let f = choose|f: spec_fn(int) -> int| embeds(a, b, f);
    let g = choose|g: spec_fn(int) -> int| embeds(b, c, g);
    let h = |i: int| g(f(i));
    assert forall|i: int| 0 <= i < a.len() implies 0 <= #[trigger] h(i) < c.len() && c[h(i)] == a[i] by {
        assert(0 <= f(i) < b.len());
    }
    assert forall|i: int, j: int| 0 <= i < j < a.len() implies #[trigger] h(i) < #[trigger] h(j) by {
        assert(f(i) < f(j));
        assert(0 <= f(j) < b.len());
        assert(0 <= f(i));
    }
    assert(embeds(a, c, h));
}

/// Putting lines in keeps every line there was.
proof fn lemma_kept_insert(a: Seq<Seq<char>>, pos: int, new: Seq<Seq<char>>)
    requires
        0 <= pos <= a.len(),
    ensures
        lines_kept(a, insert_at(a, pos, new)),
{
    let b = insert_at(a, pos, new);
    lemma_insert_agrees(a, pos, new);
    let f = |i: int| if i < pos { i } else { i + new.len() };
    assert forall|i: int| 0 <= i < a.len() implies 0 <= #[trigger] f(i) < b.len() && b[f(i)] == a[i] by {
        if i < pos {
            assert(b[i] == a[i]);
        } else {
            assert(b[i + new.len()] == a.subrange(pos, a.len() as int)[i - pos]);
        }
    }
    assert(embeds(a, b, f));
}

proof fn lemma_ensure_node_keeps(ls: Seq<Seq<char>>, o: int, name: Seq<char>)
    requires
        0 <= o < ls.len(),
    ensures
        lines_kept(ls, ensure_node(ls, o, name).0),
        ensure_node(ls, o, name).0.len() >= ls.len(),
        0 <= ensure_node(ls, o, name).1 < ensure_node(ls, o, name).0.len(),
{
    let d = indent_of(ls[o]);
    let t = section_of(ls, o, "tree:"@);
    lemma_first_bounds(ls, o + 1, ls.len() as int, LineTest::Stop(d));
    lemma_first_bounds(ls, o + 1, block_stop(ls, o), LineTest::At(d + 2, "tree:"@));
    if child(ls, o, "tree:"@, name) >= 0 {
        lemma_kept_refl(ls);
        lemma_child_after(ls, o, "tree:"@, name);
    } else if t < block_stop(ls, o) {
        lemma_last_before_stop(ls, t);
        lemma_first_bounds(ls, t + 1, ls.len() as int, LineTest::Stop(indent_of(ls[t])));
        lemma_kept_insert(ls, block_last(ls, t) + 1, seq![entry_line(d, name)]);
        lemma_insert_agrees(ls, block_last(ls, t) + 1, seq![entry_line(d, name)]);
    } else {
        lemma_last_before_stop(ls, o);
        let q = block_last(ls, o) + 1;
        lemma_kept_insert(ls, q, seq![key_line(d, "tree:"@), entry_line(d, name)]);
        lemma_insert_agrees(ls, q, seq![key_line(d, "tree:"@), entry_line(d, name)]);
    }
}

proof fn lemma_ensure_file_keeps(ls: Seq<Seq<char>>, o: int, name: Seq<char>)
    requires
        0 <= o < ls.len(),
    ensures
        lines_kept(ls, ensure_file(ls, o, name)),
        ensure_file(ls, o, name).len() >= ls.len(),
{
    let d = indent_of(ls[o]);
    let f = section_of(ls, o, "file:"@);
    let t = section_of(ls, o, "tree:"@);
    let stop = block_stop(ls, o);
    lemma_first_bounds(ls, o + 1, ls.len() as int, LineTest::Stop(d));
    lemma_first_bounds(ls, o + 1, stop, LineTest::At(d + 2, "file:"@));
    lemma_first_bounds(ls, o + 1, stop, LineTest::At(d + 2, "tree:"@));
    let new_section = seq![key_line(d, "file:"@), entry_line(d, name)];
    if child(ls, o, "file:"@, name) >= 0 {
        lemma_kept_refl(ls);
    } else if f < stop {
        lemma_last_before_stop(ls, f);
        lemma_first_bounds(ls, f + 1, ls.len() as int, LineTest::Stop(indent_of(ls[f])));
        lemma_kept_insert(ls, block_last(ls, f) + 1, seq![entry_line(d, name)]);
        lemma_insert_agrees(ls, block_last(ls, f) + 1, seq![entry_line(d, name)]);
    } else if t < stop {
        lemma_kept_insert(ls, t, new_section);
        lemma_insert_agrees(ls, t, new_section);
    } else {
        lemma_last_before_stop(ls, o);
        lemma_kept_insert(ls, block_last(ls, o) + 1, new_section);
        lemma_insert_agrees(ls, block_last(ls, o) + 1, new_section);
    }
}

proof fn lemma_ensure_path_keeps(ls: Seq<Seq<char>>, p: int, path: Seq<Seq<char>>, k: int)
    requires
        0 <= p < ls.len(),
    ensures
        lines_kept(ls, ensure_path(ls, p, path, k).0),
        ensure_path(ls, p, path, k).0.len() >= ls.len(),
        0 <= ensure_path(ls, p, path, k).1 < ensure_path(ls, p, path, k).0.len(),
    decreases path.len() - k,
{
    if 0 <= k < path.len() {
        let (l1, c) = ensure_node(ls, p, path[k]);
        lemma_ensure_node_keeps(ls, p, path[k]);
        lemma_ensure_path_keeps(l1, c, path, k + 1);
        lemma_kept_trans(ls, l1, ensure_path(l1, c, path, k + 1).0);
    } else {
        lemma_kept_refl(ls);
    }
}

proof fn lemma_add_child_keeps(ls: Seq<Seq<char>>, o: int, c: AddChild, lang: Seq<char>)
    requires
        0 <= o < ls.len(),
    ensures
        lines_kept(ls, add_child(ls, o, c, lang)),
        add_child(ls, o, c, lang).len() >= ls.len(),
    decreases c, c.children@.len() + 1,
{
    if c.is_directory {
        let (l2, n) = ensure_node(ls, o, c.name@);
        lemma_ensure_node_keeps(ls, o, c.name@);
        lemma_add_children_keeps(l2, n, c, lang, 0);
        lemma_kept_trans(ls, l2, add_children(l2, n, c, lang, 0));
    } else {
        lemma_ensure_file_keeps(ls, o, entry_name(c.name@, lang));
    }
}

proof fn lemma_add_children_keeps(ls: Seq<Seq<char>>, o: int, c: AddChild, lang: Seq<char>, k: int)
    requires
        0 <= o < ls.len(),
    ensures
        lines_kept(ls, add_children(ls, o, c, lang, k)),
        add_children(ls, o, c, lang, k).len() >= ls.len(),
    decreases c, c.children@.len() - k,
{
    if 0 <= k < c.children@.len() {
        let l1 = add_child(ls, o, c.children@[k], lang);
        lemma_add_child_keeps(ls, o, c.children@[k], lang);
        lemma_add_children_keeps(l1, o, c, lang, k + 1);
        lemma_kept_trans(ls, l1, add_children(l1, o, c, lang, k + 1));
    } else {
        lemma_kept_refl(ls);
    }
}

proof fn lemma_add_list_keeps(ls: Seq<Seq<char>>, o: int, cs: Seq<AddChild>, lang: Seq<char>, k: int)
    requires
        0 <= o < ls.len(),
    ensures
        lines_kept(ls, add_list(ls, o, cs, lang, k)),
    decreases cs.len() - k,
{
    if 0 <= k < cs.len() {
        let l1 = add_child(ls, o, cs[k], lang);
        lemma_add_child_keeps(ls, o, cs[k], lang);
        lemma_add_list_keeps(l1, o, cs, lang, k + 1);
        lemma_kept_trans(ls, l1, add_list(l1, o, cs, lang, k + 1));
    } else {
        lemma_kept_refl(ls);
    }
}

/// An addition keeps every line of the document, unchanged and in order: it only
/// puts lines in, whatever is added and whatever is found inside it.
pub proof fn lemma_addition_keeps_lines(
    ls: Seq<Seq<char>>,
    project: int,
    path: Seq<Seq<char>>,
    directory: bool,
    lang: Seq<char>,
    children: Seq<AddChild>,
)
    requires
        addition(ls, project, path, directory, lang, children) is Done,
    ensures
        lines_kept(ls, addition(ls, project, path, directory, lang, children)->Done_0),
{
    let ps = nth_header(ls, 0, project);
    lemma_header_bounds(ls, 0, project);
    if directory {
        lemma_ensure_path_keeps(ls, ps, path, 0);
        let (l2, n) = ensure_path(ls, ps, path, 0);
        lemma_add_list_keeps(l2, n, children, lang, 0);
        lemma_kept_trans(ls, l2, add_list(l2, n, children, lang, 0));
    } else {
        lemma_ensure_path_keeps(ls, ps, path.drop_last(), 0);
        let (l2, o) = ensure_path(ls, ps, path.drop_last(), 0);
        lemma_ensure_file_keeps(l2, o, entry_name(path.last(), lang));
        lemma_kept_trans(ls, l2, ensure_file(l2, o, entry_name(path.last(), lang)));
    }
}

proof fn lemma_cut_kept(ls: Seq<Seq<char>>, a: int, b: int)
    requires
        0 <= a <= b < ls.len(),
    ensures
        lines_kept(cut(ls, a, b), ls),
{
    let r = cut(ls, a, b);
    let f = |i: int| if i < a { i } else { i + (b - a + 1) };
    assert forall|i: int| 0 <= i < r.len() implies 0 <= #[trigger] f(i) < ls.len() && ls[f(i)] == r[i] by {
        if i < a {
            assert(r[i] == ls.subrange(0, a)[i]);
        } else {
            assert(r[i] == ls.subrange(b + 1, ls.len() as int)[i - a]);
        }
    }
    assert(embeds(r, ls, f));
}

/// A removal only takes lines away: what it leaves stands, unchanged and in order, in
/// the document it started from.
pub proof fn lemma_removal_keeps_lines(
    ls: Seq<Seq<char>>,
    project: int,
    path: Seq<Seq<char>>,
    key: Seq<char>,
    name: Seq<char>,
)
    requires
        removal(ls, project, path, key, name) is Done,
    ensures
        lines_kept(removal(ls, project, path, key, name)->Done_0, ls),
{
    let ps = nth_header(ls, 0, project);
    lemma_header_bounds(ls, 0, project);
    let o = walk(ls, ps, path, 0)->Ok_0;
    lemma_walk_after(ls, ps, path, 0);
    let c = child(ls, o, key, name);
    lemma_child_after(ls, o, key, name);
    lemma_last_before_stop(ls, c);
    lemma_first_bounds(ls, c + 1, ls.len() as int, LineTest::Stop(indent_of(ls[c])));
    let rest = cut(ls, c, block_last(ls, c));
    lemma_cut_kept(ls, c, block_last(ls, c));
    let k = section_of(ls, o, key);
    let d = indent_of(ls[o]);
    lemma_first_bounds(ls, o + 1, ls.len() as int, LineTest::Stop(d));
    lemma_first_bounds(ls, o + 1, block_stop(ls, o), LineTest::At(d + 2, key));
    lemma_first_bounds(ls, k + 1, ls.len() as int, LineTest::Stop(indent_of(ls[k])));
    lemma_first_bounds(ls, k + 1, block_stop(ls, k), LineTest::At(d + 4, anchor_of(name)));
    if !has_entries(rest, k) {
        lemma_cut_kept(rest, k, k);
        lemma_kept_trans(cut(rest, k, k), rest, ls);
    }
}

proof fn lemma_kept_clean(a: Seq<Seq<char>>, b: Seq<Seq<char>>)
    requires
        lines_kept(a, b),
        clean_lines(b),
    ensures
        clean_lines(a),
{
    let f = choose|f: spec_fn(int) -> int| embeds(a, b, f);
    assert forall|i: int| 0 <= i < a.len() implies !(#[trigger] a[i]).contains('\n') by {
        assert(b[f(i)] == a[i]);
    }
}

/// The text a removal leaves has, as lines, a part of the lines of the text it
/// started from, unchanged and in order.
pub proof fn lemma_removed_text_keeps_lines(
    text: Seq<char>,
    project: int,
    path: Seq<Seq<char>>,
    key: Seq<char>,
    name: Seq<char>,
)
    requires
        removed_text(text, project, path, key, name) is Some,
    ensures
        lines_kept(lines_of(removed_text(text, project, path, key, name)->0), lines_of(text)),
{
    let ls = lines_of(text);
    let l2 = removal(ls, project, path, key, name)->Done_0;
    lemma_removal_keeps_lines(ls, project, path, key, name);
    lemma_lines_clean(text);
    lemma_kept_clean(l2, ls);
    if l2 != ls {
        lemma_lines_of_joined(l2, text);
    }
}

proof fn lemma_span_reaches(ls: Seq<Seq<char>>, d: int, j: int, last: int, x: int)
    requires
        0 <= last < j <= x < ls.len(),
        forall|y: int| j <= y <= x ==> !passes(LineTest::Stop(d), #[trigger] ls[y]),
        !is_blank(ls[x]),
    ensures
        span_last(ls, d, j, last) >= x,
    decreases x - j,
{
    assert(!passes(LineTest::Stop(d), ls[j]));
    if j < x {
        if is_blank(ls[j]) {
            lemma_span_reaches(ls, d, j + 1, last, x);
        } else {
            lemma_span_reaches(ls, d, j + 1, j, x);
        }
    } else {
        lemma_span_bounds(ls, d, j + 1, j);
    }
}

/// A non-blank line inside a block is at or before the block's last line.
proof fn lemma_inside_block(ls: Seq<Seq<char>>, i: int, x: int)
    requires
        0 <= i < x < block_stop(ls, i),
        x < ls.len(),
        !is_blank(ls[x]),
    ensures
        x <= block_last(ls, i),
{
    let d = indent_of(ls[i]);
    assert forall|y: int| i + 1 <= y <= x implies !passes(LineTest::Stop(d), #[trigger] ls[y]) by {
        lemma_none_before(ls, i + 1, ls.len() as int, LineTest::Stop(d), y);
    }
    lemma_span_reaches(ls, d, i + 1, i, x);
}

/// A file listed under a node stays listed when another file is added to it.
proof fn lemma_listed_stays(ls: Seq<Seq<char>>, o: int, x: Seq<char>, y: Seq<char>)
    requires
        0 <= o < ls.len(),
        child(ls, o, "file:"@, x) >= 0,
    ensures
        child(ensure_file(ls, o, y), o, "file:"@, x) >= 0,
{
    let d = indent_of(ls[o]);
    let f = section_of(ls, o, "file:"@);
    let c = child(ls, o, "file:"@, x);
    if child(ls, o, "file:"@, y) < 0 {
        lemma_first_bounds(ls, o + 1, ls.len() as int, LineTest::Stop(d));
        lemma_first_bounds(ls, o + 1, block_stop(ls, o), LineTest::At(d + 2, "file:"@));
        lemma_first_bounds(ls, f + 1, ls.len() as int, LineTest::Stop(indent_of(ls[f])));
        lemma_first_bounds(ls, f + 1, block_stop(ls, f), LineTest::At(d + 4, anchor_of(x)));
        lemma_found_passes(ls, f + 1, block_stop(ls, f), LineTest::At(d + 4, anchor_of(x)));
        reveal_strlit("- name: ");
        assert(trim(ls[c]).len() > 0);
        lemma_inside_block(ls, f, c);
        lemma_last_before_stop(ls, f);
        let pos = block_last(ls, f) + 1;
        let l2 = insert_at(ls, pos, seq![entry_line(d, y)]);
        lemma_insert_agrees(ls, pos, seq![entry_line(d, y)]);
        lemma_child_stable(ls, l2, pos, o, "file:"@, x);
    }
}

/// Each found entry is a file whose layout name reads back exactly.
pub open spec fn plain_files(cs: Seq<AddChild>, lang: Seq<char>) -> bool {
    forall|i: int|
        0 <= i < cs.len() ==> !(#[trigger] cs[i]).is_directory && well_named(entry_name(cs[i].name@, lang))
}

proof fn lemma_files_listed(ls: Seq<Seq<char>>, n: int, cs: Seq<AddChild>, lang: Seq<char>, k: int)
    requires
        0 <= n < ls.len(),
        0 <= k <= cs.len(),
        plain_files(cs, lang),
    ensures
        agree_before(ls, add_list(ls, n, cs, lang, k), n + 1),
        add_list(ls, n, cs, lang, k).len() >= ls.len(),
        forall|i: int|
            k <= i < cs.len() ==> child(
                add_list(ls, n, cs, lang, k),
                n,
                "file:"@,
                entry_name((#[trigger] cs[i]).name@, lang),
            ) >= 0,
        forall|x: Seq<char>|
            child(ls, n, "file:"@, x) >= 0 ==> #[trigger] child(
                add_list(ls, n, cs, lang, k),
                n,
                "file:"@,
                x,
            ) >= 0,
    decreases cs.len() - k,
{
    if k < cs.len() {
        let stem = entry_name(cs[k].name@, lang);
        assert(!cs[k].is_directory && well_named(stem));
        let l1 = ensure_file(ls, n, stem);
        assert(add_child(ls, n, cs[k], lang) == l1);
        lemma_ensure_file_lists(ls, n, stem);
        lemma_files_listed(l1, n, cs, lang, k + 1);
        let l2 = add_list(l1, n, cs, lang, k + 1);
        lemma_agree_trans(ls, l1, l2, n + 1, n + 1);
        assert forall|x: Seq<char>| child(ls, n, "file:"@, x) >= 0 implies #[trigger] child(
            l2,
            n,
            "file:"@,
            x,
        ) >= 0 by {
            lemma_listed_stays(ls, n, x, stem);
        }
    } else {
        assert(agree_before(ls, ls, n + 1));
    }
}

proof fn lemma_listed_noop(ls: Seq<Seq<char>>, n: int, cs: Seq<AddChild>, lang: Seq<char>, k: int)
    requires
        0 <= k <= cs.len(),
        plain_files(cs, lang),
        forall|i: int|
            0 <= i < cs.len() ==> child(ls, n, "file:"@, entry_name((#[trigger] cs[i]).name@, lang))
                >= 0,
    ensures
        add_list(ls, n, cs, lang, k) == ls,
    decreases cs.len() - k,
{
    if k < cs.len() {
        assert(!cs[k].is_directory);
        assert(child(ls, n, "file:"@, entry_name(cs[k].name@, lang)) >= 0);
        assert(add_child(ls, n, cs[k], lang) == ls);
        lemma_listed_noop(ls, n, cs, lang, k + 1);
    }
}

/// Adding a directory twice, with the files found inside it, leaves the lines that
/// adding it once gives, when every name on its path reads back exactly and what
/// was found inside is files whose layout names read back exactly.
pub proof fn lemma_add_directory_with_files_twice(
    ls: Seq<Seq<char>>,
    project: int,
    path: Seq<Seq<char>>,
    lang: Seq<char>,
    children: Seq<AddChild>,
)
    requires
        path.len() > 0,
        0 <= nth_header(ls, 0, project) < ls.len(),
        path_well_named(path),
        plain_files(children, lang),
    ensures
        addition(ls, project, path, true, lang, children) is Done,
        addition(
            addition(ls, project, path, true, lang, children)->Done_0,
            project,
            path,
            true,
            lang,
            children,
        ) == addition(ls, project, path, true, lang, children),
{
    let ps = nth_header(ls, 0, project);
    lemma_ensure_path_walks(ls, ps, path, 0);
    let (l1, n) = ensure_path(ls, ps, path, 0);
    lemma_files_listed(l1, n, children, lang, 0);
    let l2 = add_list(l1, n, children, lang, 0);
    assert(addition(ls, project, path, true, lang, children) == Outcome::Done(l2));
    lemma_header_stable(ls, l1, ps + 1, 0, project);
    lemma_header_stable(l1, l2, n + 1, 0, project);
    lemma_walk_stable(l1, l2, n + 1, ps, path, 0);
    lemma_existing_path(l2, ps, path, 0);
    lemma_listed_noop(l2, n, children, lang, 0);
}

/// Each found entry is a file whose layout name fits a line of its own.
pub open spec fn plain_line_files(cs: Seq<AddChild>, lang: Seq<char>) -> bool {
    forall|i: int|
        0 <= i < cs.len() ==> !(#[trigger] cs[i]).is_directory && line_name(entry_name(cs[i].name@, lang))
}

proof fn lemma_files_clean(ls: Seq<Seq<char>>, n: int, cs: Seq<AddChild>, lang: Seq<char>, k: int)
    requires
        0 <= n < ls.len(),
        0 <= k <= cs.len(),
        clean_lines(ls),
        plain_line_files(cs, lang),
    ensures
        clean_lines(add_list(ls, n, cs, lang, k)),
    decreases cs.len() - k,
{
    if k < cs.len() {
        let stem = entry_name(cs[k].name@, lang);
        assert(!cs[k].is_directory && line_name(stem));
        let l1 = ensure_file(ls, n, stem);
        assert(add_child(ls, n, cs[k], lang) == l1);
        lemma_ensure_file_clean(ls, n, stem);
        lemma_ensure_file_keeps(ls, n, stem);
        lemma_files_clean(l1, n, cs, lang, k + 1);
    }
}

/// Adding a directory to a layout text twice, with the files found inside it, gives
/// the text that adding it once gives, when every name on its path, and every found
/// file's layout name, fits a line of its own.
pub proof fn lemma_add_directory_with_files_text_twice(
    text: Seq<char>,
    project: int,
    path: Seq<Seq<char>>,
    lang: Seq<char>,
    children: Seq<AddChild>,
)
    requires
        path.len() > 0,
        0 <= nth_header(lines_of(text), 0, project) < lines_of(text).len(),
        path_line_names(path),
        plain_line_files(children, lang),
    ensures
        added_text(text, project, path, true, lang, children) is Some,
        added_text(
            added_text(text, project, path, true, lang, children)->0,
            project,
            path,
            true,
            lang,
            children,
        ) == added_text(text, project, path, true, lang, children),
{
    let ls = lines_of(text);
    let ps = nth_header(ls, 0, project);
    assert(path_well_named(path)) by {
        assert forall|i: int| 0 <= i < path.len() implies #[trigger] well_named(path[i]) by {
            assert(line_name(path[i]));
        }
    }
    assert(plain_files(children, lang)) by {
        assert forall|i: int| 0 <= i < children.len() implies !(#[trigger] children[i]).is_directory
            && well_named(entry_name(children[i].name@, lang)) by {
            assert(line_name(entry_name(children[i].name@, lang)));
        }
    }
    lemma_add_directory_with_files_twice(ls, project, path, lang, children);
    lemma_ensure_path_walks(ls, ps, path, 0);
    lemma_lines_clean(text);
    assert forall|i: int| 0 <= i < path.len() implies !(#[trigger] path[i]).contains('\n') by {
        assert(line_name(path[i]));
    }
    lemma_ensure_path_clean(ls, ps, path, 0);
    let (l1, n) = ensure_path(ls, ps, path, 0);
    lemma_files_clean(l1, n, children, lang, 0);
    let l2 = add_list(l1, n, children, lang, 0);
    assert(addition(ls, project, path, true, lang, children) == Outcome::Done(l2));
    if l2 != ls {
        lemma_lines_of_joined(l2, text);
    }
}

/// The text an addition gives splits into exactly the lines the addition describes,
/// when every name on the path, and the file's layout name, holds no newline.
pub proof fn lemma_added_text_lines(
    text: Seq<char>,
    project: int,
    path: Seq<Seq<char>>,
    directory: bool,
    lang: Seq<char>,
)
    requires
        added_text(text, project, path, directory, lang, Seq::empty()) is Some,
        forall|i: int| 0 <= i < path.len() ==> !(#[trigger] path[i]).contains('\n'),
        !directory ==> !entry_name(path.last(), lang).contains('\n'),
    ensures
        lines_of(added_text(text, project, path, directory, lang, Seq::empty())->0) == addition(
            lines_of(text),
            project,
            path,
            directory,
            lang,
            Seq::empty(),
        )->Done_0,
{
    let ls = lines_of(text);
    let ps = nth_header(ls, 0, project);
    lemma_header_bounds(ls, 0, project);
    lemma_lines_clean(text);
    let l2 = addition(ls, project, path, directory, lang, Seq::empty())->Done_0;
    if directory {
        lemma_ensure_path_clean(ls, ps, path, 0);
        let (l1, n) = ensure_path(ls, ps, path, 0);
        assert(add_list(l1, n, Seq::<AddChild>::empty(), lang, 0) == l1);
    } else {
        let dirs = path.drop_last();
        assert forall|i: int| 0 <= i < dirs.len() implies !(#[trigger] dirs[i]).contains('\n') by {
            assert(dirs[i] == path[i]);
        }
        lemma_ensure_path_clean(ls, ps, dirs, 0);
        lemma_ensure_path_keeps(ls, ps, dirs, 0);
        let (l1, o) = ensure_path(ls, ps, dirs, 0);
        lemma_ensure_file_clean(l1, o, entry_name(path.last(), lang));
    }
    if l2 != ls {
        lemma_lines_of_joined(l2, text);
    }
}

proof fn lemma_ensure_path_clean(ls: Seq<Seq<char>>, p: int, path: Seq<Seq<char>>, k: int)
    requires
        0 <= p < ls.len(),
        0 <= k <= path.len(),
        clean_lines(ls),
        forall|i: int| 0 <= i < path.len() ==> !(#[trigger] path[i]).contains('\n'),
    ensures
        clean_lines(ensure_path(ls, p, path, k).0),
    decreases path.len() - k,
{
    if k < path.len() {
        let (l1, c) = ensure_node(ls, p, path[k]);
        lemma_ensure_node_clean(ls, p, path[k]);
        lemma_ensure_node_keeps(ls, p, path[k]);
        lemma_ensure_path_clean(l1, c, path, k + 1);
    }
}

} // verus!
