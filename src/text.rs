use vstd::prelude::*;

verus! {

/// Characters that count as blank at either end of a line.
pub open spec fn is_space(c: char) -> bool {
    c == ' ' || c == '\t' || c == '\r'
}

/// Index of the first non-blank character at or after `k`.
pub open spec fn lead_from(l: Seq<char>, k: int) -> int
    decreases l.len() - k,
{
    if k < l.len() && k >= 0 && is_space(l[k]) {
        lead_from(l, k + 1)
    } else {
        k
    }
}

/// Number of leading blank characters of a line.
pub open spec fn indent_of(l: Seq<char>) -> int {
    lead_from(l, 0)
}

/// End (exclusive) of a line once trailing blanks are dropped, never below `lo`.
pub open spec fn tail_from(l: Seq<char>, lo: int, k: int) -> int
    decreases k - lo,
{
    if k > lo && k <= l.len() && is_space(l[k - 1]) {
        tail_from(l, lo, k - 1)
    } else {
        k
    }
}

/// A line without its leading and trailing blanks.
pub open spec fn trim(l: Seq<char>) -> Seq<char> {
    l.subrange(indent_of(l), tail_from(l, indent_of(l), l.len() as int))
}

/// A line holding nothing but blanks.
pub open spec fn is_blank(l: Seq<char>) -> bool {
    trim(l).len() == 0
}

/// `n` spaces.
pub open spec fn spaces(n: nat) -> Seq<char> {
    Seq::new(n, |i: int| ' ')
}

/// Position of the first newline at or after `k`, or the length.
pub open spec fn next_newline(s: Seq<char>, k: int) -> int
    decreases s.len() - k,
{
    if k >= s.len() || k < 0 {
        s.len() as int
    } else if s[k] == '\n' {
        k
    } else {
        next_newline(s, k + 1)
    }
}

/// The pieces of `s[k..]` between newlines; always at least one piece.
pub open spec fn split_from(s: Seq<char>, k: int) -> Seq<Seq<char>>
    decreases s.len() - k,
{
    let e = next_newline(s, k);
    if k < 0 || e >= s.len() || e < k {
        seq![s.subrange(k, s.len() as int)]
    } else {
        seq![s.subrange(k, e)] + split_from(s, e + 1)
    }
}

/// The lines of a text: the pieces between newlines, where a final newline ends the
/// last line instead of starting an empty one, and an empty text has no lines.
pub open spec fn lines_of(s: Seq<char>) -> Seq<Seq<char>> {
    if s.len() == 0 {
        Seq::empty()
    } else if s.last() == '\n' {
        split_from(s.drop_last(), 0)
    } else {
        split_from(s, 0)
    }
}

/// Lines joined with a newline between each two of them.
pub open spec fn join_lines(ls: Seq<Seq<char>>) -> Seq<char>
    decreases ls.len(),
{
    if ls.len() == 0 {
        Seq::empty()
    } else if ls.len() == 1 {
        ls[0]
    } else {
        join_lines(ls.drop_last()) + seq!['\n'] + ls.last()
    }
}

/// Lines as text: joined, with a final newline when the source text ended with one,
/// and always after a last line that is empty, so that no line is lost.
pub open spec fn join_like(ls: Seq<Seq<char>>, source: Seq<char>) -> Seq<char> {
    let j = join_lines(ls);
    if ls.len() > 0 && ((source.len() > 0 && source.last() == '\n') || ls.last().len() == 0) {
        j.push('\n')
    } else {
        j
    }
}

/// Relies on String::push: the character is appended at the end.
#[verifier::external_body]
fn push_char(s: &mut String, c: char)
    ensures
        final(s)@ == old(s)@.push(c),
{
    s.push(c)
}

/// The characters of a string slice.
pub fn chars_of(s: &str) -> (r: Vec<char>)
    ensures
        r@ == s@,
{
    let n = s.unicode_len();
    let mut r: Vec<char> = Vec::new();
    let mut i: usize = 0;
    while i < n
        invariant
            n == s@.len(),
            i <= n,
            r@ == s@.subrange(0, i as int),
        decreases n - i,
    {
        let c = s.get_char(i);
        r.push(c);
        i = i + 1;
    }
    assert(r@ =~= s@);
    r
}

/// A string holding the given characters.
pub fn string_of(v: &[char]) -> (r: String)
    ensures
        r@ == v@,
{
    let mut r = String::new();
    let mut i: usize = 0;
    while i < v.len()
        invariant
            i <= v.len(),
            r@ == v@.subrange(0, i as int),
        decreases v.len() - i,
    {
        push_char(&mut r, v[i]);
        assert(r@ =~= v@.subrange(0, i + 1));
        i = i + 1;
    }
    assert(r@ =~= v@);
    r
}

/// Number of leading blanks of a line.
pub fn line_indent(l: &[char]) -> (r: usize)
    ensures
        r == indent_of(l@),
        r <= l@.len(),
{
    let mut i: usize = 0;
    while i < l.len() && (l[i] == ' ' || l[i] == '\t' || l[i] == '\r')
        invariant
            i <= l.len(),
            lead_from(l@, i as int) == lead_from(l@, 0),
        decreases l.len() - i,
    {
        i = i + 1;
    }
    i
}

/// Start and end (exclusive) of the trimmed part of a line.
pub fn trim_bounds(l: &[char]) -> (r: (usize, usize))
    ensures
        r.0 == indent_of(l@),
        r.1 == tail_from(l@, indent_of(l@), l@.len() as int),
        r.0 <= r.1 <= l@.len(),
        trim(l@) == l@.subrange(r.0 as int, r.1 as int),
{
    let lo = line_indent(l);
    let mut hi: usize = l.len();
    while hi > lo && (l[hi - 1] == ' ' || l[hi - 1] == '\t' || l[hi - 1] == '\r')
        invariant
            lo <= hi <= l.len(),
            lo == indent_of(l@),
            tail_from(l@, lo as int, hi as int) == tail_from(l@, lo as int, l@.len() as int),
        decreases hi,
    {
        hi = hi - 1;
    }
    (lo, hi)
}

/// Whether the trimmed line equals `s`.
pub fn trimmed_is(l: &[char], s: &[char]) -> (r: bool)
    ensures
        r == (trim(l@) == s@),
{
    let (lo, hi) = trim_bounds(l);
    if hi - lo != s.len() {
        return false;
    }
    let mut i: usize = 0;
    while i < s.len()
        invariant
            lo <= hi <= l@.len(),
            hi - lo == s@.len(),
            i <= s.len(),
            trim(l@) == l@.subrange(lo as int, hi as int),
            forall|j: int| 0 <= j < i ==> l@[lo + j] == s@[j],
        decreases s.len() - i,
    {
        if l[lo + i] != s[i] {
            assert(trim(l@)[i as int] != s@[i as int]);
            return false;
        }
        i = i + 1;
    }
    assert(trim(l@) =~= s@);
    true
}

/// Whether the trimmed line starts with `p`.
pub fn trimmed_starts_with(l: &[char], p: &[char]) -> (r: bool)
    ensures
        r == (trim(l@).len() >= p@.len() && trim(l@).subrange(0, p@.len() as int) == p@),
{
    let (lo, hi) = trim_bounds(l);
    if hi - lo < p.len() {
        return false;
    }
    let mut i: usize = 0;
    while i < p.len()
        invariant
            lo <= hi <= l@.len(),
            hi - lo >= p@.len(),
            i <= p.len(),
            trim(l@) == l@.subrange(lo as int, hi as int),
            forall|j: int| 0 <= j < i ==> l@[lo + j] == p@[j],
        decreases p.len() - i,
    {
        if l[lo + i] != p[i] {
            assert(trim(l@).subrange(0, p@.len() as int)[i as int] != p@[i as int]);
            return false;
        }
        i = i + 1;
    }
    assert(trim(l@).subrange(0, p@.len() as int) =~= p@);
    true
}

/// Whether a line holds only blanks.
pub fn line_is_blank(l: &[char]) -> (r: bool)
    ensures
        r == is_blank(l@),
{
    let (lo, hi) = trim_bounds(l);
    lo == hi
}

/// Whether `s` ends with `suffix`.
pub fn ends_with(s: &[char], suffix: &[char]) -> (r: bool)
    ensures
        r == (s@.len() >= suffix@.len() && s@.subrange(
            s@.len() - suffix@.len(),
            s@.len() as int,
        ) == suffix@),
{
    if s.len() < suffix.len() {
        return false;
    }
    let off = s.len() - suffix.len();
    let mut i: usize = 0;
    while i < suffix.len()
        invariant
            off as int + suffix.len() as int == s.len() as int,
            i <= suffix.len(),
            forall|j: int| 0 <= j < i ==> s@[off + j] == suffix@[j],
        decreases suffix.len() - i,
    {
        if s[off + i] != suffix[i] {
            assert(s@.subrange(off as int, s@.len() as int)[i as int] != suffix@[i as int]);
            return false;
        }
        i = i + 1;
    }
    assert(s@.subrange(off as int, s@.len() as int) =~= suffix@);
    true
}

/// Whether `s` holds the character `c`.
pub fn contains_char(s: &[char], c: char) -> (r: bool)
    ensures
        r == s@.contains(c),
{
    let mut i: usize = 0;
    while i < s.len()
        invariant
            i <= s.len(),
            forall|j: int| 0 <= j < i ==> s@[j] != c,
        decreases s.len() - i,
    {
        if s[i] == c {
            assert(s@[i as int] == c);
            return true;
        }
        i = i + 1;
    }
    false
}

/// Whether two character slices are equal.
pub fn same_chars(a: &[char], b: &[char]) -> (r: bool)
    ensures
        r == (a@ == b@),
{
    if a.len() != b.len() {
        return false;
    }
    let mut i: usize = 0;
    while i < a.len()
        invariant
            a@.len() == b@.len(),
            i <= a.len(),
            forall|j: int| 0 <= j < i ==> a@[j] == b@[j],
        decreases a.len() - i,
    {
        if a[i] != b[i] {
            return false;
        }
        i = i + 1;
    }
    assert(a@ =~= b@);
    true
}

/// `n` spaces.
pub fn make_spaces(n: usize) -> (r: Vec<char>)
    ensures
        r@ == spaces(n as nat),
{
    let mut r: Vec<char> = Vec::new();
    let mut i: usize = 0;
    while i < n
        invariant
            i <= n,
            r@ == spaces(i as nat),
        decreases n - i,
    {
        r.push(' ');
        assert(r@ =~= spaces((i + 1) as nat));
        i = i + 1;
    }
    r
}

/// `a` followed by `b`.
pub fn concat(a: &[char], b: &[char]) -> (r: Vec<char>)
    ensures
        r@ == a@ + b@,
{
    let mut r: Vec<char> = Vec::new();
    let mut i: usize = 0;
    while i < a.len()
        invariant
            i <= a.len(),
            r@ == a@.subrange(0, i as int),
        decreases a.len() - i,
    {
        r.push(a[i]);
        assert(r@ =~= a@.subrange(0, i + 1));
        i = i + 1;
    }
    let mut k: usize = 0;
    while k < b.len()
        invariant
            k <= b.len(),
            r@ == a@ + b@.subrange(0, k as int),
        decreases b.len() - k,
    {
        r.push(b[k]);
        assert(r@ =~= a@ + b@.subrange(0, k + 1));
        k = k + 1;
    }
    assert(b@.subrange(0, b@.len() as int) =~= b@);
    r
}

/// The view of each line of a line vector.
pub open spec fn view_lines(v: Seq<Vec<char>>) -> Seq<Seq<char>> {
    Seq::new(v.len(), |i: int| v[i]@)
}

proof fn lemma_newline_skip(s: Seq<char>, a: int, b: int)
    requires
        0 <= a <= b <= s.len(),
        forall|j: int| a <= j < b ==> s[j] != '\n',
    ensures
        next_newline(s, a) == next_newline(s, b),
    decreases b - a,
{
    if a < b {
        lemma_newline_skip(s, a + 1, b);
    }
}

/// The pieces between newlines of the first `n` characters of `s`.
fn split_prefix(s: &[char], n: usize) -> (r: Vec<Vec<char>>)
    requires
        n <= s@.len(),
    ensures
        view_lines(r@) == split_from(s@.subrange(0, n as int), 0),
{
    let ghost t = s@.subrange(0, n as int);
    let mut out: Vec<Vec<char>> = Vec::new();
    let mut cur: Vec<char> = Vec::new();
    let mut i: usize = 0;
    let ghost mut st: int = 0;
    while i < n
        invariant
            n <= s@.len(),
            t == s@.subrange(0, n as int),
            0 <= st <= i <= n,
            cur@ == t.subrange(st, i as int),
            forall|j: int| st <= j < i ==> t[j] != '\n',
            view_lines(out@) + split_from(t, st) == split_from(t, 0),
        decreases n - i,
    {
        let c = s[i];
        if c == '\n' {
            proof {
                lemma_newline_skip(t, st, i as int);
                assert(next_newline(t, i as int) == i);
                assert(split_from(t, st) == seq![t.subrange(st, i as int)] + split_from(t, i + 1));
                assert(view_lines(out@.push(cur)) =~= view_lines(out@) + seq![cur@]);
            }
            out.push(cur);
            cur = Vec::new();
            proof {
                st = i + 1;
                assert(cur@ =~= t.subrange(st, st));
            }
        } else {
            cur.push(c);
            assert(cur@ =~= t.subrange(st, i + 1));
        }
        i = i + 1;
    }
    proof {
        lemma_newline_skip(t, st, n as int);
        assert(split_from(t, st) == seq![t.subrange(st, n as int)]);
        assert(view_lines(out@.push(cur)) =~= view_lines(out@) + seq![cur@]);
    }
    out.push(cur);
    out
}

/// The lines of a text, as `lines_of` describes them.
pub fn split_lines(s: &[char]) -> (r: Vec<Vec<char>>)
    ensures
        view_lines(r@) == lines_of(s@),
{
    if s.len() == 0 {
        let r: Vec<Vec<char>> = Vec::new();
        assert(view_lines(r@) =~= lines_of(s@));
        return r;
    }
    if s[s.len() - 1] == '\n' {
        let r = split_prefix(s, s.len() - 1);
        assert(s@.subrange(0, s@.len() - 1) =~= s@.drop_last());
        r
    } else {
        let r = split_prefix(s, s.len());
        assert(s@.subrange(0, s@.len() as int) =~= s@);
        r
    }
}

/// Lines joined with a newline between each two of them.
pub fn join_vec(ls: &Vec<Vec<char>>) -> (r: Vec<char>)
    ensures
        r@ == join_lines(view_lines(ls@)),
{
    let mut r: Vec<char> = Vec::new();
    let mut k: usize = 0;
    while k < ls.len()
        invariant
            k <= ls.len(),
            r@ == join_lines(view_lines(ls@).take(k as int)),
        decreases ls.len() - k,
    {
        let ghost prev = view_lines(ls@).take(k as int);
        let ghost next = view_lines(ls@).take(k + 1);
        assert(next.drop_last() =~= prev);
        if k == 0 {
            r = concat(&r, ls[k].as_slice());
            assert(r@ =~= next[0]);
        } else {
            r.push('\n');
            r = concat(&r, ls[k].as_slice());
            assert(r@ =~= join_lines(prev) + seq!['\n'] + next.last());
        }
        k = k + 1;
    }
    assert(view_lines(ls@).take(ls.len() as int) =~= view_lines(ls@));
    r
}

/// The text of some lines, as `join_like` describes it.
pub fn text_like(ls: &Vec<Vec<char>>, source: &[char]) -> (r: String)
    ensures
        r@ == join_like(view_lines(ls@), source@),
{
    let mut j = join_vec(ls);
    let wants = ls.len() > 0 && ((source.len() > 0 && source[source.len() - 1] == '\n')
        || ls[ls.len() - 1].len() == 0);
    if wants {
        j.push('\n');
    }
    string_of(j.as_slice())
}

/// The decimal digit for a value below ten.
pub open spec fn digit_char(d: nat) -> char {
    if d == 0 {
        '0'
    } else if d == 1 {
        '1'
    } else if d == 2 {
        '2'
    } else if d == 3 {
        '3'
    } else if d == 4 {
        '4'
    } else if d == 5 {
        '5'
    } else if d == 6 {
        '6'
    } else if d == 7 {
        '7'
    } else if d == 8 {
        '8'
    } else {
        '9'
    }
}

/// The decimal writing of a number.
pub open spec fn decimal_of(n: nat) -> Seq<char>
    decreases n,
{
    if n < 10 {
        seq![digit_char(n)]
    } else {
        decimal_of(n / 10).push(digit_char(n % 10))
    }
}

/// The decimal writing of a number.
pub fn decimal(n: usize) -> (r: Vec<char>)
    ensures
        r@ == decimal_of(n as nat),
    decreases n,
{
    let d = n % 10;
    let c = if d == 0 {
        '0'
    } else if d == 1 {
        '1'
    } else if d == 2 {
        '2'
    } else if d == 3 {
        '3'
    } else if d == 4 {
        '4'
    } else if d == 5 {
        '5'
    } else if d == 6 {
        '6'
    } else if d == 7 {
        '7'
    } else if d == 8 {
        '8'
    } else {
        '9'
    };
    if n < 10 {
        vec![c]
    } else {
        let mut r = decimal(n / 10);
        r.push(c);
        r
    }
}

/// Whether `s` starts with `p`.
pub fn starts_with(s: &[char], p: &[char]) -> (r: bool)
    ensures
        r == (s@.len() >= p@.len() && s@.subrange(0, p@.len() as int) == p@),
{
    if s.len() < p.len() {
        return false;
    }
    let mut i: usize = 0;
    while i < p.len()
        invariant
            s@.len() >= p@.len(),
            i <= p.len(),
            forall|j: int| 0 <= j < i ==> s@[j] == p@[j],
        decreases p.len() - i,
    {
        if s[i] != p[i] {
            assert(s@.subrange(0, p@.len() as int)[i as int] != p@[i as int]);
            return false;
        }
        i = i + 1;
    }
    assert(s@.subrange(0, p@.len() as int) =~= p@);
    true
}

proof fn lemma_lead_from_bounds(l: Seq<char>, k: int)
    requires
        0 <= k,
    ensures
        lead_from(l, k) >= k,
    decreases l.len() - k,
{
    if k < l.len() && is_space(l[k]) {
        lemma_lead_from_bounds(l, k + 1);
    }
}

/// Indentation is never negative.
pub proof fn lemma_indent_nonneg(l: Seq<char>)
    ensures
        indent_of(l) >= 0,
{
    lemma_lead_from_bounds(l, 0);
}

} // verus!
verus! {

/// No line holds a newline.
pub open spec fn clean_lines(ls: Seq<Seq<char>>) -> bool {
    forall|i: int| 0 <= i < ls.len() ==> !(#[trigger] ls[i]).contains('\n')
}

proof fn lemma_newline_in_prefix(a: Seq<char>, x: Seq<char>, k: int)
    requires
        0 <= k <= a.len(),
        next_newline(a, k) < a.len(),
    ensures
        next_newline(a + x, k) == next_newline(a, k),
    decreases a.len() - k,
{
    assert((a + x)[k] == a[k]);
    if a[k] != '\n' {
        lemma_newline_in_prefix(a, x, k + 1);
    }
}

proof fn lemma_newline_at_join(a: Seq<char>, b: Seq<char>, k: int)
    requires
        0 <= k <= a.len(),
        next_newline(a, k) >= a.len(),
    ensures
        next_newline(a + seq!['\n'] + b, k) == a.len(),
    decreases a.len() - k,
{
    let s = a + seq!['\n'] + b;
    if k < a.len() {
        assert(s[k] == a[k]);
        lemma_newline_at_join(a, b, k + 1);
    } else {
        assert(s[k] == '\n');
    }
}

proof fn lemma_no_newline_after(s: Seq<char>, k: int)
    requires
        0 <= k <= s.len(),
        forall|j: int| k <= j < s.len() ==> s[j] != '\n',
    ensures
        next_newline(s, k) == s.len(),
    decreases s.len() - k,
{
    if k < s.len() {
        lemma_no_newline_after(s, k + 1);
    }
}

proof fn lemma_newline_bounds(s: Seq<char>, k: int)
    requires
        0 <= k,
    ensures
        next_newline(s, k) >= k || next_newline(s, k) == s.len(),
        next_newline(s, k) <= s.len() || k > s.len(),
    decreases s.len() - k,
{
    if k < s.len() && s[k] != '\n' {
        lemma_newline_bounds(s, k + 1);
    }
}

/// Splitting `a`, a newline and `b` (which holds none) from `k` splits `a` from `k`,
/// then gives `b`.
proof fn lemma_split_join(a: Seq<char>, b: Seq<char>, k: int)
    requires
        0 <= k <= a.len(),
        !b.contains('\n'),
    ensures
        split_from(a + seq!['\n'] + b, k) == split_from(a, k).push(b),
    decreases a.len() - k,
{
    let s = a + seq!['\n'] + b;
    lemma_newline_bounds(a, k);
    let e = next_newline(a, k);
    if e < a.len() {
        lemma_newline_in_prefix(a, seq!['\n'] + b, k);
        assert(a + seq!['\n'] + b =~= a + (seq!['\n'] + b));
        assert(next_newline(s, k) == e);
        assert(s.subrange(k, e) =~= a.subrange(k, e));
        lemma_split_join(a, b, e + 1);
        assert(split_from(s, k) == seq![s.subrange(k, e)] + split_from(s, e + 1));
        assert(split_from(a, k) == seq![a.subrange(k, e)] + split_from(a, e + 1));
        assert(split_from(s, k) =~= split_from(a, k).push(b));
    } else {
        lemma_newline_at_join(a, b, k);
        assert(s.subrange(k, a.len() as int) =~= a.subrange(k, a.len() as int));
        assert forall|j: int| a.len() + 1 <= j < s.len() implies s[j] != '\n' by {
            assert(s[j] == b[j - a.len() - 1]);
        }
        lemma_no_newline_after(s, a.len() + 1 as int);
        assert(s.subrange(a.len() + 1 as int, s.len() as int) =~= b);
        assert(split_from(s, a.len() + 1 as int) == seq![b]);
        assert(split_from(a, k) == seq![a.subrange(k, a.len() as int)]);
        assert(split_from(s, k) =~= split_from(a, k).push(b));
    }
}

/// Lines without newlines, joined and split again, come back.
proof fn lemma_split_joined(ls: Seq<Seq<char>>)
    requires
        ls.len() > 0,
        forall|i: int| 0 <= i < ls.len() ==> !(#[trigger] ls[i]).contains('\n'),
    ensures
        split_from(join_lines(ls), 0) == ls,
    decreases ls.len(),
{
    if ls.len() == 1 {
        assert forall|j: int| 0 <= j < ls[0].len() implies ls[0][j] != '\n' by {
            if ls[0][j] == '\n' {
                assert(ls[0].contains('\n'));
            }
        }
        lemma_no_newline_after(ls[0], 0);
        assert(ls[0].subrange(0, ls[0].len() as int) =~= ls[0]);
        assert(split_from(ls[0], 0) =~= ls);
    } else {
        let init = ls.drop_last();
        assert forall|i: int| 0 <= i < init.len() implies !(#[trigger] init[i]).contains('\n') by {
            assert(init[i] == ls[i]);
        }
        lemma_split_joined(init);
        assert(!ls.last().contains('\n'));
        lemma_split_join(join_lines(init), ls.last(), 0);
        assert(init.push(ls.last()) =~= ls);
    }
}

pub(crate) proof fn lemma_join_last(ls: Seq<Seq<char>>)
    requires
        ls.len() > 0,
        ls.last().len() > 0,
    ensures
        join_lines(ls).len() > 0,
        join_lines(ls).last() == ls.last().last(),
{
    if ls.len() > 1 {
        let j = join_lines(ls);
        assert(j == join_lines(ls.drop_last()) + seq!['\n'] + ls.last());
    }
}

/// The text of lines without newlines splits back into them.
pub proof fn lemma_lines_of_joined(ls: Seq<Seq<char>>, source: Seq<char>)
    requires
        clean_lines(ls),
    ensures
        lines_of(join_like(ls, source)) == ls,
{
    let j = join_lines(ls);
    if ls.len() == 0 {
        assert(j.len() == 0);
        assert(lines_of(j) =~= ls);
    } else {
        lemma_split_joined(ls);
        if (source.len() > 0 && source.last() == '\n') || ls.last().len() == 0 {
            assert(j.push('\n').drop_last() =~= j);
        } else {
            lemma_join_last(ls);
            assert(ls.last().last() != '\n') by {
                let l = ls.last();
                assert(l[l.len() - 1] == l.last());
                if l.last() == '\n' {
                    assert(l.contains('\n'));
                }
                assert(!ls[ls.len() - 1].contains('\n'));
            }
        }
    }
}

proof fn lemma_before_newline(s: Seq<char>, k: int, j: int)
    requires
        0 <= k <= j < next_newline(s, k),
        j < s.len(),
    ensures
        s[j] != '\n',
    decreases j - k,
{
    if k < j {
        lemma_before_newline(s, k + 1, j);
    }
}

proof fn lemma_pieces_clean(s: Seq<char>, k: int)
    requires
        0 <= k <= s.len(),
    ensures
        clean_lines(split_from(s, k)),
    decreases s.len() - k,
{
    lemma_newline_bounds(s, k);
    let e = next_newline(s, k);
    let stop = if e >= s.len() { s.len() as int } else { e };
    let piece = s.subrange(k, stop);
    assert(!piece.contains('\n')) by {
        if piece.contains('\n') {
            let w = choose|w: int| 0 <= w < piece.len() && piece[w] == '\n';
            lemma_before_newline(s, k, k + w);
        }
    }
    if e < s.len() {
        lemma_pieces_clean(s, e + 1);
        let rest = split_from(s, e + 1);
        assert(split_from(s, k) == seq![piece] + rest);
        assert forall|i: int| 0 <= i < split_from(s, k).len() implies !(#[trigger] split_from(
            s,
            k,
        )[i]).contains('\n') by {
            if i > 0 {
                assert(split_from(s, k)[i] == rest[i - 1]);
            }
        }
    } else {
        assert(split_from(s, k) == seq![piece]);
    }
}

proof fn lemma_split_last(s: Seq<char>, k: int)
    requires
        0 <= k <= s.len(),
        split_from(s, k).last().len() == 0,
    ensures
        k == s.len() || s[s.len() - 1] == '\n',
    decreases s.len() - k,
{
    lemma_newline_bounds(s, k);
    let e = next_newline(s, k);
    if e < s.len() {
        lemma_split_nonempty(s, e + 1);
        let rest = split_from(s, e + 1);
        assert(split_from(s, k) == seq![s.subrange(k, e)] + rest);
        assert(split_from(s, k).last() == rest.last());
        lemma_newline_found(s, k);
        lemma_split_last(s, e + 1);
    }
}

/// No line of a text holds a newline.
pub proof fn lemma_lines_clean(text: Seq<char>)
    ensures
        clean_lines(lines_of(text)),
{
    if text.len() > 0 {
        if text.last() == '\n' {
            lemma_pieces_clean(text.drop_last(), 0);
        } else {
            lemma_pieces_clean(text, 0);
        }
    }
}

/// A text whose last line is empty ends with a newline.
pub proof fn lemma_last_line_empty(text: Seq<char>)
    requires
        lines_of(text).len() > 0,
        lines_of(text).last().len() == 0,
    ensures
        text.len() > 0 && text.last() == '\n',
{
    if text.len() > 0 && text.last() != '\n' {
        lemma_split_last(text, 0);
    }
}

proof fn lemma_join_front(a: Seq<char>, rest: Seq<Seq<char>>)
    requires
        rest.len() > 0,
    ensures
        join_lines(seq![a] + rest) == a + seq!['\n'] + join_lines(rest),
    decreases rest.len(),
{
    let all = seq![a] + rest;
    if rest.len() == 1 {
        assert(all.drop_last() =~= seq![a]);
        assert(all.last() == rest[0]);
    } else {
        lemma_join_front(a, rest.drop_last());
        assert(all.drop_last() =~= seq![a] + rest.drop_last());
        assert(all.last() == rest.last());
        assert(join_lines(all) == join_lines(all.drop_last()) + seq!['\n'] + all.last());
        assert(join_lines(rest) == join_lines(rest.drop_last()) + seq!['\n'] + rest.last());
        assert(join_lines(all) =~= a + seq!['\n'] + join_lines(rest));
    }
}

/// Joining the pieces of a text gives the text back.
proof fn lemma_join_split(s: Seq<char>, k: int)
    requires
        0 <= k <= s.len(),
    ensures
        join_lines(split_from(s, k)) == s.subrange(k, s.len() as int),
    decreases s.len() - k,
{
    lemma_newline_bounds(s, k);
    let e = next_newline(s, k);
    if e >= s.len() {
        assert(split_from(s, k) == seq![s.subrange(k, s.len() as int)]);
    } else {
        lemma_join_split(s, e + 1);
        let rest = split_from(s, e + 1);
        assert(split_from(s, k) == seq![s.subrange(k, e)] + rest);
        lemma_split_nonempty(s, e + 1);
        lemma_join_front(s.subrange(k, e), rest);
        lemma_newline_found(s, k);
        assert(s[e] == '\n');
        assert(s.subrange(k, s.len() as int) =~= s.subrange(k, e) + seq!['\n'] + s.subrange(
            e + 1,
            s.len() as int,
        ));
    }
}

proof fn lemma_newline_found(s: Seq<char>, k: int)
    requires
        0 <= k,
        next_newline(s, k) < s.len(),
    ensures
        s[next_newline(s, k)] == '\n',
    decreases s.len() - k,
{
    if k < s.len() && s[k] != '\n' {
        lemma_newline_found(s, k + 1);
    }
}

proof fn lemma_split_nonempty(s: Seq<char>, k: int)
    requires
        0 <= k <= s.len(),
    ensures
        split_from(s, k).len() > 0,
    decreases s.len() - k,
{
    lemma_newline_bounds(s, k);
    let e = next_newline(s, k);
    if e < s.len() {
        lemma_split_nonempty(s, e + 1);
    }
}

/// A text is the text of its lines.
pub proof fn lemma_joined_lines_of(text: Seq<char>)
    ensures
        join_like(lines_of(text), text) == text,
{
    let ls = lines_of(text);
    if text.len() == 0 {
        assert(join_lines(ls) =~= text);
    } else if text.last() == '\n' {
        let t = text.drop_last();
        lemma_join_split(t, 0);
        assert(t.subrange(0, t.len() as int) =~= t);
        lemma_split_nonempty(t, 0);
        assert(t.push('\n') =~= text);
    } else {
        lemma_join_split(text, 0);
        lemma_split_nonempty(text, 0);
        assert(text.subrange(0, text.len() as int) =~= text);
        if ls.last().len() == 0 {
            lemma_last_line_empty(text);
        }
    }
}

} // verus!
