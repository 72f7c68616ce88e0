//! Character-level text operations: matching a separator, splitting on it,
//! joining with it, and cutting text into lines.

use vstd::prelude::*;
use vstd::slice::slice_subrange;
use vstd::slice::slice_to_vec;
use vstd::string::StringExecFns;

verus! {

/// `sep` occurs in `s` starting at position `i`.
pub open spec fn occurs_at(s: Seq<char>, sep: Seq<char>, i: int) -> bool {
    0 <= i && i + sep.len() <= s.len() && s.subrange(i, i + sep.len()) == sep
}

/// The first position at or after `i` where `sep` occurs in `s`, or `-1` if none.
pub open spec fn first_occurrence(s: Seq<char>, sep: Seq<char>, i: int) -> int
    decreases s.len() + 1 - i,
{
    if i < 0 || i + sep.len() > s.len() {
        -1
    } else if occurs_at(s, sep, i) {
        i
    } else {
        first_occurrence(s, sep, i + 1)
    }
}

/// The fields of `s` from position `start` on, cut at each occurrence of `sep`
/// found scanning left to right; occurrences never overlap.
pub open spec fn fields_from(s: Seq<char>, sep: Seq<char>, start: int) -> Seq<Seq<char>>
    decreases s.len() - start,
{
    let k = first_occurrence(s, sep, start);
    if sep.len() == 0 || start < 0 || start > s.len() || k < start || k + sep.len() > s.len() {
        seq![s.subrange(start, s.len() as int)]
    } else {
        seq![s.subrange(start, k)] + fields_from(s, sep, k + sep.len())
    }
}

/// `s` split on every non-overlapping occurrence of the non-empty separator `sep`,
/// keeping empty fields.
pub open spec fn split_on(s: Seq<char>, sep: Seq<char>) -> Seq<Seq<char>> {
    fields_from(s, sep, 0)
}

proof fn lemma_first_occurrence_bounds(s: Seq<char>, sep: Seq<char>, i: int)
    ensures
        ({
            let k = first_occurrence(s, sep, i);
            k == -1 || (i <= k && occurs_at(s, sep, k))
        }),
    decreases s.len() + 1 - i,
{
    if !(i < 0 || i + sep.len() > s.len()) && !occurs_at(s, sep, i) {
        lemma_first_occurrence_bounds(s, sep, i + 1);
    }
}

/// Whether `sep` occurs in `s` at position `i`.
fn occurs_at_exec(s: &[char], sep: &[char], i: usize) -> (r: bool)
    requires
        i + sep@.len() <= s@.len(),
    ensures
        r == occurs_at(s@, sep@, i as int),
{
    let n: usize = s.len();
    let mut j: usize = 0;
    while j < sep.len()
        invariant
            n == s@.len(),
            j <= sep@.len(),
            i + sep@.len() <= s@.len(),
            forall|m: int| 0 <= m < j ==> s@[i + m] == sep@[m],
        decreases sep@.len() - j,
    {
        assert(i + j < s@.len());
        if s[i + j] != sep[j] {
            assert(s@.subrange(i as int, i + sep@.len())[j as int] != sep@[j as int]);
            return false;
        }
        j = j + 1;
    }
    assert(s@.subrange(i as int, i + sep@.len()) =~= sep@);
    true
}

/// The character sequences held by a sequence of character vectors.
pub open spec fn char_rows(v: Seq<Vec<char>>) -> Seq<Seq<char>> {
    v.map_values(|f: Vec<char>| f@)
}

proof fn lemma_first_occurrence_skip(s: Seq<char>, sep: Seq<char>, a: int, b: int)
    requires
        0 <= a <= b,
        forall|j: int| a <= j < b ==> !occurs_at(s, sep, j),
    ensures
        first_occurrence(s, sep, a) == first_occurrence(s, sep, b),
    decreases b - a,
{
    if a < b {
        lemma_first_occurrence_skip(s, sep, a + 1, b);
    }
}

/// Splits `s` on every non-overlapping occurrence of `sep`, left to right.
pub fn split_chars(s: &[char], sep: &[char]) -> (r: Vec<Vec<char>>)
    requires
        sep@.len() > 0,
    ensures
        char_rows(r@) == split_on(s@, sep@),
{
    let n: usize = s.len();
    let m: usize = sep.len();
    let mut out: Vec<Vec<char>> = Vec::new();
    let mut cur: Vec<char> = Vec::new();
    let mut start: usize = 0;
    let mut i: usize = 0;
    assert(char_rows(out@) =~= Seq::<Seq<char>>::empty());
    while i < n
        invariant
            n == s@.len(),
            m == sep@.len(),
            m > 0,
            start <= i <= n,
            cur@ == s@.subrange(start as int, i as int),
            forall|j: int| start <= j < i ==> !occurs_at(s@, sep@, j),
            char_rows(out@) + fields_from(s@, sep@, start as int) == split_on(s@, sep@),
        decreases n - i,
    {
        if m <= n - i && occurs_at_exec(s, sep, i) {
            proof {
                lemma_first_occurrence_skip(s@, sep@, start as int, i as int);
                let rest = fields_from(s@, sep@, i + m);
                assert(fields_from(s@, sep@, start as int) == seq![cur@] + rest);
                assert(char_rows(out@).push(cur@) + rest =~= char_rows(out@) + (seq![cur@] + rest));
            }
            let ghost prev = char_rows(out@);
            let ghost field = cur@;
            out.push(cur);
            assert(char_rows(out@) =~= prev.push(field));
            cur = Vec::new();
            i = i + m;
            start = i;
            assert(cur@ =~= s@.subrange(start as int, i as int));
        } else {
            cur.push(s[i]);
            i = i + 1;
            assert(cur@ =~= s@.subrange(start as int, i as int));
        }
    }
    proof {
        lemma_first_occurrence_skip(s@, sep@, start as int, n as int);
        assert(fields_from(s@, sep@, start as int) == seq![cur@]);
        assert(char_rows(out@).push(cur@) =~= char_rows(out@) + seq![cur@]);
    }
    let ghost prev = char_rows(out@);
    let ghost field = cur@;
    out.push(cur);
    assert(char_rows(out@) =~= prev.push(field));
    out
}

/// A line without the carriage return that ends it, if it has one.
pub open spec fn strip_cr(l: Seq<char>) -> Seq<char> {
    if l.len() > 0 && l.last() == '\r' {
        l.drop_last()
    } else {
        l
    }
}

/// The lines of `s`: it is cut at each `'\n'`, a `'\r'` just before a `'\n'` is
/// dropped, and a final `'\n'` ends the last line instead of starting an empty one.
/// Empty text has no lines.
pub open spec fn lines_of(s: Seq<char>) -> Seq<Seq<char>> {
    let parts = split_on(s, seq!['\n']);
    let n: int = if s.len() == 0 {
        0
    } else if s.last() == '\n' {
        parts.len() - 1
    } else {
        parts.len() as int
    };
    Seq::new(n as nat, |i: int| if i < parts.len() - 1 { strip_cr(parts[i]) } else { parts[i] })
}

fn strip_cr_exec(l: &[char]) -> (r: Vec<char>)
    ensures
        r@ == strip_cr(l@),
{
    let n: usize = l.len();
    if n > 0 && l[n - 1] == '\r' {
        slice_to_vec(slice_subrange(l, 0, n - 1))
    } else {
        slice_to_vec(l)
    }
}

/// Cuts `s` into lines as `lines_of` describes.
pub fn split_lines(s: &[char]) -> (r: Vec<Vec<char>>)
    ensures
        char_rows(r@) == lines_of(s@),
{
    let newline: [char; 1] = ['\n'];
    assert(newline@ =~= seq!['\n']);
    let parts = split_chars(s, newline.as_slice());
    let ghost pv = char_rows(parts@);
    assert(pv.len() == parts@.len());
    let n: usize = if s.len() == 0 {
        0
    } else if s[s.len() - 1] == '\n' {
        parts.len() - 1
    } else {
        parts.len()
    };
    let mut out: Vec<Vec<char>> = Vec::new();
    let mut i: usize = 0;
    while i < n
        invariant
            pv == char_rows(parts@),
            pv == split_on(s@, seq!['\n']),
            n == lines_of(s@).len(),
            n <= parts@.len(),
            i <= n,
            char_rows(out@) =~= lines_of(s@).subrange(0, i as int),
        decreases n - i,
    {
        let line = if i + 1 < parts.len() {
            strip_cr_exec(parts[i].as_slice())
        } else {
            slice_to_vec(parts[i].as_slice())
        };
        assert(line@ == lines_of(s@)[i as int]);
        let ghost prev = out@;
        out.push(line);
        assert(char_rows(out@) =~= char_rows(prev).push(line@));
        i = i + 1;
    }
    out
}

/// The characters of `s`, in order.
pub fn chars_of(s: &str) -> (r: Vec<char>)
    ensures
        r@ == s@,
{
    let mut out: Vec<char> = Vec::new();
    for c in it: s.chars()
        invariant
            out@ == it.seq().subrange(0, it.index() as int),
    {
        out.push(c);
    }
    out
}

/// Relies on `String::push`: appends one character.
#[verifier::external_body]
fn push_char(s: &mut String, c: char)
    ensures
        final(s)@ == old(s)@.push(c),
{
    s.push(c)
}

/// A string holding the characters of `v`, in order.
pub fn string_of(v: &[char]) -> (r: String)
    ensures
        r@ == v@,
{
    let mut out = String::new();
    let mut i: usize = 0;
    while i < v.len()
        invariant
            i <= v@.len(),
            out@ =~= v@.subrange(0, i as int),
        decreases v@.len() - i,
    {
        push_char(&mut out, v[i]);
        i = i + 1;
    }
    out
}

/// The character sequences held by a sequence of strings.
pub open spec fn string_views(v: Seq<String>) -> Seq<Seq<char>> {
    v.map_values(|s: String| s@)
}

/// `parts` with `sep` between each two neighbours, and nowhere else.
pub open spec fn join_with(parts: Seq<Seq<char>>, sep: Seq<char>) -> Seq<char>
    decreases parts.len(),
{
    if parts.len() == 0 {
        Seq::empty()
    } else if parts.len() == 1 {
        parts[0]
    } else {
        join_with(parts.drop_last(), sep) + sep + parts.last()
    }
}

/// The strings of `parts` joined with `sep`.
pub fn join_strings(parts: &Vec<String>, sep: &str) -> (r: String)
    ensures
        r@ == join_with(string_views(parts@), sep@),
{
    let mut out = String::new();
    let mut i: usize = 0;
    while i < parts.len()
        invariant
            i <= parts@.len(),
            out@ == join_with(string_views(parts@).take(i as int), sep@),
        decreases parts@.len() - i,
    {
        let ghost all = string_views(parts@);
        assert(all.take(i + 1).drop_last() =~= all.take(i as int));
        if i > 0 {
            out.append(sep);
        } else {
            assert(out@ =~= Seq::<char>::empty());
        }
        out.append(parts[i].as_str());
        i = i + 1;
    }
    assert(string_views(parts@).take(i as int) =~= string_views(parts@));
    out
}

/// Joining `fields` with `sep` and splitting the result on `sep` gives `fields`
/// back: there is at least one field, each field but the last, followed by
/// `sep`, first holds `sep` at its end, and the last field holds no `sep`.
pub open spec fn separable(fields: Seq<Seq<char>>, sep: Seq<char>) -> bool {
    &&& fields.len() > 0
    &&& forall|i: int|
        0 <= i < fields.len() - 1 ==> first_occurrence(#[trigger] fields[i] + sep, sep, 0)
            == fields[i].len()
    &&& first_occurrence(fields.last(), sep, 0) == -1
}

proof fn lemma_first_occurrence_shift(s: Seq<char>, sep: Seq<char>, p: int, i: int)
    requires
        0 <= p <= i,
        p <= s.len(),
    ensures
        ({
            let k = first_occurrence(s.skip(p), sep, i - p);
            first_occurrence(s, sep, i) == if k == -1 {
                -1
            } else {
                k + p
            }
        }),
    decreases s.len() + 1 - i,
{
    let t = s.skip(p);
    if !(i + sep.len() > s.len()) {
        assert(s.subrange(i, i + sep.len()) =~= t.subrange(i - p, i - p + sep.len()));
        if !occurs_at(s, sep, i) {
            lemma_first_occurrence_shift(s, sep, p, i + 1);
        }
    }
}

proof fn lemma_fields_from_shift(s: Seq<char>, sep: Seq<char>, p: int, q: int)
    requires
        0 <= p <= q <= s.len(),
    ensures
        fields_from(s, sep, q) == fields_from(s.skip(p), sep, q - p),
    decreases s.len() - q,
{
    let t = s.skip(p);
    lemma_first_occurrence_shift(s, sep, p, q);
    lemma_first_occurrence_bounds(t, sep, q - p);
    let k = first_occurrence(s, sep, q);
    if q <= s.len() {
        assert(s.subrange(q, s.len() as int) =~= t.subrange(q - p, t.len() as int));
    }
    if sep.len() > 0 && q <= s.len() && k >= q && k + sep.len() <= s.len() {
        assert(s.subrange(q, k) =~= t.subrange(q - p, k - p));
        lemma_fields_from_shift(s, sep, p, k + sep.len());
    }
}

proof fn lemma_first_occurrence_prefix(u: Seq<char>, s: Seq<char>, sep: Seq<char>, j: int)
    requires
        0 <= j,
        u.len() <= s.len(),
        u =~= s.take(u.len() as int),
        first_occurrence(u, sep, j) >= 0,
    ensures
        first_occurrence(s, sep, j) == first_occurrence(u, sep, j),
    decreases u.len() + 1 - j,
{
    lemma_first_occurrence_bounds(u, sep, j);
    assert(s.subrange(j, j + sep.len()) =~= u.subrange(j, j + sep.len()));
    if !occurs_at(u, sep, j) {
        lemma_first_occurrence_prefix(u, s, sep, j + 1);
    }
}

proof fn lemma_join_first(fields: Seq<Seq<char>>, sep: Seq<char>)
    requires
        fields.len() >= 2,
    ensures
        join_with(fields, sep) == fields[0] + sep + join_with(fields.skip(1), sep),
    decreases fields.len(),
{
    if fields.len() == 2 {
        assert(fields.drop_last() =~= seq![fields[0]]);
        assert(fields.skip(1) =~= seq![fields[1]]);
        assert(join_with(fields.drop_last(), sep) == fields[0]);
        assert(join_with(fields.skip(1), sep) == fields[1]);
        assert(join_with(fields, sep) == join_with(fields.drop_last(), sep) + sep + fields.last());
    } else {
        let init = fields.drop_last();
        lemma_join_first(init, sep);
        let tail = fields.skip(1);
        assert(tail.drop_last() =~= init.skip(1));
        assert(tail.last() == fields.last());
        assert(join_with(tail, sep) == join_with(tail.drop_last(), sep) + sep + tail.last());
        assert(init[0] == fields[0]);
        assert(join_with(fields, sep) =~= fields[0] + sep + join_with(fields.skip(1), sep));
    }
}

/// Splitting separable fields joined with a non-empty separator gives them back.
pub proof fn lemma_split_join(fields: Seq<Seq<char>>, sep: Seq<char>)
    requires
        sep.len() > 0,
        separable(fields, sep),
    ensures
        split_on(join_with(fields, sep), sep) == fields,
    decreases fields.len(),
{
    let s = join_with(fields, sep);
    if fields.len() == 1 {
        assert(s.subrange(0, s.len() as int) =~= s);
        assert(seq![s] =~= fields);
    } else {
        let f0 = fields[0];
        let rest = fields.skip(1);
        lemma_join_first(fields, sep);
        let u = f0 + sep;
        assert(u =~= s.take(u.len() as int));
        assert(first_occurrence(fields[0] + sep, sep, 0) == f0.len());
        lemma_first_occurrence_prefix(u, s, sep, 0);
        let q: int = (f0.len() + sep.len()) as int;
        lemma_fields_from_shift(s, sep, q, q);
        assert(s.skip(q) =~= join_with(rest, sep));
        assert forall|i: int| 0 <= i < rest.len() - 1 implies first_occurrence(
            #[trigger] rest[i] + sep,
            sep,
            0,
        ) == rest[i].len() by {
            assert(rest[i] == fields[i + 1]);
        }
        lemma_split_join(rest, sep);
        assert(s.subrange(0, f0.len() as int) =~= f0);
        assert(seq![f0] + rest =~= fields);
    }
}

/// A sequence without `'\n'` holds no newline, and one newline after it is its
/// first.
pub proof fn lemma_newline_free(u: Seq<char>, j: int)
    requires
        0 <= j <= u.len(),
        forall|i: int| 0 <= i < u.len() ==> u[i] != '\n',
    ensures
        first_occurrence(u, seq!['\n'], j) == -1,
        first_occurrence(u + seq!['\n'], seq!['\n'], j) == u.len(),
    decreases u.len() - j,
{
    let nl = seq!['\n'];
    let v = u + nl;
    if j < u.len() {
        assert(u.subrange(j, j + 1)[0] == u[j]);
        assert(v.subrange(j, j + 1)[0] == u[j]);
        lemma_newline_free(u, j + 1);
    } else {
        assert(v.subrange(j, j + 1) =~= nl);
    }
}

/// The last character of a join is that of its last part, when that part is
/// not empty.
pub proof fn lemma_join_last(parts: Seq<Seq<char>>, sep: Seq<char>)
    requires
        parts.len() > 0,
        parts.last().len() > 0,
    ensures
        join_with(parts, sep).len() > 0,
        join_with(parts, sep).last() == parts.last().last(),
{
}

} // verus!
