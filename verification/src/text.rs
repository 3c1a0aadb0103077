//! Character-level text utilities: conversions between `String` and
//! `Vec<char>`, whitespace trimming, line splitting and joining, and
//! substring search. All configuration parsing works over `Seq<char>`
//! models through these helpers.

use vstd::prelude::*;

verus! {

/// ASCII whitespace recognized when trimming a line: blank, tab, and the
/// carriage return that a CRLF line ending leaves behind.
pub open spec fn is_space(c: char) -> bool {
    c == ' ' || c == '\t' || c == '\r'
}

/// The sequence with leading whitespace removed.
pub open spec fn trim_start(s: Seq<char>) -> Seq<char>
    decreases s.len(),
{
    if s.len() > 0 && is_space(s[0]) {
        trim_start(s.drop_first())
    } else {
        s
    }
}

/// The sequence with trailing whitespace removed.
pub open spec fn trim_end(s: Seq<char>) -> Seq<char>
    decreases s.len(),
{
    if s.len() > 0 && is_space(s.last()) {
        trim_end(s.drop_last())
    } else {
        s
    }
}

/// The sequence with leading and trailing whitespace removed.
pub open spec fn spec_trim(s: Seq<char>) -> Seq<char> {
    trim_end(trim_start(s))
}

pub proof fn lemma_trim_start_skip(s: Seq<char>, i: int)
    requires
        0 <= i <= s.len(),
        forall|k: int| 0 <= k < i ==> is_space(s[k]),
        i < s.len() ==> !is_space(s[i]),
    ensures
        trim_start(s) == s.skip(i),
    decreases i,
{
    if i == 0 {
        assert(s.skip(0) == s);
    } else {
        let t = s.drop_first();
        assert(is_space(s[0]));
        assert(forall|k: int| 0 <= k < i - 1 ==> is_space(#[trigger] t[k]));
        lemma_trim_start_skip(t, i - 1);
        assert(t.skip(i - 1) == s.skip(i));
    }
}

pub proof fn lemma_trim_end_take(s: Seq<char>, j: int)
    requires
        0 <= j <= s.len(),
        forall|k: int| j <= k < s.len() ==> is_space(s[k]),
        j > 0 ==> !is_space(s[j - 1]),
    ensures
        trim_end(s) == s.take(j),
    decreases s.len() - j,
{
    if j == s.len() {
        // a trailing space is ruled out by the preconditions
        assert(!(s.len() > 0 && is_space(s.last())));
        assert(s.take(j) =~= s);
    } else {
        assert(is_space(s.last()));
        let t = s.drop_last();
        assert(forall|k: int| j <= k < t.len() ==> is_space(#[trigger] t[k]));
        lemma_trim_end_take(t, j);
        assert(t.take(j) =~= s.take(j));
    }
}

pub proof fn lemma_trim_start_len(s: Seq<char>)
    ensures
        trim_start(s).len() <= s.len(),
    decreases s.len(),
{
    if s.len() > 0 && is_space(s[0]) {
        lemma_trim_start_len(s.drop_first());
    }
}

pub proof fn lemma_trim_end_len(s: Seq<char>)
    ensures
        trim_end(s).len() <= s.len(),
    decreases s.len(),
{
    if s.len() > 0 && is_space(s.last()) {
        lemma_trim_end_len(s.drop_last());
    }
}

/// A sequence equal to its own trim has non-whitespace ends.
pub proof fn lemma_trim_ends(s: Seq<char>)
    requires
        spec_trim(s) == s,
        s.len() > 0,
    ensures
        !is_space(s[0]),
        !is_space(s.last()),
{
    if is_space(s[0]) {
        lemma_trim_start_len(s.drop_first());
        lemma_trim_end_len(trim_start(s));
        assert(spec_trim(s).len() < s.len());
        assert(false);
    }
    assert(trim_start(s) == s);
    if is_space(s.last()) {
        lemma_trim_end_len(s.drop_last());
        assert(trim_end(s).len() < s.len());
        assert(false);
    }
}

/// A sequence with non-whitespace ends is its own trim.
pub proof fn lemma_trim_identity(s: Seq<char>)
    requires
        s.len() > 0,
        !is_space(s[0]),
        !is_space(s.last()),
    ensures
        spec_trim(s) == s,
{
    lemma_trim_start_skip(s, 0);
    assert(s.skip(0) =~= s);
    lemma_trim_end_take(s, s.len() as int);
    assert(s.take(s.len() as int) =~= s);
}

/// Whether `c` counts as trimmable whitespace.
pub fn is_space_char(c: char) -> (r: bool)
    ensures
        r == is_space(c),
{
    c == ' ' || c == '\t' || c == '\r'
}

/// Copies the characters of a string slice into a vector.
pub fn str_to_chars(s: &str) -> (v: Vec<char>)
    ensures
        v@ == s@,
{
    let n = s.unicode_len();
    let mut v: Vec<char> = Vec::new();
    let mut i: usize = 0;
    while i < n
        invariant
            n == s@.len(),
            i <= n,
            v@ == s@.take(i as int),
        decreases n - i,
    {
        v.push(s.get_char(i));
        i = i + 1;
        proof {
            assert(v@ =~= s@.take(i as int));
        }
    }
    proof {
        assert(s@.take(n as int) =~= s@);
    }
    v
}

/// Relies on `String::push`: appends one character to the end of the string.
#[verifier::external_body]
fn push_char(s: &mut String, c: char)
    ensures
        final(s)@ == old(s)@ + seq![c],
{
    s.push(c);
}

/// Builds a `String` from a vector of characters.
pub fn chars_to_string(v: &Vec<char>) -> (s: String)
    ensures
        s@ == v@,
{
    let mut s = String::new();
    let mut i: usize = 0;
    while i < v.len()
        invariant
            i <= v@.len(),
            s@ == v@.take(i as int),
        decreases v@.len() - i,
    {
        push_char(&mut s, v[i]);
        i = i + 1;
        proof {
            assert(s@ =~= v@.take(i as int));
        }
    }
    proof {
        assert(v@.take(v@.len() as int) =~= v@);
    }
    s
}

/// Copies `v[from..to]` into a fresh vector.
pub fn subrange_vec(v: &Vec<char>, from: usize, to: usize) -> (r: Vec<char>)
    requires
        from <= to <= v@.len(),
    ensures
        r@ == v@.subrange(from as int, to as int),
{
    let mut r: Vec<char> = Vec::new();
    let mut i: usize = from;
    while i < to
        invariant
            from <= i <= to <= v@.len(),
            r@ == v@.subrange(from as int, i as int),
        decreases to - i,
    {
        r.push(v[i]);
        i = i + 1;
        proof {
            assert(r@ =~= v@.subrange(from as int, i as int));
        }
    }
    r
}

/// The text split at every newline character. The result always has at
/// least one element; a trailing newline yields a final empty line, as
/// `str::split('\n')` does.
pub open spec fn split_lines(s: Seq<char>) -> Seq<Seq<char>>
    decreases s.len(),
{
    if s.len() == 0 {
        seq![Seq::<char>::empty()]
    } else if s[0] == '\n' {
        seq![Seq::<char>::empty()] + split_lines(s.drop_first())
    } else {
        let r = split_lines(s.drop_first());
        seq![seq![s[0]] + r[0]] + r.drop_first()
    }
}

/// The lines joined back into one text with a newline between
/// consecutive lines (no trailing newline added).
pub open spec fn join_lines(ls: Seq<Seq<char>>) -> Seq<char>
    decreases ls.len(),
{
    if ls.len() == 0 {
        Seq::<char>::empty()
    } else if ls.len() == 1 {
        ls[0]
    } else {
        ls[0] + seq!['\n'] + join_lines(ls.drop_first())
    }
}

/// Whether the character `c` occurs in `s`.
pub open spec fn has_char(s: Seq<char>, c: char) -> bool {
    exists|i: int| 0 <= i < s.len() && s[i] == c
}

pub broadcast proof fn lemma_split_lines_nonempty(s: Seq<char>)
    ensures
        (#[trigger] split_lines(s)).len() >= 1,
    decreases s.len(),
{
    if s.len() == 0 {
    } else {
        lemma_split_lines_nonempty(s.drop_first());
    }
}

/// No line produced by `split_lines` contains a newline.
pub proof fn lemma_split_lines_no_newline(s: Seq<char>)
    ensures
        forall|i: int|
            0 <= i < split_lines(s).len() ==> !has_char(#[trigger] split_lines(s)[i], '\n'),
    decreases s.len(),
{
    broadcast use lemma_split_lines_nonempty;

    if s.len() == 0 {
    } else {
        lemma_split_lines_no_newline(s.drop_first());
        if s[0] == '\n' {
        } else {
            let r = split_lines(s.drop_first());
            let first = seq![s[0]] + r[0];
            assert(!has_char(r[0], '\n'));
            assert forall|k: int| 0 <= k < first.len() implies first[k] != '\n' by {
                if k > 0 {
                    assert(r[0][k - 1] != '\n');
                }
            }
            assert(forall|i: int|
                0 <= i < split_lines(s).len() ==> !has_char(
                    #[trigger] split_lines(s)[i],
                    '\n',
                ));
        }
    }
}

/// A sequence without `c` stays without `c` when its head is dropped.
proof fn lemma_no_char_drop_first(s: Seq<char>, c: char)
    requires
        !has_char(s, c),
        s.len() > 0,
    ensures
        s[0] != c,
        !has_char(s.drop_first(), c),
{
    if s[0] == c {
        assert(has_char(s, c));
    }
    if has_char(s.drop_first(), c) {
        let w = choose|i: int| 0 <= i < s.drop_first().len() && s.drop_first()[i] == c;
        assert(s[w + 1] == c);
        assert(has_char(s, c));
    }
}

/// Splitting a single newline-free line gives that line back alone.
pub proof fn lemma_split_single(l: Seq<char>)
    requires
        !has_char(l, '\n'),
    ensures
        split_lines(l) == seq![l],
    decreases l.len(),
{
    if l.len() == 0 {
        assert(l =~= Seq::<char>::empty());
        assert(split_lines(l) =~= seq![l]);
    } else {
        lemma_no_char_drop_first(l, '\n');
        let t = l.drop_first();
        lemma_split_single(t);
        assert(split_lines(l) =~= seq![seq![l[0]] + t]);
        assert(seq![l[0]] + t =~= l);
    }
}

/// Splitting `line + '\n' + rest` peels off the first line.
proof fn lemma_split_prepend(l: Seq<char>, t: Seq<char>)
    requires
        !has_char(l, '\n'),
    ensures
        split_lines(l + seq!['\n'] + t) == seq![l] + split_lines(t),
    decreases l.len(),
{
    broadcast use lemma_split_lines_nonempty;

    let s = l + seq!['\n'] + t;
    if l.len() == 0 {
        assert(s[0] == '\n');
        assert(s.drop_first() =~= t);
        assert(l =~= Seq::<char>::empty());
        assert(split_lines(s) =~= seq![l] + split_lines(t));
    } else {
        assert(s[0] == l[0]);
        lemma_no_char_drop_first(l, '\n');
        let l2 = l.drop_first();
        assert(s.drop_first() =~= l2 + seq!['\n'] + t);
        lemma_split_prepend(l2, t);
        let r = split_lines(s.drop_first());
        assert(r == seq![l2] + split_lines(t));
        assert(r[0] == l2);
        assert(seq![s[0]] + r[0] =~= l);
        assert(r.drop_first() =~= split_lines(t));
        assert(split_lines(s) =~= seq![l] + split_lines(t));
    }
}

/// Splitting then joining restores any text.
pub proof fn lemma_join_split(s: Seq<char>)
    ensures
        join_lines(split_lines(s)) == s,
    decreases s.len(),
{
    broadcast use lemma_split_lines_nonempty;

    if s.len() == 0 {
        assert(join_lines(split_lines(s)) =~= s);
    } else if s[0] == '\n' {
        lemma_join_split(s.drop_first());
        let r = split_lines(s.drop_first());
        let l = seq![Seq::<char>::empty()] + r;
        assert(l.drop_first() =~= r);
        assert(join_lines(l) == l[0] + seq!['\n'] + join_lines(r));
        assert(l[0] + seq!['\n'] + s.drop_first() =~= s);
    } else {
        lemma_join_split(s.drop_first());
        let r = split_lines(s.drop_first());
        let l = seq![seq![s[0]] + r[0]] + r.drop_first();
        if r.len() == 1 {
            assert(l.len() == 1);
            assert(join_lines(l) == seq![s[0]] + r[0]);
            assert(join_lines(r) == r[0]);
            assert(seq![s[0]] + r[0] =~= s);
        } else {
            assert(l.drop_first() =~= r.drop_first());
            assert(join_lines(l) == (seq![s[0]] + r[0]) + seq!['\n'] + join_lines(
                r.drop_first(),
            ));
            assert(join_lines(r) == r[0] + seq!['\n'] + join_lines(r.drop_first()));
            assert((seq![s[0]] + r[0]) + seq!['\n'] + join_lines(r.drop_first()) =~= seq![s[0]]
                + (r[0] + seq!['\n'] + join_lines(r.drop_first())));
            assert(seq![s[0]] + s.drop_first() =~= s);
        }
    }
}

/// Joining a concatenation of two nonempty line lists inserts one
/// newline at the boundary.
pub proof fn lemma_join_concat(a: Seq<Seq<char>>, b: Seq<Seq<char>>)
    requires
        a.len() >= 1,
        b.len() >= 1,
    ensures
        join_lines(a + b) == join_lines(a) + seq!['\n'] + join_lines(b),
    decreases a.len(),
{
    if a.len() == 1 {
        let l = a + b;
        assert(l[0] == a[0]);
        assert(l.drop_first() =~= b);
        assert(join_lines(l) == a[0] + seq!['\n'] + join_lines(b));
        assert(join_lines(a) == a[0]);
    } else {
        lemma_join_concat(a.drop_first(), b);
        let l = a + b;
        assert(l[0] == a[0]);
        assert(l.drop_first() =~= a.drop_first() + b);
        assert(join_lines(l) == a[0] + seq!['\n'] + join_lines(a.drop_first() + b));
        assert(a[0] + seq!['\n'] + (join_lines(a.drop_first()) + seq!['\n'] + join_lines(b))
            =~= (a[0] + seq!['\n'] + join_lines(a.drop_first())) + seq!['\n'] + join_lines(b));
    }
}

/// Joining then splitting restores any nonempty list of newline-free lines.
pub proof fn lemma_split_join(ls: Seq<Seq<char>>)
    requires
        ls.len() >= 1,
        forall|i: int| 0 <= i < ls.len() ==> !has_char(#[trigger] ls[i], '\n'),
    ensures
        split_lines(join_lines(ls)) == ls,
    decreases ls.len(),
{
    if ls.len() == 1 {
        lemma_split_single(ls[0]);
        assert(seq![ls[0]] =~= ls);
    } else {
        let rest = ls.drop_first();
        assert(forall|i: int| 0 <= i < rest.len() ==> rest[i] == ls[i + 1]);
        lemma_split_join(rest);
        lemma_split_prepend(ls[0], join_lines(rest));
        assert(seq![ls[0]] + rest =~= ls);
    }
}

/// The views of a list of character vectors.
pub open spec fn lines_view(r: Seq<Vec<char>>) -> Seq<Seq<char>> {
    r.map_values(|l: Vec<char>| l@)
}

/// Splits a character vector into its lines at every newline.
pub fn split_vec(v: &Vec<char>) -> (r: Vec<Vec<char>>)
    ensures
        lines_view(r@) == split_lines(v@),
{
    let n = v.len();
    let mut out: Vec<Vec<char>> = Vec::new();
    let mut start: usize = 0;
    proof {
        assert(v@.skip(0) =~= v@);
        assert(lines_view(out@) =~= Seq::<Seq<char>>::empty());
        assert(lines_view(out@) + split_lines(v@) =~= split_lines(v@));
    }
    loop
        invariant
            start <= n,
            n == v@.len(),
            split_lines(v@) == lines_view(out@) + split_lines(v@.skip(start as int)),
        decreases n - start,
    {
        let mut end: usize = start;
        while end < n && v[end] != '\n'
            invariant
                start <= end <= n,
                n == v@.len(),
                forall|k: int| start <= k < end ==> v@[k] != '\n',
            decreases n - end,
        {
            end = end + 1;
        }
        let seg = subrange_vec(v, start, end);
        proof {
            let tail = v@.skip(start as int);
            assert(!has_char(seg@, '\n'));
            if end < n {
                assert(tail =~= seg@ + seq!['\n'] + v@.skip(end as int + 1));
                lemma_split_prepend(seg@, v@.skip(end as int + 1));
            } else {
                assert(tail =~= seg@);
                lemma_split_single(seg@);
            }
        }
        out.push(seg);
        proof {
            assert(lines_view(out@) =~= lines_view(out@.drop_last()) + seq![seg@]);
        }
        if end == n {
            proof {
                assert(lines_view(out@) + Seq::<Seq<char>>::empty() =~= lines_view(out@));
                assert(split_lines(v@) =~= lines_view(out@));
            }
            return out;
        }
        proof {
            assert(lines_view(out@.drop_last()) + (seq![seg@] + split_lines(
                v@.skip(end as int + 1),
            )) =~= lines_view(out@) + split_lines(v@.skip(end as int + 1)));
        }
        start = end + 1;
    }
}

proof fn lemma_join_push(ls: Seq<Seq<char>>, x: Seq<char>)
    ensures
        join_lines(ls.push(x)) == if ls.len() == 0 {
            x
        } else {
            join_lines(ls) + seq!['\n'] + x
        },
    decreases ls.len(),
{
    if ls.len() == 0 {
        assert(ls.push(x).len() == 1);
        assert(join_lines(ls.push(x)) == ls.push(x)[0]);
    } else if ls.len() == 1 {
        assert(ls.push(x).drop_first() =~= seq![x]);
        assert(join_lines(seq![x]) == x);
        assert(join_lines(ls.push(x)) == ls.push(x)[0] + seq!['\n'] + join_lines(
            ls.push(x).drop_first(),
        ));
        assert(join_lines(ls) == ls[0]);
    } else {
        let rest = ls.drop_first();
        lemma_join_push(rest, x);
        assert(ls.push(x).drop_first() =~= rest.push(x));
        assert(join_lines(ls.push(x)) == ls[0] + seq!['\n'] + join_lines(rest.push(x)));
        assert(ls[0] + seq!['\n'] + (join_lines(rest) + seq!['\n'] + x) =~= (ls[0] + seq!['\n']
            + join_lines(rest)) + seq!['\n'] + x);
    }
}

/// Joins lines with a newline between consecutive lines.
pub fn join_vec(ls: &Vec<Vec<char>>) -> (r: Vec<char>)
    ensures
        r@ == join_lines(lines_view(ls@)),
{
    let mut r: Vec<char> = Vec::new();
    if ls.len() == 0 {
        return r;
    }
    let mut i: usize = 0;
    while i < ls.len()
        invariant
            i <= ls@.len(),
            ls@.len() >= 1,
            r@ == join_lines(lines_view(ls@).take(i as int)),
        decreases ls@.len() - i,
    {
        if i > 0 {
            r.push('\n');
        }
        let ghost pre = r@;
        r.extend_from_slice(ls[i].as_slice());
        proof {
            let lv = lines_view(ls@);
            lemma_join_push(lv.take(i as int), lv[i as int]);
            assert(lv.take(i as int).push(lv[i as int]) =~= lv.take(i as int + 1));
            if i == 0 {
                assert(lv.take(0) =~= Seq::<Seq<char>>::empty());
                assert(r@ =~= lv[0]);
            } else {
                assert(r@ =~= join_lines(lv.take(i as int)) + seq!['\n'] + lv[i as int]);
            }
        }
        i = i + 1;
    }
    proof {
        assert(lines_view(ls@).take(ls@.len() as int) =~= lines_view(ls@));
    }
    r
}

/// Whether two character vectors hold the same characters.
pub fn vec_eq(a: &Vec<char>, b: &Vec<char>) -> (r: bool)
    ensures
        r == (a@ == b@),
{
    if a.len() != b.len() {
        proof {
            assert(a@ != b@);
        }
        return false;
    }
    let mut i: usize = 0;
    while i < a.len()
        invariant
            i <= a@.len(),
            a@.len() == b@.len(),
            forall|k: int| 0 <= k < i ==> a@[k] == b@[k],
        decreases a@.len() - i,
    {
        if a[i] != b[i] {
            proof {
                assert(a@[i as int] != b@[i as int]);
            }
            return false;
        }
        i = i + 1;
    }
    proof {
        assert(a@ =~= b@);
    }
    true
}

/// Whether `p` is a prefix of `v`.
pub fn vec_has_prefix(v: &Vec<char>, p: &Vec<char>) -> (r: bool)
    ensures
        r == (v@.len() >= p@.len() && v@.subrange(0, p@.len() as int) == p@),
{
    if v.len() < p.len() {
        return false;
    }
    let mut i: usize = 0;
    while i < p.len()
        invariant
            i <= p@.len() <= v@.len(),
            forall|k: int| 0 <= k < i ==> v@[k] == p@[k],
        decreases p@.len() - i,
    {
        if v[i] != p[i] {
            proof {
                assert(v@.subrange(0, p@.len() as int)[i as int] != p@[i as int]);
            }
            return false;
        }
        i = i + 1;
    }
    proof {
        assert(v@.subrange(0, p@.len() as int) =~= p@);
    }
    true
}

/// Whether `p` occurs in `s` starting at index `i`.
pub open spec fn is_sub_at(s: Seq<char>, p: Seq<char>, i: int) -> bool {
    0 <= i && i + p.len() <= s.len() && s.subrange(i, i + p.len()) == p
}

/// Whether `p` occurs anywhere in `s` as a contiguous substring.
pub open spec fn spec_contains(s: Seq<char>, p: Seq<char>) -> bool {
    exists|i: int| is_sub_at(s, p, i)
}

/// Whether `p` matches the characters of `s` starting at index `i`.
fn match_at(s: &Vec<char>, p: &Vec<char>, i: usize) -> (r: bool)
    requires
        i + p@.len() <= s@.len(),
    ensures
        r == is_sub_at(s@, p@, i as int),
{
    let n = s.len();
    let mut j: usize = 0;
    while j < p.len()
        invariant
            n == s@.len(),
            i + p@.len() <= s@.len(),
            j <= p@.len(),
            forall|k: int| 0 <= k < j ==> s@[i + k] == p@[k],
        decreases p@.len() - j,
    {
        if s[i + j] != p[j] {
            proof {
                assert(s@.subrange(i as int, i + p@.len())[j as int] == s@[i + j]);
            }
            return false;
        }
        j = j + 1;
    }
    proof {
        assert(s@.subrange(i as int, i + p@.len()) =~= p@);
    }
    true
}

/// Whether the pattern `p` occurs as a contiguous substring of `s`.
pub fn contains_sub(s: &Vec<char>, p: &Vec<char>) -> (r: bool)
    ensures
        r == spec_contains(s@, p@),
{
    if p.len() > s.len() {
        proof {
            assert(forall|i: int| !is_sub_at(s@, p@, i));
        }
        return false;
    }
    if p.len() == 0 {
        proof {
            assert(s@.subrange(0, 0) =~= p@);
            assert(is_sub_at(s@, p@, 0));
        }
        return true;
    }
    let bound = s.len() - p.len();
    let mut i: usize = 0;
    while i <= bound
        invariant
            1 <= p@.len() <= s@.len(),
            bound == s@.len() - p@.len(),
            bound < usize::MAX,
            i <= bound + 1,
            forall|k: int| 0 <= k < i ==> !is_sub_at(s@, p@, k),
        decreases bound + 1 - i,
    {
        if match_at(s, p, i) {
            return true;
        }
        i = i + 1;
    }
    proof {
        assert forall|k: int| !is_sub_at(s@, p@, k) by {
            if 0 <= k <= s@.len() as int - p@.len() as int {
                assert(!is_sub_at(s@, p@, k));
            }
        }
    }
    false
}

/// The index of the first occurrence of `c` in `s`, or `s.len()` if absent.
pub open spec fn find_idx(s: Seq<char>, c: char) -> int
    decreases s.len(),
{
    if s.len() == 0 {
        0
    } else if s[0] == c {
        0
    } else {
        1 + find_idx(s.drop_first(), c)
    }
}

pub proof fn lemma_find_idx(s: Seq<char>, c: char)
    ensures
        0 <= find_idx(s, c) <= s.len(),
        find_idx(s, c) < s.len() ==> s[find_idx(s, c)] == c,
        forall|k: int| 0 <= k < find_idx(s, c) ==> s[k] != c,
    decreases s.len(),
{
    if s.len() == 0 {
    } else if s[0] == c {
    } else {
        let t = s.drop_first();
        lemma_find_idx(t, c);
        assert(forall|k: int| 0 <= k < t.len() ==> t[k] == s[k + 1]);
        assert forall|k: int| 0 <= k < find_idx(s, c) implies s[k] != c by {
            if k > 0 {
                assert(t[k - 1] != c);
            }
        }
    }
}

/// A position with no earlier occurrence of `c`, holding `c` itself or at
/// the end, is exactly `find_idx`.
pub proof fn lemma_find_idx_unique(s: Seq<char>, c: char, m: int)
    requires
        0 <= m <= s.len(),
        m < s.len() ==> s[m] == c,
        forall|k: int| 0 <= k < m ==> s[k] != c,
    ensures
        m == find_idx(s, c),
    decreases s.len(),
{
    if s.len() == 0 {
    } else if s[0] == c {
        if m > 0 {
            assert(s[0] != c);
        }
    } else {
        assert(m >= 1);
        let t = s.drop_first();
        assert(forall|k: int| 0 <= k < t.len() ==> t[k] == s[k + 1]);
        lemma_find_idx_unique(t, c, m - 1);
    }
}

/// Finds the first occurrence of `c` in `v`, returning its index or the
/// length of `v` if `c` does not occur.
pub fn find_char(v: &Vec<char>, c: char) -> (r: usize)
    ensures
        r == find_idx(v@, c),
{
    let mut i: usize = 0;
    while i < v.len()
        invariant
            i <= v@.len(),
            forall|k: int| 0 <= k < i ==> v@[k] != c,
        decreases v@.len() - i,
    {
        if v[i] == c {
            proof {
                lemma_find_idx_unique(v@, c, i as int);
            }
            return i;
        }
        i = i + 1;
    }
    proof {
        lemma_find_idx_unique(v@, c, v@.len() as int);
    }
    v.len()
}

/// Removes leading and trailing whitespace from a line of characters.
pub fn trim_vec(v: &Vec<char>) -> (r: Vec<char>)
    ensures
        r@ == spec_trim(v@),
{
    let n = v.len();
    let mut i: usize = 0;
    while i < n && is_space_char(v[i])
        invariant
            i <= n,
            n == v@.len(),
            forall|k: int| 0 <= k < i ==> is_space(v@[k]),
        decreases n - i,
    {
        i = i + 1;
    }
    proof {
        lemma_trim_start_skip(v@, i as int);
    }
    if i == n {
        let r: Vec<char> = Vec::new();
        proof {
            assert(v@.skip(i as int) =~= Seq::<char>::empty());
        }
        return r;
    }
    let mut j: usize = n;
    while j > i && is_space_char(v[j - 1])
        invariant
            i <= j <= n,
            n == v@.len(),
            forall|k: int| j <= k < n ==> is_space(v@[k]),
        decreases j,
    {
        j = j - 1;
    }
    proof {
        let t = v@.skip(i as int);
        assert(forall|k: int| j - i <= k < t.len() ==> is_space(#[trigger] t[k]));
        assert(!is_space(t[j - i - 1]));
        lemma_trim_end_take(t, j - i);
        assert(t.take(j - i) =~= v@.subrange(i as int, j as int));
    }
    subrange_vec(v, i, j)
}

} // verus!
