//! Character-level string utilities: substring search, substitution,
//! whitespace trimming and separator normalization.
//!
//! All exec code works on `Vec<char>`; the conversions from and to `String`
//! live here as well.

use vstd::prelude::*;

verus! {

/// The separator characters that the renderer tidies up after substitution.
pub open spec fn is_sep_char(c: char) -> bool {
    c == '|' || c == '/' || c == '.'
}

/// The whitespace characters stripped by trimming (the Unicode `White_Space` set).
pub open spec fn is_space_char(c: char) -> bool {
    c == '\u{9}' || c == '\u{A}' || c == '\u{B}' || c == '\u{C}' || c == '\u{D}'
        || c == ' ' || c == '\u{85}' || c == '\u{A0}' || c == '\u{1680}'
        || c == '\u{2000}' || c == '\u{2001}' || c == '\u{2002}' || c == '\u{2003}'
        || c == '\u{2004}' || c == '\u{2005}' || c == '\u{2006}' || c == '\u{2007}'
        || c == '\u{2008}' || c == '\u{2009}' || c == '\u{200A}'
        || c == '\u{2028}' || c == '\u{2029}' || c == '\u{202F}' || c == '\u{205F}'
        || c == '\u{3000}'
}

pub fn sep_char(c: char) -> (r: bool)
    ensures
        r == is_sep_char(c),
{
    c == '|' || c == '/' || c == '.'
}

pub fn space_char(c: char) -> (r: bool)
    ensures
        r == is_space_char(c),
{
    c == '\u{9}' || c == '\u{A}' || c == '\u{B}' || c == '\u{C}' || c == '\u{D}'
        || c == ' ' || c == '\u{85}' || c == '\u{A0}' || c == '\u{1680}'
        || c == '\u{2000}' || c == '\u{2001}' || c == '\u{2002}' || c == '\u{2003}'
        || c == '\u{2004}' || c == '\u{2005}' || c == '\u{2006}' || c == '\u{2007}'
        || c == '\u{2008}' || c == '\u{2009}' || c == '\u{200A}'
        || c == '\u{2028}' || c == '\u{2029}' || c == '\u{202F}' || c == '\u{205F}'
        || c == '\u{3000}'
}

/// The character sequences of a sequence of strings.
pub open spec fn strings_view(s: Seq<String>) -> Seq<Seq<char>> {
    Seq::new(s.len(), |i: int| s[i]@)
}

/// The placeholder token for a group name: `{name}`.
pub open spec fn bracketed_placeholder(name: Seq<char>) -> Seq<char> {
    seq!['{'] + name + seq!['}']
}

/// `p` occurs in `s` starting at position `i`.
pub open spec fn occurs_at(s: Seq<char>, p: Seq<char>, i: int) -> bool {
    0 <= i && i + p.len() <= s.len() && s.subrange(i, i + p.len() as int) == p
}

/// `p` occurs somewhere in `s`.
pub open spec fn occurs_in(s: Seq<char>, p: Seq<char>) -> bool {
    exists|i: int| occurs_at(s, p, i)
}

/// `i` is the leftmost position at which `p` occurs in `s`.
pub open spec fn is_first_occurrence(s: Seq<char>, p: Seq<char>, i: int) -> bool {
    occurs_at(s, p, i) && forall|j: int| 0 <= j < i ==> !occurs_at(s, p, j)
}

/// The leftmost position at which `p` occurs in `s` (meaningful only when
/// `occurs_in(s, p)` holds).
pub open spec fn first_occurrence(s: Seq<char>, p: Seq<char>) -> int {
    choose|i: int| is_first_occurrence(s, p, i)
}

pub proof fn lemma_first_occurrence_unique(s: Seq<char>, p: Seq<char>, i: int, j: int)
    requires
        is_first_occurrence(s, p, i),
        is_first_occurrence(s, p, j),
    ensures
        i == j,
{
}

/// Convert a string slice into its character sequence.
#[verifier::loop_isolation(false)]
pub fn str_to_chars(s: &str) -> (r: Vec<char>)
    ensures
        r@ == s@,
{
    let n = s.unicode_len();
    let mut r: Vec<char> = Vec::new();
    let mut i: usize = 0;
    while i < n
        invariant
            i <= n,
            r@ == s@.subrange(0, i as int),
        decreases n - i,
    {
        let c = s.get_char(i);
        r.push(c);
        i = i + 1;
        assert(r@ =~= s@.subrange(0, i as int));
    }
    assert(r@ =~= s@);
    r
}

/// Relies on `String: FromIterator<char>`: collecting characters yields the
/// string made of exactly those characters in order.
#[verifier::external_body]
pub fn chars_to_string(v: &Vec<char>) -> (r: String)
    ensures
        r@ == v@,
{
    v.iter().collect()
}

/// Character-wise string equality.
#[verifier::loop_isolation(false)]
pub fn str_eq(a: &str, b: &str) -> (r: bool)
    ensures
        r == (a@ == b@),
{
    let na = a.unicode_len();
    let nb = b.unicode_len();
    if na != nb {
        assert(a@ != b@) by {
            assert(a@.len() != b@.len());
        }
        return false;
    }
    let mut i: usize = 0;
    while i < na
        invariant
            i <= na,
            a@.len() == na,
            b@.len() == na,
            forall|j: int| 0 <= j < i ==> a@[j] == b@[j],
        decreases na - i,
    {
        if a.get_char(i) != b.get_char(i) {
            return false;
        }
        i = i + 1;
    }
    assert(a@ =~= b@);
    true
}

/// `p` matches `s` at offset `i` (all of `p` compared character by character).
#[verifier::loop_isolation(false)]
pub fn match_at(s: &Vec<char>, p: &Vec<char>, i: usize) -> (r: bool)
    requires
        i + p@.len() <= s@.len(),
    ensures
        r == occurs_at(s@, p@, i as int),
{
    let n: usize = s.len();
    let mut j: usize = 0;
    while j < p.len()
        invariant
            j <= p@.len(),
            n == s@.len(),
            i + p@.len() <= s@.len(),
            forall|k: int| 0 <= k < j ==> s@[i + k] == p@[k],
        decreases p@.len() - j,
    {
        assert(i + j < s@.len());
        if s[i + j] != p[j] {
            assert(!occurs_at(s@, p@, i as int)) by {
                assert(s@.subrange(i as int, i + p@.len() as int)[j as int] == s@[i + j]);
            }
            return false;
        }
        j = j + 1;
    }
    assert(s@.subrange(i as int, i + p@.len() as int) =~= p@);
    true
}

/// Leftmost occurrence of `p` in `s`, if any.
#[verifier::loop_isolation(false)]
pub fn find_sub(s: &Vec<char>, p: &Vec<char>) -> (r: Option<usize>)
    ensures
        match r {
            Some(i) => is_first_occurrence(s@, p@, i as int),
            None => !occurs_in(s@, p@),
        },
{
    if p.len() == 0 {
        assert(occurs_at(s@, p@, 0)) by {
            assert(s@.subrange(0, 0) =~= p@);
        }
        return Some(0);
    }
    if p.len() > s.len() {
        assert(forall|i: int| !occurs_at(s@, p@, i));
        return None;
    }
    let last = s.len() - p.len();
    let mut i: usize = 0;
    while i <= last
        invariant
            i <= last + 1,
            last == s@.len() - p@.len(),
            forall|j: int| 0 <= j < i ==> !occurs_at(s@, p@, j),
        decreases last - i + 1,
    {
        if match_at(s, p, i) {
            return Some(i);
        }
        i = i + 1;
    }
    assert(forall|j: int| !occurs_at(s@, p@, j));
    None
}

/// `p` occurs at two distinct positions in `s`.
pub open spec fn occurs_twice(s: Seq<char>, p: Seq<char>) -> bool {
    exists|i: int, j: int| i < j && #[trigger] occurs_at(s, p, i) && #[trigger] occurs_at(s, p, j)
}

/// Leftmost occurrence of `p` in `s` at or after `start`, if any.
#[verifier::loop_isolation(false)]
pub fn find_from(s: &Vec<char>, p: &Vec<char>, start: usize) -> (r: Option<usize>)
    ensures
        match r {
            Some(i) => start <= i && occurs_at(s@, p@, i as int) && forall|j: int|
                start <= j < i ==> !occurs_at(s@, p@, j),
            None => forall|j: int| j >= start ==> !occurs_at(s@, p@, j),
        },
{
    if p.len() == 0 {
        if start <= s.len() {
            assert(occurs_at(s@, p@, start as int)) by {
                assert(s@.subrange(start as int, start as int) =~= p@);
            }
            return Some(start);
        }
        assert(forall|j: int| j >= start ==> !occurs_at(s@, p@, j));
        return None;
    }
    if p.len() > s.len() || start > s.len() - p.len() {
        assert(forall|j: int| j >= start ==> !occurs_at(s@, p@, j));
        return None;
    }
    let last = s.len() - p.len();
    let mut i: usize = start;
    while i <= last
        invariant
            start <= i <= last + 1,
            last == s@.len() - p@.len(),
            forall|j: int| start <= j < i ==> !occurs_at(s@, p@, j),
        decreases last - i + 1,
    {
        if match_at(s, p, i) {
            return Some(i);
        }
        i = i + 1;
    }
    assert(forall|j: int| j >= start ==> !occurs_at(s@, p@, j));
    None
}

/// Append all of `src` onto `dst`.
#[verifier::loop_isolation(false)]
pub fn push_all(dst: &mut Vec<char>, src: &Vec<char>)
    ensures
        final(dst)@ == old(dst)@ + src@,
{
    let mut i: usize = 0;
    while i < src.len()
        invariant
            i <= src@.len(),
            dst@ == old(dst)@ + src@.subrange(0, i as int),
        decreases src@.len() - i,
    {
        dst.push(src[i]);
        i = i + 1;
        assert(dst@ =~= old(dst)@ + src@.subrange(0, i as int));
    }
    assert(dst@ =~= old(dst)@ + src@);
}

/// Every occurrence of `p` in `s` replaced by `t`, scanning left to right over
/// non-overlapping matches. An empty pattern leaves the string unchanged.
pub open spec fn replace_spec(s: Seq<char>, p: Seq<char>, t: Seq<char>) -> Seq<char>
    decreases s.len(),
{
    if p.len() == 0 || s.len() == 0 {
        s
    } else if occurs_at(s, p, 0) {
        t + replace_spec(s.skip(p.len() as int), p, t)
    } else {
        seq![s[0]] + replace_spec(s.skip(1), p, t)
    }
}

#[verifier::loop_isolation(false)]
pub fn replace_all(s: &Vec<char>, p: &Vec<char>, t: &Vec<char>) -> (r: Vec<char>)
    ensures
        r@ == replace_spec(s@, p@, t@),
{
    if p.len() == 0 {
        let mut out: Vec<char> = Vec::new();
        push_all(&mut out, s);
        assert(out@ =~= s@);
        return out;
    }
    let mut out: Vec<char> = Vec::new();
    let mut i: usize = 0;
    proof {
        assert(s@.skip(0) =~= s@);
        assert(out@ + replace_spec(s@, p@, t@) =~= replace_spec(s@, p@, t@));
    }
    while i < s.len()
        invariant
            i <= s@.len(),
            p@.len() > 0,
            replace_spec(s@, p@, t@) == out@ + replace_spec(s@.skip(i as int), p@, t@),
        decreases s@.len() - i,
    {
        let ghost rest = s@.skip(i as int);
        if p.len() <= s.len() - i && match_at(s, p, i) {
            proof {
                assert(occurs_at(rest, p@, 0)) by {
                    assert(rest.subrange(0, p@.len() as int) =~= s@.subrange(
                        i as int,
                        i + p@.len() as int,
                    ));
                }
                assert(replace_spec(rest, p@, t@) == t@ + replace_spec(
                    rest.skip(p@.len() as int),
                    p@,
                    t@,
                ));
                assert(rest.skip(p@.len() as int) =~= s@.skip(i + p@.len() as int));
            }
            push_all(&mut out, t);
            i = i + p.len();
        } else {
            proof {
                assert(!occurs_at(rest, p@, 0)) by {
                    if occurs_at(rest, p@, 0) {
                        assert(i + p@.len() <= s@.len());
                        assert(s@.subrange(i as int, i + p@.len() as int) =~= rest.subrange(
                            0,
                            p@.len() as int,
                        ));
                        assert(occurs_at(s@, p@, i as int));
                    }
                }
                assert(replace_spec(rest, p@, t@) == seq![rest[0]] + replace_spec(
                    rest.skip(1),
                    p@,
                    t@,
                ));
                assert(rest.skip(1) =~= s@.skip(i + 1));
                assert(rest[0] == s@[i as int]);
            }
            let c = s[i];
            out.push(c);
            i = i + 1;
        }
    }
    proof {
        assert(s@.skip(i as int) =~= Seq::<char>::empty());
        assert(replace_spec(Seq::<char>::empty(), p@, t@) == Seq::<char>::empty());
        assert(out@ + Seq::<char>::empty() =~= out@);
    }
    out
}

/// `s` with leading and trailing whitespace removed.
pub open spec fn trim_spec(s: Seq<char>) -> Seq<char>
    decreases s.len(),
{
    if s.len() == 0 {
        s
    } else if is_space_char(s[0]) {
        trim_spec(s.skip(1))
    } else if is_space_char(s[s.len() - 1]) {
        trim_spec(s.take(s.len() - 1))
    } else {
        s
    }
}

#[verifier::loop_isolation(false)]
pub fn trim_chars(s: &Vec<char>) -> (r: Vec<char>)
    ensures
        r@ == trim_spec(s@),
{
    let mut start: usize = 0;
    let mut end: usize = s.len();
    assert(s@.subrange(0, s@.len() as int) =~= s@);
    while start < end && space_char(s[start])
        invariant
            start <= end,
            end == s@.len(),
            trim_spec(s@) == trim_spec(s@.subrange(start as int, end as int)),
        decreases end - start,
    {
        proof {
            let cur = s@.subrange(start as int, end as int);
            assert(cur[0] == s@[start as int]);
            assert(cur.skip(1) =~= s@.subrange(start as int + 1, end as int));
        }
        start = start + 1;
    }
    while end > start && space_char(s[end - 1])
        invariant
            start <= end <= s@.len(),
            start < end ==> !is_space_char(s@[start as int]),
            trim_spec(s@) == trim_spec(s@.subrange(start as int, end as int)),
        decreases end,
    {
        proof {
            let cur = s@.subrange(start as int, end as int);
            assert(cur[0] == s@[start as int]);
            assert(cur[cur.len() - 1] == s@[end - 1]);
            assert(cur.take(cur.len() - 1) =~= s@.subrange(start as int, end as int - 1));
        }
        end = end - 1;
    }
    proof {
        let cur = s@.subrange(start as int, end as int);
        if cur.len() > 0 {
            assert(cur[0] == s@[start as int]);
            assert(cur[cur.len() - 1] == s@[end - 1]);
        }
        assert(trim_spec(cur) == cur);
    }
    let mut out: Vec<char> = Vec::new();
    let mut i: usize = start;
    while i < end
        invariant
            start <= i <= end <= s@.len(),
            out@ == s@.subrange(start as int, i as int),
        decreases end - i,
    {
        out.push(s[i]);
        i = i + 1;
        assert(out@ =~= s@.subrange(start as int, i as int));
    }
    out
}

/// Drop a single leading ASCII space, if present.
pub open spec fn drop_one_space(s: Seq<char>) -> Seq<char> {
    if s.len() > 0 && s[0] == ' ' {
        s.skip(1)
    } else {
        s
    }
}

/// Separator tidying: one left-to-right pass that collapses a separator
/// optionally surrounded by a single space on each side down to the bare
/// separator character.
pub open spec fn normalize_spec(s: Seq<char>) -> Seq<char>
    decreases s.len(),
{
    if s.len() == 0 {
        s
    } else if is_sep_char(s[0]) {
        seq![s[0]] + normalize_spec(drop_one_space(s.skip(1)))
    } else if s[0] == ' ' && s.len() >= 2 && is_sep_char(s[1]) {
        seq![s[1]] + normalize_spec(drop_one_space(s.skip(2)))
    } else {
        seq![s[0]] + normalize_spec(s.skip(1))
    }
}

#[verifier::loop_isolation(false)]
pub fn normalize_seps(s: &Vec<char>) -> (r: Vec<char>)
    ensures
        r@ == normalize_spec(s@),
{
    let mut out: Vec<char> = Vec::new();
    let mut i: usize = 0;
    proof {
        assert(s@.skip(0) =~= s@);
        assert(out@ + normalize_spec(s@) =~= normalize_spec(s@));
    }
    while i < s.len()
        invariant
            i <= s@.len(),
            normalize_spec(s@) == out@ + normalize_spec(s@.skip(i as int)),
        decreases s@.len() - i,
    {
        let ghost rest = s@.skip(i as int);
        let c = s[i];
        assert(rest[0] == c);
        if sep_char(c) {
            out.push(c);
            // consume one trailing space, if present
            if i + 1 < s.len() && s[i + 1] == ' ' {
                proof {
                    assert(rest.skip(1)[0] == s@[i + 1]);
                    assert(drop_one_space(rest.skip(1)) =~= s@.skip(i + 2));
                }
                i = i + 2;
            } else {
                proof {
                    assert(rest.skip(1) =~= s@.skip(i + 1));
                    if rest.skip(1).len() > 0 {
                        assert(rest.skip(1)[0] == s@[i + 1]);
                    }
                    assert(drop_one_space(rest.skip(1)) =~= s@.skip(i + 1));
                }
                i = i + 1;
            }
        } else if c == ' ' && i + 1 < s.len() && sep_char(s[i + 1]) {
            assert(rest.len() >= 2 && rest[1] == s@[i + 1]);
            out.push(s[i + 1]);
            // consume one trailing space, if present
            if i + 2 < s.len() && s[i + 2] == ' ' {
                proof {
                    assert(rest.skip(2)[0] == s@[i + 2]);
                    assert(drop_one_space(rest.skip(2)) =~= s@.skip(i + 3));
                }
                i = i + 3;
            } else {
                proof {
                    assert(rest.skip(2) =~= s@.skip(i + 2));
                    if rest.skip(2).len() > 0 {
                        assert(rest.skip(2)[0] == s@[i + 2]);
                    }
                    assert(drop_one_space(rest.skip(2)) =~= s@.skip(i + 2));
                }
                i = i + 2;
            }
        } else {
            proof {
                if rest.len() >= 2 {
                    assert(rest[1] == s@[i + 1]);
                }
                assert(rest.skip(1) =~= s@.skip(i + 1));
            }
            out.push(c);
            i = i + 1;
        }
    }
    assert(s@.skip(i as int) =~= Seq::<char>::empty());
    assert(out@ + Seq::<char>::empty() =~= out@);
    out
}


/// No two consecutive blanks anywhere in `s`.
pub open spec fn no_double_space(s: Seq<char>) -> bool {
    forall|i: int| #![trigger s[i]] 0 <= i && i + 1 < s.len() ==> !(s[i] == ' ' && s[i + 1] == ' ')
}

/// No separator with a blank directly before or after it.
pub open spec fn no_stray_separator(s: Seq<char>) -> bool {
    forall|i: int| #![trigger s[i]]
        0 <= i && i + 1 < s.len() ==> !(s[i] == ' ' && is_sep_char(s[i + 1])) && !(is_sep_char(
            s[i],
        ) && s[i + 1] == ' ')
}

/// The first character the normalization pass emits: the head of the input,
/// or the separator right after a leading blank.
proof fn lemma_normalize_head(s: Seq<char>)
    requires
        s.len() > 0,
    ensures
        normalize_spec(s).len() > 0,
        normalize_spec(s)[0] == s[0] || (s.len() >= 2 && s[0] == ' ' && is_sep_char(s[1])
            && normalize_spec(s)[0] == s[1]),
{
    if is_sep_char(s[0]) {
        assert(normalize_spec(s) == seq![s[0]] + normalize_spec(drop_one_space(s.skip(1))));
        assert(normalize_spec(s)[0] == s[0]);
    } else if s[0] == ' ' && s.len() >= 2 && is_sep_char(s[1]) {
        assert(normalize_spec(s) == seq![s[1]] + normalize_spec(drop_one_space(s.skip(2))));
        assert(normalize_spec(s)[0] == s[1]);
    } else {
        assert(normalize_spec(s) == seq![s[0]] + normalize_spec(s.skip(1)));
        assert(normalize_spec(s)[0] == s[0]);
    }
}

/// Lifting freedom from stray separators over one emitted character.
proof fn lemma_no_stray_cons(c: char, rest: Seq<char>)
    requires
        no_stray_separator(rest),
        rest.len() > 0 ==> !(c == ' ' && is_sep_char(rest[0])) && !(is_sep_char(c) && rest[0]
            == ' '),
    ensures
        no_stray_separator(seq![c] + rest),
{
    let out = seq![c] + rest;
    assert forall|i: int| #![trigger out[i]] 0 <= i && i + 1 < out.len() implies !(out[i] == ' '
        && is_sep_char(out[i + 1])) && !(is_sep_char(out[i]) && out[i + 1] == ' ') by {
        if i == 0 {
            assert(out[0] == c);
            assert(out[1] == rest[0]);
        } else {
            assert(out[i] == rest[i - 1]);
            assert(out[i + 1] == rest[i]);
        }
    }
}

/// Law: on a string without consecutive blanks — which rendering produces
/// whenever the substituted values introduce none — the separator-tidying
/// pass leaves no stray separator: no `|`, `/` or `.` keeps a blank directly
/// before or after it. (With consecutive blanks the single pass can leave
/// one behind, e.g. two blanks before a separator.)
pub proof fn lemma_normalize_no_stray(s: Seq<char>)
    requires
        no_double_space(s),
    ensures
        no_stray_separator(normalize_spec(s)),
    decreases s.len(),
{
    if s.len() == 0 {
        assert(no_stray_separator(normalize_spec(s)));
    } else if is_sep_char(s[0]) {
        let rest = drop_one_space(s.skip(1));
        assert(no_double_space(rest)) by {
            assert(forall|i: int| #![trigger rest[i]]
                0 <= i && i < rest.len() ==> rest[i] == s[i + s.len() - rest.len()]);
        }
        lemma_normalize_no_stray(rest);
        assert(normalize_spec(s) == seq![s[0]] + normalize_spec(rest));
        if rest.len() > 0 {
            lemma_normalize_head(rest);
            assert(rest[0] != ' ') by {
                if s.skip(1).len() > 0 && s.skip(1)[0] == ' ' {
                    assert(rest == s.skip(1).skip(1));
                    if rest.len() > 0 {
                        assert(rest[0] == s[2]);
                        assert(s[1] == ' ');
                    }
                } else {
                    assert(rest == s.skip(1));
                }
            }
            assert(normalize_spec(rest)[0] != ' ');
        }
        lemma_no_stray_cons(s[0], normalize_spec(rest));
    } else if s[0] == ' ' && s.len() >= 2 && is_sep_char(s[1]) {
        let rest = drop_one_space(s.skip(2));
        assert(no_double_space(rest)) by {
            assert(forall|i: int| #![trigger rest[i]]
                0 <= i && i < rest.len() ==> rest[i] == s[i + s.len() - rest.len()]);
        }
        lemma_normalize_no_stray(rest);
        assert(normalize_spec(s) == seq![s[1]] + normalize_spec(rest));
        if rest.len() > 0 {
            lemma_normalize_head(rest);
            assert(rest[0] != ' ') by {
                if s.skip(2).len() > 0 && s.skip(2)[0] == ' ' {
                    assert(rest == s.skip(2).skip(1));
                    if rest.len() > 0 {
                        assert(rest[0] == s[3]);
                        assert(s[2] == ' ');
                    }
                } else {
                    assert(rest == s.skip(2));
                }
            }
            assert(normalize_spec(rest)[0] != ' ');
        }
        lemma_no_stray_cons(s[1], normalize_spec(rest));
    } else {
        let rest = s.skip(1);
        assert(no_double_space(rest)) by {
            assert(forall|i: int| #![trigger rest[i]]
                0 <= i && i < rest.len() ==> rest[i] == s[i + 1]);
        }
        lemma_normalize_no_stray(rest);
        assert(normalize_spec(s) == seq![s[0]] + normalize_spec(rest));
        if rest.len() > 0 {
            lemma_normalize_head(rest);
            if s[0] == ' ' {
                assert(!is_sep_char(s[1]));
                assert(rest[0] == s[1]);
                assert(s[1] != ' ');
                assert(normalize_spec(rest)[0] == s[1] || (rest.len() >= 2 && rest[0] == ' '
                    && is_sep_char(rest[1]) && normalize_spec(rest)[0] == rest[1]));
                assert(!is_sep_char(normalize_spec(rest)[0]));
            }
        }
        lemma_no_stray_cons(s[0], normalize_spec(rest));
    }
}

} // verus!
