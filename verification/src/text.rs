use vstd::prelude::*;
use vstd::string::*;
use crate::matching::{count_matches, ends_with, lemma_replace_short, lemma_replace_step, replace_nonempty, starts_with};

verus! {

/// `String::push`: appends one character to the string.
#[verifier::external_body]
fn push_char(s: &mut String, c: char)
    ensures
        final(s)@ == old(s)@.push(c),
{
    s.push(c);
}

/// The characters of `s`.
pub(crate) fn chars_of(s: &String) -> (v: Vec<char>)
    ensures
        v@ == s@,
{
    let st = s.as_str();
    let n = st.unicode_len();
    let mut v: Vec<char> = Vec::new();
    let mut i: usize = 0;
    while i < n
        invariant
            n == st@.len(),
            st@ == s@,
            i <= n,
            v@ == st@.take(i as int),
        decreases n - i,
    {
        v.push(st.get_char(i));
        i = i + 1;
        assert(v@ =~= st@.take(i as int));
    }
    assert(st@.take(n as int) =~= st@);
    v
}

/// The string made of the characters `v`.
pub(crate) fn string_of(v: &[char]) -> (s: String)
    ensures
        s@ == v@,
{
    let mut s = String::new();
    let mut i: usize = 0;
    while i < v.len()
        invariant
            i <= v.len(),
            s@ == v@.take(i as int),
        decreases v.len() - i,
    {
        push_char(&mut s, v[i]);
        i = i + 1;
        assert(s@ =~= v@.take(i as int));
    }
    assert(v@.take(i as int) =~= v@);
    s
}

/// Whether the two character sequences are equal.
pub(crate) fn chars_eq(a: &[char], b: &[char]) -> (res: bool)
    ensures
        res == (a@ == b@),
{
    if a.len() != b.len() {
        return false;
    }
    let mut i: usize = 0;
    while i < a.len()
        invariant
            i <= a.len(),
            a.len() == b.len(),
            forall|k: int| 0 <= k < i ==> a@[k] == b@[k],
        decreases a.len() - i,
    {
        if a[i] != b[i] {
            return false;
        }
        i = i + 1;
    }
    assert(a@ =~= b@);
    true
}

/// Whether `p` occurs in `s` at position `at`.
fn chars_match_at(s: &[char], at: usize, p: &[char]) -> (res: bool)
    requires
        at + p.len() <= s.len(),
    ensures
        res == (s@.subrange(at as int, at + p.len()) == p@),
{
    let mut j: usize = 0;
    while j < p.len()
        invariant
            j <= p.len(),
            at + p.len() <= s.len(),
            forall|k: int| 0 <= k < j ==> s@[at + k] == p@[k],
        decreases p.len() - j,
    {
        if s[at + j] != p[j] {
            assert(s@.subrange(at as int, at + p.len())[j as int] != p@[j as int]);
            return false;
        }
        j = j + 1;
    }
    assert(s@.subrange(at as int, at + p.len()) =~= p@);
    true
}

/// Whether `s` begins with `p`.
pub(crate) fn chars_start_with(s: &[char], p: &[char]) -> (res: bool)
    ensures
        res == starts_with(s@, p@),
{
    if p.len() > s.len() {
        return false;
    }
    let res = chars_match_at(s, 0, p);
    assert(s@.subrange(0, p.len() as int) =~= s@.take(p.len() as int));
    res
}

/// Whether `s` ends with `p`.
pub(crate) fn chars_end_with(s: &[char], p: &[char]) -> (res: bool)
    ensures
        res == ends_with(s@, p@),
{
    if p.len() > s.len() {
        return false;
    }
    let at = s.len() - p.len();
    let res = chars_match_at(s, at, p);
    assert(s@.subrange(at as int, at + p.len()) =~= s@.skip(s@.len() - p@.len()));
    res
}

/// The number of non-overlapping occurrences of the nonempty pattern `p`
/// in `s`, counted from the left.
pub(crate) fn count_chars_matches(s: &[char], p: &[char]) -> (n: usize)
    requires
        p.len() > 0,
    ensures
        n == count_matches(s@, p@),
{
    let m = p.len();
    let mut i: usize = 0;
    let mut n: usize = 0;
    assert(s@.skip(0) =~= s@);
    while i < s.len() && m <= s.len() - i
        invariant
            m == p.len(),
            m > 0,
            i <= s.len(),
            n <= i,
            n + count_matches(s@.skip(i as int), p@) == count_matches(s@, p@),
        decreases s.len() - i,
    {
        let ghost rest = s@.skip(i as int);
        proof {
            assert(rest.take(m as int) =~= s@.subrange(i as int, i + m));
            assert(rest.skip(m as int) =~= s@.skip(i + m));
            assert(rest.skip(1) =~= s@.skip(i + 1));
        }
        if chars_match_at(s, i, p) {
            n = n + 1;
            i = i + m;
        } else {
            i = i + 1;
        }
    }
    n
}

/// `s` with every occurrence of `p` removed, matches taken from the left.
pub(crate) fn remove_chars_matches(s: &[char], p: &[char]) -> (res: Vec<char>)
    ensures
        res@ == replace_nonempty(s@, p@, Seq::<char>::empty()),
{
    let mut out: Vec<char> = Vec::new();
    let m = p.len();
    let mut i: usize = 0;
    assert(s@.skip(0) =~= s@);
    if m > 0 {
        while i < s.len() && m <= s.len() - i
            invariant
                m == p.len(),
                m > 0,
                i <= s.len(),
                out@ + replace_nonempty(s@.skip(i as int), p@, Seq::<char>::empty())
                    == replace_nonempty(s@, p@, Seq::<char>::empty()),
            decreases s.len() - i,
        {
            let ghost rest = s@.skip(i as int);
            let ghost prev = out@;
            proof {
                lemma_replace_step(rest, Seq::<char>::empty(), p@, Seq::<char>::empty());
                assert(rest + Seq::<char>::empty() =~= rest);
                assert(rest.take(m as int) =~= s@.subrange(i as int, i + m));
                assert(rest.skip(m as int) + Seq::<char>::empty() =~= s@.skip(i + m));
                assert(rest.skip(1) + Seq::<char>::empty() =~= s@.skip(i + 1));
            }
            if chars_match_at(s, i, p) {
                assert(Seq::<char>::empty() + replace_nonempty(
                    s@.skip(i + m),
                    p@,
                    Seq::<char>::empty(),
                ) =~= replace_nonempty(s@.skip(i + m), p@, Seq::<char>::empty()));
                i = i + m;
            } else {
                let c = s[i];
                out.push(c);
                assert(rest[0] == c);
                assert(out@ + replace_nonempty(s@.skip(i + 1), p@, Seq::<char>::empty()) =~= prev
                    + (seq![c] + replace_nonempty(s@.skip(i + 1), p@, Seq::<char>::empty())));
                i = i + 1;
            }
        }
        proof {
            lemma_replace_short(s@.skip(i as int), p@, Seq::<char>::empty());
        }
    }
    let ghost head = out@;
    let mut j: usize = i;
    while j < s.len()
        invariant
            i <= j <= s.len(),
            head + s@.skip(i as int) == replace_nonempty(s@, p@, Seq::<char>::empty()),
            out@ == head + s@.subrange(i as int, j as int),
        decreases s.len() - j,
    {
        out.push(s[j]);
        j = j + 1;
        assert(s@.subrange(i as int, j as int) =~= s@.subrange(i as int, j - 1).push(s@[j - 1]));
    }
    assert(s@.subrange(i as int, j as int) =~= s@.skip(i as int));
    out
}

/// `s` without its first character.
pub(crate) fn chars_after_first(s: &[char]) -> (res: Vec<char>)
    requires
        s.len() > 0,
    ensures
        res@ == s@.skip(1),
{
    let mut out: Vec<char> = Vec::new();
    let mut j: usize = 1;
    while j < s.len()
        invariant
            1 <= j <= s.len(),
            out@ == s@.subrange(1, j as int),
        decreases s.len() - j,
    {
        out.push(s[j]);
        j = j + 1;
        assert(out@ =~= s@.subrange(1, j as int));
    }
    assert(s@.subrange(1, j as int) =~= s@.skip(1));
    out
}

} // verus!
