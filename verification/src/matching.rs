use vstd::prelude::*;

verus! {

/// Whether `p` is a prefix of `s`.
pub open spec fn starts_with<T>(s: Seq<T>, p: Seq<T>) -> bool {
    p.len() <= s.len() && s.take(p.len() as int) == p
}

/// Whether `p` is a suffix of `s`.
pub open spec fn ends_with<T>(s: Seq<T>, p: Seq<T>) -> bool {
    p.len() <= s.len() && s.skip(s.len() - p.len()) == p
}

/// Every occurrence of the nonempty pattern `from` in `s` replaced by `to`,
/// scanning from the left and resuming after each match (the matches do not
/// overlap). An empty pattern leaves `s` as it is.
pub open spec fn replace_nonempty<T>(s: Seq<T>, from: Seq<T>, to: Seq<T>) -> Seq<T>
    decreases s.len(),
{
    if from.len() == 0 || s.len() < from.len() {
        s
    } else if s.take(from.len() as int) == from {
        to + replace_nonempty(s.skip(from.len() as int), from, to)
    } else {
        seq![s[0]] + replace_nonempty(s.skip(1), from, to)
    }
}

/// Number of non-overlapping occurrences of the nonempty pattern `p` in `s`,
/// counted from the left (zero for an empty pattern).
pub open spec fn count_matches<T>(s: Seq<T>, p: Seq<T>) -> nat
    decreases s.len(),
{
    if p.len() == 0 || s.len() < p.len() {
        0
    } else if s.take(p.len() as int) == p {
        1 + count_matches(s.skip(p.len() as int), p)
    } else {
        count_matches(s.skip(1), p)
    }
}

/// A byte at which a UTF-8 encoded character begins (any byte but a
/// continuation byte `10xxxxxx`).
pub open spec fn is_char_start(b: u8) -> bool {
    b < 0x80 || b >= 0xc0
}

/// `s` with `to` written before every byte at which a character begins.
pub open spec fn insert_before_chars(s: Seq<u8>, to: Seq<u8>) -> Seq<u8>
    decreases s.len(),
{
    if s.len() == 0 {
        Seq::empty()
    } else {
        (if is_char_start(s[0]) {
            to
        } else {
            Seq::empty()
        }) + seq![s[0]] + insert_before_chars(s.skip(1), to)
    }
}

/// What an empty pattern replaced by `to` gives: `to` at every character
/// boundary of `s`, its end included.
pub open spec fn insert_at_boundaries(s: Seq<u8>, to: Seq<u8>) -> Seq<u8> {
    insert_before_chars(s, to) + to
}

/// Every match of `from` in the bytes `s` replaced by `to`, as text
/// replacement does it: non-overlapping matches found from the left, and for
/// an empty pattern `to` at every character boundary.
pub open spec fn replace_all(s: Seq<u8>, from: Seq<u8>, to: Seq<u8>) -> Seq<u8> {
    if from.len() == 0 {
        insert_at_boundaries(s, to)
    } else {
        replace_nonempty(s, from, to)
    }
}

/// Whether `p` stands in `s` at position `i`.
pub open spec fn occurs_at<T>(s: Seq<T>, p: Seq<T>, i: int) -> bool {
    0 <= i && i + p.len() <= s.len() && s.subrange(i, i + p.len()) == p
}

/// Content that begins with a nonempty pattern has it replaced there; the
/// rest is replaced on its own.
pub proof fn lemma_leading_match<T>(from: Seq<T>, s: Seq<T>, to: Seq<T>)
    requires
        from.len() > 0,
    ensures
        replace_nonempty(from + s, from, to) == to + replace_nonempty(s, from, to),
{
    let m = from.len() as int;
    assert((from + s).take(m) =~= from);
    assert((from + s).skip(m) =~= s);
}

/// A first item that does not begin a match is kept as it is.
pub proof fn lemma_leading_item_kept<T>(c: T, s: Seq<T>, from: Seq<T>, to: Seq<T>)
    requires
        from.len() > 0,
        !starts_with(seq![c] + s, from),
    ensures
        replace_nonempty(seq![c] + s, from, to) == seq![c] + replace_nonempty(s, from, to),
{
    let t = seq![c] + s;
    assert(t.skip(1) =~= s);
    assert(t[0] == c);
}

/// Content in which a pattern stands nowhere is left as it is.
pub proof fn lemma_nowhere_unchanged<T>(s: Seq<T>, from: Seq<T>, to: Seq<T>)
    requires
        from.len() > 0,
        forall|i: int| !occurs_at(s, from, i),
    ensures
        replace_nonempty(s, from, to) == s,
    decreases s.len(),
{
    if s.len() >= from.len() {
        assert(!occurs_at(s, from, 0));
        assert(s.subrange(0, from.len() as int) =~= s.take(from.len() as int));
        assert forall|i: int| !occurs_at(s.skip(1), from, i) by {
            if occurs_at(s.skip(1), from, i) {
                assert(s.skip(1).subrange(i, i + from.len()) =~= s.subrange(i + 1, i + 1
                    + from.len()));
                assert(occurs_at(s, from, i + 1));
            }
        }
        lemma_nowhere_unchanged(s.skip(1), from, to);
        assert(seq![s[0]] + s.skip(1) =~= s);
    }
}

/// Content in which a pattern stands nowhere holds no match of it.
pub proof fn lemma_nowhere_no_match<T>(s: Seq<T>, p: Seq<T>)
    requires
        p.len() > 0,
        forall|i: int| !occurs_at(s, p, i),
    ensures
        count_matches(s, p) == 0,
    decreases s.len(),
{
    if s.len() >= p.len() {
        assert(!occurs_at(s, p, 0));
        assert(s.subrange(0, p.len() as int) =~= s.take(p.len() as int));
        assert forall|i: int| !occurs_at(s.skip(1), p, i) by {
            if occurs_at(s.skip(1), p, i) {
                assert(s.skip(1).subrange(i, i + p.len()) =~= s.subrange(i + 1, i + 1 + p.len()));
                assert(occurs_at(s, p, i + 1));
            }
        }
        lemma_nowhere_no_match(s.skip(1), p);
    }
}

/// Content that is exactly a nonempty pattern becomes the replacement.
pub proof fn law_whole_match_replaced(from: Seq<u8>, to: Seq<u8>)
    requires
        from.len() > 0,
    ensures
        replace_all(from, from, to) == to,
{
    lemma_leading_match(from, Seq::<u8>::empty(), to);
    assert(from + Seq::<u8>::empty() =~= from);
    assert(to + Seq::<u8>::empty() =~= to);
}

/// A nonempty pattern at the start of the content is replaced there, and the
/// rest of the content is replaced as if it stood alone; whatever the bytes
/// of the pattern are.
pub proof fn law_leading_match_replaced(from: Seq<u8>, s: Seq<u8>, to: Seq<u8>)
    requires
        from.len() > 0,
    ensures
        replace_all(from + s, from, to) == to + replace_all(s, from, to),
{
    lemma_leading_match(from, s, to);
}

/// A first byte that does not begin a match of a nonempty pattern is kept,
/// and the rest is replaced as if it stood alone.
pub proof fn law_unmatched_byte_kept(c: u8, s: Seq<u8>, from: Seq<u8>, to: Seq<u8>)
    requires
        from.len() > 0,
        !starts_with(seq![c] + s, from),
    ensures
        replace_all(seq![c] + s, from, to) == seq![c] + replace_all(s, from, to),
{
    lemma_leading_item_kept(c, s, from, to);
}

/// A nonempty pattern that stands nowhere in the content leaves it unchanged.
pub proof fn law_absent_pattern_no_change(s: Seq<u8>, from: Seq<u8>, to: Seq<u8>)
    requires
        from.len() > 0,
        forall|i: int| !occurs_at(s, from, i),
    ensures
        replace_all(s, from, to) == s,
{
    lemma_nowhere_unchanged(s, from, to);
}

/// With an empty pattern, the replacement goes in front of every byte that
/// begins a character, and once more at the end: before an ASCII byte or the
/// first byte of a longer character, not before a continuation byte.
pub proof fn law_empty_pattern_front(c: u8, s: Seq<u8>, to: Seq<u8>)
    ensures
        c < 0x80 || c >= 0xc0 ==> replace_all(seq![c] + s, Seq::empty(), to) == to + seq![c]
            + replace_all(s, Seq::empty(), to),
        0x80 <= c < 0xc0 ==> replace_all(seq![c] + s, Seq::empty(), to) == seq![c] + replace_all(
            s,
            Seq::empty(),
            to,
        ),
        replace_all(Seq::empty(), Seq::empty(), to) == to,
{
    lemma_insert_before_chars_concat(seq![c], s, to);
    lemma_insert_before_chars_one(c, to);
    assert(Seq::<u8>::empty().len() == 0);
    assert(insert_before_chars(Seq::<u8>::empty(), to) == Seq::<u8>::empty());
    assert(Seq::<u8>::empty() + to =~= to);
    let ins = insert_before_chars(s, to);
    if c < 0x80 || c >= 0xc0 {
        assert((to + seq![c]) + ins + to =~= to + seq![c] + (ins + to));
    } else {
        assert((Seq::<u8>::empty() + seq![c]) + ins + to =~= seq![c] + (ins + to));
    }
}

/// Content in which a nonempty pattern does not occur comes back unchanged.
pub proof fn law_no_match_no_change(s: Seq<u8>, from: Seq<u8>, to: Seq<u8>)
    requires
        from.len() > 0,
        count_matches(s, from) == 0,
    ensures
        replace_all(s, from, to) == s,
    decreases s.len(),
{
    if s.len() >= from.len() {
        law_no_match_no_change(s.skip(1), from, to);
        assert(seq![s[0]] + s.skip(1) =~= s);
    }
}

/// Replacing a pattern by itself changes nothing.
pub proof fn law_replace_by_itself(s: Seq<u8>, p: Seq<u8>)
    ensures
        replace_all(s, p, p) == s,
{
    if p.len() == 0 {
        assert(p =~= Seq::<u8>::empty());
        lemma_insert_nothing(s);
        assert(insert_before_chars(s, p) + p =~= s);
    } else {
        lemma_replace_by_itself(s, p);
    }
}

proof fn lemma_insert_nothing(s: Seq<u8>)
    ensures
        insert_before_chars(s, Seq::empty()) == s,
    decreases s.len(),
{
    if s.len() > 0 {
        lemma_insert_nothing(s.skip(1));
        assert(Seq::<u8>::empty() + seq![s[0]] + s.skip(1) =~= s);
        assert((if is_char_start(s[0]) {
            Seq::<u8>::empty()
        } else {
            Seq::<u8>::empty()
        }) == Seq::<u8>::empty());
    }
}

proof fn lemma_replace_by_itself<T>(s: Seq<T>, p: Seq<T>)
    requires
        p.len() > 0,
    ensures
        replace_nonempty(s, p, p) == s,
    decreases s.len(),
{
    if s.len() >= p.len() {
        if s.take(p.len() as int) == p {
            lemma_replace_by_itself(s.skip(p.len() as int), p);
            assert(s.take(p.len() as int) + s.skip(p.len() as int) =~= s);
        } else {
            lemma_replace_by_itself(s.skip(1), p);
            assert(seq![s[0]] + s.skip(1) =~= s);
        }
    }
}

/// A replacement as long as its pattern keeps the length of the content.
pub proof fn law_equal_length_keeps_length(s: Seq<u8>, from: Seq<u8>, to: Seq<u8>)
    requires
        from.len() == to.len(),
    ensures
        replace_all(s, from, to).len() == s.len(),
{
    if from.len() == 0 {
        lemma_insert_nothing(s);
        assert(to =~= Seq::<u8>::empty());
    } else {
        lemma_equal_length(s, from, to);
    }
}

proof fn lemma_equal_length<T>(s: Seq<T>, from: Seq<T>, to: Seq<T>)
    requires
        from.len() == to.len(),
        from.len() > 0,
    ensures
        replace_nonempty(s, from, to).len() == s.len(),
    decreases s.len(),
{
    if s.len() >= from.len() {
        lemma_equal_length(s.skip(from.len() as int), from, to);
        lemma_equal_length(s.skip(1), from, to);
    }
}

/// Appends the bytes of `x` to `out`.
pub(crate) fn append_bytes(out: &mut Vec<u8>, x: &[u8])
    ensures
        final(out)@ == old(out)@ + x@,
{
    let mut i: usize = 0;
    while i < x.len()
        invariant
            i <= x.len(),
            out@ == old(out)@ + x@.take(i as int),
        decreases x.len() - i,
    {
        out.push(x[i]);
        i = i + 1;
        assert(x@.take(i as int) =~= x@.take((i - 1) as int).push(x@[i - 1]));
    }
    assert(x@.take(i as int) =~= x@);
}

/// Whether `p` occurs in `s` at position `at`.
pub(crate) fn bytes_match_at(s: &[u8], at: usize, p: &[u8]) -> (res: bool)
    requires
        at + p.len() <= s.len(),
    ensures
        res == (s@.subrange(at as int, at + p.len()) == p@),
{
    let mut j: usize = 0;
    while j < p.len()
        invariant
            j <= p.len(),
            at + p.len() <= s.len(),
            forall|k: int| 0 <= k < j ==> s@[at + k] == p@[k],
        decreases p.len() - j,
    {
        if s[at + j] != p[j] {
            assert(s@.subrange(at as int, at + p.len())[j as int] != p@[j as int]);
            return false;
        }
        j = j + 1;
    }
    assert(s@.subrange(at as int, at + p.len()) =~= p@);
    true
}

/// One step of the left-to-right scan: once `s` holds at least as many
/// bytes as the pattern, what follows `s` cannot change the decision taken at
/// the front of `s`.
pub(crate) proof fn lemma_replace_step<T>(s: Seq<T>, rest: Seq<T>, from: Seq<T>, to: Seq<T>)
    requires
        from.len() > 0,
        s.len() >= from.len(),
    ensures
        s.take(from.len() as int) == from ==> replace_nonempty(s + rest, from, to) == to
            + replace_nonempty(s.skip(from.len() as int) + rest, from, to),
        s.take(from.len() as int) != from ==> replace_nonempty(s + rest, from, to) == seq![s[0]]
            + replace_nonempty(s.skip(1) + rest, from, to),
{
    let m = from.len() as int;
    assert((s + rest).take(m) =~= s.take(m));
    assert((s + rest).skip(m) =~= s.skip(m) + rest);
    assert((s + rest).skip(1) =~= s.skip(1) + rest);
    assert((s + rest)[0] == s[0]);
}

/// A sequence shorter than the pattern holds no match.
pub(crate) proof fn lemma_replace_short<T>(s: Seq<T>, from: Seq<T>, to: Seq<T>)
    requires
        s.len() < from.len(),
    ensures
        replace_nonempty(s, from, to) == s,
{
}

/// Inserting before characters distributes over concatenation.
pub(crate) proof fn lemma_insert_before_chars_concat(a: Seq<u8>, b: Seq<u8>, to: Seq<u8>)
    ensures
        insert_before_chars(a + b, to) == insert_before_chars(a, to) + insert_before_chars(b, to),
    decreases a.len(),
{
    if a.len() == 0 {
        assert(a + b =~= b);
        assert(insert_before_chars(a, to) + insert_before_chars(b, to) =~= insert_before_chars(
            b,
            to,
        ));
    } else {
        lemma_insert_before_chars_concat(a.skip(1), b, to);
        assert((a + b).skip(1) =~= a.skip(1) + b);
        assert((a + b)[0] == a[0]);
        let head = (if is_char_start(a[0]) {
            to
        } else {
            Seq::<u8>::empty()
        }) + seq![a[0]];
        assert(insert_before_chars(a + b, to) == head + insert_before_chars(a.skip(1) + b, to));
        assert(insert_before_chars(a, to) == head + insert_before_chars(a.skip(1), to));
        assert(head + (insert_before_chars(a.skip(1), to) + insert_before_chars(b, to)) =~= (head
            + insert_before_chars(a.skip(1), to)) + insert_before_chars(b, to));
    }
}

/// What inserting before characters gives for a single byte.
pub(crate) proof fn lemma_insert_before_chars_one(b: u8, to: Seq<u8>)
    ensures
        insert_before_chars(seq![b], to) == (if is_char_start(b) {
            to
        } else {
            Seq::<u8>::empty()
        }) + seq![b],
{
    let s = seq![b];
    assert(s.skip(1) =~= Seq::<u8>::empty());
    assert(insert_before_chars(s.skip(1), to) == Seq::<u8>::empty());
    assert(((if is_char_start(b) {
        to
    } else {
        Seq::<u8>::empty()
    }) + seq![b]) + Seq::<u8>::empty() =~= (if is_char_start(b) {
        to
    } else {
        Seq::<u8>::empty()
    }) + seq![b]);
}

/// Appends to `out` the bytes of `s` with `to` written before every byte at
/// which a character begins.
pub(crate) fn push_before_chars(out: &mut Vec<u8>, s: &[u8], to: &[u8])
    ensures
        final(out)@ == old(out)@ + insert_before_chars(s@, to@),
{
    let mut i: usize = 0;
    while i < s.len()
        invariant
            i <= s.len(),
            out@ == old(out)@ + insert_before_chars(s@.take(i as int), to@),
        decreases s.len() - i,
    {
        let b = s[i];
        if b < 0x80 || b >= 0xc0 {
            append_bytes(out, to);
        }
        out.push(b);
        proof {
            assert(s@.take(i + 1) =~= s@.take(i as int) + seq![b]);
            lemma_insert_before_chars_concat(s@.take(i as int), seq![b], to@);
            lemma_insert_before_chars_one(b, to@);
            assert(out@ =~= old(out)@ + insert_before_chars(s@.take(i + 1), to@));
        }
        i = i + 1;
    }
    assert(s@.take(i as int) =~= s@);
}

/// Every match of `from` in `s` replaced by `to`; an empty pattern puts `to`
/// at every character boundary.
pub fn replace_bytes(s: &[u8], from: &[u8], to: &[u8]) -> (res: Vec<u8>)
    ensures
        res@ == replace_all(s@, from@, to@),
{
    let mut out: Vec<u8> = Vec::new();
    if from.len() == 0 {
        push_before_chars(&mut out, s, to);
        append_bytes(&mut out, to);
        return out;
    }
    let m = from.len();
    let mut i: usize = 0;
    assert(s@.skip(0) =~= s@);
    while i < s.len() && m <= s.len() - i
        invariant
            m == from.len(),
            m > 0,
            i <= s.len(),
            out@ + replace_nonempty(s@.skip(i as int), from@, to@) == replace_nonempty(
                s@,
                from@,
                to@,
            ),
        decreases s.len() - i,
    {
        let ghost rest = s@.skip(i as int);
        proof {
            lemma_replace_step(rest, Seq::<u8>::empty(), from@, to@);
            assert(rest + Seq::<u8>::empty() =~= rest);
            assert(rest.take(m as int) =~= s@.subrange(i as int, i + m));
        }
        let ghost prev = out@;
        if bytes_match_at(s, i, from) {
            append_bytes(&mut out, to);
            proof {
                assert(rest.skip(m as int) + Seq::<u8>::empty() =~= s@.skip(i + m));
                assert(out@ + replace_nonempty(s@.skip(i + m), from@, to@) =~= prev + (to@
                    + replace_nonempty(s@.skip(i + m), from@, to@)));
            }
            i = i + m;
        } else {
            out.push(s[i]);
            proof {
                assert(rest.skip(1) + Seq::<u8>::empty() =~= s@.skip(i + 1));
                assert(rest[0] == s@[i as int]);
                assert(out@ + replace_nonempty(s@.skip(i + 1), from@, to@) =~= prev + (seq![rest[0]]
                    + replace_nonempty(s@.skip(i + 1), from@, to@)));
            }
            i = i + 1;
        }
    }
    proof {
        lemma_replace_short(s@.skip(i as int), from@, to@);
    }
    let ghost head = out@;
    let mut j: usize = i;
    while j < s.len()
        invariant
            i <= j <= s.len(),
            head + s@.skip(i as int) == replace_nonempty(s@, from@, to@),
            out@ == head + s@.subrange(i as int, j as int),
        decreases s.len() - j,
    {
        out.push(s[j]);
        j = j + 1;
        assert(s@.subrange(i as int, j as int) =~= s@.subrange(i as int, j - 1).push(s@[j - 1]));
    }
    assert(s@.subrange(i as int, j as int) =~= s@.skip(i as int));
    out
}

/// Replaces, in place, every match of `from` in `buffer` by `to` when both
/// have the same length; a buffer is left as it is when the lengths differ.
/// The pattern and the replacement are not both empty.
pub fn replace_in_buffer(buffer: &mut Vec<u8>, from: &[u8], to: &[u8])
    requires
        from.len() > 0 || to.len() > 0,
    ensures
        from.len() != to.len() ==> final(buffer)@ == old(buffer)@,
        from.len() == to.len() ==> final(buffer)@ == replace_all(old(buffer)@, from@, to@),
{
    if from.len() != to.len() {
        return;
    }
    let m = from.len();
    let ghost orig = buffer@;
    let mut i: usize = 0;
    assert(orig.skip(0) =~= orig);
    assert(buffer@.take(0) =~= Seq::<u8>::empty());
    while i < buffer.len() && m <= buffer.len() - i
        invariant
            m == from.len(),
            m == to.len(),
            m > 0,
            buffer@.len() == orig.len(),
            i <= buffer.len(),
            buffer@.skip(i as int) == orig.skip(i as int),
            buffer@.take(i as int) + replace_nonempty(orig.skip(i as int), from@, to@)
                == replace_nonempty(orig, from@, to@),
        decreases buffer.len() - i,
    {
        let ghost rest = orig.skip(i as int);
        let ghost done = buffer@.take(i as int);
        proof {
            lemma_replace_step(rest, Seq::<u8>::empty(), from@, to@);
            assert(rest + Seq::<u8>::empty() =~= rest);
            assert(rest.take(m as int) =~= buffer@.subrange(i as int, i + m)) by {
                assert forall|k: int| 0 <= k < m implies rest.take(m as int)[k] == buffer@.subrange(
                    i as int,
                    i + m,
                )[k] by {
                    assert(buffer@.skip(i as int)[k] == buffer@[i + k]);
                    assert(orig.skip(i as int)[k] == orig[i + k]);
                }
            }
        }
        if bytes_match_at(buffer.as_slice(), i, from) {
            proof {
                assert(buffer@.skip(i + m) =~= buffer@.skip(i as int).skip(m as int));
                assert(orig.skip(i + m) =~= orig.skip(i as int).skip(m as int));
            }
            let mut k: usize = 0;
            while k < m
                invariant
                    m == from.len(),
                    m == to.len(),
                    k <= m,
                    i + m <= buffer.len(),
                    buffer@.len() == orig.len(),
                    buffer@.take(i as int) == done,
                    buffer@.skip(i + m) == orig.skip(i + m),
                    forall|t: int| 0 <= t < k ==> buffer@[i + t] == to@[t],
                decreases m - k,
            {
                let ghost before = buffer@;
                buffer.set(i + k, to[k]);
                k = k + 1;
                proof {
                    assert(buffer@.take(i as int) =~= before.take(i as int));
                    assert(buffer@.skip(i + m) =~= before.skip(i + m));
                }
            }
            proof {
                assert(buffer@.take(i + m) =~= done + to@);
                assert(rest.skip(m as int) + Seq::<u8>::empty() =~= orig.skip(i + m));
                assert(done + (to@ + replace_nonempty(orig.skip(i + m), from@, to@)) =~= (done
                    + to@) + replace_nonempty(orig.skip(i + m), from@, to@));
            }
            i = i + m;
        } else {
            proof {
                assert(rest.skip(1) + Seq::<u8>::empty() =~= orig.skip(i + 1));
                assert(buffer@[i as int] == orig[i as int]) by {
                    assert(buffer@.skip(i as int)[0] == orig.skip(i as int)[0]);
                }
                assert(buffer@.take(i + 1) =~= done + seq![rest[0]]);
                assert(buffer@.skip(i + 1) =~= buffer@.skip(i as int).skip(1));
                assert(orig.skip(i + 1) =~= orig.skip(i as int).skip(1));
                assert(done + (seq![rest[0]] + replace_nonempty(orig.skip(i + 1), from@, to@))
                    =~= (done + seq![rest[0]]) + replace_nonempty(orig.skip(i + 1), from@, to@));
            }
            i = i + 1;
        }
    }
    proof {
        lemma_replace_short(orig.skip(i as int), from@, to@);
        assert(buffer@ =~= buffer@.take(i as int) + buffer@.skip(i as int));
    }
}

} // verus!
