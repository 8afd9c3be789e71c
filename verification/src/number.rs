use vstd::prelude::*;

verus! {

/// An ASCII decimal digit.
pub open spec fn is_digit(c: char) -> bool {
    48 <= (c as u32) && (c as u32) <= 57
}

/// The value of a decimal digit.
pub open spec fn digit_value(c: char) -> nat {
    ((c as u32) - 48) as nat
}

/// The value of a sequence of decimal digits, most significant first.
pub open spec fn digits_value(s: Seq<char>) -> nat
    decreases s.len(),
{
    if s.len() == 0 {
        0
    } else {
        digits_value(s.drop_last()) * 10 + digit_value(s.last())
    }
}

/// The digits of an unsigned decimal number: all after a leading `+`, if any.
pub open spec fn unsigned_digits(a: Seq<char>) -> Seq<char> {
    if a.len() > 0 && a[0] == '+' {
        a.skip(1)
    } else {
        a
    }
}

/// An unsigned decimal number in `u64`: an optional `+`, then one or more
/// ASCII digits whose value fits; anything else is no number.
pub open spec fn decimal_u64(a: Seq<char>) -> Option<u64> {
    let d = unsigned_digits(a);
    if d.len() > 0 && (forall|i: int| 0 <= i < d.len() ==> #[trigger] is_digit(d[i]))
        && digits_value(d) <= u64::MAX {
        Some(digits_value(d) as u64)
    } else {
        None
    }
}

/// A longer run of digits is worth at least as much as its beginning.
proof fn lemma_digits_value_prefix(s: Seq<char>, k: int)
    requires
        0 <= k <= s.len(),
    ensures
        digits_value(s.take(k)) <= digits_value(s),
    decreases s.len(),
{
    if k < s.len() {
        lemma_digits_value_prefix(s.drop_last(), k);
        assert(s.drop_last().take(k) =~= s.take(k));
    } else {
        assert(s.take(k) =~= s);
    }
}

/// A single ASCII digit is worth its digit value.
pub proof fn law_single_digit(d: char)
    requires
        is_digit(d),
    ensures
        decimal_u64(seq![d]) == Some(((d as u32) - 48) as u64),
{
    let s = seq![d];
    assert(s.drop_last() =~= Seq::<char>::empty());
    assert(digits_value(s) == digits_value(s.drop_last()) * 10 + digit_value(d));
}

/// One more digit after a number multiplies it by ten and adds the digit,
/// as long as the result fits; beyond `u64` there is no number.
pub proof fn law_digit_appended(a: Seq<char>, d: char)
    requires
        a.len() > 0,
        a[0] != '+',
        decimal_u64(a) is Some,
        is_digit(d),
    ensures
        ({
            let v = decimal_u64(a)->0 as int * 10 + ((d as u32) - 48);
            &&& v <= u64::MAX ==> decimal_u64(a.push(d)) == Some(v as u64)
            &&& v > u64::MAX ==> decimal_u64(a.push(d)) is None
        }),
{
    let b = a.push(d);
    assert(b[0] == a[0]);
    assert(unsigned_digits(a) == a);
    assert(unsigned_digits(b) == b);
    assert(b.drop_last() =~= a);
    assert(b.last() == d);
    assert forall|i: int| 0 <= i < b.len() implies #[trigger] is_digit(b[i]) by {
        if i < a.len() {
            assert(b[i] == a[i]);
            assert(is_digit(a[i]));
        }
    }
}

/// A leading `+` changes nothing, and a second sign is no number.
pub proof fn law_plus_sign(a: Seq<char>)
    requires
        a.len() == 0 || a[0] != '+',
    ensures
        decimal_u64(seq!['+'] + a) == decimal_u64(a),
        decimal_u64(seq!['+', '+'] + a) is None,
{
    let p = seq!['+'] + a;
    assert(p.skip(1) =~= a);
    assert(unsigned_digits(p) == a);
    let q = seq!['+', '+'] + a;
    assert(q.skip(1) =~= seq!['+'] + a);
    assert(unsigned_digits(q) == seq!['+'] + a);
    assert(!is_digit((seq!['+'] + a)[0]));
}

/// An argument with a character that is neither a digit nor a leading `+`
/// is no number.
pub proof fn law_non_digit_rejected(a: Seq<char>, i: int)
    requires
        0 <= i < a.len(),
        !is_digit(a[i]),
        !(i == 0 && a[0] == '+'),
    ensures
        decimal_u64(a) is None,
{
    let d = unsigned_digits(a);
    if a.len() > 0 && a[0] == '+' {
        assert(d[i - 1] == a[i]);
        assert(!is_digit(d[i - 1]));
    } else {
        assert(!is_digit(d[i]));
    }
}

/// Reads an unsigned decimal number that fits in `u64`.
pub fn parse_u64(a: &[char]) -> (r: Option<u64>)
    ensures
        r == decimal_u64(a@),
{
    let mut start: usize = 0;
    if a.len() > 0 && a[0] == '+' {
        start = 1;
    }
    let ghost d = unsigned_digits(a@);
    assert(d =~= a@.skip(start as int));
    if start >= a.len() {
        return None;
    }
    let mut v: u64 = 0;
    let mut i: usize = start;
    assert(d.take(0) =~= Seq::<char>::empty());
    while i < a.len()
        invariant
            start <= i <= a.len(),
            d == a@.skip(start as int),
            d == unsigned_digits(a@),
            forall|k: int| 0 <= k < i - start ==> #[trigger] is_digit(d[k]),
            v == digits_value(d.take(i - start)),
        decreases a.len() - i,
    {
        let c = a[i];
        let code = c as u32;
        assert(d[i - start] == c);
        if code < 48 || code > 57 {
            assert(!is_digit(d[i - start]));
            assert(!(forall|k: int| 0 <= k < d.len() ==> #[trigger] is_digit(d[k])));
            return None;
        }
        let dv = (code - 48) as u64;
        assert(d.take(i - start + 1).drop_last() =~= d.take(i - start));
        assert(d.take(i - start + 1).last() == c);
        proof {
            lemma_digits_value_prefix(d, i - start + 1);
        }
        match v.checked_mul(10) {
            None => {
                assert(digits_value(d.take(i - start + 1)) == v * 10 + digit_value(c));
                assert(digits_value(d) > u64::MAX);
                return None;
            },
            Some(x) => {
                match x.checked_add(dv) {
                    None => {
                        return None;
                    },
                    Some(y) => {
                        v = y;
                    },
                }
            },
        }
        i = i + 1;
    }
    assert(d.take(i - start) =~= d);
    Some(v)
}

} // verus!
