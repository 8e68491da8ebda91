//! Byte-string helpers shared by the codecs: decimal lengths, searching,
//! and the byte-wise order of names.

use vstd::prelude::*;

verus! {

/// The ASCII decimal digits of a number, without leading zeros.
pub open spec fn decimal(n: nat) -> Seq<u8>
    decreases n,
{
    if n < 10 {
        seq![(48 + n) as u8]
    } else {
        decimal(n / 10).push((48 + n % 10) as u8)
    }
}

/// Every byte is an ASCII digit.
pub open spec fn is_digits(s: Seq<u8>) -> bool {
    forall|i: int| 0 <= i < s.len() ==> 48 <= #[trigger] s[i] <= 57
}

/// The number that a run of ASCII digits spells.
pub open spec fn decimal_value(s: Seq<u8>) -> nat
    decreases s.len(),
{
    if s.len() == 0 {
        0
    } else {
        (decimal_value(s.drop_last()) * 10 + (s.last() - 48)) as nat
    }
}

/// The index of the first `b` in `s` at or after `from`, or `s.len()`.
pub open spec fn find_byte(s: Seq<u8>, b: u8, from: int) -> int
    decreases s.len() - from,
{
    if from >= s.len() {
        s.len() as int
    } else if s[from] == b {
        from
    } else {
        find_byte(s, b, from + 1)
    }
}

/// `a` comes before `b`, or equals it, when bytes are compared in order and
/// a proper prefix comes first.
pub open spec fn bytes_le(a: Seq<u8>, b: Seq<u8>) -> bool
    decreases a.len(),
{
    if a.len() == 0 {
        true
    } else if b.len() == 0 {
        false
    } else if a[0] != b[0] {
        a[0] < b[0]
    } else {
        bytes_le(a.skip(1), b.skip(1))
    }
}

/// Writing a number in decimal and reading it back gives the number.
pub proof fn lemma_decimal_roundtrip(n: nat)
    ensures
        decimal(n).len() > 0,
        is_digits(decimal(n)),
        decimal_value(decimal(n)) == n,
    decreases n,
{
    if n >= 10 {
        lemma_decimal_roundtrip(n / 10);
        let d = decimal(n / 10);
        let s = decimal(n);
        assert(s.drop_last() =~= d);
        assert(s.last() == (48 + n % 10) as u8);
    } else {
        let s = decimal(n);
        assert(s.drop_last() =~= Seq::<u8>::empty());
        assert(decimal_value(s.drop_last()) == 0);
    }
}

/// A longer run of digits spells a number at least as large as any prefix.
pub proof fn lemma_decimal_value_prefix(s: Seq<u8>, k: int)
    requires
        is_digits(s),
        0 <= k <= s.len(),
    ensures
        decimal_value(s.subrange(0, k)) <= decimal_value(s),
    decreases s.len() - k,
{
    if k < s.len() {
        lemma_decimal_value_prefix(s, k + 1);
        let t = s.subrange(0, k + 1);
        assert(t.drop_last() =~= s.subrange(0, k));
        assert(48 <= t.last() <= 57);
    } else {
        assert(s.subrange(0, k) =~= s);
    }
}

/// `find_byte` stays in range, stops on `b`, and skips no earlier `b`.
pub proof fn lemma_find_byte(s: Seq<u8>, b: u8, from: int)
    requires
        0 <= from <= s.len(),
    ensures
        from <= find_byte(s, b, from) <= s.len(),
        find_byte(s, b, from) < s.len() ==> s[find_byte(s, b, from)] == b,
        forall|i: int| from <= i < find_byte(s, b, from) ==> s[i] != b,
    decreases s.len() - from,
{
    if from < s.len() && s[from] != b {
        lemma_find_byte(s, b, from + 1);
    }
}

/// Of two names, one comes before the other or they are equal.
pub proof fn lemma_le_total(a: Seq<u8>, b: Seq<u8>)
    ensures
        bytes_le(a, b) || bytes_le(b, a),
    decreases a.len(),
{
    if a.len() > 0 && b.len() > 0 && a[0] == b[0] {
        lemma_le_total(a.skip(1), b.skip(1));
    }
}

/// The order of names is transitive.
pub proof fn lemma_le_trans(a: Seq<u8>, b: Seq<u8>, c: Seq<u8>)
    requires
        bytes_le(a, b),
        bytes_le(b, c),
    ensures
        bytes_le(a, c),
    decreases a.len(),
{
    if a.len() > 0 && b.len() > 0 && c.len() > 0 && a[0] == b[0] && b[0] == c[0] {
        lemma_le_trans(a.skip(1), b.skip(1), c.skip(1));
    }
}

/// Names that come before each other are the same name.
pub proof fn lemma_le_antisym(a: Seq<u8>, b: Seq<u8>)
    requires
        bytes_le(a, b),
        bytes_le(b, a),
    ensures
        a == b,
    decreases a.len(),
{
    if a.len() > 0 && b.len() > 0 {
        lemma_le_antisym(a.skip(1), b.skip(1));
        assert(a =~= seq![a[0]] + a.skip(1));
        assert(b =~= seq![b[0]] + b.skip(1));
    } else {
        assert(a =~= b);
    }
}

/// Every name comes before itself.
pub proof fn lemma_le_refl(a: Seq<u8>)
    ensures
        bytes_le(a, a),
    decreases a.len(),
{
    if a.len() > 0 {
        lemma_le_refl(a.skip(1));
    }
}

/// The decimal digits of `n`.
pub fn decimal_digits(n: usize) -> (r: Vec<u8>)
    ensures
        r@ == decimal(n as nat),
    decreases n,
{
    if n < 10 {
        let mut r: Vec<u8> = Vec::new();
        r.push(48 + n as u8);
        r
    } else {
        let mut r = decimal_digits(n / 10);
        r.push(48 + (n % 10) as u8);
        r
    }
}

/// Reads `bytes[start..end]` as a decimal number: `None` when the range is
/// empty or not within `bytes`, holds a byte that is no digit, or spells
/// more than fits.
pub fn parse_decimal(bytes: &[u8], start: usize, end: usize) -> (r: Option<usize>)
    ensures
        r.is_some() <==> start < end <= bytes@.len() && {
            let s = bytes@.subrange(start as int, end as int);
            is_digits(s) && decimal_value(s) <= usize::MAX
        },
        r matches Some(n) ==> n == decimal_value(bytes@.subrange(start as int, end as int)),
{
    let ghost s = bytes@.subrange(start as int, end as int);
    if start >= end || end > bytes.len() {
        return None;
    }
    let mut value: usize = 0;
    let mut i: usize = start;
    while i < end
        invariant
            start <= i <= end <= bytes@.len(),
            s == bytes@.subrange(start as int, end as int),
            is_digits(s.subrange(0, i - start)),
            value == decimal_value(s.subrange(0, i - start)),
        decreases end - i,
    {
        let c = bytes[i];
        let ghost t = s.subrange(0, i - start + 1);
        proof {
            assert(t.drop_last() =~= s.subrange(0, i - start));
            assert(t.last() == c);
        }
        if c < 48 || c > 57 {
            proof {
                assert(s[i - start] == c);
            }
            return None;
        }
        let d: usize = (c - 48) as usize;
        if value > (usize::MAX - d) / 10 {
            proof {
                assert(is_digits(s) ==> decimal_value(t) <= decimal_value(s)) by {
                    if is_digits(s) {
                        lemma_decimal_value_prefix(s, i - start + 1);
                    }
                }
                assert(decimal_value(t) == value * 10 + d);
            }
            return None;
        }
        value = value * 10 + d;
        i = i + 1;
        proof {
            assert forall|j: int| 0 <= j < t.len() implies 48 <= #[trigger] t[j] <= 57 by {
                if j < t.len() - 1 {
                    assert(t[j] == s.subrange(0, i - 1 - start)[j]);
                }
            }
        }
    }
    proof {
        assert(s.subrange(0, i - start) =~= s);
    }
    Some(value)
}

/// The index of the first `b` in `bytes` at or after `from`, or the length.
pub fn find(bytes: &[u8], b: u8, from: usize) -> (i: usize)
    ensures
        i == find_byte(bytes@, b, from as int),
        i <= bytes@.len(),
        from <= bytes@.len() ==> from <= i,
{
    if from >= bytes.len() {
        return bytes.len();
    }
    let mut i: usize = from;
    while i < bytes.len() && bytes[i] != b
        invariant
            from <= i <= bytes@.len(),
            find_byte(bytes@, b, from as int) == find_byte(bytes@, b, i as int),
        decreases bytes@.len() - i,
    {
        i = i + 1;
    }
    proof {
        lemma_find_byte(bytes@, b, i as int);
    }
    i
}

/// Compares two names byte by byte.
pub fn le(a: &[u8], b: &[u8]) -> (r: bool)
    ensures
        r == bytes_le(a@, b@),
{
    let mut i: usize = 0;
    proof {
        assert(a@.skip(0) =~= a@);
        assert(b@.skip(0) =~= b@);
    }
    while i < a.len() && i < b.len() && a[i] == b[i]
        invariant
            i <= a@.len(),
            i <= b@.len(),
            bytes_le(a@, b@) == bytes_le(a@.skip(i as int), b@.skip(i as int)),
        decreases a@.len() - i,
    {
        proof {
            assert(a@.skip(i as int).skip(1) =~= a@.skip(i + 1));
            assert(b@.skip(i as int).skip(1) =~= b@.skip(i + 1));
        }
        i = i + 1;
    }
    if i == a.len() {
        true
    } else if i == b.len() {
        false
    } else {
        a[i] < b[i]
    }
}

} // verus!
