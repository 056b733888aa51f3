//! Base-16 numbers as trace files write addresses and identifiers.
use vstd::prelude::*;

verus! {

/// `b` is an ASCII hexadecimal digit, in either case.
pub open spec fn is_hex_digit(b: u8) -> bool {
    (0x30 <= b <= 0x39) || (0x41 <= b <= 0x46) || (0x61 <= b <= 0x66)
}

/// The value of the hexadecimal digit `b`.
pub open spec fn digit_value(b: u8) -> nat {
    if 0x30 <= b <= 0x39 {
        (b - 0x30) as nat
    } else if 0x41 <= b <= 0x46 {
        (b - 0x41 + 10) as nat
    } else {
        (b - 0x61 + 10) as nat
    }
}

/// The number that the digits `s` write in base 16, most significant first.
pub open spec fn hex_value(s: Seq<u8>) -> nat
    decreases s.len(),
{
    if s.len() == 0 {
        0
    } else {
        hex_value(s.drop_last()) * 16 + digit_value(s.last())
    }
}

/// The digits of `s`, without the one leading `+` that may stand before them.
pub open spec fn unsigned_digits(s: Seq<u8>) -> Seq<u8> {
    if s.len() > 0 && s[0] == 0x2b {
        s.subrange(1, s.len() as int)
    } else {
        s
    }
}

/// `s` is a non-empty run of hexadecimal digits, after an optional `+`,
/// whose value fits in a `usize`.
pub open spec fn is_hex_number(s: Seq<u8>) -> bool {
    let d = unsigned_digits(s);
    &&& d.len() > 0
    &&& forall|i: int| 0 <= i < d.len() ==> is_hex_digit(#[trigger] d[i])
    &&& hex_value(d) <= usize::MAX
}

proof fn lemma_hex_value_grows(s: Seq<u8>, i: int, j: int)
    requires
        0 <= i <= j <= s.len(),
    ensures
        hex_value(s.take(i)) <= hex_value(s.take(j)),
    decreases j - i,
{
    if i < j {
        lemma_hex_value_grows(s, i, j - 1);
        assert(s.take(j).drop_last() =~= s.take(j - 1));
    }
}

/// Reads a base-16 number: `None` where `digits` is not one, or its value
/// does not fit in a `usize`.
pub fn parse_hex(digits: &[u8]) -> (r: Option<usize>)
    ensures
        r.is_some() == is_hex_number(digits@),
        r.is_some() ==> r.unwrap() == hex_value(unsigned_digits(digits@)),
{
    let n = digits.len();
    let start: usize = if n > 0 && digits[0] == 0x2b {
        1
    } else {
        0
    };
    let ghost d = unsigned_digits(digits@);
    assert(d =~= digits@.subrange(start as int, n as int));
    if start == n {
        return None;
    }
    let mut acc: usize = 0;
    let mut i: usize = start;
    while i < n
        invariant
            start <= i <= n,
            n == digits@.len(),
            d == digits@.subrange(start as int, n as int),
            d == unsigned_digits(digits@),
            forall|k: int| 0 <= k < i - start ==> is_hex_digit(#[trigger] d[k]),
            acc == hex_value(d.take(i - start)),
        decreases n - i,
    {
        let b = digits[i];
        let v: usize = if 0x30 <= b && b <= 0x39 {
            (b - 0x30) as usize
        } else if 0x41 <= b && b <= 0x46 {
            (b - 0x41 + 10) as usize
        } else if 0x61 <= b && b <= 0x66 {
            (b - 0x61 + 10) as usize
        } else {
            assert(d[i - start] == b);
            assert(!is_hex_digit(d[i - start]));
            return None;
        };
        let ghost k = i - start;
        assert(d.take(k + 1).drop_last() =~= d.take(k));
        assert(hex_value(d.take(k + 1)) == acc * 16 + v);
        if acc > (usize::MAX - v) / 16 {
            proof {
                assert(acc * 16 + v > usize::MAX) by (nonlinear_arith)
                    requires
                        acc > (usize::MAX - v) / 16,
                        v <= 15,
                ;
                lemma_hex_value_grows(d, k + 1, d.len() as int);
                assert(d.take(d.len() as int) =~= d);
            }
            return None;
        }
        acc = acc * 16 + v;
        i = i + 1;
    }
    assert(d.take(n - start) =~= d);
    Some(acc)
}

} // verus!
