//! Reading the chain identity a provider reports: the JSON text of an
//! `eth_chainId` result, a quoted `0x`-prefixed hexadecimal number.

use vstd::prelude::*;

verus! {

/// The value of one hexadecimal digit, either case.
pub open spec fn hex_digit(b: u8) -> Option<nat> {
    if 0x30 <= b <= 0x39 {
        Some((b - 0x30) as nat)
    } else if 0x61 <= b <= 0x66 {
        Some((b - 0x61 + 10) as nat)
    } else if 0x41 <= b <= 0x46 {
        Some((b - 0x41 + 10) as nat)
    } else {
        None
    }
}

pub open spec fn all_hex(s: Seq<u8>) -> bool {
    forall|i: int| 0 <= i < s.len() ==> (#[trigger] hex_digit(s[i])) is Some
}

/// The number the digits spell, most significant first.
pub open spec fn hex_value(s: Seq<u8>) -> nat
    decreases s.len(),
{
    if s.len() == 0 {
        0
    } else {
        hex_value(s.drop_last()) * 16 + match hex_digit(s.last()) {
            Some(d) => d,
            None => 0,
        }
    }
}

/// The digits between `"0x` and the closing `"`, when the text has that shape.
pub open spec fn chain_id_digits(s: Seq<u8>) -> Option<Seq<u8>> {
    if s.len() >= 5 && s[0] == 0x22 && s[1] == 0x30 && (s[2] == 0x78 || s[2] == 0x58) && s.last()
        == 0x22 {
        Some(s.subrange(3, s.len() - 1))
    } else {
        None
    }
}

/// The chain id the text stands for: the digits are all hexadecimal and their
/// value fits in 64 bits.
pub open spec fn chain_id_of(s: Seq<u8>) -> Option<u64> {
    match chain_id_digits(s) {
        Some(d) => if all_hex(d) && hex_value(d) <= u64::MAX {
            Some(hex_value(d) as u64)
        } else {
            None
        },
        None => None,
    }
}

proof fn lemma_prefix_value_grows(s: Seq<u8>, i: int, j: int)
    requires
        0 <= i <= j <= s.len(),
    ensures
        hex_value(s.take(i)) <= hex_value(s.take(j)),
    decreases j - i,
{
    if i < j {
        lemma_prefix_value_grows(s, i, j - 1);
        assert(s.take(j).drop_last() =~= s.take(j - 1));
    }
}

fn digit_value(b: u8) -> (r: Option<u8>)
    ensures
        match r {
            Some(d) => hex_digit(b) == Some(d as nat) && d < 16,
            None => hex_digit(b) is None,
        },
{
    if 0x30 <= b && b <= 0x39 {
        Some(b - 0x30)
    } else if 0x61 <= b && b <= 0x66 {
        Some(b - 0x61 + 10)
    } else if 0x41 <= b && b <= 0x46 {
        Some(b - 0x41 + 10)
    } else {
        None
    }
}

/// Decodes a reported chain id, such as `"0x1"`; `None` when the text is not
/// a quoted hexadecimal number of at most 64 bits.
pub fn parse_chain_id(text: &[u8]) -> (r: Option<u64>)
    ensures
        r == chain_id_of(text@),
{
    let n = text.len();
    if n < 5 || text[0] != 0x22 || text[1] != 0x30 || (text[2] != 0x78 && text[2] != 0x58) || text[n
        - 1] != 0x22 {
        return None;
    }
    let ghost digits = text@.subrange(3, n - 1);
    let mut value: u64 = 0;
    let mut i: usize = 3;
    while i < n - 1
        invariant
            5 <= n == text@.len(),
            3 <= i <= n - 1,
            digits == text@.subrange(3, n - 1),
            all_hex(digits.take(i - 3)),
            value == hex_value(digits.take(i - 3)),
        decreases n - 1 - i,
    {
        let ghost k = i - 3;
        assert(digits.take(k + 1).drop_last() =~= digits.take(k));
        assert(digits.take(k + 1).last() == text@[i as int]);
        match digit_value(text[i]) {
            None => {
                assert(!all_hex(digits));
                return None;
            },
            Some(d) => {
                if value > (u64::MAX - d as u64) / 16 {
                    assert(hex_value(digits.take(k + 1)) > u64::MAX) by (nonlinear_arith)
                        requires
                            hex_value(digits.take(k + 1)) == value * 16 + d,
                            value > (u64::MAX - d as u64) / 16,
                            d < 16,
                    ;
                    proof {
                        lemma_prefix_value_grows(digits, k + 1, digits.len() as int);
                        assert(digits.take(digits.len() as int) =~= digits);
                    }
                    return None;
                }
                assert(value * 16 + d <= u64::MAX) by (nonlinear_arith)
                    requires
                        value <= (u64::MAX - d as u64) / 16,
                        d < 16,
                ;
                assert forall|j: int| 0 <= j < k + 1 implies (#[trigger] hex_digit(
                    digits.take(k + 1)[j],
                )) is Some by {
                    if j < k {
                        assert(digits.take(k + 1)[j] == digits.take(k)[j]);
                    }
                }
                value = value * 16 + d as u64;
            },
        }
        i += 1;
    }
    assert(digits.take(i - 3) =~= digits);
    Some(value)
}

} // verus!
