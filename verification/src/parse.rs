//! Parsing of hexadecimal address strings such as `0x08000000`.

use vstd::prelude::*;
use vstd::string::StringSliceAdditionalSpecFns;

verus! {

/// Is `b` the ASCII code of a hexadecimal digit?
pub open spec fn is_hex_digit(b: u8) -> bool {
    (0x30 <= b <= 0x39) || (0x41 <= b <= 0x46) || (0x61 <= b <= 0x66)
}

/// The value of the hexadecimal digit with ASCII code `b`.
pub open spec fn hex_digit_value(b: u8) -> nat {
    if 0x30 <= b <= 0x39 {
        (b - 0x30) as nat
    } else if 0x41 <= b <= 0x46 {
        (b - 0x41 + 10) as nat
    } else if 0x61 <= b <= 0x66 {
        (b - 0x61 + 10) as nat
    } else {
        0
    }
}

/// The number a big-endian string of hexadecimal digits denotes.
pub open spec fn hex_value(s: Seq<u8>) -> nat
    decreases s.len(),
{
    if s.len() == 0 {
        0
    } else {
        (hex_value(s.drop_last()) * 16 + hex_digit_value(s.last())) as nat
    }
}

/// `s` with every leading `0x` marker removed, then at most one leading
/// `+` sign removed: the digits that remain to be parsed.
pub open spec fn hex_digits_of(s: Seq<u8>) -> Seq<u8>
    decreases s.len(),
{
    if s.len() >= 2 && s[0] == 0x30 && s[1] == 0x78 {
        hex_digits_of(s.skip(2))
    } else if s.len() >= 1 && s[0] == 0x2B {
        s.skip(1)
    } else {
        s
    }
}

/// A prefix of a digit string never denotes more than the whole string.
proof fn lemma_hex_value_prefix(s: Seq<u8>, i: int)
    requires
        0 <= i <= s.len(),
    ensures
        hex_value(s.take(i)) <= hex_value(s),
    decreases s.len() - i,
{
    if i < s.len() {
        lemma_hex_value_prefix(s, i + 1);
        assert(s.take(i + 1).drop_last() =~= s.take(i));
        assert(hex_value(s.take(i)) <= hex_value(s.take(i + 1)));
    } else {
        assert(s.take(i) =~= s);
    }
}

/// Parse a hexadecimal string such as `0x08000000`. Every leading `0x`
/// marker is stripped, then one leading `+` is allowed; the remaining
/// characters must be one or more hexadecimal digits whose value fits in
/// 32 bits, else nothing is returned.
pub fn u32_from_hex(s: &str) -> (r: Option<u32>)
    ensures
        ({
            let digits = hex_digits_of(s.spec_bytes());
            &&& r is Some <==> (digits.len() > 0 && (forall|i: int|
                0 <= i < digits.len() ==> is_hex_digit(#[trigger] digits[i]))
                && hex_value(digits) <= u32::MAX)
            &&& (r matches Some(v) ==> v == hex_value(digits))
        }),
{
    let bytes = s.as_bytes();
    let ghost view = s.spec_bytes();

    let n = bytes.len();
    let mut start: usize = 0;

    proof {
        assert(view.skip(0int) =~= view);
    }

    while n - start >= 2 && bytes[start] == 0x30 && bytes[start + 1] == 0x78
        invariant
            start <= n,
            view == s.spec_bytes(),
            n == view.len(),
            bytes@ == view,
            hex_digits_of(view) == hex_digits_of(view.skip(start as int)),
        decreases n - start,
    {
        proof {
            assert(view.skip(start as int).skip(2) =~= view.skip(start + 2));
        }
        start = start + 2;
    }

    if start < n && bytes[start] == 0x2B {
        proof {
            assert(view.skip(start as int).skip(1) =~= view.skip(start + 1));
        }
        start = start + 1;
    }

    let ghost digits = hex_digits_of(view);
    proof {
        assert(digits =~= view.skip(start as int));
    }

    if start == n {
        return None;
    }

    let mut v: u32 = 0;
    let mut i: usize = start;
    while i < n
        invariant
            start <= i <= n,
            view == s.spec_bytes(),
            digits == hex_digits_of(view),
            n == view.len(),
            bytes@ == view,
            digits == view.skip(start as int),
            v == hex_value(digits.take(i - start)),
            forall|j: int| 0 <= j < i - start ==> is_hex_digit(#[trigger] digits[j]),
        decreases n - i,
    {
        let b = bytes[i];
        let d: u8 = if 0x30 <= b && b <= 0x39 {
            b - 0x30
        } else if 0x41 <= b && b <= 0x46 {
            b - 0x41 + 10
        } else if 0x61 <= b && b <= 0x66 {
            b - 0x61 + 10
        } else {
            proof {
                assert(digits[i - start] == view[i as int]);
                assert(!is_hex_digit(digits[i - start]));
            }
            return None;
        };

        if v >= 0x1000_0000 {
            // The next digit would push the value past 32 bits.
            proof {
                assert(digits.take(i - start + 1).drop_last() =~= digits.take(i - start));
                assert(hex_value(digits.take(i - start + 1)) > u32::MAX);
                lemma_hex_value_prefix(digits, i - start + 1);
            }
            return None;
        }

        proof {
            assert(digits.take(i - start + 1).drop_last() =~= digits.take(i - start));
            assert(digits.take(i - start + 1).last() == digits[i - start]);
        }
        v = v * 16 + d as u32;
        i = i + 1;
    }

    proof {
        assert(digits.take(n - start) =~= digits);
    }
    Some(v)
}

} // verus!
