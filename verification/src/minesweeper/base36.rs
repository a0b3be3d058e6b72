use vstd::prelude::*;
use vstd::arithmetic::div_mod::lemma_fundamental_div_mod;
use vstd::string::StringSliceAdditionalSpecFns;

use crate::minesweeper::error::MinesweeperError;

verus! {

/// Value of one byte as a digit of the 36-symbol alphabet
/// (decimal digits, then the lowercase letters), or -1 when the byte
/// is not in the alphabet.
pub open spec fn digit36(b: u8) -> int {
    if 48 <= b <= 57 {
        b - 48
    } else if 97 <= b <= 122 {
        b - 87
    } else {
        -1
    }
}

pub open spec fn all_digits36(s: Seq<u8>) -> bool {
    forall|i: int| 0 <= i < s.len() ==> digit36(s[i]) >= 0
}

/// Positional value of a numeral, most-significant byte first:
/// the Horner form of sum of digit36(s[i]) * 36^(len - 1 - i).
pub open spec fn value36(s: Seq<u8>) -> int
    decreases s.len(),
{
    if s.len() == 0 {
        0
    } else {
        value36(s.drop_last()) * 36 + digit36(s.last())
    }
}

pub proof fn lemma_value36_nonneg(s: Seq<u8>)
    requires
        all_digits36(s),
    ensures
        value36(s) >= 0,
    decreases s.len(),
{
    if s.len() > 0 {
        assert(all_digits36(s.drop_last())) by {
            assert(forall|i: int| 0 <= i < s.len() - 1 ==> s.drop_last()[i] == s[i]);
        }
        lemma_value36_nonneg(s.drop_last());
    }
}

/// Growing a numeral on the right never decreases its value.
pub proof fn lemma_value36_prefix_le(s: Seq<u8>, i: int)
    requires
        all_digits36(s),
        0 <= i <= s.len(),
    ensures
        value36(s.subrange(0, i)) <= value36(s),
    decreases s.len() - i,
{
    if i < s.len() {
        let t = s.subrange(0, i + 1);
        assert(t.drop_last() =~= s.subrange(0, i));
        assert(all_digits36(t.drop_last()));
        lemma_value36_nonneg(t.drop_last());
        assert(value36(t) == value36(s.subrange(0, i)) * 36 + digit36(s[i]));
        assert(value36(s.subrange(0, i)) * 36 >= value36(s.subrange(0, i))) by (nonlinear_arith)
            requires value36(s.subrange(0, i)) >= 0;
        lemma_value36_prefix_le(s, i + 1);
    } else {
        assert(s.subrange(0, i) =~= s);
    }
}

/// Decodes a base-36 numeral, most-significant character first.
/// Succeeds exactly when every character is in the alphabet and the
/// value fits in an `i64`; an out-of-alphabet character is reported
/// over a too-large value.
pub fn decode(number: &str) -> (r: Result<i64, MinesweeperError>)
    ensures
        r is Ok <==> all_digits36(number.spec_bytes()) && value36(number.spec_bytes())
            <= i64::MAX,
        r matches Ok(v) ==> v == value36(number.spec_bytes()),
        !all_digits36(number.spec_bytes()) ==> r == Err::<i64, _>(MinesweeperError::Decode),
        all_digits36(number.spec_bytes()) && value36(number.spec_bytes()) > i64::MAX ==> r
            == Err::<i64, _>(MinesweeperError::DataParse),
{
    let bytes = number.as_bytes();
    let ghost s = number.spec_bytes();
    let n = bytes.len();
    for i in 0..n
        invariant
            n == s.len(),
            s == number.spec_bytes(),
            bytes@ == s,
            forall|j: int| 0 <= j < i ==> digit36(s[j]) >= 0,
    {
        let b = bytes[i];
        if !((48 <= b && b <= 57) || (97 <= b && b <= 122)) {
            assert(digit36(s[i as int]) < 0);
            assert(!all_digits36(s));
            return Err(MinesweeperError::Decode);
        }
    }
    let mut acc: i64 = 0;
    for i in 0..n
        invariant
            n == s.len(),
            s == number.spec_bytes(),
            bytes@ == s,
            all_digits36(s),
            0 <= acc,
            acc == value36(s.subrange(0, i as int)),
    {
        let b = bytes[i];
        let d: i64 = if 48 <= b && b <= 57 {
            (b - 48) as i64
        } else {
            (b - 87) as i64
        };
        assert(d == digit36(s[i as int]));
        if acc > (i64::MAX - d) / 36 {
            proof {
                lemma_fundamental_div_mod(i64::MAX - d, 36);
                assert(acc * 36 >= ((i64::MAX - d) / 36 + 1) * 36) by (nonlinear_arith)
                    requires acc >= (i64::MAX - d) / 36 + 1;
                assert(value36(s.subrange(0, i + 1)) == acc * 36 + d) by {
                    assert(s.subrange(0, i + 1).drop_last() =~= s.subrange(0, i as int));
                }
                lemma_value36_prefix_le(s, i + 1);
                assert(value36(s) > i64::MAX);
            }
            return Err(MinesweeperError::DataParse);
        }
        proof {
            lemma_fundamental_div_mod(i64::MAX - d, 36);
            assert(acc * 36 <= ((i64::MAX - d) / 36) * 36) by (nonlinear_arith)
                requires acc <= (i64::MAX - d) / 36;
            assert(s.subrange(0, i + 1).drop_last() =~= s.subrange(0, i as int));
        }
        acc = acc * 36 + d;
    }
    proof {
        assert(s.subrange(0, n as int) =~= s);
    }
    Ok(acc)
}

} // verus!
