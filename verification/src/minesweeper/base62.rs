use vstd::prelude::*;
use vstd::arithmetic::div_mod::lemma_fundamental_div_mod;
use vstd::string::StringSliceAdditionalSpecFns;

use crate::minesweeper::error::MinesweeperError;

verus! {

/// Value of one byte as a digit of the 62-symbol alphabet
/// (decimal digits, then the uppercase letters, then the lowercase
/// letters), or -1 when the byte is not in the alphabet.
pub open spec fn digit62(b: u8) -> int {
    if 48 <= b <= 57 {
        b - 48
    } else if 65 <= b <= 90 {
        b - 55
    } else if 97 <= b <= 122 {
        b - 61
    } else {
        -1
    }
}

pub open spec fn all_digits62(s: Seq<u8>) -> bool {
    forall|i: int| 0 <= i < s.len() ==> digit62(s[i]) >= 0
}

/// Positional value of a numeral, most-significant byte first:
/// the Horner form of sum of digit62(s[i]) * 62^(len - 1 - i).
pub open spec fn value62(s: Seq<u8>) -> int
    decreases s.len(),
{
    if s.len() == 0 {
        0
    } else {
        value62(s.drop_last()) * 62 + digit62(s.last())
    }
}

pub proof fn lemma_value62_nonneg(s: Seq<u8>)
    requires
        all_digits62(s),
    ensures
        value62(s) >= 0,
    decreases s.len(),
{
    if s.len() > 0 {
        assert(all_digits62(s.drop_last())) by {
            assert(forall|i: int| 0 <= i < s.len() - 1 ==> s.drop_last()[i] == s[i]);
        }
        lemma_value62_nonneg(s.drop_last());
    }
}

/// Growing a numeral on the right never decreases its value.
pub proof fn lemma_value62_prefix_le(s: Seq<u8>, i: int)
    requires
        all_digits62(s),
        0 <= i <= s.len(),
    ensures
        value62(s.subrange(0, i)) <= value62(s),
    decreases s.len() - i,
{
    if i < s.len() {
        let t = s.subrange(0, i + 1);
        assert(t.drop_last() =~= s.subrange(0, i));
        assert(all_digits62(t.drop_last()));
        lemma_value62_nonneg(t.drop_last());
        assert(value62(t) == value62(s.subrange(0, i)) * 62 + digit62(s[i]));
        assert(value62(s.subrange(0, i)) * 62 >= value62(s.subrange(0, i))) by (nonlinear_arith)
            requires value62(s.subrange(0, i)) >= 0;
        lemma_value62_prefix_le(s, i + 1);
    } else {
        assert(s.subrange(0, i) =~= s);
    }
}

/// Decodes a base-62 numeral, most-significant character first.
/// Succeeds exactly when every character is in the alphabet and the
/// value fits in an `i64`; an out-of-alphabet character is reported
/// over a too-large value.
pub fn decode(number: &str) -> (r: Result<i64, MinesweeperError>)
    ensures
        r is Ok <==> all_digits62(number.spec_bytes()) && value62(number.spec_bytes())
            <= i64::MAX,
        r matches Ok(v) ==> v == value62(number.spec_bytes()),
        !all_digits62(number.spec_bytes()) ==> r == Err::<i64, _>(MinesweeperError::Decode),
        all_digits62(number.spec_bytes()) && value62(number.spec_bytes()) > i64::MAX ==> r
            == Err::<i64, _>(MinesweeperError::DataParse),
{
    decode_bytes(number.as_bytes())
}

/// Decodes a base-62 numeral given as its byte string; `decode` and the
/// replay parser's coordinate tokens share this core.
pub fn decode_bytes(bytes: &[u8]) -> (r: Result<i64, MinesweeperError>)
    ensures
        r is Ok <==> all_digits62(bytes@) && value62(bytes@) <= i64::MAX,
        r matches Ok(v) ==> v == value62(bytes@),
        !all_digits62(bytes@) ==> r == Err::<i64, _>(MinesweeperError::Decode),
        all_digits62(bytes@) && value62(bytes@) > i64::MAX ==> r == Err::<i64, _>(
            MinesweeperError::DataParse,
        ),
{
    let ghost s = bytes@;
    let n = bytes.len();
    for i in 0..n
        invariant
            n == s.len(),
            bytes@ == s,
            forall|j: int| 0 <= j < i ==> digit62(s[j]) >= 0,
    {
        let b = bytes[i];
        if !((48 <= b && b <= 57) || (65 <= b && b <= 90) || (97 <= b && b <= 122)) {
            return Err(MinesweeperError::Decode);
        }
    }
    let mut acc: i64 = 0;
    for i in 0..n
        invariant
            n == s.len(),
            bytes@ == s,
            all_digits62(s),
            0 <= acc,
            acc == value62(s.subrange(0, i as int)),
    {
        let b = bytes[i];
        let d: i64 = if 48 <= b && b <= 57 {
            (b - 48) as i64
        } else if 65 <= b && b <= 90 {
            (b - 55) as i64
        } else {
            (b - 61) as i64
        };
        assert(d == digit62(s[i as int]));
        if acc > (i64::MAX - d) / 62 {
            proof {
                lemma_fundamental_div_mod(i64::MAX - d, 62);
                assert(acc * 62 >= ((i64::MAX - d) / 62 + 1) * 62) by (nonlinear_arith)
                    requires acc >= (i64::MAX - d) / 62 + 1;
                assert(value62(s.subrange(0, i + 1)) == acc * 62 + d) by {
                    assert(s.subrange(0, i + 1).drop_last() =~= s.subrange(0, i as int));
                }
                lemma_value62_prefix_le(s, i + 1);
            }
            return Err(MinesweeperError::DataParse);
        }
        proof {
            lemma_fundamental_div_mod(i64::MAX - d, 62);
            assert(acc * 62 <= ((i64::MAX - d) / 62) * 62) by (nonlinear_arith)
                requires acc <= (i64::MAX - d) / 62;
            assert(s.subrange(0, i + 1).drop_last() =~= s.subrange(0, i as int));
        }
        acc = acc * 62 + d;
    }
    proof {
        assert(s.subrange(0, n as int) =~= s);
    }
    Ok(acc)
}

} // verus!
