use crate::walk::FetchError;
use vstd::prelude::*;

verus! {

pub open spec fn is_digit(b: u8) -> bool {
    48 <= b <= 57
}

pub open spec fn all_digits(s: Seq<u8>) -> bool {
    forall|i: int| 0 <= i < s.len() ==> is_digit(#[trigger] s[i])
}

/// The number that a string of ASCII digits writes in base ten.
pub open spec fn digits_value(s: Seq<u8>) -> nat
    decreases s.len(),
{
    if s.len() == 0 {
        0
    } else {
        digits_value(s.drop_last()) * 10 + (s.last() - 48) as nat
    }
}

/// The digits of a reply, after an optional leading `+`.
pub open spec fn decimal_body(s: Seq<u8>) -> Seq<u8> {
    if s.len() > 0 && s[0] == 43 {
        s.skip(1)
    } else {
        s
    }
}

/// A reply that reads as a number in `[0, max]`.
pub open spec fn reads_as_decimal(s: Seq<u8>, max: nat) -> bool {
    let d = decimal_body(s);
    d.len() > 0 && all_digits(d) && digits_value(d) <= max
}

/// A digit string is worth at least any of its prefixes.
proof fn lemma_digits_value_prefix(s: Seq<u8>, k: int)
    requires
        0 <= k <= s.len(),
        all_digits(s),
    ensures
        digits_value(s.take(k)) <= digits_value(s),
    decreases s.len(),
{
    if k < s.len() {
        let d = s.drop_last();
        assert(d.take(k) =~= s.take(k));
        lemma_digits_value_prefix(d, k);
    } else {
        assert(s.take(k) =~= s);
    }
}

/// Reads a remote reply as a decimal number no larger than `max`; anything
/// else is a malformed response.
pub fn parse_decimal(bytes: &[u8], max: u64) -> (r: Result<u64, FetchError>)
    ensures
        r is Ok <==> reads_as_decimal(bytes@, max as nat),
        r is Ok ==> r->Ok_0 == digits_value(decimal_body(bytes@)),
        r is Err ==> r->Err_0 == FetchError::MalformedResponse,
{
    let ghost d = decimal_body(bytes@);
    let start: usize = if bytes.len() > 0 && bytes[0] == 43 {
        1
    } else {
        0
    };
    if start >= bytes.len() {
        return Err(FetchError::MalformedResponse);
    }
    assert(d =~= bytes@.skip(start as int));
    let mut acc: u64 = 0;
    let mut i: usize = start;
    while i < bytes.len()
        invariant
            start <= i <= bytes@.len(),
            d == decimal_body(bytes@),
            d =~= bytes@.skip(start as int),
            all_digits(d.take(i - start)),
            acc == digits_value(d.take(i - start)),
            acc <= max,
        decreases bytes@.len() - i,
    {
        let b = bytes[i];
        let ghost k = i - start;
        assert(d.take(k + 1).drop_last() =~= d.take(k));
        assert(d[k] == b);
        assert(d.take(k + 1).last() == b);
        if b < 48 || b > 57 {
            proof {
                assert(!is_digit(d[k]));
                assert(!all_digits(d));
            }
            return Err(FetchError::MalformedResponse);
        }
        let digit = (b - 48) as u64;
        if digit > max || acc > (max - digit) / 10 {
            proof {
                if digit <= max {
                    assert(acc * 10 + digit > max) by (nonlinear_arith)
                        requires
                            acc > (max - digit) / 10,
                            digit <= max,
                    ;
                }
                assert(digits_value(d.take(k + 1)) == acc * 10 + digit);
                if all_digits(d) {
                    lemma_digits_value_prefix(d, k + 1);
                }
            }
            return Err(FetchError::MalformedResponse);
        }
        assert(acc * 10 + digit <= max) by (nonlinear_arith)
            requires
                acc <= (max - digit) / 10,
                digit <= max,
        ;
        acc = acc * 10 + digit;
        i = i + 1;
        proof {
            assert forall|j: int| 0 <= j < d.take(i - start).len() implies is_digit(
                #[trigger] d.take(i - start)[j],
            ) by {
                if j < k {
                    assert(d.take(i - start)[j] == d.take(k)[j]);
                }
            }
        }
    }
    assert(d.take(i - start) =~= d);
    Ok(acc)
}

} // verus!
