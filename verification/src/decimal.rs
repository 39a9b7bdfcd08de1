use vstd::prelude::*;

verus! {

/// Whether `b` is one of the characters `0` to `9`.
pub open spec fn is_digit(b: u8) -> bool {
    48 <= b <= 57
}

/// Whether `s` holds digits only.
pub open spec fn all_digits(s: Seq<u8>) -> bool {
    forall|i: int| 0 <= i < s.len() ==> is_digit(#[trigger] s[i])
}

/// The number that the digits of `s` spell in base ten.
pub open spec fn digits_value(s: Seq<u8>) -> nat
    decreases s.len(),
{
    if s.len() == 0 {
        0
    } else {
        digits_value(s.drop_last()) * 10 + (if is_digit(s.last()) {
            (s.last() - 48) as nat
        } else {
            0
        })
    }
}

/// The byte that `s` spells in base ten: digits, at least one, with or
/// without a plus sign in front, that make a number up to 255.
pub open spec fn spec_decimal_byte(s: Seq<u8>) -> Option<u8> {
    let body = if s.len() > 0 && s[0] == 43 {
        s.skip(1)
    } else {
        s
    };
    spec_digits_byte(body)
}

/// The byte that the digits of `s` spell, if there is at least one digit,
/// nothing else, and the number is at most 255.
pub open spec fn spec_digits_byte(s: Seq<u8>) -> Option<u8> {
    if s.len() > 0 && all_digits(s) && digits_value(s) <= 255 {
        Some(digits_value(s) as u8)
    } else {
        None
    }
}

/// More digits never spell a smaller number.
pub proof fn lemma_digits_value_grows(s: Seq<u8>, n: int)
    requires
        0 <= n <= s.len(),
    ensures
        digits_value(s.take(n)) <= digits_value(s),
    decreases s.len() - n,
{
    if n < s.len() {
        lemma_digits_value_grows(s, n + 1);
        assert(s.take(n + 1).drop_last() =~= s.take(n));
    } else {
        assert(s.take(n) =~= s);
    }
}

/// The byte that the digits of `s` from `from` on spell.
pub fn parse_digits(s: &[u8], from: usize) -> (r: Option<u8>)
    requires
        from <= s@.len(),
    ensures
        r == spec_digits_byte(s@.skip(from as int)),
{
    let ghost body = s@.skip(from as int);
    if from >= s.len() {
        return None;
    }
    let mut acc: u32 = 0;
    let mut i: usize = from;
    proof {
        assert(body.take(0) =~= Seq::<u8>::empty());
    }
    while i < s.len()
        invariant
            from <= i <= s@.len(),
            body == s@.skip(from as int),
            acc <= 255,
            acc == digits_value(body.take(i - from)),
            all_digits(body.take(i - from)),
        decreases s.len() - i,
    {
        let b: u8 = s[i];
        proof {
            assert(body[i - from] == b);
            assert(body.take(i - from + 1).drop_last() =~= body.take(i - from));
            assert(body.take(i - from + 1).last() == b);
        }
        if b < 48 || b > 57 {
            return None;
        }
        let next: u32 = acc * 10 + (b - 48) as u32;
        if next > 255 {
            proof {
                lemma_digits_value_grows(body, i - from + 1);
            }
            return None;
        }
        proof {
            assert forall|k: int| 0 <= k < i - from + 1 implies is_digit(
                #[trigger] body.take(i - from + 1)[k],
            ) by {
                if k < i - from {
                    assert(body.take(i - from)[k] == body[k]);
                }
            }
        }
        acc = next;
        i += 1;
    }
    proof {
        assert(body.take(i - from) =~= body);
    }
    Some(acc as u8)
}

/// The byte that `s` spells in base ten, with or without a plus sign in
/// front.
pub fn decimal_byte(s: &[u8]) -> (r: Option<u8>)
    ensures
        r == spec_decimal_byte(s@),
{
    if s.len() > 0 && s[0] == 43 {
        parse_digits(s, 1)
    } else {
        proof {
            assert(s@.skip(0) =~= s@);
        }
        parse_digits(s, 0)
    }
}

} // verus!
