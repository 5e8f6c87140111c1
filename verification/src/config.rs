use vstd::prelude::*;

verus! {

/// An ASCII decimal digit.
pub open spec fn spec_is_digit(b: u8) -> bool {
    48 <= b <= 57
}

/// A non-empty string of ASCII digits.
pub open spec fn spec_all_digits(s: Seq<u8>) -> bool {
    forall|i: int| 0 <= i < s.len() ==> spec_is_digit(#[trigger] s[i])
}

/// The value of a digit string read in base ten.
pub open spec fn spec_num_value(s: Seq<u8>) -> int
    decreases s.len(),
{
    if s.len() == 0 {
        0
    } else {
        spec_num_value(s.drop_last()) * 10 + (s.last() - 48)
    }
}

/// What parsing a persisted decimal value owes: the number, exactly when
/// the whole string is one or more digits and the value fits the machine.
pub open spec fn spec_parse_usize(s: Seq<u8>) -> Option<int> {
    if s.len() >= 1 && spec_all_digits(s) && spec_num_value(s) <= usize::MAX {
        Some(spec_num_value(s))
    } else {
        None
    }
}

/// A digit string's value never shrinks as digits are appended.
proof fn lemma_num_value_grows(s: Seq<u8>, k: int)
    requires
        0 <= k <= s.len(),
        spec_all_digits(s),
    ensures
        spec_num_value(s.subrange(0, k)) <= spec_num_value(s),
        spec_num_value(s) >= 0,
    decreases s.len() - k,
{
    if k == s.len() {
        assert(s.subrange(0, k) =~= s);
        lemma_num_value_nonneg(s);
    } else {
        lemma_num_value_grows(s, k + 1);
        assert(s.subrange(0, k + 1).drop_last() =~= s.subrange(0, k));
        assert(s.subrange(0, k + 1).last() == s[k]);
        lemma_num_value_nonneg(s.subrange(0, k));
    }
}

/// A digit string's value is never negative.
proof fn lemma_num_value_nonneg(s: Seq<u8>)
    requires
        spec_all_digits(s),
    ensures
        spec_num_value(s) >= 0,
    decreases s.len(),
{
    if s.len() > 0 {
        assert(spec_all_digits(s.drop_last())) by {
            assert(forall|i: int| 0 <= i < s.len() - 1 ==> s.drop_last()[i] == s[i]);
        }
        lemma_num_value_nonneg(s.drop_last());
    }
}

/// Parses a persisted decimal value, as the configuration store needs for
/// the saved scan mode: the number if the string is one or more digits
/// and the value fits, `None` otherwise.
pub fn parse_usize(s: &Vec<u8>) -> (r: Option<usize>)
    ensures
        match r {
            Some(v) => spec_parse_usize(s@) == Some(v as int),
            None => spec_parse_usize(s@) is None,
        },
{
    let n = s.len();
    if n == 0 {
        return None;
    }
    let mut val: usize = 0;
    let mut i: usize = 0;
    while i < n
        invariant
            n == s@.len(),
            i <= n,
            spec_all_digits(s@.subrange(0, i as int)),
            val == spec_num_value(s@.subrange(0, i as int)),
        decreases n - i,
    {
        let b = s[i];
        if b < 48 || b > 57 {
            return None;
        }
        let d = (b - 48) as usize;
        if val > (usize::MAX - d) / 10 {
            proof {
                assert(s@.subrange(0, i + 1).drop_last() =~= s@.subrange(0, i as int));
                assert(s@.subrange(0, i + 1).last() == s@[i as int]);
                assert(spec_num_value(s@.subrange(0, i + 1)) > usize::MAX) by (nonlinear_arith)
                    requires
                        val == spec_num_value(s@.subrange(0, i as int)),
                        spec_num_value(s@.subrange(0, i + 1)) == val * 10 + d,
                        val > (usize::MAX - d) / 10,
                        0 <= d <= 9,
                {}
                if spec_all_digits(s@) {
                    lemma_num_value_grows(s@, i + 1);
                }
            }
            return None;
        }
        proof {
            assert(val * 10 + d <= usize::MAX) by (nonlinear_arith)
                requires
                    val <= (usize::MAX - d) / 10,
                    0 <= d <= 9,
                    val >= 0,
            {}
            assert(s@.subrange(0, i + 1).drop_last() =~= s@.subrange(0, i as int));
            assert(s@.subrange(0, i + 1).last() == s@[i as int]);
        }
        val = val * 10 + d;
        i = i + 1;
        proof {
            assert(spec_all_digits(s@.subrange(0, i as int)));
        }
    }
    proof {
        assert(s@.subrange(0, n as int) =~= s@);
    }
    Some(val)
}

} // verus!
