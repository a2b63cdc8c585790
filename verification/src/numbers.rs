//! Plain decimal numbers: the rating threshold test on a raw rating field's
//! bytes, and rendering counters as decimal strings.
use vstd::prelude::*;
use vstd::string::StringExecFns;

verus! {

/// An ASCII decimal digit.
pub open spec fn is_digit(b: u8) -> bool {
    0x30 <= b <= 0x39
}

/// The first position at or after `i` that does not hold a digit.
pub open spec fn int_end(s: Seq<u8>, i: int) -> int
    decreases s.len() - i,
{
    if i < 0 || i >= s.len() || !is_digit(s[i]) {
        i
    } else {
        int_end(s, i + 1)
    }
}

/// A well-formed non-negative rating: one or more digits, optionally followed
/// by a dot and further digits. This is the whole accepted grammar: a field
/// in any other shape (a sign, an exponent, surrounding spaces) counts as
/// unparsable, and the record carrying it is filtered out.
pub open spec fn valid_rating(s: Seq<u8>) -> bool {
    let d = int_end(s, 0);
    &&& d >= 1
    &&& (d == s.len() || (s[d] == 0x2e && (forall|k: int| d < k < s.len() ==> is_digit(#[trigger] s[k]))))
}

/// The number named by a sequence of digit bytes.
pub open spec fn digits_value(s: Seq<u8>) -> int
    decreases s.len(),
{
    if s.len() == 0 {
        0
    } else {
        digits_value(s.drop_last()) * 10 + (s.last() - 0x30)
    }
}

/// The whole-number part of a well-formed rating.
pub open spec fn rating_floor(s: Seq<u8>) -> int {
    digits_value(s.subrange(0, int_end(s, 0)))
}

/// Scanning one digit moves the end of the whole-number part one on.
proof fn lemma_int_end_step(s: Seq<u8>, i: int)
    requires
        0 <= i < s.len(),
        is_digit(s[i]),
    ensures
        int_end(s, i) == int_end(s, i + 1),
{
}

/// The whole-number part never ends beyond the field.
proof fn lemma_int_end_bounds(s: Seq<u8>, i: int)
    requires
        0 <= i <= s.len(),
    ensures
        i <= int_end(s, i) <= s.len(),
    decreases s.len() - i,
{
    if i < s.len() && is_digit(s[i]) {
        lemma_int_end_bounds(s, i + 1);
    }
}

/// One more digit multiplies the value by ten and adds the digit.
proof fn lemma_digits_value_step(s: Seq<u8>, i: int)
    requires
        0 <= i < s.len(),
    ensures
        digits_value(s.subrange(0, i + 1)) == digits_value(s.subrange(0, i)) * 10 + (s[i] - 0x30),
{
    assert(s.subrange(0, i + 1).drop_last() =~= s.subrange(0, i));
    assert(s.subrange(0, i + 1).last() == s[i]);
}

/// Whether the field holds a well-formed rating whose whole-number part
/// reaches the threshold. A record is kept only when this holds of both of
/// its rating fields.
pub fn rating_at_least(s: &[u8], min: u64) -> (r: bool)
    ensures
        r == (valid_rating(s@) && rating_floor(s@) >= min),
{
    let n = s.len();
    let mut i: usize = 0;
    proof {
        lemma_int_end_bounds(s@, 0);
    }
    while i < n && s[i] >= 0x30 && s[i] <= 0x39
        invariant
            0 <= i <= n,
            n == s@.len(),
            int_end(s@, 0) == int_end(s@, i as int),
            forall|k: int| 0 <= k < i ==> is_digit(#[trigger] s@[k]),
        decreases n - i,
    {
        proof {
            lemma_int_end_step(s@, i as int);
        }
        i += 1;
    }
    assert(int_end(s@, i as int) == i);
    let d = i;
    if d == 0 {
        return false;
    }
    if d < n {
        if s[d] != 0x2e {
            return false;
        }
        let mut k = d + 1;
        while k < n
            invariant
                d < k <= n,
                n == s@.len(),
                int_end(s@, 0) == d,
                s@[d as int] == 0x2e,
                forall|m: int| d < m < k ==> is_digit(#[trigger] s@[m]),
            decreases n - k,
        {
            if s[k] < 0x30 || s[k] > 0x39 {
                return false;
            }
            k += 1;
        }
    }
    assert(valid_rating(s@));
    // The whole-number part, saturating above the threshold's range.
    let mut acc: u64 = 0;
    let mut big = false;
    let mut j: usize = 0;
    proof {
        assert(s@.subrange(0, 0) =~= Seq::<u8>::empty());
    }
    while j < d
        invariant
            0 <= j <= d <= n,
            n == s@.len(),
            int_end(s@, 0) == d,
            valid_rating(s@),
            forall|k: int| 0 <= k < d ==> is_digit(#[trigger] s@[k]),
            !big ==> acc == digits_value(s@.subrange(0, j as int)),
            big ==> digits_value(s@.subrange(0, j as int)) > u64::MAX,
        decreases d - j,
    {
        let digit = s[j] - 0x30;
        proof {
            lemma_digits_value_step(s@, j as int);
        }
        if big || acc > (u64::MAX - digit as u64) / 10 {
            proof {
                let v = digits_value(s@.subrange(0, j as int));
                if !big {
                    assert(acc * 10 + digit > u64::MAX) by (nonlinear_arith)
                        requires
                            acc > (u64::MAX - digit as u64) / 10,
                            0 <= digit <= 9,
                    {
                    }
                } else {
                    assert(v * 10 + digit > u64::MAX) by (nonlinear_arith)
                        requires
                            v > u64::MAX,
                            0 <= digit,
                    {
                    }
                }
            }
            big = true;
        } else {
            acc = acc * 10 + digit as u64;
        }
        j += 1;
    }
    assert(s@.subrange(0, d as int) == s@.subrange(0, int_end(s@, 0)));
    big || acc >= min
}

/// The decimal digit character for one digit's value.
pub open spec fn dec_digit(n: nat) -> char {
    if n == 0 {
        '0'
    } else if n == 1 {
        '1'
    } else if n == 2 {
        '2'
    } else if n == 3 {
        '3'
    } else if n == 4 {
        '4'
    } else if n == 5 {
        '5'
    } else if n == 6 {
        '6'
    } else if n == 7 {
        '7'
    } else if n == 8 {
        '8'
    } else {
        '9'
    }
}

/// The decimal rendering of a number, most significant digit first.
pub open spec fn dec_str(n: nat) -> Seq<char>
    decreases n,
{
    if n < 10 {
        seq![dec_digit(n)]
    } else {
        dec_str(n / 10).push(dec_digit(n % 10))
    }
}

/// One digit's value as a one-character string.
fn digit_string(d: u64) -> (r: String)
    requires
        d < 10,
    ensures
        r@ == seq![dec_digit(d as nat)],
{
    proof {
        reveal_strlit("0");
        reveal_strlit("1");
        reveal_strlit("2");
        reveal_strlit("3");
        reveal_strlit("4");
        reveal_strlit("5");
        reveal_strlit("6");
        reveal_strlit("7");
        reveal_strlit("8");
        reveal_strlit("9");
    }
    let s = if d == 0 {
        "0"
    } else if d == 1 {
        "1"
    } else if d == 2 {
        "2"
    } else if d == 3 {
        "3"
    } else if d == 4 {
        "4"
    } else if d == 5 {
        "5"
    } else if d == 6 {
        "6"
    } else if d == 7 {
        "7"
    } else if d == 8 {
        "8"
    } else {
        "9"
    };
    proof {
        assert(s@ =~= seq![dec_digit(d as nat)]);
    }
    String::from_str(s)
}

/// Renders a number as its decimal digits.
pub fn u64_to_string(n: u64) -> (r: String)
    ensures
        r@ == dec_str(n as nat),
    decreases n,
{
    if n < 10 {
        digit_string(n)
    } else {
        let mut s = u64_to_string(n / 10);
        let last = digit_string(n % 10);
        s.append(last.as_str());
        proof {
            assert(dec_str((n / 10) as nat).push(dec_digit((n % 10) as nat)) =~= dec_str(
                (n / 10) as nat,
            ) + seq![dec_digit((n % 10) as nat)]);
        }
        s
    }
}

} // verus!
