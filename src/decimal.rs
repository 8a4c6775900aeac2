//! Decimal text as it appears on the wire: lengths, counts and integers.
use vstd::prelude::*;

verus! {

/// ASCII `0`.
pub const ZERO: u8 = 48;

/// ASCII `-`.
pub const MINUS: u8 = 45;

/// ASCII `+`.
pub const PLUS: u8 = 43;

pub open spec fn is_digit(c: u8) -> bool {
    ZERO <= c <= ZERO + 9
}

pub open spec fn all_digits(s: Seq<u8>) -> bool {
    forall|i: int| 0 <= i < s.len() ==> is_digit(#[trigger] s[i])
}

/// The number that a run of decimal digits spells, most significant first.
pub open spec fn digits_value(s: Seq<u8>) -> nat
    decreases s.len(),
{
    if s.len() == 0 {
        0
    } else {
        digits_value(s.drop_last()) * 10 + (s.last() - ZERO) as nat
    }
}

/// An unsigned decimal: one or more digits, leading zeros allowed.
pub open spec fn parse_nat(s: Seq<u8>) -> Option<nat> {
    if s.len() > 0 && all_digits(s) {
        Some(digits_value(s))
    } else {
        None
    }
}

/// A signed decimal: an optional `+` or `-` and then one or more digits.
pub open spec fn parse_int(s: Seq<u8>) -> Option<int> {
    if s.len() > 0 && s[0] == MINUS {
        match parse_nat(s.drop_first()) {
            Some(n) => Some(-n),
            None => None,
        }
    } else if s.len() > 0 && s[0] == PLUS {
        match parse_nat(s.drop_first()) {
            Some(n) => Some(n as int),
            None => None,
        }
    } else {
        match parse_nat(s) {
            Some(n) => Some(n as int),
            None => None,
        }
    }
}

/// A signed decimal that fits an `i64`.
pub open spec fn parse_i64(s: Seq<u8>) -> Option<int> {
    match parse_int(s) {
        Some(n) => if i64::MIN <= n <= i64::MAX {
            Some(n)
        } else {
            None
        },
        None => None,
    }
}

/// An unsigned decimal with an optional `+` that fits a `u64`.
pub open spec fn parse_u64(s: Seq<u8>) -> Option<nat> {
    match parse_int(s) {
        Some(n) => if 0 <= n <= u64::MAX && !(s.len() > 0 && s[0] == MINUS) {
            Some(n as nat)
        } else {
            None
        },
        None => None,
    }
}

/// The shortest decimal spelling of `n`.
pub open spec fn nat_text(n: nat) -> Seq<u8>
    decreases n,
{
    if n < 10 {
        seq![(ZERO + n) as u8]
    } else {
        nat_text(n / 10) + seq![(ZERO + n % 10) as u8]
    }
}

/// The shortest decimal spelling of `n`, with a `-` before a negative number.
pub open spec fn int_text(n: int) -> Seq<u8> {
    if n < 0 {
        seq![MINUS] + nat_text((-n) as nat)
    } else {
        nat_text(n as nat)
    }
}

pub proof fn lemma_nat_text(n: nat)
    ensures
        nat_text(n).len() > 0,
        all_digits(nat_text(n)),
        digits_value(nat_text(n)) == n,
        parse_nat(nat_text(n)) == Some(n),
    decreases n,
{
    let s = nat_text(n);
    if n >= 10 {
        lemma_nat_text(n / 10);
        assert(s.drop_last() =~= nat_text(n / 10));
        assert(s.last() == (ZERO + n % 10) as u8);
        assert(digits_value(s.drop_last()) == n / 10);
        assert(digits_value(s) == digits_value(s.drop_last()) * 10 + (s.last() - ZERO) as nat);
        assert((n / 10) * 10 + n % 10 == n);
        assert(digits_value(s) == n);
    } else {
        assert(s.drop_last() =~= Seq::<u8>::empty());
        assert(digits_value(s) == digits_value(s.drop_last()) * 10 + (s.last() - ZERO) as nat);
        assert(digits_value(s) == n);
    }
}

pub proof fn lemma_int_text(n: int)
    ensures
        int_text(n).len() > 0,
        parse_int(int_text(n)) == Some(n),
        forall|i: int| 0 <= i < int_text(n).len() ==> (is_digit(#[trigger] int_text(n)[i]) || int_text(n)[i] == MINUS),
{
    if n < 0 {
        lemma_nat_text((-n) as nat);
        assert(int_text(n).drop_first() =~= nat_text((-n) as nat));
    } else {
        lemma_nat_text(n as nat);
    }
}

proof fn lemma_digits_step(s: Seq<u8>, i: int)
    requires
        0 <= i < s.len(),
    ensures
        digits_value(s.subrange(0, i + 1)) == digits_value(s.subrange(0, i)) * 10 + (s[i] - ZERO) as nat,
{
    assert(s.subrange(0, i + 1).drop_last() =~= s.subrange(0, i));
}

/// Reads the digits of `s` from `from` on, saturating at `u128::MAX`.
/// `None` when that part is empty or holds a byte that is not a digit.
pub fn scan_digits(s: &[u8], from: usize) -> (r: Option<u128>)
    requires
        from <= s@.len(),
    ensures
        r is Some <==> parse_nat(s@.subrange(from as int, s@.len() as int)) is Some,
        r matches Some(v) ==> v == if digits_value(s@.subrange(from as int, s@.len() as int))
            <= u128::MAX {
            digits_value(s@.subrange(from as int, s@.len() as int))
        } else {
            u128::MAX as nat
        },
{
    let ghost t = s@.subrange(from as int, s@.len() as int);
    if from == s.len() {
        return None;
    }
    let mut v: u128 = 0;
    let mut i: usize = from;
    while i < s.len()
        invariant
            from <= i <= s@.len(),
            t == s@.subrange(from as int, s@.len() as int),
            all_digits(t.subrange(0, i - from)),
            v == if digits_value(t.subrange(0, i - from)) <= u128::MAX {
                digits_value(t.subrange(0, i - from))
            } else {
                u128::MAX as nat
            },
        decreases s@.len() - i,
    {
        let c = s[i];
        if c < ZERO || c > ZERO + 9 {
            assert(t[i - from] == c);
            assert(!all_digits(t));
            return None;
        }
        let d: u128 = (c - ZERO) as u128;
        proof {
            lemma_digits_step(t, i - from);
        }
        let ghost x = digits_value(t.subrange(0, i - from));
        if v > (u128::MAX - d) / 10 {
            assert(x * 10 + d > u128::MAX) by (nonlinear_arith)
                requires
                    v > (u128::MAX - d) / 10,
                    x >= v,
                    d <= 9,
            ;
            v = u128::MAX;
        } else {
            assert(v * 10 + d <= u128::MAX) by (nonlinear_arith)
                requires
                    v <= (u128::MAX - d) / 10,
                    d <= 9,
            ;
            assert(x <= u128::MAX) by (nonlinear_arith)
                requires
                    v <= (u128::MAX - d) / 10,
                    v == if x <= u128::MAX { x } else { u128::MAX as nat },
                    d <= 9,
            ;
            v = v * 10 + d;
        }
        i = i + 1;
        assert(all_digits(t.subrange(0, i - from))) by {
            assert forall|j: int| 0 <= j < i - from implies is_digit(
                #[trigger] t.subrange(0, i - from)[j],
            ) by {
                if j < i - 1 - from {
                    assert(t.subrange(0, i - from)[j] == t.subrange(0, i - 1 - from)[j]);
                }
            }
        }
    }
    assert(t.subrange(0, i - from) =~= t);
    Some(v)
}

/// Reads a signed decimal that fits an `i64`.
pub fn read_i64(s: &[u8]) -> (r: Option<i64>)
    ensures
        r matches Some(n) ==> parse_i64(s@) == Some(n as int),
        r is None ==> parse_i64(s@) is None,
{
    if s.len() == 0 {
        return None;
    }
    let negative = s[0] == MINUS;
    let from: usize = if s[0] == MINUS || s[0] == PLUS {
        1
    } else {
        0
    };
    assert(from == 1 ==> s@.drop_first() =~= s@.subrange(1, s@.len() as int));
    assert(from == 0 ==> s@ =~= s@.subrange(0, s@.len() as int));
    match scan_digits(s, from) {
        None => None,
        Some(v) => {
            if negative {
                if v <= 9223372036854775807 {
                    Some(-(v as i64))
                } else if v == 9223372036854775808u128 {
                    Some(i64::MIN)
                } else {
                    None
                }
            } else if v <= 9223372036854775807 {
                Some(v as i64)
            } else {
                None
            }
        },
    }
}

/// Reads an unsigned decimal, with an optional `+`, that fits a `u64`.
pub fn read_u64(s: &[u8]) -> (r: Option<u64>)
    ensures
        r matches Some(n) ==> parse_u64(s@) == Some(n as nat),
        r is None ==> parse_u64(s@) is None,
{
    if s.len() == 0 || s[0] == MINUS {
        return None;
    }
    let from: usize = if s[0] == PLUS {
        1
    } else {
        0
    };
    assert(from == 1 ==> s@.drop_first() =~= s@.subrange(1, s@.len() as int));
    assert(from == 0 ==> s@ =~= s@.subrange(0, s@.len() as int));
    match scan_digits(s, from) {
        None => None,
        Some(v) => {
            if v <= u64::MAX as u128 {
                Some(v as u64)
            } else {
                None
            }
        },
    }
}

/// Appends the decimal spelling of `n`.
pub fn push_nat_text(out: &mut Vec<u8>, n: u64)
    ensures
        final(out)@ == old(out)@ + nat_text(n as nat),
    decreases n,
{
    if n >= 10 {
        push_nat_text(out, n / 10);
    }
    out.push(ZERO + (n % 10) as u8);
    assert(out@ =~= old(out)@ + nat_text(n as nat));
}

/// Appends the decimal spelling of `n`, with `-` for a negative number.
pub fn push_int_text(out: &mut Vec<u8>, n: i64)
    ensures
        final(out)@ == old(out)@ + int_text(n as int),
{
    if n < 0 {
        out.push(MINUS);
        let m: u64 = ((-(n + 1)) as u64) + 1;
        push_nat_text(out, m);
        assert(out@ =~= old(out)@ + int_text(n as int));
    } else {
        push_nat_text(out, n as u64);
    }
}

} // verus!
