use vstd::prelude::*;

use crate::text::{decimal, digit_char};

verus! {

/// Value of the digit `c` in base `radix` (digits 0-9, then letters in either case).
pub open spec fn digit_value(c: char, radix: nat) -> Option<nat> {
    let v = c as u32;
    let d: int = if 48 <= v <= 57 {
        v - 48
    } else if 97 <= v <= 122 {
        v - 97 + 10
    } else if 65 <= v <= 90 {
        v - 65 + 10
    } else {
        radix as int
    };
    if d < radix {
        Some(d as nat)
    } else {
        None
    }
}

/// Value of the digits `s` in base `radix`, when all are digits.
pub open spec fn digits_value(s: Seq<char>, radix: nat) -> Option<nat>
    decreases s.len(),
{
    if s.len() == 0 {
        Some(0)
    } else {
        match (digits_value(s.drop_last(), radix), digit_value(s.last(), radix)) {
            (Some(v), Some(d)) => Some(v * radix + d),
            _ => None,
        }
    }
}

/// What Rust's integer parsing (`from_str_radix`) gives for `s` in base `radix`, for an
/// integer type ranging from `lo` to `hi`: an optional sign (`-` only when `lo` is negative),
/// then at least one digit, and a value within range.
pub open spec fn parse_integer_spec(s: Seq<char>, radix: nat, lo: int, hi: int) -> Option<int> {
    if s.len() == 0 {
        None
    } else {
        let neg = s[0] == '-' && lo < 0;
        let body = if s[0] == '+' || neg {
            s.drop_first()
        } else {
            s
        };
        if body.len() == 0 {
            None
        } else {
            match digits_value(body, radix) {
                Some(v) => {
                    let x = if neg {
                        -v
                    } else {
                        v as int
                    };
                    if lo <= x <= hi {
                        Some(x)
                    } else {
                        None
                    }
                },
                None => None,
            }
        }
    }
}

proof fn lemma_digits_grow(s: Seq<char>, radix: nat, k: int)
    requires
        2 <= radix,
        0 <= k <= s.len(),
        digits_value(s, radix) is Some,
    ensures
        digits_value(s.take(k), radix) is Some,
        digits_value(s.take(k), radix).unwrap() <= digits_value(s, radix).unwrap(),
    decreases s.len() - k,
{
    if k == s.len() {
        assert(s.take(k) =~= s);
    } else {
        let t = s.drop_last();
        assert(t.take(k) =~= s.take(k));
        lemma_digits_grow(t, radix, k);
        let v = digits_value(t, radix).unwrap();
        let d = digit_value(s.last(), radix).unwrap();
        assert(v <= v * radix + d) by (nonlinear_arith)
            requires
                2 <= radix,
        ;
    }
}

/// Value of a digit character in base `radix`.
pub fn digit_value_exec(c: char, radix: u32) -> (r: Option<u32>)
    requires
        2 <= radix <= 36,
    ensures
        r matches Some(d) ==> digit_value(c, radix as nat) == Some(d as nat),
        r is None ==> digit_value(c, radix as nat) is None,
{
    let v = c as u32;
    let d: u32 = if 48 <= v && v <= 57 {
        v - 48
    } else if 97 <= v && v <= 122 {
        v - 97 + 10
    } else if 65 <= v && v <= 90 {
        v - 65 + 10
    } else {
        radix
    };
    if d < radix {
        Some(d)
    } else {
        None
    }
}

/// Parses `s` as Rust's `from_str_radix` does for an integer type ranging from `lo` to `hi`.
pub fn parse_integer(s: &[char], radix: u32, lo: i128, hi: i128) -> (r: Option<i128>)
    requires
        2 <= radix <= 36,
        lo <= 0 <= hi,
        hi <= u64::MAX,
        -(u64::MAX as int) <= lo,
    ensures
        r matches Some(x) ==> parse_integer_spec(s@, radix as nat, lo as int, hi as int) == Some(
            x as int,
        ),
        r is None ==> parse_integer_spec(s@, radix as nat, lo as int, hi as int) is None,
{
    if s.len() == 0 {
        return None;
    }
    let neg = s[0] == '-' && lo < 0;
    let start: usize = if s[0] == '+' || neg {
        1
    } else {
        0
    };
    if start == s.len() {
        return None;
    }
    let ghost body = s@.skip(start as int);
    assert(start == 1 ==> body =~= s@.drop_first());
    assert(start == 0 ==> body =~= s@);
    let bound: i128 = if neg {
        -lo
    } else {
        hi
    };
    let mut value: i128 = 0;
    let mut i: usize = start;
    assert(body.take(0) =~= Seq::<char>::empty());
    while i < s.len()
        invariant
            start <= i <= s@.len(),
            body == s@.skip(start as int),
            s@.len() > 0,
            neg == (s@[0] == '-' && lo < 0),
            start == (if s@[0] == '+' || neg { 1usize } else { 0usize }),
            start == 1 ==> body == s@.drop_first(),
            start == 0 ==> body == s@,
            bound == (if neg { -lo } else { hi as int }),
            lo <= 0 <= hi,
            2 <= radix <= 36,
            0 <= bound <= u64::MAX,
            0 <= value <= bound,
            digits_value(body.take(i - start), radix as nat) == Some(value as nat),
        decreases s.len() - i,
    {
        let d = match digit_value_exec(s[i], radix) {
            Some(d) => d,
            None => {
                proof {
                    let t = body.take(i - start + 1);
                    assert(t.last() == s@[i as int]);
                    assert(t.drop_last() =~= body.take(i - start));
                    assert(digits_value(t, radix as nat) is None);
                    if digits_value(body, radix as nat) is Some {
                        lemma_digits_grow(body, radix as nat, i - start + 1);
                    }
                }
                return None;
            },
        };
        assert(value * radix + d <= (u64::MAX as int) * 36 + 35) by (nonlinear_arith)
            requires
                0 <= value <= u64::MAX,
                radix <= 36,
                d < 36,
        ;
        let next: i128 = value * (radix as i128) + (d as i128);
        proof {
            let t = body.take(i - start + 1);
            assert(t.last() == s@[i as int]);
            assert(t.drop_last() =~= body.take(i - start));
            assert(digits_value(t, radix as nat) == Some(next as nat));
        }
        if next > bound {
            proof {
                if digits_value(body, radix as nat) is Some {
                    lemma_digits_grow(body, radix as nat, i - start + 1);
                    assert(body.take(body.len() as int) =~= body);
                    lemma_digits_grow(body, radix as nat, body.len() as int);
                }
            }
            return None;
        }
        value = next;
        i += 1;
    }
    assert(body.take(i - start) =~= body);
    if neg {
        Some(-value)
    } else {
        Some(value)
    }
}

/// The decimal notation of `n` is made of digits, and reads back as `n`.
pub proof fn lemma_decimal_reads_back(n: nat)
    ensures
        decimal(n).len() >= 1,
        forall|i: int| 0 <= i < decimal(n).len() ==> '0' <= #[trigger] decimal(n)[i] <= '9',
        digits_value(decimal(n), 10) == Some(n),
        n <= usize::MAX ==> parse_integer_spec(decimal(n), 10, 0, usize::MAX as int) == Some(n as int),
    decreases n,
{
    let d = n % 10;
    let c = digit_char(d);
    assert((c as u32) == d + 48);
    assert(digit_value(c, 10) == Some(d));
    if n < 10 {
        assert(decimal(n) =~= seq![c]);
        assert(seq![c].drop_last() =~= Seq::<char>::empty());
        assert(digits_value(Seq::<char>::empty(), 10) == Some(0nat));
    } else {
        lemma_decimal_reads_back(n / 10);
        let s = decimal(n / 10);
        assert(decimal(n) == s.push(c));
        assert(s.push(c).drop_last() =~= s);
        assert(n == (n / 10) * 10 + d);
        assert forall|i: int| 0 <= i < decimal(n).len() implies '0' <= #[trigger] decimal(n)[i] <= '9' by {
            if i < s.len() {
                assert(decimal(n)[i] == s[i]);
            }
        }
    }
    let t = decimal(n);
    assert(t[0] != '+' && t[0] != '-');
}

} // verus!
