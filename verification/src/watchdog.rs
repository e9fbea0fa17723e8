//! The watchdog's time limit. The overlay grabs the keyboard and covers every
//! screen; should the event loop hang, the desktop would be unusable, so the
//! process is killed after a time limit, which the environment may override.
use vstd::prelude::*;
use vstd::arithmetic::power::pow;

verus! {

/// The default time limit, in seconds.
pub const WATCHDOG_SECS: u64 = 60;

/// Every character of `s` is an ASCII decimal digit ('0' is code 48, '9' 57).
pub open spec fn all_digits(s: Seq<char>) -> bool {
    forall|i: int| 0 <= i < s.len() ==> 48 <= #[trigger] (s[i] as u32) <= 57
}

/// The number that the decimal digits `s` write.
pub open spec fn decimal_value(s: Seq<char>) -> nat
    decreases s.len(),
{
    if s.len() == 0 {
        0
    } else {
        decimal_value(s.drop_last()) * 10 + (s.last() as u32 - 48) as nat
    }
}

/// What `u64`'s `FromStr` accepts: an optional `+` followed by one or more
/// decimal digits, with nothing before or after, whose value fits in a `u64`.
pub open spec fn parsed_u64(s: Seq<char>) -> Option<u64> {
    let d = if s.len() > 0 && s[0] == '+' {
        s.drop_first()
    } else {
        s
    };
    if d.len() > 0 && all_digits(d) && decimal_value(d) <= u64::MAX {
        Some(decimal_value(d) as u64)
    } else {
        None
    }
}

/// Appending a digit multiplies by ten and adds it.
proof fn lemma_decimal_push(p: Seq<char>, c: char)
    ensures
        decimal_value(p.push(c)) == decimal_value(p) * 10 + (c as u32 - 48) as nat,
{
    assert(p.push(c).drop_last() =~= p);
}

/// A run of digits is worth at least any of its prefixes, and a prefix of a
/// run of digits is one.
proof fn lemma_decimal_prefix(s: Seq<char>, n: int)
    requires
        0 <= n <= s.len(),
        all_digits(s),
    ensures
        all_digits(s.subrange(0, n)),
        decimal_value(s.subrange(0, n)) <= decimal_value(s),
    decreases s.len() - n,
{
    if n < s.len() {
        lemma_decimal_prefix(s, n + 1);
        assert(s.subrange(0, n + 1) =~= s.subrange(0, n).push(s[n]));
        lemma_decimal_push(s.subrange(0, n), s[n]);
    } else {
        assert(s.subrange(0, n) =~= s);
    }
}

/// Law: decimal notation is positional. The digits `a` followed by the
/// digits `b` write `a`'s number shifted left by `b`'s length, plus `b`'s.
pub proof fn lemma_decimal_concat(a: Seq<char>, b: Seq<char>)
    ensures
        decimal_value(a + b) == decimal_value(a) * pow(10, b.len()) + decimal_value(b),
    decreases b.len(),
{
    reveal(pow);
    if b.len() == 0 {
        assert(a + b =~= a);
        assert(pow(10, 0) == 1);
        assert(decimal_value(b) == 0);
    } else {
        let b0 = b.drop_last();
        lemma_decimal_concat(a, b0);
        assert((a + b).drop_last() =~= a + b0);
        assert((a + b).last() == b.last());
        let da = decimal_value(a) as int;
        let db0 = decimal_value(b0) as int;
        let p = pow(10, b0.len());
        assert(pow(10, b.len()) == 10 * p);
        assert((da * p + db0) * 10 == da * (10 * p) + db0 * 10) by (nonlinear_arith);
        assert(decimal_value(a + b) == decimal_value(a + b0) * 10 + (b.last() as u32 - 48) as nat);
        assert(decimal_value(b) == db0 * 10 + (b.last() as u32 - 48) as nat);
    }
}

/// Law: leading zeros do not change a number.
pub proof fn lemma_leading_zero(s: Seq<char>)
    ensures
        decimal_value(seq!['0'] + s) == decimal_value(s),
{
    let z = seq!['0'];
    lemma_decimal_concat(z, s);
    assert(z.drop_last() =~= Seq::<char>::empty());
    assert(z.last() as u32 == 48);
    assert(decimal_value(z.drop_last()) == 0);
    assert(decimal_value(z) == 0);
    assert(pow(10, s.len()) * 0 == 0) by (nonlinear_arith);
}

/// Parses a decimal `u64` as `str::parse::<u64>` does: an optional `+`
/// followed by one or more decimal digits, nothing else, and a value that
/// fits (see `parsed_u64`).
fn parse_u64(s: &str) -> (r: Option<u64>)
    ensures
        r == parsed_u64(s@),
{
    let ghost t = s@;
    let mut value: u64 = 0;
    let mut seen = false;
    let mut ok = true;
    let mut plus = false;
    let mut first = true;
    let ghost mut i: int = 0;
    for ch in it: s.chars()
        invariant
            it.seq() == t,
            t == s@,
            i == it.index(),
            0 <= i <= t.len(),
            first == (i == 0),
            i == 0 ==> ok && !plus && value == 0,
            plus ==> t.len() > 0 && t[0] == '+',
            !plus && i > 0 ==> !(t[0] == '+'),
            ok ==> ({
                let d = if plus {
                    t.subrange(1, i)
                } else {
                    t.subrange(0, i)
                };
                &&& all_digits(d)
                &&& value == decimal_value(d)
                &&& seen == (d.len() > 0)
            }),
            !ok ==> ({
                let d = if plus {
                    t.subrange(1, i)
                } else {
                    t.subrange(0, i)
                };
                !all_digits(d) || decimal_value(d) > u64::MAX
            }),
    {
        let ghost d_old = if plus {
            t.subrange(1, i)
        } else {
            t.subrange(0, i)
        };
        let c = ch as u32;
        assert(ch == t[i]);
        if first && ch == '+' {
            plus = true;
            assert(t.subrange(1, 1).len() == 0);
        } else if ok && 48 <= c && c <= 57 {
            let dig = (c - 48) as u64;
            proof {
                assert(d_old.push(ch) =~= if plus {
                    t.subrange(1, i + 1)
                } else {
                    t.subrange(0, i + 1)
                });
                lemma_decimal_push(d_old, ch);
                assert forall|k: int| 0 <= k < d_old.push(ch).len() implies 48 <= #[trigger] (d_old.push(
                    ch,
                )[k] as u32) <= 57 by {
                    if k < d_old.len() {
                        assert(d_old.push(ch)[k] == d_old[k]);
                    }
                }
            }
            if value > (u64::MAX - dig) / 10 {
                assert(value * 10 + dig > u64::MAX) by (nonlinear_arith)
                    requires
                        value > (u64::MAX - dig) / 10,
                        dig <= 9,
                ;
                ok = false;
            } else {
                assert(value * 10 + dig <= u64::MAX) by (nonlinear_arith)
                    requires
                        value <= (u64::MAX - dig) / 10,
                        dig <= 9,
                ;
                value = value * 10 + dig;
                seen = true;
            }
        } else {
            proof {
                let d_new = if plus {
                    t.subrange(1, i + 1)
                } else {
                    t.subrange(0, i + 1)
                };
                assert(d_new =~= d_old.push(ch));
                if ok {
                    assert(!(48 <= (d_new[d_new.len() - 1] as u32) <= 57));
                } else if all_digits(d_new) {
                    lemma_decimal_prefix(d_new, d_old.len() as int);
                    assert(d_new.subrange(0, d_old.len() as int) =~= d_old);
                }
            }
            ok = false;
        }
        first = false;
        proof {
            i = i + 1;
        }
    }
    proof {
        let d = if plus {
            t.subrange(1, i)
        } else {
            t.subrange(0, i)
        };
        assert(d =~= if t.len() > 0 && t[0] == '+' {
            t.drop_first()
        } else {
            t
        });
    }
    if ok && seen {
        Some(value)
    } else {
        None
    }
}

/// The watchdog's time limit, in seconds, from the value of its environment
/// variable, if set: that value when it is a decimal `u64`, otherwise the
/// default `WATCHDOG_SECS`.
pub fn timeout_secs(v: Option<&str>) -> (r: u64)
    ensures
        r == match v {
            Some(s) => match parsed_u64(s@) {
                Some(n) => n,
                None => WATCHDOG_SECS,
            },
            None => WATCHDOG_SECS,
        },
{
    match v {
        Some(s) => match parse_u64(s) {
            Some(n) => n,
            None => WATCHDOG_SECS,
        },
        None => WATCHDOG_SECS,
    }
}

} // verus!
