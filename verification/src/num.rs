use vstd::prelude::*;

verus! {

use vstd::arithmetic::div_mod::lemma_fundamental_div_mod;

/// Decimal digit bytes of `n`, most significant digit first.
pub open spec fn dec_digits(n: nat) -> Seq<u8>
    decreases n,
{
    if n < 10 {
        seq![(48 + n) as u8]
    } else {
        dec_digits(n / 10).push((48 + n % 10) as u8)
    }
}

pub open spec fn is_digit(b: u8) -> bool {
    48 <= b <= 57
}

pub open spec fn all_digits(s: Seq<u8>) -> bool {
    forall|i: int| 0 <= i < s.len() ==> is_digit(#[trigger] s[i])
}

/// Numeric value of a string of decimal digit bytes.
pub open spec fn dec_val(s: Seq<u8>) -> int
    decreases s.len(),
{
    if s.len() == 0 {
        0
    } else {
        dec_val(s.drop_last()) * 10 + (s.last() - 48)
    }
}

pub proof fn lemma_dec_digits_shape(n: nat)
    ensures
        dec_digits(n).len() >= 1,
        all_digits(dec_digits(n)),
    decreases n,
{
    if n >= 10 {
        lemma_dec_digits_shape(n / 10);
        assert forall|i: int| 0 <= i < dec_digits(n).len() implies is_digit(
            #[trigger] dec_digits(n)[i],
        ) by {
            if i < dec_digits(n).len() - 1 {
                assert(dec_digits(n)[i] == dec_digits(n / 10)[i]);
            }
        }
    }
}

pub proof fn lemma_dec_val_of_digits(n: nat)
    ensures
        dec_val(dec_digits(n)) == n,
    decreases n,
{
    if n < 10 {
        let s = dec_digits(n);
        assert(s == seq![(48 + n) as u8]);
        assert(s.drop_last() =~= Seq::<u8>::empty());
        assert(s.last() == (48 + n) as u8);
        assert(dec_val(s) == dec_val(s.drop_last()) * 10 + (s.last() - 48));
        assert(dec_val(s.drop_last()) == 0);
    } else {
        lemma_dec_val_of_digits(n / 10);
        let s = dec_digits(n);
        assert(s.drop_last() =~= dec_digits(n / 10));
        assert(s.last() == (48 + n % 10) as u8);
        lemma_fundamental_div_mod(n as int, 10);
    }
}

pub proof fn lemma_dec_val_nonneg(s: Seq<u8>)
    requires
        all_digits(s),
    ensures
        dec_val(s) >= 0,
    decreases s.len(),
{
    if s.len() > 0 {
        assert(all_digits(s.drop_last()));
        lemma_dec_val_nonneg(s.drop_last());
    }
}

/// Extending a digit string to the right can only grow its value.
pub proof fn lemma_dec_val_prefix(s: Seq<u8>, n: int)
    requires
        all_digits(s),
        0 <= n <= s.len(),
    ensures
        dec_val(s) >= dec_val(s.take(n)),
    decreases s.len() - n,
{
    if n == s.len() {
        assert(s.take(n) =~= s);
    } else {
        lemma_dec_val_prefix(s, n + 1);
        let p = s.take(n + 1);
        assert(p.drop_last() =~= s.take(n));
        assert(all_digits(p.drop_last()));
        lemma_dec_val_nonneg(s.take(n));
        assert(dec_val(p) == dec_val(s.take(n)) * 10 + (p.last() - 48));
        assert(is_digit(s[n]));
    }
}

/// Appends the decimal digits of `n` to `out`.
pub fn push_dec_u128(out: &mut Vec<u8>, n: u128)
    ensures
        final(out)@ == old(out)@ + dec_digits(n as nat),
{
    let mut buf: Vec<u8> = Vec::new();
    let mut m: u128 = n;
    loop
        invariant_except_break
            m == 0 ==> buf@.len() == 0 && n == 0,
            m > 0 ==> dec_digits(n as nat) == dec_digits(m as nat) + buf@,
        ensures
            buf@ == dec_digits(n as nat),
        decreases m,
    {
        let d: u8 = (m % 10) as u8 + 48;
        proof {
            if m >= 10 {
                assert(dec_digits(m as nat) == dec_digits((m as nat) / 10).push(
                    (48 + (m as nat) % 10) as u8,
                ));
                assert(dec_digits((m as nat) / 10).push((48 + (m as nat) % 10) as u8)
                    =~= dec_digits((m as nat) / 10) + seq![(48 + (m as nat) % 10) as u8]);
                assert(dec_digits(m as nat) + buf@ =~= dec_digits((m as nat) / 10) + (seq![d]
                    + buf@));
            } else {
                assert(dec_digits(m as nat) =~= seq![d]);
            }
        }
        buf.insert(0, d);
        m = m / 10;
        if m == 0 {
            break;
        }
    }
    out.append(&mut buf);
}

/// Parses an unsigned decimal number that must fit in `u32`.
pub fn parse_u32_dec(s: &Vec<u8>) -> (r: Option<u32>)
    ensures
        match r {
            Some(v) => s@.len() >= 1 && all_digits(s@) && dec_val(s@) == v as int,
            None => s@.len() == 0 || !all_digits(s@) || dec_val(s@) > u32::MAX,
        },
{
    if s.len() == 0 {
        return None;
    }
    let mut acc: u64 = 0;
    let mut i: usize = 0;
    while i < s.len()
        invariant
            0 <= i <= s@.len(),
            s@.len() >= 1,
            all_digits(s@.take(i as int)),
            acc <= u32::MAX,
            acc as int == dec_val(s@.take(i as int)),
        decreases s@.len() - i,
    {
        let b = s[i];
        if b < 48 || b > 57 {
            assert(!is_digit(s@[i as int]));
            return None;
        }
        proof {
            assert(s@.take(i + 1).drop_last() =~= s@.take(i as int));
            assert(s@.take(i + 1).last() == s@[i as int]);
        }
        acc = acc * 10 + (b - 48) as u64;
        i = i + 1;
        if acc > u32::MAX as u64 {
            proof {
                if all_digits(s@) {
                    lemma_dec_val_prefix(s@, i as int);
                    assert(s@.take(s@.len() as int) =~= s@);
                }
            }
            return None;
        }
    }
    proof {
        assert(s@.take(s@.len() as int) =~= s@);
    }
    Some(acc as u32)
}

/// Value denoted by an optionally signed decimal string, if it fits in `i64`.
pub open spec fn i64_dec_spec(s: Seq<u8>) -> Option<int> {
    let signed = s.len() >= 1 && (s[0] == 43 || s[0] == 45);
    let body = if signed {
        s.skip(1)
    } else {
        s
    };
    let neg = s.len() >= 1 && s[0] == 45;
    if body.len() >= 1 && all_digits(body) {
        let v = if neg {
            -dec_val(body)
        } else {
            dec_val(body)
        };
        if i64::MIN <= v <= i64::MAX {
            Some(v)
        } else {
            None
        }
    } else {
        None
    }
}

/// Parses an optionally signed decimal number that must fit in `i64`.
pub fn parse_i64_dec(s: &Vec<u8>) -> (r: Option<i64>)
    ensures
        match r {
            Some(v) => i64_dec_spec(s@) == Some(v as int),
            None => i64_dec_spec(s@) is None,
        },
{
    if s.len() == 0 {
        return None;
    }
    let b0 = s[0];
    let signed = b0 == 43 || b0 == 45;
    let neg = b0 == 45;
    let start: usize = if signed {
        1
    } else {
        0
    };
    let ghost body = if signed {
        s@.skip(1)
    } else {
        s@
    };
    proof {
        assert(s@.skip(0) =~= s@);
    }
    if s.len() == start {
        return None;
    }
    let bound: u128 = 0x8000_0000_0000_0000;
    let mut acc: u128 = 0;
    let mut i: usize = start;
    while i < s.len()
        invariant
            start <= i <= s@.len(),
            start == if signed {
                1int
            } else {
                0int
            },
            body == s@.skip(start as int),
            s@.len() > start,
            signed == (s@[0] == 43 || s@[0] == 45),
            neg == (s@[0] == 45),
            all_digits(body.take(i - start)),
            acc <= bound,
            bound == 0x8000_0000_0000_0000,
            acc as int == dec_val(body.take(i - start)),
        decreases s@.len() - i,
    {
        let b = s[i];
        if b < 48 || b > 57 {
            assert(body[i - start] == s@[i as int]);
            assert(!is_digit(body[i - start]));
            return None;
        }
        proof {
            assert(body.take(i - start + 1).drop_last() =~= body.take(i - start));
            assert(body.take(i - start + 1).last() == body[i - start]);
            assert(body[i - start] == s@[i as int]);
        }
        acc = acc * 10 + (b - 48) as u128;
        i = i + 1;
        if acc > bound {
            proof {
                assert(acc as int == dec_val(body.take(i - start)));
                if all_digits(body) {
                    assert(all_digits(body.take(i - start)));
                    lemma_dec_val_prefix(body, i - start);
                    assert(body.take(body.len() as int) =~= body);
                    assert(dec_val(body) > 0x8000_0000_0000_0000);
                    assert(i64_dec_spec(s@) is None) by {
                        let bb = if s@.len() >= 1 && (s@[0] == 43 || s@[0] == 45) {
                            s@.skip(1)
                        } else {
                            s@
                        };
                        assert(bb == body);
                        assert(bb.len() >= 1 && all_digits(bb));
                        let v = if s@.len() >= 1 && s@[0] == 45 {
                            -dec_val(bb)
                        } else {
                            dec_val(bb)
                        };
                        assert(!(i64::MIN <= v <= i64::MAX));
                    }
                } else {
                    assert(i64_dec_spec(s@) is None);
                }
            }
            return None;
        }
    }
    proof {
        assert(body.take(body.len() as int) =~= body);
    }
    if neg {
        if acc == bound {
            Some(i64::MIN)
        } else {
            Some(-((acc as i64)))
        }
    } else {
        if acc == bound {
            None
        } else {
            Some(acc as i64)
        }
    }
}

} // verus!
