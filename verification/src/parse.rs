//! Reading the client's move line: after trimming ASCII whitespace, a line
//! of decimal digits names a number; anything else is rejected.

use vstd::prelude::*;

verus! {

/// ASCII whitespace, as it is trimmed from a move line.
pub open spec fn is_space(b: u8) -> bool {
    b == 32 || b == 9 || b == 10 || b == 13
}

/// The line with leading and trailing ASCII whitespace removed.
pub open spec fn trimmed(s: Seq<u8>) -> Seq<u8>
    decreases s.len(),
{
    if s.len() == 0 {
        s
    } else if is_space(s[0]) {
        trimmed(s.drop_first())
    } else if is_space(s.last()) {
        trimmed(s.drop_last())
    } else {
        s
    }
}

/// Every byte is a decimal digit.
pub open spec fn all_digits(s: Seq<u8>) -> bool {
    forall|i: int| 0 <= i < s.len() ==> 48 <= #[trigger] s[i] <= 57
}

/// The number written in decimal by a sequence of digit bytes.
pub open spec fn digits_val(s: Seq<u8>) -> nat
    decreases s.len(),
{
    if s.len() == 0 {
        0
    } else {
        (digits_val(s.drop_last()) * 10 + (s.last() - 48)) as nat
    }
}

/// What a move line names: a number exactly when the trimmed line is one or
/// more decimal digits whose value fits in a `u64`.
pub open spec fn parsed(s: Seq<u8>) -> Option<u64> {
    let t = trimmed(s);
    if t.len() > 0 && all_digits(t) && digits_val(t) <= u64::MAX {
        Some(digits_val(t) as u64)
    } else {
        None
    }
}

/// A digit string writes at least the number any of its prefixes writes.
proof fn lemma_digits_val_prefix(s: Seq<u8>, i: int)
    requires
        0 <= i <= s.len(),
        all_digits(s),
    ensures
        digits_val(s.subrange(0, i)) <= digits_val(s),
    decreases s.len() - i,
{
    if i == s.len() {
        assert(s.subrange(0, i) =~= s);
    } else {
        lemma_digits_val_prefix(s, i + 1);
        assert(s.subrange(0, i + 1).drop_last() =~= s.subrange(0, i));
        assert(s.subrange(0, i + 1).last() == s[i]);
        assert(digits_val(s.subrange(0, i + 1)) == digits_val(s.subrange(0, i)) * 10 + (s[i]
            - 48));
        assert(digits_val(s.subrange(0, i)) <= digits_val(s.subrange(0, i)) * 10);
    }
}

/// Reads a move line.  The number is returned exactly when the line,
/// trimmed of ASCII whitespace, is one or more decimal digits whose value
/// fits in a `u64`.
#[verifier::loop_isolation(false)]
pub fn parse_move(line: &[u8]) -> (r: Option<u64>)
    ensures
        r == parsed(line@),
{
    proof {
        assert(line@.subrange(0, line@.len() as int) =~= line@);
    }
    let mut lo: usize = 0;
    let mut hi: usize = line.len();
    while lo < hi && (line[lo] == 32 || line[lo] == 9 || line[lo] == 10 || line[lo] == 13)
        invariant
            lo <= hi <= line@.len(),
            trimmed(line@) == trimmed(line@.subrange(lo as int, hi as int)),
        decreases hi - lo,
    {
        proof {
            let u = line@.subrange(lo as int, hi as int);
            assert(is_space(u[0]));
            assert(u.drop_first() =~= line@.subrange(lo + 1 as int, hi as int));
        }
        lo += 1;
    }
    while lo < hi && (line[hi - 1] == 32 || line[hi - 1] == 9 || line[hi - 1] == 10 || line[hi - 1]
        == 13)
        invariant
            lo <= hi <= line@.len(),
            trimmed(line@) == trimmed(line@.subrange(lo as int, hi as int)),
            lo < hi ==> !is_space(line@[lo as int]),
        decreases hi,
    {
        proof {
            let u = line@.subrange(lo as int, hi as int);
            assert(!is_space(u[0]));
            assert(is_space(u.last()));
            assert(u.drop_last() =~= line@.subrange(lo as int, hi - 1 as int));
        }
        hi -= 1;
    }
    let ghost t = line@.subrange(lo as int, hi as int);
    proof {
        if lo < hi {
            assert(!is_space(t[0]));
            assert(!is_space(t.last()));
        }
        assert(trimmed(t) == t);
        assert(trimmed(line@) == t);
    }
    if lo == hi {
        return None;
    }
    let mut acc: u64 = 0;
    let mut i: usize = lo;
    while i < hi
        invariant
            lo <= i <= hi,
            acc == digits_val(line@.subrange(lo as int, i as int)),
            all_digits(line@.subrange(lo as int, i as int)),
        decreases hi - i,
    {
        let b = line[i];
        if b < 48 || b > 57 {
            proof {
                assert(t[i - lo] == b);
                assert(!all_digits(t));
            }
            return None;
        }
        let d: u64 = (b - 48) as u64;
        let ghost p = line@.subrange(lo as int, i as int);
        let ghost p1 = line@.subrange(lo as int, i + 1 as int);
        proof {
            assert(p1.drop_last() =~= p);
            assert(p1.last() == b);
            assert(digits_val(p1) == acc * 10 + d);
            assert forall|j: int| 0 <= j < p1.len() implies 48 <= #[trigger] p1[j] <= 57 by {
                if j < p.len() {
                    assert(p1[j] == p[j]);
                }
            };
        }
        if acc > (u64::MAX - d) / 10 {
            proof {
                assert(acc * 10 + d > u64::MAX) by (nonlinear_arith)
                    requires
                        acc > (u64::MAX - d) / 10,
                        0 <= d <= 9,
                ;
                if all_digits(t) {
                    assert(t.subrange(0, i + 1 - lo) =~= p1);
                    lemma_digits_val_prefix(t, i + 1 - lo);
                    assert(digits_val(t) > u64::MAX);
                }
            }
            return None;
        }
        proof {
            assert(acc * 10 + d <= u64::MAX) by (nonlinear_arith)
                requires
                    acc <= (u64::MAX - d) / 10,
                    0 <= d <= 9,
            ;
        }
        acc = acc * 10 + d;
        i += 1;
    }
    proof {
        assert(line@.subrange(lo as int, i as int) == t);
        assert(parsed(line@) == Some(acc));
    }
    Some(acc)
}

} // verus!
