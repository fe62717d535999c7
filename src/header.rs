//! The header line of the maze input: `width,height`.
use vstd::prelude::*;

verus! {

/// ASCII white space: space, tab, line feed, carriage return.
pub open spec fn is_space(b: u8) -> bool {
    b == 32 || b == 9 || b == 10 || b == 13
}

pub open spec fn is_digit(b: u8) -> bool {
    48 <= b <= 57
}

/// `s` is a non-empty run of decimal digits.
pub open spec fn all_digits(s: Seq<u8>) -> bool {
    s.len() > 0 && forall|i: int| 0 <= i < s.len() ==> is_digit(#[trigger] s[i])
}

/// Value of a run of decimal digits.
pub open spec fn decimal(s: Seq<u8>) -> nat
    decreases s.len(),
{
    if s.len() == 0 {
        0
    } else {
        decimal(s.drop_last()) * 10 + (s.last() - 48) as nat
    }
}

/// `s` without its leading white space.
pub open spec fn trim_start(s: Seq<u8>) -> Seq<u8>
    decreases s.len(),
{
    if s.len() > 0 && is_space(s[0]) {
        trim_start(s.drop_first())
    } else {
        s
    }
}

/// `s` without its trailing white space.
pub open spec fn trim_end(s: Seq<u8>) -> Seq<u8>
    decreases s.len(),
{
    if s.len() > 0 && is_space(s.last()) {
        trim_end(s.drop_last())
    } else {
        s
    }
}

/// `s` without white space at either end.
pub open spec fn trim(s: Seq<u8>) -> Seq<u8> {
    trim_end(trim_start(s))
}

/// `t` is two runs of digits joined by the comma at `k`.
pub open spec fn shape_at(t: Seq<u8>, k: int) -> bool {
    &&& 0 <= k < t.len()
    &&& t[k] == 44
    &&& all_digits(t.subrange(0, k))
    &&& all_digits(t.subrange(k + 1, t.len() as int))
}

/// Value of the digits before position `k`.
pub open spec fn first_value(t: Seq<u8>, k: int) -> nat {
    decimal(t.subrange(0, k))
}

/// Value of the digits after position `k`.
pub open spec fn second_value(t: Seq<u8>, k: int) -> nat {
    decimal(t.subrange(k + 1, t.len() as int))
}

/// `r` is what the trimmed header line `t` says: the two numbers where it
/// has the shape of a header and both fit, None where it does not.
pub open spec fn reads_as(t: Seq<u8>, r: Option<(usize, usize)>) -> bool {
    match r {
        Some(p) => exists|k: int|
            #[trigger] shape_at(t, k) && first_value(t, k) == p.0 && second_value(t, k) == p.1,
        None => forall|k: int|
            #[trigger] shape_at(t, k) ==> first_value(t, k) > usize::MAX || second_value(t, k)
                > usize::MAX,
    }
}

proof fn lemma_trim_start_suffix(s: Seq<u8>, lo: int)
    requires
        0 <= lo <= s.len(),
        forall|i: int| 0 <= i < lo ==> is_space(#[trigger] s[i]),
        lo == s.len() || !is_space(s[lo]),
    ensures
        trim_start(s) == s.subrange(lo, s.len() as int),
    decreases lo,
{
    if lo > 0 {
        let s1 = s.drop_first();
        assert forall|i: int| 0 <= i < lo - 1 implies is_space(#[trigger] s1[i]) by {
            assert(s1[i] == s[i + 1]);
        }
        assert(lo - 1 == s1.len() || s1[lo - 1] == s[lo]);
        lemma_trim_start_suffix(s1, lo - 1);
        assert(s1.subrange(lo - 1, s1.len() as int) =~= s.subrange(lo, s.len() as int));
    } else {
        assert(s.subrange(0, s.len() as int) =~= s);
    }
}

proof fn lemma_trim_end_prefix(s: Seq<u8>, hi: int)
    requires
        0 <= hi <= s.len(),
        forall|i: int| hi <= i < s.len() ==> is_space(#[trigger] s[i]),
        hi == 0 || !is_space(s[hi - 1]),
    ensures
        trim_end(s) == s.subrange(0, hi),
    decreases s.len() - hi,
{
    if hi < s.len() {
        let s1 = s.drop_last();
        assert forall|i: int| hi <= i < s1.len() implies is_space(#[trigger] s1[i]) by {
            assert(s1[i] == s[i]);
        }
        assert(hi == 0 || s1[hi - 1] == s[hi - 1]);
        lemma_trim_end_prefix(s1, hi);
        assert(s1.subrange(0, hi) =~= s.subrange(0, hi));
    } else {
        assert(s.subrange(0, hi) =~= s);
    }
}

/// Value of the digits `s[lo..hi]`; None where the run is empty, holds
/// something else than a digit, or its value does not fit.
fn parse_decimal(s: &Vec<u8>, lo: usize, hi: usize) -> (r: Option<usize>)
    requires
        lo <= hi <= s@.len(),
    ensures
        r is Some <==> (all_digits(s@.subrange(lo as int, hi as int)) && decimal(
            s@.subrange(lo as int, hi as int),
        ) <= usize::MAX),
        r matches Some(v) ==> v == decimal(s@.subrange(lo as int, hi as int)),
{
    if lo == hi {
        return None;
    }
    let mut v: usize = 0;
    let mut i: usize = lo;
    let mut fits = true;
    while i < hi
        invariant
            lo <= i <= hi <= s@.len(),
            forall|j: int| lo <= j < i ==> is_digit(#[trigger] s@[j]),
            fits ==> v == decimal(s@.subrange(lo as int, i as int)),
            !fits ==> decimal(s@.subrange(lo as int, i as int)) > usize::MAX,
        decreases hi - i,
    {
        let b = s[i];
        if b < 48 || b > 57 {
            proof {
                assert(!is_digit(s@.subrange(lo as int, hi as int)[i - lo]));
            }
            return None;
        }
        proof {
            let p = s@.subrange(lo as int, i as int);
            let q = s@.subrange(lo as int, i + 1);
            assert(q.drop_last() =~= p);
        }
        if fits {
            match v.checked_mul(10) {
                Some(m) => match m.checked_add((b - 48) as usize) {
                    Some(n) => {
                        v = n;
                    },
                    None => {
                        fits = false;
                    },
                },
                None => {
                    fits = false;
                },
            }
        } else {
            proof {
                let p = s@.subrange(lo as int, i as int);
                assert(decimal(p) * 10 >= decimal(p)) by (nonlinear_arith);
            }
        }
        i = i + 1;
    }
    proof {
        assert forall|j: int| 0 <= j < hi - lo implies is_digit(
            #[trigger] s@.subrange(lo as int, hi as int)[j],
        ) by {
            assert(s@.subrange(lo as int, hi as int)[j] == s@[lo + j]);
        }
    }
    if fits {
        Some(v)
    } else {
        None
    }
}

/// Reads the header line `width,height`: two runs of decimal digits joined by
/// a comma, with optional white space around the line. None where the line
/// has another shape or a number does not fit.
pub fn read_xy(line: &Vec<u8>) -> (r: Option<(usize, usize)>)
    ensures
        reads_as(trim(line@), r),
{
    let n = line.len();
    let mut lo: usize = 0;
    while lo < n && (line[lo] == 32 || line[lo] == 9 || line[lo] == 10 || line[lo] == 13)
        invariant
            lo <= n == line@.len(),
            forall|i: int| 0 <= i < lo ==> is_space(#[trigger] line@[i]),
        decreases n - lo,
    {
        lo = lo + 1;
    }
    proof {
        lemma_trim_start_suffix(line@, lo as int);
    }
    let mut hi: usize = n;
    while hi > lo && (line[hi - 1] == 32 || line[hi - 1] == 9 || line[hi - 1] == 10 || line[hi
        - 1] == 13)
        invariant
            lo <= hi <= n == line@.len(),
            forall|i: int| hi <= i < n ==> is_space(#[trigger] line@[i]),
        decreases hi - lo,
    {
        hi = hi - 1;
    }
    let ghost ts = line@.subrange(lo as int, n as int);
    let ghost t = line@.subrange(lo as int, hi as int);
    proof {
        assert forall|i: int| hi - lo <= i < ts.len() implies is_space(#[trigger] ts[i]) by {
            assert(ts[i] == line@[lo + i]);
        }
        if hi > lo {
            assert(ts[hi - lo - 1] == line@[hi - 1]);
        }
        lemma_trim_end_prefix(ts, hi - lo);
        assert(ts.subrange(0, hi - lo) =~= t);
        assert(trim(line@) == t);
    }
    let mut k: usize = lo;
    while k < hi && line[k] != 44
        invariant
            lo <= k <= hi <= n == line@.len(),
            forall|i: int| lo <= i < k ==> #[trigger] line@[i] != 44,
        decreases hi - k,
    {
        k = k + 1;
    }
    if k == hi {
        proof {
            assert forall|kk: int| #[trigger] shape_at(t, kk) implies first_value(t, kk)
                > usize::MAX || second_value(t, kk) > usize::MAX by {
                assert(t[kk] == line@[lo + kk]);
            }
        }
        return None;
    }
    let x = parse_decimal(line, lo, k);
    let y = parse_decimal(line, k + 1, hi);
    let ghost kk = k - lo;
    proof {
        assert(t.subrange(0, kk) =~= line@.subrange(lo as int, k as int));
        assert(t.subrange(kk + 1, t.len() as int) =~= line@.subrange(k + 1, hi as int));
        assert forall|k2: int| #[trigger] shape_at(t, k2) implies k2 == kk by {
            if k2 < kk {
                assert(t[k2] == line@[lo + k2]);
            } else if k2 > kk {
                assert(t.subrange(kk + 1, t.len() as int)[k2 - kk - 1] == t[k2]);
                assert(t.subrange(0, k2)[kk] == t[kk]);
            }
        }
    }
    match (x, y) {
        (Some(x), Some(y)) => {
            proof {
                assert(t[kk] == line@[k as int]);
                assert(shape_at(t, kk));
            }
            Some((x, y))
        },
        _ => {
            proof {
                assert forall|k2: int| #[trigger] shape_at(t, k2) implies first_value(t, k2)
                    > usize::MAX || second_value(t, k2) > usize::MAX by {
                    assert(k2 == kk);
                }
            }
            None
        },
    }
}

} // verus!
