//! A dial with one hundred positions, starting at fifty. Each rotation turns
//! it left (negative) or right (positive); the password counts how often the
//! dial comes to rest on zero, and in the second variant also every pass over
//! zero along the way.

use vstd::prelude::*;

verus! {

use vstd::arithmetic::div_mod::lemma_mod_multiples_vanish;

/// Positions on the dial.
pub const DIAL: i64 = 100;

/// The dial position after the first `k` rotations, starting from fifty.
pub open spec fn dial_after(rots: Seq<i32>, k: int) -> int
    decreases k,
{
    if k <= 0 {
        50
    } else {
        (dial_after(rots, k - 1) + rots[k - 1] as int) % 100
    }
}

/// How many of the first `k` rotations leave the dial at zero.
pub open spec fn rest_hits(rots: Seq<i32>, k: int) -> int
    decreases k,
{
    if k <= 0 {
        0
    } else {
        rest_hits(rots, k - 1) + (if dial_after(rots, k) == 0 {
            1int
        } else {
            0int
        })
    }
}

/// Rust's truncating remainder by one hundred, for a possibly negative value.
pub open spec fn trunc_mod100(d: int) -> int {
    if d >= 0 {
        d % 100
    } else {
        -((-d) % 100)
    }
}

/// The count of zero passes that one rotation `d` adds when the dial stands
/// at `curr`: full turns, one more if the remaining clicks cross zero on the
/// way, and one more if the dial comes to rest on zero.
pub open spec fn pass_hits_step(curr: int, d: int) -> int {
    let dabs = if d < 0 {
        -d
    } else {
        d
    };
    let next = curr + trunc_mod100(d);
    dabs / 100 + (if curr * next < 0 || next > 100 {
        1int
    } else {
        0int
    }) + (if next % 100 == 0 {
        1int
    } else {
        0int
    })
}

/// Dial position and zero-pass count after the first `k` rotations.
pub open spec fn dial_state2(rots: Seq<i32>, k: int) -> (int, int)
    decreases k,
{
    if k <= 0 {
        (50, 0)
    } else {
        let (curr, pw) = dial_state2(rots, k - 1);
        let d = rots[k - 1] as int;
        ((curr + trunc_mod100(d)) % 100, pw + pass_hits_step(curr, d))
    }
}

/// Counts the rotations after which the dial rests on zero.
pub fn part1(rotations: &Vec<i32>) -> (r: i64)
    requires
        rotations@.len() <= i64::MAX,
    ensures
        r == rest_hits(rotations@, rotations@.len() as int),
{
    let mut curr: i64 = 50;
    let mut password: i64 = 0;
    let n = rotations.len();
    let mut i: usize = 0;
    while i < n
        invariant
            n == rotations@.len(),
            i <= n,
            n <= i64::MAX,
            0 <= curr < 100,
            curr == dial_after(rotations@, i as int),
            0 <= password <= i,
            password == rest_hits(rotations@, i as int),
        decreases n - i,
    {
        let d = rotations[i] as i64;
        let t = curr + d;
        let shifted = t + 21474836800;
        let next = shifted % 100;
        proof {
            lemma_mod_multiples_vanish(214748368, t as int, 100);
            assert(shifted as int == 100 * 214748368 + t as int);
            assert(next as int == (curr + d) as int % 100);
        }
        curr = next;
        if curr == 0 {
            password = password + 1;
        }
        i = i + 1;
    }
    password
}

/// Counts every pass over zero: full turns contained in a rotation, a
/// crossing by the remaining clicks, and coming to rest on zero.
pub fn part2(rotations: &Vec<i32>) -> (r: i64)
    requires
        rotations@.len() <= 100_000_000_000,
    ensures
        r == dial_state2(rotations@, rotations@.len() as int).1,
{
    let mut curr: i64 = 50;
    let mut password: i64 = 0;
    let n = rotations.len();
    let mut i: usize = 0;
    while i < n
        invariant
            n == rotations@.len(),
            i <= n,
            n <= 100_000_000_000,
            0 <= curr < 100,
            0 <= password <= i * 21474839,
            (curr as int, password as int) == dial_state2(rotations@, i as int),
        decreases n - i,
    {
        let d = rotations[i] as i64;
        let dabs = if d < 0 {
            -d
        } else {
            d
        };
        proof {
            assert(0 <= dabs <= 0x8000_0000);
            assert(dabs / 100 <= 21474837) by (nonlinear_arith)
                requires
                    0 <= dabs <= 0x8000_0000,
            ;
            assert(password + dabs / 100 <= (i as int) * 21474839 + 21474837);
            assert((i as int) * 21474839 + 21474837 < i64::MAX);
        }
        password = password + dabs / 100;
        let dm = if d >= 0 {
            d % 100
        } else {
            -((-d) % 100)
        };
        proof {
            assert(dm as int == trunc_mod100(d as int));
            assert(0 <= dabs % 100 < 100) by (nonlinear_arith)
                requires
                    dabs >= 0,
            ;
            assert(-100 < dm < 100);
        }
        let next = curr + dm;
        proof {
            assert(((curr as int) * (next as int) < 0) <==> (curr > 0 && next < 0))
                by (nonlinear_arith)
                requires
                    curr >= 0,
            ;
        }
        if (curr > 0 && next < 0) || next > DIAL {
            password = password + 1;
        }
        curr = if next < 0 {
            next + 100
        } else if next >= 100 {
            next - 100
        } else {
            next
        };
        proof {
            assert(curr as int == next as int % 100) by {
                if next < 0 {
                    lemma_mod_multiples_vanish(1, next as int, 100);
                } else if next >= 100 {
                    lemma_mod_multiples_vanish(-1, next as int, 100);
                    assert(100 * (-1) + next as int == next as int - 100);
                }
            }
        }
        if curr == 0 {
            password = password + 1;
        }
        proof {
            let st = dial_state2(rotations@, i as int);
            let stepped = ((st.0 + trunc_mod100(d as int)) % 100, st.1 + pass_hits_step(
                st.0,
                d as int,
            ));
            assert(dial_state2(rotations@, i as int + 1) == stepped);
            assert(pass_hits_step(st.0, d as int) <= 21474839);
            assert(password <= (i as int + 1) * 21474839);
        }
        i = i + 1;
    }
    password
}

} // verus!
