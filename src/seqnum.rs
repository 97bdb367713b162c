//! Ordering of 32-bit sequence numbers by signed difference, so that the order
//! survives the wrap from `u32::MAX` back to zero.

use vstd::prelude::*;

verus! {

/// `x` reduced to 32 bits.
pub open spec fn wrap32(x: int) -> u32 {
    (x % 0x1_0000_0000) as u32
}

/// The signed 32-bit difference `a - b`: negative when `a` precedes `b`.
pub open spec fn seq_diff(a: u32, b: u32) -> int {
    let d = if a >= b {
        a - b
    } else {
        a - b + 0x1_0000_0000
    };
    if d >= 0x8000_0000 {
        d - 0x1_0000_0000
    } else {
        d
    }
}

/// Computes `seq_diff(a, b)`.
pub fn seq_distance(a: u32, b: u32) -> (r: i64)
    ensures
        r == seq_diff(a, b),
{
    let d = a.wrapping_sub(b);
    if d >= 0x8000_0000u32 {
        d as i64 - 0x1_0000_0000i64
    } else {
        d as i64
    }
}

/// Numbers handed out in order keep their order across the wrap: for packets
/// `i` and `j` counted from any base, with `j` less than 2^31 after `i`, the
/// signed difference of their wrapped sequence numbers is exactly `j - i`, however
/// many times the counter has wrapped before.
pub proof fn lemma_seq_order_across_wrap(base: u32, i: int, j: int)
    requires
        0 <= i,
        0 <= j - i < 0x8000_0000,
    ensures
        seq_diff(wrap32(base + j), wrap32(base + i)) == j - i,
        seq_diff(wrap32(base + i), wrap32(base + j)) == i - j,
{
    let m: int = 0x1_0000_0000;
    let x = base + i;
    let y = base + j;
    vstd::arithmetic::div_mod::lemma_fundamental_div_mod(x, m);
    vstd::arithmetic::div_mod::lemma_fundamental_div_mod(y, m);
    vstd::arithmetic::div_mod::lemma_mod_bound(x, m);
    vstd::arithmetic::div_mod::lemma_mod_bound(y, m);
    let qx = x / m;
    let qy = y / m;
    let rx = x % m;
    let ry = y % m;
    assert(ry - rx == (j - i) + m * (qx - qy));
    assert(qy - qx == 0 || qy - qx == 1) by (nonlinear_arith)
        requires
            ry - rx == (j - i) + m * (qx - qy),
            0 <= rx < m,
            0 <= ry < m,
            0 <= j - i < 0x8000_0000,
            m == 0x1_0000_0000,
    ;
}

/// Moving `una` forward one packet at a time, `k` times, with `k` below 2^31,
/// never puts it behind where it started.
pub proof fn lemma_forward_not_behind(a: u32, k: int)
    requires
        0 <= k < 0x8000_0000,
    ensures
        seq_diff(wrap32(a + k), a) == k,
{
    assert(wrap32(a + 0) == a);
    lemma_seq_order_across_wrap(a, 0, k);
}

proof fn lemma_wrap_succ(x: int)
    requires
        0 <= x,
    ensures
        wrap32(x + 1) == if wrap32(x) == u32::MAX {
            0u32
        } else {
            (wrap32(x) + 1) as u32
        },
{
    let m: int = 0x1_0000_0000;
    vstd::arithmetic::div_mod::lemma_mod_bound(x, m);
    vstd::arithmetic::div_mod::lemma_add_mod_noop(x, 1, m);
    vstd::arithmetic::div_mod::lemma_small_mod(1, m as nat);
    let r = x % m;
    if r + 1 < m {
        vstd::arithmetic::div_mod::lemma_small_mod((r + 1) as nat, m as nat);
    } else {
        vstd::arithmetic::div_mod::lemma_mod_self_0(m);
    }
}

/// Computes `wrap32(x + 1)` from `wrap32(x)`.
pub fn seq_next(a: u32, Ghost(x): Ghost<int>) -> (r: u32)
    requires
        0 <= x,
        a == wrap32(x),
    ensures
        r == wrap32(x + 1),
{
    proof {
        lemma_wrap_succ(x);
    }
    a.wrapping_add(1)
}

pub proof fn lemma_wrap_again_succ(x: int)
    requires
        0 <= x,
    ensures
        wrap32(wrap32(x) + 1) == wrap32(x + 1),
{
    lemma_wrap_succ(x);
    let w = wrap32(x) as int;
    if w == u32::MAX as int {
        vstd::arithmetic::div_mod::lemma_mod_self_0(0x1_0000_0000);
    } else {
        vstd::arithmetic::div_mod::lemma_small_mod((w + 1) as nat, 0x1_0000_0000);
    }
}

} // verus!
