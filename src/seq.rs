//! Comparisons over the circular 32-bit sequence space.
use vstd::prelude::*;

verus! {

/// Size of the sequence space.
pub const SEQ_SPACE: u64 = 0x1_0000_0000;

/// How far `b` lies ahead of `a` on the sequence circle, in `0 .. 2^32`.
pub open spec fn dist(a: u32, b: u32) -> int {
    ((b as int) - (a as int)) % (SEQ_SPACE as int)
}

/// `a + n` on the sequence circle.
pub open spec fn add_seq(a: u32, n: int) -> u32 {
    (((a as int) + n) % (SEQ_SPACE as int)) as u32
}

/// `a` comes strictly before `b`: `(a - b) mod 2^32 > 2^31`.
pub open spec fn lt_spec(a: u32, b: u32) -> bool {
    ((a as int) - (b as int)) % (SEQ_SPACE as int) > 0x8000_0000
}

/// `x` lies strictly between `start` and `end` on the sequence circle.
pub open spec fn between_spec(start: u32, x: u32, end: u32) -> bool {
    lt_spec(start, x) && lt_spec(x, end)
}

/// `a + n` on the sequence circle.
pub fn seq_add(a: u32, n: u32) -> (r: u32)
    ensures
        r == add_seq(a, n as int),
{
    a.wrapping_add(n)
}

/// `a - n` on the sequence circle.
pub fn seq_sub(a: u32, n: u32) -> (r: u32)
    ensures
        r == add_seq(a, -(n as int)),
{
    a.wrapping_sub(n)
}

/// How far `b` lies ahead of `a`.
pub fn seq_dist(a: u32, b: u32) -> (r: u32)
    ensures
        r as int == dist(a, b),
{
    b.wrapping_sub(a)
}

/// Wrapping less-than: `lhs` comes strictly before `rhs` (RFC 1323).
pub fn wrapping_lt(lhs: u32, rhs: u32) -> (r: bool)
    ensures
        r == lt_spec(lhs, rhs),
{
    lhs.wrapping_sub(rhs) > 0x8000_0000
}

/// `x` lies strictly between `start` and `end` under wrapping comparison.
pub fn is_between_wrapped(start: u32, x: u32, end: u32) -> (r: bool)
    ensures
        r == between_spec(start, x, end),
{
    wrapping_lt(start, x) && wrapping_lt(x, end)
}

/// Wrapping less-than is "ahead by 1 to 2^31 - 1".
pub proof fn lemma_lt_dist(a: u32, b: u32)
    ensures
        lt_spec(a, b) <==> (0 < dist(a, b) && dist(a, b) < 0x8000_0000),
{
}

/// Distance from `a` to `c` through `b`.
pub proof fn lemma_dist_trans(a: u32, b: u32, c: u32)
    requires
        dist(a, b) <= dist(a, c),
    ensures
        dist(b, c) == dist(a, c) - dist(a, b),
{
}

/// Moving `b` forward by `n` moves its distance from `a` by `n`, while
/// that stays below the circle's size.
pub proof fn lemma_dist_shift(a: u32, b: u32, n: int)
    requires
        0 <= n,
        dist(a, b) + n < SEQ_SPACE,
    ensures
        dist(a, add_seq(b, n)) == dist(a, b) + n,
{
}

/// Two points less than half a circle ahead of a common base compare as
/// their distances from it do.
pub proof fn lemma_lt_from_base(u: u32, x: u32, y: u32)
    requires
        dist(u, x) < 0x8000_0000,
        dist(u, y) < 0x8000_0000,
    ensures
        lt_spec(x, y) <==> dist(u, x) < dist(u, y),
        x == y <==> dist(u, x) == dist(u, y),
{
}

/// An acknowledgement strictly between `una - 1` and `nxt + 1` lies in
/// `[una, nxt]`.
pub proof fn lemma_ack_in_range(una: u32, ackn: u32, nxt: u32)
    requires
        dist(una, nxt) < 0x7fff_ffff,
        between_spec(add_seq(una, -1), ackn, add_seq(nxt, 1)),
    ensures
        dist(una, ackn) <= dist(una, nxt),
{
}

} // verus!
