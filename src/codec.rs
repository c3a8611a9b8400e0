//! Fixed-size binary messages: an 8-byte big-endian sender id followed by a
//! 16-byte big-endian logical clock value.
use vstd::prelude::*;

verus! {

/// Length in bytes of one message on the wire.
pub const MESSAGE_LEN: usize = 24;

/// `256` raised to the power `n`.
pub open spec fn pow256(n: nat) -> nat
    decreases n,
{
    if n == 0 {
        1
    } else {
        256 * pow256((n - 1) as nat)
    }
}

/// The `n` low-order bytes of `x`, most significant first.
pub open spec fn be_bytes(x: nat, n: nat) -> Seq<u8>
    decreases n,
{
    if n == 0 {
        Seq::empty()
    } else {
        be_bytes(x / 256, (n - 1) as nat).push((x % 256) as u8)
    }
}

/// The number that the bytes `s` spell out, most significant first.
pub open spec fn be_value(s: Seq<u8>) -> nat
    decreases s.len(),
{
    if s.len() == 0 {
        0
    } else {
        (be_value(s.drop_last()) * 256 + s.last()) as nat
    }
}

/// The bytes of the message that carries `(id, time)`.
pub open spec fn encoded(id: u64, time: u128) -> Seq<u8> {
    be_bytes(id as nat, 8) + be_bytes(time as nat, 16)
}

/// What a message reads as: `None` unless it is exactly `MESSAGE_LEN` bytes long.
pub open spec fn decoded(b: Seq<u8>) -> Option<(u64, u128)> {
    if b.len() == MESSAGE_LEN {
        Some((be_value(b.subrange(0, 8)) as u64, be_value(b.subrange(8, 24)) as u128))
    } else {
        None
    }
}

proof fn lemma_pow256_monotonic(a: nat, b: nat)
    requires
        a <= b,
    ensures
        pow256(a) <= pow256(b),
    decreases b,
{
    if a < b {
        lemma_pow256_monotonic(a, (b - 1) as nat);
    }
}

proof fn lemma_pow256_values()
    ensures
        pow256(8) == 0x1_0000_0000_0000_0000,
        pow256(16) == 0x1_0000_0000_0000_0000_0000_0000_0000_0000,
{
    reveal_with_fuel(pow256, 17);
}

proof fn lemma_be_bytes_len(x: nat, n: nat)
    ensures
        be_bytes(x, n).len() == n,
    decreases n,
{
    if n > 0 {
        lemma_be_bytes_len(x / 256, (n - 1) as nat);
    }
}

proof fn lemma_be_value_bound(s: Seq<u8>)
    ensures
        be_value(s) < pow256(s.len()),
    decreases s.len(),
{
    if s.len() > 0 {
        let d = s.drop_last();
        lemma_be_value_bound(d);
        let v = be_value(d);
        let p = pow256(d.len());
        let b = s.last() as nat;
        assert(v * 256 + b < 256 * p) by (nonlinear_arith)
            requires
                v < p,
                b < 256,
        ;
    }
}

proof fn lemma_be_value_of_bytes(x: nat, n: nat)
    requires
        x < pow256(n),
    ensures
        be_value(be_bytes(x, n)) == x,
    decreases n,
{
    if n > 0 {
        let p = pow256((n - 1) as nat);
        assert(x / 256 < p) by (nonlinear_arith)
            requires
                x < 256 * p,
        ;
        lemma_be_value_of_bytes(x / 256, (n - 1) as nat);
        let s = be_bytes(x, n);
        assert(s.drop_last() =~= be_bytes(x / 256, (n - 1) as nat));
        assert((x / 256) * 256 + x % 256 == x);
    }
}

/// Decoding a message that was encoded gives back its id and clock value.
pub proof fn lemma_round_trip(id: u64, time: u128)
    ensures
        decoded(encoded(id, time)) == Some((id, time)),
{
    let a = be_bytes(id as nat, 8);
    let b = be_bytes(time as nat, 16);
    lemma_be_bytes_len(id as nat, 8);
    lemma_be_bytes_len(time as nat, 16);
    lemma_pow256_values();
    lemma_be_value_of_bytes(id as nat, 8);
    lemma_be_value_of_bytes(time as nat, 16);
    let e = encoded(id, time);
    assert(e.subrange(0, 8) =~= a);
    assert(e.subrange(8, 24) =~= b);
}

/// Appends the `n` low-order bytes of `x` to `out`, most significant first.
fn push_be(out: &mut Vec<u8>, x: u128, n: usize)
    ensures
        final(out)@ == old(out)@ + be_bytes(x as nat, n as nat),
    decreases n,
{
    if n > 0 {
        push_be(out, x / 256, n - 1);
        out.push((x % 256) as u8);
        assert(final(out)@ =~= old(out)@ + be_bytes(x as nat, n as nat));
    }
}

/// The number that `b[lo..hi]` spells out, most significant byte first.
fn read_be(b: &[u8], lo: usize, hi: usize) -> (r: u128)
    requires
        lo <= hi <= b@.len(),
        hi - lo <= 16,
    ensures
        r as nat == be_value(b@.subrange(lo as int, hi as int)),
    decreases hi - lo,
{
    if hi == lo {
        0
    } else {
        let v = read_be(b, lo, hi - 1);
        let ghost s = b@.subrange(lo as int, hi as int);
        proof {
            assert(s.drop_last() =~= b@.subrange(lo as int, hi - 1));
            lemma_be_value_bound(s);
            lemma_pow256_monotonic(s.len(), 16);
            lemma_pow256_values();
        }
        v * 256 + b[hi - 1] as u128
    }
}

/// Encodes `(id, time)` as one message of `MESSAGE_LEN` bytes.
pub fn encode(id: u64, time: u128) -> (r: Vec<u8>)
    ensures
        r@ == encoded(id, time),
        r@.len() == MESSAGE_LEN,
{
    let mut out: Vec<u8> = Vec::new();
    push_be(&mut out, id as u128, 8);
    push_be(&mut out, time, 16);
    proof {
        assert(out@ =~= encoded(id, time));
        lemma_be_bytes_len(id as nat, 8);
        lemma_be_bytes_len(time as nat, 16);
    }
    out
}

/// Reads one message: the sender id and its clock value, or `None` when `b`
/// does not hold exactly `MESSAGE_LEN` bytes.
pub fn decode(b: &[u8]) -> (r: Option<(u64, u128)>)
    ensures
        r == decoded(b@),
        r is None <==> b@.len() != MESSAGE_LEN,
{
    if b.len() != MESSAGE_LEN {
        None
    } else {
        let id = read_be(b, 0, 8);
        let time = read_be(b, 8, 24);
        proof {
            lemma_be_value_bound(b@.subrange(0, 8));
            lemma_pow256_values();
        }
        Some((id as u64, time))
    }
}

} // verus!
