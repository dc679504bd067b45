//! Little-endian numbers in byte sequences.

use vstd::arithmetic::div_mod::{lemma_div_denominator, lemma_fundamental_div_mod_converse};
use vstd::arithmetic::power::{lemma_pow_positive, pow};
use vstd::prelude::*;

verus! {

/// 256 to the power `n`: how many numbers `n` bytes can tell apart.
pub open spec fn pow256(n: nat) -> nat
    decreases n,
{
    if n == 0 {
        1
    } else {
        256 * pow256((n - 1) as nat)
    }
}

/// The lowest `n` base-256 digits of `x`, least significant first.
pub open spec fn le_bytes(x: nat, n: nat) -> Seq<u8>
    decreases n,
{
    if n == 0 {
        Seq::empty()
    } else {
        seq![(x % 256) as u8] + le_bytes(x / 256, (n - 1) as nat)
    }
}

/// The number whose base-256 digits are `s`, least significant first.
pub open spec fn le_value(s: Seq<u8>) -> nat
    decreases s.len(),
{
    if s.len() == 0 {
        0
    } else {
        s[0] as nat + 256 * le_value(s.drop_first())
    }
}

/// The first `n` bytes of `s`.
pub open spec fn first_bytes(s: Seq<u8>, n: nat) -> Seq<u8> {
    Seq::new(n, |i: int| s[i])
}

pub proof fn lemma_pow256_values()
    ensures
        pow256(4) == 0x1_0000_0000,
        pow256(7) == 0x100_0000_0000_0000,
        pow256(8) == 0x1_0000_0000_0000_0000,
{
    reveal_with_fuel(pow256, 9);
}

pub proof fn lemma_pow256_monotone(a: nat, b: nat)
    requires
        a <= b,
    ensures
        pow256(a) <= pow256(b),
    decreases b,
{
    if a < b {
        lemma_pow256_monotone(a, (b - 1) as nat);
    }
}

pub proof fn lemma_le_bytes_len(x: nat, n: nat)
    ensures
        le_bytes(x, n).len() == n,
    decreases n,
{
    if n > 0 {
        lemma_le_bytes_len(x / 256, (n - 1) as nat);
    }
}

pub proof fn lemma_le_value_bound(s: Seq<u8>)
    ensures
        le_value(s) < pow256(s.len()),
    decreases s.len(),
{
    if s.len() > 0 {
        lemma_le_value_bound(s.drop_first());
    }
}

/// Reading back what was written: a number that fits into `n` bytes is the value of its bytes.
pub proof fn lemma_le_round_trip(x: nat, n: nat)
    requires
        x < pow256(n),
    ensures
        le_value(le_bytes(x, n)) == x,
    decreases n,
{
    if n > 0 {
        lemma_le_round_trip(x / 256, (n - 1) as nat);
        lemma_le_bytes_len(x / 256, (n - 1) as nat);
        assert(le_bytes(x, n).drop_first() =~= le_bytes(x / 256, (n - 1) as nat));
    }
}

/// Byte `i` of a number is its digit of weight `256^i`.
pub proof fn le_bytes_are_digits(x: nat, n: nat)
    ensures
        le_bytes(x, n).len() == n,
        forall|i: int|
            0 <= i < n ==> #[trigger] le_bytes(x, n)[i] as int == (x as int) / pow(256, i as nat)
                % 256,
    decreases n,
{
    reveal(pow);
    if n > 0 {
        let above = le_bytes(x / 256, (n - 1) as nat);
        le_bytes_are_digits(x / 256, (n - 1) as nat);
        assert forall|i: int| 0 <= i < n implies #[trigger] le_bytes(x, n)[i] as int == (x as int)
            / pow(256, i as nat) % 256 by {
            if i > 0 {
                let p = pow(256, (i - 1) as nat);
                lemma_pow_positive(256, (i - 1) as nat);
                assert(le_bytes(x, n)[i] == above[i - 1]);
                assert(above[i - 1] as int == ((x / 256) as int) / p % 256);
                lemma_div_denominator(x as int, 256, p);
            } else {
                assert(pow(256, 0) == 1);
            }
        }
    }
}

/// The digit of weight `256^i` of a number that was read from bytes is byte `i`, and there are no
/// further digits.
pub proof fn le_value_has_digits(s: Seq<u8>)
    ensures
        le_value(s) < pow(256, s.len()),
        forall|i: int|
            0 <= i < s.len() ==> (le_value(s) as int) / pow(256, i as nat) % 256 == #[trigger] s[i],
    decreases s.len(),
{
    reveal(pow);
    if s.len() > 0 {
        let above = s.drop_first();
        let v = le_value(above) as int;
        le_value_has_digits(above);
        lemma_fundamental_div_mod_converse(le_value(s) as int, 256, v, s[0] as int);
        assert forall|i: int| 0 <= i < s.len() implies (le_value(s) as int) / pow(256, i as nat)
            % 256 == #[trigger] s[i] by {
            if i > 0 {
                let p = pow(256, (i - 1) as nat);
                lemma_pow_positive(256, (i - 1) as nat);
                lemma_div_denominator(le_value(s) as int, 256, p);
                assert(above[i - 1] == s[i]);
                assert(v / pow(256, (i - 1) as nat) % 256 == above[i - 1]);
            } else {
                assert(pow(256, 0) == 1);
            }
        }
    }
}

/// The number that four or eight bytes hold, digit by digit.
pub proof fn le_value_of_word(s: Seq<u8>)
    ensures
        s.len() == 4 ==> le_value(s) == s[0] + 0x100 * s[1] + 0x1_0000 * s[2] + 0x100_0000 * s[3],
        s.len() == 8 ==> le_value(s) == s[0] + 0x100 * s[1] + 0x1_0000 * s[2] + 0x100_0000 * s[3]
            + 0x1_0000_0000 * s[4] + 0x100_0000_0000 * s[5] + 0x1_0000_0000_0000 * s[6]
            + 0x100_0000_0000_0000 * s[7],
{
    reveal_with_fuel(le_value, 9);
}

/// Appends the lowest `n` bytes of `x` to `out`, least significant first.
pub fn push_le(out: &mut Vec<u8>, x: u64, n: usize)
    ensures
        final(out)@ == old(out)@ + le_bytes(x as nat, n as nat),
        final(out)@.len() == old(out)@.len() + n,
        forall|i: int| 0 <= i < old(out)@.len() ==> #[trigger] final(out)@[i] == old(out)@[i],
        forall|i: int|
            old(out)@.len() <= i < final(out)@.len() ==> #[trigger] final(out)@[i] == (x as int)
                / pow(256, (i - old(out)@.len()) as nat) % 256,
{
    let mut v: u64 = x;
    let mut i: usize = 0;
    while i < n
        invariant
            i <= n,
            out@ + le_bytes(v as nat, (n - i) as nat) == old(out)@ + le_bytes(x as nat, n as nat),
        decreases n - i,
    {
        let ghost rest = le_bytes((v / 256) as nat, (n - i - 1) as nat);
        let ghost before = out@;
        out.push((v % 256) as u8);
        assert(out@ + rest =~= before + le_bytes(v as nat, (n - i) as nat));
        v = v / 256;
        i = i + 1;
    }
    assert(out@ + le_bytes(v as nat, 0) =~= out@);
    proof {
        le_bytes_are_digits(x as nat, n as nat);
        assert forall|i: int| old(out)@.len() <= i < out@.len() implies #[trigger] out@[i] == (
        x as int) / pow(256, (i - old(out)@.len()) as nat) % 256 by {
            assert(out@[i] == le_bytes(x as nat, n as nat)[i - old(out)@.len()]);
        }
    }
}

/// The number that the `n` bytes of `buf` from `start` on hold, least significant first.
pub fn read_le(buf: &[u8], start: usize, n: usize) -> (v: u64)
    requires
        n <= 8,
        start + n <= buf.len(),
    ensures
        v == le_value(buf@.subrange(start as int, start + n)),
        v < pow(256, n as nat),
        forall|i: int|
            0 <= i < n ==> (v as int) / (#[trigger] pow(256, i as nat)) % 256 == buf@[start + i],
{
    let mut v: u64 = 0;
    let mut i: usize = n;
    while i > 0
        invariant
            i <= n <= 8,
            start + n <= buf.len(),
            v == le_value(buf@.subrange(start + i, start + n)),
        decreases i,
    {
        let ghost tail = buf@.subrange(start + i, start + n);
        i = i - 1;
        let ghost longer = buf@.subrange(start + i, start + n);
        proof {
            assert(longer.drop_first() =~= tail);
            lemma_le_value_bound(tail);
            lemma_pow256_monotone(tail.len(), 7);
            lemma_pow256_values();
        }
        v = v * 256 + buf[start + i] as u64;
    }
    proof {
        let word = buf@.subrange(start as int, start + n);
        le_value_has_digits(word);
        assert forall|i: int| 0 <= i < n implies (v as int) / (#[trigger] pow(256, i as nat)) % 256
            == buf@[start + i] by {
            assert(word[i] == buf@[start + i]);
        }
    }
    v
}

} // verus!
