//! Big-endian fixed-width integers.
//!
//! Every multi-byte number on the wire is written most-significant byte
//! first.  [`be_bytes`] and [`be_val`] give the two directions of that
//! correspondence mathematically; the executable helpers are proved
//! against them.

use vstd::arithmetic::div_mod::{lemma_fundamental_div_mod, lemma_fundamental_div_mod_converse};
use vstd::prelude::*;

verus! {

/// 256 raised to the given power: the number of values a big-endian run
/// of that many bytes can carry.
pub open spec fn pow256(n: nat) -> nat
    decreases n,
{
    if n == 0 {
        1
    } else {
        256 * pow256((n - 1) as nat)
    }
}

/// The `n`-byte big-endian encoding of `v` (of `v`'s low `n` bytes, when
/// `v` does not fit).
pub open spec fn be_bytes(v: nat, n: nat) -> Seq<u8>
    decreases n,
{
    if n == 0 {
        Seq::empty()
    } else {
        be_bytes(v / 256, (n - 1) as nat).push((v % 256) as u8)
    }
}

/// The value carried by a big-endian byte run.
pub open spec fn be_val(s: Seq<u8>) -> nat
    decreases s.len(),
{
    if s.len() == 0 {
        0
    } else {
        be_val(s.drop_last()) * 256 + s.last() as nat
    }
}

/// A big-endian run of `n` bytes is `n` bytes long.
pub proof fn lemma_be_bytes_len(v: nat, n: nat)
    ensures
        be_bytes(v, n).len() == n,
    decreases n,
{
    if n > 0 {
        lemma_be_bytes_len(v / 256, (n - 1) as nat);
    }
}

/// A run of `n` bytes carries a value below `pow256(n)`.
pub proof fn lemma_be_val_bound(s: Seq<u8>)
    ensures
        be_val(s) < pow256(s.len()),
    decreases s.len(),
{
    if s.len() > 0 {
        lemma_be_val_bound(s.drop_last());
    }
}

/// Reading back an `n`-byte encoding of a value that fits in `n` bytes
/// yields the value.
pub proof fn lemma_be_val_of_be_bytes(v: nat, n: nat)
    requires
        v < pow256(n),
    ensures
        be_val(be_bytes(v, n)) == v,
    decreases n,
{
    if n > 0 {
        let d = v / 256;
        assert(d < pow256((n - 1) as nat)) by {
            if d >= pow256((n - 1) as nat) {
                assert(d * 256 >= pow256((n - 1) as nat) * 256) by (nonlinear_arith)
                    requires
                        d >= pow256((n - 1) as nat),
                ;
                lemma_fundamental_div_mod(v as int, 256);
            }
        }
        lemma_be_val_of_be_bytes(d, (n - 1) as nat);
        lemma_be_bytes_len(d, (n - 1) as nat);
        assert(be_bytes(v, n).drop_last() =~= be_bytes(d, (n - 1) as nat));
        lemma_fundamental_div_mod(v as int, 256);
    }
}

/// Re-encoding the value a byte run carries yields the same bytes: for a
/// fixed width, values and byte runs are in bijection.
pub proof fn lemma_be_bytes_of_be_val(s: Seq<u8>)
    ensures
        be_bytes(be_val(s), s.len()) == s,
    decreases s.len(),
{
    if s.len() > 0 {
        let a = be_val(s.drop_last());
        let b = s.last();
        lemma_fundamental_div_mod_converse(
            (a * 256 + b) as int,
            256,
            a as int,
            b as int,
        );
        lemma_be_bytes_of_be_val(s.drop_last());
        assert(be_bytes(be_val(s), s.len()) =~= s);
    }
}

/// Appends the `n`-byte big-endian encoding of `v` to `out`.
pub fn push_be(out: &mut Vec<u8>, v: u128, n: usize) -> (written: usize)
    requires
        n <= 16,
        old(out)@.len() + n <= usize::MAX,
    ensures
        final(out)@ == old(out)@ + be_bytes(v as nat, n as nat),
        written == n,
    decreases n,
{
    if n == 0 {
        assert(out@ =~= old(out)@ + be_bytes(v as nat, 0));
        0
    } else {
        push_be(out, v / 256, n - 1);
        out.push((v % 256) as u8);
        assert(out@ =~= old(out)@ + be_bytes(v as nat, n as nat));
        n
    }
}

/// Reads the value of the `n` bytes starting at `from`.
pub fn read_be(s: &[u8], from: usize, n: usize) -> (r: u128)
    requires
        from + n <= s@.len(),
        n <= 16,
    ensures
        r as nat == be_val(s@.subrange(from as int, from as int + n as int)),
{
    let slen = s.len();
    let mut acc: u128 = 0;
    let mut i: usize = 0;
    proof {
        assert(s@.subrange(from as int, from as int) =~= Seq::<u8>::empty());
    }
    while i < n
        invariant
            i <= n,
            n <= 16,
            from + n <= s@.len(),
            s@.len() == slen,
            acc as nat == be_val(s@.subrange(from as int, from as int + i as int)),
            acc < pow256(i as nat),
        decreases n - i,
    {
        let b = s[from + i];
        proof {
            let prefix = s@.subrange(from as int, from as int + i as int);
            let next = s@.subrange(from as int, from as int + i as int + 1);
            assert(next.drop_last() =~= prefix);
            assert(next.last() == b);
            assert(pow256(16) == 0x100000000000000000000000000000000) by {
                reveal_with_fuel(pow256, 17);
            }
            assert(pow256(i as nat) * 256 == pow256((i + 1) as nat));
            assert(pow256((i + 1) as nat) <= pow256(16)) by {
                lemma_pow256_increases((i + 1) as nat, 16);
            }
            assert((acc as nat) * 256 + 256 <= pow256(i as nat) * 256) by (nonlinear_arith)
                requires
                    (acc as nat) < pow256(i as nat),
            ;
        }
        acc = acc * 256 + (b as u128);
        i = i + 1;
    }
    acc
}

/// Longer byte runs carry at least as many values.
pub proof fn lemma_pow256_increases(a: nat, b: nat)
    requires
        a <= b,
    ensures
        pow256(a) <= pow256(b),
    decreases b,
{
    if a < b && b > 0 {
        lemma_pow256_increases(a, (b - 1) as nat);
        assert(pow256((b - 1) as nat) * 1 <= pow256((b - 1) as nat) * 256) by (nonlinear_arith)
            requires
                pow256((b - 1) as nat) >= 0,
        ;
    }
}

} // verus!
