use vstd::prelude::*;

verus! {

/// The number that a sequence of bytes spells in big-endian order.
pub open spec fn be_value(s: Seq<u8>) -> nat
    decreases s.len(),
{
    if s.len() == 0 {
        0
    } else {
        be_value(s.drop_last()) * 256 + s.last() as nat
    }
}

/// The `n` low bytes of `v`, most significant first.
pub open spec fn be_bytes(v: nat, n: nat) -> Seq<u8>
    decreases n,
{
    if n == 0 {
        Seq::empty()
    } else {
        be_bytes(v / 256, (n - 1) as nat).push((v % 256) as u8)
    }
}

/// `256` to the power `n`.
pub open spec fn pow256(n: nat) -> nat
    decreases n,
{
    if n == 0 {
        1
    } else {
        256 * pow256((n - 1) as nat)
    }
}

pub proof fn lemma_pow256_monotonic(i: nat, j: nat)
    requires
        i <= j,
    ensures
        pow256(i) <= pow256(j),
    decreases j,
{
    if i < j {
        lemma_pow256_monotonic(i, (j - 1) as nat);
    }
}

pub proof fn lemma_pow256_values()
    ensures
        pow256(2) == 0x1_0000,
        pow256(8) == 0x1_0000_0000_0000_0000,
{
    reveal_with_fuel(pow256, 9);
}

/// A sequence of `n` bytes spells a number below `256^n`.
pub proof fn lemma_be_value_bound(s: Seq<u8>)
    ensures
        be_value(s) < pow256(s.len()),
    decreases s.len(),
{
    if s.len() > 0 {
        lemma_be_value_bound(s.drop_last());
    }
}

/// Writing `v` in `n` bytes and reading them back gives `v`, when `v` fits.
pub proof fn lemma_be_round_trip(v: nat, n: nat)
    requires
        v < pow256(n),
    ensures
        be_bytes(v, n).len() == n,
        be_value(be_bytes(v, n)) == v,
    decreases n,
{
    if n > 0 {
        assert(v / 256 < pow256((n - 1) as nat)) by (nonlinear_arith)
            requires
                v < 256 * pow256((n - 1) as nat),
        ;
        lemma_be_round_trip(v / 256, (n - 1) as nat);
        let s = be_bytes(v, n);
        assert(s.drop_last() =~= be_bytes(v / 256, (n - 1) as nat));
        assert(v == (v / 256) * 256 + v % 256) by (nonlinear_arith);
    }
}

/// Reads the `n` bytes of `buf` from `start` as a big-endian number.
pub fn read_be(buf: &[u8], start: usize, n: usize) -> (v: u64)
    requires
        start + n <= buf.len(),
        n <= 8,
    ensures
        v as nat == be_value(buf@.subrange(start as int, start + n)),
{
    let mut v: u64 = 0;
    let mut k: usize = 0;
    while k < n
        invariant
            start + n <= buf.len(),
            n <= 8,
            k <= n,
            v as nat == be_value(buf@.subrange(start as int, start + k)),
        decreases n - k,
    {
        proof {
            let prefix = buf@.subrange(start as int, start + k);
            lemma_be_value_bound(prefix);
            lemma_pow256_monotonic(k as nat, 7);
            lemma_pow256_values();
            assert(pow256(8) == 256 * pow256(7));
            assert(buf@.subrange(start as int, start + k + 1).drop_last() =~= prefix);
        }
        v = v * 256 + buf[start + k] as u64;
        k = k + 1;
    }
    v
}

/// Appends the `n` low bytes of `v` to `out`, most significant first.
pub fn write_be(out: &mut Vec<u8>, v: u64, n: usize)
    requires
        n <= 8,
    ensures
        final(out)@ == old(out)@ + be_bytes(v as nat, n as nat),
    decreases n,
{
    if n > 0 {
        write_be(out, v / 256, n - 1);
        out.push((v % 256) as u8);
        assert(be_bytes(v as nat, n as nat) == be_bytes((v / 256) as nat, (n - 1) as nat).push(
            (v % 256) as u8,
        ));
    } else {
        assert(old(out)@ + be_bytes(v as nat, 0) =~= old(out)@);
    }
}

} // verus!
