//! Little-endian integer encoding used by the on-disk formats.
use vstd::prelude::*;

verus! {

/// `256` to the power `n`.
pub open spec fn pow256(n: nat) -> nat
    decreases n,
{
    if n == 0 {
        1
    } else {
        256 * pow256((n - 1) as nat)
    }
}

/// The `n` low-order bytes of `v`, least significant first.
pub open spec fn le_bytes(v: nat, n: nat) -> Seq<u8>
    decreases n,
{
    if n == 0 {
        Seq::empty()
    } else {
        seq![(v % 256) as u8] + le_bytes(v / 256, (n - 1) as nat)
    }
}

/// The number whose little-endian bytes are `s`.
pub open spec fn le_value(s: Seq<u8>) -> nat
    decreases s.len(),
{
    if s.len() == 0 {
        0
    } else {
        s[0] as nat + 256 * le_value(s.drop_first())
    }
}

/// A little-endian field has exactly its width.
pub proof fn lemma_le_bytes_len(v: nat, n: nat)
    ensures
        le_bytes(v, n).len() == n,
    decreases n,
{
    if n > 0 {
        lemma_le_bytes_len(v / 256, (n - 1) as nat);
    }
}

/// Powers of 256 are positive.
pub proof fn lemma_pow256_pos(n: nat)
    ensures
        pow256(n) >= 1,
    decreases n,
{
    if n > 0 {
        lemma_pow256_pos((n - 1) as nat);
    }
}

/// Decoding the encoding of a number that fits gives the number back.
pub proof fn lemma_le_roundtrip(v: nat, n: nat)
    requires
        v < pow256(n),
    ensures
        le_value(le_bytes(v, n)) == v,
    decreases n,
{
    if n > 0 {
        let rest = le_bytes(v / 256, (n - 1) as nat);
        assert(le_bytes(v, n).drop_first() =~= rest);
        assert(v / 256 < pow256((n - 1) as nat));
        lemma_le_roundtrip(v / 256, (n - 1) as nat);
    }
}

/// A little-endian byte string of length `n` denotes a number below `256^n`.
pub proof fn lemma_le_value_bound(s: Seq<u8>)
    ensures
        le_value(s) < pow256(s.len()),
    decreases s.len(),
{
    if s.len() > 0 {
        lemma_le_value_bound(s.drop_first());
    }
}

/// Appends the `n` low bytes of `v` to `out`, least significant first.
pub fn push_le(out: &mut Vec<u8>, v: u64, n: usize)
    requires
        n <= 8,
    ensures
        final(out)@ == old(out)@ + le_bytes(v as nat, n as nat),
{
    let ghost start = old(out)@;
    let mut cur: u64 = v;
    let mut i: usize = 0;
    while i < n
        invariant
            i <= n,
            out@ + le_bytes(cur as nat, (n - i) as nat) == start + le_bytes(v as nat, n as nat),
        decreases n - i,
    {
        let ghost before = out@;
        let ghost k = (n - i) as nat;
        assert(le_bytes(cur as nat, k) == seq![(cur % 256) as u8] + le_bytes(
            (cur / 256) as nat,
            (k - 1) as nat,
        ));
        out.push((cur % 256) as u8);
        assert(out@ + le_bytes((cur / 256) as nat, (k - 1) as nat) =~= before + le_bytes(
            cur as nat,
            k,
        ));
        cur = cur / 256;
        i = i + 1;
    }
    assert(out@ + le_bytes(cur as nat, 0) =~= out@);
}

/// Reads the `n`-byte little-endian number at `pos`.
pub fn read_le(buf: &[u8], pos: usize, n: usize) -> (r: u64)
    requires
        n <= 8,
        pos + n <= buf@.len(),
    ensures
        r as nat == le_value(buf@.subrange(pos as int, pos + n)),
{
    let len = buf.len();
    let mut acc: u64 = 0;
    let mut j: usize = n;
    while j > 0
        invariant
            j <= n <= 8,
            pos + n <= buf@.len(),
            len == buf@.len(),
            acc as nat == le_value(buf@.subrange(pos + j, pos + n)),
        decreases j,
    {
        let ghost tail = buf@.subrange(pos + j, pos + n);
        let ghost longer = buf@.subrange(pos + j - 1, pos + n);
        assert(longer.drop_first() =~= tail);
        proof {
            lemma_le_value_bound(tail);
            lemma_pow_le_8((n - j) as nat);
        }
        assert(acc * 256 + buf@[pos + j - 1] < 256 * pow256((n - j) as nat));
        let b = buf[pos + (j - 1)];
        acc = acc * 256 + b as u64;
        j = j - 1;
    }
    acc
}

/// The powers the file formats use.
pub proof fn lemma_pow_values()
    ensures
        pow256(2) == 0x1_0000,
        pow256(4) == 0x1_0000_0000,
        pow256(8) == 0x1_0000_0000_0000_0000,
{
    reveal_with_fuel(pow256, 9);
}

proof fn lemma_pow_le_8(k: nat)
    requires
        k < 8,
    ensures
        256 * pow256(k) <= 0x1_0000_0000_0000_0000,
{
    reveal_with_fuel(pow256, 9);
    assert(pow256(0) == 1);
    assert(pow256(1) == 256);
    assert(pow256(2) == 65536);
    assert(pow256(3) == 0x100_0000);
    assert(pow256(4) == 0x1_0000_0000);
    assert(pow256(5) == 0x100_0000_0000);
    assert(pow256(6) == 0x1_0000_0000_0000);
    assert(pow256(7) == 0x100_0000_0000_0000);
}

} // verus!
