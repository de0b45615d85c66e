//! Big-endian integers and byte strings.

use vstd::prelude::*;

verus! {

/// The number that `s` spells in base 256, most significant byte first.
pub open spec fn be_value(s: Seq<u8>) -> nat
    decreases s.len(),
{
    if s.len() == 0 {
        0
    } else {
        be_value(s.drop_last()) * 256 + s.last() as nat
    }
}

/// The last `n` base-256 digits of `v`, most significant first.
pub open spec fn be_bytes(v: nat, n: nat) -> Seq<u8>
    decreases n,
{
    if n == 0 {
        Seq::empty()
    } else {
        be_bytes(v / 256, (n - 1) as nat).push((v % 256) as u8)
    }
}

/// 256 to the power of `n`.
pub open spec fn pow256(n: nat) -> nat
    decreases n,
{
    if n == 0 {
        1
    } else {
        256 * pow256((n - 1) as nat)
    }
}

/// A number written in `n` bytes takes `n` bytes.
pub(crate) proof fn lemma_be_bytes_len(v: nat, n: nat)
    ensures
        be_bytes(v, n).len() == n,
    decreases n,
{
    if n > 0 {
        lemma_be_bytes_len(v / 256, (n - 1) as nat);
    }
}

/// One byte spells itself.
pub(crate) proof fn lemma_be_single(b: u8)
    ensures
        be_value(seq![b]) == b as nat,
{
    reveal_with_fuel(be_value, 2);
    assert(seq![b].drop_last() =~= Seq::<u8>::empty());
}

/// Writing a number that fits in `n` bytes and reading it back gives the number.
pub proof fn be_roundtrip(v: nat, n: nat)
    requires
        v < pow256(n),
    ensures
        be_bytes(v, n).len() == n,
        be_value(be_bytes(v, n)) == v,
    decreases n,
{
    lemma_be_bytes_len(v, n);
    if n > 0 {
        be_roundtrip(v / 256, (n - 1) as nat);
        assert(be_bytes(v, n).drop_last() =~= be_bytes(v / 256, (n - 1) as nat));
    }
}

/// Reading a byte string as a number and writing it back at the same length
/// gives the byte string.
pub proof fn be_roundtrip_back(s: Seq<u8>)
    ensures
        be_value(s) < pow256(s.len()),
        be_bytes(be_value(s), s.len()) == s,
    decreases s.len(),
{
    if s.len() > 0 {
        be_roundtrip_back(s.drop_last());
        let v = be_value(s);
        assert(v / 256 == be_value(s.drop_last()));
        assert(v % 256 == s.last());
        assert(be_bytes(v, s.len()) =~= s);
    } else {
        assert(be_bytes(be_value(s), 0) =~= s);
    }
}

/// The four bytes of `v`, most significant first.
pub(crate) fn u32_be(v: u32) -> (r: [u8; 4])
    ensures
        r@ == be_bytes(v as nat, 4),
{
    let r: [u8; 4] = [
        (v / 0x100_0000) as u8,
        ((v / 0x1_0000) % 256) as u8,
        ((v / 0x100) % 256) as u8,
        (v % 256) as u8,
    ];
    proof {
        reveal_with_fuel(be_bytes, 5);
        assert(v as nat / 256 / 256 == v as nat / 0x1_0000);
        assert(v as nat / 256 / 256 / 256 == v as nat / 0x100_0000);
        assert(r@ =~= be_bytes(v as nat, 4));
    }
    r
}

/// The eight bytes of `v`, most significant first.
pub(crate) fn u64_be(v: u64) -> (r: [u8; 8])
    ensures
        r@ == be_bytes(v as nat, 8),
{
    let hi: [u8; 4] = u32_be((v / 0x1_0000_0000) as u32);
    let lo: [u8; 4] = u32_be((v % 0x1_0000_0000) as u32);
    let r: [u8; 8] = [hi[0], hi[1], hi[2], hi[3], lo[0], lo[1], lo[2], lo[3]];
    proof {
        lemma_be_bytes_split(v as nat);
        lemma_be_bytes_len((v / 0x1_0000_0000) as nat, 4);
        lemma_be_bytes_len((v % 0x1_0000_0000) as nat, 4);
        assert(r@ =~= hi@ + lo@);
    }
    r
}

proof fn lemma_be_bytes_split(v: nat)
    ensures
        be_bytes(v, 8) == be_bytes(v / 0x1_0000_0000, 4) + be_bytes(v % 0x1_0000_0000, 4),
{
    reveal_with_fuel(be_bytes, 9);
    let lo = v % 0x1_0000_0000;
    assert(v / 256 / 256 / 256 / 256 == v / 0x1_0000_0000);
    assert((v / 256) % 256 == (lo / 256) % 256);
    assert((v / 256 / 256) % 256 == (lo / 256 / 256) % 256);
    assert((v / 256 / 256 / 256) % 256 == (lo / 256 / 256 / 256) % 256);
    assert(be_bytes(v, 8) =~= be_bytes(v / 0x1_0000_0000, 4) + be_bytes(lo, 4));
}

/// Four bytes hold the last 32 bits of a number.
pub(crate) proof fn lemma_be_bytes_last(v: nat)
    ensures
        be_bytes(v % 0x1_0000_0000, 4) == be_bytes(v, 4),
{
    reveal_with_fuel(be_bytes, 5);
    let lo = v % 0x1_0000_0000;
    assert((v / 256) % 256 == (lo / 256) % 256);
    assert((v / 256 / 256) % 256 == (lo / 256 / 256) % 256);
    assert((v / 256 / 256 / 256) % 256 == (lo / 256 / 256 / 256) % 256);
    assert(be_bytes(lo, 4) =~= be_bytes(v, 4));
}

/// The number that at most eight bytes spell.
pub(crate) fn be_uint(s: &[u8]) -> (r: u64)
    requires
        s@.len() <= 8,
    ensures
        r == be_value(s@),
{
    let mut acc: u64 = 0;
    let mut i: usize = 0;
    while i < s.len()
        invariant
            i <= s@.len() <= 8,
            acc == be_value(s@.take(i as int)),
        decreases s@.len() - i,
    {
        proof {
            be_roundtrip_back(s@.take(i as int));
            reveal_with_fuel(pow256, 9);
            assert(s@.take(i + 1).drop_last() =~= s@.take(i as int));
            assert(acc < 0x100_0000_0000_0000);
        }
        acc = acc * 256 + s[i] as u64;
        i = i + 1;
    }
    proof {
        assert(s@.take(s@.len() as int) =~= s@);
    }
    acc
}

/// Whether two byte strings are the same.
pub(crate) fn same_bytes(a: &[u8], b: &[u8]) -> (r: bool)
    ensures
        r == (a@ == b@),
{
    if a.len() != b.len() {
        return false;
    }
    let mut i: usize = 0;
    while i < a.len()
        invariant
            a@.len() == b@.len(),
            i <= a@.len(),
            forall|j: int| 0 <= j < i ==> a@[j] == b@[j],
        decreases a@.len() - i,
    {
        if a[i] != b[i] {
            return false;
        }
        i = i + 1;
    }
    assert(a@ =~= b@);
    true
}

/// Appends `s` to `w`.
pub(crate) fn append_bytes(w: &mut Vec<u8>, s: &[u8])
    ensures
        final(w)@ == old(w)@ + s@,
{
    w.extend_from_slice(s);
    assert(w@ =~= old(w)@ + s@);
}

/// `TryFrom<&[T]> for &[T; N]` of std, unwrapped: a slice of `N` bytes seen as
/// an array of the same bytes. It fails only where the lengths differ, which
/// the precondition rules out.
#[verifier::external_body]
pub(crate) fn as_array<const N: usize>(s: &[u8]) -> (r: &[u8; N])
    requires
        s@.len() == N,
    ensures
        r@ == s@,
{
    s.try_into().unwrap()
}

} // verus!
