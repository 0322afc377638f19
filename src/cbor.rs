//! Canonical byte framing in the CBOR data model.
//!
//! Only the items that the term encodings need are here: the head of a data
//! item, text strings and byte strings.
use vstd::prelude::*;
use vstd::string::StringSliceAdditionalSpecFns;

verus! {

/// The big-endian bytes of `n`, `k` of them (the higher bytes are dropped).
pub open spec fn be_bytes(n: nat, k: nat) -> Seq<u8>
    decreases k,
{
    if k == 0 {
        Seq::empty()
    } else {
        be_bytes(n / 256, (k - 1) as nat).push((n % 256) as u8)
    }
}

/// The head of a data item of major type `major` with argument `n`, in its
/// shortest form.
pub open spec fn head(major: u8, n: nat) -> Seq<u8> {
    let m = (major * 32) as nat;
    if n < 24 {
        seq![(m + n) as u8]
    } else if n < 0x100 {
        seq![(m + 24) as u8] + be_bytes(n, 1)
    } else if n < 0x1_0000 {
        seq![(m + 25) as u8] + be_bytes(n, 2)
    } else if n < 0x1_0000_0000 {
        seq![(m + 26) as u8] + be_bytes(n, 4)
    } else {
        seq![(m + 27) as u8] + be_bytes(n, 8)
    }
}

/// A byte string item holding `b`.
pub open spec fn byte_string(b: Seq<u8>) -> Seq<u8> {
    head(2, b.len()) + b
}

/// A text string item holding the UTF-8 bytes `t`.
pub open spec fn text_string(t: Seq<u8>) -> Seq<u8> {
    head(3, t.len()) + t
}

/// Appends the `k` low bytes of `n`, most significant first.
fn push_be(buf: &mut Vec<u8>, n: u64, k: u64)
    requires
        k <= 8,
    ensures
        final(buf)@ == old(buf)@ + be_bytes(n as nat, k as nat),
    decreases k,
{
    if k > 0 {
        push_be(buf, n / 256, k - 1);
        buf.push((n % 256) as u8);
        assert(be_bytes(n as nat, k as nat) == be_bytes((n / 256) as nat, (k - 1) as nat).push(
            (n % 256) as u8,
        ));
    }
}

/// Appends the head of an item of major type `major` (0 to 7) with argument `n`.
pub fn push_head(buf: &mut Vec<u8>, major: u8, n: u64)
    requires
        major < 8,
    ensures
        final(buf)@ == old(buf)@ + head(major, n as nat),
{
    let m: u8 = major * 32;
    if n < 24 {
        buf.push(m + n as u8);
        assert(final(buf)@ == old(buf)@ + head(major, n as nat));
    } else {
        let (b, k): (u8, u64) = if n < 0x100 {
            (24, 1)
        } else if n < 0x1_0000 {
            (25, 2)
        } else if n < 0x1_0000_0000 {
            (26, 4)
        } else {
            (27, 8)
        };
        buf.push(m + b);
        push_be(buf, n, k);
        assert(final(buf)@ == old(buf)@ + head(major, n as nat));
    }
}

/// Appends every byte of `b`.
pub fn push_bytes(buf: &mut Vec<u8>, b: &[u8])
    ensures
        final(buf)@ == old(buf)@ + b@,
{
    let ghost start = buf@;
    let mut i: usize = 0;
    while i < b.len()
        invariant
            i <= b@.len(),
            buf@ == start + b@.subrange(0, i as int),
        decreases b@.len() - i,
    {
        buf.push(b[i]);
        i += 1;
        assert(b@.subrange(0, i as int) == b@.subrange(0, i - 1) .push(b@[i - 1]));
    }
    assert(b@.subrange(0, b@.len() as int) == b@);
}

/// Appends a byte string item holding `b`.
pub fn push_byte_string(buf: &mut Vec<u8>, b: &[u8])
    ensures
        final(buf)@ == old(buf)@ + byte_string(b@),
{
    push_head(buf, 2, b.len() as u64);
    push_bytes(buf, b);
    assert(final(buf)@ == old(buf)@ + byte_string(b@));
}

/// Appends a text string item holding the UTF-8 form of `s`.
pub fn push_text_string(buf: &mut Vec<u8>, s: &str)
    ensures
        final(buf)@ == old(buf)@ + text_string(s.spec_bytes()),
{
    let b = s.as_bytes();
    push_head(buf, 3, b.len() as u64);
    push_bytes(buf, b);
    assert(final(buf)@ == old(buf)@ + text_string(s.spec_bytes()));
}

/// `256` to the power `k`.
pub open spec fn pow256(k: nat) -> nat
    decreases k,
{
    if k == 0 {
        1
    } else {
        256 * pow256((k - 1) as nat)
    }
}

/// Numbers below `256^k` have distinct `k`-byte big-endian forms.
pub proof fn lemma_be_bytes_injective(n: nat, m: nat, k: nat)
    requires
        n < pow256(k),
        m < pow256(k),
        be_bytes(n, k) == be_bytes(m, k),
    ensures
        n == m,
    decreases k,
{
    if k > 0 {
        let p = pow256((k - 1) as nat);
        let bn = be_bytes(n, k);
        let bm = be_bytes(m, k);
        assert(bn.drop_last() =~= be_bytes(n / 256, (k - 1) as nat));
        assert(bm.drop_last() =~= be_bytes(m / 256, (k - 1) as nat));
        assert(n / 256 < p) by (nonlinear_arith)
            requires
                n < 256 * p,
        ;
        assert(m / 256 < p) by (nonlinear_arith)
            requires
                m < 256 * p,
        ;
        lemma_be_bytes_injective(n / 256, m / 256, (k - 1) as nat);
        assert(bn.last() == (n % 256) as u8);
        assert(bm.last() == (m % 256) as u8);
    }
}

/// Heads of one major type with arguments that fit in `u64` are distinct for
/// distinct arguments.
pub proof fn lemma_head_injective(major: u8, n: nat, m: nat)
    requires
        major < 8,
        n < 0x1_0000_0000_0000_0000,
        m < 0x1_0000_0000_0000_0000,
        head(major, n) == head(major, m),
    ensures
        n == m,
{
    reveal_with_fuel(pow256, 9);
    let hn = head(major, n);
    let hm = head(major, m);
    assert(hn[0] == hm[0]);
    if n < 24 && m < 24 {
    } else if n >= 24 && m >= 24 {
        let k: nat = if n < 0x100 {
            1
        } else if n < 0x1_0000 {
            2
        } else if n < 0x1_0000_0000 {
            4
        } else {
            8
        };
        assert(hn.subrange(1, hn.len() as int) =~= be_bytes(n, k));
        assert(hm.subrange(1, hm.len() as int) =~= be_bytes(m, k));
        lemma_be_bytes_injective(n, m, k);
    }
}

} // verus!
