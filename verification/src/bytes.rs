//! Byte strings: little- and big-endian integers, lexicographic order and
//! copies.

use byteorder::ByteOrder;
use vstd::prelude::*;

verus! {

// ---------------------------------------------------------------------------
// Little-endian integers
// ---------------------------------------------------------------------------

/// The number that `s` writes in base 256, least significant digit first.
pub open spec fn le_value(s: Seq<u8>) -> nat
    decreases s.len(),
{
    if s.len() == 0 {
        0
    } else {
        s[0] as nat + 256 * le_value(s.drop_first())
    }
}

/// The `n` low base-256 digits of `v`, least significant first.
pub open spec fn le_bytes(v: nat, n: nat) -> Seq<u8>
    decreases n,
{
    if n == 0 {
        Seq::<u8>::empty()
    } else {
        seq![(v % 256) as u8] + le_bytes(v / 256, (n - 1) as nat)
    }
}

/// `256` to the power `n`: how many values `n` bytes can write.
pub open spec fn pow256(n: nat) -> nat
    decreases n,
{
    if n == 0 {
        1
    } else {
        256 * pow256((n - 1) as nat)
    }
}

/// The `n` low base-256 digits of `v`, most significant first.
pub open spec fn be_bytes(v: nat, n: nat) -> Seq<u8> {
    le_bytes(v, n).reverse()
}

/// The number that `s` writes in base 256, most significant digit first.
pub open spec fn be_value(s: Seq<u8>) -> nat {
    le_value(s.reverse())
}

/// `le_bytes` writes as many bytes as it was asked to.
pub proof fn lemma_le_bytes_len(v: nat, n: nat)
    ensures
        le_bytes(v, n).len() == n,
    decreases n,
{
    if n > 0 {
        lemma_le_bytes_len(v / 256, (n - 1) as nat);
    }
}

/// Reading back what was written gives the number, if it fits.
pub proof fn lemma_le_value_of_bytes(v: nat, n: nat)
    requires
        v < pow256(n),
    ensures
        le_bytes(v, n).len() == n,
        le_value(le_bytes(v, n)) == v,
    decreases n,
{
    if n > 0 {
        assert(v / 256 < pow256((n - 1) as nat)) by (nonlinear_arith)
            requires
                v < 256 * pow256((n - 1) as nat),
        ;
        lemma_le_value_of_bytes(v / 256, (n - 1) as nat);
        assert(le_bytes(v, n).drop_first() =~= le_bytes(v / 256, (n - 1) as nat));
    }
}

/// Writing back what was read gives the bytes.
pub proof fn lemma_le_bytes_of_value(s: Seq<u8>)
    ensures
        le_value(s) < pow256(s.len()),
        le_bytes(le_value(s), s.len()) == s,
    decreases s.len(),
{
    if s.len() > 0 {
        let rest = s.drop_first();
        lemma_le_bytes_of_value(rest);
        let v = le_value(s);
        assert(v % 256 == s[0] as nat && v / 256 == le_value(rest)) by (nonlinear_arith)
            requires
                v == s[0] as nat + 256 * le_value(rest),
                s[0] < 256,
        ;
        assert(le_bytes(v, s.len()) =~= s);
    }
}

/// The widths used by the encodings.
pub proof fn lemma_pow256_widths()
    ensures
        pow256(1) == 0x100,
        pow256(2) == 0x1_0000,
        pow256(4) == 0x1_0000_0000,
        pow256(8) == 0x1_0000_0000_0000_0000,
{
    reveal_with_fuel(pow256, 9);
}

/// `LittleEndian::read_u16` of the crate byteorder: the number in the first
/// two bytes, least significant first. It panics on fewer than two bytes.
#[verifier::external_body]
pub(crate) fn read_u16(buf: &[u8]) -> (r: u16)
    requires
        buf@.len() >= 2,
    ensures
        r as nat == le_value(buf@.subrange(0, 2)),
{
    byteorder::LittleEndian::read_u16(buf)
}

/// `LittleEndian::read_u32` of the crate byteorder: the number in the first
/// four bytes, least significant first. It panics on fewer than four bytes.
#[verifier::external_body]
pub(crate) fn read_u32(buf: &[u8]) -> (r: u32)
    requires
        buf@.len() >= 4,
    ensures
        r as nat == le_value(buf@.subrange(0, 4)),
{
    byteorder::LittleEndian::read_u32(buf)
}

/// `LittleEndian::read_u64` of the crate byteorder: the number in the first
/// eight bytes, least significant first. It panics on fewer than eight bytes.
#[verifier::external_body]
pub(crate) fn read_u64(buf: &[u8]) -> (r: u64)
    requires
        buf@.len() >= 8,
    ensures
        r as nat == le_value(buf@.subrange(0, 8)),
{
    byteorder::LittleEndian::read_u64(buf)
}

/// `LittleEndian::write_u32` of the crate byteorder into a buffer of four
/// bytes: the number, least significant byte first.
#[verifier::external_body]
pub(crate) fn write_u32(n: u32) -> (r: [u8; 4])
    ensures
        r@ == le_bytes(n as nat, 4),
{
    let mut buf = [0u8; 4];
    byteorder::LittleEndian::write_u32(&mut buf, n);
    buf
}

/// `LittleEndian::write_u64` of the crate byteorder into a buffer of eight
/// bytes: the number, least significant byte first.
#[verifier::external_body]
pub(crate) fn write_u64(n: u64) -> (r: [u8; 8])
    ensures
        r@ == le_bytes(n as nat, 8),
{
    let mut buf = [0u8; 8];
    byteorder::LittleEndian::write_u64(&mut buf, n);
    buf
}

/// The number in the two bytes of `bytes` at `off`.
pub fn u16_at(bytes: &[u8], off: usize) -> (r: u16)
    requires
        off + 2 <= bytes.len(),
    ensures
        r as nat == le_value(bytes@.subrange(off as int, off + 2)),
{
    let part = &bytes[off..off + 2];
    assert(part@.subrange(0, 2) =~= bytes@.subrange(off as int, off + 2));
    read_u16(part)
}

/// The number in the four bytes of `bytes` at `off`.
pub fn u32_at(bytes: &[u8], off: usize) -> (r: u32)
    requires
        off + 4 <= bytes.len(),
    ensures
        r as nat == le_value(bytes@.subrange(off as int, off + 4)),
{
    let part = &bytes[off..off + 4];
    assert(part@.subrange(0, 4) =~= bytes@.subrange(off as int, off + 4));
    read_u32(part)
}

/// The number in the eight bytes of `bytes` at `off`.
pub fn u64_at(bytes: &[u8], off: usize) -> (r: u64)
    requires
        off + 8 <= bytes.len(),
    ensures
        r as nat == le_value(bytes@.subrange(off as int, off + 8)),
{
    let part = &bytes[off..off + 8];
    assert(part@.subrange(0, 8) =~= bytes@.subrange(off as int, off + 8));
    read_u64(part)
}

/// Appends the `n` low bytes of `v` to `buf`, least significant first.
pub fn push_le(buf: &mut Vec<u8>, v: u64, n: usize)
    ensures
        final(buf)@ == old(buf)@ + le_bytes(v as nat, n as nat),
{
    let mut left: u64 = v;
    let mut k: usize = 0;
    while k < n
        invariant
            k <= n,
            buf@ + le_bytes(left as nat, (n - k) as nat) == old(buf)@ + le_bytes(
                v as nat,
                n as nat,
            ),
        decreases n - k,
    {
        let ghost before = buf@;
        buf.push((left % 256) as u8);
        assert(before + le_bytes(left as nat, (n - k) as nat) =~= buf@ + le_bytes(
            (left / 256) as nat,
            (n - k - 1) as nat,
        ));
        left = left / 256;
        k = k + 1;
    }
    assert(buf@ + le_bytes(left as nat, 0) =~= buf@);
}

/// The number that eight bytes write, most significant first.
pub fn be_to_u64(b: &[u8]) -> (r: u64)
    requires
        b@.len() == 8,
    ensures
        r as nat == be_value(b@),
{
    let mut v: u64 = 0;
    let mut k: usize = 0;
    proof {
        lemma_pow256_widths();
    }
    while k < 8
        invariant
            k <= 8,
            b@.len() == 8,
            v as nat == be_value(b@.subrange(0, k as int)),
            v < pow256(k as nat),
            pow256(8) == 0x1_0000_0000_0000_0000,
        decreases 8 - k,
    {
        proof {
            let head = b@.subrange(0, k as int);
            let next = b@.subrange(0, k + 1);
            assert(next.reverse()[0] == b@[k as int]);
            assert(next.reverse().drop_first() =~= head.reverse());
            lemma_pow256_step(k as nat, 8);
        }
        v = v * 256 + b[k] as u64;
        k = k + 1;
    }
    assert(b@.subrange(0, 8) =~= b@);
    v
}

/// `pow256` grows.
pub proof fn lemma_pow256_step(k: nat, n: nat)
    requires
        k < n,
    ensures
        pow256(k) * 256 == pow256(k + 1),
        pow256(k + 1) <= pow256(n),
    decreases n - k,
{
    assert(pow256(k + 1) == 256 * pow256(k));
    if k + 1 < n {
        lemma_pow256_step(k + 1, n);
        assert(pow256(k + 2) >= pow256(k + 1)) by (nonlinear_arith)
            requires
                pow256(k + 2) == 256 * pow256(k + 1),
                pow256(k + 1) >= 0,
        ;
    }
}

/// The eight bytes of `v`, most significant first.
pub fn u64_to_be(v: u64) -> (r: [u8; 8])
    ensures
        r@ == be_bytes(v as nat, 8),
{
    let le: [u8; 8] = write_u64(v);
    let mut out: [u8; 8] = [0u8; 8];
    let mut k: usize = 0;
    proof {
        lemma_le_bytes_len(v as nat, 8);
    }
    while k < 8
        invariant
            k <= 8,
            forall|j: int| 0 <= j < k ==> out@[j] == le@[7 - j],
        decreases 8 - k,
    {
        out[k] = le[7 - k];
        k = k + 1;
    }
    assert(out@ =~= le@.reverse());
    out
}

/// Big-endian reading undoes big-endian writing.
pub proof fn lemma_be_round_trip(v: u64)
    ensures
        be_bytes(v as nat, 8).len() == 8,
        be_value(be_bytes(v as nat, 8)) == v,
{
    lemma_pow256_widths();
    lemma_le_value_of_bytes(v as nat, 8);
    assert(le_bytes(v as nat, 8).reverse().reverse() =~= le_bytes(v as nat, 8));
}

/// Big-endian writing undoes big-endian reading.
pub proof fn lemma_be_bytes_of_value(s: Seq<u8>)
    requires
        s.len() == 8,
    ensures
        be_value(s) <= u64::MAX,
        be_bytes(be_value(s), 8) == s,
{
    lemma_pow256_widths();
    lemma_le_bytes_of_value(s.reverse());
    assert(s.reverse().reverse() =~= s);
}

// ---------------------------------------------------------------------------
// Lexicographic order
// ---------------------------------------------------------------------------

/// `a` comes strictly before `b` in the order that compares the first
/// differing byte, a proper prefix coming first.
pub open spec fn lex_lt(a: Seq<u8>, b: Seq<u8>) -> bool
    decreases a.len(),
{
    if b.len() == 0 {
        false
    } else if a.len() == 0 {
        true
    } else if a[0] != b[0] {
        a[0] < b[0]
    } else {
        lex_lt(a.drop_first(), b.drop_first())
    }
}

/// `a` comes before `b` or equals it.
pub open spec fn lex_le(a: Seq<u8>, b: Seq<u8>) -> bool {
    !lex_lt(b, a)
}

/// Of two byte strings exactly one of "before", "equal", "after" holds.
pub proof fn lemma_lex_total(a: Seq<u8>, b: Seq<u8>)
    ensures
        lex_lt(a, b) || a == b || lex_lt(b, a),
        !(lex_lt(a, b) && lex_lt(b, a)),
        !lex_lt(a, a),
        a == b ==> !lex_lt(a, b),
    decreases a.len(),
{
    if a.len() > 0 && b.len() > 0 {
        lemma_lex_total(a.drop_first(), b.drop_first());
        lemma_lex_total(a.drop_first(), a.drop_first());
        if a[0] == b[0] && a.drop_first() == b.drop_first() {
            assert(a =~= seq![a[0]] + a.drop_first());
            assert(b =~= seq![b[0]] + b.drop_first());
        }
    } else if a.len() == 0 && b.len() == 0 {
        assert(a =~= b);
    } else if a.len() > 0 {
        lemma_lex_total(a.drop_first(), a.drop_first());
    }
}

/// The order is transitive.
pub proof fn lemma_lex_trans(a: Seq<u8>, b: Seq<u8>, c: Seq<u8>)
    requires
        lex_lt(a, b),
        lex_lt(b, c),
    ensures
        lex_lt(a, c),
    decreases a.len(),
{
    if a.len() > 0 && b.len() > 0 && c.len() > 0 && a[0] == b[0] && b[0] == c[0] {
        lemma_lex_trans(a.drop_first(), b.drop_first(), c.drop_first());
    }
}

/// Before-or-equal followed by before is before.
pub proof fn lemma_lex_le_lt(a: Seq<u8>, b: Seq<u8>, c: Seq<u8>)
    requires
        lex_le(a, b),
        lex_lt(b, c),
    ensures
        lex_lt(a, c),
{
    lemma_lex_total(a, b);
    if a != b {
        lemma_lex_trans(a, b, c);
    }
}

/// Before followed by before-or-equal is before.
pub proof fn lemma_lex_lt_le(a: Seq<u8>, b: Seq<u8>, c: Seq<u8>)
    requires
        lex_lt(a, b),
        lex_le(b, c),
    ensures
        lex_lt(a, c),
{
    lemma_lex_total(b, c);
    if b != c {
        lemma_lex_trans(a, b, c);
    }
}

/// Is `a` strictly before `b`?
pub fn bytes_lt(a: &[u8], b: &[u8]) -> (r: bool)
    ensures
        r == lex_lt(a@, b@),
{
    let mut i: usize = 0;
    assert(a@.skip(0) =~= a@);
    assert(b@.skip(0) =~= b@);
    while i < a.len() && i < b.len()
        invariant
            i <= a@.len(),
            i <= b@.len(),
            lex_lt(a@, b@) == lex_lt(a@.skip(i as int), b@.skip(i as int)),
        decreases a@.len() - i,
    {
        assert(a@.skip(i as int).drop_first() =~= a@.skip(i + 1));
        assert(b@.skip(i as int).drop_first() =~= b@.skip(i + 1));
        if a[i] != b[i] {
            return a[i] < b[i];
        }
        i = i + 1;
    }
    i < b.len()
}

/// Are `a` and `b` the same bytes?
pub fn bytes_eq(a: &[u8], b: &[u8]) -> (r: bool)
    ensures
        r == (a@ == b@),
{
    if a.len() != b.len() {
        return false;
    }
    let mut i: usize = 0;
    while i < a.len()
        invariant
            i <= a@.len(),
            a@.len() == b@.len(),
            forall|j: int| 0 <= j < i ==> a@[j] == b@[j],
        decreases a@.len() - i,
    {
        if a[i] != b[i] {
            return false;
        }
        i = i + 1;
    }
    assert(a@ =~= b@);
    true
}

/// A copy of `s`.
pub fn copy_of(s: &[u8]) -> (r: Vec<u8>)
    ensures
        r@ == s@,
{
    let mut v: Vec<u8> = Vec::with_capacity(s.len());
    v.extend_from_slice(s);
    assert(v@ =~= s@);
    v
}

/// The 32 bytes of `bytes` at `off`.
pub fn hash_at(bytes: &[u8], off: usize) -> (r: [u8; 32])
    requires
        off + 32 <= bytes.len(),
    ensures
        r@ == bytes@.subrange(off as int, off + 32),
{
    let mut out: [u8; 32] = [0u8; 32];
    let mut k: usize = 0;
    while k < 32
        invariant
            k <= 32,
            off + 32 <= bytes.len(),
            forall|j: int| 0 <= j < k ==> out@[j] == bytes@[off + j],
        decreases 32 - k,
    {
        out[k] = bytes[off + k];
        k = k + 1;
    }
    assert(out@ =~= bytes@.subrange(off as int, off + 32));
    out
}

} // verus!
