//! Offsets, 24-bit sizes and their fixed-width big-endian encodings.

use vstd::prelude::*;

verus! {

/// Size of a page, the unit of I/O and of alignment.
pub const PAGE_SIZE: u64 = 4096;

/// Mask of the 48 bits that an offset may use.
pub const MASK48: u64 = 0xffff_ffff_ffff;

/// Largest value that a 24-bit size field holds.
pub const MAX_U24: usize = 0xff_ffff;

/// Errors of the store.
#[derive(Debug, Clone, Copy, PartialEq, Eq, Structural)]
pub enum DbError {
    /// A fixed-width field was read from too few bytes.
    Format,
    /// A read, write or flush of the underlying file failed.
    Io,
    /// A record's length fields point past the valid data.
    CorruptRecord,
    /// A chain of the index does not end, or points out of range. The
    /// in-memory chains are proved to end, so no operation of `Engine`
    /// returns it.
    IndexCorruption,
    /// A length or the log itself does not fit its field.
    Capacity,
}

/// Big-endian value of a byte sequence.
pub open spec fn be_value(b: Seq<u8>) -> nat
    decreases b.len(),
{
    if b.len() == 0 {
        0
    } else {
        be_value(b.drop_last()) * 256 + b.last() as nat
    }
}

/// The `n` big-endian bytes of `v` (the low `n` bytes).
pub open spec fn be_bytes(v: nat, n: nat) -> Seq<u8>
    decreases n,
{
    if n == 0 {
        Seq::empty()
    } else {
        be_bytes(v / 256, (n - 1) as nat).push((v % 256) as u8)
    }
}

/// Reading back `n` big-endian bytes of `v` gives `v` modulo 256^n.
pub proof fn lemma_be_round_trip(v: nat, n: nat)
    ensures
        be_bytes(v, n).len() == n,
        be_value(be_bytes(v, n)) == v % pow256(n),
    decreases n,
{
    if n > 0 {
        lemma_be_round_trip(v / 256, (n - 1) as nat);
        let p = pow256((n - 1) as nat);
        assert(be_bytes(v, n).drop_last() == be_bytes(v / 256, (n - 1) as nat));
        assert(p > 0) by { lemma_pow256_pos((n - 1) as nat); }
        vstd::arithmetic::div_mod::lemma_breakdown(v as int, 256, p as int);
        assert(256 * p == pow256(n));
    }
}

/// 256 to the power `n`.
pub open spec fn pow256(n: nat) -> nat
    decreases n,
{
    if n == 0 { 1 } else { 256 * pow256((n - 1) as nat) }
}

pub proof fn lemma_pow256_pos(n: nat)
    ensures pow256(n) > 0,
    decreases n,
{
    if n > 0 { lemma_pow256_pos((n - 1) as nat); }
}


/// The value of `n` bytes is below 256^n.
pub proof fn lemma_be_value_bound(b: Seq<u8>)
    ensures
        be_value(b) < pow256(b.len()),
    decreases b.len(),
{
    if b.len() > 0 {
        lemma_be_value_bound(b.drop_last());
    }
}

pub proof fn lemma_pow256_values()
    ensures
        pow256(3) == 0x100_0000,
        pow256(6) == 0x1_0000_0000_0000,
{
    reveal_with_fuel(pow256, 7);
}

/// Appends the `n` low bytes of `v`, most significant first.
fn write_be(v: u64, n: usize, out: &mut Vec<u8>)
    ensures
        final(out)@ == old(out)@ + be_bytes(v as nat, n as nat),
    decreases n,
{
    if n > 0 {
        write_be(v / 256, n - 1, out);
        out.push((v % 256) as u8);
        proof {
            assert(be_bytes(v as nat, n as nat) == be_bytes((v / 256) as nat, (n - 1) as nat).push((v % 256) as u8));
        }
        assert(final(out)@ =~= old(out)@ + be_bytes(v as nat, n as nat));
    } else {
        assert(old(out)@ + be_bytes(v as nat, 0) =~= old(out)@);
    }
}

/// Reads the big-endian number held by the first `n` bytes of `b`.
fn read_be(b: &[u8], n: usize) -> (r: u64)
    requires
        n <= 6,
        n <= b@.len(),
    ensures
        r as nat == be_value(b@.subrange(0, n as int)),
{
    let mut acc: u64 = 0;
    let mut i: usize = 0;
    proof {
        lemma_pow256_values();
    }
    while i < n
        invariant
            i <= n,
            n <= 6,
            n <= b@.len(),
            pow256(6) == 0x1_0000_0000_0000,
            acc as nat == be_value(b@.subrange(0, i as int)),
        decreases n - i,
    {
        proof {
            lemma_be_value_bound(b@.subrange(0, i as int));
            lemma_pow256_mono(i as nat, 5);
            assert(b@.subrange(0, i + 1).drop_last() == b@.subrange(0, i as int));
        }
        acc = acc * 256 + b[i] as u64;
        i = i + 1;
    }
    acc
}

proof fn lemma_pow256_mono(a: nat, b: nat)
    requires
        a <= b,
    ensures
        pow256(a) <= pow256(b),
    decreases b,
{
    if a < b {
        lemma_pow256_mono(a, (b - 1) as nat);
    }
}


/// Position of a byte in the store's file space, held to 48 bits.
#[derive(Clone, Copy, Debug, PartialEq, Eq, Structural, PartialOrd, Ord, Hash)]
pub struct Offset(u64);

impl View for Offset {
    type V = nat;

    closed spec fn view(&self) -> nat {
        self.0 as nat
    }
}

impl Offset {
    #[verifier::type_invariant]
    spec fn inv(self) -> bool {
        self.0 <= MASK48
    }

    /// The offset that holds the low 48 bits of `n`.
    pub fn new(n: u64) -> (r: Offset)
        ensures
            r@ == n as nat % 0x1_0000_0000_0000,
    {
        let m = n & 0xffff_ffff_ffff;
        assert(m == n % 0x1_0000_0000_0000 && m <= 0xffff_ffff_ffff) by (bit_vector)
            requires m == n & 0xffff_ffff_ffff;
        Offset(m)
    }

    /// Serializes to its six big-endian bytes.
    pub fn to_vec(&self) -> (r: Vec<u8>)
        ensures
            r@ == be_bytes(self@, 6),
    {
        let mut v: Vec<u8> = Vec::new();
        write_be(self.0, 6, &mut v);
        assert(v@ =~= be_bytes(self@, 6));
        v
    }

    /// The number.
    pub fn as_u64(&self) -> (r: u64)
        ensures
            r as nat == self@,
            r <= MASK48,
    {
        proof {
            use_type_invariant(self);
        }
        self.0
    }

    /// Offset of the start of the page that holds this offset.
    pub fn this_page(&self) -> (r: Offset)
        ensures
            r@ == self@ / (PAGE_SIZE as nat) * (PAGE_SIZE as nat),
    {
        proof {
            use_type_invariant(self);
        }
        let p = self.0 / PAGE_SIZE * PAGE_SIZE;
        assert(p <= self.0) by (nonlinear_arith)
            requires p == self.0 / PAGE_SIZE * PAGE_SIZE, PAGE_SIZE == 4096;
        Offset::new(p)
    }

    /// Offset of the start of the page after the one that holds this offset.
    /// The last page of the 48-bit space has no next page.
    pub fn next_page(&self) -> (r: Offset)
        requires
            (self@ / (PAGE_SIZE as nat) + 1) * (PAGE_SIZE as nat) <= MASK48,
        ensures
            r@ == (self@ / (PAGE_SIZE as nat) + 1) * (PAGE_SIZE as nat),
    {
        let q = self.0 / PAGE_SIZE;
        let p = (q + 1) * PAGE_SIZE;
        let r = Offset::new(p);
        assert(p as nat % 0x1_0000_0000_0000 == p as nat);
        r
    }

    /// Number of the page that holds this offset.
    pub fn page_number(&self) -> (r: u64)
        ensures
            r as nat == self@ / (PAGE_SIZE as nat),
            r <= MASK48 / PAGE_SIZE,
    {
        proof {
            use_type_invariant(self);
        }
        self.0 / PAGE_SIZE
    }

    /// Position of this offset within its page.
    pub fn in_page_pos(&self) -> (r: usize)
        ensures
            r as nat == self@ % (PAGE_SIZE as nat),
    {
        (self.0 % PAGE_SIZE) as usize
    }
}

impl Default for Offset {
    fn default() -> (r: Offset)
        ensures
            r@ == 0,
    {
        Offset(0)
    }
}

impl From<u64> for Offset {
    /// The offset that holds the low 48 bits of `n`.
    fn from(n: u64) -> (r: Offset)
        ensures
            r@ == n as nat % 0x1_0000_0000_0000,
    {
        let m = n & 0xffff_ffff_ffff;
        assert(m == n % 0x1_0000_0000_0000 && m <= 0xffff_ffff_ffff) by (bit_vector)
            requires m == n & 0xffff_ffff_ffff;
        Offset(m)
    }
}

impl vstd::std_specs::convert::FromSpecImpl<u64> for Offset {
    open spec fn obeys_from_spec() -> bool {
        true
    }

    closed spec fn from_spec(n: u64) -> Offset {
        Offset(n & 0xffff_ffff_ffff)
    }
}


/// Six big-endian bytes of the low 48 bits of `v`.
pub fn encode_offset(v: u64) -> (r: Vec<u8>)
    ensures
        r@ == be_bytes(v as nat, 6),
{
    let mut out: Vec<u8> = Vec::new();
    write_be(v, 6, &mut out);
    assert(out@ =~= be_bytes(v as nat, 6));
    out
}

/// Reads an offset from the first six bytes of `b`.
pub fn decode_offset(b: &[u8]) -> (r: Result<Offset, DbError>)
    ensures
        match r {
            Ok(o) => b@.len() >= 6 && o@ == be_value(b@.subrange(0, 6)),
            Err(e) => b@.len() < 6 && e == DbError::Format,
        },
{
    if b.len() < 6 {
        return Err(DbError::Format);
    }
    let v = read_be(b, 6);
    proof {
        lemma_be_value_bound(b@.subrange(0, 6));
        lemma_pow256_values();
    }
    let o = Offset::new(v);
    assert(v as nat % 0x1_0000_0000_0000 == v as nat);
    Ok(o)
}

/// Three big-endian bytes of a size; a size above `MAX_U24` does not fit.
pub fn encode_size(s: usize) -> (r: Result<Vec<u8>, DbError>)
    ensures
        match r {
            Ok(v) => s <= MAX_U24 && v@ == be_bytes(s as nat, 3),
            Err(e) => s > MAX_U24 && e == DbError::Capacity,
        },
{
    if s > MAX_U24 {
        return Err(DbError::Capacity);
    }
    let mut out: Vec<u8> = Vec::new();
    write_be(s as u64, 3, &mut out);
    assert(out@ =~= be_bytes(s as nat, 3));
    Ok(out)
}

/// Reads a size from the first three bytes of `b`.
pub fn decode_size(b: &[u8]) -> (r: Result<usize, DbError>)
    ensures
        match r {
            Ok(n) => b@.len() >= 3 && n as nat == be_value(b@.subrange(0, 3)),
            Err(e) => b@.len() < 3 && e == DbError::Format,
        },
{
    if b.len() < 3 {
        return Err(DbError::Format);
    }
    let v = read_be(b, 3);
    proof {
        lemma_be_value_bound(b@.subrange(0, 3));
        lemma_pow256_values();
    }
    Ok(v as usize)
}

/// Decoding the encoding of a 48-bit offset gives the offset back.
pub proof fn lemma_offset_round_trip(v: u64)
    ensures
        be_bytes((v & MASK48) as nat, 6).len() == 6,
        be_value(be_bytes((v & MASK48) as nat, 6).subrange(0, 6)) == (v & MASK48) as nat,
{
    let m = v & MASK48;
    assert(m == v & 0xffff_ffff_ffff);
    assert(m <= 0xffff_ffff_ffff) by (bit_vector)
        requires m == v & 0xffff_ffff_ffff;
    lemma_be_round_trip(m as nat, 6);
    lemma_pow256_values();
    assert(be_bytes(m as nat, 6).subrange(0, 6) =~= be_bytes(m as nat, 6));
}

/// Decoding the encoding of a size that fits in 24 bits gives the size back.
pub proof fn lemma_size_round_trip(s: usize)
    requires
        s <= MAX_U24,
    ensures
        be_bytes(s as nat, 3).len() == 3,
        be_value(be_bytes(s as nat, 3).subrange(0, 3)) == s as nat,
{
    lemma_be_round_trip(s as nat, 3);
    lemma_pow256_values();
    assert(be_bytes(s as nat, 3).subrange(0, 3) =~= be_bytes(s as nat, 3));
}

/// Page arithmetic: an offset lies in its page, below the next page's start,
/// and the two page starts lie one page apart. It is stated for every offset
/// that `next_page` accepts, that is, outside the last page of the 48-bit space.
pub proof fn lemma_page_bounds(o: nat)
    requires
        (o / (PAGE_SIZE as nat) + 1) * (PAGE_SIZE as nat) <= MASK48,
    ensures
        o / (PAGE_SIZE as nat) * (PAGE_SIZE as nat) <= o,
        o < (o / (PAGE_SIZE as nat) + 1) * (PAGE_SIZE as nat),
        (o / (PAGE_SIZE as nat) + 1) * (PAGE_SIZE as nat)
            - o / (PAGE_SIZE as nat) * (PAGE_SIZE as nat) == PAGE_SIZE as nat,
{
    let q = o / 4096;
    assert(q * 4096 <= o && o < (q + 1) * 4096) by (nonlinear_arith)
        requires q == o / 4096;
    assert((q + 1) * 4096 == q * 4096 + 4096) by (nonlinear_arith);
}


/// A size held to 24 bits.
#[derive(Clone, Copy, Debug, PartialEq, Eq, Structural, Hash)]
pub struct U24(usize);

impl View for U24 {
    type V = nat;

    closed spec fn view(&self) -> nat {
        self.0 as nat
    }
}

impl U24 {
    #[verifier::type_invariant]
    spec fn inv(self) -> bool {
        self.0 <= MAX_U24
    }

    /// The size that holds the low 24 bits of `n`.
    pub fn new(n: usize) -> (r: U24)
        ensures
            r@ == n as nat % 0x100_0000,
    {
        let m = n & 0xff_ffff;
        assert(m == n % 0x100_0000 && m <= 0xff_ffff) by (bit_vector)
            requires m == n & 0xff_ffff;
        U24(m)
    }

    /// Reads a size from the first three bytes of `b`.
    pub fn from_slice(b: &[u8]) -> (r: Result<U24, DbError>)
        ensures
            match r {
                Ok(n) => b@.len() >= 3 && n@ == be_value(b@.subrange(0, 3)),
                Err(e) => b@.len() < 3 && e == DbError::Format,
            },
    {
        let n = decode_size(b)?;
        proof {
            lemma_be_value_bound(b@.subrange(0, 3));
            lemma_pow256_values();
        }
        Ok(U24::new(n))
    }

    /// The number.
    pub fn as_usize(&self) -> (r: usize)
        ensures
            r as nat == self@,
            r <= MAX_U24,
    {
        proof {
            use_type_invariant(self);
        }
        self.0
    }

    /// Writes the three big-endian bytes of the size over the start of `into`.
    pub fn serialize(&self, into: &mut [u8])
        requires
            old(into)@.len() >= 3,
        ensures
            final(into)@ == be_bytes(self@, 3) + old(into)@.subrange(3, old(into)@.len() as int),
    {
        proof {
            use_type_invariant(self);
        }
        let v = self.0;
        into[0] = ((v / 0x1_0000) % 256) as u8;
        into[1] = ((v / 256) % 256) as u8;
        into[2] = (v % 256) as u8;
        proof {
            reveal_with_fuel(be_bytes, 4);
            let n = v as nat;
            assert(n / 256 / 256 == n / 0x1_0000) by {
                vstd::arithmetic::div_mod::lemma_div_denominator(n as int, 256, 256);
            }
            assert(final(into)@ =~= be_bytes(self@, 3) + old(into)@.subrange(3, old(into)@.len() as int));
        }
    }
}

impl Default for U24 {
    fn default() -> (r: U24)
        ensures
            r@ == 0,
    {
        U24(0)
    }
}

impl From<usize> for U24 {
    /// The size that holds the low 24 bits of `n`.
    fn from(n: usize) -> (r: U24)
        ensures
            r@ == n as nat % 0x100_0000,
    {
        let m = n & 0xff_ffff;
        assert(m == n % 0x100_0000 && m <= 0xff_ffff) by (bit_vector)
            requires m == n & 0xff_ffff;
        U24(m)
    }
}

impl vstd::std_specs::convert::FromSpecImpl<usize> for U24 {
    open spec fn obeys_from_spec() -> bool {
        true
    }

    closed spec fn from_spec(n: usize) -> U24 {
        U24(n & 0xff_ffff)
    }
}

/// Something that offsets can be read from, in order.
pub trait OffsetReader {
    /// The bytes not read yet.
    spec fn unread(&self) -> Seq<u8>;

    /// Reads the next offset, or fails where fewer than six bytes are left.
    fn read_offset(&mut self) -> (r: Result<Offset, DbError>)
        ensures
            match r {
                Ok(o) => old(self).unread().len() >= 6
                    && o@ == be_value(old(self).unread().subrange(0, 6))
                    && final(self).unread() == old(self).unread().subrange(6, old(self).unread().len() as int),
                Err(e) => old(self).unread().len() < 6 && e == DbError::Format
                    && final(self).unread() == old(self).unread(),
            },
    ;
}

/// A byte buffer read from the front.
pub struct ByteCursor {
    buf: Vec<u8>,
    pos: usize,
}

impl ByteCursor {
    #[verifier::type_invariant]
    spec fn inv(self) -> bool {
        self.pos <= self.buf@.len()
    }

    /// The bytes not read yet.
    pub closed spec fn rest(&self) -> Seq<u8> {
        self.buf@.subrange(self.pos as int, self.buf@.len() as int)
    }

    /// A cursor at the start of `buf`.
    pub fn new(buf: Vec<u8>) -> (r: ByteCursor)
        ensures
            r.rest() == buf@,
    {
        let c = ByteCursor { buf, pos: 0 };
        assert(c.rest() =~= buf@);
        c
    }
}

impl OffsetReader for ByteCursor {
    closed spec fn unread(&self) -> Seq<u8> {
        self.rest()
    }

    fn read_offset(&mut self) -> (r: Result<Offset, DbError>) {
        proof {
            use_type_invariant(&*self);
        }
        let rest = vstd::slice::slice_subrange(self.buf.as_slice(), self.pos, self.buf.len());
        assert(rest@ == self.rest());
        let r = decode_offset(rest);
        if r.is_ok() {
            self.pos = self.pos + 6;
            assert(self.rest() =~= old(self).rest().subrange(6, old(self).rest().len() as int));
        }
        r
    }
}

} // verus!
