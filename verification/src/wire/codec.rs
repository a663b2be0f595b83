//! Common serialization rules: big-endian primitives written back-to-back,
//! length-prefixed strings, and the tagged key-value payload container.

use vstd::prelude::*;
use vstd::string::*;

use crate::wire::text::{decimal, push_decimal};

verus! {

/// Decode failure. A receiver discards a message that fails to decode; the
/// error carries enough detail for diagnostics only.
#[derive(Debug, Clone, PartialEq, Eq)]
pub enum Error {
    /// A primitive read would run past the end of the available bytes.
    Truncated,
    /// The datagram does not start with the expected 8-byte frame magic.
    BadMagic,
    /// Message type not defined by the protocol being decoded.
    UnknownMessageType(u8),
    /// Structurally invalid content (the reason is a static description).
    Malformed(&'static str),
}

impl Error {
    /// The description that [`Error::to_string`] renders.
    pub open spec fn text(self) -> Seq<char> {
        match self {
            Error::Truncated => "read past end of buffer"@,
            Error::BadMagic => "bad frame magic"@,
            Error::UnknownMessageType(t) => "unknown message type "@ + decimal(
                t as nat,
            ),
            Error::Malformed(why) => "malformed message: "@ + why@,
        }
    }

    /// A description for diagnostics.
    pub fn to_string(&self) -> (s: String)
        ensures
            s@ == self.text(),
    {
        match self {
            Error::Truncated => String::from_str("read past end of buffer"),
            Error::BadMagic => String::from_str("bad frame magic"),
            Error::UnknownMessageType(t) => {
                let mut s = String::from_str("unknown message type ");
                push_decimal(&mut s, *t);
                s
            },
            Error::Malformed(why) => String::from_str("malformed message: ").concat(why),
        }
    }
}

// ------------------------------------------------------ big-endian numbers

/// The number that the bytes `s` spell, most significant byte first.
pub open spec fn be_value(s: Seq<u8>) -> nat
    decreases s.len(),
{
    if s.len() == 0 {
        0
    } else {
        be_value(s.drop_last()) * 256 + s.last() as nat
    }
}

/// The `n` bytes that spell `v`, most significant byte first.
pub open spec fn be_bytes(v: nat, n: nat) -> Seq<u8>
    decreases n,
{
    if n == 0 {
        Seq::empty()
    } else {
        be_bytes(v / 256, (n - 1) as nat).push((v % 256) as u8)
    }
}

/// How many numbers `n` bytes can spell.
pub open spec fn pow256(n: nat) -> nat
    decreases n,
{
    if n == 0 {
        1
    } else {
        256 * pow256((n - 1) as nat)
    }
}

pub proof fn lemma_pow256_widths()
    ensures
        pow256(1) == 0x100,
        pow256(2) == 0x1_0000,
        pow256(4) == 0x1_0000_0000,
        pow256(8) == 0x1_0000_0000_0000_0000,
        pow256(16) == 0x1_0000_0000_0000_0000_0000_0000_0000_0000,
{
    reveal_with_fuel(pow256, 17);
}

proof fn lemma_pow256_monotonic(m: nat, n: nat)
    requires
        m <= n,
    ensures
        pow256(m) <= pow256(n),
    decreases n,
{
    if m < n {
        lemma_pow256_monotonic(m, (n - 1) as nat);
    }
}

pub proof fn lemma_be_bytes_len(v: nat, n: nat)
    ensures
        be_bytes(v, n).len() == n,
    decreases n,
{
    if n > 0 {
        lemma_be_bytes_len(v / 256, (n - 1) as nat);
    }
}

pub proof fn lemma_be_value_bound(s: Seq<u8>)
    ensures
        be_value(s) < pow256(s.len()),
    decreases s.len(),
{
    if s.len() > 0 {
        lemma_be_value_bound(s.drop_last());
    }
}

/// Reading back the bytes of a number gives the number.
pub proof fn lemma_be_value_of_bytes(v: nat, n: nat)
    requires
        v < pow256(n),
    ensures
        be_value(be_bytes(v, n)) == v,
    decreases n,
{
    if n > 0 {
        lemma_be_value_of_bytes(v / 256, (n - 1) as nat);
        assert(be_bytes(v, n).drop_last() =~= be_bytes(v / 256, (n - 1) as nat));
    }
}

/// Spelling out the number that some bytes spell gives the bytes.
pub proof fn lemma_be_bytes_of_value(s: Seq<u8>)
    ensures
        be_bytes(be_value(s), s.len()) == s,
    decreases s.len(),
{
    if s.len() > 0 {
        lemma_be_bytes_of_value(s.drop_last());
        assert(be_value(s) / 256 == be_value(s.drop_last()));
        assert(s =~= s.drop_last().push(s.last()));
    } else {
        assert(s =~= Seq::empty());
    }
}

/// The number that at most sixteen bytes spell.
fn decode_be(b: &[u8]) -> (r: u128)
    requires
        b@.len() <= 16,
    ensures
        r == be_value(b@),
        r < pow256(b@.len()),
{
    let mut acc: u128 = 0;
    let mut i: usize = 0;
    while i < b.len()
        invariant
            i <= b@.len() <= 16,
            acc == be_value(b@.take(i as int)),
        decreases b@.len() - i,
    {
        proof {
            lemma_be_value_bound(b@.take(i as int));
            lemma_pow256_monotonic(i as nat, 15);
            assert(pow256(15) == 0x1_0000_0000_0000_0000_0000_0000_0000_00) by {
                reveal_with_fuel(pow256, 16);
            }
            assert(b@.take(i + 1).drop_last() =~= b@.take(i as int));
        }
        acc = acc * 256 + b[i] as u128;
        i = i + 1;
    }
    proof {
        assert(b@.take(i as int) =~= b@);
        lemma_be_value_bound(b@);
    }
    acc
}

/// Append the `n` bytes that spell `v`.
fn push_be(buf: &mut Vec<u8>, v: u128, n: usize)
    ensures
        final(buf)@ == old(buf)@ + be_bytes(v as nat, n as nat),
    decreases n,
{
    if n > 0 {
        push_be(buf, v / 256, n - 1);
        buf.push((v % 256) as u8);
    }
    proof {
        assert(buf@ =~= old(buf)@ + be_bytes(v as nat, n as nat));
    }
}

/// Whether two byte strings are equal.
pub fn same_bytes(a: &[u8], b: &[u8]) -> (r: bool)
    ensures
        r == (a@ == b@),
{
    if a.len() != b.len() {
        return false;
    }
    let mut i: usize = 0;
    while i < a.len()
        invariant
            i <= a@.len(),
            a@.len() == b@.len(),
            forall|j: int| 0 <= j < i ==> a@[j] == b@[j],
        decreases a@.len() - i,
    {
        if a[i] != b[i] {
            return false;
        }
        i = i + 1;
    }
    proof {
        assert(a@ =~= b@);
    }
    true
}

/// An owned copy of some bytes.
pub fn owned_bytes(b: &[u8]) -> (v: Vec<u8>)
    ensures
        v@ == b@,
{
    let mut v: Vec<u8> = Vec::new();
    v.extend_from_slice(b);
    proof {
        assert(v@ =~= b@);
    }
    v
}

/// The payload entry key that four ASCII characters form: a big-endian `u32`.
pub fn fourcc(s: &[u8; 4]) -> (r: u32)
    ensures
        r == be_value(s@),
{
    proof {
        lemma_pow256_widths();
    }
    decode_be(s.as_slice()) as u32
}


// --------------------------------------------------------- reading bytes

/// What a read of `n` bytes makes of the unread bytes `s`: the bytes it gives
/// (or the failure), and what is left unread.
pub open spec fn parse_bytes(s: Seq<u8>, n: nat) -> (Result<Seq<u8>, Error>, Seq<u8>) {
    if n > s.len() {
        (Err(Error::Truncated), s)
    } else {
        (Ok(s.take(n as int)), s.skip(n as int))
    }
}

/// What the read of an `n`-byte unsigned number makes of `s`.
pub open spec fn parse_uint(s: Seq<u8>, n: nat) -> (Result<nat, Error>, Seq<u8>) {
    match parse_bytes(s, n) {
        (Ok(b), rest) => (Ok(be_value(b)), rest),
        (Err(e), rest) => (Err(e), rest),
    }
}

pub open spec fn parse_u8(s: Seq<u8>) -> (Result<u8, Error>, Seq<u8>) {
    match parse_uint(s, 1) {
        (Ok(v), rest) => (Ok(v as u8), rest),
        (Err(e), rest) => (Err(e), rest),
    }
}

pub open spec fn parse_u16(s: Seq<u8>) -> (Result<u16, Error>, Seq<u8>) {
    match parse_uint(s, 2) {
        (Ok(v), rest) => (Ok(v as u16), rest),
        (Err(e), rest) => (Err(e), rest),
    }
}

pub open spec fn parse_u32(s: Seq<u8>) -> (Result<u32, Error>, Seq<u8>) {
    match parse_uint(s, 4) {
        (Ok(v), rest) => (Ok(v as u32), rest),
        (Err(e), rest) => (Err(e), rest),
    }
}

pub open spec fn parse_u64(s: Seq<u8>) -> (Result<u64, Error>, Seq<u8>) {
    match parse_uint(s, 8) {
        (Ok(v), rest) => (Ok(v as u64), rest),
        (Err(e), rest) => (Err(e), rest),
    }
}

pub open spec fn parse_u128(s: Seq<u8>) -> (Result<u128, Error>, Seq<u8>) {
    match parse_uint(s, 16) {
        (Ok(v), rest) => (Ok(v as u128), rest),
        (Err(e), rest) => (Err(e), rest),
    }
}

/// Signed numbers are read as the unsigned number of their width, in two's
/// complement.
pub open spec fn parse_i16(s: Seq<u8>) -> (Result<i16, Error>, Seq<u8>) {
    match parse_u16(s) {
        (Ok(v), rest) => (Ok(v as i16), rest),
        (Err(e), rest) => (Err(e), rest),
    }
}

pub open spec fn parse_i32(s: Seq<u8>) -> (Result<i32, Error>, Seq<u8>) {
    match parse_u32(s) {
        (Ok(v), rest) => (Ok(v as i32), rest),
        (Err(e), rest) => (Err(e), rest),
    }
}

pub open spec fn parse_i64(s: Seq<u8>) -> (Result<i64, Error>, Seq<u8>) {
    match parse_u64(s) {
        (Ok(v), rest) => (Ok(v as i64), rest),
        (Err(e), rest) => (Err(e), rest),
    }
}

/// One byte: 0 is false, anything else true.
pub open spec fn parse_bool(s: Seq<u8>) -> (Result<bool, Error>, Seq<u8>) {
    match parse_u8(s) {
        (Ok(v), rest) => (Ok(v != 0), rest),
        (Err(e), rest) => (Err(e), rest),
    }
}

/// The array of the first eight bytes of `s`.
pub open spec fn eight(s: Seq<u8>) -> [u8; 8] {
    [s[0], s[1], s[2], s[3], s[4], s[5], s[6], s[7]]
}

pub proof fn lemma_eight(s: Seq<u8>)
    requires
        s.len() == 8,
    ensures
        eight(s)@ == s,
{
    assert(eight(s)@ =~= s);
}

pub proof fn lemma_eight_of_view(a: [u8; 8])
    ensures
        eight(a@) == a,
{
    assert(eight(a@) =~= a);
}

pub open spec fn parse_id_bytes(s: Seq<u8>) -> (Result<[u8; 8], Error>, Seq<u8>) {
    match parse_bytes(s, 8) {
        (Ok(b), rest) => (Ok(eight(b)), rest),
        (Err(e), rest) => (Err(e), rest),
    }
}

/// A length in four bytes, then that many bytes.
pub open spec fn parse_string(s: Seq<u8>) -> (Result<Seq<u8>, Error>, Seq<u8>) {
    match parse_u32(s) {
        (Ok(n), rest) => parse_bytes(rest, n as nat),
        (Err(e), rest) => (Err(e), rest),
    }
}

/// Sequential reader over a byte slice; its view is the bytes not yet read.
/// Every read is bounds-checked; a read past the end is [`Error::Truncated`]
/// and consumes nothing.
#[derive(Clone)]
pub struct Reader<'a> {
    buf: &'a [u8],
}

impl<'a> View for Reader<'a> {
    type V = Seq<u8>;

    closed spec fn view(&self) -> Seq<u8> {
        self.buf@
    }
}

impl<'a> Reader<'a> {
    pub fn new(buf: &'a [u8]) -> (r: Self)
        ensures
            r@ == buf@,
    {
        Reader { buf }
    }

    pub fn remaining(&self) -> (n: usize)
        ensures
            n == self@.len(),
    {
        self.buf.len()
    }

    pub fn is_empty(&self) -> (b: bool)
        ensures
            b == (self@.len() == 0),
    {
        self.buf.len() == 0
    }

    /// The unread remainder of the buffer, without consuming it.
    pub fn rest(&self) -> (b: &'a [u8])
        ensures
            b@ == self@,
    {
        self.buf
    }

    pub fn take(&mut self, n: usize) -> (r: Result<&'a [u8], Error>)
        ensures
            match r {
                Ok(b) => parse_bytes(old(self)@, n as nat) == (Ok::<_, Error>(b@), final(self)@),
                Err(e) => parse_bytes(old(self)@, n as nat) == (Err::<Seq<u8>, _>(e), final(self)@),
            },
    {
        if n > self.buf.len() {
            return Err(Error::Truncated);
        }
        let (head, tail) = self.buf.split_at(n);
        self.buf = tail;
        proof {
            assert(head@ =~= old(self)@.take(n as int));
            assert(tail@ =~= old(self)@.skip(n as int));
        }
        Ok(head)
    }

    pub fn u8(&mut self) -> (r: Result<u8, Error>)
        ensures
            (r, final(self)@) == parse_u8(old(self)@),
    {
        proof {
            lemma_pow256_widths();
        }
        let b = self.take(1)?;
        Ok(decode_be(b) as u8)
    }

    pub fn u16(&mut self) -> (r: Result<u16, Error>)
        ensures
            (r, final(self)@) == parse_u16(old(self)@),
    {
        proof {
            lemma_pow256_widths();
        }
        let b = self.take(2)?;
        Ok(decode_be(b) as u16)
    }

    pub fn u32(&mut self) -> (r: Result<u32, Error>)
        ensures
            (r, final(self)@) == parse_u32(old(self)@),
    {
        proof {
            lemma_pow256_widths();
        }
        let b = self.take(4)?;
        Ok(decode_be(b) as u32)
    }

    pub fn u64(&mut self) -> (r: Result<u64, Error>)
        ensures
            (r, final(self)@) == parse_u64(old(self)@),
    {
        proof {
            lemma_pow256_widths();
        }
        let b = self.take(8)?;
        Ok(decode_be(b) as u64)
    }

    pub fn u128(&mut self) -> (r: Result<u128, Error>)
        ensures
            (r, final(self)@) == parse_u128(old(self)@),
    {
        let b = self.take(16)?;
        Ok(decode_be(b))
    }

    pub fn i16(&mut self) -> (r: Result<i16, Error>)
        ensures
            (r, final(self)@) == parse_i16(old(self)@),
    {
        let v = self.u16()?;
        Ok(v as i16)
    }

    pub fn i32(&mut self) -> (r: Result<i32, Error>)
        ensures
            (r, final(self)@) == parse_i32(old(self)@),
    {
        let v = self.u32()?;
        Ok(v as i32)
    }

    pub fn i64(&mut self) -> (r: Result<i64, Error>)
        ensures
            (r, final(self)@) == parse_i64(old(self)@),
    {
        let v = self.u64()?;
        Ok(v as i64)
    }

    /// 0 is false, any nonzero byte decodes as true.
    pub fn bool(&mut self) -> (r: Result<bool, Error>)
        ensures
            (r, final(self)@) == parse_bool(old(self)@),
    {
        let v = self.u8()?;
        Ok(v != 0)
    }

    /// Fixed 8-byte identifier.
    pub fn id(&mut self) -> (r: Result<[u8; 8], Error>)
        ensures
            (r, final(self)@) == parse_id_bytes(old(self)@),
    {
        let b = self.take(8)?;
        Ok([b[0], b[1], b[2], b[3], b[4], b[5], b[6], b[7]])
    }

    /// Length-prefixed string. A declared length greater than the remaining
    /// bytes is a failure.
    pub fn string(&mut self) -> (r: Result<&'a [u8], Error>)
        ensures
            match r {
                Ok(b) => parse_string(old(self)@) == (Ok::<_, Error>(b@), final(self)@),
                Err(e) => parse_string(old(self)@) == (Err::<Seq<u8>, _>(e), final(self)@),
            },
    {
        let n = self.u32()?;
        self.take(n as usize)
    }
}

/// Read a signed 64-bit number.
pub fn read_i64(r: &mut Reader<'_>) -> (res: Result<i64, Error>)
    ensures
        (res, final(r)@) == parse_i64(old(r)@),
{
    r.i64()
}

// --------------------------------------------------------- writing bytes

/// The wire form of a length-prefixed string. Only the low 32 bits of the
/// length are written.
pub open spec fn string_bytes(s: Seq<u8>) -> Seq<u8> {
    be_bytes((s.len() as u32) as nat, 4) + s
}

/// The wire form of one payload-container entry: the key, the size of the
/// value (its low 32 bits), the value.
pub open spec fn entry_bytes(key: u32, value: Seq<u8>) -> Seq<u8> {
    be_bytes(key as nat, 4) + be_bytes((value.len() as u32) as nat, 4) + value
}

/// Append-only writer producing the wire encoding; its view is the bytes
/// written so far.
pub struct Writer {
    buf: Vec<u8>,
}

impl View for Writer {
    type V = Seq<u8>;

    closed spec fn view(&self) -> Seq<u8> {
        self.buf@
    }
}

impl Default for Writer {
    fn default() -> (w: Self)
        ensures
            w@ == Seq::<u8>::empty(),
    {
        Writer { buf: Vec::new() }
    }
}

impl Writer {
    pub fn new() -> (w: Self)
        ensures
            w@ == Seq::<u8>::empty(),
    {
        Writer { buf: Vec::new() }
    }

    pub fn len(&self) -> (n: usize)
        ensures
            n == self@.len(),
    {
        self.buf.len()
    }

    pub fn is_empty(&self) -> (b: bool)
        ensures
            b == (self@.len() == 0),
    {
        self.buf.len() == 0
    }

    pub fn into_vec(self) -> (v: Vec<u8>)
        ensures
            v@ == self@,
    {
        self.buf
    }

    pub fn bytes(&mut self, b: &[u8])
        ensures
            final(self)@ == old(self)@ + b@,
    {
        self.buf.extend_from_slice(b);
        proof {
            assert(self.buf@ =~= old(self)@ + b@);
        }
    }

    pub fn u8(&mut self, v: u8)
        ensures
            final(self)@ == old(self)@ + be_bytes(v as nat, 1),
    {
        push_be(&mut self.buf, v as u128, 1);
    }

    pub fn u16(&mut self, v: u16)
        ensures
            final(self)@ == old(self)@ + be_bytes(v as nat, 2),
    {
        push_be(&mut self.buf, v as u128, 2);
    }

    pub fn u32(&mut self, v: u32)
        ensures
            final(self)@ == old(self)@ + be_bytes(v as nat, 4),
    {
        push_be(&mut self.buf, v as u128, 4);
    }

    pub fn u64(&mut self, v: u64)
        ensures
            final(self)@ == old(self)@ + be_bytes(v as nat, 8),
    {
        push_be(&mut self.buf, v as u128, 8);
    }

    pub fn u128(&mut self, v: u128)
        ensures
            final(self)@ == old(self)@ + be_bytes(v as nat, 16),
    {
        push_be(&mut self.buf, v, 16);
    }

    pub fn i16(&mut self, v: i16)
        ensures
            final(self)@ == old(self)@ + be_bytes((v as u16) as nat, 2),
    {
        self.u16(v as u16);
    }

    pub fn i32(&mut self, v: i32)
        ensures
            final(self)@ == old(self)@ + be_bytes((v as u32) as nat, 4),
    {
        self.u32(v as u32);
    }

    pub fn i64(&mut self, v: i64)
        ensures
            final(self)@ == old(self)@ + be_bytes((v as u64) as nat, 8),
    {
        self.u64(v as u64);
    }

    /// Writes 0 or 1.
    pub fn bool(&mut self, v: bool)
        ensures
            final(self)@ == old(self)@ + be_bytes(if v { 1 } else { 0 }, 1),
    {
        if v {
            self.u8(1);
        } else {
            self.u8(0);
        }
    }

    pub fn id(&mut self, v: &[u8; 8])
        ensures
            final(self)@ == old(self)@ + v@,
    {
        self.bytes(v.as_slice());
    }

    pub fn string(&mut self, s: &[u8])
        ensures
            final(self)@ == old(self)@ + string_bytes(s@),
    {
        self.u32(s.len() as u32);
        self.bytes(s);
        proof {
            assert(self@ =~= old(self)@ + string_bytes(s@));
        }
    }

    /// Write one payload-container entry: key, value size, and the value
    /// bytes that `f` appends.
    pub fn entry<F: FnOnce(&mut Writer)>(&mut self, key: u32, f: F)
        requires
            forall|w: &mut Writer| call_requires(f, (w,)),
            forall|w: &mut Writer|
                call_ensures(f, (w,), ()) ==> (*w)@.is_prefix_of((*final(w))@),
        ensures
            exists|w: &mut Writer|
                #[trigger] call_ensures(f, (w,), ()) && (*w)@.len() == old(self)@.len() + 8
                    && final(self)@ == old(self)@ + entry_bytes(
                    key,
                    (*final(w))@.skip((*w)@.len() as int),
                ),
            forall|value: Seq<u8>|
                (forall|w: &mut Writer|
                    #[trigger] call_ensures(f, (w,), ()) ==> (*final(w))@ == (*w)@ + value)
                    ==> final(self)@ == old(self)@ + #[trigger] entry_bytes(key, value),
    {
        self.u32(key);
        let size_at = self.buf.len();
        self.u32(0);
        let ghost head = self@;
        proof {
            lemma_be_bytes_len(key as nat, 4);
            lemma_be_bytes_len(0, 4);
        }
        f(self);
        let size = (self.buf.len() - size_at - 4) as u32;
        let mut size_bytes: Vec<u8> = Vec::new();
        push_be(&mut size_bytes, size as u128, 4);
        let ghost value = self@.skip(head.len() as int);
        let ghost whole = self@;
        let total = self.buf.len();
        proof {
            lemma_be_bytes_len(size as nat, 4);
            assert(whole =~= head + value);
            assert(size_at == old(self)@.len() + 4);
            assert(size == value.len() as u32);
        }
        let mut i: usize = 0;
        while i < 4
            invariant
                i <= 4,
                size_bytes@.len() == 4,
                whole.len() == self@.len() == total,
                size_at + 4 <= total,
                forall|j: int| 0 <= j < whole.len() && !(size_at <= j < size_at + i) ==> self@[j] == whole[j],
                forall|j: int| size_at <= j < size_at + i ==> self@[j] == size_bytes@[j - size_at],
            decreases 4 - i,
        {
            self.buf[size_at + i] = size_bytes[i];
            i = i + 1;
        }
        proof {
            let made = old(self)@ + entry_bytes(key, value);
            assert(made.len() == self@.len());
            assert forall|j: int| 0 <= j < made.len() implies made[j] == self@[j] by {
                if j < old(self)@.len() {
                    assert(head[j] == old(self)@[j]);
                } else if j < size_at {
                    assert(head[j] == be_bytes(key as nat, 4)[j - old(self)@.len()]);
                } else if j < size_at + 4 {
                    assert(made[j] == size_bytes@[j - size_at]);
                } else {
                    assert(whole[j] == value[j - head.len()]);
                }
            }
            assert(self@ =~= made);
            assert forall|v: Seq<u8>|
                (forall|w: &mut Writer|
                    #[trigger] call_ensures(f, (w,), ()) ==> (*final(w))@ == (*w)@ + v) implies self@
                == old(self)@ + #[trigger] entry_bytes(key, v) by {
                assert(whole == head + v);
                assert(v =~= value);
            }
        }
    }
}


// ------------------------------------------------------ payload containers

/// The error of a value that leaves declared bytes unread.
pub open spec fn not_consumed() -> Error {
    Error::Malformed("entry value not exactly consumed")
}

/// What an entry value decodes to when a read makes `parsed` of its bytes:
/// the declared size must be exactly consumed.
pub open spec fn exactly<T>(parsed: (Result<T, Error>, Seq<u8>)) -> Result<T, Error> {
    match parsed.0 {
        Ok(v) => if parsed.1.len() == 0 {
            Ok(v)
        } else {
            Err(not_consumed())
        },
        Err(e) => Err(e),
    }
}

/// One payload-container entry.
#[derive(Debug)]
pub struct Entry<'a> {
    /// Four-character code as a big-endian `u32`.
    pub key: u32,
    /// The entry value, exactly the declared size.
    pub value: &'a [u8],
}

impl<'a> Entry<'a> {
    /// Decode the value with `f`, requiring that the declared size is exactly
    /// consumed.
    pub fn decode<T, F: FnOnce(&mut Reader<'_>) -> Result<T, Error>>(&self, f: F) -> (res: Result<
        T,
        Error,
    >)
        requires
            forall|r: &mut Reader<'_>| call_requires(f, (r,)),
        ensures
            exists|r: &mut Reader<'_>, v: Result<T, Error>| #[trigger]
                call_ensures(f, (r,), v) && (*r)@ == self.value@ && res == exactly(
                    (v, (*final(r))@),
                ),
    {
        let mut r = Reader::new(self.value);
        let v = f(&mut r)?;
        if !r.is_empty() {
            return Err(Error::Malformed("entry value not exactly consumed"));
        }
        Ok(v)
    }
}

/// What reading one entry makes of `s`: key and value, or the failure, and
/// what is left unread.
pub open spec fn parse_entry(s: Seq<u8>) -> (Result<(u32, Seq<u8>), Error>, Seq<u8>) {
    match parse_u32(s) {
        (Ok(key), r1) => match parse_string(r1) {
            (Ok(value), r2) => (Ok((key, value)), r2),
            (Err(e), r2) => (Err(e), r2),
        },
        (Err(e), r1) => (Err(e), r1),
    }
}

/// The meaning of a whole payload container: each entry in turn updates `acc`
/// by `step`; the first failure, of an entry or of a step, is the outcome.
pub open spec fn fold_entries<A>(
    payload: Seq<u8>,
    acc: A,
    step: spec_fn(A, u32, Seq<u8>) -> Result<A, Error>,
) -> Result<A, Error>
    decreases payload.len(),
{
    if payload.len() == 0 {
        Ok(acc)
    } else {
        match parse_entry(payload) {
            (Ok((key, value)), rest) => match step(acc, key, value) {
                Ok(next) => fold_entries(rest, next, step),
                Err(e) => Err(e),
            },
            (Err(e), _) => Err(e),
        }
    }
}

/// Walks the entries of a payload container; its view is the suffix that
/// starts at the next entry. An entry whose declared size extends past the
/// end of the payload is a failure; unknown keys are the caller's to skip.
pub struct Entries<'a> {
    r: Reader<'a>,
}

impl<'a> View for Entries<'a> {
    type V = Seq<u8>;

    closed spec fn view(&self) -> Seq<u8> {
        self.r@
    }
}

impl<'a> Entries<'a> {
    pub fn new(payload: &'a [u8]) -> (e: Self)
        ensures
            e@ == payload@,
    {
        Entries { r: Reader::new(payload) }
    }

    /// Bytes not yet consumed (the suffix starting at the next entry).
    pub fn rest(&self) -> (b: &'a [u8])
        ensures
            b@ == self@,
    {
        self.r.rest()
    }

    /// The next entry; `None` once every byte is consumed.
    pub fn next(&mut self) -> (o: Option<Result<Entry<'a>, Error>>)
        ensures
            match o {
                None => old(self)@.len() == 0 && final(self)@ == old(self)@,
                Some(Ok(e)) => old(self)@.len() > 0 && final(self)@.len() < old(self)@.len()
                    && parse_entry(old(self)@) == (
                    Ok::<_, Error>((e.key, e.value@)),
                    final(self)@,
                ),
                Some(Err(x)) => old(self)@.len() > 0 && parse_entry(old(self)@) == (
                    Err::<(u32, Seq<u8>), _>(x),
                    final(self)@,
                ),
            },
    {
        if self.r.is_empty() {
            return None;
        }
        let key = match self.r.u32() {
            Ok(key) => key,
            Err(e) => {
                return Some(Err(e));
            },
        };
        match self.r.string() {
            Ok(value) => Some(Ok(Entry { key, value })),
            Err(e) => Some(Err(e)),
        }
    }
}

// ------------------------------------------------- reading what was written

/// A number read back from its own bytes, whatever follows them.
pub proof fn lemma_parse_uint(v: nat, n: nat, rest: Seq<u8>)
    requires
        v < pow256(n),
    ensures
        parse_uint(be_bytes(v, n) + rest, n) == (Ok::<_, Error>(v), rest),
{
    lemma_be_bytes_len(v, n);
    lemma_be_value_of_bytes(v, n);
    assert((be_bytes(v, n) + rest).take(n as int) =~= be_bytes(v, n));
    assert((be_bytes(v, n) + rest).skip(n as int) =~= rest);
}

/// The bytes that a number was read from are the bytes it is written as.
pub proof fn lemma_parse_uint_inverse(s: Seq<u8>, n: nat)
    requires
        n <= s.len(),
    ensures
        parse_uint(s, n) matches (Ok(v), rest) && v < pow256(n) && s == be_bytes(v, n) + rest,
{
    lemma_be_bytes_of_value(s.take(n as int));
    lemma_be_value_bound(s.take(n as int));
    assert(s =~= s.take(n as int) + s.skip(n as int));
}

pub proof fn lemma_parse_u8(v: u8, rest: Seq<u8>)
    ensures
        parse_u8(be_bytes(v as nat, 1) + rest) == (Ok::<_, Error>(v), rest),
{
    lemma_pow256_widths();
    lemma_parse_uint(v as nat, 1, rest);
}

pub proof fn lemma_parse_u16(v: u16, rest: Seq<u8>)
    ensures
        parse_u16(be_bytes(v as nat, 2) + rest) == (Ok::<_, Error>(v), rest),
{
    lemma_pow256_widths();
    lemma_parse_uint(v as nat, 2, rest);
}

pub proof fn lemma_parse_u32(v: u32, rest: Seq<u8>)
    ensures
        parse_u32(be_bytes(v as nat, 4) + rest) == (Ok::<_, Error>(v), rest),
{
    lemma_pow256_widths();
    lemma_parse_uint(v as nat, 4, rest);
}

pub proof fn lemma_parse_u64(v: u64, rest: Seq<u8>)
    ensures
        parse_u64(be_bytes(v as nat, 8) + rest) == (Ok::<_, Error>(v), rest),
{
    lemma_pow256_widths();
    lemma_parse_uint(v as nat, 8, rest);
}

pub proof fn lemma_parse_u128(v: u128, rest: Seq<u8>)
    ensures
        parse_u128(be_bytes(v as nat, 16) + rest) == (Ok::<_, Error>(v), rest),
{
    lemma_pow256_widths();
    lemma_parse_uint(v as nat, 16, rest);
}

pub proof fn lemma_parse_i16(v: i16, rest: Seq<u8>)
    ensures
        parse_i16(be_bytes((v as u16) as nat, 2) + rest) == (Ok::<_, Error>(v), rest),
{
    lemma_parse_u16(v as u16, rest);
    assert((v as u16) as i16 == v) by (bit_vector);
}

pub proof fn lemma_parse_i32(v: i32, rest: Seq<u8>)
    ensures
        parse_i32(be_bytes((v as u32) as nat, 4) + rest) == (Ok::<_, Error>(v), rest),
{
    lemma_parse_u32(v as u32, rest);
    assert((v as u32) as i32 == v) by (bit_vector);
}

pub proof fn lemma_parse_i64(v: i64, rest: Seq<u8>)
    ensures
        parse_i64(be_bytes((v as u64) as nat, 8) + rest) == (Ok::<_, Error>(v), rest),
{
    lemma_parse_u64(v as u64, rest);
    assert((v as u64) as i64 == v) by (bit_vector);
}

pub proof fn lemma_parse_bool(v: bool, rest: Seq<u8>)
    ensures
        parse_bool(be_bytes(if v { 1 } else { 0 }, 1) + rest) == (Ok::<_, Error>(v), rest),
{
    lemma_parse_u8(if v { 1 } else { 0 }, rest);
}

pub proof fn lemma_parse_id_bytes(a: [u8; 8], rest: Seq<u8>)
    ensures
        parse_id_bytes(a@ + rest) == (Ok::<_, Error>(a), rest),
{
    assert((a@ + rest).take(8) =~= a@);
    assert((a@ + rest).skip(8) =~= rest);
    lemma_eight_of_view(a);
}

pub proof fn lemma_parse_string(s: Seq<u8>, rest: Seq<u8>)
    requires
        s.len() <= u32::MAX,
    ensures
        parse_string(string_bytes(s) + rest) == (Ok::<_, Error>(s), rest),
{
    let n = s.len() as u32;
    assert(string_bytes(s) + rest =~= be_bytes(n as nat, 4) + (s + rest));
    lemma_parse_u32(n, s + rest);
    assert((s + rest).take(n as int) =~= s);
    assert((s + rest).skip(n as int) =~= rest);
}

/// Whatever is written is read back, whatever follows it, and what follows is
/// left unread.
pub proof fn law_primitives_read_back(
    a: (u8, u16, u32, u64),
    b: (i16, i32, i64),
    c: bool,
    id: [u8; 8],
    s: Seq<u8>,
    rest: Seq<u8>,
)
    requires
        s.len() <= u32::MAX,
    ensures
        parse_u8(be_bytes(a.0 as nat, 1) + rest) == (Ok::<_, Error>(a.0), rest),
        parse_u16(be_bytes(a.1 as nat, 2) + rest) == (Ok::<_, Error>(a.1), rest),
        parse_u32(be_bytes(a.2 as nat, 4) + rest) == (Ok::<_, Error>(a.2), rest),
        parse_u64(be_bytes(a.3 as nat, 8) + rest) == (Ok::<_, Error>(a.3), rest),
        parse_i16(be_bytes((b.0 as u16) as nat, 2) + rest) == (Ok::<_, Error>(b.0), rest),
        parse_i32(be_bytes((b.1 as u32) as nat, 4) + rest) == (Ok::<_, Error>(b.1), rest),
        parse_i64(be_bytes((b.2 as u64) as nat, 8) + rest) == (Ok::<_, Error>(b.2), rest),
        parse_bool(be_bytes(if c { 1 } else { 0 }, 1) + rest) == (Ok::<_, Error>(c), rest),
        parse_id_bytes(id@ + rest) == (Ok::<_, Error>(id), rest),
        parse_string(string_bytes(s) + rest) == (Ok::<_, Error>(s), rest),
{
    lemma_parse_u8(a.0, rest);
    lemma_parse_u16(a.1, rest);
    lemma_parse_u32(a.2, rest);
    lemma_parse_u64(a.3, rest);
    lemma_parse_i16(b.0, rest);
    lemma_parse_i32(b.1, rest);
    lemma_parse_i64(b.2, rest);
    lemma_parse_bool(c, rest);
    lemma_parse_id_bytes(id, rest);
    lemma_parse_string(s, rest);
}

/// The one byte that a `u8` is written as.
pub proof fn lemma_one_byte(v: u8)
    ensures
        be_bytes(v as nat, 1) == seq![v],
{
    lemma_be_bytes_len(v as nat, 1);
    lemma_pow256_widths();
    lemma_be_value_of_bytes(v as nat, 1);
    let b = be_bytes(v as nat, 1);
    reveal_with_fuel(be_value, 2);
    assert(b[0] == v);
    assert(b =~= seq![v]);
}

/// What a `u8` read at position `k` of `s` gives: the byte there, and the
/// bytes after it as the rest.
pub proof fn lemma_head_byte(s: Seq<u8>, k: int)
    requires
        0 <= k < s.len(),
    ensures
        parse_u8(s.skip(k)) == (Ok::<_, Error>(s[k]), s.skip(k + 1)),
{
    let tail = s.skip(k + 1);
    lemma_one_byte(s[k]);
    assert(s.skip(k) =~= seq![s[k]] + tail);
    lemma_parse_u8(s[k], tail);
}

pub proof fn lemma_entry_len(key: u32, value: Seq<u8>)
    ensures
        entry_bytes(key, value).len() == 8 + value.len(),
{
    lemma_be_bytes_len(key as nat, 4);
    lemma_be_bytes_len((value.len() as u32) as nat, 4);
}

/// An entry read back from its own bytes, whatever follows them.
pub proof fn lemma_parse_entry(key: u32, value: Seq<u8>, rest: Seq<u8>)
    requires
        value.len() <= u32::MAX,
    ensures
        parse_entry(entry_bytes(key, value) + rest) == (Ok::<_, Error>((key, value)), rest),
{
    assert(entry_bytes(key, value) + rest =~= be_bytes(key as nat, 4) + (string_bytes(value)
        + rest));
    lemma_parse_u32(key, string_bytes(value) + rest);
    lemma_parse_string(value, rest);
}

/// A container that begins with an entry is that entry's step followed by the
/// remaining container.
pub proof fn lemma_fold_entry<A>(
    key: u32,
    value: Seq<u8>,
    rest: Seq<u8>,
    acc: A,
    step: spec_fn(A, u32, Seq<u8>) -> Result<A, Error>,
)
    requires
        value.len() <= u32::MAX,
    ensures
        fold_entries(entry_bytes(key, value) + rest, acc, step) == match step(acc, key, value) {
            Ok(next) => fold_entries(rest, next, step),
            Err(e) => Err(e),
        },
{
    lemma_parse_entry(key, value, rest);
    lemma_be_bytes_len(key as nat, 4);
    assert((entry_bytes(key, value) + rest).len() > 0);
}

/// A container that ends in the middle of an entry fails as a whole: an entry
/// whose declared size is greater than the bytes left is [`Error::Truncated`].
pub proof fn law_entry_past_end_fails<A>(
    key: u32,
    size: u32,
    value: Seq<u8>,
    acc: A,
    step: spec_fn(A, u32, Seq<u8>) -> Result<A, Error>,
)
    requires
        value.len() < size,
    ensures
        fold_entries(be_bytes(key as nat, 4) + be_bytes(size as nat, 4) + value, acc, step)
            == Err::<A, _>(Error::Truncated),
{
    let s = be_bytes(key as nat, 4) + be_bytes(size as nat, 4) + value;
    assert(s =~= be_bytes(key as nat, 4) + (be_bytes(size as nat, 4) + value));
    lemma_parse_u32(key, be_bytes(size as nat, 4) + value);
    lemma_parse_u32(size, value);
    lemma_be_bytes_len(key as nat, 4);
    assert(s.len() > 0);
}

/// The payload container that holds the given entries, in their order.
pub open spec fn container_bytes(entries: Seq<(u32, Seq<u8>)>) -> Seq<u8>
    decreases entries.len(),
{
    if entries.len() == 0 {
        Seq::empty()
    } else {
        entry_bytes(entries[0].0, entries[0].1) + container_bytes(entries.skip(1))
    }
}

/// What a list of entries makes of `acc`.
pub open spec fn fold_list<A>(
    entries: Seq<(u32, Seq<u8>)>,
    acc: A,
    step: spec_fn(A, u32, Seq<u8>) -> Result<A, Error>,
) -> Result<A, Error>
    decreases entries.len(),
{
    if entries.len() == 0 {
        Ok(acc)
    } else {
        match step(acc, entries[0].0, entries[0].1) {
            Ok(next) => fold_list(entries.skip(1), next, step),
            Err(e) => Err(e),
        }
    }
}

/// A container decodes to what its entries make of `acc`, one after the other.
pub proof fn law_container_is_its_entries<A>(
    entries: Seq<(u32, Seq<u8>)>,
    acc: A,
    step: spec_fn(A, u32, Seq<u8>) -> Result<A, Error>,
)
    requires
        forall|i: int| 0 <= i < entries.len() ==> (#[trigger] entries[i]).1.len() <= u32::MAX,
    ensures
        fold_entries(container_bytes(entries), acc, step) == fold_list(entries, acc, step),
    decreases entries.len(),
{
    if entries.len() > 0 {
        let rest = container_bytes(entries.skip(1));
        lemma_fold_entry(entries[0].0, entries[0].1, rest, acc, step);
        if let Ok(next) = step(acc, entries[0].0, entries[0].1) {
            assert forall|i: int| 0 <= i < entries.skip(1).len() implies (
            #[trigger] entries.skip(1)[i]).1.len() <= u32::MAX by {
                assert(entries.skip(1)[i] == entries[i + 1]);
            }
            law_container_is_its_entries(entries.skip(1), next, step);
        }
    }
}

/// Entries whose key a decoder does not know are skipped, wherever in the
/// container they stand: it decodes as if they were not there.
pub proof fn law_unknown_entries_are_skipped<A>(
    entries: Seq<(u32, Seq<u8>)>,
    acc: A,
    step: spec_fn(A, u32, Seq<u8>) -> Result<A, Error>,
    known: spec_fn((u32, Seq<u8>)) -> bool,
)
    requires
        forall|i: int| 0 <= i < entries.len() ==> (#[trigger] entries[i]).1.len() <= u32::MAX,
        forall|a: A, key: u32, value: Seq<u8>|
            !known((key, value)) ==> #[trigger] step(a, key, value) == Ok::<A, Error>(a),
    ensures
        fold_entries(container_bytes(entries), acc, step) == fold_entries(
            container_bytes(entries.filter(known)),
            acc,
            step,
        ),
{
    law_container_is_its_entries(entries, acc, step);
    let kept = entries.filter(known);
    assert forall|i: int| 0 <= i < kept.len() implies (#[trigger] kept[i]).1.len() <= u32::MAX by {
        assert(kept.contains(kept[i]));
        entries.lemma_filter_contains_rev(known, kept[i]);
    }
    law_container_is_its_entries(kept, acc, step);
    lemma_fold_list_filter(entries, acc, step, known);
}

proof fn lemma_fold_list_filter<A>(
    entries: Seq<(u32, Seq<u8>)>,
    acc: A,
    step: spec_fn(A, u32, Seq<u8>) -> Result<A, Error>,
    known: spec_fn((u32, Seq<u8>)) -> bool,
)
    requires
        forall|a: A, key: u32, value: Seq<u8>|
            !known((key, value)) ==> #[trigger] step(a, key, value) == Ok::<A, Error>(a),
    ensures
        fold_list(entries, acc, step) == fold_list(entries.filter(known), acc, step),
    decreases entries.len(),
{
    reveal_with_fuel(Seq::filter, 2);
    if entries.len() > 0 {
        let head = seq![entries[0]];
        let tail = entries.skip(1);
        assert(entries =~= head + tail);
        Seq::filter_distributes_over_add(head, tail, known);
        assert(head.drop_last() =~= Seq::empty());
        if known(entries[0]) {
            assert(head.filter(known) =~= head);
            assert((head + tail.filter(known)).skip(1) =~= tail.filter(known));
        } else {
            assert(step(acc, entries[0].0, entries[0].1) == Ok::<A, Error>(acc));
            assert(entries.filter(known) =~= tail.filter(known));
        }
        if let Ok(next) = step(acc, entries[0].0, entries[0].1) {
            lemma_fold_list_filter(tail, next, step, known);
        }
    }
}

} // verus!
