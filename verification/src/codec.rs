//! The binary layout of stored values and wire messages.
//!
//! A value is laid out field by field, integers little-endian, variable-length parts
//! behind a 32-bit count, options and enums behind a one-byte tag. A layout says where
//! it ends (`Codec::prefix_free`), so that a byte string starts with the layout of at
//! most one value.

use crate::bytes::{
    byte_range, le_bytes, le_value, lemma_byte_ranges, lemma_le_bytes_len, lemma_le_bytes_of_value,
    lemma_le_value_of_bytes,
};
use crate::digest::{lemma_digest_ext, Digest};
use vstd::prelude::*;
use vstd::slice::slice_subrange;
use vstd::utf8::{
    decode_utf8, decode_utf8_encode_utf8, encode_utf8, encode_utf8_decode_utf8,
    encode_utf8_valid_utf8, valid_utf8,
};

verus! {

/// Why a value could not be encoded or decoded.
#[derive(Clone, Copy, Debug, PartialEq, Eq, Structural)]
pub enum CodecError {
    /// A variable-length part has more elements than a 32-bit count can say.
    TooLong,
    /// The bytes do not start with the layout of any value.
    Malformed(Fault),
    /// Bytes are left over behind the value.
    TrailingBytes,
}

/// What stops the reading of a value.
#[derive(Clone, Copy, Debug, PartialEq, Eq, Structural)]
pub enum Fault {
    /// The bytes end within the value.
    Short,
    /// No variant of an enum has the tag.
    Variant(u8),
    /// A truth value is neither 0 nor 1.
    Bool(u8),
    /// The tag of an option is neither 0 nor 1.
    OptionTag(u8),
    /// Text is good UTF-8 up to a position, and then so many bytes are not.
    InvalidUtf8 { at: usize, len: usize },
    /// Text is good UTF-8 up to a position, and then ends within a character.
    IncompleteUtf8 { at: usize },
}

/// A type with a binary layout.
pub trait Codec: Sized {
    /// What a value stands for.
    type M;

    spec fn model(&self) -> Self::M;

    /// What the value keeps beside its model agrees with it.
    spec fn well_formed(&self) -> bool;

    /// The bytes of a value.
    spec fn layout(m: Self::M) -> Seq<u8>;

    /// Every variable-length part is short enough for its 32-bit count.
    spec fn fits(m: Self::M) -> bool;

    /// What stops the reading of bytes that start with no value's layout.
    spec fn fault(bytes: Seq<u8>) -> Fault;

    /// A byte string starts with the layout of at most one value.
    proof fn prefix_free(a: Self::M, b: Self::M, s: Seq<u8>, t: Seq<u8>)
        requires
            Self::fits(a),
            Self::fits(b),
            Self::layout(a) + s == Self::layout(b) + t,
        ensures
            a == b,
            s == t,
    ;

    /// Appends the value's layout to `out`; `false` if it does not fit, and then the
    /// bytes already appended are of no use.
    fn encode(&self, out: &mut Vec<u8>) -> (ok: bool)
        ensures
            ok == Self::fits(self.model()),
            ok ==> final(out)@ == old(out)@ + Self::layout(self.model()),
    ;

    /// Takes a value off the front of `input`.
    fn decode<'a>(input: &'a [u8]) -> (r: Result<(Self, &'a [u8]), Fault>)
        ensures
            match r {
                Ok((v, rest)) => {
                    &&& v.well_formed()
                    &&& Self::fits(v.model())
                    &&& input@ == Self::layout(v.model()) + rest@
                },
                Err(f) => {
                    &&& forall|m: Self::M, rest: Seq<u8>|
                        Self::fits(m) ==> input@ != #[trigger] (Self::layout(m) + rest)
                    &&& f == Self::fault(input@)
                },
            },
    ;
}

/// The whole of `bytes` is the layout of `m`.
pub open spec fn encodes<T: Codec>(bytes: Seq<u8>, m: T::M) -> bool {
    T::fits(m) && bytes == T::layout(m)
}

/// Some value's layout, with bytes behind it, makes up `bytes`.
pub open spec fn has_trailing<T: Codec>(bytes: Seq<u8>) -> bool {
    exists|m: T::M, rest: Seq<u8>|
        T::fits(m) && rest.len() > 0 && bytes == #[trigger] (T::layout(m) + rest)
}

/// Bytes that start with a value, and what is left behind it.
pub open spec fn reads<T: Codec>(bytes: Seq<u8>, m: T::M, rest: Seq<u8>) -> bool {
    T::fits(m) && bytes == T::layout(m) + rest
}

/// What is left of bytes behind the value that they start with.
pub open spec fn rest_of<T: Codec>(bytes: Seq<u8>) -> Option<Seq<u8>> {
    if exists|p: (T::M, Seq<u8>)| #[trigger] reads::<T>(bytes, p.0, p.1) {
        Some((choose|p: (T::M, Seq<u8>)| #[trigger] reads::<T>(bytes, p.0, p.1)).1)
    } else {
        None
    }
}

proof fn lemma_rest_of<T: Codec>(m: T::M, rest: Seq<u8>)
    requires
        T::fits(m),
    ensures
        rest_of::<T>(T::layout(m) + rest) == Some(rest),
{
    let bytes = T::layout(m) + rest;
    let q = (m, rest);
    assert(reads::<T>(bytes, q.0, q.1));
    let p = choose|p: (T::M, Seq<u8>)| #[trigger] reads::<T>(bytes, p.0, p.1);
    T::prefix_free(m, p.0, rest, p.1);
}

/// Why bytes are not those of a value.
pub open spec fn misreading<T: Codec>(bytes: Seq<u8>) -> CodecError {
    if has_trailing::<T>(bytes) {
        CodecError::TrailingBytes
    } else {
        CodecError::Malformed(T::fault(bytes))
    }
}

/// No two values have the same bytes.
pub proof fn layout_is_injective<T: Codec>(a: T::M, b: T::M)
    requires
        T::fits(a),
        T::fits(b),
        T::layout(a) == T::layout(b),
    ensures
        a == b,
{
    T::prefix_free(a, b, Seq::empty(), Seq::empty());
}

/// A value's bytes are never another value's bytes with more bytes behind them.
pub proof fn layout_has_no_trailing<T: Codec>(m: T::M)
    requires
        T::fits(m),
    ensures
        !has_trailing::<T>(T::layout(m)),
{
    assert forall|n: T::M, rest: Seq<u8>|
        T::fits(n) && rest.len() > 0 implies T::layout(m) != #[trigger] (T::layout(n) + rest) by {
        if T::layout(m) == T::layout(n) + rest {
            assert(T::layout(m) + Seq::<u8>::empty() =~= T::layout(m));
            T::prefix_free(m, n, Seq::empty(), rest);
        }
    }
}

/// The bytes of a value.
pub fn to_vec<T: Codec>(value: &T) -> (r: Result<Vec<u8>, CodecError>)
    ensures
        T::fits(value.model()) ==> r is Ok && r->Ok_0@ == T::layout(value.model()),
        !T::fits(value.model()) ==> r == Err::<Vec<u8>, CodecError>(CodecError::TooLong),
{
    let mut out: Vec<u8> = Vec::new();
    if value.encode(&mut out) {
        assert(out@ =~= T::layout(value.model()));
        Ok(out)
    } else {
        Err(CodecError::TooLong)
    }
}

/// The value whose bytes are exactly `bytes`.
pub fn from_slice<T: Codec>(bytes: &[u8]) -> (r: Result<T, CodecError>)
    ensures
        match r {
            Ok(v) => v.well_formed() && encodes::<T>(bytes@, v.model()),
            Err(e) => {
                &&& forall|m: T::M| !#[trigger] encodes::<T>(bytes@, m)
                &&& e == misreading::<T>(bytes@)
            },
        },
{
    match T::decode(bytes) {
        Ok((v, rest)) => {
            if rest.len() == 0 {
                assert(T::layout(v.model()) + rest@ =~= T::layout(v.model()));
                Ok(v)
            } else {
                assert forall|m: T::M| !#[trigger] encodes::<T>(bytes@, m) by {
                    if encodes::<T>(bytes@, m) {
                        layout_has_no_trailing::<T>(m);
                    }
                }
                Err(CodecError::TrailingBytes)
            }
        },
        Err(f) => {
            assert forall|m: T::M| !#[trigger] encodes::<T>(bytes@, m) by {
                if encodes::<T>(bytes@, m) {
                    assert(bytes@ =~= T::layout(m) + Seq::<u8>::empty());
                }
            }
            Err(CodecError::Malformed(f))
        },
    }
}

// ---------------------------------------------------------------------------
// Integers
// ---------------------------------------------------------------------------

/// `borsh::to_vec` on a `u16`: its two bytes, least significant first. Serialising an
/// integer into a vector never fails.
#[verifier::external_body]
fn borsh_u16_bytes(v: u16) -> (r: Vec<u8>)
    ensures
        r@ == le_bytes(v as nat, 2),
{
    borsh::to_vec(&v).unwrap()
}

/// `borsh::to_vec` on a `u32`: its four bytes, least significant first. Serialising an
/// integer into a vector never fails.
#[verifier::external_body]
fn borsh_u32_bytes(v: u32) -> (r: Vec<u8>)
    ensures
        r@ == le_bytes(v as nat, 4),
{
    borsh::to_vec(&v).unwrap()
}

/// `borsh::to_vec` on a `u64`: its eight bytes, least significant first. Serialising an
/// integer into a vector never fails.
#[verifier::external_body]
fn borsh_u64_bytes(v: u64) -> (r: Vec<u8>)
    ensures
        r@ == le_bytes(v as nat, 8),
{
    borsh::to_vec(&v).unwrap()
}

/// `borsh::to_vec` on an `i64`: the eight bytes of its two's complement, least
/// significant first. Serialising an integer into a vector never fails.
#[verifier::external_body]
fn borsh_i64_bytes(v: i64) -> (r: Vec<u8>)
    ensures
        r@ == le_bytes(i64_bits(v), 8),
{
    borsh::to_vec(&v).unwrap()
}

/// `borsh::from_slice` for `u16`: reads exactly two bytes, least significant first, and
/// fails on any other length.
#[verifier::external_body]
fn borsh_u16_read(bytes: &[u8]) -> (r: Option<u16>)
    ensures
        r is Some <==> bytes@.len() == 2,
        r matches Some(v) ==> v as nat == le_value(bytes@),
{
    borsh::from_slice::<u16>(bytes).ok()
}

/// `borsh::from_slice` for `u32`: reads exactly four bytes, least significant first, and
/// fails on any other length.
#[verifier::external_body]
fn borsh_u32_read(bytes: &[u8]) -> (r: Option<u32>)
    ensures
        r is Some <==> bytes@.len() == 4,
        r matches Some(v) ==> v as nat == le_value(bytes@),
{
    borsh::from_slice::<u32>(bytes).ok()
}

/// `borsh::from_slice` for `u64`: reads exactly eight bytes, least significant first, and
/// fails on any other length.
#[verifier::external_body]
fn borsh_u64_read(bytes: &[u8]) -> (r: Option<u64>)
    ensures
        r is Some <==> bytes@.len() == 8,
        r matches Some(v) ==> v as nat == le_value(bytes@),
{
    borsh::from_slice::<u64>(bytes).ok()
}

/// `borsh::from_slice` for `i64`: reads exactly eight bytes of two's complement, least
/// significant first, and fails on any other length.
#[verifier::external_body]
fn borsh_i64_read(bytes: &[u8]) -> (r: Option<i64>)
    ensures
        r is Some <==> bytes@.len() == 8,
        r matches Some(v) ==> i64_bits(v) == le_value(bytes@),
{
    borsh::from_slice::<i64>(bytes).ok()
}

/// A signed number as the unsigned number with the same two's complement bits.
pub open spec fn i64_bits(v: i64) -> nat {
    if v < 0 {
        (v + 0x1_0000_0000_0000_0000) as nat
    } else {
        v as nat
    }
}

/// Fixed-width numbers are told apart by their bytes, whatever follows.
proof fn lemma_le_prefix(a: nat, b: nat, width: nat, s: Seq<u8>, t: Seq<u8>)
    requires
        a < byte_range(width),
        b < byte_range(width),
        le_bytes(a, width) + s == le_bytes(b, width) + t,
    ensures
        a == b,
        s == t,
{
    lemma_le_bytes_len(a, width);
    lemma_le_bytes_len(b, width);
    lemma_le_value_of_bytes(a, width);
    lemma_le_value_of_bytes(b, width);
    let x = le_bytes(a, width);
    let y = le_bytes(b, width);
    assert(x =~= (x + s).subrange(0, width as int));
    assert(y =~= (y + t).subrange(0, width as int));
    assert(s =~= (x + s).subrange(width as int, (x + s).len() as int));
    assert(t =~= (y + t).subrange(width as int, (y + t).len() as int));
}

/// The bytes at the front of `input` are the layout of the number that they read as.
proof fn lemma_le_front(input: Seq<u8>, width: nat)
    requires
        width <= input.len(),
    ensures
        input == le_bytes(le_value(input.subrange(0, width as int)), width) + input.subrange(
            width as int,
            input.len() as int,
        ),
{
    let front = input.subrange(0, width as int);
    lemma_le_bytes_of_value(front);
    assert(input =~= front + input.subrange(width as int, input.len() as int));
}

/// Nothing, in no bytes.
impl Codec for () {
    type M = ();

    open spec fn model(&self) -> () {
        ()
    }

    open spec fn well_formed(&self) -> bool {
        true
    }

    open spec fn layout(m: ()) -> Seq<u8> {
        Seq::empty()
    }

    open spec fn fits(m: ()) -> bool {
        true
    }

    open spec fn fault(bytes: Seq<u8>) -> Fault {
        Fault::Short
    }

    proof fn prefix_free(a: (), b: (), s: Seq<u8>, t: Seq<u8>) {
        assert(Self::layout(a) + s =~= s);
        assert(Self::layout(b) + t =~= t);
    }

    fn encode(&self, out: &mut Vec<u8>) -> (ok: bool) {
        assert(out@ =~= old(out)@ + Self::layout(()));
        true
    }

    fn decode<'a>(input: &'a [u8]) -> (r: Result<((), &'a [u8]), Fault>) {
        assert(input@ =~= Self::layout(()) + input@);
        Ok(((), input))
    }
}

impl Codec for u8 {
    type M = u8;

    open spec fn model(&self) -> u8 {
        *self
    }

    open spec fn well_formed(&self) -> bool {
        true
    }

    open spec fn layout(m: u8) -> Seq<u8> {
        seq![m]
    }

    open spec fn fits(m: u8) -> bool {
        true
    }

    open spec fn fault(bytes: Seq<u8>) -> Fault {
        Fault::Short
    }

    proof fn prefix_free(a: u8, b: u8, s: Seq<u8>, t: Seq<u8>) {
        let x = seq![a] + s;
        let y = seq![b] + t;
        assert(x[0] == a && y[0] == b);
        assert(x.drop_first() =~= s);
        assert(y.drop_first() =~= t);
    }

    fn encode(&self, out: &mut Vec<u8>) -> (ok: bool) {
        out.push(*self);
        assert(out@ =~= old(out)@ + seq![*self]);
        true
    }

    fn decode<'a>(input: &'a [u8]) -> (r: Result<(u8, &'a [u8]), Fault>) {
        if input.len() == 0 {
            assert forall|m: u8, rest: Seq<u8>| input@ != #[trigger] (seq![m] + rest) by {
                assert((seq![m] + rest).len() > 0);
            }
            return Err(Fault::Short);
        }
        let rest = slice_subrange(input, 1, input.len());
        assert(input@ =~= seq![input@[0]] + rest@);
        Ok((input[0], rest))
    }
}

impl Codec for bool {
    type M = bool;

    open spec fn model(&self) -> bool {
        *self
    }

    open spec fn well_formed(&self) -> bool {
        true
    }

    open spec fn layout(m: bool) -> Seq<u8> {
        seq![if m { 1u8 } else { 0u8 }]
    }

    open spec fn fits(m: bool) -> bool {
        true
    }

    open spec fn fault(bytes: Seq<u8>) -> Fault {
        if bytes.len() == 0 {
            Fault::Short
        } else {
            Fault::Bool(bytes[0])
        }
    }

    proof fn prefix_free(a: bool, b: bool, s: Seq<u8>, t: Seq<u8>) {
        <u8 as Codec>::prefix_free(
            if a { 1u8 } else { 0u8 },
            if b { 1u8 } else { 0u8 },
            s,
            t,
        );
    }

    fn encode(&self, out: &mut Vec<u8>) -> (ok: bool) {
        let tag: u8 = if *self { 1 } else { 0 };
        tag.encode(out)
    }

    fn decode<'a>(input: &'a [u8]) -> (r: Result<(bool, &'a [u8]), Fault>) {
        if input.len() > 0 && input[0] <= 1 {
            let rest = slice_subrange(input, 1, input.len());
            let v = input[0] == 1;
            assert(input@ =~= Self::layout(v) + rest@);
            Ok((v, rest))
        } else {
            assert forall|m: bool, rest: Seq<u8>| input@ != #[trigger] (Self::layout(m) + rest) by {
                let s = Self::layout(m) + rest;
                assert(s.len() > 0 && s[0] <= 1);
            }
            if input.len() == 0 {
                Err(Fault::Short)
            } else {
                Err(Fault::Bool(input[0]))
            }
        }
    }
}

impl Codec for u16 {
    type M = u16;

    open spec fn model(&self) -> u16 {
        *self
    }

    open spec fn well_formed(&self) -> bool {
        true
    }

    open spec fn layout(m: u16) -> Seq<u8> {
        le_bytes(m as nat, 2)
    }

    open spec fn fits(m: u16) -> bool {
        true
    }

    open spec fn fault(bytes: Seq<u8>) -> Fault {
        Fault::Short
    }

    proof fn prefix_free(a: u16, b: u16, s: Seq<u8>, t: Seq<u8>) {
        lemma_byte_ranges();
        lemma_le_prefix(a as nat, b as nat, 2, s, t);
    }

    fn encode(&self, out: &mut Vec<u8>) -> (ok: bool) {
        let mut part: Vec<u8> = borsh_u16_bytes(*self);
        out.append(&mut part);
        assert(out@ =~= old(out)@ + Self::layout(*self));
        true
    }

    fn decode<'a>(input: &'a [u8]) -> (r: Result<(u16, &'a [u8]), Fault>) {
        if input.len() < 2 {
            assert forall|m: u16, rest: Seq<u8>| input@ != #[trigger] (Self::layout(m) + rest) by {
                lemma_le_bytes_len(m as nat, 2);
            }
            return Err(Fault::Short);
        }
        proof {
            lemma_le_front(input@, 2);
        }
        match borsh_u16_read(slice_subrange(input, 0, 2)) {
            Some(v) => Ok((v, slice_subrange(input, 2, input.len()))),
            None => Err(Fault::Short),
        }
    }
}

impl Codec for u32 {
    type M = u32;

    open spec fn model(&self) -> u32 {
        *self
    }

    open spec fn well_formed(&self) -> bool {
        true
    }

    open spec fn layout(m: u32) -> Seq<u8> {
        le_bytes(m as nat, 4)
    }

    open spec fn fits(m: u32) -> bool {
        true
    }

    open spec fn fault(bytes: Seq<u8>) -> Fault {
        Fault::Short
    }

    proof fn prefix_free(a: u32, b: u32, s: Seq<u8>, t: Seq<u8>) {
        lemma_byte_ranges();
        lemma_le_prefix(a as nat, b as nat, 4, s, t);
    }

    fn encode(&self, out: &mut Vec<u8>) -> (ok: bool) {
        let mut part: Vec<u8> = borsh_u32_bytes(*self);
        out.append(&mut part);
        assert(self.model() == *self);
        assert(Self::fits(*self));
        assert(out@ =~= old(out)@ + Self::layout(self.model()));
        true
    }

    fn decode<'a>(input: &'a [u8]) -> (r: Result<(u32, &'a [u8]), Fault>) {
        if input.len() < 4 {
            assert forall|m: u32, rest: Seq<u8>| input@ != #[trigger] (Self::layout(m) + rest) by {
                lemma_le_bytes_len(m as nat, 4);
            }
            return Err(Fault::Short);
        }
        proof {
            lemma_le_front(input@, 4);
        }
        match borsh_u32_read(slice_subrange(input, 0, 4)) {
            Some(v) => Ok((v, slice_subrange(input, 4, input.len()))),
            None => Err(Fault::Short),
        }
    }
}

impl Codec for u64 {
    type M = u64;

    open spec fn model(&self) -> u64 {
        *self
    }

    open spec fn well_formed(&self) -> bool {
        true
    }

    open spec fn layout(m: u64) -> Seq<u8> {
        le_bytes(m as nat, 8)
    }

    open spec fn fits(m: u64) -> bool {
        true
    }

    open spec fn fault(bytes: Seq<u8>) -> Fault {
        Fault::Short
    }

    proof fn prefix_free(a: u64, b: u64, s: Seq<u8>, t: Seq<u8>) {
        lemma_byte_ranges();
        lemma_le_prefix(a as nat, b as nat, 8, s, t);
    }

    fn encode(&self, out: &mut Vec<u8>) -> (ok: bool) {
        let mut part: Vec<u8> = borsh_u64_bytes(*self);
        out.append(&mut part);
        assert(out@ =~= old(out)@ + Self::layout(*self));
        true
    }

    fn decode<'a>(input: &'a [u8]) -> (r: Result<(u64, &'a [u8]), Fault>) {
        if input.len() < 8 {
            assert forall|m: u64, rest: Seq<u8>| input@ != #[trigger] (Self::layout(m) + rest) by {
                lemma_le_bytes_len(m as nat, 8);
            }
            return Err(Fault::Short);
        }
        proof {
            lemma_le_front(input@, 8);
        }
        match borsh_u64_read(slice_subrange(input, 0, 8)) {
            Some(v) => Ok((v, slice_subrange(input, 8, input.len()))),
            None => Err(Fault::Short),
        }
    }
}

impl Codec for i64 {
    type M = i64;

    open spec fn model(&self) -> i64 {
        *self
    }

    open spec fn well_formed(&self) -> bool {
        true
    }

    open spec fn layout(m: i64) -> Seq<u8> {
        le_bytes(i64_bits(m), 8)
    }

    open spec fn fits(m: i64) -> bool {
        true
    }

    open spec fn fault(bytes: Seq<u8>) -> Fault {
        Fault::Short
    }

    proof fn prefix_free(a: i64, b: i64, s: Seq<u8>, t: Seq<u8>) {
        lemma_byte_ranges();
        lemma_le_prefix(i64_bits(a), i64_bits(b), 8, s, t);
    }

    fn encode(&self, out: &mut Vec<u8>) -> (ok: bool) {
        let mut part: Vec<u8> = borsh_i64_bytes(*self);
        out.append(&mut part);
        true
    }

    fn decode<'a>(input: &'a [u8]) -> (r: Result<(i64, &'a [u8]), Fault>) {
        if input.len() < 8 {
            assert forall|m: i64, rest: Seq<u8>| input@ != #[trigger] (Self::layout(m) + rest) by {
                lemma_le_bytes_len(i64_bits(m), 8);
            }
            return Err(Fault::Short);
        }
        proof {
            lemma_le_front(input@, 8);
        }
        match borsh_i64_read(slice_subrange(input, 0, 8)) {
            Some(v) => Ok((v, slice_subrange(input, 8, input.len()))),
            None => Err(Fault::Short),
        }
    }
}

// ---------------------------------------------------------------------------
// Digests and text
// ---------------------------------------------------------------------------

impl Codec for Digest {
    type M = Digest;

    open spec fn model(&self) -> Digest {
        *self
    }

    open spec fn well_formed(&self) -> bool {
        true
    }

    open spec fn layout(m: Digest) -> Seq<u8> {
        m@
    }

    open spec fn fits(m: Digest) -> bool {
        true
    }

    open spec fn fault(bytes: Seq<u8>) -> Fault {
        Fault::Short
    }

    proof fn prefix_free(a: Digest, b: Digest, s: Seq<u8>, t: Seq<u8>) {
        assert(a@ =~= (a@ + s).subrange(0, 64));
        assert(b@ =~= (b@ + t).subrange(0, 64));
        lemma_digest_ext(a, b);
        assert(s =~= (a@ + s).subrange(64, (a@ + s).len() as int));
        assert(t =~= (b@ + t).subrange(64, (b@ + t).len() as int));
    }

    fn encode(&self, out: &mut Vec<u8>) -> (ok: bool) {
        let ghost before = out@;
        let mut i: usize = 0;
        while i < 64
            invariant
                i <= 64,
                out@ == before + self@.subrange(0, i as int),
            decreases 64 - i,
        {
            out.push(self.bytes[i]);
            assert(self@.subrange(0, i + 1) =~= self@.subrange(0, i as int).push(self@[i as int]));
            assert(out@ =~= before + self@.subrange(0, i + 1));
            i = i + 1;
        }
        assert(self@.subrange(0, 64) =~= self@);
        true
    }

    fn decode<'a>(input: &'a [u8]) -> (r: Result<(Digest, &'a [u8]), Fault>) {
        if input.len() < 64 {
            assert forall|m: Digest, rest: Seq<u8>| input@ != #[trigger] (Self::layout(m) + rest) by {
                assert(m@.len() == 64);
            }
            return Err(Fault::Short);
        }
        let v = Digest::from_slice(input, 0);
        let rest = slice_subrange(input, 64, input.len());
        assert(input@ =~= v@ + rest@);
        Ok((v, rest))
    }
}

/// The length of the longest start of the bytes that is good UTF-8 and no longer than `n`.
pub open spec fn valid_up_to(bytes: Seq<u8>, n: nat) -> nat
    decreases n,
{
    if n == 0 || valid_utf8(bytes.take(n as int)) {
        n
    } else {
        valid_up_to(bytes, (n - 1) as nat)
    }
}

/// How many bytes are wrong behind the good UTF-8 that the bytes start with, as
/// `Utf8Error::error_len` tells it; nothing if the bytes only end too early.
pub uninterp spec fn utf8_error_len(bytes: Seq<u8>) -> Option<usize>;

/// What is wrong with bytes that are not good UTF-8.
pub open spec fn utf8_fault(bytes: Seq<u8>) -> Fault {
    let at = valid_up_to(bytes, bytes.len()) as usize;
    match utf8_error_len(bytes) {
        Some(len) => Fault::InvalidUtf8 { at, len },
        None => Fault::IncompleteUtf8 { at },
    }
}

/// `String::from_utf8`: succeeds exactly on valid UTF-8, and gives the text that the
/// bytes encode. Its error holds the length of the longest valid start, and how many bytes
/// are wrong behind it.
#[verifier::external_body]
fn string_from_utf8(bytes: Vec<u8>) -> (r: Result<String, (usize, Option<usize>)>)
    ensures
        r is Ok <==> valid_utf8(bytes@),
        r matches Ok(s) ==> s@ == decode_utf8(bytes@),
        r matches Err((at, len)) ==> at == valid_up_to(bytes@, bytes@.len()) && len
            == utf8_error_len(bytes@),
{
    match String::from_utf8(bytes) {
        Ok(s) => Ok(s),
        Err(e) => Err((e.utf8_error().valid_up_to(), e.utf8_error().error_len())),
    }
}

impl Codec for String {
    type M = Seq<char>;

    open spec fn model(&self) -> Seq<char> {
        self@
    }

    open spec fn well_formed(&self) -> bool {
        true
    }

    open spec fn layout(m: Seq<char>) -> Seq<u8> {
        <Vec<u8> as Codec>::layout(encode_utf8(m))
    }

    open spec fn fits(m: Seq<char>) -> bool {
        <Vec<u8> as Codec>::fits(encode_utf8(m))
    }

    open spec fn fault(bytes: Seq<u8>) -> Fault {
        match rest_of::<Vec<u8>>(bytes) {
            None => <Vec<u8> as Codec>::fault(bytes),
            Some(rest) => utf8_fault(bytes.subrange(4, bytes.len() - rest.len())),
        }
    }

    proof fn prefix_free(a: Seq<char>, b: Seq<char>, s: Seq<u8>, t: Seq<u8>) {
        <Vec<u8> as Codec>::prefix_free(encode_utf8(a), encode_utf8(b), s, t);
        encode_utf8_decode_utf8(a);
        encode_utf8_decode_utf8(b);
    }

    fn encode(&self, out: &mut Vec<u8>) -> (ok: bool) {
        let text: &[u8] = self.as_str().as_bytes();
        let bytes: Vec<u8> = vstd::slice::slice_to_vec(text);
        proof {
            lemma_byte_model(bytes@);
        }
        bytes.encode(out)
    }

    fn decode<'a>(input: &'a [u8]) -> (r: Result<(String, &'a [u8]), Fault>) {
        match <Vec<u8> as Codec>::decode(input) {
            Ok((bytes, rest)) => {
                proof {
                    lemma_byte_model(bytes@);
                }
                let ghost raw = bytes@;
                match string_from_utf8(bytes) {
                    Ok(v) => {
                        proof {
                            decode_utf8_encode_utf8(raw);
                        }
                        Ok((v, rest))
                    },
                    Err((at, len)) => {
                        assert forall|m: Seq<char>, tail: Seq<u8>| Self::fits(m) implies input@
                            != #[trigger] (Self::layout(m) + tail) by {
                            encode_utf8_valid_utf8(m);
                            if input@ == Self::layout(m) + tail {
                                <Vec<u8> as Codec>::prefix_free(encode_utf8(m), raw, tail, rest@);
                            }
                        }
                        proof {
                            lemma_rest_of::<Vec<u8>>(raw, rest@);
                            lemma_byte_items(raw);
                            lemma_le_bytes_len(raw.len(), 4);
                            assert(input@.subrange(4, input@.len() - rest@.len()) =~= raw);
                        }
                        match len {
                            Some(len) => Err(Fault::InvalidUtf8 { at, len }),
                            None => Err(Fault::IncompleteUtf8 { at }),
                        }
                    },
                }
            },
            Err(f) => {
                assert forall|m: Seq<char>, tail: Seq<u8>| Self::fits(m) implies input@
                    != #[trigger] (Self::layout(m) + tail) by {
                    assert(Self::layout(m) == <Vec<u8> as Codec>::layout(encode_utf8(m)));
                }
                Err(f)
            },
        }
    }
}

// ---------------------------------------------------------------------------
// Options, pairs and lists
// ---------------------------------------------------------------------------

impl<T: Codec> Codec for Option<T> {
    type M = Option<T::M>;

    open spec fn model(&self) -> Option<T::M> {
        match *self {
            Some(v) => Some(v.model()),
            None => None,
        }
    }

    open spec fn well_formed(&self) -> bool {
        *self matches Some(v) ==> v.well_formed()
    }

    open spec fn layout(m: Option<T::M>) -> Seq<u8> {
        match m {
            Some(v) => seq![1u8] + T::layout(v),
            None => seq![0u8],
        }
    }

    open spec fn fits(m: Option<T::M>) -> bool {
        m matches Some(v) ==> T::fits(v)
    }

    open spec fn fault(bytes: Seq<u8>) -> Fault {
        if bytes.len() == 0 {
            Fault::Short
        } else if bytes[0] == 1 {
            T::fault(bytes.drop_first())
        } else {
            Fault::OptionTag(bytes[0])
        }
    }

    proof fn prefix_free(a: Option<T::M>, b: Option<T::M>, s: Seq<u8>, t: Seq<u8>) {
        let x = Self::layout(a) + s;
        let y = Self::layout(b) + t;
        assert(x[0] == y[0]);
        match (a, b) {
            (Some(v), Some(w)) => {
                assert(x.drop_first() =~= T::layout(v) + s);
                assert(y.drop_first() =~= T::layout(w) + t);
                T::prefix_free(v, w, s, t);
            },
            (None, None) => {
                assert(x.drop_first() =~= s);
                assert(y.drop_first() =~= t);
            },
            (Some(v), None) => {
                assert(x[0] == 1);
            },
            (None, Some(w)) => {
                assert(y[0] == 1);
            },
        }
    }

    fn encode(&self, out: &mut Vec<u8>) -> (ok: bool) {
        match self {
            Some(v) => {
                out.push(1);
                let ok = v.encode(out);
                assert(ok ==> out@ =~= old(out)@ + (seq![1u8] + T::layout(v.model())));
                ok
            },
            None => {
                out.push(0);
                assert(out@ =~= old(out)@ + seq![0u8]);
                true
            },
        }
    }

    fn decode<'a>(input: &'a [u8]) -> (r: Result<(Option<T>, &'a [u8]), Fault>) {
        let len: usize = input.len();
        if len > 0 && input[0] == 0 {
            let rest = slice_subrange(input, 1, len);
            assert(input@ =~= seq![0u8] + rest@);
            return Ok((None, rest));
        }
        if len > 0 && input[0] == 1 {
            let tail = slice_subrange(input, 1, len);
            assert(input@ =~= seq![1u8] + tail@);
            let f: Fault = match T::decode(tail) {
                Ok((v, rest)) => {
                    assert(input@ =~= (seq![1u8] + T::layout(v.model())) + rest@);
                    return Ok((Some(v), rest));
                },
                Err(f) => f,
            };
            assert forall|m: Option<T::M>, rest: Seq<u8>| Self::fits(m) implies input@
                != #[trigger] (Self::layout(m) + rest) by {
                let y = Self::layout(m) + rest;
                if input@ == y {
                    assert(y[0] == 1);
                    assert(m is Some);
                    assert(tail@ =~= y.drop_first());
                    assert(y.drop_first() =~= T::layout(m->0) + rest);
                }
            }
            return Err(f);
        }
        assert forall|m: Option<T::M>, rest: Seq<u8>| Self::fits(m) implies input@
            != #[trigger] (Self::layout(m) + rest) by {
            let y = Self::layout(m) + rest;
            assert(y.len() > 0 && y[0] <= 1);
        }
        if len == 0 {
            Err(Fault::Short)
        } else {
            Err(Fault::OptionTag(input[0]))
        }
    }
}

impl<A: Codec, B: Codec> Codec for (A, B) {
    type M = (A::M, B::M);

    open spec fn model(&self) -> (A::M, B::M) {
        (self.0.model(), self.1.model())
    }

    open spec fn well_formed(&self) -> bool {
        self.0.well_formed() && self.1.well_formed()
    }

    open spec fn layout(m: (A::M, B::M)) -> Seq<u8> {
        A::layout(m.0) + B::layout(m.1)
    }

    open spec fn fits(m: (A::M, B::M)) -> bool {
        A::fits(m.0) && B::fits(m.1)
    }

    open spec fn fault(bytes: Seq<u8>) -> Fault {
        match rest_of::<A>(bytes) {
            None => A::fault(bytes),
            Some(rest) => B::fault(rest),
        }
    }

    proof fn prefix_free(a: (A::M, B::M), b: (A::M, B::M), s: Seq<u8>, t: Seq<u8>) {
        assert(Self::layout(a) + s =~= A::layout(a.0) + (B::layout(a.1) + s));
        assert(Self::layout(b) + t =~= A::layout(b.0) + (B::layout(b.1) + t));
        A::prefix_free(a.0, b.0, B::layout(a.1) + s, B::layout(b.1) + t);
        B::prefix_free(a.1, b.1, s, t);
    }

    fn encode(&self, out: &mut Vec<u8>) -> (ok: bool) {
        let first = self.0.encode(out);
        let second = self.1.encode(out);
        assert(first && second ==> out@ =~= old(out)@ + Self::layout(self.model()));
        first && second
    }

    fn decode<'a>(input: &'a [u8]) -> (r: Result<((A, B), &'a [u8]), Fault>) {
        match A::decode(input) {
            Ok((first, tail)) => match B::decode(tail) {
                Ok((second, rest)) => {
                    assert(input@ =~= Self::layout((first, second).model()) + rest@);
                    Ok(((first, second), rest))
                },
                Err(f) => {
                    proof {
                        lemma_rest_of::<A>(first.model(), tail@);
                    }
                    assert forall|m: (A::M, B::M), rest: Seq<u8>| Self::fits(m) implies input@
                        != #[trigger] (Self::layout(m) + rest) by {
                        if input@ == Self::layout(m) + rest {
                            assert(input@ =~= A::layout(m.0) + (B::layout(m.1) + rest));
                            A::prefix_free(m.0, first.model(), B::layout(m.1) + rest, tail@);
                        }
                    }
                    Err(f)
                },
            },
            Err(f) => {
                assert forall|m: (A::M, B::M), rest: Seq<u8>| Self::fits(m) implies input@
                    != #[trigger] (Self::layout(m) + rest) by {
                    assert(Self::layout(m) + rest =~= A::layout(m.0) + (B::layout(m.1) + rest));
                }
                Err(f)
            },
        }
    }
}

/// The layouts of the items of a list, one behind the other.
pub open spec fn items_layout<T: Codec>(items: Seq<T::M>) -> Seq<u8>
    decreases items.len(),
{
    if items.len() == 0 {
        Seq::empty()
    } else {
        T::layout(items[0]) + items_layout::<T>(items.drop_first())
    }
}

/// What stops the reading of so many items.
pub open spec fn items_fault<T: Codec>(bytes: Seq<u8>, count: nat) -> Fault
    decreases count,
{
    if count == 0 || rest_of::<T>(bytes) is None {
        T::fault(bytes)
    } else {
        items_fault::<T>(rest_of::<T>(bytes)->0, (count - 1) as nat)
    }
}

pub open spec fn items_fit<T: Codec>(items: Seq<T::M>) -> bool {
    forall|i: int| 0 <= i < items.len() ==> T::fits(#[trigger] items[i])
}

/// What the items of a list stand for.
pub open spec fn models<T: Codec>(items: Seq<T>) -> Seq<T::M> {
    Seq::new(items.len(), |i: int| items[i].model())
}

/// A list of bytes stands for itself.
pub proof fn lemma_byte_model(bytes: Seq<u8>)
    ensures
        models::<u8>(bytes) == bytes,
{
    assert(models::<u8>(bytes) =~= bytes);
}

/// Bytes in a list are laid out as they are.
pub proof fn lemma_byte_items(bytes: Seq<u8>)
    ensures
        items_layout::<u8>(bytes) == bytes,
        items_fit::<u8>(bytes),
    decreases bytes.len(),
{
    if bytes.len() > 0 {
        lemma_byte_items(bytes.drop_first());
    }
    assert(items_layout::<u8>(bytes) =~= bytes);
}

pub proof fn lemma_items_push<T: Codec>(items: Seq<T::M>, item: T::M)
    ensures
        items_layout::<T>(items.push(item)) == items_layout::<T>(items) + T::layout(item),
    decreases items.len(),
{
    let more = items.push(item);
    if items.len() == 0 {
        assert(more.drop_first() =~= Seq::empty());
        assert(items_layout::<T>(more.drop_first()) =~= Seq::empty());
        assert(items_layout::<T>(more) =~= T::layout(item));
        assert(items_layout::<T>(items) + T::layout(item) =~= T::layout(item));
    } else {
        assert(more.drop_first() =~= items.drop_first().push(item));
        lemma_items_push::<T>(items.drop_first(), item);
        assert(items_layout::<T>(more) =~= items_layout::<T>(items) + T::layout(item));
    }
}

proof fn lemma_items_split<T: Codec>(items: Seq<T::M>, k: int)
    requires
        0 <= k <= items.len(),
    ensures
        items_layout::<T>(items) == items_layout::<T>(items.take(k)) + items_layout::<T>(
            items.skip(k),
        ),
    decreases k,
{
    if k == 0 {
        assert(items.take(0) =~= Seq::empty());
        assert(items.skip(0) =~= items);
        assert(items_layout::<T>(items) =~= items_layout::<T>(items.take(0)) + items_layout::<T>(
            items.skip(0),
        ));
    } else {
        lemma_items_split::<T>(items.drop_first(), k - 1);
        assert(items.take(k).drop_first() =~= items.drop_first().take(k - 1));
        assert(items.skip(k) =~= items.drop_first().skip(k - 1));
        assert(items_layout::<T>(items) =~= items_layout::<T>(items.take(k)) + items_layout::<T>(
            items.skip(k),
        ));
    }
}

proof fn lemma_items_prefix_free<T: Codec>(
    a: Seq<T::M>,
    b: Seq<T::M>,
    s: Seq<u8>,
    t: Seq<u8>,
)
    requires
        a.len() == b.len(),
        items_fit::<T>(a),
        items_fit::<T>(b),
        items_layout::<T>(a) + s == items_layout::<T>(b) + t,
    ensures
        a == b,
        s == t,
    decreases a.len(),
{
    if a.len() == 0 {
        assert(a =~= b);
        assert(items_layout::<T>(a) + s =~= s);
        assert(items_layout::<T>(b) + t =~= t);
    } else {
        let p = items_layout::<T>(a.drop_first()) + s;
        let q = items_layout::<T>(b.drop_first()) + t;
        assert(items_layout::<T>(a) + s =~= T::layout(a[0]) + p);
        assert(items_layout::<T>(b) + t =~= T::layout(b[0]) + q);
        T::prefix_free(a[0], b[0], p, q);
        assert(items_fit::<T>(a.drop_first()) && items_fit::<T>(b.drop_first()));
        lemma_items_prefix_free::<T>(a.drop_first(), b.drop_first(), s, t);
        assert(a =~= seq![a[0]] + a.drop_first());
        assert(b =~= seq![b[0]] + b.drop_first());
    }
}

/// The head of a list: the items that `input` starts with.
spec fn list_front<T: Codec>(input: Seq<u8>, items: Seq<T::M>, rest: Seq<u8>) -> bool {
    items_fit::<T>(items) && input == items_layout::<T>(items) + rest
}

impl<T: Codec> Codec for Vec<T> {
    type M = Seq<T::M>;

    open spec fn model(&self) -> Seq<T::M> {
        models(self@)
    }

    open spec fn well_formed(&self) -> bool {
        forall|i: int| 0 <= i < self@.len() ==> (#[trigger] self@[i]).well_formed()
    }

    open spec fn layout(m: Seq<T::M>) -> Seq<u8> {
        le_bytes(m.len(), 4) + items_layout::<T>(m)
    }

    open spec fn fits(m: Seq<T::M>) -> bool {
        m.len() <= u32::MAX && items_fit::<T>(m)
    }

    open spec fn fault(bytes: Seq<u8>) -> Fault {
        match rest_of::<u32>(bytes) {
            None => Fault::Short,
            Some(rest) => items_fault::<T>(rest, le_value(bytes.take(4))),
        }
    }

    proof fn prefix_free(a: Seq<T::M>, b: Seq<T::M>, s: Seq<u8>, t: Seq<u8>) {
        let p = items_layout::<T>(a) + s;
        let q = items_layout::<T>(b) + t;
        assert(Self::layout(a) + s =~= le_bytes(a.len(), 4) + p);
        assert(Self::layout(b) + t =~= le_bytes(b.len(), 4) + q);
        lemma_byte_ranges();
        lemma_le_prefix(a.len(), b.len(), 4, p, q);
        lemma_items_prefix_free::<T>(a, b, s, t);
    }

    fn encode(&self, out: &mut Vec<u8>) -> (ok: bool) {
        let n: usize = self.len();
        if n > u32::MAX as usize {
            return false;
        }
        let count: u32 = n as u32;
        let ghost before = out@;
        let ghost all = self.model();
        let _ = count.encode(out);
        let mut i: usize = 0;
        assert(all.take(0) =~= Seq::empty());
        assert(out@ =~= before + (le_bytes(all.len(), 4) + items_layout::<T>(all.take(0))));
        while i < n
            invariant
                i <= n == self@.len(),
                n <= u32::MAX,
                all == self.model(),
                forall|j: int| 0 <= j < i ==> T::fits(#[trigger] all[j]),
                out@ == before + (le_bytes(all.len(), 4) + items_layout::<T>(all.take(i as int))),
            decreases n - i,
        {
            let ok = self[i].encode(out);
            if !ok {
                assert(!T::fits(all[i as int]));
                return false;
            }
            proof {
                assert(all.take(i + 1) =~= all.take(i as int).push(all[i as int]));
                lemma_items_push::<T>(all.take(i as int), all[i as int]);
                assert(out@ =~= before + (le_bytes(all.len(), 4) + items_layout::<T>(
                    all.take(i + 1),
                )));
            }
            i = i + 1;
        }
        assert(all.take(n as int) =~= all);
        true
    }

    fn decode<'a>(input: &'a [u8]) -> (r: Result<(Vec<T>, &'a [u8]), Fault>) {
        let (count, body): (u32, &'a [u8]) = match <u32 as Codec>::decode(input) {
            Ok(p) => p,
            Err(f) => {
                assert forall|m: Seq<T::M>, rest: Seq<u8>| Self::fits(m) implies input@
                    != #[trigger] (Self::layout(m) + rest) by {
                    let n = m.len() as u32;
                    assert(Self::layout(m) + rest =~= <u32 as Codec>::layout(n) + (items_layout::<
                        T,
                    >(m) + rest));
                }
                return Err(f);
            },
        };
        let mut items: Vec<T> = Vec::new();
        let mut rest: &'a [u8] = body;
        let mut i: u32 = 0;
        assert(models(items@) =~= Seq::empty());
        assert(body@ =~= items_layout::<T>(models(items@)) + rest@);
        while i < count
            invariant
                i <= count,
                items@.len() == i,
                input@ == le_bytes(count as nat, 4) + body@,
                list_front::<T>(body@, models(items@), rest@),
                items.well_formed(),
                items_fault::<T>(body@, count as nat) == items_fault::<T>(
                    rest@,
                    (count - i) as nat,
                ),
            decreases count - i,
        {
            match T::decode(rest) {
                Ok((item, tail)) => {
                    let ghost done = models(items@);
                    items.push(item);
                    proof {
                        assert(models(items@) =~= done.push(item.model()));
                        lemma_items_push::<T>(done, item.model());
                        lemma_rest_of::<T>(item.model(), tail@);
                        assert(body@ =~= items_layout::<T>(models(items@)) + tail@);
                    }
                    rest = tail;
                },
                Err(f) => {
                    proof {
                        lemma_rest_of::<u32>(count, body@);
                        lemma_byte_ranges();
                        lemma_le_bytes_len(count as nat, 4);
                        lemma_le_value_of_bytes(count as nat, 4);
                        assert(input@.take(4) =~= le_bytes(count as nat, 4));
                        let done = models(items@);
                        assert forall|m: Seq<T::M>, tail: Seq<u8>| Self::fits(m) implies input@
                            != #[trigger] (Self::layout(m) + tail) by {
                            if input@ == Self::layout(m) + tail {
                                assert(input@ =~= le_bytes(m.len(), 4) + (items_layout::<T>(m)
                                    + tail));
                                lemma_byte_ranges();
                                lemma_le_prefix(
                                    m.len(),
                                    count as nat,
                                    4,
                                    items_layout::<T>(m) + tail,
                                    body@,
                                );
                                let k = i as int;
                                lemma_items_split::<T>(m, k);
                                let after = items_layout::<T>(m.skip(k)) + tail;
                                assert(body@ =~= items_layout::<T>(m.take(k)) + after);
                                lemma_items_prefix_free::<T>(m.take(k), done, after, rest@);
                                assert(m.skip(k)[0] == m[k]);
                                assert(after =~= T::layout(m[k]) + (items_layout::<T>(
                                    m.skip(k).drop_first(),
                                ) + tail));
                            }
                        }
                    }
                    return Err(f);
                },
            }
            i = i + 1;
        }
        assert(input@ =~= Self::layout(items.model()) + rest@);
        Ok((items, rest))
    }
}

/// Numbers are written in as many bytes as they have, the lowest first. A negative one is written
/// as the number above it by two to the power of sixty-four.
pub proof fn numbers_are_written_low_byte_first(a: u16, b: u32, c: u64, d: i64)
    ensures
        u16::layout(a) == seq![(a % 256) as u8, (a / 256) as u8],
        u32::layout(b) == seq![
            (b % 256) as u8,
            (b / 256 % 256) as u8,
            (b / 65_536 % 256) as u8,
            (b / 16_777_216) as u8,
        ],
        u64::layout(c).len() == 8,
        u64::layout(c)[0] == c % 256,
        u64::layout(c)[1] == c / 256 % 256,
        le_value(u64::layout(c)) == c,
        i64::layout(d) == u64::layout(
            (if d < 0 {
                d + 0x1_0000_0000_0000_0000
            } else {
                d as int
            }) as u64,
        ),
{
    lemma_byte_ranges();
    lemma_le_bytes_len(c as nat, 8);
    lemma_le_value_of_bytes(c as nat, 8);
    reveal_with_fuel(le_bytes, 5);
    assert(b / 256 / 256 == b / 65_536);
    assert(b / 256 / 256 / 256 == b / 16_777_216);
    assert(u16::layout(a) =~= seq![(a % 256) as u8, (a / 256) as u8]);
    assert(u32::layout(b) =~= seq![
        (b % 256) as u8,
        (b / 256 % 256) as u8,
        (b / 65_536 % 256) as u8,
        (b / 16_777_216) as u8,
    ]);
}

/// A list is written as its length in four bytes, then its items in order.
pub proof fn lists_are_written_in_order<T: Codec>(items: Seq<T::M>, item: T::M)
    requires
        items.len() < u32::MAX,
    ensures
        <Vec<T> as Codec>::layout(Seq::empty()) == u32::layout(0),
        ({
            let before = <Vec<T> as Codec>::layout(items);
            let after = <Vec<T> as Codec>::layout(items.push(item));
            &&& before.len() >= 4
            &&& before.subrange(0, 4) == u32::layout(items.len() as u32)
            &&& after == u32::layout((items.len() + 1) as u32) + before.skip(4) + T::layout(item)
        }),
{
    lemma_items_push::<T>(items, item);
    lemma_le_bytes_len(items.len(), 4);
    let before = <Vec<T> as Codec>::layout(items);
    assert(before.subrange(0, 4) =~= le_bytes(items.len(), 4));
    assert(before.skip(4) =~= items_layout::<T>(items));
}

/// What may be missing is written as a zero, or as a one and what is there. A truth value is one
/// byte, and so is a byte; a text is written as the list of its bytes.
pub proof fn single_values_are_written<T: Codec>(m: T::M, byte: u8, text: Seq<char>)
    ensures
        <Option<T> as Codec>::layout(None) == seq![0u8],
        <Option<T> as Codec>::layout(Some(m)) == seq![1u8] + T::layout(m),
        bool::layout(true) == seq![1u8],
        bool::layout(false) == seq![0u8],
        u8::layout(byte) == seq![byte],
        String::layout(text) == <Vec<u8> as Codec>::layout(encode_utf8(text)),
{
}

} // verus!
