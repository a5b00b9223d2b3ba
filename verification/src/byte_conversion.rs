//! Two-way conversion between values and their canonical big-endian byte form.

use vstd::prelude::*;
use vstd::arithmetic::div_mod::lemma_fundamental_div_mod;
use vstd::string::StrSliceExecFns;
use vstd::utf8::{valid_utf8, decode_utf8, encode_utf8, encode_utf8_valid_utf8, encode_utf8_decode_utf8, decode_utf8_encode_utf8};

verus! {

/// The error returned when a byte slab does not hold a well-formed encoding.
#[derive(Clone, Copy, Debug, PartialEq, Eq, Structural)]
pub struct FormatError;

/// 256 raised to `n`: the number of values `n` bytes can hold.
pub open spec fn pow256(n: nat) -> int
    decreases n,
{
    if n == 0 {
        1
    } else {
        256 * pow256((n - 1) as nat)
    }
}

/// The `n` low-order bytes of `v`, most significant first.
pub open spec fn be_bytes(v: int, n: nat) -> Seq<u8>
    decreases n,
{
    if n == 0 {
        Seq::empty()
    } else {
        be_bytes(v / 256, (n - 1) as nat).push((v % 256) as u8)
    }
}

/// The non-negative value a big-endian byte sequence stands for.
pub open spec fn be_value(s: Seq<u8>) -> int
    decreases s.len(),
{
    if s.len() == 0 {
        0
    } else {
        be_value(s.drop_last()) * 256 + s.last()
    }
}

pub proof fn lemma_pow256_pos(n: nat)
    ensures
        pow256(n) >= 1,
    decreases n,
{
    if n > 0 {
        lemma_pow256_pos((n - 1) as nat);
    }
}

pub proof fn lemma_pow256_increases(m: nat, n: nat)
    requires
        m <= n,
    ensures
        pow256(m) <= pow256(n),
    decreases n,
{
    if m < n && n > 0 {
        lemma_pow256_increases(m, (n - 1) as nat);
        lemma_pow256_pos((n - 1) as nat);
    }
}

pub proof fn lemma_be_bytes_len(v: int, n: nat)
    ensures
        be_bytes(v, n).len() == n,
    decreases n,
{
    if n > 0 {
        lemma_be_bytes_len(v / 256, (n - 1) as nat);
    }
}

/// Reading back the bytes of an in-range value gives the value again.
pub proof fn lemma_be_value_of_bytes(v: int, n: nat)
    requires
        0 <= v < pow256(n),
    ensures
        be_value(be_bytes(v, n)) == v,
    decreases n,
{
    if n > 0 {
        let q = v / 256;
        let r = v % 256;
        lemma_fundamental_div_mod(v, 256);
        assert(0 <= q < pow256((n - 1) as nat)) by {
            assert(v == 256 * q + r);
            assert(0 <= r < 256);
            assert(256 * q < 256 * pow256((n - 1) as nat) ==> q < pow256((n - 1) as nat))
                by (nonlinear_arith);
        }
        lemma_be_value_of_bytes(q, (n - 1) as nat);
        lemma_be_bytes_len(q, (n - 1) as nat);
        let s = be_bytes(v, n);
        assert(s.drop_last() =~= be_bytes(q, (n - 1) as nat));
        assert(s.last() == (r as u8));
    }
}

/// A byte sequence stands for an in-range value whose bytes are the sequence
/// again.
pub proof fn lemma_be_bytes_of_value(s: Seq<u8>)
    ensures
        0 <= be_value(s) < pow256(s.len()),
        be_bytes(be_value(s), s.len()) == s,
    decreases s.len(),
{
    if s.len() > 0 {
        let front = s.drop_last();
        lemma_be_bytes_of_value(front);
        let q = be_value(front);
        let r = s.last() as int;
        let v = q * 256 + r;
        assert(0 <= v < pow256(s.len())) by {
            assert(q < pow256(front.len()));
            assert(q * 256 + r < pow256(front.len()) * 256) by (nonlinear_arith)
                requires
                    q < pow256(front.len()),
                    r < 256,
                    0 <= q,
                    0 <= r,
            ;
            assert(pow256(front.len()) * 256 == pow256(s.len()));
        }
        assert(v / 256 == q && v % 256 == r) by {
            lemma_fundamental_div_mod(v, 256);
            assert((256 * q + r) / 256 == q && (256 * q + r) % 256 == r) by (nonlinear_arith)
                requires
                    0 <= r < 256,
                    0 <= q,
            ;
        }
        assert(be_bytes(v, s.len()) =~= be_bytes(q, front.len()).push(r as u8));
        assert(be_bytes(v, s.len()) =~= s);
    } else {
        assert(be_bytes(0, 0) =~= s);
    }
}

/// Writes the `n` low-order bytes of `v`, most significant first.
pub fn encode_be(v: u128, n: usize) -> (r: Vec<u8>)
    ensures
        r@ == be_bytes(v as int, n as nat),
        r@.len() == n,
    decreases n,
{
    proof {
        lemma_be_bytes_len(v as int, n as nat);
    }
    if n == 0 {
        Vec::new()
    } else {
        let mut r = encode_be(v / 256, n - 1);
        proof {
            lemma_fundamental_div_mod(v as int, 256);
        }
        r.push((v % 256) as u8);
        r
    }
}

/// Reads the value that the `n` bytes of `input` starting at `start` stand
/// for, most significant first.
pub fn decode_be(input: &Vec<u8>, start: usize, n: usize) -> (v: u128)
    requires
        start + n <= input@.len(),
        n <= 16,
    ensures
        v as int == be_value(input@.subrange(start as int, start as int + n as int)),
{
    let input_len: usize = input.len();
    let mut acc: u128 = 0;
    let mut i: usize = 0;
    proof {
        assert(input@.subrange(start as int, start as int) =~= Seq::<u8>::empty());
    }
    while i < n
        invariant
            0 <= i <= n,
            n <= 16,
            start + n <= input_len,
            input_len == input@.len(),
            acc as int == be_value(input@.subrange(start as int, start as int + i as int)),
            (acc as int) < pow256(i as nat),
        decreases n - i,
    {
        proof {
            let sub = input@.subrange(start as int, start as int + i as int + 1);
            assert(sub.drop_last() =~= input@.subrange(start as int, start as int + i as int));
            assert(sub.last() == input@[start as int + i as int]);
            lemma_pow256_increases((i + 1) as nat, 16);
            assert(pow256(16) == 0x100000000000000000000000000000000) by {
                reveal_with_fuel(pow256, 17);
            }
            assert((acc as int) * 256 + 256 <= pow256((i + 1) as nat)) by (nonlinear_arith)
                requires
                    (acc as int) < pow256(i as nat),
                    0 <= acc as int,
                    pow256((i + 1) as nat) == 256 * pow256(i as nat),
            ;
        }
        acc = acc * 256 + (input[start + i] as u128);
        i = i + 1;
    }
    proof {
        assert(input@.subrange(start as int, start as int + i as int) =~= input@.subrange(
            start as int,
            start as int + n as int,
        ));
    }
    acc
}

/// Copies `count` bytes of `input` starting at `from`.
pub fn copy_range(input: &Vec<u8>, from: usize, count: usize) -> (r: Vec<u8>)
    requires
        from + count <= input@.len(),
    ensures
        r@ == input@.subrange(from as int, from as int + count as int),
{
    let input_len: usize = input.len();
    let mut r: Vec<u8> = Vec::new();
    let mut i: usize = 0;
    while i < count
        invariant
            from + count <= input_len,
            input_len == input@.len(),
            i <= count,
            r@.len() == i as int,
            forall|t: int| 0 <= t < i as int ==> r@[t] == input@[from as int + t],
        decreases count - i,
    {
        r.push(input[from + i]);
        i = i + 1;
    }
    proof {
        assert(r@ =~= input@.subrange(from as int, from as int + count as int));
    }
    r
}

/// A trait for any generic that can be converted from and to Vec<u8>.
///
/// The conversion is stated against a mathematical model of the value: the
/// byte form determines the model exactly, and re-reading what was written
/// gives the model back.
pub trait ByteConversion: Sized {
    /// The mathematical content that a value carries through serialisation.
    type Model;

    /// The model of this value.
    spec fn model(self) -> Self::Model;

    /// Whether this value is fit to be serialised.
    spec fn valid(self) -> bool;

    /// The canonical byte form of this value.
    spec fn encoding(self) -> Seq<u8>;

    /// Whether a byte sequence is a well-formed encoding of some value.
    spec fn decodable(s: Seq<u8>) -> bool;

    /// The model that a well-formed byte sequence stands for.
    spec fn decoded(s: Seq<u8>) -> Self::Model;

    /// Writing a value and reading it back yields the same model.
    proof fn lemma_round_trip(self)
        requires
            self.valid(),
        ensures
            Self::decodable(self.encoding()),
            Self::decoded(self.encoding()) == self.model(),
    ;

    /// Converts Self to Vec<u8>.
    fn to_bytes(self) -> (r: Vec<u8>)
        requires
            self.valid(),
        ensures
            r@ == self.encoding(),
    ;

    /// Converts Vec<u8> to Self, for input already known well-formed.
    fn from_bytes(input: Vec<u8>) -> (r: Self)
        requires
            Self::decodable(input@),
        ensures
            r.valid(),
            r.model() == Self::decoded(input@),
            r.encoding() == input@,
    {
        match Self::try_from_bytes(input) {
            Ok(v) => v,
            Err(_) => vstd::pervasive::unreached(),
        }
    }

    /// Converts Vec<u8> to Self, reporting a `FormatError` exactly when the
    /// input is not a well-formed encoding.
    fn try_from_bytes(input: Vec<u8>) -> (r: Result<Self, FormatError>)
        ensures
            r is Ok <==> Self::decodable(input@),
            r is Ok ==> r->Ok_0.valid() && r->Ok_0.model() == Self::decoded(input@)
                && r->Ok_0.encoding() == input@,
    ;
}

impl ByteConversion for u64 {
    type Model = u64;

    open spec fn model(self) -> u64 {
        self
    }

    open spec fn valid(self) -> bool {
        true
    }

    open spec fn encoding(self) -> Seq<u8> {
        be_bytes(self as int, 8)
    }

    open spec fn decodable(s: Seq<u8>) -> bool {
        s.len() == 8
    }

    open spec fn decoded(s: Seq<u8>) -> u64 {
        be_value(s) as u64
    }

    proof fn lemma_round_trip(self) {
        lemma_be_bytes_len(self as int, 8);
        assert(pow256(8) == 0x10000000000000000) by {
            reveal_with_fuel(pow256, 9);
        }
        lemma_be_value_of_bytes(self as int, 8);
    }

    fn to_bytes(self) -> (r: Vec<u8>) {
        encode_be(self as u128, 8)
    }

    fn try_from_bytes(input: Vec<u8>) -> (r: Result<Self, FormatError>) {
        if input.len() == 8 {
            let v = decode_be(&input, 0, 8);
            proof {
                assert(input@.subrange(0, 8) =~= input@);
                lemma_be_bytes_of_value(input@);
                assert(pow256(8) == 0x10000000000000000) by {
                    reveal_with_fuel(pow256, 9);
                }
            }
            Ok(v as u64)
        } else {
            Err(FormatError)
        }
    }
}


impl ByteConversion for u8 {
    type Model = u8;

    open spec fn model(self) -> u8 {
        self
    }

    open spec fn valid(self) -> bool {
        true
    }

    open spec fn encoding(self) -> Seq<u8> {
        be_bytes(self as int, 1)
    }

    open spec fn decodable(s: Seq<u8>) -> bool {
        s.len() == 1
    }

    open spec fn decoded(s: Seq<u8>) -> u8 {
        be_value(s) as u8
    }

    proof fn lemma_round_trip(self) {
        lemma_be_bytes_len(self as int, 1);
        assert(pow256(1) == 0x100) by {
            reveal_with_fuel(pow256, 2);
        }
        lemma_be_value_of_bytes(self as int, 1);
    }

    fn to_bytes(self) -> (r: Vec<u8>) {
        encode_be(self as u128, 1)
    }

    fn try_from_bytes(input: Vec<u8>) -> (r: Result<Self, FormatError>) {
        if input.len() == 1 {
            let v = decode_be(&input, 0, 1);
            proof {
                assert(input@.subrange(0, 1) =~= input@);
                lemma_be_bytes_of_value(input@);
                assert(pow256(1) == 0x100) by {
                    reveal_with_fuel(pow256, 2);
                }
            }
            Ok(v as u8)
        } else {
            Err(FormatError)
        }
    }
}

impl ByteConversion for u16 {
    type Model = u16;

    open spec fn model(self) -> u16 {
        self
    }

    open spec fn valid(self) -> bool {
        true
    }

    open spec fn encoding(self) -> Seq<u8> {
        be_bytes(self as int, 2)
    }

    open spec fn decodable(s: Seq<u8>) -> bool {
        s.len() == 2
    }

    open spec fn decoded(s: Seq<u8>) -> u16 {
        be_value(s) as u16
    }

    proof fn lemma_round_trip(self) {
        lemma_be_bytes_len(self as int, 2);
        assert(pow256(2) == 0x10000) by {
            reveal_with_fuel(pow256, 3);
        }
        lemma_be_value_of_bytes(self as int, 2);
    }

    fn to_bytes(self) -> (r: Vec<u8>) {
        encode_be(self as u128, 2)
    }

    fn try_from_bytes(input: Vec<u8>) -> (r: Result<Self, FormatError>) {
        if input.len() == 2 {
            let v = decode_be(&input, 0, 2);
            proof {
                assert(input@.subrange(0, 2) =~= input@);
                lemma_be_bytes_of_value(input@);
                assert(pow256(2) == 0x10000) by {
                    reveal_with_fuel(pow256, 3);
                }
            }
            Ok(v as u16)
        } else {
            Err(FormatError)
        }
    }
}

impl ByteConversion for u32 {
    type Model = u32;

    open spec fn model(self) -> u32 {
        self
    }

    open spec fn valid(self) -> bool {
        true
    }

    open spec fn encoding(self) -> Seq<u8> {
        be_bytes(self as int, 4)
    }

    open spec fn decodable(s: Seq<u8>) -> bool {
        s.len() == 4
    }

    open spec fn decoded(s: Seq<u8>) -> u32 {
        be_value(s) as u32
    }

    proof fn lemma_round_trip(self) {
        lemma_be_bytes_len(self as int, 4);
        assert(pow256(4) == 0x100000000) by {
            reveal_with_fuel(pow256, 5);
        }
        lemma_be_value_of_bytes(self as int, 4);
    }

    fn to_bytes(self) -> (r: Vec<u8>) {
        encode_be(self as u128, 4)
    }

    fn try_from_bytes(input: Vec<u8>) -> (r: Result<Self, FormatError>) {
        if input.len() == 4 {
            let v = decode_be(&input, 0, 4);
            proof {
                assert(input@.subrange(0, 4) =~= input@);
                lemma_be_bytes_of_value(input@);
                assert(pow256(4) == 0x100000000) by {
                    reveal_with_fuel(pow256, 5);
                }
            }
            Ok(v as u32)
        } else {
            Err(FormatError)
        }
    }
}

impl ByteConversion for u128 {
    type Model = u128;

    open spec fn model(self) -> u128 {
        self
    }

    open spec fn valid(self) -> bool {
        true
    }

    open spec fn encoding(self) -> Seq<u8> {
        be_bytes(self as int, 16)
    }

    open spec fn decodable(s: Seq<u8>) -> bool {
        s.len() == 16
    }

    open spec fn decoded(s: Seq<u8>) -> u128 {
        be_value(s) as u128
    }

    proof fn lemma_round_trip(self) {
        lemma_be_bytes_len(self as int, 16);
        assert(pow256(16) == 0x100000000000000000000000000000000) by {
            reveal_with_fuel(pow256, 17);
        }
        lemma_be_value_of_bytes(self as int, 16);
    }

    fn to_bytes(self) -> (r: Vec<u8>) {
        encode_be(self as u128, 16)
    }

    fn try_from_bytes(input: Vec<u8>) -> (r: Result<Self, FormatError>) {
        if input.len() == 16 {
            let v = decode_be(&input, 0, 16);
            proof {
                assert(input@.subrange(0, 16) =~= input@);
                lemma_be_bytes_of_value(input@);
                assert(pow256(16) == 0x100000000000000000000000000000000) by {
                    reveal_with_fuel(pow256, 17);
                }
            }
            Ok(v as u128)
        } else {
            Err(FormatError)
        }
    }
}

impl ByteConversion for usize {
    type Model = usize;

    open spec fn model(self) -> usize {
        self
    }

    open spec fn valid(self) -> bool {
        true
    }

    open spec fn encoding(self) -> Seq<u8> {
        be_bytes(self as int, 8)
    }

    open spec fn decodable(s: Seq<u8>) -> bool {
        s.len() == 8 && be_value(s) <= usize::MAX as int
    }

    open spec fn decoded(s: Seq<u8>) -> usize {
        be_value(s) as usize
    }

    proof fn lemma_round_trip(self) {
        lemma_be_bytes_len(self as int, 8);
        assert(pow256(8) == 0x10000000000000000) by {
            reveal_with_fuel(pow256, 9);
        }
        lemma_be_value_of_bytes(self as int, 8);
    }

    fn to_bytes(self) -> (r: Vec<u8>) {
        encode_be(self as u128, 8)
    }

    fn try_from_bytes(input: Vec<u8>) -> (r: Result<Self, FormatError>) {
        if input.len() == 8 {
            let v = decode_be(&input, 0, 8);
            proof {
                assert(input@.subrange(0, 8) =~= input@);
                lemma_be_bytes_of_value(input@);
            }
            if v <= usize::MAX as u128 {
                Ok(v as usize)
            } else {
                Err(FormatError)
            }
        } else {
            Err(FormatError)
        }
    }
}

impl ByteConversion for i8 {
    type Model = i8;

    open spec fn model(self) -> i8 {
        self
    }

    open spec fn valid(self) -> bool {
        true
    }

    open spec fn encoding(self) -> Seq<u8> {
        be_bytes((self as u8) as int, 1)
    }

    open spec fn decodable(s: Seq<u8>) -> bool {
        s.len() == 1
    }

    open spec fn decoded(s: Seq<u8>) -> i8 {
        (be_value(s) as u8) as i8
    }

    proof fn lemma_round_trip(self) {
        lemma_be_bytes_len((self as u8) as int, 1);
        assert(pow256(1) == 0x100) by {
            reveal_with_fuel(pow256, 2);
        }
        lemma_be_value_of_bytes((self as u8) as int, 1);
        assert(((self as u8) as i8) == self) by (bit_vector);
    }

    fn to_bytes(self) -> (r: Vec<u8>) {
        let u: u8 = #[verifier::truncate] (self as u8);
        encode_be(u as u128, 1)
    }

    fn try_from_bytes(input: Vec<u8>) -> (r: Result<Self, FormatError>) {
        if input.len() == 1 {
            let v = decode_be(&input, 0, 1);
            proof {
                assert(input@.subrange(0, 1) =~= input@);
                lemma_be_bytes_of_value(input@);
                assert(pow256(1) == 0x100) by {
                    reveal_with_fuel(pow256, 2);
                }
            }
            let u: u8 = v as u8;
            let s: i8 = #[verifier::truncate] (u as i8);
            proof {
                assert((s as u8) == u) by (bit_vector)
                    requires
                        s == (u as i8),
                ;
            }
            Ok(s)
        } else {
            Err(FormatError)
        }
    }
}

impl ByteConversion for i16 {
    type Model = i16;

    open spec fn model(self) -> i16 {
        self
    }

    open spec fn valid(self) -> bool {
        true
    }

    open spec fn encoding(self) -> Seq<u8> {
        be_bytes((self as u16) as int, 2)
    }

    open spec fn decodable(s: Seq<u8>) -> bool {
        s.len() == 2
    }

    open spec fn decoded(s: Seq<u8>) -> i16 {
        (be_value(s) as u16) as i16
    }

    proof fn lemma_round_trip(self) {
        lemma_be_bytes_len((self as u16) as int, 2);
        assert(pow256(2) == 0x10000) by {
            reveal_with_fuel(pow256, 3);
        }
        lemma_be_value_of_bytes((self as u16) as int, 2);
        assert(((self as u16) as i16) == self) by (bit_vector);
    }

    fn to_bytes(self) -> (r: Vec<u8>) {
        let u: u16 = #[verifier::truncate] (self as u16);
        encode_be(u as u128, 2)
    }

    fn try_from_bytes(input: Vec<u8>) -> (r: Result<Self, FormatError>) {
        if input.len() == 2 {
            let v = decode_be(&input, 0, 2);
            proof {
                assert(input@.subrange(0, 2) =~= input@);
                lemma_be_bytes_of_value(input@);
                assert(pow256(2) == 0x10000) by {
                    reveal_with_fuel(pow256, 3);
                }
            }
            let u: u16 = v as u16;
            let s: i16 = #[verifier::truncate] (u as i16);
            proof {
                assert((s as u16) == u) by (bit_vector)
                    requires
                        s == (u as i16),
                ;
            }
            Ok(s)
        } else {
            Err(FormatError)
        }
    }
}

impl ByteConversion for i32 {
    type Model = i32;

    open spec fn model(self) -> i32 {
        self
    }

    open spec fn valid(self) -> bool {
        true
    }

    open spec fn encoding(self) -> Seq<u8> {
        be_bytes((self as u32) as int, 4)
    }

    open spec fn decodable(s: Seq<u8>) -> bool {
        s.len() == 4
    }

    open spec fn decoded(s: Seq<u8>) -> i32 {
        (be_value(s) as u32) as i32
    }

    proof fn lemma_round_trip(self) {
        lemma_be_bytes_len((self as u32) as int, 4);
        assert(pow256(4) == 0x100000000) by {
            reveal_with_fuel(pow256, 5);
        }
        lemma_be_value_of_bytes((self as u32) as int, 4);
        assert(((self as u32) as i32) == self) by (bit_vector);
    }

    fn to_bytes(self) -> (r: Vec<u8>) {
        let u: u32 = #[verifier::truncate] (self as u32);
        encode_be(u as u128, 4)
    }

    fn try_from_bytes(input: Vec<u8>) -> (r: Result<Self, FormatError>) {
        if input.len() == 4 {
            let v = decode_be(&input, 0, 4);
            proof {
                assert(input@.subrange(0, 4) =~= input@);
                lemma_be_bytes_of_value(input@);
                assert(pow256(4) == 0x100000000) by {
                    reveal_with_fuel(pow256, 5);
                }
            }
            let u: u32 = v as u32;
            let s: i32 = #[verifier::truncate] (u as i32);
            proof {
                assert((s as u32) == u) by (bit_vector)
                    requires
                        s == (u as i32),
                ;
            }
            Ok(s)
        } else {
            Err(FormatError)
        }
    }
}

impl ByteConversion for i64 {
    type Model = i64;

    open spec fn model(self) -> i64 {
        self
    }

    open spec fn valid(self) -> bool {
        true
    }

    open spec fn encoding(self) -> Seq<u8> {
        be_bytes((self as u64) as int, 8)
    }

    open spec fn decodable(s: Seq<u8>) -> bool {
        s.len() == 8
    }

    open spec fn decoded(s: Seq<u8>) -> i64 {
        (be_value(s) as u64) as i64
    }

    proof fn lemma_round_trip(self) {
        lemma_be_bytes_len((self as u64) as int, 8);
        assert(pow256(8) == 0x10000000000000000) by {
            reveal_with_fuel(pow256, 9);
        }
        lemma_be_value_of_bytes((self as u64) as int, 8);
        assert(((self as u64) as i64) == self) by (bit_vector);
    }

    fn to_bytes(self) -> (r: Vec<u8>) {
        let u: u64 = #[verifier::truncate] (self as u64);
        encode_be(u as u128, 8)
    }

    fn try_from_bytes(input: Vec<u8>) -> (r: Result<Self, FormatError>) {
        if input.len() == 8 {
            let v = decode_be(&input, 0, 8);
            proof {
                assert(input@.subrange(0, 8) =~= input@);
                lemma_be_bytes_of_value(input@);
                assert(pow256(8) == 0x10000000000000000) by {
                    reveal_with_fuel(pow256, 9);
                }
            }
            let u: u64 = v as u64;
            let s: i64 = #[verifier::truncate] (u as i64);
            proof {
                assert((s as u64) == u) by (bit_vector)
                    requires
                        s == (u as i64),
                ;
            }
            Ok(s)
        } else {
            Err(FormatError)
        }
    }
}

impl ByteConversion for i128 {
    type Model = i128;

    open spec fn model(self) -> i128 {
        self
    }

    open spec fn valid(self) -> bool {
        true
    }

    open spec fn encoding(self) -> Seq<u8> {
        be_bytes((self as u128) as int, 16)
    }

    open spec fn decodable(s: Seq<u8>) -> bool {
        s.len() == 16
    }

    open spec fn decoded(s: Seq<u8>) -> i128 {
        (be_value(s) as u128) as i128
    }

    proof fn lemma_round_trip(self) {
        lemma_be_bytes_len((self as u128) as int, 16);
        assert(pow256(16) == 0x100000000000000000000000000000000) by {
            reveal_with_fuel(pow256, 17);
        }
        lemma_be_value_of_bytes((self as u128) as int, 16);
        assert(((self as u128) as i128) == self) by (bit_vector);
    }

    fn to_bytes(self) -> (r: Vec<u8>) {
        let u: u128 = #[verifier::truncate] (self as u128);
        encode_be(u as u128, 16)
    }

    fn try_from_bytes(input: Vec<u8>) -> (r: Result<Self, FormatError>) {
        if input.len() == 16 {
            let v = decode_be(&input, 0, 16);
            proof {
                assert(input@.subrange(0, 16) =~= input@);
                lemma_be_bytes_of_value(input@);
                assert(pow256(16) == 0x100000000000000000000000000000000) by {
                    reveal_with_fuel(pow256, 17);
                }
            }
            let u: u128 = v as u128;
            let s: i128 = #[verifier::truncate] (u as i128);
            proof {
                assert((s as u128) == u) by (bit_vector)
                    requires
                        s == (u as i128),
                ;
            }
            Ok(s)
        } else {
            Err(FormatError)
        }
    }
}

/// Relies on String::from_utf8: it succeeds exactly on valid UTF-8 input and
/// yields the characters that the bytes encode.
#[verifier::external_body]
fn string_from_utf8(v: Vec<u8>) -> (r: Option<String>)
    ensures
        r is Some <==> valid_utf8(v@),
        r matches Some(st) ==> st@ == decode_utf8(v@),
{
    String::from_utf8(v).ok()
}

impl ByteConversion for String {
    type Model = Seq<char>;

    open spec fn model(self) -> Seq<char> {
        self@
    }

    open spec fn valid(self) -> bool {
        true
    }

    open spec fn encoding(self) -> Seq<u8> {
        encode_utf8(self@)
    }

    open spec fn decodable(s: Seq<u8>) -> bool {
        valid_utf8(s)
    }

    open spec fn decoded(s: Seq<u8>) -> Seq<char> {
        decode_utf8(s)
    }

    proof fn lemma_round_trip(self) {
        encode_utf8_valid_utf8(self@);
        encode_utf8_decode_utf8(self@);
    }

    fn to_bytes(self) -> (r: Vec<u8>) {
        self.as_str().as_bytes_vec()
    }

    fn try_from_bytes(input: Vec<u8>) -> (r: Result<Self, FormatError>) {
        let ghost s = input@;
        match string_from_utf8(input) {
            Some(st) => {
                proof {
                    decode_utf8_encode_utf8(s);
                }
                Ok(st)
            },
            None => Err(FormatError),
        }
    }
}

} // verus!
