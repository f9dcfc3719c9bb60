//! Plain values for the chain's words: 256-bit numbers, 32-byte hashes and
//! 20-byte addresses, each read as the big-endian number its bytes spell.

use vstd::prelude::*;
use vstd::string::StringSliceAdditionalSpecFns;
use crate::text;

verus! {

/// 2^64.
pub open spec fn two_64() -> nat {
    0x1_0000_0000_0000_0000nat
}

/// 2^128.
pub open spec fn two_128() -> nat {
    0x1_0000_0000_0000_0000_0000_0000_0000_0000nat
}

/// 2^192.
pub open spec fn two_192() -> nat {
    0x1_0000_0000_0000_0000_0000_0000_0000_0000_0000_0000_0000_0000nat
}

/// 2^160.
pub open spec fn two_160() -> nat {
    0x1_0000_0000_0000_0000_0000_0000_0000_0000_0000_0000nat
}

/// 2^256.
pub open spec fn two_256() -> nat {
    0x1_0000_0000_0000_0000_0000_0000_0000_0000_0000_0000_0000_0000_0000_0000_0000_0000nat
}

/// A 256-bit unsigned number, least significant limb first.
#[derive(Clone, Copy, Debug, PartialEq, Eq, Structural)]
pub struct U256 {
    pub l0: u64,
    pub l1: u64,
    pub l2: u64,
    pub l3: u64,
}

impl View for U256 {
    type V = nat;

    open spec fn view(&self) -> nat {
        (self.l0 + self.l1 * two_64() + self.l2 * two_128() + self.l3 * two_192()) as nat
    }
}

/// The number that a sequence of bytes spells, most significant byte first.
pub open spec fn be_value(bytes: Seq<u8>) -> nat
    decreases bytes.len(),
{
    if bytes.len() == 0 {
        0
    } else {
        be_value(bytes.drop_last()) * 256 + bytes.last() as nat
    }
}

impl U256 {
    /// The 256-bit number of a value below 2^256.
    pub open spec fn number(value: nat) -> U256 {
        choose|u: U256| u@ == value
    }

    /// A number is the number of its value.
    pub proof fn lemma_number(self)
        ensures
            U256::number(self@) == self,
    {
        U256::number(self@).lemma_injective(self);
    }

    /// Every value below 2^256 has its number.
    pub proof fn lemma_number_of(value: nat)
        requires
            value < two_256(),
        ensures
            U256::number(value)@ == value,
    {
        let q1 = value / two_64();
        let q2 = q1 / two_64();
        let q3 = q2 / two_64();
        let u = U256 {
            l0: (value % two_64()) as u64,
            l1: (q1 % two_64()) as u64,
            l2: (q2 % two_64()) as u64,
            l3: q3 as u64,
        };
        assert(value == q1 * two_64() + value % two_64());
        assert(q1 == q2 * two_64() + q1 % two_64());
        assert(q2 == q3 * two_64() + q2 % two_64());
        assert(q3 < two_64());
        assert(u@ == value);
    }

    /// A number is below 2^256.
    pub proof fn lemma_bound(self)
        ensures
            self@ < two_256(),
    {
    }

    /// Equal numbers have equal limbs.
    pub proof fn lemma_injective(self, other: U256)
        requires
            self@ == other@,
        ensures
            self == other,
    {
    }

    pub fn zero() -> (r: U256)
        ensures
            r@ == 0,
    {
        U256 { l0: 0, l1: 0, l2: 0, l3: 0 }
    }

    pub fn from_u64(n: u64) -> (r: U256)
        ensures
            r@ == n,
    {
        U256 { l0: n, l1: 0, l2: 0, l3: 0 }
    }

    pub fn from_u128(n: u128) -> (r: U256)
        ensures
            r@ == n,
    {
        let low: u64 = (n % 0x1_0000_0000_0000_0000) as u64;
        let high: u64 = (n / 0x1_0000_0000_0000_0000) as u64;
        U256 { l0: low, l1: high, l2: 0, l3: 0 }
    }

    pub fn is_zero(&self) -> (r: bool)
        ensures
            r == (self@ == 0),
    {
        self.l0 == 0 && self.l1 == 0 && self.l2 == 0 && self.l3 == 0
    }

    /// The number as an `i128`, where it fits.
    pub fn to_i128(&self) -> (r: Option<i128>)
        ensures
            r == (if self@ <= i128::MAX { Some(self@ as i128) } else { None::<i128> }),
    {
        if self.l3 == 0 && self.l2 == 0 && self.l1 <= 0x7fff_ffff_ffff_ffff {
            Some(self.l1 as i128 * 0x1_0000_0000_0000_0000 + self.l0 as i128)
        } else {
            None
        }
    }

    /// Sum modulo 2^256: what `alloy_primitives::U256`'s `+` returns, which is
    /// `ruint`'s `wrapping_add`.
    #[verifier::external_body]
    pub(crate) fn plus(self, rhs: U256) -> (r: U256)
        ensures
            r@ == (self@ + rhs@) % two_256(),
    {
        let a = alloy_primitives::U256::from_limbs([self.l0, self.l1, self.l2, self.l3]);
        let b = alloy_primitives::U256::from_limbs([rhs.l0, rhs.l1, rhs.l2, rhs.l3]);
        let l = (a + b).into_limbs();
        U256 { l0: l[0], l1: l[1], l2: l[2], l3: l[3] }
    }

    /// Product modulo 2^256: what `alloy_primitives::U256`'s `*` returns, which
    /// is `ruint`'s `wrapping_mul`.
    #[verifier::external_body]
    pub(crate) fn times(self, rhs: U256) -> (r: U256)
        ensures
            r@ == (self@ * rhs@) % two_256(),
    {
        let a = alloy_primitives::U256::from_limbs([self.l0, self.l1, self.l2, self.l3]);
        let b = alloy_primitives::U256::from_limbs([rhs.l0, rhs.l1, rhs.l2, rhs.l3]);
        let l = (a * b).into_limbs();
        U256 { l0: l[0], l1: l[1], l2: l[2], l3: l[3] }
    }

    /// The number that at most 32 big-endian bytes spell:
    /// `alloy_primitives::U256::from_be_slice`, which panics on a longer slice
    /// and reads a shorter one as if zeros stood before it.
    #[verifier::external_body]
    pub(crate) fn from_be_slice(bytes: &[u8]) -> (r: U256)
        requires
            bytes@.len() <= 32,
        ensures
            r@ == be_value(bytes@),
    {
        let l = alloy_primitives::U256::from_be_slice(bytes).into_limbs();
        U256 { l0: l[0], l1: l[1], l2: l[2], l3: l[3] }
    }

    /// The number in base ten, without leading zeros: `to_string` of
    /// `alloy_primitives::U256`.
    #[verifier::external_body]
    pub(crate) fn to_decimal(&self) -> (r: String)
        ensures
            r@ == text::decimal(self@),
    {
        alloy_primitives::U256::from_limbs([self.l0, self.l1, self.l2, self.l3]).to_string()
    }
}

/// `bytes` spell a number below 256 to the power of their count.
proof fn lemma_be_value_bound(bytes: Seq<u8>)
    ensures
        be_value(bytes) < text::power(256, bytes.len()),
    decreases bytes.len(),
{
    if bytes.len() > 0 {
        lemma_be_value_bound(bytes.drop_last());
    }
}

/// Thirty-two bytes make up a number below 2^256.
pub proof fn lemma_word_value_bound(bytes: Seq<u8>)
    requires
        bytes.len() == 32,
    ensures
        be_value(bytes) < two_256(),
{
    lemma_be_value_bound(bytes);
    assert(text::power(256, 32) == two_256()) by {
        reveal_with_fuel(text::power, 33);
    }
}

/// A 32-byte hash, read as a number.
#[derive(Clone, Copy, Debug, PartialEq, Eq, Structural)]
pub struct B256 {
    pub word: U256,
}

impl View for B256 {
    type V = nat;

    open spec fn view(&self) -> nat {
        self.word@
    }
}

/// The text of a hash: `0x` and its 64 digits.
pub open spec fn b256_text(hash: B256) -> Seq<char> {
    text::prefixed_hex(hash@, 64)
}

impl B256 {
    /// Equal numbers are equal hashes.
    pub proof fn lemma_injective(self, other: B256)
        requires
            self@ == other@,
        ensures
            self == other,
    {
        self.word.lemma_injective(other.word);
    }

    /// Two hashes with the same text are the same hash.
    pub proof fn lemma_text_injective(self, other: B256)
        requires
            b256_text(self) == b256_text(other),
        ensures
            self == other,
    {
        lemma_power_16_64();
        self.word.lemma_bound();
        other.word.lemma_bound();
        text::lemma_prefixed_hex_injective(self@, other@, 64);
        self.lemma_injective(other);
    }

    /// The hash whose big-endian bytes are given.
    pub fn from_bytes(bytes: &[u8; 32]) -> (r: B256)
        ensures
            r@ == be_value(bytes@),
    {
        B256 { word: U256::from_be_slice(bytes.as_slice()) }
    }

    /// `parse` of `alloy_primitives::B256`: an even number of bytes, an optional
    /// `0x` or `0X`, and 64 base-sixteen digits of either case. The reason of a
    /// failure is not kept.
    #[verifier::external_body]
    pub(crate) fn parse(s: &str) -> (r: Option<B256>)
        ensures
            match parse_hex(s.spec_bytes(), 64) {
                Ok(n) => r is Some && r->0@ == n,
                Err(_) => r is None,
            },
    {
        let h = s.parse::<alloy_primitives::B256>().ok()?;
        let l = alloy_primitives::U256::from_be_slice(h.as_slice()).into_limbs();
        Some(B256 { word: U256 { l0: l[0], l1: l[1], l2: l[2], l3: l[3] } })
    }

    /// `format!("{:#x}")` of `alloy_primitives::B256`: `0x` and the 64 lower-case
    /// digits of the hash.
    #[verifier::external_body]
    pub(crate) fn to_hex(&self) -> (r: String)
        ensures
            r@ == b256_text(*self),
    {
        let w = self.word;
        let n = alloy_primitives::U256::from_limbs([w.l0, w.l1, w.l2, w.l3]);
        format!("{:#x}", alloy_primitives::B256::from(n))
    }
}

/// A 20-byte address, read as a number: the four most significant bytes, the
/// eight after them and the last eight.
#[derive(Clone, Copy, Debug, PartialEq, Eq, Structural)]
pub struct Address {
    pub hi: u32,
    pub mid: u64,
    pub lo: u64,
}

impl View for Address {
    type V = nat;

    open spec fn view(&self) -> nat {
        (self.lo + self.mid * two_64() + self.hi * two_128()) as nat
    }
}

/// The address of all zero bytes.
pub open spec fn zero_address() -> Address {
    Address { hi: 0, mid: 0, lo: 0 }
}

/// The text of an address: `0x` and its 40 digits.
pub open spec fn address_text(address: Address) -> Seq<char> {
    text::prefixed_hex(address@, 40)
}

/// The address in the last twenty bytes of a word.
pub open spec fn word_address(word: B256) -> Address {
    Address {
        hi: (word.word.l2 % 0x1_0000_0000) as u32,
        mid: word.word.l1,
        lo: word.word.l0,
    }
}

proof fn lemma_power_16_40()
    ensures
        text::power(16, 40) == two_160(),
{
    reveal_with_fuel(text::power, 41);
}

proof fn lemma_power_16_64()
    ensures
        text::power(16, 64) == two_256(),
{
    reveal_with_fuel(text::power, 65);
}

proof fn lemma_power_256_20()
    ensures
        text::power(256, 20) == two_160(),
{
    reveal_with_fuel(text::power, 21);
}

/// The last twenty bytes of a word are its value modulo 2^160.
pub proof fn lemma_word_address(word: B256)
    ensures
        word_address(word)@ == word@ % two_160(),
{
    let w = word.word;
    let q = (w.l2 / 0x1_0000_0000) as int;
    let r = (w.l2 % 0x1_0000_0000) as int;
    assert(w.l2 == q * 0x1_0000_0000 + r);
    let a = word_address(word)@ as int;
    let d = two_160() as int;
    let high = q + w.l3 * 0x1_0000_0000;
    assert(word@ == a + high * d);
    assert(0 <= a < d);
    vstd::arithmetic::div_mod::lemma_fundamental_div_mod_converse(word@ as int, d, high, a);
}

impl Address {
    /// An address is below 2^160.
    pub proof fn lemma_bound(self)
        ensures
            self@ < two_160(),
    {
    }

    /// Equal numbers are equal addresses.
    pub proof fn lemma_injective(self, other: Address)
        requires
            self@ == other@,
        ensures
            self == other,
    {
    }

    /// Two addresses with the same text are the same address.
    pub proof fn lemma_text_injective(self, other: Address)
        requires
            address_text(self) == address_text(other),
        ensures
            self == other,
    {
        lemma_power_16_40();
        self.lemma_bound();
        other.lemma_bound();
        text::lemma_prefixed_hex_injective(self@, other@, 40);
        self.lemma_injective(other);
    }

    pub fn zero() -> (r: Address)
        ensures
            r == zero_address(),
    {
        Address { hi: 0, mid: 0, lo: 0 }
    }

    /// The address whose big-endian bytes are given.
    pub fn from_bytes(bytes: &[u8; 20]) -> (r: Address)
        ensures
            r@ == be_value(bytes@),
    {
        let word = U256::from_be_slice(bytes.as_slice());
        proof {
            lemma_be_value_bound(bytes@);
            lemma_power_256_20();
            lemma_word_address(B256 { word });
            vstd::arithmetic::div_mod::lemma_small_mod(word@, two_160());
        }
        Address::from_word(&B256 { word })
    }

    /// The address in the last twenty bytes of a word.
    pub fn from_word(word: &B256) -> (r: Address)
        ensures
            r == word_address(*word),
            r@ == word@ % two_160(),
    {
        proof {
            lemma_word_address(*word);
        }
        Address {
            hi: (word.word.l2 % 0x1_0000_0000) as u32,
            mid: word.word.l1,
            lo: word.word.l0,
        }
    }

    /// Whether this address comes before another in the order of their bytes.
    pub fn precedes(&self, other: &Address) -> (r: bool)
        ensures
            r == (self@ < other@),
    {
        self.hi < other.hi || (self.hi == other.hi && (self.mid < other.mid || (self.mid
            == other.mid && self.lo < other.lo)))
    }

    /// `format!("{:#x}")` of `alloy_primitives::Address`: `0x` and the 40
    /// lower-case digits of the address.
    #[verifier::external_body]
    pub(crate) fn to_hex(&self) -> (r: String)
        ensures
            r@ == address_text(*self),
    {
        let n = alloy_primitives::U256::from_limbs([self.lo, self.mid, self.hi as u64, 0]);
        let word = alloy_primitives::B256::from(n);
        format!("{:#x}", alloy_primitives::Address::from_word(word))
    }

    /// The text of `to_checksum_buffer(None)` of `alloy_primitives::Address`: its
    /// EIP-55 form, which is `0x` and the forty digits of the address with some of
    /// the letters raised, so that it reads back as the address. It depends on the
    /// address alone; it is given a name, since which letters are raised comes from
    /// a hash.
    #[verifier::external_body]
    pub(crate) fn to_checksum(&self) -> (r: String)
        ensures
            r@ == eip55_text(self@),
            match parse_hex(vstd::utf8::encode_utf8(r@), 40) {
                Ok(n) => n == self@,
                Err(_) => false,
            },
    {
        let n = alloy_primitives::U256::from_limbs([self.lo, self.mid, self.hi as u64, 0]);
        let word = alloy_primitives::B256::from(n);
        alloy_primitives::Address::from_word(word).to_checksum_buffer(None).as_str().to_owned()
    }

    /// `parse` of `alloy_primitives::Address`: an even number of bytes, an
    /// optional `0x` or `0X`, and forty base-sixteen digits of either case.
    #[verifier::external_body]
    pub(crate) fn parse(s: &str) -> (r: Result<Address, HexError>)
        ensures
            match parse_hex(s.spec_bytes(), 40) {
                Ok(n) => r is Ok && r->Ok_0@ == n,
                Err(e) => r == Err::<Address, HexError>(e),
            },
    {
        match s.parse::<alloy_primitives::Address>() {
            Ok(a) => {
                let l = alloy_primitives::U256::from_be_slice(a.as_slice()).into_limbs();
                Ok(Address { hi: l[2] as u32, mid: l[1], lo: l[0] })
            },
            Err(alloy_primitives::hex::FromHexError::OddLength) => Err(HexError::OddLength),
            Err(alloy_primitives::hex::FromHexError::InvalidStringLength) => Err(
                HexError::InvalidStringLength,
            ),
            Err(alloy_primitives::hex::FromHexError::InvalidHexCharacter { c, index }) => Err(
                HexError::InvalidHexCharacter { c, index },
            ),
        }
    }
}

/// The EIP-55 form of an address.
pub uninterp spec fn eip55_text(address: nat) -> Seq<char>;

/// Why a text is not an address.
#[derive(Clone, Copy, Debug, PartialEq, Eq, Structural)]
pub enum HexError {
    /// The first character that is no base-sixteen digit, and its place among
    /// the digits.
    InvalidHexCharacter { c: char, index: usize },
    OddLength,
    InvalidStringLength,
}

/// Whether a byte is a base-sixteen digit of either case.
pub open spec fn is_hex_byte(b: u8) -> bool {
    48 <= b <= 57 || 65 <= b <= 70 || 97 <= b <= 102
}

/// The value of a base-sixteen digit.
pub open spec fn hex_byte_value(b: u8) -> nat {
    if b <= 57 {
        (b - 48) as nat
    } else if b <= 70 {
        (b - 55) as nat
    } else {
        (b - 87) as nat
    }
}

/// The number that base-sixteen digits spell.
pub open spec fn hex_value(digits: Seq<u8>) -> nat
    decreases digits.len(),
{
    if digits.len() == 0 {
        0
    } else {
        hex_value(digits.drop_last()) * 16 + hex_byte_value(digits.last())
    }
}

/// The bytes after an optional `0x` or `0X`.
pub open spec fn strip_hex_prefix(bytes: Seq<u8>) -> Seq<u8> {
    if bytes.len() >= 2 && bytes[0] == 48 && (bytes[1] == 120 || bytes[1] == 88) {
        bytes.skip(2)
    } else {
        bytes
    }
}

/// How many base-sixteen digits come before the first byte that is none.
pub open spec fn hex_prefix_len(bytes: Seq<u8>) -> nat
    decreases bytes.len(),
{
    if bytes.len() == 0 || !is_hex_byte(bytes[0]) {
        0
    } else {
        1 + hex_prefix_len(bytes.skip(1))
    }
}

/// The number that a text of these bytes spells in `count` base-sixteen digits
/// after an optional prefix, or why it spells none. The text as a whole has an
/// even number of bytes.
pub open spec fn parse_hex(bytes: Seq<u8>, count: nat) -> Result<nat, HexError> {
    let digits = strip_hex_prefix(bytes);
    let good = hex_prefix_len(digits);
    if bytes.len() % 2 != 0 {
        Err(HexError::OddLength)
    } else if digits.len() != count {
        Err(HexError::InvalidStringLength)
    } else if good < count {
        Err(HexError::InvalidHexCharacter { c: digits[good as int] as char, index: good as usize })
    } else {
        Ok(hex_value(digits))
    }
}

proof fn lemma_hex_prefix_all(bytes: Seq<u8>)
    requires
        forall|i: int| 0 <= i < bytes.len() ==> is_hex_byte(#[trigger] bytes[i]),
    ensures
        hex_prefix_len(bytes) == bytes.len(),
    decreases bytes.len(),
{
    if bytes.len() > 0 {
        let rest = bytes.skip(1);
        assert forall|i: int| 0 <= i < rest.len() implies is_hex_byte(#[trigger] rest[i]) by {
            assert(is_hex_byte(bytes[i + 1]));
        }
        lemma_hex_prefix_all(rest);
        assert(is_hex_byte(bytes[0]));
    }
}

/// The byte of a digit is a base-sixteen digit of its value.
proof fn lemma_digit_byte(d: int)
    requires
        0 <= d < 16,
    ensures
        is_hex_byte(text::digit_char(d) as u8),
        hex_byte_value(text::digit_char(d) as u8) == d,
        '\0' <= text::digit_char(d) <= '\u{7f}',
{
    assert(text::digit_char(d) as int == if d < 10 {
        48 + d
    } else {
        87 + d
    });
    assert(text::digit_char(d) as u8 as int == if d < 10 {
        48 + d
    } else {
        87 + d
    });
}

proof fn lemma_hex_digits_value(n: nat, count: nat, bytes: Seq<u8>)
    requires
        n < text::power(16, count),
        bytes.len() == count,
        forall|i: int|
            0 <= i < count ==> #[trigger] bytes[i] == text::hex_digits(n, count)[i] as u8,
    ensures
        hex_value(bytes) == n,
        forall|i: int| 0 <= i < count ==> is_hex_byte(#[trigger] bytes[i]),
        vstd::utf8::is_ascii_chars(text::hex_digits(n, count)),
    decreases count,
{
    text::lemma_hex_digits_len(n, count);
    if count > 0 {
        let rest = (count - 1) as nat;
        let head = text::hex_digits(n / 16, rest);
        let d = (n % 16) as int;
        let all = text::hex_digits(n, count);
        text::lemma_hex_digits_len(n / 16, rest);
        assert(all == head.push(text::digit_char(d)));
        assert(n / 16 < text::power(16, rest));
        let init = bytes.drop_last();
        assert forall|i: int| 0 <= i < rest implies #[trigger] init[i] == head[i] as u8 by {
            assert(bytes[i] == all[i] as u8);
        }
        lemma_hex_digits_value(n / 16, rest, init);
        lemma_digit_byte(d);
        assert(bytes[count - 1] == all[count - 1] as u8);
        assert(bytes.last() == text::digit_char(d) as u8);
        assert forall|i: int| 0 <= i < count implies is_hex_byte(#[trigger] bytes[i]) by {
            if i < rest {
                assert(is_hex_byte(init[i]));
            }
        }
        assert forall|i: int| 0 <= i < all.len() implies '\0' <= #[trigger] all[i]
            <= '\u{7f}' by {
            if i < rest {
                assert(all[i] == head[i]);
            }
        }
    }
}

/// The prefixed text of a number reads back as the number.
proof fn lemma_prefixed_hex_reads_back(n: nat, count: nat)
    requires
        n < text::power(16, count),
        count % 2 == 0,
    ensures
        parse_hex(vstd::utf8::encode_utf8(text::prefixed_hex(n, count)), count) == Ok::<
            nat,
            HexError,
        >(n),
{
    let s = text::prefixed_hex(n, count);
    let digits = text::hex_digits(n, count);
    text::lemma_hex_digits_len(n, count);
    let spelled = Seq::new(count, |i: int| digits[i] as u8);
    lemma_hex_digits_value(n, count, spelled);
    assert(vstd::utf8::is_ascii_chars(s)) by {
        assert forall|i: int| 0 <= i < s.len() implies '\0' <= #[trigger] s[i] <= '\u{7f}' by {
            if i >= 2 {
                assert(s[i] == digits[i - 2]);
            }
        }
    }
    vstd::utf8::is_ascii_chars_encode_utf8(s);
    let bytes = vstd::utf8::encode_utf8(s);
    assert(bytes.len() == count + 2);
    assert(s[0] == '0' && s[1] == 'x');
    assert('0' as u8 == 48 && 'x' as u8 == 120);
    assert(bytes[0] == 48 && bytes[1] == 120);
    assert(bytes.skip(2) =~= spelled) by {
        assert forall|i: int| 0 <= i < count implies bytes.skip(2)[i] == spelled[i] by {
            assert(s[i + 2] == digits[i]);
            assert(bytes[i + 2] == s[i + 2] as u8);
        }
    }
    lemma_hex_prefix_all(spelled);
}

impl B256 {
    /// The text of a hash reads back as the hash.
    pub proof fn lemma_text_reads_back(self)
        ensures
            parse_hex(vstd::utf8::encode_utf8(b256_text(self)), 64) == Ok::<nat, HexError>(self@),
    {
        lemma_power_16_64();
        self.word.lemma_bound();
        lemma_prefixed_hex_reads_back(self@, 64);
    }
}

impl Address {
    /// The text of an address reads back as the address.
    pub proof fn lemma_text_reads_back(self)
        ensures
            parse_hex(vstd::utf8::encode_utf8(address_text(self)), 40) == Ok::<nat, HexError>(
                self@,
            ),
    {
        lemma_power_16_40();
        self.lemma_bound();
        lemma_prefixed_hex_reads_back(self@, 40);
    }
}

/// The text of `FromHexError` of `alloy_primitives::hex` about a character.
pub uninterp spec fn invalid_character_text(c: char, index: usize) -> Seq<char>;

impl HexError {
    pub open spec fn text(self) -> Seq<char> {
        match self {
            HexError::InvalidHexCharacter { c, index } => invalid_character_text(c, index),
            HexError::OddLength => "odd number of digits"@,
            HexError::InvalidStringLength => "invalid string length"@,
        }
    }

    /// `to_string` of `alloy_primitives::hex::FromHexError`. The text about a
    /// character quotes it as `Debug` does, and is given a name.
    #[verifier::external_body]
    pub(crate) fn message(&self) -> (r: String)
        ensures
            match *self {
                HexError::InvalidHexCharacter { c, index } => r@ == invalid_character_text(
                    c,
                    index,
                ),
                HexError::OddLength => r@ == "odd number of digits"@,
                HexError::InvalidStringLength => r@ == "invalid string length"@,
            },
    {
        match *self {
            HexError::InvalidHexCharacter { c, index } =>
            alloy_primitives::hex::FromHexError::InvalidHexCharacter { c, index }.to_string(),
            HexError::OddLength => alloy_primitives::hex::FromHexError::OddLength.to_string(),
            HexError::InvalidStringLength =>
            alloy_primitives::hex::FromHexError::InvalidStringLength.to_string(),
        }
    }
}

/// Whether two bytes are the same letter, in whichever case, or else the same byte.
pub open spec fn same_letter(a: u8, b: u8) -> bool {
    a == b || (65 <= a <= 90 && b == a + 32) || (97 <= a <= 122 && b == a - 32)
}

proof fn lemma_same_digits(a: Seq<u8>, b: Seq<u8>)
    requires
        a.len() == b.len(),
        forall|i: int| 0 <= i < a.len() ==> same_letter(#[trigger] a[i], b[i]),
    ensures
        hex_prefix_len(a) == hex_prefix_len(b),
        hex_prefix_len(a) <= a.len(),
    decreases a.len(),
{
    if a.len() > 0 {
        assert(same_letter(a[0], b[0]));
        let (s, t) = (a.skip(1), b.skip(1));
        assert forall|i: int| 0 <= i < s.len() implies same_letter(#[trigger] s[i], t[i]) by {
            assert(same_letter(a[i + 1], b[i + 1]));
        }
        lemma_same_digits(s, t);
    }
}

proof fn lemma_same_value(a: Seq<u8>, b: Seq<u8>)
    requires
        a.len() == b.len(),
        forall|i: int| 0 <= i < a.len() ==> same_letter(#[trigger] a[i], b[i]),
        forall|i: int| 0 <= i < a.len() ==> is_hex_byte(#[trigger] a[i]),
    ensures
        hex_value(a) == hex_value(b),
    decreases a.len(),
{
    if a.len() > 0 {
        assert(same_letter(a.last(), b.last()) && is_hex_byte(a.last()));
        let (s, t) = (a.drop_last(), b.drop_last());
        assert forall|i: int| 0 <= i < s.len() implies same_letter(#[trigger] s[i], t[i]) by {
            assert(same_letter(a[i], b[i]));
        }
        lemma_same_value(s, t);
    }
}

proof fn lemma_digits_before(bytes: Seq<u8>, i: int)
    requires
        0 <= i < hex_prefix_len(bytes),
    ensures
        i < bytes.len(),
        is_hex_byte(bytes[i]),
    decreases bytes.len(),
{
    if i > 0 {
        lemma_digits_before(bytes.skip(1), i - 1);
    }
}

/// The case of the digits does not matter: two texts of the same letters spell the
/// same number, or neither spells one.
pub proof fn digits_mean_the_same_in_either_case(a: Seq<u8>, b: Seq<u8>, count: nat)
    requires
        a.len() == b.len(),
        forall|i: int| 0 <= i < a.len() ==> same_letter(#[trigger] a[i], b[i]),
    ensures
        parse_hex(a, count) is Ok <==> parse_hex(b, count) is Ok,
        parse_hex(a, count) is Ok ==> parse_hex(a, count) == parse_hex(b, count),
{
    if a.len() >= 2 {
        assert(same_letter(a[0], b[0]) && same_letter(a[1], b[1]));
    }
    let (s, t) = (strip_hex_prefix(a), strip_hex_prefix(b));
    assert forall|i: int| 0 <= i < s.len() implies same_letter(#[trigger] s[i], t[i]) by {
        assert(same_letter(a[i + (a.len() - s.len())], b[i + (a.len() - s.len())]));
    }
    lemma_same_digits(s, t);
    if s.len() == count && hex_prefix_len(s) == count {
        assert forall|i: int| 0 <= i < s.len() implies is_hex_byte(#[trigger] s[i]) by {
            lemma_digits_before(s, i);
        }
        lemma_same_value(s, t);
    }
}

/// A text that is read as a number of so many digits has exactly those, after at most
/// a prefix; one that is not is refused for its odd length, for its number of digits,
/// or for its first character that is no digit.
pub proof fn a_refused_number_is_told_why(bytes: Seq<u8>, count: nat)
    requires
        count <= usize::MAX,
    ensures
        match parse_hex(bytes, count) {
            Ok(_) => bytes.len() == count || bytes.len() == count + 2,
            Err(HexError::OddLength) => bytes.len() % 2 == 1,
            Err(HexError::InvalidStringLength) => bytes.len() % 2 == 0 && strip_hex_prefix(
                bytes,
            ).len() != count,
            Err(HexError::InvalidHexCharacter { c, index }) => {
                let digits = strip_hex_prefix(bytes);
                &&& index < digits.len() == count
                &&& !is_hex_byte(digits[index as int])
                &&& c as u32 == digits[index as int]
                &&& forall|i: int| 0 <= i < index ==> is_hex_byte(#[trigger] digits[i])
            },
        },
{
    let digits = strip_hex_prefix(bytes);
    let good = hex_prefix_len(digits);
    assert forall|i: int| 0 <= i < good implies is_hex_byte(#[trigger] digits[i]) by {
        lemma_digits_before(digits, i);
    }
    lemma_first_other(digits);
}

proof fn lemma_first_other(bytes: Seq<u8>)
    ensures
        hex_prefix_len(bytes) <= bytes.len(),
        hex_prefix_len(bytes) < bytes.len() ==> !is_hex_byte(bytes[hex_prefix_len(bytes) as int]),
    decreases bytes.len(),
{
    if bytes.len() > 0 {
        lemma_first_other(bytes.skip(1));
    }
}

} // verus!
