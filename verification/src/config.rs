//! What the node is started with.

use vstd::prelude::*;
use vstd::string::{StrSliceExecFns, StringExecFns};
use crate::primitives;
use crate::primitives::{Address, HexError};
use crate::text;
use crate::watched::WatchedSet;

verus! {

/// The watched addresses, and where the ledger is.
#[derive(Clone)]
pub struct PassbookConfig {
    pub watched: WatchedSet,
    pub db_path: String,
}

/// Why a text cannot be watched.
#[derive(Clone, Debug)]
pub enum ConfigError {
    /// It is no address.
    Invalid { text: String, reason: HexError },
    /// Its letters are of both cases, and not as the checksum has them.
    Checksum { text: String, expected: String },
}

/// What a [`ConfigError`] says.
pub enum Refusal {
    Invalid { text: Seq<char>, reason: HexError },
    Checksum { text: Seq<char>, expected: Seq<char> },
}

impl View for ConfigError {
    type V = Refusal;

    open spec fn view(&self) -> Refusal {
        match self {
            ConfigError::Invalid { text, reason } => Refusal::Invalid {
                text: text@,
                reason: *reason,
            },
            ConfigError::Checksum { text, expected } => Refusal::Checksum {
                text: text@,
                expected: expected@,
            },
        }
    }
}

impl Refusal {
    pub open spec fn message(self) -> Seq<char> {
        match self {
            Refusal::Invalid { text, reason } => "invalid watched address "@ + text::quoted_text(
                text,
            ) + ": "@ + reason.text(),
            Refusal::Checksum { text, expected } => "watched address "@ + text::quoted_text(text)
                + " has an invalid EIP-55 checksum (expected "@ + expected
                + "); a mistyped character may have produced the wrong address"@,
        }
    }
}

impl ConfigError {
    pub fn message(&self) -> (r: String)
        ensures
            r@ == self@.message(),
    {
        match self {
            ConfigError::Invalid { text, reason } => {
                let mut m = "invalid watched address ".to_owned();
                let q = text::quoted(text.as_str());
                m.append(q.as_str());
                m.append(": ");
                let e = reason.message();
                m.append(e.as_str());
                m
            },
            ConfigError::Checksum { text, expected } => {
                let mut m = "watched address ".to_owned();
                let q = text::quoted(text.as_str());
                m.append(q.as_str());
                m.append(" has an invalid EIP-55 checksum (expected ");
                m.append(expected.as_str());
                m.append("); a mistyped character may have produced the wrong address");
                m
            },
        }
    }
}

/// The characters after an optional `0x` or `0X`.
pub open spec fn without_prefix(s: Seq<char>) -> Seq<char> {
    if s.len() >= 2 && s[0] == '0' && (s[1] == 'x' || s[1] == 'X') {
        s.skip(2)
    } else {
        s
    }
}

/// Whether a text has letters of both cases after its prefix, and so carries a
/// checksum.
pub open spec fn mixed_case(s: Seq<char>) -> bool {
    let digits = without_prefix(s);
    &&& exists|i: int| 0 <= i < digits.len() && 'a' <= #[trigger] digits[i] <= 'z'
    &&& exists|i: int| 0 <= i < digits.len() && 'A' <= #[trigger] digits[i] <= 'Z'
}

/// How long the prefix is.
fn prefix_len(s: &str) -> (r: usize)
    ensures
        r <= s@.len(),
        s@.skip(r as int) == without_prefix(s@),
{
    if s.unicode_len() >= 2 && s.get_char(0) == '0' && (s.get_char(1) == 'x' || s.get_char(1)
        == 'X') {
        2
    } else {
        assert(s@.skip(0) =~= s@);
        0
    }
}

/// Whether two texts are the same but for their prefixes.
fn same_digits(a: &str, b: &str) -> (r: bool)
    ensures
        r == (without_prefix(a@) == without_prefix(b@)),
{
    let i: usize = prefix_len(a);
    let j: usize = prefix_len(b);
    let a_len: usize = a.unicode_len();
    let b_len: usize = b.unicode_len();
    let n: usize = a_len - i;
    let ghost left = without_prefix(a@);
    let ghost right = without_prefix(b@);
    assert(left.len() == n);
    assert(right.len() == b_len - j);
    if n != b_len - j {
        return false;
    }
    let mut k: usize = 0;
    while k < n
        invariant
            k <= n,
            i + n == a_len == a@.len(),
            j + n == b_len == b@.len(),
            left == without_prefix(a@),
            right == without_prefix(b@),
            left == a@.skip(i as int),
            right == b@.skip(j as int),
            forall|m: int| 0 <= m < k ==> #[trigger] left[m] == right[m],
        decreases n - k,
    {
        if a.get_char(i + k) != b.get_char(j + k) {
            assert(left[k as int] != right[k as int]);
            return false;
        }
        k += 1;
    }
    assert(left =~= right);
    true
}

fn has_mixed_case(s: &str) -> (r: bool)
    ensures
        r == mixed_case(s@),
{
    let len: usize = s.unicode_len();
    let start: usize = prefix_len(s);
    let ghost digits = without_prefix(s@);
    let mut lower = false;
    let mut upper = false;
    let mut k: usize = start;
    while k < len
        invariant
            start <= k <= len == s@.len(),
            digits == s@.skip(start as int),
            lower == (exists|i: int| 0 <= i < k - start && 'a' <= #[trigger] digits[i] <= 'z'),
            upper == (exists|i: int| 0 <= i < k - start && 'A' <= #[trigger] digits[i] <= 'Z'),
        decreases len - k,
    {
        let c = s.get_char(k);
        assert(digits[k - start] == c);
        let ghost was_lower = lower;
        let ghost was_upper = upper;
        if c >= 'a' && c <= 'z' {
            lower = true;
        }
        if c >= 'A' && c <= 'Z' {
            upper = true;
        }
        proof {
            if was_lower {
                let i = choose|i: int| 0 <= i < k - start && 'a' <= #[trigger] digits[i] <= 'z';
                assert('a' <= digits[i] <= 'z');
            }
            if was_upper {
                let i = choose|i: int| 0 <= i < k - start && 'A' <= #[trigger] digits[i] <= 'Z';
                assert('A' <= digits[i] <= 'Z');
            }
        }
        k += 1;
    }
    lower && upper
}

/// Whether a text that spells an address is written as it may be: in one case, or
/// as the checksum has it, with or without the prefix.
pub fn check_case(text: &str, address: Address, checksum: &str) -> (r: Result<
    Address,
    ConfigError,
>)
    ensures
        match r {
            Ok(a) => a == address && (!mixed_case(text@) || without_prefix(text@)
                == without_prefix(checksum@)),
            Err(e) => mixed_case(text@) && without_prefix(text@) != without_prefix(checksum@)
                && e@ == (Refusal::Checksum { text: text@, expected: checksum@ }),
        },
{
    if has_mixed_case(text) && !same_digits(text, checksum) {
        return Err(
            ConfigError::Checksum { text: text.to_owned(), expected: checksum.to_owned() },
        );
    }
    Ok(address)
}

/// The address that a text may stand for, or why it may not be watched.
pub open spec fn watchable(text: Seq<char>) -> Result<nat, Refusal> {
    match primitives::parse_hex(vstd::utf8::encode_utf8(text), 40) {
        Err(reason) => Err(Refusal::Invalid { text, reason }),
        Ok(n) => if mixed_case(text) && without_prefix(text) != without_prefix(
            primitives::eip55_text(n),
        ) {
            Err(Refusal::Checksum { text, expected: primitives::eip55_text(n) })
        } else {
            Ok(n)
        },
    }
}

/// Reads one watched address. Letters of one case carry no checksum; letters of
/// both are checked, so that a mistyped one is noticed. The spelling that is then
/// said to be expected is one that is accepted, for the same address.
pub fn parse_watched_address(text: &str) -> (r: Result<Address, ConfigError>)
    ensures
        match watchable(text@) {
            Ok(n) => r is Ok && r->Ok_0@ == n,
            Err(e) => r is Err && r->Err_0@ == e,
        },
        watchable(text@) matches Err(Refusal::Checksum { expected, .. }) ==> watchable(expected)
            == Ok::<nat, Refusal>(
            primitives::parse_hex(vstd::utf8::encode_utf8(text@), 40)->Ok_0,
        ),
{
    let address = match Address::parse(text) {
        Ok(a) => a,
        Err(reason) => {
            return Err(ConfigError::Invalid { text: text.to_owned(), reason });
        },
    };
    let checksum = address.to_checksum();
    check_case(text, address, checksum.as_str())
}

/// What the first `n` texts say is to be watched, or the refusal of the first that
/// cannot be. Blank texts say nothing.
pub open spec fn watched_of(texts: Seq<String>, n: nat) -> Result<Set<nat>, Refusal>
    decreases n,
{
    if n == 0 {
        Ok(Set::empty())
    } else {
        let text = text::trimmed(texts[n - 1]@);
        match watched_of(texts, (n - 1) as nat) {
            Err(e) => Err(e),
            Ok(before) => if text.len() == 0 {
                Ok(before)
            } else {
                match watchable(text) {
                    Ok(a) => Ok(before.insert(a)),
                    Err(e) => Err(e),
                }
            },
        }
    }
}

/// Addresses as numbers.
pub open spec fn numbers(addresses: Set<Address>) -> Set<nat> {
    Set::new(|n: nat| exists|a: Address| #[trigger] addresses.contains(a) && a@ == n)
}

proof fn lemma_numbers_insert(addresses: Set<Address>, address: Address)
    ensures
        numbers(addresses.insert(address)) == numbers(addresses).insert(address@),
{
    assert forall|n: nat|
        numbers(addresses.insert(address)).contains(n) <==> numbers(addresses).insert(
            address@,
        ).contains(n) by {
        if numbers(addresses).contains(n) {
            let a = choose|a: Address| #[trigger] addresses.contains(a) && a@ == n;
            assert(addresses.insert(address).contains(a));
        }
        if numbers(addresses.insert(address)).contains(n) {
            let a = choose|a: Address| #[trigger]
                addresses.insert(address).contains(a) && a@ == n;
            if a != address {
                assert(addresses.contains(a));
            }
        }
        assert(addresses.insert(address).contains(address));
    }
    assert(numbers(addresses.insert(address)) =~= numbers(addresses).insert(address@));
}

/// A refusal stays.
proof fn lemma_refused(texts: Seq<String>, n: nat, m: nat)
    requires
        n <= m,
        watched_of(texts, n) is Err,
    ensures
        watched_of(texts, m) == watched_of(texts, n),
    decreases m,
{
    if n < m {
        lemma_refused(texts, n, (m - 1) as nat);
    }
}

impl PassbookConfig {
    /// A configuration from the texts of the watched addresses and the path of the
    /// ledger. A text that is no address, or a wrong one, is refused; blank texts
    /// are passed over.
    pub fn from_parts(addrs: Vec<String>, db_path: String) -> (r: Result<
        PassbookConfig,
        ConfigError,
    >)
        ensures
            match watched_of(addrs@, addrs@.len()) {
                Ok(w) => r is Ok && numbers(r->Ok_0.watched@) == w && r->Ok_0.db_path@ == db_path@,
                Err(e) => r is Err && r->Err_0@ == e,
            },
    {
        let mut watched = WatchedSet::new();
        let mut k: usize = 0;
        assert(numbers(watched@) =~= Set::<nat>::empty());
        while k < addrs.len()
            invariant
                k <= addrs@.len(),
                watched_of(addrs@, k as nat) == Ok::<Set<nat>, Refusal>(numbers(watched@)),
            decreases addrs@.len() - k,
        {
            let text = text::trim(addrs[k].as_str());
            if text.unicode_len() > 0 {
                match parse_watched_address(text) {
                    Ok(a) => {
                        proof {
                            lemma_numbers_insert(watched@, a);
                        }
                        watched.insert(a);
                    },
                    Err(e) => {
                        proof {
                            lemma_refused(addrs@, (k + 1) as nat, addrs@.len());
                        }
                        return Err(e);
                    },
                }
            }
            k += 1;
        }
        Ok(PassbookConfig { watched, db_path })
    }

    /// Whether anything is watched. If not, there is nothing to follow.
    pub fn enabled(&self) -> (r: bool)
        ensures
            r == (self.watched@ != Set::<Address>::empty()),
    {
        !self.watched.is_empty()
    }

    /// Whether more is watched than was planned for.
    pub fn oversized(&self) -> (r: bool)
        ensures
            r == (self.watched@.len() > 10),
    {
        self.watched.len() > 10
    }
}

/// A text that cannot be watched makes the whole configuration fail, wherever it
/// stands.
pub proof fn one_bad_address_refuses_all(texts: Seq<String>, k: int)
    requires
        0 <= k < texts.len(),
        text::trimmed(texts[k]@).len() > 0,
        watchable(text::trimmed(texts[k]@)) is Err,
    ensures
        watched_of(texts, texts.len()) is Err,
{
    let n = (k + 1) as nat;
    assert(watched_of(texts, n) is Err);
    lemma_refused(texts, n, texts.len());
}

/// Without any address nothing is watched.
pub proof fn blank_texts_watch_nothing(texts: Seq<String>, n: nat)
    requires
        n <= texts.len(),
        forall|i: int| 0 <= i < texts.len() ==> text::trimmed(#[trigger] texts[i]@).len() == 0,
    ensures
        watched_of(texts, n) == Ok::<Set<nat>, Refusal>(Set::empty()),
    decreases n,
{
    if n > 0 {
        blank_texts_watch_nothing(texts, (n - 1) as nat);
        assert(text::trimmed(texts[n - 1]@).len() == 0);
    }
}

/// Every address can be watched under the text under which it is stored.
pub proof fn the_stored_spelling_is_accepted(address: Address)
    ensures
        watchable(primitives::address_text(address)) == Ok::<nat, Refusal>(address@),
{
    let s = primitives::address_text(address);
    let digits = text::hex_digits(address@, 40);
    text::lemma_hex_digits_len(address@, 40);
    text::lemma_hex_digits_lower(address@, 40);
    address.lemma_text_reads_back();
    assert(s[0] == '0' && s[1] == 'x');
    assert(without_prefix(s) =~= digits);
    assert(!mixed_case(s));
}

/// An address that is spelled as its checksum has it is accepted, with or without
/// the prefix.
pub proof fn a_right_checksum_is_accepted(text: Seq<char>, n: nat)
    requires
        primitives::parse_hex(vstd::utf8::encode_utf8(text), 40) == Ok::<nat, HexError>(n),
        without_prefix(text) == without_prefix(primitives::eip55_text(n)),
    ensures
        watchable(text) == Ok::<nat, Refusal>(n),
{
}

/// An address in letters of one case is accepted, whatever its checksum.
pub proof fn one_case_needs_no_checksum(text: Seq<char>)
    requires
        !mixed_case(text),
        primitives::parse_hex(vstd::utf8::encode_utf8(text), 40) is Ok,
    ensures
        watchable(text) == Ok::<nat, Refusal>(
            primitives::parse_hex(vstd::utf8::encode_utf8(text), 40)->Ok_0,
        ),
{
}

/// Exactly the addresses that a text names are watched, the white space around the
/// texts aside.
pub proof fn exactly_the_named_addresses_are_watched(texts: Seq<String>, n: nat, address: nat)
    requires
        n <= texts.len(),
        watched_of(texts, n) is Ok,
    ensures
        watched_of(texts, n)->Ok_0.contains(address) <==> exists|k: int|
            0 <= k < n && text::trimmed((#[trigger] texts[k])@).len() > 0 && watchable(
                text::trimmed(texts[k]@),
            ) == Ok::<nat, Refusal>(address),
    decreases n,
{
    if n > 0 {
        let m = (n - 1) as nat;
        exactly_the_named_addresses_are_watched(texts, m, address);
        if watched_of(texts, m)->Ok_0.contains(address) {
            let k = choose|k: int|
                0 <= k < m && text::trimmed((#[trigger] texts[k])@).len() > 0 && watchable(
                    text::trimmed(texts[k]@),
                ) == Ok::<nat, Refusal>(address);
            assert(text::trimmed(texts[k]@).len() > 0);
        }
        if text::trimmed(texts[n - 1]@).len() > 0 && watchable(text::trimmed(texts[n - 1]@)) == Ok::<
            nat,
            Refusal,
        >(address) {
            assert(watched_of(texts, n)->Ok_0.contains(address));
        }
    }
}

/// An address that may be watched is the one that its digits spell; a mistyped letter
/// among letters of both cases is refused, with the spelling that is expected.
pub proof fn a_wrong_checksum_is_refused(text: Seq<char>)
    ensures
        match (primitives::parse_hex(vstd::utf8::encode_utf8(text), 40), watchable(text)) {
            (Ok(n), Ok(m)) => m == n,
            (Ok(n), Err(Refusal::Checksum { text: t, expected })) => t == text && expected
                == primitives::eip55_text(n) && without_prefix(text) != without_prefix(expected)
                && mixed_case(text),
            (Err(reason), Err(e)) => e == (Refusal::Invalid { text, reason }),
            _ => false,
        },
{
}

/// The text about a refusal quotes what was refused, and gives the reason or the
/// spelling that was expected.
pub proof fn a_refusal_names_what_it_refuses(r: Refusal)
    ensures
        match r {
            Refusal::Invalid { text, reason } => {
                &&& text::mentions(r.message(), text::quoted_text(text))
                &&& text::mentions(r.message(), reason.text())
            },
            Refusal::Checksum { text, expected } => {
                &&& text::mentions(r.message(), text::quoted_text(text))
                &&& text::mentions(r.message(), expected)
            },
        },
{
    let m = r.message();
    match r {
        Refusal::Invalid { text, reason } => {
            let q = text::quoted_text(text);
            let first = "invalid watched address "@;
            assert(m =~= first + q + (": "@ + reason.text()));
            text::lemma_mentions(m, first, q, ": "@ + reason.text());
            assert(m =~= (first + q + ": "@) + reason.text() + Seq::<char>::empty());
            text::lemma_mentions(m, first + q + ": "@, reason.text(), Seq::empty());
        },
        Refusal::Checksum { text, expected } => {
            let q = text::quoted_text(text);
            let first = "watched address "@;
            let middle = " has an invalid EIP-55 checksum (expected "@;
            let last = "); a mistyped character may have produced the wrong address"@;
            assert(m =~= first + q + (middle + expected + last));
            text::lemma_mentions(m, first, q, middle + expected + last);
            assert(m =~= (first + q + middle) + expected + last);
            text::lemma_mentions(m, first + q + middle, expected, last);
        },
    }
}

} // verus!
