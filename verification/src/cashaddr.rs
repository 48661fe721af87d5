//! The cashaddr codec: a human-readable network prefix, a ':' separator,
//! and a base32 payload holding a version byte, the hash bytes regrouped
//! into 5-bit digits, and a 40-bit BCH-style polynomial checksum.

use vstd::prelude::*;

use crate::Address;
use crate::HashType;
use crate::Network;
use crate::AddressDecoder;
use crate::AddressEncoder;
use crate::errors::CashAddrDecodingError;
use crate::errors::CashAddrInvalidLength;

verus! {

// ---------------------------------------------------------------------------
// Characters and case
// ---------------------------------------------------------------------------

/// ASCII lowercase letter.
pub open spec fn is_ascii_lower(c: char) -> bool {
    97 <= (c as u32) <= 122
}

/// ASCII uppercase letter.
pub open spec fn is_ascii_upper(c: char) -> bool {
    65 <= (c as u32) <= 90
}

/// Some character of the string is an ASCII uppercase letter.
pub open spec fn has_upper(s: Seq<char>) -> bool {
    exists|i: int| 0 <= i < s.len() && is_ascii_upper(#[trigger] s[i])
}

/// Some character of the string is an ASCII lowercase letter.
pub open spec fn has_lower(s: Seq<char>) -> bool {
    exists|i: int| 0 <= i < s.len() && is_ascii_lower(#[trigger] s[i])
}

/// ASCII lowercasing of one character; all others are left alone.
pub open spec fn to_lower_char(c: char) -> char {
    if is_ascii_upper(c) {
        ((c as u32) + 32) as char
    } else {
        c
    }
}

/// ASCII lowercasing of a string.
pub open spec fn fold_lower(s: Seq<char>) -> Seq<char> {
    s.map(|i: int, c: char| to_lower_char(c))
}

/// ASCII lowercasing, executable.
fn lower_char_exec(c: char) -> (r: char)
    ensures
        r == to_lower_char(c),
{
    let v: u32 = c as u32;
    if 65 <= v && v <= 90 {
        let b: u8 = (v + 32) as u8;
        proof {
            assert(b == v + 32) by (bit_vector)
                requires
                    b == (v + 32) as u8,
                    v <= 90,
            ;
        }
        b as char
    } else {
        c
    }
}

// ---------------------------------------------------------------------------
// The 32-character alphabet
// ---------------------------------------------------------------------------

/// The character that writes a 5-bit digit (digits above 31 do not occur).
pub open spec fn charset_char(d: u8) -> char {
    match d {
        0 => 'q',
        1 => 'p',
        2 => 'z',
        3 => 'r',
        4 => 'y',
        5 => '9',
        6 => 'x',
        7 => '8',
        8 => 'g',
        9 => 'f',
        10 => '2',
        11 => 't',
        12 => 'v',
        13 => 'd',
        14 => 'w',
        15 => '0',
        16 => 's',
        17 => '3',
        18 => 'j',
        19 => 'n',
        20 => '5',
        21 => '4',
        22 => 'k',
        23 => 'h',
        24 => 'c',
        25 => 'e',
        26 => '6',
        27 => 'm',
        28 => 'u',
        29 => 'a',
        30 => '7',
        _ => 'l',
    }
}

/// The 5-bit digit a character stands for, if it is in the alphabet.
pub open spec fn digit_of_char(c: char) -> Option<u8> {
    match c {
        'q' => Some(0),
        'p' => Some(1),
        'z' => Some(2),
        'r' => Some(3),
        'y' => Some(4),
        '9' => Some(5),
        'x' => Some(6),
        '8' => Some(7),
        'g' => Some(8),
        'f' => Some(9),
        '2' => Some(10),
        't' => Some(11),
        'v' => Some(12),
        'd' => Some(13),
        'w' => Some(14),
        '0' => Some(15),
        's' => Some(16),
        '3' => Some(17),
        'j' => Some(18),
        'n' => Some(19),
        '5' => Some(20),
        '4' => Some(21),
        'k' => Some(22),
        'h' => Some(23),
        'c' => Some(24),
        'e' => Some(25),
        '6' => Some(26),
        'm' => Some(27),
        'u' => Some(28),
        'a' => Some(29),
        '7' => Some(30),
        'l' => Some(31),
        _ => None,
    }
}

/// Writing a digit and reading it back round-trips; the written character
/// is neither uppercase nor a ':'.
proof fn lemma_charset(d: u8)
    requires
        d < 32,
    ensures
        digit_of_char(charset_char(d)) == Some(d),
        !is_ascii_upper(charset_char(d)),
        charset_char(d) != ':',
{
}

/// Executable alphabet write.
fn charset_char_exec(d: u8) -> (r: char)
    requires
        d < 32,
    ensures
        r == charset_char(d),
{
    match d {
        0 => 'q',
        1 => 'p',
        2 => 'z',
        3 => 'r',
        4 => 'y',
        5 => '9',
        6 => 'x',
        7 => '8',
        8 => 'g',
        9 => 'f',
        10 => '2',
        11 => 't',
        12 => 'v',
        13 => 'd',
        14 => 'w',
        15 => '0',
        16 => 's',
        17 => '3',
        18 => 'j',
        19 => 'n',
        20 => '5',
        21 => '4',
        22 => 'k',
        23 => 'h',
        24 => 'c',
        25 => 'e',
        26 => '6',
        27 => 'm',
        28 => 'u',
        29 => 'a',
        30 => '7',
        _ => 'l',
    }
}

/// Executable alphabet read.
fn digit_of_char_exec(c: char) -> (r: Option<u8>)
    ensures
        r == digit_of_char(c),
{
    match c {
        'q' => Some(0),
        'p' => Some(1),
        'z' => Some(2),
        'r' => Some(3),
        'y' => Some(4),
        '9' => Some(5),
        'x' => Some(6),
        '8' => Some(7),
        'g' => Some(8),
        'f' => Some(9),
        '2' => Some(10),
        't' => Some(11),
        'v' => Some(12),
        'd' => Some(13),
        'w' => Some(14),
        '0' => Some(15),
        's' => Some(16),
        '3' => Some(17),
        'j' => Some(18),
        'n' => Some(19),
        '5' => Some(20),
        '4' => Some(21),
        'k' => Some(22),
        'h' => Some(23),
        'c' => Some(24),
        'e' => Some(25),
        '6' => Some(26),
        'm' => Some(27),
        'u' => Some(28),
        'a' => Some(29),
        '7' => Some(30),
        'l' => Some(31),
        _ => None,
    }
}

// ---------------------------------------------------------------------------
// Prefixes and networks
// ---------------------------------------------------------------------------

/// The main network prefix, "bitcoincash".
pub open spec fn main_prefix() -> Seq<char> {
    seq!['b', 'i', 't', 'c', 'o', 'i', 'n', 'c', 'a', 's', 'h']
}

/// The test network prefix, "bchtest".
pub open spec fn test_prefix() -> Seq<char> {
    seq!['b', 'c', 'h', 't', 'e', 's', 't']
}

/// The regression test network prefix, "bchreg".
pub open spec fn reg_prefix() -> Seq<char> {
    seq!['b', 'c', 'h', 'r', 'e', 'g']
}

/// The prefix written for a network.
pub open spec fn prefix_chars(network: Network) -> Seq<char> {
    match network {
        Network::Main => main_prefix(),
        Network::Test => test_prefix(),
        Network::Regtest => reg_prefix(),
    }
}

/// The network a prefix names, if any.
pub open spec fn network_of_prefix(p: Seq<char>) -> Option<Network> {
    if p == main_prefix() {
        Some(Network::Main)
    } else if p == test_prefix() {
        Some(Network::Test)
    } else if p == reg_prefix() {
        Some(Network::Regtest)
    } else {
        None
    }
}

/// Every prefix character is an ASCII lowercase letter.
pub open spec fn prefix_ok(p: Seq<char>) -> bool {
    forall|i: int| 0 <= i < p.len() ==> is_ascii_lower(#[trigger] p[i])
}

/// The checksum input a prefix contributes: the low 5 bits of each
/// character, then a zero separator digit.
pub open spec fn expand_prefix(p: Seq<char>) -> Seq<u8> {
    Seq::new(p.len(), |i: int| ((p[i] as u32) & 31) as u8) + seq![0u8]
}

// ---------------------------------------------------------------------------
// Size classes and version bytes
// ---------------------------------------------------------------------------

/// The size class of a supported hash byte length.
pub open spec fn size_class_of_len(n: nat) -> Option<u8> {
    if n == 20 {
        Some(0)
    } else if n == 24 {
        Some(1)
    } else if n == 28 {
        Some(2)
    } else if n == 32 {
        Some(3)
    } else if n == 40 {
        Some(4)
    } else if n == 48 {
        Some(5)
    } else if n == 56 {
        Some(6)
    } else if n == 64 {
        Some(7)
    } else {
        None
    }
}

/// The hash byte length of a size class.
pub open spec fn len_of_class(k: u8) -> nat {
    match k {
        0 => 20,
        1 => 24,
        2 => 28,
        3 => 32,
        4 => 40,
        5 => 48,
        6 => 56,
        _ => 64,
    }
}

/// The version byte: hash type in bits 6..3 (0 key, 1 script), size class
/// in bits 2..0, bit 7 zero.
pub open spec fn version_byte(hash_type: HashType, cls: u8) -> u8 {
    (match hash_type {
        HashType::Key => 0u8,
        HashType::Script => 8u8,
    } + cls) as u8
}

/// The digit counts (payload plus 8 checksum digits) of the 8 supported
/// size classes.
pub open spec fn valid_digit_count(n: nat) -> bool {
    n == 42 || n == 48 || n == 55 || n == 61 || n == 74 || n == 87 || n == 100 || n == 112
}

// ---------------------------------------------------------------------------
// Bit regrouping between 8-bit bytes and 5-bit digits
// ---------------------------------------------------------------------------

/// Bit `k` of a byte, counting from the least significant bit.
pub open spec fn bit_at(v: u8, k: u8) -> u8 {
    if ((v >> k) & 1) == 1 {
        1u8
    } else {
        0u8
    }
}

/// The bits of a byte string, most significant bit of each byte first.
pub open spec fn bits_of_bytes(s: Seq<u8>) -> Seq<u8> {
    Seq::new(s.len() * 8, |i: int| bit_at(s[i / 8], (7 - (i % 8)) as u8))
}

/// The bits of a digit string, most significant of the 5 bits first.
pub open spec fn bits_of_digits(s: Seq<u8>) -> Seq<u8> {
    Seq::new(s.len() * 5, |i: int| bit_at(s[i / 5], (4 - (i % 5)) as u8))
}

/// A bit of a bit string, zero past either end.
pub open spec fn bit_in(bits: Seq<u8>, i: int) -> u8 {
    if 0 <= i < bits.len() {
        bits[i]
    } else {
        0
    }
}

/// The value of the `k` bits starting at `base`, most significant first.
pub open spec fn bits_val(bits: Seq<u8>, base: int, k: nat) -> int
    decreases k,
{
    if k == 0 {
        0
    } else {
        2 * bits_val(bits, base, (k - 1) as nat) + bit_in(bits, base + k - 1)
    }
}

/// Two to the `k`.
pub open spec fn pow2_small(k: nat) -> int
    decreases k,
{
    if k == 0 {
        1int
    } else {
        2 * pow2_small((k - 1) as nat)
    }
}

/// A bit string's bits never exceed 1.
pub open spec fn bits_are_bits(bits: Seq<u8>) -> bool {
    forall|i: int| 0 <= i < bits.len() ==> #[trigger] bits[i] <= 1
}

proof fn lemma_bits_val_bound(bits: Seq<u8>, base: int, k: nat)
    requires
        bits_are_bits(bits),
    ensures
        0 <= bits_val(bits, base, k) < pow2_small(k),
    decreases k,
{
    if k > 0 {
        lemma_bits_val_bound(bits, base, (k - 1) as nat);
    }
}

proof fn lemma_pow2_small_values()
    ensures
        pow2_small(0) == 1,
        pow2_small(1) == 2,
        pow2_small(2) == 4,
        pow2_small(3) == 8,
        pow2_small(4) == 16,
        pow2_small(5) == 32,
        pow2_small(6) == 64,
        pow2_small(7) == 128,
        pow2_small(8) == 256,
{
    reveal_with_fuel(pow2_small, 10);
}

proof fn lemma_pow2_small_pos(a: nat)
    ensures
        pow2_small(a) >= 1,
    decreases a,
{
    if a > 0 {
        lemma_pow2_small_pos((a - 1) as nat);
    }
}

proof fn lemma_pow2_small_mono(a: nat, b: nat)
    requires
        a <= b,
    ensures
        1 <= pow2_small(a) <= pow2_small(b),
    decreases b,
{
    lemma_pow2_small_pos(a);
    if a < b {
        lemma_pow2_small_mono(a, (b - 1) as nat);
        lemma_pow2_small_pos((b - 1) as nat);
    }
}

/// The 8-bit words of a byte string regrouped as 5-bit words, the last
/// word zero-padded.
pub open spec fn to_five(bytes: Seq<u8>) -> Seq<u8> {
    Seq::new(
        (bytes.len() * 8 + 4) / 5,
        |j: int| bits_val(bits_of_bytes(bytes), 5 * j, 5) as u8,
    )
}

/// The 5-bit words of a digit string regrouped as 8-bit words, trailing
/// bits that fill no whole byte dropped.
pub open spec fn to_eight(digits: Seq<u8>) -> Seq<u8> {
    Seq::new(
        (digits.len() * 5) / 8,
        |i: int| bits_val(bits_of_digits(digits), 8 * i, 8) as u8,
    )
}

/// The bits of a digit string past its last whole byte are all zero.
pub open spec fn padding_ok(digits: Seq<u8>) -> bool {
    forall|t: int|
        8 * ((digits.len() * 5) / 8) <= t < digits.len() * 5 ==> bit_in(
            bits_of_digits(digits),
            t,
        ) == 0
}

// ---------------------------------------------------------------------------
// The polynomial checksum
// ---------------------------------------------------------------------------

/// One step of the checksum: shift the 40-bit state up by one digit, fold
/// the digit in, and add one fixed generator for each high state bit that
/// was set.
pub open spec fn poly_step(c: u64, d: u8) -> u64 {
    (((c & 0x07_ffff_ffff) << 5u64) ^ (d as u64)) ^ (if ((c >> 35u64) & 1) == 1 {
        0x98_f2bc_8e61u64
    } else {
        0u64
    }) ^ (if ((c >> 36u64) & 1) == 1 {
        0x79_b76d_99e2u64
    } else {
        0u64
    }) ^ (if ((c >> 37u64) & 1) == 1 {
        0xf3_3e5f_b3c4u64
    } else {
        0u64
    }) ^ (if ((c >> 38u64) & 1) == 1 {
        0xae_2eab_e2a8u64
    } else {
        0u64
    }) ^ (if ((c >> 39u64) & 1) == 1 {
        0x1e_4f43_e470u64
    } else {
        0u64
    })
}

/// The checksum state after running the digits from a starting state.
pub open spec fn polymod_from(c: u64, ds: Seq<u8>) -> u64
    decreases ds.len(),
{
    if ds.len() == 0 {
        c
    } else {
        polymod_from(poly_step(c, ds[0]), ds.skip(1))
    }
}

/// The checksum residue of a digit string: state 1, all digits, then a
/// final XOR with 1. A valid string has residue 0.
pub open spec fn cashaddr_residue(ds: Seq<u8>) -> u64 {
    polymod_from(1, ds) ^ 1
}

/// The 8 checksum digits of a 40-bit residue value, most significant
/// digit first.
pub open spec fn cs_digits(cs: u64) -> Seq<u8> {
    Seq::new(8, |i: int| ((cs >> ((35 - 5 * i) as u64)) & 31) as u8)
}

/// Executable checksum run over a digit vector, from state 1.
fn polymod_exec(ds: &Vec<u8>) -> (r: u64)
    ensures
        r == polymod_from(1, ds@),
{
    let mut c: u64 = 1;
    let mut i: usize = 0;
    proof {
        assert(ds@.skip(0int) =~= ds@);
    }
    while i < ds.len()
        invariant
            0 <= i <= ds@.len(),
            polymod_from(c, ds@.skip(i as int)) == polymod_from(1, ds@),
        decreases ds@.len() - i,
    {
        let d = ds[i];
        let ghost prev = c;
        let mut nc: u64 = ((c & 0x07_ffff_ffff) << 5u64) ^ (d as u64);
        if ((c >> 35u64) & 1) == 1 {
            nc = nc ^ 0x98_f2bc_8e61;
        }
        if ((c >> 36u64) & 1) == 1 {
            nc = nc ^ 0x79_b76d_99e2;
        }
        if ((c >> 37u64) & 1) == 1 {
            nc = nc ^ 0xf3_3e5f_b3c4;
        }
        if ((c >> 38u64) & 1) == 1 {
            nc = nc ^ 0xae_2eab_e2a8;
        }
        if ((c >> 39u64) & 1) == 1 {
            nc = nc ^ 0x1e_4f43_e470;
        }
        proof {
            assert(nc == poly_step(prev, d)) by {
                assert(forall|a: u64| #[trigger] (a ^ 0u64) == a) by (bit_vector);
            }
            assert(ds@.skip(i as int).skip(1) =~= ds@.skip(i + 1));
            assert(ds@.skip(i as int)[0] == ds@[i as int]);
        }
        c = nc;
        i += 1;
    }
    proof {
        assert(ds@.skip(ds@.len() as int) =~= Seq::<u8>::empty());
    }
    c
}

// ---------------------------------------------------------------------------
// Converting digit vectors, executable
// ---------------------------------------------------------------------------

/// Regroups bytes into 5-bit digits, zero-padding the final digit.
fn bytes_to_five(bytes: &Vec<u8>) -> (r: Vec<u8>)
    requires
        bytes@.len() <= 4096,
    ensures
        r@ == to_five(bytes@),
        forall|j: int| 0 <= j < r@.len() ==> #[trigger] r@[j] < 32,
{
    let n = bytes.len();
    let total_bits = n * 8;
    let ndigits = (total_bits + 4) / 5;
    let ghost bits = bits_of_bytes(bytes@);
    proof {
        assert(bits_are_bits(bits));
    }
    let mut r: Vec<u8> = Vec::new();
    let mut j: usize = 0;
    while j < ndigits
        invariant
            n == bytes@.len() <= 4096,
            total_bits == n * 8,
            ndigits == (total_bits + 4) / 5,
            bits == bits_of_bytes(bytes@),
            bits_are_bits(bits),
            bits.len() == total_bits,
            0 <= j <= ndigits,
            r@.len() == j,
            forall|q: int| 0 <= q < j ==> #[trigger] r@[q] == to_five(bytes@)[q],
            forall|q: int| 0 <= q < j ==> #[trigger] r@[q] < 32,
        decreases ndigits - j,
    {
        let mut d: u8 = 0;
        let mut k: usize = 0;
        while k < 5
            invariant
                n == bytes@.len() <= 4096,
                total_bits == n * 8,
                ndigits == (total_bits + 4) / 5,
                bits == bits_of_bytes(bytes@),
                bits_are_bits(bits),
                bits.len() == total_bits,
                0 <= j < ndigits,
                0 <= k <= 5,
                d as int == bits_val(bits, 5 * j, k as nat),
            decreases 5 - k,
        {
            proof {
                lemma_bits_val_bound(bits, 5 * j as int, k as nat);
                lemma_pow2_small_mono(k as nat, 5);
                lemma_pow2_small_values();
            }
            let idx = 5 * j + k;
            let bit: u8 = if idx < total_bits {
                let byte = bytes[idx / 8];
                let sh: u8 = (7 - (idx % 8)) as u8;
                if ((byte >> sh) & 1) == 1 {
                    1
                } else {
                    0
                }
            } else {
                0
            };
            proof {
                if idx < total_bits {
                    assert(bits[idx as int] == bit_at(
                        bytes@[idx as int / 8],
                        (7 - (idx as int % 8)) as u8,
                    ));
                    assert(idx as int / 8 == (idx / 8) as int);
                    assert(bit == bit_in(bits, idx as int));
                } else {
                    assert(bit == bit_in(bits, idx as int));
                }
            }
            d = 2 * d + bit;
            k += 1;
        }
        proof {
            lemma_bits_val_bound(bits, 5 * j as int, 5);
            lemma_pow2_small_values();
            assert(to_five(bytes@)[j as int] == bits_val(bits, 5 * (j as int), 5) as u8);
            assert(d == to_five(bytes@)[j as int]);
        }
        r.push(d);
        j += 1;
    }
    proof {
        assert(r@ =~= to_five(bytes@));
    }
    r
}

// ---------------------------------------------------------------------------
// The codec itself: encoding
// ---------------------------------------------------------------------------

/// The encoded string for a body of a supported length: prefix, ':', and
/// the digits of version byte and body followed by 8 checksum digits, all
/// written through the 32-character alphabet.
pub open spec fn cashaddr_string(raw: Seq<u8>, hash_type: HashType, network: Network) -> Seq<
    char,
> {
    let cls = size_class_of_len(raw.len()).unwrap();
    let payload = to_five(seq![version_byte(hash_type, cls)] + raw);
    let cs = cashaddr_residue(
        expand_prefix(prefix_chars(network)) + payload + Seq::new(8, |i: int| 0u8),
    );
    prefix_chars(network) + seq![':'] + (payload + cs_digits(cs)).map(
        |i: int, d: u8| charset_char(d),
    )
}

/// What encoding yields: the encoded string when the body length is
/// supported, the invalid-length error carrying the length otherwise.
pub open spec fn cashaddr_encodes(
    raw: Seq<u8>,
    hash_type: HashType,
    network: Network,
    r: Result<String, CashAddrInvalidLength>,
) -> bool {
    if size_class_of_len(raw.len()) is Some {
        r matches Ok(s) && s@ == cashaddr_string(raw, hash_type, network)
    } else {
        r matches Err(CashAddrInvalidLength(l)) && l as nat == raw.len()
    }
}

/// Relies on `String::push` of std: appends one character to the string.
#[verifier::external_body]
fn push_char(s: &mut String, c: char)
    ensures
        final(s)@ == old(s)@.push(c),
{
    s.push(c);
}

/// Codec for the cashaddr format.
pub struct CashAddrCodec;

impl AddressEncoder for CashAddrCodec {
    type EncodingError = CashAddrInvalidLength;

    open spec fn encodes(
        raw: Seq<u8>,
        hash_type: HashType,
        network: Network,
        r: Result<String, CashAddrInvalidLength>,
    ) -> bool {
        cashaddr_encodes(raw, hash_type, network, r)
    }

    fn encode(raw: &[u8], hash_type: HashType, network: Network) -> (r: Result<
        String,
        CashAddrInvalidLength,
    >) {
        let n = raw.len();
        let cls: u8 = if n == 20 {
            0
        } else if n == 24 {
            1
        } else if n == 28 {
            2
        } else if n == 32 {
            3
        } else if n == 40 {
            4
        } else if n == 48 {
            5
        } else if n == 56 {
            6
        } else if n == 64 {
            7
        } else {
            return Err(CashAddrInvalidLength(n));
        };
        let vb: u8 = match hash_type {
            HashType::Key => cls,
            HashType::Script => 8 + cls,
        };
        let mut check: Vec<u8> = Vec::new();
        check.push(vb);
        let mut i: usize = 0;
        while i < n
            invariant
                n == raw@.len(),
                0 <= i <= n,
                check@ == seq![version_byte(hash_type, size_class_of_len(raw@.len()).unwrap())]
                    + raw@.take(i as int),
            decreases n - i,
        {
            check.push(raw[i]);
            proof {
                assert(check@ =~= seq![
                    version_byte(hash_type, size_class_of_len(raw@.len()).unwrap()),
                ] + raw@.take(i + 1 as int));
            }
            i += 1;
        }
        proof {
            assert(check@ =~= seq![version_byte(hash_type, size_class_of_len(raw@.len()).unwrap())]
                + raw@);
        }
        let payload = bytes_to_five(&check);
        // the checksum input: expanded prefix, payload digits, 8 zero digits
        let mut all: Vec<u8> = Vec::new();
        let prefix: &str = match network {
            Network::Main => "bitcoincash",
            Network::Test => "bchtest",
            Network::Regtest => "bchreg",
        };
        proof {
            reveal_strlit("bitcoincash");
            reveal_strlit("bchtest");
            reveal_strlit("bchreg");
            assert(prefix@ =~= prefix_chars(network));
        }
        let plen = prefix.unicode_len();
        let mut k: usize = 0;
        while k < plen
            invariant
                plen == prefix@.len(),
                prefix@ == prefix_chars(network),
                0 <= k <= plen,
                all@.len() == k,
                forall|q: int| 0 <= q < k ==> #[trigger] all@[q] == ((prefix@[q] as u32)
                    & 31) as u8,
            decreases plen - k,
        {
            let c = prefix.get_char(k);
            let v: u32 = c as u32;
            all.push((v & 31) as u8);
            k += 1;
        }
        all.push(0);
        proof {
            assert(all@ =~= expand_prefix(prefix_chars(network)));
        }
        let ghost expanded = all@;
        let mut t: usize = 0;
        while t < payload.len()
            invariant
                0 <= t <= payload@.len(),
                all@ == expanded + payload@.take(t as int),
            decreases payload@.len() - t,
        {
            all.push(payload[t]);
            proof {
                assert(all@ =~= expanded + payload@.take(t + 1 as int));
            }
            t += 1;
        }
        proof {
            assert(all@ =~= expanded + payload@);
        }
        let ghost with_payload = all@;
        let mut z: usize = 0;
        while z < 8
            invariant
                0 <= z <= 8,
                all@ == with_payload + Seq::new(z as nat, |i: int| 0u8),
            decreases 8 - z,
        {
            all.push(0);
            proof {
                assert(all@ =~= with_payload + Seq::new((z + 1) as nat, |i: int| 0u8));
            }
            z += 1;
        }
        let cs = polymod_exec(&all) ^ 1;
        // the output string
        let mut out = String::from_str(prefix);
        push_char(&mut out, ':');
        let ghost head = prefix_chars(network) + seq![':'];
        proof {
            assert(out@ =~= head);
        }
        let ghost all_digits = payload@ + cs_digits(cs);
        let mut u: usize = 0;
        while u < payload.len()
            invariant
                0 <= u <= payload@.len(),
                forall|q: int| 0 <= q < payload@.len() ==> #[trigger] payload@[q] < 32,
                all_digits == payload@ + cs_digits(cs),
                out@ == head + all_digits.take(u as int).map(|i: int, d: u8| charset_char(d)),
            decreases payload@.len() - u,
        {
            let d = payload[u];
            push_char(&mut out, charset_char_exec(d));
            proof {
                assert(all_digits.take(u as int).map(|i: int, d: u8| charset_char(d)).push(
                    charset_char(all_digits[u as int]),
                ) =~= all_digits.take(u + 1 as int).map(|i: int, d: u8| charset_char(d)));
            }
            u += 1;
        }
        let mut w: usize = 0;
        while w < 8
            invariant
                0 <= w <= 8,
                all_digits == payload@ + cs_digits(cs),
                out@ == head + all_digits.take(payload@.len() + w as int).map(
                    |i: int, d: u8| charset_char(d),
                ),
            decreases 8 - w,
        {
            let sh: u64 = (35 - 5 * (w as u64));
            let d: u8 = ((cs >> sh) & 31) as u8;
            proof {
                assert(d < 32) by (bit_vector)
                    requires
                        d == ((cs >> sh) & 31) as u8,
                ;
                assert(d == cs_digits(cs)[w as int]);
                assert(all_digits[payload@.len() + w as int] == d);
            }
            push_char(&mut out, charset_char_exec(d));
            proof {
                assert(all_digits.take(payload@.len() + w as int).map(
                    |i: int, d: u8| charset_char(d),
                ).push(charset_char(all_digits[payload@.len() + w as int])) =~= all_digits.take(
                    payload@.len() + (w + 1) as int,
                ).map(|i: int, d: u8| charset_char(d)));
            }
            w += 1;
        }
        proof {
            assert(all_digits.take(payload@.len() + 8 as int) =~= all_digits);
            assert(out@ =~= cashaddr_string(raw@, hash_type, network));
        }
        Ok(out)
    }
}


// ---------------------------------------------------------------------------
// The codec itself: decoding
// ---------------------------------------------------------------------------

/// The number of ':' characters in a string.
pub open spec fn count_colons(s: Seq<char>) -> nat
    decreases s.len(),
{
    if s.len() == 0 {
        0
    } else {
        count_colons(s.drop_last()) + (if s.last() == ':' {
            1nat
        } else {
            0nat
        })
    }
}

/// The position of the one ':' of a string that has exactly one.
pub open spec fn colon_idx(s: Seq<char>) -> int {
    choose|i: int| 0 <= i < s.len() && s[i] == ':'
}

proof fn lemma_count_colons_zero(s: Seq<char>)
    ensures
        (count_colons(s) == 0) <==> (forall|i: int| 0 <= i < s.len() ==> #[trigger] s[i] != ':'),
    decreases s.len(),
{
    if s.len() > 0 {
        let dl = s.drop_last();
        lemma_count_colons_zero(dl);
        assert(forall|i: int| 0 <= i < s.len() - 1 ==> #[trigger] s[i] == dl[i]);
        assert(s.last() == s[s.len() - 1]);
        if count_colons(s) == 0 {
            assert(forall|i: int| 0 <= i < s.len() - 1 ==> #[trigger] s[i] != ':');
        }
        if forall|i: int| 0 <= i < s.len() ==> #[trigger] s[i] != ':' {
            assert(forall|i: int| 0 <= i < dl.len() ==> #[trigger] dl[i] != ':');
            assert(count_colons(dl) == 0);
        }
    }
}

proof fn lemma_colon_unique(s: Seq<char>, i: int, j: int)
    requires
        count_colons(s) == 1,
        0 <= i < s.len(),
        0 <= j < s.len(),
        s[i] == ':',
        s[j] == ':',
    ensures
        i == j,
    decreases s.len(),
{
    let dl = s.drop_last();
    assert(forall|k: int| 0 <= k < s.len() - 1 ==> #[trigger] s[k] == dl[k]);
    if s.last() == ':' {
        assert(count_colons(dl) == 0);
        lemma_count_colons_zero(dl);
        if i < s.len() - 1 {
            assert(dl[i] == ':');
            assert(false);
        }
        if j < s.len() - 1 {
            assert(dl[j] == ':');
            assert(false);
        }
    } else {
        assert(count_colons(dl) == 1);
        assert(s.last() == s[s.len() - 1]);
        assert(i < s.len() - 1);
        assert(j < s.len() - 1);
        lemma_colon_unique(dl, i, j);
    }
}

proof fn lemma_case_scan_step(s: Seq<char>, i: int)
    requires
        0 <= i < s.len(),
    ensures
        has_upper(s.take(i + 1)) == (has_upper(s.take(i)) || is_ascii_upper(s[i])),
        has_lower(s.take(i + 1)) == (has_lower(s.take(i)) || is_ascii_lower(s[i])),
{
    let a = s.take(i);
    let b = s.take(i + 1);
    assert(forall|k: int| 0 <= k < i ==> #[trigger] a[k] == s[k]);
    assert(forall|k: int| 0 <= k <= i ==> #[trigger] b[k] == s[k]);
    if has_upper(a) {
        let k = choose|k: int| 0 <= k < a.len() && is_ascii_upper(a[k]);
        assert(is_ascii_upper(b[k]));
    }
    if is_ascii_upper(s[i]) {
        assert(is_ascii_upper(b[i]));
    }
    if has_upper(b) && !has_upper(a) && !is_ascii_upper(s[i]) {
        let k = choose|k: int| 0 <= k < b.len() && is_ascii_upper(b[k]);
        if k < i {
            assert(is_ascii_upper(a[k]));
        }
        assert(false);
    }
    if has_lower(a) {
        let k = choose|k: int| 0 <= k < a.len() && is_ascii_lower(a[k]);
        assert(is_ascii_lower(b[k]));
    }
    if is_ascii_lower(s[i]) {
        assert(is_ascii_lower(b[i]));
    }
    if has_lower(b) && !has_lower(a) && !is_ascii_lower(s[i]) {
        let k = choose|k: int| 0 <= k < b.len() && is_ascii_lower(b[k]);
        if k < i {
            assert(is_ascii_lower(a[k]));
        }
        assert(false);
    }
}

/// Every payload character is in the 32-character alphabet.
pub open spec fn all_cash_digits(pay: Seq<char>) -> bool {
    forall|i: int| 0 <= i < pay.len() ==> digit_of_char(#[trigger] pay[i]) is Some
}

/// The digit values of an in-alphabet payload.
pub open spec fn digits_of_chars(pay: Seq<char>) -> Seq<u8> {
    Seq::new(pay.len(), |i: int| digit_of_char(pay[i]).unwrap())
}

/// What decoding yields once the string is split into a well-formed prefix
/// and an in-alphabet payload with digit values `ds`: the digit count must
/// fit a size class, the checksum residue must be zero, the padding bits of
/// the final digit must be zero (else the last payload character is
/// reported), the version byte must be consistent with the recovered
/// length, and the prefix must name a network.
pub open spec fn cashaddr_decodes_digits(
    p: Seq<char>,
    pay: Seq<char>,
    ds: Seq<u8>,
    r: Result<Address, CashAddrDecodingError>,
) -> bool {
    if !valid_digit_count(ds.len()) {
        r matches Err(CashAddrDecodingError::InvalidLength(l)) && l as nat == ds.len()
    } else {
        let residue = cashaddr_residue(expand_prefix(p) + ds);
        if residue != 0 {
            r matches Err(CashAddrDecodingError::ChecksumFailed(x)) && x == residue
        } else {
            let body_digits = ds.take(ds.len() - 8);
            if !padding_ok(body_digits) {
                r matches Err(CashAddrDecodingError::InvalidChar(c)) && c == pay.last()
            } else {
                let bytes = to_eight(body_digits);
                let vb = bytes[0];
                if vb >= 128 || vb / 8 > 1 || len_of_class(vb % 8) != bytes.len() - 1 {
                    r matches Err(CashAddrDecodingError::InvalidVersion(v)) && v == vb
                } else {
                    match network_of_prefix(p) {
                        Some(nw) => r matches Ok(a) && a.body@ == bytes.skip(1) && a.hash_type
                            == (if vb / 8 == 1 {
                            HashType::Script
                        } else {
                            HashType::Key
                        }) && a.network == nw,
                        None => r matches Err(CashAddrDecodingError::InvalidPrefix(q)) && q@ == p,
                    }
                }
            }
        }
    }
}

/// What decoding yields on the case-folded string: exactly one ':' is
/// required, the prefix before it must be lowercase letters, and every
/// payload character must be in the alphabet (the earliest stray character
/// is reported).
pub open spec fn cashaddr_decodes_folded(
    t: Seq<char>,
    r: Result<Address, CashAddrDecodingError>,
) -> bool {
    if count_colons(t) != 1 {
        r == Result::<Address, CashAddrDecodingError>::Err(CashAddrDecodingError::NoPrefix)
    } else {
        let ci = colon_idx(t);
        let p = t.take(ci);
        let pay = t.skip(ci + 1);
        if !prefix_ok(p) {
            r matches Err(CashAddrDecodingError::InvalidPrefix(q)) && q@ == p
        } else if !all_cash_digits(pay) {
            exists|i: int|
                0 <= i < pay.len() && digit_of_char(pay[i]) is None && (forall|j: int|
                    0 <= j < i ==> digit_of_char(#[trigger] pay[j]) is Some) && r == Result::<
                    Address,
                    CashAddrDecodingError,
                >::Err(CashAddrDecodingError::InvalidChar(pay[i]))
        } else {
            cashaddr_decodes_digits(p, pay, digits_of_chars(pay), r)
        }
    }
}

/// What decoding a cashaddr string yields: empty input is rejected, then
/// mixed case, before anything else; all later processing reads the
/// case-folded string, so errors carry folded characters.
pub open spec fn cashaddr_decodes(
    s: Seq<char>,
    r: Result<Address, CashAddrDecodingError>,
) -> bool {
    if s.len() == 0 {
        r matches Err(CashAddrDecodingError::InvalidLength(l)) && l == 0
    } else if has_upper(s) && has_lower(s) {
        r == Result::<Address, CashAddrDecodingError>::Err(CashAddrDecodingError::MixedCase)
    } else {
        cashaddr_decodes_folded(fold_lower(s), r)
    }
}

/// Regroups 5-bit digits into bytes, dropping trailing bits that fill no
/// whole byte.
fn five_to_eight(digits: &Vec<u8>) -> (r: Vec<u8>)
    requires
        digits@.len() <= 4096,
    ensures
        r@ == to_eight(digits@),
{
    let m = digits.len();
    let total_bits = m * 5;
    let nbytes = total_bits / 8;
    let ghost bits = bits_of_digits(digits@);
    proof {
        assert(bits_are_bits(bits));
    }
    let mut r: Vec<u8> = Vec::new();
    let mut i: usize = 0;
    while i < nbytes
        invariant
            m == digits@.len() <= 4096,
            total_bits == m * 5,
            nbytes == total_bits / 8,
            bits == bits_of_digits(digits@),
            bits_are_bits(bits),
            bits.len() == total_bits,
            0 <= i <= nbytes,
            r@.len() == i,
            forall|q: int| 0 <= q < i ==> #[trigger] r@[q] == to_eight(digits@)[q],
        decreases nbytes - i,
    {
        let mut d: u8 = 0;
        let mut k: usize = 0;
        while k < 8
            invariant
                m == digits@.len() <= 4096,
                total_bits == m * 5,
                nbytes == total_bits / 8,
                bits == bits_of_digits(digits@),
                bits_are_bits(bits),
                bits.len() == total_bits,
                0 <= i < nbytes,
                0 <= k <= 8,
                d as int == bits_val(bits, 8 * i, k as nat),
            decreases 8 - k,
        {
            proof {
                lemma_bits_val_bound(bits, 8 * i as int, k as nat);
                lemma_pow2_small_mono(k as nat, 8);
                lemma_pow2_small_values();
            }
            let idx = 8 * i + k;
            proof {
                assert(idx < total_bits);
            }
            let dig = digits[idx / 5];
            let sh: u8 = (4 - (idx % 5)) as u8;
            let bit: u8 = if ((dig >> sh) & 1) == 1 {
                1
            } else {
                0
            };
            proof {
                assert(bits[idx as int] == bit_at(
                    digits@[idx as int / 5],
                    (4 - (idx as int % 5)) as u8,
                ));
                assert(idx as int / 5 == (idx / 5) as int);
                assert(bit == bit_in(bits, idx as int));
            }
            d = 2 * d + bit;
            k += 1;
        }
        proof {
            lemma_bits_val_bound(bits, 8 * i as int, 8);
            lemma_pow2_small_values();
            assert(to_eight(digits@)[i as int] == bits_val(bits, 8 * (i as int), 8) as u8);
            assert(d == to_eight(digits@)[i as int]);
        }
        r.push(d);
        i += 1;
    }
    proof {
        assert(r@ =~= to_eight(digits@));
    }
    r
}

/// Copies a character vector into a string.
fn chars_to_string(p: &Vec<char>) -> (r: String)
    ensures
        r@ == p@,
{
    let mut out = String::from_str("");
    proof {
        reveal_strlit("");
        assert(out@ =~= p@.take(0));
    }
    let mut i: usize = 0;
    while i < p.len()
        invariant
            0 <= i <= p@.len(),
            out@ == p@.take(i as int),
        decreases p@.len() - i,
    {
        push_char(&mut out, p[i]);
        proof {
            assert(out@ =~= p@.take(i + 1 as int));
        }
        i += 1;
    }
    proof {
        assert(out@ =~= p@);
    }
    out
}

/// Compares a character vector with a string slice.
fn is_chars(p: &Vec<char>, lit: &str) -> (r: bool)
    ensures
        r == (p@ == lit@),
{
    let n = lit.unicode_len();
    if p.len() != n {
        proof {
            assert(p@.len() != lit@.len());
        }
        return false;
    }
    let mut i: usize = 0;
    while i < n
        invariant
            n == lit@.len() == p@.len(),
            0 <= i <= n,
            forall|j: int| 0 <= j < i ==> #[trigger] p@[j] == lit@[j],
        decreases n - i,
    {
        let a = p[i];
        let b = lit.get_char(i);
        if a != b {
            proof {
                assert(p@[i as int] != lit@[i as int]);
            }
            return false;
        }
        i += 1;
    }
    proof {
        assert(p@ =~= lit@);
    }
    true
}

/// Copies the characters of a vector between two positions.
fn chars_range(v: &Vec<char>, a: usize, b: usize) -> (r: Vec<char>)
    requires
        a <= b <= v@.len(),
    ensures
        r@ == v@.subrange(a as int, b as int),
{
    let mut r: Vec<char> = Vec::new();
    let mut i: usize = a;
    while i < b
        invariant
            a <= i <= b <= v@.len(),
            r@ == v@.subrange(a as int, i as int),
        decreases b - i,
    {
        r.push(v[i]);
        proof {
            assert(r@ =~= v@.subrange(a as int, i + 1 as int));
        }
        i += 1;
    }
    r
}

/// Decoding once the string is split into prefix characters, payload
/// characters, and the payload's digit values.
#[verifier::loop_isolation(false)]
#[verifier::rlimit(60)]
fn decode_digits(p: &Vec<char>, pay: &Vec<char>, digits: &Vec<u8>) -> (r: Result<
    Address,
    CashAddrDecodingError,
>)
    requires
        all_cash_digits(pay@),
        digits@ == digits_of_chars(pay@),
    ensures
        cashaddr_decodes_digits(p@, pay@, digits@, r),
{
    let m = digits.len();
    proof {
        assert(pay@.len() == m as nat);
    }
    // the digit count must fit a size class
    if !(m == 42 || m == 48 || m == 55 || m == 61 || m == 74 || m == 87 || m == 100 || m
        == 112) {
        return Err(CashAddrDecodingError::InvalidLength(m));
    }
    // the checksum residue over expanded prefix and all digits must be 0
    let mut all: Vec<u8> = Vec::new();
    let mut i6: usize = 0;
    while i6 < p.len()
        invariant
            0 <= i6 <= p@.len(),
            all@.len() == i6,
            forall|q: int| 0 <= q < i6 ==> #[trigger] all@[q] == ((p@[q] as u32) & 31) as u8,
        decreases p@.len() - i6,
    {
        let v: u32 = p[i6] as u32;
        all.push((v & 31) as u8);
        i6 += 1;
    }
    all.push(0);
    proof {
        assert(all@ =~= expand_prefix(p@));
    }
    let ghost expanded = all@;
    let mut i7: usize = 0;
    while i7 < m
        invariant
            0 <= i7 <= m,
            all@ == expanded + digits@.take(i7 as int),
        decreases m - i7,
    {
        all.push(digits[i7]);
        proof {
            assert(all@ =~= expanded + digits@.take(i7 + 1 as int));
        }
        i7 += 1;
    }
    proof {
        assert(all@ =~= expanded + digits@);
    }
    let residue = polymod_exec(&all) ^ 1;
    if residue != 0 {
        return Err(CashAddrDecodingError::ChecksumFailed(residue));
    }
    // strip the checksum digits, check the padding bits of the last digit
    let body_digits = digits_range(&digits, 0, m - 8);
    proof {
        assert(body_digits@ =~= digits@.take(m - 8 as int));
    }
    let mb = m - 8;
    let nbytes = (mb * 5) / 8;
    let ghost bbits = bits_of_digits(body_digits@);
    let last = pay.len() - 1;
    let mut tt: usize = 8 * nbytes;
    while tt < 5 * mb
        invariant
            8 * nbytes <= tt <= 5 * mb,
            forall|q: int| 8 * nbytes <= q < tt ==> bit_in(bbits, q) == 0,
        decreases 5 * mb - tt,
    {
        proof {
            assert(tt / 5 < mb) by (nonlinear_arith)
                requires
                    tt < 5 * mb,
            ;
        }
        let dig = body_digits[tt / 5];
        let sh: u8 = (4 - (tt % 5)) as u8;
        proof {
            assert(bbits[tt as int] == bit_at(
                body_digits@[tt as int / 5],
                (4 - (tt as int % 5)) as u8,
            ));
            assert(tt as int / 5 == (tt / 5) as int);
        }
        if ((dig >> sh) & 1) == 1 {
            proof {
                assert(bit_in(bbits, tt as int) == 1);
                assert(!padding_ok(body_digits@));
                assert(pay@[last as int] == pay@.last());
            }
            return Err(CashAddrDecodingError::InvalidChar(pay[last]));
        }
        proof {
            assert(bit_in(bbits, tt as int) == 0);
        }
        tt += 1;
    }
    proof {
        assert(padding_ok(body_digits@));
    }
    // regroup into bytes; the first is the version byte
    let bytes = five_to_eight(&body_digits);
    proof {
        assert(bytes@.len() == nbytes);
        assert(nbytes >= 21);
    }
    let vb = bytes[0];
    if vb >= 128 {
        return Err(CashAddrDecodingError::InvalidVersion(vb));
    }
    let ty = vb / 8;
    if ty > 1 {
        return Err(CashAddrDecodingError::InvalidVersion(vb));
    }
    let cls = vb % 8;
    let cls_len: usize = match cls {
        0 => 20,
        1 => 24,
        2 => 28,
        3 => 32,
        4 => 40,
        5 => 48,
        6 => 56,
        _ => 64,
    };
    if cls_len != bytes.len() - 1 {
        return Err(CashAddrDecodingError::InvalidVersion(vb));
    }
    let hash_type = if ty == 1 {
        HashType::Script
    } else {
        HashType::Key
    };
    // the prefix must name a network
    proof {
        reveal_strlit("bitcoincash");
        reveal_strlit("bchtest");
        reveal_strlit("bchreg");
        assert("bitcoincash"@ =~= main_prefix());
        assert("bchtest"@ =~= test_prefix());
        assert("bchreg"@ =~= reg_prefix());
    }
    let network = if is_chars(&p, "bitcoincash") {
        Network::Main
    } else if is_chars(&p, "bchtest") {
        Network::Test
    } else if is_chars(&p, "bchreg") {
        Network::Regtest
    } else {
        return Err(CashAddrDecodingError::InvalidPrefix(chars_to_string(&p)));
    };
    proof {
        assert(network_of_prefix(p@) == Some(network));
    }
    let body = digits_range(&bytes, 1, bytes.len());
    proof {
        assert(body@ =~= to_eight(body_digits@).skip(1));
    }
    Ok(Address { body, hash_type, network })
}

impl AddressDecoder for CashAddrCodec {
    type DecodingError = CashAddrDecodingError;

    open spec fn decodes(s: Seq<char>, r: Result<Address, CashAddrDecodingError>) -> bool {
        cashaddr_decodes(s, r)
    }

    #[verifier::loop_isolation(false)]
    #[verifier::rlimit(60)]
    fn decode(s: &str) -> (r: Result<Address, CashAddrDecodingError>) {
        let n = s.unicode_len();
        if n == 0 {
            return Err(CashAddrDecodingError::InvalidLength(0));
        }
        // mixed case is rejected before anything else
        let mut has_up = false;
        let mut has_lo = false;
        let mut i: usize = 0;
        while i < n
            invariant
                0 <= i <= n,
                has_up == has_upper(s@.take(i as int)),
                has_lo == has_lower(s@.take(i as int)),
            decreases n - i,
        {
            let c = s.get_char(i);
            let v: u32 = c as u32;
            proof {
                lemma_case_scan_step(s@, i as int);
            }
            if 65 <= v && v <= 90 {
                has_up = true;
            }
            if 97 <= v && v <= 122 {
                has_lo = true;
            }
            i += 1;
        }
        proof {
            assert(s@.take(n as int) =~= s@);
        }
        if has_up && has_lo {
            return Err(CashAddrDecodingError::MixedCase);
        }
        // fold to lowercase
        let mut t: Vec<char> = Vec::new();
        let mut i2: usize = 0;
        while i2 < n
            invariant
                0 <= i2 <= n,
                t@ == fold_lower(s@).take(i2 as int),
            decreases n - i2,
        {
            let c = lower_char_exec(s.get_char(i2));
            t.push(c);
            proof {
                assert(fold_lower(s@)[i2 as int] == to_lower_char(s@[i2 as int]));
                assert(t@ =~= fold_lower(s@).take(i2 + 1 as int));
            }
            i2 += 1;
        }
        proof {
            assert(t@ =~= fold_lower(s@));
        }
        let ghost tg = t@;
        // exactly one ':' separates prefix and payload
        let mut cnt: usize = 0;
        let mut cpos: usize = 0;
        let mut i3: usize = 0;
        while i3 < n
            invariant
                0 <= i3 <= n,
                cnt as nat == count_colons(tg.take(i3 as int)),
                cnt <= i3,
                cnt >= 1 ==> (cpos < i3 && tg[cpos as int] == ':'),
            decreases n - i3,
        {
            let c = t[i3];
            proof {
                assert(tg.take(i3 + 1 as int).drop_last() =~= tg.take(i3 as int));
                assert(tg.take(i3 + 1 as int).last() == tg[i3 as int]);
            }
            if c == ':' {
                cnt = cnt + 1;
                cpos = i3;
            }
            i3 += 1;
        }
        proof {
            assert(tg.take(n as int) =~= tg);
        }
        if cnt != 1 {
            return Err(CashAddrDecodingError::NoPrefix);
        }
        proof {
            assert(0 <= cpos < tg.len() && tg[cpos as int] == ':');
            let ci = colon_idx(tg);
            assert(0 <= ci < tg.len() && tg[ci] == ':');
            lemma_colon_unique(tg, ci, cpos as int);
            assert(colon_idx(tg) == cpos as int);
        }
        let p = chars_range(&t, 0, cpos);
        let pay = chars_range(&t, cpos + 1, t.len());
        proof {
            assert(p@ =~= tg.take(cpos as int));
            assert(pay@ =~= tg.skip(cpos + 1 as int));
        }
        // prefix characters must be lowercase letters
        let mut i4: usize = 0;
        while i4 < p.len()
            invariant
                0 <= i4 <= p@.len(),
                forall|j: int| 0 <= j < i4 ==> is_ascii_lower(#[trigger] p@[j]),
            decreases p@.len() - i4,
        {
            let v: u32 = p[i4] as u32;
            if !(97 <= v && v <= 122) {
                proof {
                    assert(!is_ascii_lower(p@[i4 as int]));
                    assert(!prefix_ok(p@));
                }
                return Err(CashAddrDecodingError::InvalidPrefix(chars_to_string(&p)));
            }
            i4 += 1;
        }
        // payload characters must be alphabet digits
        let mut digits: Vec<u8> = Vec::new();
        let mut i5: usize = 0;
        while i5 < pay.len()
            invariant
                0 <= i5 <= pay@.len(),
                digits@.len() == i5,
                forall|j: int| 0 <= j < i5 ==> digit_of_char(#[trigger] pay@[j]) is Some,
                forall|j: int| 0 <= j < i5 ==> #[trigger] digits@[j] == digit_of_char(
                    pay@[j],
                ).unwrap(),
            decreases pay@.len() - i5,
        {
            match digit_of_char_exec(pay[i5]) {
                Some(d) => {
                    digits.push(d);
                },
                None => {
                    let c = pay[i5];
                    proof {
                        assert(digit_of_char(pay@[i5 as int]) is None);
                        assert(!all_cash_digits(pay@));
                    }
                    return Err(CashAddrDecodingError::InvalidChar(c));
                },
            }
            i5 += 1;
        }
        proof {
            assert(digits@ =~= digits_of_chars(pay@));
        }
        decode_digits(&p, &pay, &digits)
    }
}


/// Copies the bytes of a vector between two positions.
fn digits_range(v: &Vec<u8>, a: usize, b: usize) -> (r: Vec<u8>)
    requires
        a <= b <= v@.len(),
    ensures
        r@ == v@.subrange(a as int, b as int),
{
    let mut r: Vec<u8> = Vec::new();
    let mut i: usize = a;
    while i < b
        invariant
            a <= i <= b <= v@.len(),
            r@ == v@.subrange(a as int, i as int),
        decreases b - i,
    {
        r.push(v[i]);
        proof {
            assert(r@ =~= v@.subrange(a as int, i + 1 as int));
        }
        i += 1;
    }
    r
}


// ---------------------------------------------------------------------------
// Checksum laws
// ---------------------------------------------------------------------------

/// A sequence of zero digits.
pub open spec fn zero_seq(n: nat) -> Seq<u8> {
    Seq::new(n, |i: int| 0u8)
}

proof fn lemma_poly_step_linear(c1: u64, c2: u64, d1: u8, d2: u8)
    by (bit_vector)
    ensures
        poly_step(c1 ^ c2, d1 ^ d2) == poly_step(c1, d1) ^ poly_step(c2, d2),
{
}

proof fn lemma_poly_step_bound(c: u64, d: u8)
    by (bit_vector)
    ensures
        poly_step(c, d) < 0x100_0000_0000,
{
}

proof fn lemma_polymod_bound(c: u64, ds: Seq<u8>)
    requires
        c < 0x100_0000_0000,
    ensures
        polymod_from(c, ds) < 0x100_0000_0000,
    decreases ds.len(),
{
    if ds.len() > 0 {
        lemma_poly_step_bound(c, ds[0]);
        lemma_polymod_bound(poly_step(c, ds[0]), ds.skip(1));
    }
}

proof fn lemma_polymod_append(c: u64, a: Seq<u8>, b: Seq<u8>)
    ensures
        polymod_from(c, a + b) == polymod_from(polymod_from(c, a), b),
    decreases a.len(),
{
    if a.len() == 0 {
        assert(a + b =~= b);
    } else {
        assert((a + b)[0] == a[0]);
        assert((a + b).skip(1) =~= a.skip(1) + b);
        lemma_polymod_append(poly_step(c, a[0]), a.skip(1), b);
    }
}

proof fn lemma_polymod_split(c1: u64, c2: u64, ds: Seq<u8>)
    ensures
        polymod_from(c1 ^ c2, ds) == polymod_from(c1, zero_seq(ds.len())) ^ polymod_from(
            c2,
            ds,
        ),
    decreases ds.len(),
{
    if ds.len() == 0 {
        assert(polymod_from(c1 ^ c2, ds) == c1 ^ c2);
    } else {
        let d = ds[0];
        assert(d == 0u8 ^ d) by (bit_vector);
        lemma_poly_step_linear(c1, c2, 0, d);
        assert(poly_step(c1 ^ c2, d) == poly_step(c1, 0) ^ poly_step(c2, d));
        lemma_polymod_split(poly_step(c1, 0), poly_step(c2, d), ds.skip(1));
        assert(zero_seq(ds.len())[0] == 0);
        assert(zero_seq(ds.len()).skip(1) =~= zero_seq(ds.skip(1).len()));
        assert(polymod_from(c1, zero_seq(ds.len())) == polymod_from(
            poly_step(c1, 0),
            zero_seq(ds.skip(1).len()),
        ));
    }
}


proof fn lemma_cs_digits_value(cs: u64)
    requires
        cs < 0x100_0000_0000,
    ensures
        polymod_from(0, cs_digits(cs)) == cs,
{
    let ds = cs_digits(cs);
    let d0 = ds[0];
    let d1 = ds[1];
    let d2 = ds[2];
    let d3 = ds[3];
    let d4 = ds[4];
    let d5 = ds[5];
    let d6 = ds[6];
    let d7 = ds[7];
    assert(ds =~= seq![d0, d1, d2, d3, d4, d5, d6, d7]);
    let e0 = seq![d0, d1, d2, d3, d4, d5, d6, d7];
    let e1 = seq![d1, d2, d3, d4, d5, d6, d7];
    let e2 = seq![d2, d3, d4, d5, d6, d7];
    let e3 = seq![d3, d4, d5, d6, d7];
    let e4 = seq![d4, d5, d6, d7];
    let e5 = seq![d5, d6, d7];
    let e6 = seq![d6, d7];
    let e7 = seq![d7];
    assert(e0.skip(1) =~= e1);
    assert(e1.skip(1) =~= e2);
    assert(e2.skip(1) =~= e3);
    assert(e3.skip(1) =~= e4);
    assert(e4.skip(1) =~= e5);
    assert(e5.skip(1) =~= e6);
    assert(e6.skip(1) =~= e7);
    assert(e7.skip(1) =~= Seq::<u8>::empty());
    let s1 = poly_step(0, d0);
    let s2 = poly_step(s1, d1);
    let s3 = poly_step(s2, d2);
    let s4 = poly_step(s3, d3);
    let s5 = poly_step(s4, d4);
    let s6 = poly_step(s5, d5);
    let s7 = poly_step(s6, d6);
    let s8 = poly_step(s7, d7);
    assert(polymod_from(0, e0) == polymod_from(s1, e1));
    assert(polymod_from(s1, e1) == polymod_from(s2, e2));
    assert(polymod_from(s2, e2) == polymod_from(s3, e3));
    assert(polymod_from(s3, e3) == polymod_from(s4, e4));
    assert(polymod_from(s4, e4) == polymod_from(s5, e5));
    assert(polymod_from(s5, e5) == polymod_from(s6, e6));
    assert(polymod_from(s6, e6) == polymod_from(s7, e7));
    assert(e7[0] == d7);
    assert(polymod_from(s8, Seq::<u8>::empty()) == s8);
    assert(polymod_from(s7, e7) == s8);
    assert(s1 == cs >> 35u64) by (bit_vector)
        requires
            s1 == poly_step(0, d0),
            d0 == ((cs >> 35u64) & 31) as u8,
            cs < 0x100_0000_0000,
    ;
    assert(s2 == cs >> 30u64) by (bit_vector)
        requires
            s2 == poly_step(s1, d1),
            s1 == cs >> 35u64,
            d1 == ((cs >> 30u64) & 31) as u8,
            cs < 0x100_0000_0000,
    ;
    assert(s3 == cs >> 25u64) by (bit_vector)
        requires
            s3 == poly_step(s2, d2),
            s2 == cs >> 30u64,
            d2 == ((cs >> 25u64) & 31) as u8,
            cs < 0x100_0000_0000,
    ;
    assert(s4 == cs >> 20u64) by (bit_vector)
        requires
            s4 == poly_step(s3, d3),
            s3 == cs >> 25u64,
            d3 == ((cs >> 20u64) & 31) as u8,
            cs < 0x100_0000_0000,
    ;
    assert(s5 == cs >> 15u64) by (bit_vector)
        requires
            s5 == poly_step(s4, d4),
            s4 == cs >> 20u64,
            d4 == ((cs >> 15u64) & 31) as u8,
            cs < 0x100_0000_0000,
    ;
    assert(s6 == cs >> 10u64) by (bit_vector)
        requires
            s6 == poly_step(s5, d5),
            s5 == cs >> 15u64,
            d5 == ((cs >> 10u64) & 31) as u8,
            cs < 0x100_0000_0000,
    ;
    assert(s7 == cs >> 5u64) by (bit_vector)
        requires
            s7 == poly_step(s6, d6),
            s6 == cs >> 10u64,
            d6 == ((cs >> 5u64) & 31) as u8,
            cs < 0x100_0000_0000,
    ;
    assert(s8 == cs) by (bit_vector)
        requires
            s8 == poly_step(s7, d7),
            s7 == cs >> 5u64,
            d7 == ((cs >> 0u64) & 31) as u8,
            cs < 0x100_0000_0000,
    ;
}

/// The load-bearing checksum law: append to any digit string the 8
/// checksum digits computed for it, and the residue of the whole is zero.
pub proof fn lemma_checksum_round(m: Seq<u8>)
    ensures
        cashaddr_residue(m + cs_digits(cashaddr_residue(m + zero_seq(8)))) == 0,
{
    let x = polymod_from(1, m + zero_seq(8));
    let cs = x ^ 1;
    assert(cs == cashaddr_residue(m + zero_seq(8)));
    let csd = cs_digits(cs);
    let s = polymod_from(1, m);
    lemma_polymod_append(1, m, zero_seq(8));
    lemma_polymod_append(1, m, csd);
    assert(1u64 < 0x100_0000_0000) by (bit_vector);
    lemma_polymod_bound(1, m + zero_seq(8));
    assert(cs < 0x100_0000_0000) by (bit_vector)
        requires
            cs == x ^ 1,
            x < 0x100_0000_0000,
    ;
    lemma_cs_digits_value(cs);
    lemma_polymod_split(s, 0, csd);
    assert(s ^ 0u64 == s) by (bit_vector);
    assert(csd.len() == 8);
    assert(zero_seq(csd.len()) =~= zero_seq(8));
    let z = polymod_from(s, zero_seq(8));
    assert(z == x);
    let w = polymod_from(s, csd);
    let v = polymod_from(0, csd);
    assert(v == cs);
    assert(w == z ^ v);
    assert(w == 1u64) by (bit_vector)
        requires
            w == z ^ v,
            v == z ^ 1,
    ;
    let y = polymod_from(1, m + csd);
    assert(y == w);
    assert(y ^ 1 == 0u64) by (bit_vector)
        requires
            y == 1u64,
    ;
}

// ---------------------------------------------------------------------------
// Regrouping laws
// ---------------------------------------------------------------------------

proof fn lemma_digit_bits(b0: u8, b1: u8, b2: u8, b3: u8, b4: u8)
    by (bit_vector)
    requires
        b0 <= 1,
        b1 <= 1,
        b2 <= 1,
        b3 <= 1,
        b4 <= 1,
    ensures
        bit_at((16 * b0 + 8 * b1 + 4 * b2 + 2 * b3 + b4) as u8, 4) == b0,
        bit_at((16 * b0 + 8 * b1 + 4 * b2 + 2 * b3 + b4) as u8, 3) == b1,
        bit_at((16 * b0 + 8 * b1 + 4 * b2 + 2 * b3 + b4) as u8, 2) == b2,
        bit_at((16 * b0 + 8 * b1 + 4 * b2 + 2 * b3 + b4) as u8, 1) == b3,
        bit_at((16 * b0 + 8 * b1 + 4 * b2 + 2 * b3 + b4) as u8, 0) == b4,
{
}

proof fn lemma_byte_bits(v: u8)
    by (bit_vector)
    ensures
        128 * bit_at(v, 7) + 64 * bit_at(v, 6) + 32 * bit_at(v, 5) + 16 * bit_at(v, 4) + 8
            * bit_at(v, 3) + 4 * bit_at(v, 2) + 2 * bit_at(v, 1) + bit_at(v, 0) == v,
{
}

proof fn lemma_bits_val5(bits: Seq<u8>, base: int)
    ensures
        bits_val(bits, base, 5) == 16 * bit_in(bits, base) + 8 * bit_in(bits, base + 1) + 4
            * bit_in(bits, base + 2) + 2 * bit_in(bits, base + 3) + bit_in(bits, base + 4),
{
    reveal_with_fuel(bits_val, 6);
}

proof fn lemma_bits_val8(bits: Seq<u8>, base: int)
    ensures
        bits_val(bits, base, 8) == 128 * bit_in(bits, base) + 64 * bit_in(bits, base + 1) + 32
            * bit_in(bits, base + 2) + 16 * bit_in(bits, base + 3) + 8 * bit_in(bits, base + 4)
            + 4 * bit_in(bits, base + 5) + 2 * bit_in(bits, base + 6) + bit_in(bits, base + 7),
{
    reveal_with_fuel(bits_val, 9);
}

/// Regrouping a byte string into 5-bit digits and back is the identity,
/// and the padding bits the regrouping adds are zero.
#[verifier::rlimit(100)]
pub proof fn lemma_regroup_inverse(bytes: Seq<u8>)
    ensures
        to_eight(to_five(bytes)) == bytes,
        padding_ok(to_five(bytes)),
{
    let n = bytes.len() as int;
    let digs = to_five(bytes);
    let m = digs.len() as int;
    let bb = bits_of_bytes(bytes);
    let bd = bits_of_digits(digs);
    assert(8 * n <= 5 * m <= 8 * n + 4) by (nonlinear_arith)
        requires
            n >= 0,
            m == (n * 8 + 4) / 5,
    ;
    assert((5 * m) / 8 == n) by (nonlinear_arith)
        requires
            8 * n <= 5 * m <= 8 * n + 4,
    ;
    assert(bits_are_bits(bb));
    assert forall|t: int| 0 <= t < 5 * m implies bd[t] == bit_in(bb, t) by {
        let j = t / 5;
        let k = t % 5;
        assert(0 <= k < 5 && t == 5 * j + k && 0 <= j < m) by (nonlinear_arith)
            requires
                0 <= t < 5 * m,
                j == t / 5,
                k == t % 5,
        ;
        lemma_bits_val5(bb, 5 * j);
        lemma_bits_val_bound(bb, 5 * j, 5);
        lemma_pow2_small_values();
        let b0 = bit_in(bb, 5 * j);
        let b1 = bit_in(bb, 5 * j + 1);
        let b2 = bit_in(bb, 5 * j + 2);
        let b3 = bit_in(bb, 5 * j + 3);
        let b4 = bit_in(bb, 5 * j + 4);
        lemma_digit_bits(b0, b1, b2, b3, b4);
        assert(digs[j] == (16 * b0 + 8 * b1 + 4 * b2 + 2 * b3 + b4) as u8);
        assert(bit_at(digs[j], 4) == b0 && bit_at(digs[j], 3) == b1 && bit_at(digs[j], 2)
            == b2 && bit_at(digs[j], 1) == b3 && bit_at(digs[j], 0) == b4);
        assert(bd[t] == bit_at(digs[j], (4 - k) as u8));
    }
    // padding bits lie past the end of the byte bits, so they are zero
    assert forall|t: int|
        8 * ((digs.len() * 5) / 8) <= t < digs.len() * 5 implies bit_in(bd, t) == 0 by {
        assert(t >= 8 * n);
        assert(bit_in(bb, t) == 0);
    }
    assert(padding_ok(digs));
    // each regrouped byte equals the source byte
    assert(to_eight(digs).len() == n);
    assert forall|i: int| 0 <= i < n implies to_eight(digs)[i] == bytes[i] by {
        lemma_bits_val8(bd, 8 * i);
        lemma_byte_bits(bytes[i]);
        assert forall|k: int|
            0 <= k < 8 implies #[trigger] bit_in(bd, 8 * i + k) == bit_at(
                bytes[i],
                (7 - k) as u8,
            ) by {
            let t = 8 * i + k;
            assert(0 <= t < 8 * n && t < 5 * m) by (nonlinear_arith)
                requires
                    0 <= i < n,
                    0 <= k < 8,
                    t == 8 * i + k,
                    8 * n <= 5 * m,
            ;
            assert(bd[t] == bit_in(bb, t));
            assert(t / 8 == i && t % 8 == k) by (nonlinear_arith)
                requires
                    0 <= k < 8,
                    t == 8 * i + k,
            ;
            assert(bb[t] == bit_at(bytes[i], (7 - k) as u8));
        }
        let v = bytes[i];
        assert(to_eight(digs)[i] == bits_val(bd, 8 * i, 8) as u8);
        assert(bits_val(bd, 8 * i, 8) == 128 * bit_at(v, 7) + 64 * bit_at(v, 6) + 32 * bit_at(
            v,
            5,
        ) + 16 * bit_at(v, 4) + 8 * bit_at(v, 3) + 4 * bit_at(v, 2) + 2 * bit_at(v, 1)
            + bit_at(v, 0));
    }
    assert(to_eight(digs) =~= bytes);
}

// ---------------------------------------------------------------------------
// Codec laws
// ---------------------------------------------------------------------------

proof fn lemma_and31(x: u64, sh: u64)
    by (bit_vector)
    ensures
        (((x >> sh) & 31) as u8) < 32,
{
}

proof fn lemma_prefix_chars_facts(network: Network)
    ensures
        forall|i: int|
            #![trigger prefix_chars(network)[i]]
            0 <= i < prefix_chars(network).len() ==> (is_ascii_lower(prefix_chars(network)[i])
                && prefix_chars(network)[i] != ':'),
        network_of_prefix(prefix_chars(network)) == Some(network),
        1 <= prefix_chars(network).len(),
{
    assert(main_prefix().len() != test_prefix().len());
    assert(main_prefix().len() != reg_prefix().len());
    assert(test_prefix().len() != reg_prefix().len());
}

proof fn lemma_fold_lower_id(s: Seq<char>)
    requires
        !has_upper(s),
    ensures
        fold_lower(s) == s,
{
    assert forall|i: int| 0 <= i < s.len() implies fold_lower(s)[i] == s[i] by {
        assert(!is_ascii_upper(s[i]));
    }
    assert(fold_lower(s) =~= s);
}

proof fn lemma_fold_lower_no_upper(s: Seq<char>)
    ensures
        !has_upper(fold_lower(s)),
{
    let t = fold_lower(s);
    assert forall|i: int| 0 <= i < t.len() implies !is_ascii_upper(#[trigger] t[i]) by {
        let c = s[i];
        assert(t[i] == to_lower_char(c));
        if is_ascii_upper(c) {
            let v = (c as u32) + 32;
            assert(97 <= v <= 122);
            assert((v as char) as u32 == v);
        }
    }
    if has_upper(t) {
        let k = choose|k: int| 0 <= k < t.len() && is_ascii_upper(t[k]);
        assert(false);
    }
}

proof fn lemma_count_colons_concat(a: Seq<char>, b: Seq<char>)
    ensures
        count_colons(a + b) == count_colons(a) + count_colons(b),
    decreases b.len(),
{
    if b.len() == 0 {
        assert(a + b =~= a);
    } else {
        lemma_count_colons_concat(a, b.drop_last());
        assert((a + b).drop_last() =~= a + b.drop_last());
        assert((a + b).last() == b.last());
    }
}

/// A string with both an uppercase and a lowercase letter decodes to the
/// mixed-case error, before any other check.
pub proof fn lemma_cashaddr_mixed_case(s: Seq<char>)
    requires
        has_upper(s),
        has_lower(s),
    ensures
        forall|r: Result<Address, CashAddrDecodingError>|
            cashaddr_decodes(s, r) ==> r == Result::<Address, CashAddrDecodingError>::Err(
                CashAddrDecodingError::MixedCase,
            ),
{
    let k = choose|k: int| 0 <= k < s.len() && is_ascii_upper(s[k]);
    assert(s.len() > 0);
}

/// A string without lowercase letters (an all-uppercase address, say)
/// decodes exactly as its lowercased form does.
pub proof fn lemma_cashaddr_case_fold(s: Seq<char>)
    requires
        !has_lower(s),
    ensures
        forall|r: Result<Address, CashAddrDecodingError>|
            cashaddr_decodes(s, r) == cashaddr_decodes(fold_lower(s), r),
{
    let t = fold_lower(s);
    assert(t.len() == s.len());
    if s.len() == 0 {
        assert(t =~= s);
    } else {
        lemma_fold_lower_no_upper(s);
        lemma_fold_lower_id(t);
    }
}

/// A payload character outside the 32-character alphabet makes decoding
/// fail with the invalid-character error naming the earliest one, whatever
/// the rest of the payload holds. Stated on the case-folded string, after
/// the separator and prefix checks.
pub proof fn lemma_cashaddr_alphabet_rejection(t: Seq<char>, i: int)
    requires
        count_colons(t) == 1,
        prefix_ok(t.take(colon_idx(t))),
        0 <= i < t.skip(colon_idx(t) + 1).len(),
        digit_of_char(t.skip(colon_idx(t) + 1)[i]) is None,
        forall|j: int| 0 <= j < i ==> digit_of_char(#[trigger] t.skip(colon_idx(t) + 1)[j]) is Some,
    ensures
        forall|r: Result<Address, CashAddrDecodingError>|
            cashaddr_decodes_folded(t, r) ==> r == Result::<Address, CashAddrDecodingError>::Err(
                CashAddrDecodingError::InvalidChar(t.skip(colon_idx(t) + 1)[i]),
            ),
{
    let pay = t.skip(colon_idx(t) + 1);
    assert(!all_cash_digits(pay));
    assert forall|r: Result<Address, CashAddrDecodingError>|
        cashaddr_decodes_folded(t, r) implies r == Result::<Address, CashAddrDecodingError>::Err(
        CashAddrDecodingError::InvalidChar(pay[i]),
    ) by {
        let w = choose|w: int|
            0 <= w < pay.len() && digit_of_char(pay[w]) is None && (forall|j: int|
                0 <= j < w ==> digit_of_char(#[trigger] pay[j]) is Some) && r == Result::<
                Address,
                CashAddrDecodingError,
            >::Err(CashAddrDecodingError::InvalidChar(pay[w]));
        if w < i {
            assert(digit_of_char(pay[w]) is Some);
        }
        if w > i {
            assert(digit_of_char(pay[i]) is Some);
        }
        assert(w == i);
    }
}

/// A body whose length fits no size class is refused by encoding, with the
/// invalid-length error carrying that length.
pub proof fn lemma_cashaddr_unsupported_length(
    raw: Seq<u8>,
    hash_type: HashType,
    network: Network,
)
    requires
        size_class_of_len(raw.len()) is None,
    ensures
        forall|r: Result<String, CashAddrInvalidLength>|
            cashaddr_encodes(raw, hash_type, network, r) ==> (r matches Err(
                CashAddrInvalidLength(l),
            ) && l as nat == raw.len()),
{
}

/// Round trip of the cashaddr codec: the encoded string of any body of a
/// supported length, with any hash type and network, decodes back to
/// exactly that body, hash type and network.
#[verifier::rlimit(100)]
pub proof fn lemma_cashaddr_round_trip(raw: Seq<u8>, hash_type: HashType, network: Network)
    requires
        size_class_of_len(raw.len()) is Some,
    ensures
        forall|r: Result<Address, CashAddrDecodingError>|
            cashaddr_decodes(cashaddr_string(raw, hash_type, network), r) ==> (r matches Ok(a)
                && a.body@ == raw && a.hash_type == hash_type && a.network == network),
{
    let cls = size_class_of_len(raw.len()).unwrap();
    let vb = version_byte(hash_type, cls);
    let check = seq![vb] + raw;
    let payload = to_five(check);
    let p = prefix_chars(network);
    let m0 = expand_prefix(p) + payload;
    assert(m0 + zero_seq(8) =~= expand_prefix(p) + payload + Seq::new(8, |i: int| 0u8));
    let cs = cashaddr_residue(m0 + zero_seq(8));
    let csd = cs_digits(cs);
    let digits = payload + csd;
    let paye = digits.map(|i: int, d: u8| charset_char(d));
    let s = cashaddr_string(raw, hash_type, network);
    assert(s =~= p + seq![':'] + paye);
    // every digit is below 32
    assert(bits_are_bits(bits_of_bytes(check)));
    assert forall|q: int| 0 <= q < payload.len() implies #[trigger] payload[q] < 32 by {
        lemma_bits_val_bound(bits_of_bytes(check), 5 * q, 5);
        lemma_pow2_small_values();
    }
    assert forall|q: int| 0 <= q < 8 implies #[trigger] csd[q] < 32 by {
        lemma_and31(cs, (35 - 5 * q) as u64);
    }
    assert forall|q: int| 0 <= q < digits.len() implies #[trigger] digits[q] < 32 by {
        if q < payload.len() {
        } else {
            assert(digits[q] == csd[q - payload.len()]);
        }
    }
    // character shape of the string
    lemma_prefix_chars_facts(network);
    assert forall|q: int|
        0 <= q < paye.len() implies (!is_ascii_upper(#[trigger] paye[q]) && paye[q] != ':'
            && digit_of_char(paye[q]) == Some(digits[q])) by {
        lemma_charset(digits[q]);
    }
    assert(s.len() > 0);
    assert(!has_upper(s)) by {
        if has_upper(s) {
            let k = choose|k: int| 0 <= k < s.len() && is_ascii_upper(s[k]);
            if k < p.len() {
                assert(s[k] == p[k]);
            } else if k == p.len() {
                assert(s[k] == ':');
            } else {
                assert(s[k] == paye[k - p.len() - 1]);
            }
            assert(false);
        }
    }
    lemma_fold_lower_id(s);
    // exactly one ':'
    assert(count_colons(s) == 1) by {
        lemma_count_colons_concat(p + seq![':'], paye);
        lemma_count_colons_concat(p, seq![':']);
        lemma_count_colons_zero(p);
        lemma_count_colons_zero(paye);
        assert(seq![':'].drop_last() =~= Seq::<char>::empty());
        assert(count_colons(Seq::<char>::empty()) == 0);
        assert(seq![':'].last() == ':');
        assert(count_colons(seq![':']) == 1);
        assert(p + seq![':'] + paye =~= (p + seq![':']) + paye);
    }
    // the ':' stands right after the prefix
    assert(s[p.len() as int] == ':');
    assert(colon_idx(s) == p.len() as int) by {
        let ci = colon_idx(s);
        assert(0 <= (p.len() as int) && (p.len() as int) < s.len() && s[p.len() as int] == ':');
        assert(0 <= ci < s.len() && s[ci] == ':');
        lemma_colon_unique(s, ci, p.len() as int);
    }
    assert(s.take(p.len() as int) =~= p);
    assert(s.skip(p.len() + 1 as int) =~= paye);
    assert(prefix_ok(p));
    assert(all_cash_digits(paye));
    assert(digits_of_chars(paye) =~= digits);
    // the digit count fits the size class
    assert(payload.len() == (check.len() * 8 + 4) / 5);
    assert(check.len() == raw.len() + 1);
    assert(valid_digit_count(digits.len())) by {
        if raw.len() == 20 {
            assert(payload.len() == 34);
        } else if raw.len() == 24 {
            assert(payload.len() == 40);
        } else if raw.len() == 28 {
            assert(payload.len() == 47);
        } else if raw.len() == 32 {
            assert(payload.len() == 53);
        } else if raw.len() == 40 {
            assert(payload.len() == 66);
        } else if raw.len() == 48 {
            assert(payload.len() == 79);
        } else if raw.len() == 56 {
            assert(payload.len() == 92);
        } else {
            assert(raw.len() == 64);
            assert(payload.len() == 104);
        }
    }
    // the checksum residue of the whole string is zero
    assert(expand_prefix(p) + digits =~= m0 + csd);
    lemma_checksum_round(m0);
    assert(cashaddr_residue(expand_prefix(p) + digits) == 0);
    // the regrouping inverts, with clean padding
    assert(digits.take(digits.len() - 8) =~= payload);
    lemma_regroup_inverse(check);
    let bytes = to_eight(payload);
    assert(bytes == check);
    assert(bytes[0] == vb);
    // the version byte is consistent
    assert(vb < 128 && vb / 8 <= 1 && vb % 8 == cls) by {
        assert(cls < 8);
        match hash_type {
            HashType::Key => {
                assert(vb == cls);
            },
            HashType::Script => {
                assert(vb == 8 + cls);
            },
        }
    }
    assert(len_of_class(cls) == raw.len());
    assert(bytes.len() - 1 == raw.len());
    assert((vb / 8 == 1) == (hash_type == HashType::Script));
    assert(network_of_prefix(p) == Some(network));
    assert(bytes.skip(1) =~= raw);
}
} // verus!
