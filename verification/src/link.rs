//! The identifier of a file and its link text.

use crate::blocks::ed2k_digest;
use crate::hash::Ed2kHasher;
use vstd::prelude::*;
use vstd::string::StringExecFns;
use vstd::utf8::encode_scalar;

verus! {

/// `String::push` appends one character to the string.
pub assume_specification[ String::push ](s: &mut String, c: char)
    ensures
        final(s)@ == old(s)@.push(c),
;

/// The digit that stands for a value below 16: `0` to `9`, then `a` to `f`.
pub open spec fn hex_digit(n: int) -> char
    recommends
        0 <= n < 16,
{
    if n < 10 {
        (0x30 + n) as char
    } else {
        (0x57 + n) as char
    }
}

/// The two hexadecimal digits of a byte, the high half first.
pub open spec fn hex_pair(b: u8) -> Seq<char> {
    seq![hex_digit(b as int / 16), hex_digit(b as int % 16)]
}

/// The bytes in hexadecimal, two digits each, in the order of the bytes.
pub open spec fn hex(bytes: Seq<u8>) -> Seq<char> {
    bytes.flat_map(|b: u8| hex_pair(b))
}

fn hex_digit_of(n: u8) -> (c: char)
    requires
        n < 16,
    ensures
        c == hex_digit(n as int),
{
    if n < 10 {
        (0x30 + n) as char
    } else {
        (0x57 + n) as char
    }
}

fn push_hex_pair(out: &mut String, b: u8)
    ensures
        final(out)@ == old(out)@ + hex_pair(b),
{
    out.push(hex_digit_of(b / 16));
    out.push(hex_digit_of(b % 16));
}

fn push_hex(out: &mut String, bytes: &[u8])
    ensures
        final(out)@ == old(out)@ + hex(bytes@),
{
    let mut i: usize = 0;
    while i < bytes.len()
        invariant
            i <= bytes.len(),
            out@ == old(out)@ + hex(bytes@.take(i as int)),
        decreases bytes.len() - i,
    {
        proof {
            bytes@.lemma_flat_map_take_append(|b: u8| hex_pair(b), i as int);
        }
        push_hex_pair(out, bytes[i]);
        i += 1;
    }
    assert(bytes@.take(bytes.len() as int) =~= bytes@);
}

/// The decimal digits of `n`, without leading zeros.
pub open spec fn decimal(n: nat) -> Seq<char>
    decreases n,
{
    if n < 10 {
        seq![hex_digit(n as int)]
    } else {
        decimal(n / 10).push(hex_digit((n % 10) as int))
    }
}

fn push_decimal(out: &mut String, n: u64)
    ensures
        final(out)@ == old(out)@ + decimal(n as nat),
{
    // The digits come out lowest first; they are written highest first.
    let mut lowest_first: Vec<char> = Vec::new();
    let mut rest = n;
    loop
        invariant_except_break
            decimal(n as nat) == decimal(rest as nat) + lowest_first@.reverse(),
        ensures
            decimal(n as nat) == lowest_first@.reverse(),
        decreases rest,
    {
        lowest_first.push(hex_digit_of((rest % 10) as u8));
        if rest < 10 {
            break ;
        }
        rest = rest / 10;
    }
    let mut i = lowest_first.len();
    while i > 0
        invariant
            i <= lowest_first.len(),
            out@ == old(out)@ + lowest_first@.reverse().take(lowest_first.len() - i),
        decreases i,
    {
        i -= 1;
        out.push(lowest_first[i]);
    }
}

/// A byte written as `%` and its two hexadecimal digits.
pub open spec fn percent_escaped(b: u8) -> Seq<char> {
    seq!['%'] + hex_pair(b)
}

/// How one character of a file name stands in a link: a character that is not
/// ASCII, and `|`, as the bytes of its UTF-8 form, each percent-escaped; any
/// other character as itself.
pub open spec fn escaped_char(c: char) -> Seq<char> {
    if c as u32 >= 0x80 || c == '|' {
        encode_scalar(c as u32).flat_map(|b: u8| percent_escaped(b))
    } else {
        seq![c]
    }
}

/// A file name as it stands in a link.
pub open spec fn escaped(name: Seq<char>) -> Seq<char> {
    name.flat_map(|c: char| escaped_char(c))
}

/// How one byte of a UTF-8 text stands in a link.
spec fn escaped_byte(b: u8) -> Seq<char> {
    if b >= 0x80 || b == 0x7c {
        percent_escaped(b)
    } else {
        seq![b as char]
    }
}

/// Every byte of the UTF-8 form of a character that is not ASCII is 0x80 or
/// more.
proof fn lemma_bytes_beyond_ascii(v: u32)
    requires
        v >= 0x80,
    ensures
        forall|i: int|
            0 <= i < encode_scalar(v).len() ==> #[trigger] encode_scalar(v)[i] >= 0x80,
{
    assert(0xC0u8 | ((v >> 6) & 0x1F) as u8 >= 0x80) by (bit_vector);
    assert(0xE0u8 | ((v >> 12) & 0x0F) as u8 >= 0x80) by (bit_vector);
    assert(0xF0u8 | ((v >> 18) & 0x7) as u8 >= 0x80) by (bit_vector);
    assert(0x80u8 | (v & 0x3F) as u8 >= 0x80) by (bit_vector);
    assert(0x80u8 | ((v >> 6) & 0x3F) as u8 >= 0x80) by (bit_vector);
    assert(0x80u8 | ((v >> 12) & 0x3F) as u8 >= 0x80) by (bit_vector);
}

/// Escaping the UTF-8 form of one character byte by byte gives the escaped
/// character.
proof fn lemma_escaped_char_by_bytes(c: char)
    ensures
        encode_scalar(c as u32).flat_map(|b: u8| escaped_byte(b)) == escaped_char(c),
{
    let v = c as u32;
    let bytes = encode_scalar(v);
    if v < 0x80 {
        assert((v & 0x7F) as u8 == v) by (bit_vector)
            requires
                v < 0x80,
        ;
        bytes.lemma_flat_map_singleton(|b: u8| escaped_byte(b));
        bytes.lemma_flat_map_singleton(|b: u8| percent_escaped(b));
    } else {
        lemma_bytes_beyond_ascii(v);
        assert(bytes.map_values(|b: u8| escaped_byte(b)) =~= bytes.map_values(
            |b: u8| percent_escaped(b),
        ));
    }
}

/// Escaping a UTF-8 text byte by byte gives the escaped file name.
proof fn lemma_escaped_by_bytes(name: Seq<char>)
    ensures
        vstd::utf8::encode_utf8(name).flat_map(|b: u8| escaped_byte(b)) == escaped(name),
    decreases name.len(),
{
    let by_byte = |b: u8| escaped_byte(b);
    let by_char = |c: char| escaped_char(c);
    if name.len() > 0 {
        let head = encode_scalar(name[0] as u32);
        let tail = vstd::utf8::encode_utf8(name.drop_first());
        lemma_escaped_by_bytes(name.drop_first());
        lemma_escaped_char_by_bytes(name[0]);
        assert((head + tail).map_values(by_byte) =~= head.map_values(by_byte) + tail.map_values(
            by_byte,
        ));
        vstd::seq_lib::lemma_flatten_concat(head.map_values(by_byte), tail.map_values(by_byte));
        assert(name.map_values(by_char).drop_first() =~= name.drop_first().map_values(by_char));
    }
}

fn push_escaped(out: &mut String, name: &str)
    ensures
        final(out)@ == old(out)@ + escaped(name@),
{
    let bytes = name.as_bytes();
    let mut i: usize = 0;
    while i < bytes.len()
        invariant
            i <= bytes.len(),
            out@ == old(out)@ + bytes@.take(i as int).flat_map(|b: u8| escaped_byte(b)),
        decreases bytes.len() - i,
    {
        proof {
            bytes@.lemma_flat_map_take_append(|b: u8| escaped_byte(b), i as int);
        }
        let b = bytes[i];
        if b >= 0x80 || b == 0x7c {
            out.push('%');
            push_hex_pair(out, b);
        } else {
            out.push(b as char);
        }
        i += 1;
    }
    proof {
        assert(bytes@.take(bytes.len() as int) =~= bytes@);
        lemma_escaped_by_bytes(name@);
    }
}

/// The text of the link for a file of the given name, size and digest:
/// `ed2k://|file|`, the escaped name, `|`, the size in decimal, `|`, the digest
/// in hexadecimal, and `|/`.
pub open spec fn link_text(id: Ed2kView) -> Seq<char> {
    "ed2k://|file|"@ + escaped(id.filename) + seq!['|'] + decimal(id.size) + seq!['|'] + hex(
        id.hash,
    ) + "|/"@
}

/// What an [`Ed2k`] holds.
pub struct Ed2kView {
    pub filename: Seq<char>,
    pub size: nat,
    pub hash: Seq<u8>,
}

/// The eD2k identifier of a file: its name, its size in bytes and its digest.
#[derive(Debug, PartialEq, Eq)]
pub struct Ed2k {
    filename: String,
    size: u64,
    hash: [u8; 16],
}

/// The legacy scheme, under which a stream that ends on a block boundary ends
/// with an empty block.
pub struct Ed2kLegacy;

impl View for Ed2k {
    type V = Ed2kView;

    closed spec fn view(&self) -> Ed2kView {
        Ed2kView { filename: self.filename@, size: self.size as nat, hash: self.hash@ }
    }
}

/// Hashes `data` in one go under the given scheme.
fn hash_from_bytes(filename: String, data: &[u8], use_legacy_hashing: bool) -> (id: Ed2k)
    ensures
        id@ == (Ed2kView {
            filename: filename@,
            size: data@.len(),
            hash: ed2k_digest(data@, use_legacy_hashing),
        }),
{
    let mut hasher = Ed2kHasher::with_legacy_hashing(use_legacy_hashing);
    hasher.update(data);
    Ed2k { filename, size: data.len() as u64, hash: hasher.finalize() }
}

impl Ed2kLegacy {
    /// The identifier of a file that holds `data`, by the legacy scheme.
    pub fn from_bytes(filename: String, data: &[u8]) -> (id: Ed2k)
        ensures
            id@ == (Ed2kView {
                filename: filename@,
                size: data@.len(),
                hash: ed2k_digest(data@, true),
            }),
    {
        hash_from_bytes(filename, data, true)
    }
}

impl Ed2k {
    /// An identifier made of its three parts.
    pub fn new(filename: String, size: u64, hash: [u8; 16]) -> (id: Self)
        ensures
            id@ == (Ed2kView { filename: filename@, size: size as nat, hash: hash@ }),
    {
        Ed2k { filename, size, hash }
    }

    /// The identifier of a file that holds `data`, by the current scheme.
    pub fn from_bytes(filename: String, data: &[u8]) -> (id: Self)
        ensures
            id@ == (Ed2kView {
                filename: filename@,
                size: data@.len(),
                hash: ed2k_digest(data@, false),
            }),
    {
        hash_from_bytes(filename, data, false)
    }

    /// The name of the file.
    pub fn filename(&self) -> (name: &str)
        ensures
            name@ == self@.filename,
    {
        self.filename.as_str()
    }

    /// The size of the file in bytes.
    pub fn filesize(&self) -> (size: u64)
        ensures
            size == self@.size,
    {
        self.size
    }

    /// The 16 bytes of the digest.
    pub fn hash(&self) -> (hash: &[u8])
        ensures
            hash@ == self@.hash,
    {
        self.hash.as_slice()
    }

    /// The link that names the file.
    pub fn link(&self) -> (text: String)
        ensures
            text@ == link_text(self@),
    {
        let mut text = String::new();
        text.append("ed2k://|file|");
        push_escaped(&mut text, self.filename.as_str());
        text.push('|');
        push_decimal(&mut text, self.size);
        text.push('|');
        push_hex(&mut text, self.hash.as_slice());
        text.append("|/");
        text
    }
}

} // verus!
