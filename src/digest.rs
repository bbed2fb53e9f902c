//! The 256-bit digest: its byte form, its hex text form, and the function
//! that computes it.
use vstd::prelude::*;
use vstd::string::*;

use crate::codec::{Deserialize, Serialize};
use crate::error::Error;
use crate::sha256::{be_word, initial_state, sha256, sha256_words};

verus! {

/// The length of a digest in bytes.
pub const DIGEST_SIZE: usize = 32;

/// Byte `j` (0 to 3) of the big-endian form of `w`.
pub open spec fn word_byte(w: u32, j: int) -> u8 {
    if j == 0 {
        (w >> 24u32) as u8
    } else if j == 1 {
        (w >> 16u32) as u8
    } else if j == 2 {
        (w >> 8u32) as u8
    } else {
        w as u8
    }
}

/// The words of `ws`, each as four big-endian bytes, in order.
pub open spec fn word_bytes(ws: Seq<u32>) -> Seq<u8> {
    Seq::new(4 * ws.len(), |i: int| word_byte(ws[i / 4], i % 4))
}

/// The big-endian words that the bytes of `b` make, four bytes to a word.
pub open spec fn words_of(b: Seq<u8>) -> Seq<u32> {
    Seq::new(b.len() / 4, |i: int| be_word(b, 4 * i))
}

/// The sixteen hex digits, lower case.
pub open spec fn hex_digits() -> Seq<char> {
    seq!['0', '1', '2', '3', '4', '5', '6', '7', '8', '9', 'a', 'b', 'c', 'd', 'e', 'f']
}

/// The hex text of `b`: two lower-case digits per byte, the high half first.
pub open spec fn hex_text(b: Seq<u8>) -> Seq<char> {
    Seq::new(
        2 * b.len(),
        |i: int|
            if i % 2 == 0 {
                hex_digits()[(b[i / 2] as int) / 16]
            } else {
                hex_digits()[(b[i / 2] as int) % 16]
            },
    )
}

/// The sixteen hex digits, upper case.
pub open spec fn upper_hex_digits() -> Seq<char> {
    seq!['0', '1', '2', '3', '4', '5', '6', '7', '8', '9', 'A', 'B', 'C', 'D', 'E', 'F']
}

/// The hex text of `b` in upper-case digits, the high half of each byte first.
pub open spec fn upper_hex_text(b: Seq<u8>) -> Seq<char> {
    Seq::new(
        2 * b.len(),
        |i: int|
            if i % 2 == 0 {
                upper_hex_digits()[(b[i / 2] as int) / 16]
            } else {
                upper_hex_digits()[(b[i / 2] as int) % 16]
            },
    )
}

/// Whether `c` is a hex digit, in either case.
pub open spec fn is_hex_digit(c: char) -> bool {
    let v = c as u32;
    ('0' as u32 <= v <= '9' as u32) || ('a' as u32 <= v <= 'f' as u32) || ('A' as u32 <= v
        <= 'F' as u32)
}

/// The value of the hex digit `c`.
pub open spec fn hex_value(c: char) -> int {
    let v = c as u32;
    if v <= '9' as u32 {
        v - '0' as u32
    } else if v <= 'F' as u32 {
        v - 'A' as u32 + 10
    } else {
        v - 'a' as u32 + 10
    }
}

/// A hex text without its optional `0x` prefix.
pub open spec fn hex_body(s: Seq<char>) -> Seq<char> {
    if s.len() >= 2 && s[0] == '0' && s[1] == 'x' {
        s.subrange(2, s.len() as int)
    } else {
        s
    }
}

/// Whether every character of `t` is a hex digit.
pub open spec fn all_hex_digits(t: Seq<char>) -> bool {
    forall|i: int| 0 <= i < t.len() ==> is_hex_digit(#[trigger] t[i])
}

/// The bytes that the hex digits of `t` spell, two digits to a byte.
pub open spec fn hex_decode(t: Seq<char>) -> Seq<u8> {
    Seq::new(t.len() / 2, |i: int| (16 * hex_value(t[2 * i]) + hex_value(t[2 * i + 1])) as u8)
}

/// A 256-bit digest, held as eight words.
#[derive(Clone, Copy, Debug)]
pub struct Digest {
    words: [u32; 8],
}

impl View for Digest {
    type V = Seq<u32>;

    closed spec fn view(&self) -> Seq<u32> {
        self.words@
    }
}

impl Digest {
    /// A digest has eight words.
    pub broadcast proof fn lemma_len(d: Digest)
        ensures
            #[trigger] d@.len() == 8,
    {
    }

    /// Two digests with the same words are the same digest.
    pub proof fn lemma_view_eq(a: Digest, b: Digest)
        requires
            a@ == b@,
        ensures
            a == b,
    {
        assert(a.words =~= b.words);
    }

    /// The initial hash value of the hash function.
    pub fn initial() -> (d: Digest)
        ensures
            d@ == initial_state(),
    {
        let d = Digest {
            words: [
                0x6a09e667, 0xbb67ae85, 0x3c6ef372, 0xa54ff53a, 0x510e527f, 0x9b05688c, 0x1f83d9ab,
                0x5be0cd19,
            ],
        };
        assert(d@ =~= initial_state());
        d
    }
}

/// The four big-endian bytes of a word read back give the word.
proof fn lemma_word_round_trip(w: u32)
    ensures
        be_word(seq![word_byte(w, 0), word_byte(w, 1), word_byte(w, 2), word_byte(w, 3)], 0) == w,
{
    assert(((((w >> 24u32) as u8) as u32) << 24u32) | ((((w >> 16u32) as u8) as u32) << 16u32) | ((((
    w >> 8u32) as u8) as u32) << 8u32) | ((w as u8) as u32) == w) by (bit_vector);
}

/// A word made of four bytes gives back those bytes.
proof fn lemma_bytes_round_trip(b0: u8, b1: u8, b2: u8, b3: u8)
    ensures
        ({
            let w = be_word(seq![b0, b1, b2, b3], 0);
            word_byte(w, 0) == b0 && word_byte(w, 1) == b1 && word_byte(w, 2) == b2 && word_byte(w, 3)
                == b3
        }),
{
    let w = ((b0 as u32) << 24u32) | ((b1 as u32) << 16u32) | ((b2 as u32) << 8u32) | (b3 as u32);
    assert(be_word(seq![b0, b1, b2, b3], 0) == w);
    assert((w >> 24u32) as u8 == b0) by (bit_vector)
        requires
            w == ((b0 as u32) << 24u32) | ((b1 as u32) << 16u32) | ((b2 as u32) << 8u32) | (b3 as u32),
    ;
    assert((w >> 16u32) as u8 == b1) by (bit_vector)
        requires
            w == ((b0 as u32) << 24u32) | ((b1 as u32) << 16u32) | ((b2 as u32) << 8u32) | (b3 as u32),
    ;
    assert((w >> 8u32) as u8 == b2) by (bit_vector)
        requires
            w == ((b0 as u32) << 24u32) | ((b1 as u32) << 16u32) | ((b2 as u32) << 8u32) | (b3 as u32),
    ;
    assert(w as u8 == b3) by (bit_vector)
        requires
            w == ((b0 as u32) << 24u32) | ((b1 as u32) << 16u32) | ((b2 as u32) << 8u32) | (b3 as u32),
    ;
}

/// Reading words back from the bytes of words gives the words.
pub proof fn lemma_words_of_word_bytes(ws: Seq<u32>)
    ensures
        words_of(word_bytes(ws)) == ws,
{
    let b = word_bytes(ws);
    assert forall|i: int| 0 <= i < ws.len() implies #[trigger] be_word(b, 4 * i) == ws[i] by {
        let w = ws[i];
        lemma_word_round_trip(w);
        assert(b[4 * i] == word_byte(w, 0));
        assert(b[4 * i + 1] == word_byte(w, 1));
        assert(b[4 * i + 2] == word_byte(w, 2));
        assert(b[4 * i + 3] == word_byte(w, 3));
        assert(be_word(b, 4 * i) == be_word(
            seq![word_byte(w, 0), word_byte(w, 1), word_byte(w, 2), word_byte(w, 3)],
            0,
        ));
    }
    assert(words_of(b) =~= ws);
}

/// Writing the words of a byte sequence whose length is a multiple of four
/// gives back the bytes.
pub proof fn lemma_word_bytes_of_words(b: Seq<u8>)
    requires
        b.len() % 4 == 0,
    ensures
        word_bytes(words_of(b)) == b,
{
    let ws = words_of(b);
    assert forall|k: int| 0 <= k < b.len() implies #[trigger] word_bytes(ws)[k] == b[k] by {
        let i = k / 4;
        lemma_bytes_round_trip(b[4 * i], b[4 * i + 1], b[4 * i + 2], b[4 * i + 3]);
        assert(be_word(b, 4 * i) == be_word(seq![b[4 * i], b[4 * i + 1], b[4 * i + 2], b[4 * i + 3]], 0));
    }
    assert(word_bytes(ws) =~= b);
}

/// Each hex digit is a hex digit, and its value is its place among the digits.
proof fn lemma_hex_digit(n: int)
    requires
        0 <= n < 16,
    ensures
        is_hex_digit(hex_digits()[n]),
        hex_value(hex_digits()[n]) == n,
{
    let h = hex_digits();
    assert(h[0] == '0' && h[1] == '1' && h[2] == '2' && h[3] == '3' && h[4] == '4' && h[5] == '5');
    assert(h[6] == '6' && h[7] == '7' && h[8] == '8' && h[9] == '9' && h[10] == 'a' && h[11] == 'b');
    assert(h[12] == 'c' && h[13] == 'd' && h[14] == 'e' && h[15] == 'f');
}

/// Reading back the hex text of a byte sequence gives the bytes.
pub proof fn lemma_hex_decode_text(b: Seq<u8>)
    ensures
        all_hex_digits(hex_text(b)),
        hex_decode(hex_text(b)) == b,
{
    let t = hex_text(b);
    assert forall|i: int| 0 <= i < t.len() implies is_hex_digit(#[trigger] t[i]) by {
        lemma_hex_digit((b[i / 2] as int) / 16);
        lemma_hex_digit((b[i / 2] as int) % 16);
    }
    assert forall|i: int| 0 <= i < b.len() implies #[trigger] hex_decode(t)[i] == b[i] by {
        lemma_hex_digit((b[i] as int) / 16);
        lemma_hex_digit((b[i] as int) % 16);
        assert(t[2 * i] == hex_digits()[(b[i] as int) / 16]);
        assert(t[2 * i + 1] == hex_digits()[(b[i] as int) % 16]);
    }
    assert(hex_decode(t) =~= b);
}

/// The hex text of a digest, with or without a `0x` prefix, is 64 hex
/// digits after the prefix, and reading it back gives the digest.
pub proof fn lemma_hex_round_trip(d: Digest)
    ensures
        hex_text(word_bytes(d@)).len() == 64,
        hex_body(hex_text(word_bytes(d@))) == hex_text(word_bytes(d@)),
        hex_body(seq!['0', 'x'] + hex_text(word_bytes(d@))) == hex_text(word_bytes(d@)),
        all_hex_digits(hex_text(word_bytes(d@))),
        words_of(hex_decode(hex_text(word_bytes(d@)))) == d@,
{
    Digest::lemma_len(d);
    let b = word_bytes(d@);
    let t = hex_text(b);
    assert(b.len() == 32);
    assert(t.len() == 64);
    lemma_hex_decode_text(b);
    lemma_words_of_word_bytes(d@);
    assert(is_hex_digit(t[1]));
    assert(!is_hex_digit('x'));
    assert(hex_body(t) == t);
    assert((seq!['0', 'x'] + t).subrange(2, 66) =~= t);
}

/// Each upper-case hex digit is a hex digit, and its value is its place
/// among the digits.
proof fn lemma_upper_hex_digit(n: int)
    requires
        0 <= n < 16,
    ensures
        is_hex_digit(upper_hex_digits()[n]),
        hex_value(upper_hex_digits()[n]) == n,
{
    let h = upper_hex_digits();
    assert(h[0] == '0' && h[1] == '1' && h[2] == '2' && h[3] == '3' && h[4] == '4' && h[5] == '5');
    assert(h[6] == '6' && h[7] == '7' && h[8] == '8' && h[9] == '9' && h[10] == 'A' && h[11] == 'B');
    assert(h[12] == 'C' && h[13] == 'D' && h[14] == 'E' && h[15] == 'F');
}

/// The upper-case hex text of a digest, with or without a `0x` prefix, is
/// 64 hex digits after the prefix, and reading it back gives the digest.
pub proof fn lemma_upper_hex_round_trip(d: Digest)
    ensures
        upper_hex_text(word_bytes(d@)).len() == 64,
        hex_body(upper_hex_text(word_bytes(d@))) == upper_hex_text(word_bytes(d@)),
        hex_body(seq!['0', 'x'] + upper_hex_text(word_bytes(d@))) == upper_hex_text(
            word_bytes(d@),
        ),
        all_hex_digits(upper_hex_text(word_bytes(d@))),
        words_of(hex_decode(upper_hex_text(word_bytes(d@)))) == d@,
{
    Digest::lemma_len(d);
    let b = word_bytes(d@);
    let t = upper_hex_text(b);
    assert(b.len() == 32);
    assert forall|i: int| 0 <= i < t.len() implies is_hex_digit(#[trigger] t[i]) by {
        lemma_upper_hex_digit((b[i / 2] as int) / 16);
        lemma_upper_hex_digit((b[i / 2] as int) % 16);
    }
    assert forall|i: int| 0 <= i < b.len() implies #[trigger] hex_decode(t)[i] == b[i] by {
        lemma_upper_hex_digit((b[i] as int) / 16);
        lemma_upper_hex_digit((b[i] as int) % 16);
        assert(t[2 * i] == upper_hex_digits()[(b[i] as int) / 16]);
        assert(t[2 * i + 1] == upper_hex_digits()[(b[i] as int) % 16]);
    }
    assert(hex_decode(t) =~= b);
    lemma_words_of_word_bytes(d@);
    assert(is_hex_digit(t[1]));
    assert(!is_hex_digit('x'));
    assert((seq!['0', 'x'] + t).subrange(2, 66) =~= t);
}

/// The word that the four bytes of `b` from `i` on make, big-endian.
fn read_word(b: &[u8], i: usize) -> (w: u32)
    requires
        i + 4 <= b@.len(),
    ensures
        w == be_word(b@, i as int),
{
    ((b[i] as u32) << 24u32) | ((b[i + 1] as u32) << 16u32) | ((b[i + 2] as u32) << 8u32) | (b[i
        + 3] as u32)
}

impl Serialize for Digest {
    open spec fn encoding(&self) -> Seq<u8> {
        word_bytes(self@)
    }

    fn serialize(&self, buf: &mut [u8]) -> (r: Result<(), Error>) {
        proof {
            Digest::lemma_len(*self);
        }
        if buf.len() != DIGEST_SIZE {
            return Err(Error::InvalidSliceLength);
        }
        let ghost target = word_bytes(self@);
        let mut i: usize = 0;
        while i < 8
            invariant
                i <= 8,
                buf@.len() == 32,
                target == word_bytes(self@),
                self@.len() == 8,
                forall|k: int| 0 <= k < 4 * i ==> buf@[k] == target[k],
            decreases 8 - i,
        {
            let w = self.words[i];
            buf[4 * i] = (w >> 24u32) as u8;
            buf[4 * i + 1] = (w >> 16u32) as u8;
            buf[4 * i + 2] = (w >> 8u32) as u8;
            buf[4 * i + 3] = w as u8;
            assert(target[4 * i] == word_byte(w, 0));
            assert(target[4 * i + 1] == word_byte(w, 1));
            assert(target[4 * i + 2] == word_byte(w, 2));
            assert(target[4 * i + 3] == word_byte(w, 3));
            i += 1;
        }
        assert(buf@ =~= target);
        Ok(())
    }
}

impl Deserialize for Digest {
    open spec fn decodable(bytes: Seq<u8>) -> bool {
        bytes.len() == 32
    }

    open spec fn decodes(bytes: Seq<u8>, value: Digest) -> bool {
        value@ == words_of(bytes)
    }

    fn deserialize(buf: &[u8]) -> (r: Result<Digest, Error>) {
        if buf.len() != DIGEST_SIZE {
            return Err(Error::InvalidSliceLength);
        }
        let mut words: [u32; 8] = [0; 8];
        let mut i: usize = 0;
        while i < 8
            invariant
                i <= 8,
                buf@.len() == 32,
                forall|k: int| 0 <= k < i ==> words@[k] == be_word(buf@, 4 * k),
            decreases 8 - i,
        {
            words[i] = read_word(buf, 4 * i);
            i += 1;
        }
        let d = Digest { words };
        assert(d@ =~= words_of(buf@));
        Ok(d)
    }
}

/// The text of the hex digit whose value is `n`.
fn hex_digit_text(n: u8) -> (s: &'static str)
    requires
        n < 16,
    ensures
        s@ == seq![hex_digits()[n as int]],
{
    proof {
        reveal_strlit("0");
        reveal_strlit("1");
        reveal_strlit("2");
        reveal_strlit("3");
        reveal_strlit("4");
        reveal_strlit("5");
        reveal_strlit("6");
        reveal_strlit("7");
        reveal_strlit("8");
        reveal_strlit("9");
        reveal_strlit("a");
        reveal_strlit("b");
        reveal_strlit("c");
        reveal_strlit("d");
        reveal_strlit("e");
        reveal_strlit("f");
    }
    let s = match n {
        0 => "0",
        1 => "1",
        2 => "2",
        3 => "3",
        4 => "4",
        5 => "5",
        6 => "6",
        7 => "7",
        8 => "8",
        9 => "9",
        10 => "a",
        11 => "b",
        12 => "c",
        13 => "d",
        14 => "e",
        _ => "f",
    };
    assert(s@ =~= seq![hex_digits()[n as int]]);
    s
}

/// The value of `c` if it is a hex digit.
fn hex_digit_value(c: char) -> (r: Option<u8>)
    ensures
        is_hex_digit(c) ==> r == Some(hex_value(c) as u8),
        !is_hex_digit(c) ==> r is None,
{
    let v = c as u32;
    if '0' as u32 <= v && v <= '9' as u32 {
        Some((v - '0' as u32) as u8)
    } else if 'a' as u32 <= v && v <= 'f' as u32 {
        Some((v - 'a' as u32 + 10) as u8)
    } else if 'A' as u32 <= v && v <= 'F' as u32 {
        Some((v - 'A' as u32 + 10) as u8)
    } else {
        None
    }
}

/// The digest whose byte form is `b`.
fn from_byte_form(b: &[u8]) -> (d: Digest)
    requires
        b@.len() == 32,
    ensures
        d@ == words_of(b@),
{
    match Digest::deserialize(b) {
        Ok(d) => d,
        Err(_) => Digest::initial(),
    }
}

impl Digest {
    /// The byte form of this digest: each word big-endian, in order.
    pub fn to_bytes(&self) -> (b: Vec<u8>)
        ensures
            b@ == word_bytes(self@),
    {
        proof {
            Digest::lemma_len(*self);
        }
        let mut b: Vec<u8> = vec![0u8; DIGEST_SIZE];
        let _ = self.serialize(b.as_mut_slice());
        b
    }

    /// The 64 lower-case hex digits of the byte form of this digest.
    pub fn to_hex(&self) -> (s: String)
        ensures
            s@ == hex_text(word_bytes(self@)),
    {
        let b = self.to_bytes();
        let ghost bs = b@;
        let mut s = String::new();
        let mut i: usize = 0;
        while i < b.len()
            invariant
                i <= b@.len(),
                bs == b@,
                s@ == hex_text(bs.subrange(0, i as int)),
            decreases b@.len() - i,
        {
            let x = b[i];
            s.append(hex_digit_text(x / 16));
            s.append(hex_digit_text(x % 16));
            i += 1;
            assert(s@ =~= hex_text(bs.subrange(0, i as int)));
        }
        assert(bs.subrange(0, i as int) =~= bs);
        s
    }

    /// Reads a digest from 64 hex digits of either case, with an optional
    /// `0x` prefix.
    pub fn from_hex(s: &str) -> (r: Result<Digest, Error>)
        ensures
            hex_body(s@).len() != 64 ==> r == Err::<Digest, Error>(Error::InvalidHexLength),
            hex_body(s@).len() == 64 && !all_hex_digits(hex_body(s@)) ==> r == Err::<
                Digest,
                Error,
            >(Error::InvalidHexDigit),
            hex_body(s@).len() == 64 && all_hex_digits(hex_body(s@)) ==> (r matches Ok(d)
                && d@ == words_of(hex_decode(hex_body(s@)))),
    {
        let n = s.unicode_len();
        let start: usize = if n >= 2 && s.get_char(0) == '0' && s.get_char(1) == 'x' {
            2
        } else {
            0
        };
        let ghost t = hex_body(s@);
        assert(t =~= s@.subrange(start as int, n as int));
        if n - start != 64 {
            return Err(Error::InvalidHexLength);
        }
        let mut bytes: Vec<u8> = Vec::with_capacity(DIGEST_SIZE);
        let mut i: usize = 0;
        while i < 32
            invariant
                i <= 32,
                n == s@.len(),
                n - start == 64,
                t == s@.subrange(start as int, n as int),
                t == hex_body(s@),
                t.len() == 64,
                bytes@ == hex_decode(t).subrange(0, i as int),
                forall|k: int| 0 <= k < 2 * i ==> is_hex_digit(#[trigger] t[k]),
            decreases 32 - i,
        {
            let hi = hex_digit_value(s.get_char(start + 2 * i));
            let lo = hex_digit_value(s.get_char(start + 2 * i + 1));
            assert(t[2 * i] == s@[start + 2 * i]);
            assert(t[2 * i + 1] == s@[start + 2 * i + 1]);
            match (hi, lo) {
                (Some(h), Some(l)) => {
                    bytes.push(h * 16 + l);
                },
                _ => {
                    assert(!is_hex_digit(t[2 * i]) || !is_hex_digit(t[2 * i + 1]));
                    return Err(Error::InvalidHexDigit);
                },
            }
            i += 1;
            assert(bytes@ =~= hex_decode(t).subrange(0, i as int));
        }
        assert(bytes@ =~= hex_decode(t));
        Ok(from_byte_form(bytes.as_slice()))
    }
}

impl PartialEq for Digest {
    fn eq(&self, other: &Digest) -> (r: bool) {
        proof {
            Digest::lemma_len(*self);
            Digest::lemma_len(*other);
        }
        let mut i: usize = 0;
        while i < 8
            invariant
                i <= 8,
                self@.len() == 8,
                other@.len() == 8,
                forall|k: int| 0 <= k < i ==> self@[k] == other@[k],
            decreases 8 - i,
        {
            if self.words[i] != other.words[i] {
                return false;
            }
            i += 1;
        }
        assert(self@ =~= other@);
        true
    }
}

impl vstd::std_specs::cmp::PartialEqSpecImpl for Digest {
    open spec fn obeys_eq_spec() -> bool {
        true
    }

    open spec fn eq_spec(&self, other: &Digest) -> bool {
        self@ == other@
    }
}

impl Eq for Digest {

}

/// Two digests computed from equal inputs are equal: hashing is a function
/// of the input bytes alone.
pub proof fn lemma_digest_deterministic(a: Seq<u8>, b: Seq<u8>, da: Digest, db: Digest)
    requires
        a == b,
        da@ == sha256(a),
        db@ == sha256(b),
    ensures
        da == db,
{
    Digest::lemma_view_eq(da, db);
}

/// Computes the digest of `data`.
pub fn digest(data: &[u8]) -> (d: Digest)
    ensures
        d@ == sha256(data@),
{
    Digest { words: sha256_words(data) }
}

} // verus!
