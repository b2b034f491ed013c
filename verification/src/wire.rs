//! Numbers as text, for a remote peer: the bytes that hold them in memory, two hexadecimal digits
//! each.
use crate::scalar::Scalar;
use vstd::prelude::*;
use vstd::slice::slice_subrange;

verus! {

/// How many numbers a message holds.
pub const REMOTE_WIDTH: usize = 768;

/// The error of `hex::decode`.
#[verifier::external_type_specification]
#[verifier::external_body]
pub struct ExFromHexError(hex::FromHexError);

/// The hexadecimal digit that stands for `d`.
pub open spec fn digit(d: int) -> char {
    if d < 10 {
        (48 + d) as char
    } else {
        (87 + d) as char
    }
}

/// Bytes as text: for each byte the digit of its upper and that of its lower half.
pub open spec fn hex_text(bytes: Seq<u8>) -> Seq<char> {
    Seq::new(
        2 * bytes.len(),
        |i: int|
            digit(
                if i % 2 == 0 {
                    bytes[i / 2] as int / 16
                } else {
                    bytes[i / 2] as int % 16
                },
            ),
    )
}

/// Whether a character is a hexadecimal digit of either case.
pub open spec fn is_digit(c: u8) -> bool {
    48 <= c <= 57 || 65 <= c <= 70 || 97 <= c <= 102
}

/// What a hexadecimal digit stands for.
pub open spec fn digit_value(c: u8) -> int {
    if c <= 57 {
        c - 48
    } else if c <= 70 {
        c - 55
    } else {
        c - 87
    }
}

/// The bytes that a text of hexadecimal digits holds, if it is one.
pub open spec fn hex_bytes(text: Seq<u8>) -> Option<Seq<u8>> {
    if text.len() % 2 == 0 && (forall|i: int| 0 <= i < text.len() ==> is_digit(#[trigger] text[i])) {
        Some(
            Seq::new(
                (text.len() / 2) as nat,
                |i: int| (16 * digit_value(text[2 * i]) + digit_value(text[2 * i + 1])) as u8,
            ),
        )
    } else {
        None
    }
}

/// `hex::encode`: two lowercase digits for each byte, the upper half first. The text has to fit in
/// memory.
#[verifier::external_body]
fn hex_encode(bytes: &[u8]) -> (r: String)
    requires
        2 * bytes@.len() <= isize::MAX,
    ensures
        r@ == hex_text(bytes@),
{
    hex::encode(bytes)
}

/// `hex::decode`: succeeds on an even number of digits, of either case, with the byte that each pair
/// of them stands for, and fails on everything else.
#[verifier::external_body]
fn hex_decode(text: &[u8]) -> (r: Result<Vec<u8>, hex::FromHexError>)
    ensures
        r matches Ok(v) ==> hex_bytes(text@) == Some(v@),
        r is Err ==> hex_bytes(text@) is None,
{
    hex::decode(text)
}

/// The bytes that hold numbers in memory.
pub open spec fn memory<S: Scalar>(values: Seq<S>) -> Seq<u8> {
    Seq::new(4 * values.len(), |i: int| values[i / 4].encoded()[i % 4])
}

/// The number that four bytes hold, from `at` on; with fewer than four left, that of four zero bytes.
pub open spec fn number_at<S: Scalar>(bytes: Seq<u8>, at: int) -> S {
    if at + 3 < bytes.len() {
        S::decoded([bytes[at], bytes[at + 1], bytes[at + 2], bytes[at + 3]])
    } else {
        S::decoded([0, 0, 0, 0])
    }
}

/// The first `n` numbers that bytes hold.
pub open spec fn numbers<S: Scalar>(bytes: Seq<u8>, n: nat) -> Seq<S> {
    Seq::new(n, |i: int| number_at::<S>(bytes, 4 * i))
}

/// Why a reply holds no numbers.
#[derive(Clone, Copy, Debug, PartialEq, Eq, Structural)]
pub enum ReplyError {
    /// It is shorter than its two-character prefix.
    TooShort,
    /// What follows the prefix is not a text of hexadecimal digits.
    NotHex,
}

/// The numbers that a reply holds after its two-character prefix.
pub open spec fn reply_numbers<S: Scalar>(reply: Seq<u8>) -> Result<Seq<S>, ReplyError> {
    if reply.len() < 2 {
        Err(ReplyError::TooShort)
    } else {
        match hex_bytes(reply.skip(2)) {
            Some(bytes) => Ok(numbers::<S>(bytes, REMOTE_WIDTH as nat)),
            None => Err(ReplyError::NotHex),
        }
    }
}

/// The bytes that hold `values` in memory.
pub fn to_memory<S: Scalar>(values: &[S]) -> (r: Vec<u8>)
    ensures
        r@ == memory(values@),
{
    let ghost whole = memory(values@);
    let mut out: Vec<u8> = Vec::new();
    let mut i: usize = 0;
    while i < values.len()
        invariant
            i <= values@.len(),
            whole == memory(values@),
            out@ == whole.take(4 * i),
        decreases values@.len() - i,
    {
        let part = values[i].to_bytes();
        out.push(part[0]);
        out.push(part[1]);
        out.push(part[2]);
        out.push(part[3]);
        assert(out@ =~= whole.take(4 * (i + 1)));
        i += 1;
    }
    assert(whole.take(4 * i) =~= whole);
    out
}

/// The text that sends `values`.
pub fn request_text<S: Scalar>(values: &[S]) -> (r: String)
    requires
        values@.len() == REMOTE_WIDTH,
    ensures
        r@ == hex_text(memory(values@)),
{
    let bytes = to_memory(values);
    hex_encode(bytes.as_slice())
}

/// The first `count` numbers that `bytes` hold.
pub fn from_memory<S: Scalar>(bytes: &[u8], count: usize) -> (r: Vec<S>)
    requires
        4 * count <= usize::MAX,
    ensures
        r@ == numbers::<S>(bytes@, count as nat),
{
    let ghost whole = numbers::<S>(bytes@, count as nat);
    let len: usize = bytes.len();
    let mut out: Vec<S> = Vec::with_capacity(count);
    let mut i: usize = 0;
    while i < count
        invariant
            i <= count,
            4 * count <= usize::MAX,
            len == bytes@.len(),
            whole == numbers::<S>(bytes@, count as nat),
            out@ == whole.take(i as int),
        decreases count - i,
    {
        let at: usize = 4 * i;
        let part: [u8; 4] = if at + 3 < len {
            [bytes[at], bytes[at + 1], bytes[at + 2], bytes[at + 3]]
        } else {
            [0, 0, 0, 0]
        };
        let value = S::from_bytes(part);
        out.push(value);
        assert(value == whole[i as int]);
        assert(out@ =~= whole.take(i + 1));
        i += 1;
    }
    assert(whole.take(count as int) =~= whole);
    out
}

/// The numbers that `reply` holds.
pub fn parse_reply<S: Scalar>(reply: &[u8]) -> (r: Result<Vec<S>, ReplyError>)
    ensures
        match r {
            Ok(v) => reply_numbers::<S>(reply@) == Ok::<Seq<S>, ReplyError>(v@),
            Err(e) => reply_numbers::<S>(reply@) == Err::<Seq<S>, ReplyError>(e),
        },
{
    if reply.len() < 2 {
        return Err(ReplyError::TooShort);
    }
    let text = slice_subrange(reply, 2, reply.len());
    assert(text@ =~= reply@.skip(2));
    match hex_decode(text) {
        Ok(bytes) => Ok(from_memory(bytes.as_slice(), REMOTE_WIDTH)),
        Err(_) => Err(ReplyError::NotHex),
    }
}

/// Bytes written as hexadecimal digits are read back.
pub proof fn lemma_hex_read_back(bytes: Seq<u8>, text: Seq<u8>)
    requires
        text == hex_text(bytes).map_values(|c: char| c as u8),
    ensures
        hex_bytes(text) == Some(bytes),
{
    assert forall|i: int| 0 <= i < text.len() implies is_digit(#[trigger] text[i]) by {
        assert(0 <= i / 2 < bytes.len());
        lemma_digit_read_back(bytes[i / 2] as int / 16);
        lemma_digit_read_back(bytes[i / 2] as int % 16);
    }
    let read = hex_bytes(text)->0;
    assert forall|i: int| 0 <= i < bytes.len() implies #[trigger] read[i] == bytes[i] by {
        lemma_digit_read_back(bytes[i] as int / 16);
        lemma_digit_read_back(bytes[i] as int % 16);
        assert((2 * i) / 2 == i && (2 * i) % 2 == 0);
        assert((2 * i + 1) / 2 == i && (2 * i + 1) % 2 == 1);
        assert(text[2 * i] == digit(bytes[i] as int / 16) as u8);
        assert(text[2 * i + 1] == digit(bytes[i] as int % 16) as u8);
    }
    assert(read =~= bytes);
}

/// A digit stands for what it was written for.
proof fn lemma_digit_read_back(d: int)
    requires
        0 <= d < 16,
    ensures
        is_digit(digit(d) as u8),
        digit_value(digit(d) as u8) == d,
{
}

/// Numbers are read back from the bytes that hold them in memory.
pub proof fn lemma_memory_read_back<S: Scalar>(values: Seq<S>)
    ensures
        numbers::<S>(memory(values), values.len()) == values,
{
    let bytes = memory(values);
    assert forall|i: int| 0 <= i < values.len() implies #[trigger] numbers::<S>(
        bytes,
        values.len(),
    )[i]
        == values[i] by {
        values[i].lemma_decode_encode();
        let e = values[i].encoded();
        assert(bytes[4 * i] == e[0]);
        assert(bytes[4 * i + 1] == e[1]);
        assert(bytes[4 * i + 2] == e[2]);
        assert(bytes[4 * i + 3] == e[3]);
        assert([bytes[4 * i], bytes[4 * i + 1], bytes[4 * i + 2], bytes[4 * i + 3]] =~= e);
    }
    assert(numbers::<S>(bytes, values.len()) =~= values);
}

/// What is sent can be read back: a reply that repeats a request after any prefix of two characters
/// holds the numbers that were sent.
pub proof fn lemma_request_read_back<S: Scalar>(values: Seq<S>, prefix: Seq<u8>)
    requires
        values.len() == REMOTE_WIDTH,
        prefix.len() == 2,
    ensures
        reply_numbers::<S>(
            prefix + hex_text(memory(values)).map_values(|c: char| c as u8),
        ) == Ok::<Seq<S>, ReplyError>(values),
{
    let text = hex_text(memory(values)).map_values(|c: char| c as u8);
    assert((prefix + text).skip(2) =~= text);
    lemma_hex_read_back(memory(values), text);
    lemma_memory_read_back(values);
}

} // verus!
