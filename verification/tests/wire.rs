use fast_gpt2::trace::Trace;
use fast_gpt2::wire::{from_memory, parse_reply, request_text, to_memory, ReplyError, REMOTE_WIDTH};

fn marks(n: usize) -> Vec<Trace> {
    (0..n).map(|i| Trace { mark: (i as u32).wrapping_mul(0x01a2_b3c4) }).collect()
}

fn values(traces: &[Trace]) -> Vec<u32> {
    traces.iter().map(|t| t.mark).collect()
}

#[test]
fn memory_of_numbers() {
    let bytes = to_memory(&[Trace { mark: 0x0403_0201 }, Trace { mark: 0xff }]);
    assert_eq!(bytes, vec![1, 2, 3, 4, 255, 0, 0, 0]);
    let back: Vec<Trace> = from_memory(&bytes, 2);
    assert_eq!(values(&back), vec![0x0403_0201, 0xff]);
}

#[test]
fn numbers_beyond_the_bytes_are_those_of_zero_bytes() {
    let read: Vec<Trace> = from_memory(&[7, 0, 0, 0, 1, 2, 3], 3);
    assert_eq!(values(&read), vec![7, 0, 0]);
}

#[test]
fn request_is_lowercase_hex() {
    let mut numbers = vec![Trace { mark: 0 }; REMOTE_WIDTH];
    numbers[0] = Trace { mark: 0x1fe0_9abc };
    let text = request_text(&numbers);
    assert_eq!(text.len(), 8 * REMOTE_WIDTH);
    assert_eq!(&text[..10], "bc9ae01f00");
}

#[test]
fn request_is_read_back_after_any_prefix() {
    let numbers = marks(REMOTE_WIDTH);
    let reply = format!("0x{}", request_text(&numbers));
    let read: Vec<Trace> = parse_reply(reply.as_bytes()).unwrap();
    assert_eq!(values(&read), values(&numbers));
    let upper = format!("??{}", request_text(&numbers).to_uppercase());
    let read: Vec<Trace> = parse_reply(upper.as_bytes()).unwrap();
    assert_eq!(values(&read), values(&numbers));
}

#[test]
fn short_reply_is_filled_up() {
    let read: Vec<Trace> = parse_reply(b"0x05000000aB").unwrap();
    assert_eq!(read.len(), REMOTE_WIDTH);
    assert_eq!(read[0].mark, 5);
    assert!(read[1..].iter().all(|t| t.mark == 0));
    let read: Vec<Trace> = parse_reply(b"0x").unwrap();
    assert!(read.iter().all(|t| t.mark == 0));
}

#[test]
fn reply_without_prefix_is_too_short() {
    assert_eq!(parse_reply::<Trace>(b"").err(), Some(ReplyError::TooShort));
    assert_eq!(parse_reply::<Trace>(b"0").err(), Some(ReplyError::TooShort));
}

#[test]
fn reply_that_is_not_hex_is_refused() {
    assert_eq!(parse_reply::<Trace>(b"0x0").err(), Some(ReplyError::NotHex));
    assert_eq!(parse_reply::<Trace>(b"0xg0").err(), Some(ReplyError::NotHex));
    assert_eq!(parse_reply::<Trace>(b"0x0 ").err(), Some(ReplyError::NotHex));
}
