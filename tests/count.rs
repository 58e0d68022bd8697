use rwc::count::{
    accumulate, count_bytes, count_bytes_chars_words_lines, count_bytes_lines,
    count_bytes_words_lines, count_readable, select_strategy, CharCounter, Count, Counts,
    Strategy,
};
use rwc::error::Error;

const EMOJI_TEXT: &str =
    "hello😀😃😄😁😆😅😂🤣😀😃😄😁 hello world 12345\n67890😀 😃 😄 😁";

fn chunks_of(text: &[u8], size: usize) -> Vec<Vec<u8>> {
    text.chunks(size).map(|c| c.to_vec()).collect()
}

#[test]
fn test_count_bytes_words_lines() {
    let chunks = chunks_of(EMOJI_TEXT.as_bytes(), 10);
    let counts = count_bytes_words_lines(&chunks);
    assert_eq!(96, counts.bytes.val.unwrap(),);
    assert_eq!(8, counts.words.val.unwrap(),);
    assert_eq!(1, counts.lines.val.unwrap(),);
}

#[test]
fn test_count_bytes_chars_words_lines() {
    let chunks = chunks_of(EMOJI_TEXT.as_bytes(), 10);
    let counts = count_bytes_chars_words_lines(&chunks).unwrap();
    assert_eq!(96, counts.bytes.val.unwrap(),);
    assert_eq!(48, counts.chars.val.unwrap(),);
    assert_eq!(8, counts.words.val.unwrap(),);
    assert_eq!(1, counts.lines.val.unwrap(),);
}

#[test]
fn test_count_bytes_lines() {
    let chunks = chunks_of(EMOJI_TEXT.as_bytes(), 10);
    let counts = count_bytes_lines(&chunks);
    assert_eq!(96, counts.bytes.val.unwrap(),);
    assert_eq!(1, counts.lines.val.unwrap(),);
}

#[test]
fn test_count_bytes() {
    let counts = count_bytes(1048697);
    assert_eq!(counts.bytes.val.unwrap(), 1048697);
    assert_eq!(counts.chars.val, None);
    assert_eq!(counts.words.val, None);
    assert_eq!(counts.lines.val, None);
}

#[test]
fn adding_counts() {
    let n = 1;
    let c = Count { val: Some(2) };
    assert_eq!(accumulate(n, c), 3);

    let c = Count { val: None };
    assert_eq!(accumulate(n, c), 1);
}

#[test]
fn chunk_size_does_not_change_counts() {
    let text = EMOJI_TEXT.as_bytes();
    for size in [1usize, 2, 3, 7, 96, 1000] {
        let chunks = chunks_of(text, size);
        let c = count_bytes_chars_words_lines(&chunks).unwrap();
        assert_eq!(c.bytes.val, Some(96));
        assert_eq!(c.chars.val, Some(48));
        assert_eq!(c.words.val, Some(8));
        assert_eq!(c.lines.val, Some(1));
    }
}

#[test]
fn all_strategies_agree_on_bytes() {
    let text = "this is some text\nthis is another line".as_bytes();
    let chunks = chunks_of(text, 5);
    let a = count_bytes_words_lines(&chunks).bytes.val;
    let b = count_bytes_lines(&chunks).bytes.val;
    let c = count_bytes_chars_words_lines(&chunks).unwrap().bytes.val;
    let d = count_bytes(text.len()).bytes.val;
    assert_eq!(a, Some(38));
    assert_eq!(b, Some(38));
    assert_eq!(c, Some(38));
    assert_eq!(d, Some(38));
}

#[test]
fn ascii_words_and_lines_agree() {
    let text = " one  two\tthree\r\nfour\x0cfive \n\nsix".as_bytes();
    let chunks = chunks_of(text, 4);
    let scan = count_bytes_words_lines(&chunks);
    let decode = count_bytes_chars_words_lines(&chunks).unwrap();
    assert_eq!(scan.words, decode.words);
    assert_eq!(scan.lines, decode.lines);
    assert_eq!(scan.words.val, Some(6));
    assert_eq!(scan.lines.val, Some(3));
    assert_eq!(decode.chars.val, Some(text.len()));
}

#[test]
fn counting_twice_gives_the_same_counts() {
    let chunks = chunks_of(EMOJI_TEXT.as_bytes(), 10);
    assert_eq!(count_bytes_words_lines(&chunks), count_bytes_words_lines(&chunks));
    assert_eq!(count_bytes_lines(&chunks), count_bytes_lines(&chunks));
    let a = count_bytes_chars_words_lines(&chunks).unwrap();
    let b = count_bytes_chars_words_lines(&chunks).unwrap();
    assert_eq!(a, b);
}

#[test]
fn trailing_word_is_counted_once() {
    let text = "this is some text\nthis is another line".as_bytes();
    let c = count_bytes_words_lines(&chunks_of(text, 1048576));
    assert_eq!(c.words.val, Some(8));
    assert_eq!(c.lines.val, Some(1));
    assert_eq!(c.bytes.val, Some(38));
    let text = "this is some text\nthis is another line\n".as_bytes();
    let c = count_bytes_words_lines(&chunks_of(text, 3));
    assert_eq!(c.words.val, Some(8));
    assert_eq!(c.lines.val, Some(2));
}

#[test]
fn empty_stream_counts_zero() {
    let none: Vec<Vec<u8>> = Vec::new();
    let c = count_bytes_chars_words_lines(&none).unwrap();
    assert_eq!(c.bytes.val, Some(0));
    assert_eq!(c.chars.val, Some(0));
    assert_eq!(c.words.val, Some(0));
    assert_eq!(c.lines.val, Some(0));
    let c = count_bytes_words_lines(&none);
    assert_eq!(c.words.val, Some(0));
}

#[test]
fn invalid_utf8_is_an_error() {
    let chunks = vec![b"abc".to_vec(), vec![0xff, b'd']];
    assert!(matches!(count_bytes_chars_words_lines(&chunks), Err(Error::UTF8())));
}

#[test]
fn truncated_character_at_end_is_an_error() {
    let bytes = "a😀".as_bytes();
    let chunks = vec![bytes[..bytes.len() - 1].to_vec()];
    assert!(matches!(count_bytes_chars_words_lines(&chunks), Err(Error::UTF8())));
}

#[test]
fn character_split_across_chunks_is_joined() {
    let mut c = CharCounter::new();
    let bytes = "é x".as_bytes();
    assert!(c.feed(&bytes[..1]).is_ok());
    assert!(c.feed(&bytes[1..]).is_ok());
    let counts = c.finish().unwrap();
    assert_eq!(counts.bytes.val, Some(4));
    assert_eq!(counts.chars.val, Some(3));
    assert_eq!(counts.words.val, Some(2));
}

#[test]
fn strategy_selection_follows_requested_metrics() {
    assert_eq!(select_strategy(true, false, false, false, true), Strategy::LengthLookup);
    assert_eq!(select_strategy(true, false, false, false, false), Strategy::WordsLines);
    assert_eq!(select_strategy(false, true, false, false, true), Strategy::DecodeCount);
    assert_eq!(select_strategy(true, false, false, true, true), Strategy::LinesOnly);
    assert_eq!(select_strategy(true, false, true, true, true), Strategy::WordsLines);
    assert_eq!(select_strategy(false, false, true, false, false), Strategy::WordsLines);
}

#[test]
fn count_readable_picks_the_strategy() {
    let chunks = chunks_of(EMOJI_TEXT.as_bytes(), 10);
    let lines_only = count_readable(&chunks, true, false, false, true).unwrap();
    assert_eq!(lines_only.words.val, None);
    assert_eq!(lines_only.lines.val, Some(1));
    let all = count_readable(&chunks, true, true, true, true).unwrap();
    assert_eq!(all.chars.val, Some(48));
    let default: Counts = count_readable(&chunks, true, false, true, true).unwrap();
    assert_eq!(default.words.val, Some(8));
    assert_eq!(default.chars.val, None);
}

#[test]
fn count_display() {
    assert_eq!(Count { val: Some(0) }.display(), "0");
    assert_eq!(Count { val: Some(1048697) }.display(), "1048697");
    assert_eq!(Count { val: None }.display(), "N/A");
}

#[test]
fn error_conversions() {
    let e = Error::from(String::from("bad"));
    assert!(matches!(e, Error::CUSTOM(ref s) if s == "bad"));
    let e = Error::from(vec![Error::UTF8()]);
    assert!(matches!(e, Error::MANY(ref v) if v.len() == 1));
    let e = Error::from(std::io::Error::new(std::io::ErrorKind::Other, "x"));
    assert!(matches!(e, Error::IO(_)));
}
