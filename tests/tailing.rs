use logplot::tail::{incremental_read_line, Tailer};

fn feed_all(chunks: &[&[u8]]) -> (Vec<String>, Vec<u8>) {
    let mut t = Tailer::new(0);
    let mut lines = Vec::new();
    for c in chunks {
        lines.extend(t.feed(c));
    }
    (lines, t.pending().clone())
}

#[test]
fn lines_split_inclusively() {
    let (lines, rest) = feed_all(&[b"a\nbb\nccc"]);
    assert_eq!(lines, vec!["a\n".to_string(), "bb\n".to_string()]);
    assert_eq!(rest, b"ccc".to_vec());
}

#[test]
fn chunk_boundaries_do_not_matter() {
    let input: &[u8] = b"t=1.0 usage=50\nt=2.0 usage=75\nt=3.0 usa";
    let (whole, whole_rest) = feed_all(&[input]);
    for cut1 in 0..input.len() {
        for cut2 in cut1..input.len() {
            let (lines, rest) = feed_all(&[&input[..cut1], &input[cut1..cut2], &input[cut2..]]);
            assert_eq!(lines, whole);
            assert_eq!(rest, whole_rest);
            let mut joined: Vec<u8> = lines.concat().into_bytes();
            joined.extend_from_slice(&rest);
            assert_eq!(joined, input.to_vec());
        }
    }
}

#[test]
fn partial_line_withheld_until_terminated() {
    let mut t = Tailer::new(0);
    assert!(t.feed(b"half a li").is_empty());
    assert!(t.feed(b"ne").is_empty());
    assert_eq!(t.feed(b"\n"), vec!["half a line\n".to_string()]);
    assert!(t.pending().is_empty());
}

#[test]
fn empty_chunk_yields_nothing() {
    let mut rest = b"abc".to_vec();
    let lines = incremental_read_line(&mut rest, b"");
    assert!(lines.is_empty());
    assert_eq!(rest, b"abc".to_vec());
    let lines = incremental_read_line(&mut rest, b"d\ne");
    assert_eq!(lines, vec!["abcd\n".to_string()]);
    assert_eq!(rest, b"e".to_vec());
}

#[test]
fn invalid_utf8_is_replaced() {
    let mut t = Tailer::new(0);
    let lines = t.feed(b"ok\xff\n");
    assert_eq!(lines, vec!["ok\u{fffd}\n".to_string()]);
}

#[test]
fn multibyte_character_split_across_chunks() {
    let mut t = Tailer::new(0);
    let text = "temp=21\u{b0}C\n".as_bytes();
    let cut = text.iter().position(|b| *b == 0xc2).unwrap() + 1;
    assert!(t.feed(&text[..cut]).is_empty());
    assert_eq!(t.feed(&text[cut..]), vec!["temp=21\u{b0}C\n".to_string()]);
}

#[test]
fn truncation_restarts_without_old_content() {
    let mut t = Tailer::new(0);
    // feed N bytes, the last line unfinished
    let first = t.feed(b"old line\nold unfinished");
    assert_eq!(first, vec!["old line\n".to_string()]);
    assert!(!t.observe_len(23));
    assert_eq!(t.recorded_len(), 23);
    // the file shrinks to M < N
    assert!(t.observe_len(5));
    assert_eq!(t.recorded_len(), 5);
    assert!(t.pending().is_empty());
    // read again from the start: only the new content comes out
    let after = t.feed(b"new\n");
    assert_eq!(after, vec!["new\n".to_string()]);
}

#[test]
fn growing_file_keeps_pending_bytes() {
    let mut t = Tailer::new(10);
    t.feed(b"abc");
    assert!(!t.observe_len(13));
    assert_eq!(t.pending().clone(), b"abc".to_vec());
    assert_eq!(t.feed(b"\n"), vec!["abc\n".to_string()]);
}

#[test]
fn remainder_holding_a_line_feed_is_split() {
    let mut rest = b"a\nb".to_vec();
    let lines = incremental_read_line(&mut rest, b"c\n");
    assert_eq!(lines, vec!["a\n".to_string(), "bc\n".to_string()]);
    assert!(rest.is_empty());
    let mut rest = b"a\nb".to_vec();
    let lines = incremental_read_line(&mut rest, b"\xff\n");
    assert_eq!(lines, vec!["a\n".to_string(), "b\u{fffd}\n".to_string()]);
}

#[test]
fn remainder_joins_the_next_line() {
    let mut rest = b"ab".to_vec();
    let lines = incremental_read_line(&mut rest, b"c\nde");
    assert_eq!(lines, vec!["abc\n".to_string()]);
    assert_eq!(rest, b"de".to_vec());
}
