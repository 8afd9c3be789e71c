use chtxt::matching::{replace_bytes, replace_in_buffer};
use chtxt::replacer::{choose_strategy, replace_content_directly, ReplaceStrategy};
use chtxt::stream::{stream_replace, StreamReplacer};

#[test]
fn replaces_every_match() {
    assert_eq!(replace_bytes(b"hello big hello", b"hello", b"world"), b"world big world".to_vec());
}

#[test]
fn leaves_content_without_match() {
    assert_eq!(replace_bytes(b"nothing here", b"hello", b"world"), b"nothing here".to_vec());
}

#[test]
fn matches_do_not_overlap() {
    assert_eq!(replace_bytes(b"aaa", b"aa", b"X"), b"Xa".to_vec());
    assert_eq!(replace_bytes(b"aaaa", b"aa", b"b"), b"bb".to_vec());
}

#[test]
fn replacement_may_hold_the_pattern() {
    assert_eq!(replace_bytes(b"ab", b"a", b"aa"), b"aab".to_vec());
}

#[test]
fn empty_pattern_goes_between_characters() {
    assert_eq!(replace_bytes(b"abc", b"", b"x"), "abc".replace("", "x").into_bytes());
    let s = "é1ü";
    assert_eq!(replace_bytes(s.as_bytes(), b"", b"-"), s.replace("", "-").into_bytes());
    assert_eq!(replace_bytes(b"", b"", b"x"), b"x".to_vec());
}

#[test]
fn agrees_with_text_replacement() {
    let cases = [
        ("the cat sat on the mat", "at", "og"),
        ("äöü äöü", "öü", "ß"),
        ("aaaaa", "aa", ""),
        ("", "a", "b"),
        ("abc", "abcd", "x"),
    ];
    for (s, from, to) in cases {
        assert_eq!(replace_bytes(s.as_bytes(), from.as_bytes(), to.as_bytes()), s.replace(from, to).into_bytes());
    }
}

#[test]
fn replaces_in_place_with_equal_length() {
    let mut buffer = b"one two one".to_vec();
    replace_in_buffer(&mut buffer, b"one", b"six");
    assert_eq!(buffer, b"six two six".to_vec());
}

#[test]
fn in_place_leaves_different_lengths_alone() {
    let mut buffer = b"one two one".to_vec();
    replace_in_buffer(&mut buffer, b"one", b"three");
    assert_eq!(buffer, b"one two one".to_vec());
    let mut buffer = b"abc".to_vec();
    replace_in_buffer(&mut buffer, b"", b"x");
    assert_eq!(buffer, b"abc".to_vec());
}

#[test]
fn in_place_matches_do_not_overlap() {
    let mut buffer = b"aaa".to_vec();
    replace_in_buffer(&mut buffer, b"aa", b"bb");
    assert_eq!(buffer, b"bba".to_vec());
}

#[test]
fn streaming_finds_matches_across_chunks() {
    let chunks = vec![b"xx hel".to_vec(), b"lo wor".to_vec(), b"ld hello".to_vec()];
    assert_eq!(stream_replace(&chunks, "hello", "bye"), b"xx bye world bye".to_vec());
}

#[test]
fn streaming_keeps_a_held_back_tail() {
    let chunks = vec![b"abc hel".to_vec()];
    assert_eq!(stream_replace(&chunks, "hello", "bye"), b"abc hel".to_vec());
}

#[test]
fn streaming_agrees_with_whole_replacement_for_every_cut() {
    let content = "hello hellhello hello, héllo".as_bytes();
    for (from, to) in [("hello", "X"), ("ll", "LLL"), ("", "|"), ("é", "e")] {
        let whole = replace_bytes(content, from.as_bytes(), to.as_bytes());
        for size in 1..content.len() + 2 {
            let chunks: Vec<Vec<u8>> = content.chunks(size).map(|c| c.to_vec()).collect();
            assert_eq!(stream_replace(&chunks, from, to), whole);
        }
    }
}

#[test]
fn streaming_of_nothing() {
    assert_eq!(stream_replace(&Vec::new(), "a", "b"), Vec::<u8>::new());
    assert_eq!(stream_replace(&Vec::new(), "", "b"), b"b".to_vec());
}

#[test]
fn replacer_holds_back_a_possible_match() {
    let mut r = StreamReplacer::new("ab", "X");
    assert_eq!(r.feed(b"xa"), b"x".to_vec());
    assert_eq!(r.feed(b"by"), b"X".to_vec());
    assert_eq!(r.finish(), b"y".to_vec());
}

#[test]
fn replacer_gives_back_an_unfinished_match() {
    let mut r = StreamReplacer::new("abc", "X");
    assert_eq!(r.feed(b"zab"), b"z".to_vec());
    assert_eq!(r.finish(), b"ab".to_vec());
}

#[test]
fn direct_replacement_of_text() {
    assert_eq!(replace_content_directly(b"hello world", "hello", "bye"), b"bye world".to_vec());
}

#[test]
fn direct_replacement_keeps_invalid_bytes() {
    assert_eq!(replace_content_directly(&[0x68, 0xff, 0x69], "i", "o"), vec![0x68, 0xff, 0x6f]);
    assert_eq!(replace_content_directly(&[0xff], "a", "a"), vec![0xff]);
}

#[test]
fn both_strategies_agree_on_any_bytes() {
    let content = [0x68u8, 0xff, 0x69, 0xc3, 0x69, 0x80, 0x68, 0x69];
    for (from, to) in [("i", "o"), ("hi", "X"), ("", "_")] {
        let direct = replace_content_directly(&content, from, to);
        for size in 1..content.len() + 1 {
            let chunks: Vec<Vec<u8>> = content.chunks(size).map(|c| c.to_vec()).collect();
            assert_eq!(stream_replace(&chunks, from, to), direct);
        }
    }
}

#[test]
fn large_files_are_streamed() {
    assert_eq!(choose_strategy(8193, 8192), ReplaceStrategy::Streaming);
    assert_eq!(choose_strategy(8192, 8192), ReplaceStrategy::Directly);
    assert_eq!(choose_strategy(0, 0), ReplaceStrategy::Directly);
}

#[test]
fn replacing_by_itself_changes_nothing() {
    for (s, p) in [("abcabc", "bc"), ("aaa", "aa"), ("héllo", ""), ("", "x")] {
        assert_eq!(replace_bytes(s.as_bytes(), p.as_bytes(), p.as_bytes()), s.as_bytes().to_vec());
    }
}

#[test]
fn equal_length_replacement_keeps_length() {
    let s = "one two one three";
    assert_eq!(replace_bytes(s.as_bytes(), b"one", b"six").len(), s.len());
    assert_eq!(replace_bytes(s.as_bytes(), b"", b"").len(), s.len());
}

#[test]
fn both_strategies_agree_on_text() {
    let content = "hello wörld, hello again\nhello".as_bytes();
    for (from, to) in [("hello", "bye"), ("ö", "oe"), ("", "_")] {
        let direct = replace_content_directly(content, from, to);
        for size in [1, 2, 5, 64] {
            let chunks: Vec<Vec<u8>> = content.chunks(size).map(|c| c.to_vec()).collect();
            assert_eq!(stream_replace(&chunks, from, to), direct);
        }
    }
}
