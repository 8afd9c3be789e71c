use chtxt::args::{ArgCapture, CaptureStep};
use chtxt::models::{ArgumentCapturingPhase, ChangeSubject};
use chtxt::number::parse_u64;

fn chars(s: &str) -> Vec<char> {
    s.chars().collect()
}

/// Takes the arguments in turn, writing the subject out as `text` where asked.
fn capture_all(args: &[&str], text: &str) -> (ArgCapture, CaptureStep) {
    let mut c = ArgCapture::new();
    let mut last = CaptureStep::Continue;
    for (index, arg) in args.iter().enumerate() {
        let arg = arg.to_string();
        let mut step = c.capture(index, &arg, None);
        if step == CaptureStep::SubjectTextNeeded {
            step = c.capture(index, &arg, Some(text.to_string()));
        }
        last = step;
        match step {
            CaptureStep::Continue | CaptureStep::NoticeEmptyReplacement => {},
            _ => break,
        }
    }
    (c, last)
}

#[test]
fn defaults() {
    let c = ArgCapture::new();
    assert_eq!(c.threshold, 8192);
    assert_eq!(c.buffer_size, 65536);
    assert_eq!(c.subject, ChangeSubject::All);
    assert_eq!(c.phase, ArgumentCapturingPhase::Normal);
    assert!(c.extensions.is_empty());
}

#[test]
fn pattern_and_replacement_in_current_directory() {
    let (c, step) = capture_all(&["chtxt", "hello", "world"], "");
    assert_eq!(step, CaptureStep::Continue);
    assert_eq!(c.from, "hello");
    assert_eq!(c.to, "world");
    assert_eq!(c.subject, ChangeSubject::All);
}

#[test]
fn parent_directory() {
    let (c, _) = capture_all(&["chtxt", "hello", "world", "../"], "");
    assert_eq!(c.subject, ChangeSubject::AllBackDir("../".to_string()));
}

#[test]
fn file_in_current_directory() {
    let (c, _) = capture_all(&["chtxt", "hello", "world", "blabla"], "");
    assert_eq!(c.subject, ChangeSubject::Singular("blabla".to_string()));
}

#[test]
fn file_in_parent_directory() {
    let (c, _) = capture_all(&["chtxt", "hello", "world", "../blabla"], "");
    assert_eq!(c.subject, ChangeSubject::SingularBackDir("../".to_string(), "blabla".to_string()));
    let (c, _) = capture_all(&["chtxt", "hello", "world", "../../a/b"], "");
    assert_eq!(c.subject, ChangeSubject::SingularBackDir("../../".to_string(), "a/b".to_string()));
}

#[test]
fn forward_directory_and_dotted_file() {
    let (c, _) = capture_all(&["chtxt", "a", "b", "./src/"], "");
    assert_eq!(c.subject, ChangeSubject::AllForwardDir("src/".to_string()));
    let (c, _) = capture_all(&["chtxt", "a", "b", "./src/*"], "");
    assert_eq!(c.subject, ChangeSubject::AllForwardDir("src/*".to_string()));
    let (c, _) = capture_all(&["chtxt", "a", "b", "./main.rs"], "");
    assert_eq!(c.subject, ChangeSubject::Singular("main.rs".to_string()));
}

#[test]
fn current_directory_spelled_out() {
    for target in ["", "*", "./*", "./", "."] {
        let (c, step) = capture_all(&["chtxt", "a", "b", target], "");
        assert_eq!(step, CaptureStep::Continue);
        assert_eq!(c.subject, ChangeSubject::All);
    }
}

#[test]
fn delete_flags_give_empty_replacement() {
    for flag in ["--empty", "--delete", "-empty", "-delete", "-e", "-d"] {
        let (c, _) = capture_all(&["chtxt", "hello", flag, "blabla"], "");
        assert_eq!(c.to, "");
        assert_eq!(c.subject, ChangeSubject::Singular("blabla".to_string()));
    }
}

#[test]
fn empty_replacement_is_noticed() {
    let mut c = ArgCapture::new();
    assert_eq!(c.capture(1, &"hello".to_string(), None), CaptureStep::Continue);
    assert_eq!(c.capture(2, &"".to_string(), None), CaptureStep::NoticeEmptyReplacement);
    assert_eq!(c.to, "");
}

#[test]
fn empty_pattern_is_refused() {
    let (c, step) = capture_all(&["chtxt", "", "world"], "");
    assert_eq!(step, CaptureStep::RejectEmptyPattern);
    assert_eq!(c.from, "");
}

#[test]
fn options_stop_the_reading() {
    for flag in ["--opt", "--options"] {
        let (c, step) = capture_all(&["chtxt", flag, "world"], "");
        assert_eq!(step, CaptureStep::ShowOptions);
        assert_eq!(c.phase, ArgumentCapturingPhase::Options);
        assert_eq!(c.to, "");
    }
}

#[test]
fn several_files() {
    let (c, _) = capture_all(&["chtxt", "hello", "world", "./a/b", "./a/c", "d"], "/here/a/b");
    assert_eq!(
        c.subject,
        ChangeSubject::Multiple(vec!["/here/a/b".to_string(), "./a/c".to_string(), "d".to_string()])
    );
}

#[test]
fn second_file_asks_for_the_subject_text() {
    let mut c = ArgCapture::new();
    c.capture(1, &"a".to_string(), None);
    c.capture(2, &"b".to_string(), None);
    c.capture(3, &"x".to_string(), None);
    assert_eq!(c.capture(4, &"y".to_string(), None), CaptureStep::SubjectTextNeeded);
    assert_eq!(c.subject, ChangeSubject::Singular("x".to_string()));
    assert_eq!(c.capture(4, &"y".to_string(), Some("/w/x".to_string())), CaptureStep::Continue);
    assert_eq!(c.subject, ChangeSubject::Multiple(vec!["/w/x".to_string(), "y".to_string()]));
}

#[test]
fn several_files_in_parent_directory() {
    let (c, _) = capture_all(&["chtxt", "hello", "world", "../a", "../b", "../c"], "/p/a");
    assert_eq!(
        c.subject,
        ChangeSubject::MultipleBackDir(
            "../".to_string(),
            vec!["/p/a".to_string(), "b".to_string(), "../c".to_string()]
        )
    );
}

#[test]
fn extensions_with_and_without_dots() {
    let (c, _) = capture_all(&["chtxt", "a", "b", "--ext", "js", "css", "html"], "");
    assert_eq!(c.extensions, vec!["js".to_string(), "css".to_string(), "html".to_string()]);
    let (d, _) = capture_all(&["chtxt", "a", "b", "--extensions", ".js", ".css", ".html"], "");
    assert_eq!(d.extensions, c.extensions);
    assert_eq!(d.phase, ArgumentCapturingPhase::AllowedExtensions);
}

#[test]
fn extensions_after_a_file() {
    let (c, _) = capture_all(&["chtxt", "a", "b", "f.txt", "--extension", "txt", "--x", "md"], "");
    assert_eq!(c.subject, ChangeSubject::Singular("f.txt".to_string()));
    assert_eq!(c.extensions, vec!["txt".to_string(), "md".to_string()]);
}

#[test]
fn buffering_threshold() {
    let (c, step) = capture_all(&["chtxt", "a", "b", "--bt", "8388608"], "");
    assert_eq!(step, CaptureStep::Continue);
    assert_eq!(c.threshold, 8388608);
    let (c, _) = capture_all(&["chtxt", "a", "b", "f", "--buffering-threshold", "+12"], "");
    assert_eq!(c.threshold, 12);
}

#[test]
fn invalid_threshold_stops() {
    let (c, step) = capture_all(&["chtxt", "a", "b", "--bt", "8k"], "");
    assert_eq!(step, CaptureStep::RejectThreshold);
    assert_eq!(c.threshold, 8192);
}

#[test]
fn buffer_size() {
    let (c, _) = capture_all(&["chtxt", "a", "b", "--bs", "16384"], "");
    assert_eq!(c.buffer_size, 16384);
    let (c, step) = capture_all(&["chtxt", "a", "b", "--buffer-size", "-1"], "");
    assert_eq!(step, CaptureStep::RejectBufferSize);
    assert_eq!(c.buffer_size, 65536);
}

#[test]
fn decimal_numbers() {
    assert_eq!(parse_u64(&chars("0")), Some(0));
    assert_eq!(parse_u64(&chars("+5")), Some(5));
    assert_eq!(parse_u64(&chars("007")), Some(7));
    assert_eq!(parse_u64(&chars("18446744073709551615")), Some(u64::MAX));
    for s in ["", "+", "-1", " 1", "1 ", "18446744073709551616", "1_000", "++1", "٣"] {
        assert_eq!(parse_u64(&chars(s)), None, "{:?}", s);
        assert_eq!(s.parse::<u64>().ok(), None);
    }
    for s in ["0", "+5", "007", "18446744073709551615", "99999"] {
        assert_eq!(parse_u64(&chars(s)), s.parse::<u64>().ok());
    }
}

#[test]
fn later_arguments_keep_pattern_and_replacement() {
    let (c, _) = capture_all(&["chtxt", "a", "b", "x", "y", "--ext", "a", "b", "--bt", "7"], "/x");
    assert_eq!(c.from, "a");
    assert_eq!(c.to, "b");
    assert_eq!(c.threshold, 7);
    assert_eq!(c.extensions, vec!["a".to_string(), "b".to_string()]);
}
