use chtxt::models::ChangeSubject;
use chtxt::session::{agrees, change_count_of, trim_chars, TargetKind};

fn s(x: &str) -> String {
    x.to_string()
}

#[test]
fn directory_subjects() {
    assert_eq!(ChangeSubject::All.target_kind(), TargetKind::Directory);
    assert_eq!(ChangeSubject::All.target_paths(), vec![Vec::<String>::new()]);
    let d = ChangeSubject::AllBackDir(s("../../"));
    assert_eq!(d.target_kind(), TargetKind::Directory);
    assert_eq!(d.target_paths(), vec![vec![s("../../")]]);
    let f = ChangeSubject::AllForwardDir(s("src/"));
    assert_eq!(f.target_paths(), vec![vec![s("src/")]]);
}

#[test]
fn single_file_subjects() {
    let f = ChangeSubject::SingularBackDir(s("../"), s("a.txt"));
    assert_eq!(f.target_kind(), TargetKind::SingleFile);
    assert_eq!(f.target_paths(), vec![vec![s("../"), s("a.txt")]]);
    assert_eq!(ChangeSubject::Singular(s("b")).target_paths(), vec![vec![s("b")]]);
}

#[test]
fn several_file_subjects() {
    let m = ChangeSubject::Multiple(vec![s("a"), s("b")]);
    assert_eq!(m.target_kind(), TargetKind::EachFile);
    assert_eq!(m.target_paths(), vec![vec![s("a")], vec![s("b")]]);
    let b = ChangeSubject::MultipleBackDir(s("../"), vec![s("a"), s("b")]);
    assert_eq!(b.target_paths(), vec![vec![s("../"), s("a")], vec![s("../"), s("b")]]);
}

#[test]
fn every_file_changes_without_extensions() {
    assert_eq!(change_count_of(&vec![], None), 1);
    assert_eq!(change_count_of(&vec![], Some(&s("rs"))), 1);
}

#[test]
fn only_files_with_an_allowed_extension_change() {
    let exts = vec![s("js"), s("css")];
    assert_eq!(change_count_of(&exts, Some(&s("js"))), 1);
    assert_eq!(change_count_of(&exts, Some(&s("rs"))), 0);
    assert_eq!(change_count_of(&exts, None), 0);
    let twice = vec![s("js"), s("js")];
    assert_eq!(change_count_of(&twice, Some(&s("js"))), 2);
}

#[test]
fn agreement_answers() {
    for a in ["y", "e", "j", "y\n", "  j \r\n", "\u{3000}e\u{85}"] {
        assert!(agrees(&s(a)), "{:?}", a);
    }
    for a in ["", "n", "yes", "Y", "y y", "\n"] {
        assert!(!agrees(&s(a)), "{:?}", a);
    }
}

#[test]
fn trimming_agrees_with_str_trim() {
    for a in ["", "  ", " a b ", "\t\nx\u{2028}", "\u{a0}y\u{200a}z\u{feff}"] {
        let got: String = trim_chars(&a.chars().collect::<Vec<char>>()).into_iter().collect();
        assert_eq!(got, a.trim());
    }
}
