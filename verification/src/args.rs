use vstd::prelude::*;
use crate::matching::{
    count_matches, ends_with, lemma_leading_match, lemma_nowhere_no_match, lemma_nowhere_unchanged,
    occurs_at, replace_nonempty, starts_with,
};
use crate::models::{strings_view, ArgumentCapturingPhase, ChangeSubject, SubjectModel};
use crate::number::{decimal_u64, parse_u64};
use crate::text::{
    chars_after_first, chars_end_with, chars_eq, chars_of, chars_start_with, count_chars_matches,
    remove_chars_matches, string_of,
};

verus! {

/// What the caller does after an argument was taken.
#[derive(Debug, Clone, Copy, PartialEq, Eq, Structural)]
pub enum CaptureStep {
    /// Go on with the next argument.
    Continue,
    /// The replacement was given empty: tell so, then go on.
    NoticeEmptyReplacement,
    /// The argument names files next to the subject taken so far: call again
    /// with the subject written out.
    SubjectTextNeeded,
    /// The options were asked for: read no more arguments.
    ShowOptions,
    /// The pattern was given empty: stop.
    RejectEmptyPattern,
    /// The buffering threshold is not a number: stop.
    RejectThreshold,
    /// The buffer size is not a number: stop.
    RejectBufferSize,
}

/// The settings read from the command line so far.
pub struct ArgCapture {
    pub from: String,
    pub to: String,
    pub subject: ChangeSubject,
    pub phase: ArgumentCapturingPhase,
    pub extensions: Vec<String>,
    pub threshold: u64,
    pub buffer_size: u64,
}

/// The settings with their strings taken as characters.
#[verifier::ext_equal]
pub struct CaptureModel {
    pub from: Seq<char>,
    pub to: Seq<char>,
    pub subject: SubjectModel,
    pub phase: ArgumentCapturingPhase,
    pub extensions: Seq<Seq<char>>,
    pub threshold: u64,
    pub buffer_size: u64,
}

impl View for ArgCapture {
    type V = CaptureModel;

    open spec fn view(&self) -> CaptureModel {
        CaptureModel {
            from: self.from@,
            to: self.to@,
            subject: self.subject@,
            phase: self.phase,
            extensions: strings_view(self.extensions@),
            threshold: self.threshold,
            buffer_size: self.buffer_size,
        }
    }
}

/// The settings before any argument: replace the empty text by the empty
/// text in every file of the current directory, stream files above 8192
/// bytes in chunks of 65536 bytes.
pub open spec fn initial_capture() -> CaptureModel {
    CaptureModel {
        from: Seq::empty(),
        to: Seq::empty(),
        subject: SubjectModel::All,
        phase: ArgumentCapturingPhase::Normal,
        extensions: Seq::empty(),
        threshold: 8192,
        buffer_size: 65536,
    }
}

/// `--opt` or `--options`.
pub open spec fn is_options_flag(a: Seq<char>) -> bool {
    a == seq!['-', '-', 'o', 'p', 't'] || a == seq!['-', '-', 'o', 'p', 't', 'i', 'o', 'n', 's']
}

/// A flag that asks for an empty replacement.
pub open spec fn is_delete_flag(a: Seq<char>) -> bool {
    ||| a == seq!['-', '-', 'e', 'm', 'p', 't', 'y']
    ||| a == seq!['-', '-', 'd', 'e', 'l', 'e', 't', 'e']
    ||| a == seq!['-', 'e', 'm', 'p', 't', 'y']
    ||| a == seq!['-', 'd', 'e', 'l', 'e', 't', 'e']
    ||| a == seq!['-', 'e']
    ||| a == seq!['-', 'd']
}

/// A path argument that names the current directory itself.
pub open spec fn is_here_target(a: Seq<char>) -> bool {
    ||| a.len() == 0
    ||| a == seq!['*']
    ||| a == seq!['.', '/', '*']
    ||| a == seq!['.', '/']
    ||| a == seq!['.']
}

/// `--ext`, `--extension` or `--extensions`.
pub open spec fn is_extension_flag(a: Seq<char>) -> bool {
    ||| a == seq!['-', '-', 'e', 'x', 't']
    ||| a == seq!['-', '-', 'e', 'x', 't', 'e', 'n', 's', 'i', 'o', 'n']
    ||| a == seq!['-', '-', 'e', 'x', 't', 'e', 'n', 's', 'i', 'o', 'n', 's']
}

/// `--bt` or `--buffering-threshold`.
pub open spec fn is_threshold_flag(a: Seq<char>) -> bool {
    ||| a == seq!['-', '-', 'b', 't']
    ||| a == seq![
        '-',
        '-',
        'b',
        'u',
        'f',
        'f',
        'e',
        'r',
        'i',
        'n',
        'g',
        '-',
        't',
        'h',
        'r',
        'e',
        's',
        'h',
        'o',
        'l',
        'd',
    ]
}

/// `--bs` or `--buffer-size`.
pub open spec fn is_buffer_size_flag(a: Seq<char>) -> bool {
    ||| a == seq!['-', '-', 'b', 's']
    ||| a == seq!['-', '-', 'b', 'u', 'f', 'f', 'e', 'r', '-', 's', 'i', 'z', 'e']
}

/// The phase that a flag switches to, if the argument is one.
pub open spec fn phase_flag(a: Seq<char>) -> Option<ArgumentCapturingPhase> {
    if is_extension_flag(a) {
        Some(ArgumentCapturingPhase::AllowedExtensions)
    } else if is_threshold_flag(a) {
        Some(ArgumentCapturingPhase::BufferingThreshold)
    } else if is_buffer_size_flag(a) {
        Some(ArgumentCapturingPhase::BufferSize)
    } else {
        None
    }
}

/// The extension an argument adds to the allowed ones: a leading `.` is
/// dropped, and an argument that starts with `--` adds none.
pub open spec fn extension_entry(a: Seq<char>) -> Option<Seq<char>> {
    if starts_with(a, seq!['.']) {
        Some(a.skip(1))
    } else if !starts_with(a, seq!['-', '-']) {
        Some(a)
    } else {
        None
    }
}

/// An allowed extension may be given with or without its leading dot.
pub proof fn law_extension_dot_optional(e: Seq<char>)
    requires
        !starts_with(e, seq!['.']),
        !starts_with(e, seq!['-', '-']),
    ensures
        extension_entry(seq!['.'] + e) == Some(e),
        extension_entry(e) == Some(e),
{
    let d = seq!['.'] + e;
    assert(d.take(1) =~= seq!['.']);
    assert(d.skip(1) =~= e);
}

/// `../`
pub open spec fn up_dir() -> Seq<char> {
    seq!['.', '.', '/']
}

/// `./`
pub open spec fn here_dir() -> Seq<char> {
    seq!['.', '/']
}

/// `../` written `n` times.
pub open spec fn up_prefix(n: nat) -> Seq<char>
    decreases n,
{
    if n == 0 {
        Seq::empty()
    } else {
        up_prefix((n - 1) as nat) + up_dir()
    }
}

/// `a` with every match of `p` taken out.
pub open spec fn without(a: Seq<char>, p: Seq<char>) -> Seq<char> {
    replace_nonempty(a, p, Seq::empty())
}

proof fn lemma_up_prefix_front(n: nat)
    requires
        n >= 1,
    ensures
        up_prefix(n) == up_dir() + up_prefix((n - 1) as nat),
        up_prefix(n).len() == 3 * n,
    decreases n,
{
    if n == 1 {
        assert(up_prefix(0) == Seq::<char>::empty());
        assert(up_prefix(1) =~= up_dir() + up_prefix(0));
    } else {
        lemma_up_prefix_front((n - 1) as nat);
        assert(up_prefix(n) =~= up_dir() + up_prefix((n - 1) as nat));
    }
}

/// `../` written `n` times, then `t`, holds `n` more matches of `../` than `t`.
proof fn lemma_count_after_up_prefix(n: nat, t: Seq<char>)
    ensures
        count_matches(up_prefix(n) + t, up_dir()) == n + count_matches(t, up_dir()),
    decreases n,
{
    if n == 0 {
        assert(up_prefix(0) + t =~= t);
    } else {
        lemma_up_prefix_front(n);
        lemma_count_after_up_prefix((n - 1) as nat, t);
        let rest = up_prefix((n - 1) as nat) + t;
        assert(up_prefix(n) + t =~= up_dir() + rest);
        assert((up_dir() + rest).take(3) =~= up_dir());
        assert((up_dir() + rest).skip(3) =~= rest);
    }
}

/// A name in which `../` stands nowhere holds no run of `../` either.
proof fn lemma_no_up_prefix_in(n: nat, name: Seq<char>)
    requires
        n >= 1,
        forall|i: int| !occurs_at(name, up_dir(), i),
    ensures
        forall|i: int| !occurs_at(name, up_prefix(n), i),
{
    lemma_up_prefix_front(n);
    assert forall|i: int| !occurs_at(name, up_prefix(n), i) by {
        if occurs_at(name, up_prefix(n), i) {
            assert(name.subrange(i, i + 3) =~= name.subrange(i, i + up_prefix(n).len()).take(3));
            assert((up_dir() + up_prefix((n - 1) as nat)).take(3) =~= up_dir());
            assert(occurs_at(name, up_dir(), i));
        }
    }
}

/// The pieces of a path that climbs `n >= 1` directories and then names
/// `name`, a name in which `../` stands nowhere: `n` matches of `../`, and
/// `name` once the climb is taken out.
proof fn lemma_back_path_parts(n: nat, name: Seq<char>)
    requires
        n >= 1,
        forall|i: int| !occurs_at(name, up_dir(), i),
    ensures
        count_matches(up_prefix(n) + name, up_dir()) == n,
        without(up_prefix(n) + name, up_prefix(n)) == name,
{
    lemma_nowhere_no_match(name, up_dir());
    lemma_count_after_up_prefix(n, name);
    lemma_up_prefix_front(n);
    lemma_leading_match(up_prefix(n), name, Seq::<char>::empty());
    lemma_no_up_prefix_in(n, name);
    lemma_nowhere_unchanged(name, up_prefix(n), Seq::<char>::empty());
    assert(Seq::<char>::empty() + name =~= name);
}

/// A path argument made only of `n >= 1` steps `../`, perhaps followed by
/// `*`, names every file of the directory that many levels up, and keeps
/// all its steps.
pub proof fn law_back_directory_keeps_depth(n: nat, star: bool)
    requires
        n >= 1,
    ensures
        ({
            let a = up_prefix(n) + (if star {
                seq!['*']
            } else {
                Seq::<char>::empty()
            });
            target_subject(a) == SubjectModel::AllBackDir(a)
        }),
{
    let tail = if star {
        seq!['*']
    } else {
        Seq::<char>::empty()
    };
    assert forall|i: int| !occurs_at(tail, up_dir(), i) by {
        if occurs_at(tail, up_dir(), i) {
            assert(tail.len() < 3);
        }
    }
    lemma_back_path_parts(n, tail);
}

/// A path argument that climbs `n >= 1` directories and then names a file
/// (a name without `../`, neither empty nor `*`) names that file, with all
/// the steps up.
pub proof fn law_back_file_keeps_depth(n: nat, name: Seq<char>)
    requires
        n >= 1,
        name.len() > 0,
        name != seq!['*'],
        forall|i: int| !occurs_at(name, up_dir(), i),
    ensures
        target_subject(up_prefix(n) + name) == SubjectModel::SingularBackDir(up_prefix(n), name),
{
    lemma_back_path_parts(n, name);
}

/// A second path that climbs `n >= 1` directories and then names a file
/// makes a list of files that many levels up: the subject written out, then
/// that file.
pub proof fn law_second_back_file_keeps_depth(text: Seq<char>, n: nat, name: Seq<char>)
    requires
        n >= 1,
        forall|i: int| !occurs_at(name, up_dir(), i),
    ensures
        joined_subject(text, up_prefix(n) + name) == SubjectModel::MultipleBackDir(
            up_prefix(n),
            seq![text, name],
        ),
{
    lemma_back_path_parts(n, name);
}

/// A second path that does not climb makes a list of files: the subject
/// written out, then the path as given.
pub proof fn law_second_file_here(text: Seq<char>, a: Seq<char>)
    requires
        forall|i: int| !occurs_at(a, up_dir(), i),
    ensures
        joined_subject(text, a) == SubjectModel::Multiple(seq![text, a]),
{
    lemma_nowhere_no_match(a, up_dir());
}

/// A path argument `./d/` or `./d*` that does not climb names every file of
/// the directory `d/` or `d*` below the current one.
pub proof fn law_forward_directory(d: Seq<char>, last: char)
    requires
        last == '/' || last == '*',
        forall|i: int| !occurs_at(here_dir() + d + seq![last], up_dir(), i),
        forall|i: int| !occurs_at(d + seq![last], here_dir(), i),
    ensures
        target_subject(here_dir() + d + seq![last]) == SubjectModel::AllForwardDir(d + seq![last]),
{
    let a = here_dir() + d + seq![last];
    let rest = d + seq![last];
    assert(a =~= here_dir() + rest);
    lemma_nowhere_no_match(a, up_dir());
    assert(a.take(2) =~= here_dir());
    assert(a.skip(a.len() - 1) =~= seq![last]);
    lemma_leading_match(here_dir(), rest, Seq::<char>::empty());
    lemma_nowhere_unchanged(rest, here_dir(), Seq::<char>::empty());
    assert(Seq::<char>::empty() + rest =~= rest);
}

/// A path argument that neither climbs nor starts with `./` names that one
/// file as given.
pub proof fn law_plain_file(a: Seq<char>)
    requires
        forall|i: int| !occurs_at(a, up_dir(), i),
        !starts_with(a, here_dir()),
    ensures
        target_subject(a) == SubjectModel::Singular(a),
{
    lemma_nowhere_no_match(a, up_dir());
}

/// A path argument `./f` that does not climb and does not end with `/` or
/// `*` names the file `f`.
pub proof fn law_dotted_file(f: Seq<char>)
    requires
        forall|i: int| !occurs_at(here_dir() + f, up_dir(), i),
        forall|i: int| !occurs_at(f, here_dir(), i),
        f.len() > 0,
        f.last() != '/' && f.last() != '*',
    ensures
        target_subject(here_dir() + f) == SubjectModel::Singular(f),
{
    let a = here_dir() + f;
    lemma_nowhere_no_match(a, up_dir());
    assert(a.take(2) =~= here_dir());
    assert(a.skip(a.len() - 1) =~= seq![f.last()]);
    assert(!ends_with(a, seq!['*'])) by {
        if ends_with(a, seq!['*']) {
            assert(a.skip(a.len() - 1)[0] == f.last());
        }
    }
    assert(!ends_with(a, seq!['/'])) by {
        if ends_with(a, seq!['/']) {
            assert(a.skip(a.len() - 1)[0] == f.last());
        }
    }
    lemma_leading_match(here_dir(), f, Seq::<char>::empty());
    lemma_nowhere_unchanged(f, here_dir(), Seq::<char>::empty());
    assert(Seq::<char>::empty() + f =~= f);
}

/// The subject named by the path argument that follows the replacement.
pub open spec fn target_subject(a: Seq<char>) -> SubjectModel {
    let n = count_matches(a, up_dir());
    if n == 0 {
        if starts_with(a, here_dir()) {
            let name = without(a, here_dir());
            if ends_with(a, seq!['*']) || ends_with(a, seq!['/']) {
                SubjectModel::AllForwardDir(name)
            } else {
                SubjectModel::Singular(name)
            }
        } else {
            SubjectModel::Singular(a)
        }
    } else {
        let back = up_prefix(n);
        let name = without(a, back);
        if name.len() == 0 || name == seq!['*'] {
            SubjectModel::AllBackDir(a)
        } else {
            SubjectModel::SingularBackDir(back, name)
        }
    }
}

/// The subject once a second path follows the first, written out as `text`.
pub open spec fn joined_subject(text: Seq<char>, a: Seq<char>) -> SubjectModel {
    let n = count_matches(a, up_dir());
    if n == 0 {
        SubjectModel::Multiple(seq![text, a])
    } else {
        let back = up_prefix(n);
        SubjectModel::MultipleBackDir(back, seq![text, without(a, back)])
    }
}

/// The subject once one more path follows: it joins a list of files of the
/// same kind, and is dropped otherwise.
pub open spec fn extended_subject(s: SubjectModel, a: Seq<char>) -> SubjectModel {
    if count_matches(a, up_dir()) == 0 {
        match s {
            SubjectModel::Multiple(v) => SubjectModel::Multiple(v.push(a)),
            _ => s,
        }
    } else {
        match s {
            SubjectModel::MultipleBackDir(b, v) => SubjectModel::MultipleBackDir(b, v.push(a)),
            _ => s,
        }
    }
}

/// An argument read in a phase other than the normal one.
pub open spec fn collect_rule(m: CaptureModel, a: Seq<char>) -> (CaptureModel, CaptureStep) {
    match m.phase {
        ArgumentCapturingPhase::AllowedExtensions => match extension_entry(a) {
            Some(e) => (CaptureModel { extensions: m.extensions.push(e), ..m }, CaptureStep::Continue),
            None => (m, CaptureStep::Continue),
        },
        ArgumentCapturingPhase::BufferingThreshold => match decimal_u64(a) {
            Some(t) => (CaptureModel { threshold: t, ..m }, CaptureStep::Continue),
            None => (m, CaptureStep::RejectThreshold),
        },
        ArgumentCapturingPhase::BufferSize => match decimal_u64(a) {
            Some(t) => (CaptureModel { buffer_size: t, ..m }, CaptureStep::Continue),
            None => (m, CaptureStep::RejectBufferSize),
        },
        _ => (m, CaptureStep::Continue),
    }
}

/// The settings and the next step once the argument `a` at position `index`
/// (the program's name at 0) is taken; `text` is the subject written out, if
/// the caller gave it.
pub open spec fn capture_rule(m: CaptureModel, index: int, a: Seq<char>, text: Option<Seq<char>>) -> (
    CaptureModel,
    CaptureStep,
) {
    if index == 1 {
        if a.len() == 0 {
            (m, CaptureStep::RejectEmptyPattern)
        } else if is_options_flag(a) {
            (CaptureModel { phase: ArgumentCapturingPhase::Options, ..m }, CaptureStep::ShowOptions)
        } else {
            (CaptureModel { from: a, ..m }, CaptureStep::Continue)
        }
    } else if index == 2 {
        if a.len() == 0 {
            (m, CaptureStep::NoticeEmptyReplacement)
        } else if is_delete_flag(a) {
            (CaptureModel { to: Seq::empty(), ..m }, CaptureStep::Continue)
        } else {
            (CaptureModel { to: a, ..m }, CaptureStep::Continue)
        }
    } else if index == 3 && is_here_target(a) {
        (m, CaptureStep::Continue)
    } else if phase_flag(a) is Some {
        (CaptureModel { phase: phase_flag(a)->0, ..m }, CaptureStep::Continue)
    } else if index == 3 {
        (CaptureModel { subject: target_subject(a), ..m }, CaptureStep::Continue)
    } else if m.phase != ArgumentCapturingPhase::Normal {
        collect_rule(m, a)
    } else if index == 4 {
        if a.len() == 0 {
            (m, CaptureStep::Continue)
        } else {
            match text {
                None => (m, CaptureStep::SubjectTextNeeded),
                Some(t) => (CaptureModel { subject: joined_subject(t, a), ..m }, CaptureStep::Continue),
            }
        }
    } else {
        (CaptureModel { subject: extended_subject(m.subject, a), ..m }, CaptureStep::Continue)
    }
}

/// Only the first argument sets the pattern, and only the second the
/// replacement.
pub proof fn law_pattern_and_replacement_positions(
    m: CaptureModel,
    index: int,
    a: Seq<char>,
    text: Option<Seq<char>>,
)
    ensures
        index != 1 ==> capture_rule(m, index, a, text).0.from == m.from,
        index != 2 ==> capture_rule(m, index, a, text).0.to == m.to,
{
}

/// A step that stops the reading, or asks for the subject text, leaves the
/// settings as they were.
pub proof fn law_stopping_keeps_settings(
    m: CaptureModel,
    index: int,
    a: Seq<char>,
    text: Option<Seq<char>>,
)
    ensures
        ({
            let (n, step) = capture_rule(m, index, a, text);
            (step == CaptureStep::RejectEmptyPattern || step == CaptureStep::RejectThreshold || step
                == CaptureStep::RejectBufferSize || step == CaptureStep::SubjectTextNeeded) ==> n
                == m
        }),
{
}

/// A number is never taken for a flag.
proof fn lemma_number_is_no_flag(a: Seq<char>)
    requires
        decimal_u64(a) is Some,
    ensures
        phase_flag(a) is None,
        !is_here_target(a),
{
    let d = crate::number::unsigned_digits(a);
    assert(crate::number::is_digit(d[0]));
    if a.len() > 0 && a[0] == '-' {
        assert(d == a);
        assert(!crate::number::is_digit(a[0]));
    }
    if is_here_target(a) {
        if a.len() > 0 {
            assert(a[0] == '*' || a[0] == '.');
            assert(d == a);
        }
    }
}

/// `--bt` (or `--bs`) after the replacement, then a number, sets the
/// buffering threshold (or the buffer size) to that number.
pub proof fn law_flag_then_number(
    m: CaptureModel,
    index: int,
    flag: Seq<char>,
    a: Seq<char>,
    text: Option<Seq<char>>,
)
    requires
        index >= 3,
        is_threshold_flag(flag) || is_buffer_size_flag(flag),
        decimal_u64(a) is Some,
    ensures
        ({
            let m1 = capture_rule(m, index, flag, text).0;
            let (m2, step) = capture_rule(m1, index + 1, a, text);
            &&& step == CaptureStep::Continue
            &&& is_threshold_flag(flag) ==> m2.threshold == decimal_u64(a)->0 && m2.buffer_size
                == m.buffer_size
            &&& is_buffer_size_flag(flag) ==> m2.buffer_size == decimal_u64(a)->0 && m2.threshold
                == m.threshold
            &&& m2.from == m.from && m2.to == m.to && m2.subject == m.subject
        }),
{
    lemma_number_is_no_flag(a);
    if is_threshold_flag(flag) {
        assert(!is_here_target(flag));
        assert(!is_extension_flag(flag));
    } else {
        assert(!is_here_target(flag));
        assert(!is_extension_flag(flag));
        assert(!is_threshold_flag(flag));
    }
}

/// `--ext` after the replacement, then an extension with or without its dot,
/// allows that extension.
pub proof fn law_extension_flag_then_extension(
    m: CaptureModel,
    index: int,
    flag: Seq<char>,
    e: Seq<char>,
    dot: bool,
    text: Option<Seq<char>>,
)
    requires
        index >= 3,
        is_extension_flag(flag),
        e.len() > 0,
        e[0] != '.' && e[0] != '-',
    ensures
        ({
            let a = if dot {
                seq!['.'] + e
            } else {
                e
            };
            let m1 = capture_rule(m, index, flag, text).0;
            let (m2, step) = capture_rule(m1, index + 1, a, text);
            &&& step == CaptureStep::Continue
            &&& m2.extensions == m.extensions.push(e)
            &&& m2.phase == ArgumentCapturingPhase::AllowedExtensions
        }),
{
    let a = if dot {
        seq!['.'] + e
    } else {
        e
    };
    assert(!is_here_target(flag));
    assert(!starts_with(e, seq!['.'])) by {
        if starts_with(e, seq!['.']) {
            assert(e.take(1)[0] == e[0]);
        }
    }
    assert(!starts_with(e, seq!['-', '-'])) by {
        if starts_with(e, seq!['-', '-']) {
            assert(e.take(2)[0] == e[0]);
        }
    }
    law_extension_dot_optional(e);
    assert(a.len() > 0);
    if dot {
        assert(a[0] == '.');
    } else {
        assert(a[0] == e[0]);
    }
    assert(phase_flag(a) is None) by {
        if phase_flag(a) is Some {
            assert(a[0] == '-');
        }
    }
}

/// The characters of the text, if there is one.
pub open spec fn text_view(text: Option<String>) -> Option<Seq<char>> {
    match text {
        Some(t) => Some(t@),
        None => None,
    }
}

fn options_flag(a: &[char]) -> (res: bool)
    ensures
        res == is_options_flag(a@),
{
    chars_eq(a, &['-', '-', 'o', 'p', 't']) || chars_eq(
        a,
        &['-', '-', 'o', 'p', 't', 'i', 'o', 'n', 's'],
    )
}

fn delete_flag(a: &[char]) -> (res: bool)
    ensures
        res == is_delete_flag(a@),
{
    chars_eq(a, &['-', '-', 'e', 'm', 'p', 't', 'y']) || chars_eq(
        a,
        &['-', '-', 'd', 'e', 'l', 'e', 't', 'e'],
    ) || chars_eq(a, &['-', 'e', 'm', 'p', 't', 'y']) || chars_eq(
        a,
        &['-', 'd', 'e', 'l', 'e', 't', 'e'],
    ) || chars_eq(a, &['-', 'e']) || chars_eq(a, &['-', 'd'])
}

fn here_target(a: &[char]) -> (res: bool)
    ensures
        res == is_here_target(a@),
{
    let star = ['*'];
    let here_all = ['.', '/', '*'];
    let here = ['.', '/'];
    let dot = ['.'];
    assert(star@ =~= seq!['*']);
    assert(here_all@ =~= seq!['.', '/', '*']);
    assert(here@ =~= seq!['.', '/']);
    assert(dot@ =~= seq!['.']);
    let res = a.len() == 0 || chars_eq(a, &star) || chars_eq(a, &here_all) || chars_eq(a, &here)
        || chars_eq(a, &dot);
    res
}

/// The phase that the flag `a` switches to, if it is one.
pub(crate) fn phase_flag_of(a: &[char]) -> (res: Option<ArgumentCapturingPhase>)
    ensures
        res == phase_flag(a@),
{
    if chars_eq(a, &['-', '-', 'e', 'x', 't']) || chars_eq(
        a,
        &['-', '-', 'e', 'x', 't', 'e', 'n', 's', 'i', 'o', 'n'],
    ) || chars_eq(a, &['-', '-', 'e', 'x', 't', 'e', 'n', 's', 'i', 'o', 'n', 's']) {
        Some(ArgumentCapturingPhase::AllowedExtensions)
    } else if chars_eq(a, &['-', '-', 'b', 't']) || chars_eq(
        a,
        &[
            '-',
            '-',
            'b',
            'u',
            'f',
            'f',
            'e',
            'r',
            'i',
            'n',
            'g',
            '-',
            't',
            'h',
            'r',
            'e',
            's',
            'h',
            'o',
            'l',
            'd',
        ],
    ) {
        Some(ArgumentCapturingPhase::BufferingThreshold)
    } else if chars_eq(a, &['-', '-', 'b', 's']) || chars_eq(
        a,
        &['-', '-', 'b', 'u', 'f', 'f', 'e', 'r', '-', 's', 'i', 'z', 'e'],
    ) {
        Some(ArgumentCapturingPhase::BufferSize)
    } else {
        None
    }
}

/// The extension that the argument `a` adds to the allowed ones, if any.
pub(crate) fn extension_entry_of(a: &[char]) -> (res: Option<Vec<char>>)
    ensures
        match res {
            Some(e) => extension_entry(a@) == Some(e@),
            None => extension_entry(a@) is None,
        },
{
    let dot = ['.'];
    let dashes = ['-', '-'];
    assert(dot@ =~= seq!['.']);
    assert(dashes@ =~= seq!['-', '-']);
    if chars_start_with(a, &dot) {
        assert(a@.len() > 0);
        Some(chars_after_first(a))
    } else if !chars_start_with(a, &dashes) {
        let mut e: Vec<char> = Vec::new();
        let mut i: usize = 0;
        while i < a.len()
            invariant
                i <= a.len(),
                e@ == a@.take(i as int),
            decreases a.len() - i,
        {
            e.push(a[i]);
            i = i + 1;
            assert(e@ =~= a@.take(i as int));
        }
        assert(a@.take(i as int) =~= a@);
        Some(e)
    } else {
        None
    }
}

/// `../` written `n` times.
pub(crate) fn up_prefix_of(n: usize) -> (res: Vec<char>)
    ensures
        res@ == up_prefix(n as nat),
{
    let mut res: Vec<char> = Vec::new();
    let mut k: usize = 0;
    while k < n
        invariant
            k <= n,
            res@ == up_prefix(k as nat),
        decreases n - k,
    {
        res.push('.');
        res.push('.');
        res.push('/');
        k = k + 1;
        assert(res@ =~= up_prefix(k as nat));
    }
    res
}

/// The subject named by the path argument that follows the replacement.
pub(crate) fn target_subject_of(a: &[char]) -> (res: ChangeSubject)
    ensures
        res@ == target_subject(a@),
{
    let up = ['.', '.', '/'];
    let here = ['.', '/'];
    let star = ['*'];
    let slash = ['/'];
    assert(up@ =~= up_dir());
    assert(here@ =~= here_dir());
    assert(star@ =~= seq!['*']);
    assert(slash@ =~= seq!['/']);
    let n = count_chars_matches(a, &up);
    if n == 0 {
        if chars_start_with(a, &here) {
            let name = string_of(remove_chars_matches(a, &here).as_slice());
            if chars_end_with(a, &star) || chars_end_with(a, &slash) {
                ChangeSubject::AllForwardDir(name)
            } else {
                ChangeSubject::Singular(name)
            }
        } else {
            ChangeSubject::Singular(string_of(a))
        }
    } else {
        let back = up_prefix_of(n);
        let name = remove_chars_matches(a, back.as_slice());
        if name.len() == 0 || chars_eq(name.as_slice(), &star) {
            ChangeSubject::AllBackDir(string_of(a))
        } else {
            ChangeSubject::SingularBackDir(string_of(back.as_slice()), string_of(name.as_slice()))
        }
    }
}

/// The subject once a second path `a` follows the first, written out as `text`.
pub(crate) fn joined_subject_of(text: String, a: &[char]) -> (res: ChangeSubject)
    ensures
        res@ == joined_subject(text@, a@),
{
    let up = ['.', '.', '/'];
    assert(up@ =~= up_dir());
    let n = count_chars_matches(a, &up);
    let mut files: Vec<String> = Vec::new();
    files.push(text);
    if n == 0 {
        files.push(string_of(a));
        assert(strings_view(files@) =~= seq![text@, a@]);
        ChangeSubject::Multiple(files)
    } else {
        let back = up_prefix_of(n);
        let name = remove_chars_matches(a, back.as_slice());
        files.push(string_of(name.as_slice()));
        assert(strings_view(files@) =~= seq![text@, without(a@, back@)]);
        ChangeSubject::MultipleBackDir(string_of(back.as_slice()), files)
    }
}

/// The subject once one more path `a` follows.
pub(crate) fn extended_subject_of(subject: ChangeSubject, a: &[char]) -> (res: ChangeSubject)
    ensures
        res@ == extended_subject(subject@, a@),
{
    let up = ['.', '.', '/'];
    assert(up@ =~= up_dir());
    let n = count_chars_matches(a, &up);
    match subject {
        ChangeSubject::Multiple(mut files) => {
            if n == 0 {
                let ghost before = files@;
                files.push(string_of(a));
                assert(strings_view(files@) =~= strings_view(before).push(a@));
            }
            ChangeSubject::Multiple(files)
        },
        ChangeSubject::MultipleBackDir(back, mut files) => {
            if n != 0 {
                let ghost before = files@;
                files.push(string_of(a));
                assert(strings_view(files@) =~= strings_view(before).push(a@));
            }
            ChangeSubject::MultipleBackDir(back, files)
        },
        other => other,
    }
}

impl ArgCapture {
    /// The settings before any argument.
    pub fn new() -> (r: Self)
        ensures
            r@ == initial_capture(),
    {
        let r = ArgCapture {
            from: String::new(),
            to: String::new(),
            subject: ChangeSubject::All,
            phase: ArgumentCapturingPhase::Normal,
            extensions: Vec::new(),
            threshold: 8192,
            buffer_size: 65536,
        };
        assert(strings_view(r.extensions@) =~= Seq::<Seq<char>>::empty());
        assert(r@ =~= initial_capture());
        r
    }

    /// Reads an argument in a phase other than the normal one.
    fn collect(&mut self, a: &[char]) -> (step: CaptureStep)
        ensures
            final(self)@ == collect_rule(old(self)@, a@).0,
            step == collect_rule(old(self)@, a@).1,
    {
        match self.phase {
            ArgumentCapturingPhase::AllowedExtensions => {
                match extension_entry_of(a) {
                    Some(e) => {
                        let ghost before = self.extensions@;
                        let ghost m = self@;
                        self.extensions.push(string_of(e.as_slice()));
                        assert(strings_view(self.extensions@) =~= strings_view(before).push(e@));
                        assert(self@ =~= collect_rule(m, a@).0);
                    },
                    None => {},
                }
                CaptureStep::Continue
            },
            ArgumentCapturingPhase::BufferingThreshold => {
                match parse_u64(a) {
                    Some(t) => {
                        self.threshold = t;
                        CaptureStep::Continue
                    },
                    None => CaptureStep::RejectThreshold,
                }
            },
            ArgumentCapturingPhase::BufferSize => {
                match parse_u64(a) {
                    Some(t) => {
                        self.buffer_size = t;
                        CaptureStep::Continue
                    },
                    None => CaptureStep::RejectBufferSize,
                }
            },
            _ => CaptureStep::Continue,
        }
    }

    /// Takes the argument `arg` at position `index` (the program's name at
    /// 0). `subject_text` is the subject written out; it is read only where
    /// the step asks for it, and the step is then taken again with it.
    pub fn capture(&mut self, index: usize, arg: &String, subject_text: Option<String>) -> (step:
        CaptureStep)
        ensures
            final(self)@ == capture_rule(old(self)@, index as int, arg@, text_view(subject_text)).0,
            step == capture_rule(old(self)@, index as int, arg@, text_view(subject_text)).1,
    {
        let a = chars_of(arg);
        let a = a.as_slice();
        if index == 1 {
            if a.len() == 0 {
                return CaptureStep::RejectEmptyPattern;
            }
            if options_flag(a) {
                self.phase = ArgumentCapturingPhase::Options;
                return CaptureStep::ShowOptions;
            }
            self.from = arg.clone();
            return CaptureStep::Continue;
        }
        if index == 2 {
            if a.len() == 0 {
                return CaptureStep::NoticeEmptyReplacement;
            }
            if delete_flag(a) {
                self.to = String::new();
            } else {
                self.to = arg.clone();
            }
            return CaptureStep::Continue;
        }
        if index == 3 && here_target(a) {
            return CaptureStep::Continue;
        }
        match phase_flag_of(a) {
            Some(p) => {
                self.phase = p;
                return CaptureStep::Continue;
            },
            None => {},
        }
        if index == 3 {
            self.subject = target_subject_of(a);
            return CaptureStep::Continue;
        }
        if self.phase != ArgumentCapturingPhase::Normal {
            return self.collect(a);
        }
        if index == 4 {
            if a.len() == 0 {
                return CaptureStep::Continue;
            }
            match subject_text {
                None => {
                    return CaptureStep::SubjectTextNeeded;
                },
                Some(t) => {
                    self.subject = joined_subject_of(t, a);
                    return CaptureStep::Continue;
                },
            }
        }
        let mut current = ChangeSubject::All;
        std::mem::swap(&mut current, &mut self.subject);
        self.subject = extended_subject_of(current, a);
        CaptureStep::Continue
    }
}

} // verus!
