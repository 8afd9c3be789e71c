use vstd::prelude::*;
use crate::models::{strings_view, ChangeSubject, SubjectModel};
use crate::text::{chars_eq, chars_of};

verus! {

/// How the paths of a subject are treated.
#[derive(Debug, Clone, Copy, PartialEq, Eq, Structural)]
pub enum TargetKind {
    /// The one path is a directory: every file in it is changed.
    Directory,
    /// The one path must be a file: the run stops when it is not.
    SingleFile,
    /// Each path that is a file is changed; the others are passed over.
    EachFile,
}

/// How the paths of a subject are treated.
pub open spec fn target_kind(s: SubjectModel) -> TargetKind {
    match s {
        SubjectModel::All => TargetKind::Directory,
        SubjectModel::AllForwardDir(_) => TargetKind::Directory,
        SubjectModel::AllBackDir(_) => TargetKind::Directory,
        SubjectModel::Singular(_) => TargetKind::SingleFile,
        SubjectModel::SingularBackDir(_, _) => TargetKind::SingleFile,
        SubjectModel::Multiple(_) => TargetKind::EachFile,
        SubjectModel::MultipleBackDir(_, _) => TargetKind::EachFile,
    }
}

/// A subject that names a directory (the current one, one below or one
/// above) has every file of it changed; a single file must be a file; a list
/// of files has each of them changed that is one.
pub proof fn law_target_kinds(s: SubjectModel)
    ensures
        (target_kind(s) == TargetKind::Directory) <==> (s is All || s is AllForwardDir
            || s is AllBackDir),
        (target_kind(s) == TargetKind::SingleFile) <==> (s is Singular || s is SingularBackDir),
        (target_kind(s) == TargetKind::EachFile) <==> (s is Multiple || s is MultipleBackDir),
{
}

/// A subject that names a directory or a single file stands for one path;
/// a list of files for one path per file.
pub proof fn law_path_count(s: SubjectModel)
    ensures
        target_kind(s) != TargetKind::EachFile ==> target_paths(s).len() == 1,
        s matches SubjectModel::Multiple(fs) ==> target_paths(s).len() == fs.len(),
        s matches SubjectModel::MultipleBackDir(_, fs) ==> target_paths(s).len() == fs.len(),
{
}

/// In a list of files, the path of the i-th file ends with that file; in a
/// list of files above, it starts with the climb.
pub proof fn law_each_file_path(s: SubjectModel, i: int)
    ensures
        s matches SubjectModel::Multiple(fs) ==> (0 <= i < fs.len() ==> target_paths(s)[i].last()
            == fs[i] && target_paths(s)[i].len() == 1),
        s matches SubjectModel::MultipleBackDir(b, fs) ==> (0 <= i < fs.len() ==> target_paths(
            s,
        )[i] == seq![b, fs[i]]),
{
}

/// A path argument `./d/` or `./d*` that does not climb is a directory whose
/// every file is changed.
pub proof fn law_forward_directory_is_scanned(d: Seq<char>, last: char)
    requires
        last == '/' || last == '*',
        forall|i: int|
            !crate::matching::occurs_at(
                crate::args::here_dir() + d + seq![last],
                crate::args::up_dir(),
                i,
            ),
        forall|i: int| !crate::matching::occurs_at(d + seq![last], crate::args::here_dir(), i),
    ensures
        target_kind(crate::args::target_subject(crate::args::here_dir() + d + seq![last]))
            == TargetKind::Directory,
{
    crate::args::law_forward_directory(d, last);
}

/// The paths of a subject, each as the parts joined in turn onto the
/// current directory.
pub open spec fn target_paths(s: SubjectModel) -> Seq<Seq<Seq<char>>> {
    match s {
        SubjectModel::All => seq![Seq::empty()],
        SubjectModel::AllForwardDir(d) => seq![seq![d]],
        SubjectModel::AllBackDir(b) => seq![seq![b]],
        SubjectModel::Singular(f) => seq![seq![f]],
        SubjectModel::SingularBackDir(b, f) => seq![seq![b, f]],
        SubjectModel::Multiple(fs) => fs.map_values(|f: Seq<char>| seq![f]),
        SubjectModel::MultipleBackDir(b, fs) => fs.map_values(|f: Seq<char>| seq![b, f]),
    }
}

/// Each path's parts taken as characters.
pub open spec fn paths_view(p: Seq<Vec<String>>) -> Seq<Seq<Seq<char>>> {
    p.map_values(|v: Vec<String>| strings_view(v@))
}

impl ChangeSubject {
    /// How the paths of this subject are treated.
    pub fn target_kind(&self) -> (k: TargetKind)
        ensures
            k == target_kind(self@),
    {
        match self {
            ChangeSubject::All => TargetKind::Directory,
            ChangeSubject::AllForwardDir(_) => TargetKind::Directory,
            ChangeSubject::AllBackDir(_) => TargetKind::Directory,
            ChangeSubject::Singular(_) => TargetKind::SingleFile,
            ChangeSubject::SingularBackDir(_, _) => TargetKind::SingleFile,
            ChangeSubject::Multiple(_) => TargetKind::EachFile,
            ChangeSubject::MultipleBackDir(_, _) => TargetKind::EachFile,
        }
    }

    /// The paths of this subject, each as the parts joined in turn onto the
    /// current directory.
    pub fn target_paths(&self) -> (p: Vec<Vec<String>>)
        ensures
            paths_view(p@) == target_paths(self@),
    {
        let mut p: Vec<Vec<String>> = Vec::new();
        match self {
            ChangeSubject::All => {
                p.push(Vec::new());
                assert(paths_view(p@) =~= seq![Seq::<Seq<char>>::empty()]) by {
                    assert(strings_view(p@[0]@) =~= Seq::<Seq<char>>::empty());
                }
            },
            ChangeSubject::AllForwardDir(d) => {
                p.push(one_part(d));
                assert(paths_view(p@) =~= seq![seq![d@]]);
            },
            ChangeSubject::AllBackDir(b) => {
                p.push(one_part(b));
                assert(paths_view(p@) =~= seq![seq![b@]]);
            },
            ChangeSubject::Singular(f) => {
                p.push(one_part(f));
                assert(paths_view(p@) =~= seq![seq![f@]]);
            },
            ChangeSubject::SingularBackDir(b, f) => {
                p.push(two_parts(b, f));
                assert(paths_view(p@) =~= seq![seq![b@, f@]]);
            },
            ChangeSubject::Multiple(fs) => {
                let mut i: usize = 0;
                while i < fs.len()
                    invariant
                        i <= fs.len(),
                        paths_view(p@) == strings_view(fs@).take(i as int).map_values(
                            |f: Seq<char>| seq![f],
                        ),
                    decreases fs.len() - i,
                {
                    let ghost prev = p@;
                    p.push(one_part(&fs[i]));
                    proof {
                        let lhs = paths_view(p@);
                        let rhs = strings_view(fs@).take(i + 1).map_values(|f: Seq<char>| seq![f]);
                        let before = strings_view(fs@).take(i as int).map_values(|f: Seq<char>| seq![f]);
                        assert(strings_view(fs@).len() == fs@.len());
                        assert(before.len() == i);
                        assert(paths_view(prev).len() == prev.len());
                        assert(lhs.len() == rhs.len());
                        assert forall|k: int| 0 <= k < lhs.len() implies lhs[k] == rhs[k] by {
                            if k < i {
                                assert(p@[k] == prev[k]);
                                assert(paths_view(prev)[k] == before[k]);
                            }
                        }
                        assert(lhs =~= rhs);
                    }
                    i = i + 1;
                }
                assert(strings_view(fs@).take(i as int) =~= strings_view(fs@));
            },
            ChangeSubject::MultipleBackDir(b, fs) => {
                let mut i: usize = 0;
                while i < fs.len()
                    invariant
                        i <= fs.len(),
                        paths_view(p@) == strings_view(fs@).take(i as int).map_values(
                            |f: Seq<char>| seq![b@, f],
                        ),
                    decreases fs.len() - i,
                {
                    let ghost prev = p@;
                    p.push(two_parts(b, &fs[i]));
                    proof {
                        let lhs = paths_view(p@);
                        let rhs = strings_view(fs@).take(i + 1).map_values(|f: Seq<char>| seq![b@, f]);
                        let before = strings_view(fs@).take(i as int).map_values(|f: Seq<char>| seq![b@, f]);
                        assert(strings_view(fs@).len() == fs@.len());
                        assert(before.len() == i);
                        assert(paths_view(prev).len() == prev.len());
                        assert(lhs.len() == rhs.len());
                        assert forall|k: int| 0 <= k < lhs.len() implies lhs[k] == rhs[k] by {
                            if k < i {
                                assert(p@[k] == prev[k]);
                                assert(paths_view(prev)[k] == before[k]);
                            }
                        }
                        assert(lhs =~= rhs);
                    }
                    i = i + 1;
                }
                assert(strings_view(fs@).take(i as int) =~= strings_view(fs@));
            },
        }
        p
    }
}

fn one_part(a: &String) -> (v: Vec<String>)
    ensures
        strings_view(v@) == seq![a@],
{
    let mut v: Vec<String> = Vec::new();
    v.push(a.clone());
    assert(strings_view(v@) =~= seq![a@]);
    v
}

fn two_parts(a: &String, b: &String) -> (v: Vec<String>)
    ensures
        strings_view(v@) == seq![a@, b@],
{
    let mut v: Vec<String> = Vec::new();
    v.push(a.clone());
    v.push(b.clone());
    assert(strings_view(v@) =~= seq![a@, b@]);
    v
}

/// How many times `e` stands in `s`.
pub open spec fn occurrences(s: Seq<Seq<char>>, e: Seq<char>) -> nat
    decreases s.len(),
{
    if s.len() == 0 {
        0
    } else {
        occurrences(s.drop_last(), e) + (if s.last() == e {
            1nat
        } else {
            0nat
        })
    }
}

proof fn lemma_occurrences_zero(s: Seq<Seq<char>>, e: Seq<char>)
    ensures
        (occurrences(s, e) == 0) <==> !s.contains(e),
    decreases s.len(),
{
    if s.len() > 0 {
        lemma_occurrences_zero(s.drop_last(), e);
        assert(s =~= s.drop_last().push(s.last()));
        if s.drop_last().contains(e) {
            let k = choose|k: int| 0 <= k < s.drop_last().len() && s.drop_last()[k] == e;
            assert(s[k] == e);
        }
        if s.contains(e) && s.last() != e {
            let k = choose|k: int| 0 <= k < s.len() && s[k] == e;
            assert(k != s.len() - 1);
            assert(s.drop_last()[k] == e);
        }
    }
}

proof fn lemma_occurrences_once(s: Seq<Seq<char>>, e: Seq<char>)
    requires
        s.no_duplicates(),
        s.contains(e),
    ensures
        occurrences(s, e) == 1,
    decreases s.len(),
{
    let d = s.drop_last();
    assert(d.no_duplicates());
    if s.last() == e {
        assert(!d.contains(e)) by {
            if d.contains(e) {
                let k = choose|k: int| 0 <= k < d.len() && d[k] == e;
                assert(s[k] == s[s.len() - 1]);
            }
        }
        lemma_occurrences_zero(d, e);
    } else {
        let k = choose|k: int| 0 <= k < s.len() && s[k] == e;
        assert(d[k] == e);
        lemma_occurrences_once(d, e);
    }
}

/// With allowed extensions given, a file whose extension equals none of
/// them is not changed, and a file without extension neither; a file whose
/// extension is allowed is changed at least once, and exactly once when no
/// extension is given twice. With none given, every file is changed once.
pub proof fn law_extension_filter(extensions: Seq<Seq<char>>, e: Seq<char>)
    ensures
        extensions.len() == 0 ==> change_count(extensions, Some(e)) == 1 && change_count(
            extensions,
            None,
        ) == 1,
        extensions.len() > 0 ==> change_count(extensions, None) == 0,
        extensions.len() > 0 && !extensions.contains(e) ==> change_count(extensions, Some(e)) == 0,
        extensions.contains(e) ==> change_count(extensions, Some(e)) >= 1,
        extensions.contains(e) && extensions.no_duplicates() ==> change_count(extensions, Some(e))
            == 1,
{
    lemma_occurrences_zero(extensions, e);
    if extensions.contains(e) && extensions.no_duplicates() {
        lemma_occurrences_once(extensions, e);
    }
}

/// Each allowed extension equal to the file's adds one change, and the
/// others add none.
pub proof fn law_extension_filter_step(extensions: Seq<Seq<char>>, x: Seq<char>, e: Seq<char>)
    requires
        extensions.len() > 0,
    ensures
        change_count(extensions.push(x), Some(e)) == change_count(extensions, Some(e)) + (if x
            == e {
            1nat
        } else {
            0nat
        }),
{
    assert(extensions.push(x).drop_last() =~= extensions);
}

/// How many times a file is changed: once when no extension is given,
/// otherwise once for each allowed extension equal to the file's.
pub open spec fn change_count(extensions: Seq<Seq<char>>, file_extension: Option<Seq<char>>) -> nat {
    if extensions.len() == 0 {
        1
    } else {
        match file_extension {
            Some(e) => occurrences(extensions, e),
            None => 0,
        }
    }
}

/// How many times a file with the extension `file_extension` is changed.
pub fn change_count_of(extensions: &Vec<String>, file_extension: Option<&String>) -> (n: usize)
    ensures
        n == change_count(
            strings_view(extensions@),
            match file_extension {
                Some(e) => Some(e@),
                None => None,
            },
        ),
{
    if extensions.len() == 0 {
        return 1;
    }
    match file_extension {
        None => 0,
        Some(e) => {
            let mut n: usize = 0;
            let mut i: usize = 0;
            while i < extensions.len()
                invariant
                    i <= extensions.len(),
                    n <= i,
                    n == occurrences(strings_view(extensions@).take(i as int), e@),
                decreases extensions.len() - i,
            {
                let same = extensions[i] == *e;
                proof {
                    let s = strings_view(extensions@);
                    assert(s.take(i + 1).drop_last() =~= s.take(i as int));
                    assert(s.take(i + 1).last() == extensions@[i as int]@);
                }
                if same {
                    n = n + 1;
                }
                i = i + 1;
            }
            assert(strings_view(extensions@).take(i as int) =~= strings_view(extensions@));
            n
        },
    }
}

/// A character with the Unicode `White_Space` property.
pub open spec fn is_white_space(c: char) -> bool {
    let u = c as u32;
    ||| 0x09 <= u <= 0x0d
    ||| u == 0x20
    ||| u == 0x85
    ||| u == 0xa0
    ||| u == 0x1680
    ||| 0x2000 <= u <= 0x200a
    ||| u == 0x2028
    ||| u == 0x2029
    ||| u == 0x202f
    ||| u == 0x205f
    ||| u == 0x3000
}

/// `s` without its leading white space.
pub open spec fn trim_start(s: Seq<char>) -> Seq<char>
    decreases s.len(),
{
    if s.len() > 0 && is_white_space(s[0]) {
        trim_start(s.skip(1))
    } else {
        s
    }
}

/// `s` without its trailing white space.
pub open spec fn trim_end(s: Seq<char>) -> Seq<char>
    decreases s.len(),
{
    if s.len() > 0 && is_white_space(s.last()) {
        trim_end(s.drop_last())
    } else {
        s
    }
}

/// `s` without white space at either end.
pub open spec fn trim(s: Seq<char>) -> Seq<char> {
    trim_end(trim_start(s))
}

fn white_space(c: char) -> (res: bool)
    ensures
        res == is_white_space(c),
{
    let u = c as u32;
    (0x09 <= u && u <= 0x0d) || u == 0x20 || u == 0x85 || u == 0xa0 || u == 0x1680 || (0x2000 <= u
        && u <= 0x200a) || u == 0x2028 || u == 0x2029 || u == 0x202f || u == 0x205f || u == 0x3000
}

/// `s` without white space at either end.
pub fn trim_chars(s: &[char]) -> (res: Vec<char>)
    ensures
        res@ == trim(s@),
{
    let mut i: usize = 0;
    assert(s@.skip(0) =~= s@);
    while i < s.len() && white_space(s[i])
        invariant
            i <= s.len(),
            trim_start(s@.skip(i as int)) == trim_start(s@),
        decreases s.len() - i,
    {
        assert(s@.skip(i as int).skip(1) =~= s@.skip(i + 1));
        i = i + 1;
    }
    let ghost front = s@.skip(i as int);
    assert(trim_start(front) == front);
    let mut j: usize = s.len();
    assert(front.take(front.len() as int) =~= front);
    while j > i && white_space(s[j - 1])
        invariant
            i <= j <= s.len(),
            front == s@.skip(i as int),
            trim_end(s@.subrange(i as int, j as int)) == trim_end(front),
        decreases j,
    {
        assert(s@.subrange(i as int, j as int).drop_last() =~= s@.subrange(i as int, j - 1));
        assert(s@.subrange(i as int, j as int).last() == s@[j - 1]);
        j = j - 1;
    }
    assert(s@.subrange(i as int, j as int) =~= front.take(j - i));
    let mut out: Vec<char> = Vec::new();
    let mut k: usize = i;
    while k < j
        invariant
            i <= k <= j,
            j <= s.len(),
            out@ == s@.subrange(i as int, k as int),
        decreases j - k,
    {
        out.push(s[k]);
        k = k + 1;
        assert(out@ =~= s@.subrange(i as int, k as int));
    }
    proof {
        let t = s@.subrange(i as int, j as int);
        if t.len() > 0 {
            assert(t.last() == s@[j - 1]);
        }
        assert(trim_end(t) == t);
    }
    out
}

/// An answer that agrees to go on: `y`, `e` or `j`, white space around it
/// left aside.
pub open spec fn is_agreement(answer: Seq<char>) -> bool {
    let t = trim(answer);
    t == seq!['y'] || t == seq!['e'] || t == seq!['j']
}

proof fn lemma_trim_trailing_space(a: Seq<char>, w: char)
    requires
        is_white_space(w),
    ensures
        trim(a.push(w)) == trim(a),
    decreases a.len(),
{
    let b = a.push(w);
    if a.len() == 0 {
        assert(b.skip(1) =~= Seq::<char>::empty());
        assert(trim_start(b) == trim_start(b.skip(1)));
    } else if is_white_space(a[0]) {
        assert(b[0] == a[0]);
        assert(b.skip(1) =~= a.skip(1).push(w));
        lemma_trim_trailing_space(a.skip(1), w);
    } else {
        assert(b[0] == a[0]);
        assert(trim_start(b) == b);
        assert(trim_start(a) == a);
        assert(b.drop_last() =~= a);
        assert(b.last() == w);
    }
}

/// White space before or after an answer does not change it.
pub proof fn law_answer_white_space(a: Seq<char>, w: char)
    requires
        is_white_space(w),
    ensures
        is_agreement(seq![w] + a) == is_agreement(a),
        is_agreement(a.push(w)) == is_agreement(a),
{
    let b = seq![w] + a;
    assert(b.skip(1) =~= a);
    assert(trim_start(b) == trim_start(a));
    lemma_trim_trailing_space(a, w);
}

/// An answer agrees exactly when, white space aside, it is one of `y`, `e`
/// and `j`: nothing else before or after the letter.
pub proof fn law_agreement_letters(c: char)
    ensures
        is_agreement(seq![c]) <==> (c == 'y' || c == 'e' || c == 'j'),
{
    let s = seq![c];
    if is_white_space(c) {
        assert(s.skip(1) =~= Seq::<char>::empty());
        assert(trim_start(s) == trim_start(s.skip(1)));
        assert(trim_start(Seq::<char>::empty()) == Seq::<char>::empty());
        assert(trim(s) =~= Seq::<char>::empty());
    } else {
        assert(trim_start(s) == s);
        assert(s.last() == c);
        assert(trim_end(s) == s);
    }
    if trim(s) == seq!['y'] {
        assert(trim(s)[0] == 'y');
    }
    if trim(s) == seq!['e'] {
        assert(trim(s)[0] == 'e');
    }
    if trim(s) == seq!['j'] {
        assert(trim(s)[0] == 'j');
    }
}

/// Whether the answer agrees to go on.
pub fn agrees(answer: &String) -> (res: bool)
    ensures
        res == is_agreement(answer@),
{
    let a = chars_of(answer);
    let t = trim_chars(a.as_slice());
    let y = ['y'];
    let e = ['e'];
    let j = ['j'];
    assert(y@ =~= seq!['y']);
    assert(e@ =~= seq!['e']);
    assert(j@ =~= seq!['j']);
    chars_eq(t.as_slice(), &y) || chars_eq(t.as_slice(), &e) || chars_eq(t.as_slice(), &j)
}

} // verus!
