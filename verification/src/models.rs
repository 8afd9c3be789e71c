use vstd::prelude::*;

verus! {

/// Which files a run changes.
#[derive(Debug, Clone, PartialEq, Eq)]
pub enum ChangeSubject {
    /// One file, relative to the current directory.
    Singular(String),
    /// Several files, relative to the current directory.
    Multiple(Vec<String>),
    /// Every file of the current directory.
    All,
    /// Every file of a directory below the current one.
    AllForwardDir(String),
    /// One file in a directory above the current one: the `../` prefix, then the file.
    SingularBackDir(String, String),
    /// Every file of a directory above the current one.
    AllBackDir(String),
    /// Several files in a directory above the current one: the `../` prefix, then the files.
    MultipleBackDir(String, Vec<String>),
}

/// What the next command-line argument is read as.
#[derive(Debug, Clone, Copy, PartialEq, Eq, Structural)]
pub enum ArgumentCapturingPhase {
    Normal,
    AllowedExtensions,
    Options,
    BufferingThreshold,
    BufferSize,
}

/// Where a pattern was found in a chunk of a file.
#[derive(Debug)]
pub enum ChangeString<'a> {
    Whole(&'a [u8]),
    FromStart(&'a [u8]),
    FromEnd(&'a [u8]),
    Nothing,
}

/// What a chunk of a file calls for.
#[derive(Debug, Clone, Copy, PartialEq, Eq, Structural)]
pub enum ChangeStatus {
    Whole,
    LastToStart,
    LastCollected,
    Nothing,
}

/// The characters of each string.
pub open spec fn strings_view(v: Seq<String>) -> Seq<Seq<char>> {
    v.map_values(|s: String| s@)
}

/// A change subject with its strings taken as characters.
#[verifier::ext_equal]
pub enum SubjectModel {
    Singular(Seq<char>),
    Multiple(Seq<Seq<char>>),
    All,
    AllForwardDir(Seq<char>),
    SingularBackDir(Seq<char>, Seq<char>),
    AllBackDir(Seq<char>),
    MultipleBackDir(Seq<char>, Seq<Seq<char>>),
}

impl View for ChangeSubject {
    type V = SubjectModel;

    open spec fn view(&self) -> SubjectModel {
        match self {
            ChangeSubject::Singular(s) => SubjectModel::Singular(s@),
            ChangeSubject::Multiple(v) => SubjectModel::Multiple(strings_view(v@)),
            ChangeSubject::All => SubjectModel::All,
            ChangeSubject::AllForwardDir(d) => SubjectModel::AllForwardDir(d@),
            ChangeSubject::SingularBackDir(b, f) => SubjectModel::SingularBackDir(b@, f@),
            ChangeSubject::AllBackDir(b) => SubjectModel::AllBackDir(b@),
            ChangeSubject::MultipleBackDir(b, v) => SubjectModel::MultipleBackDir(
                b@,
                strings_view(v@),
            ),
        }
    }
}

} // verus!
