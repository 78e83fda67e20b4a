use vstd::prelude::*;

verus! {

/// The ways in which building a sample or a set of samples can fail.
#[derive(Debug, Clone, Copy, PartialEq, Eq, Structural)]
pub enum QSAError {
    /// Reference checks are enabled and two samples name different
    /// reference sequences.
    ReferenceMismatch,
    /// An alignment file is missing or unreadable.
    SourceNotFound,
    /// A directory to search for alignment files is missing.
    DirectoryNotFound,
    /// No position of the window has a coverage above the threshold.
    NoConfidentRegion,
    /// A division by a zero coverage: the whole window is uncovered, or a
    /// column inside the confident region has no counted base.
    DegenerateCoverage,
}

impl QSAError {
    /// The text shown to the user for each kind of error.
    pub open spec fn spec_message(self) -> Seq<char> {
        match self {
            QSAError::ReferenceMismatch => "Reference sequence length differs between BAM files"@,
            QSAError::SourceNotFound => "One of the supplied BAM files were not found"@,
            QSAError::DirectoryNotFound => "One of the supplied directories were not found"@,
            QSAError::NoConfidentRegion => "One of the supplied BAM files has no position above the coverage threshold"@,
            QSAError::DegenerateCoverage => "One of the supplied BAM files has a coverage hole inside"@,
        }
    }

    /// The status with which the surrounding tool ends for each kind of
    /// error: never 0, and never the same for two kinds.
    pub open spec fn spec_status(self) -> u8 {
        match self {
            QSAError::ReferenceMismatch => 4,
            QSAError::SourceNotFound => 5,
            QSAError::DirectoryNotFound => 6,
            QSAError::NoConfidentRegion => 7,
            QSAError::DegenerateCoverage => 8,
        }
    }

    /// Two kinds of error have the same status only if they are one kind,
    /// and no status is 0.
    pub proof fn lemma_status_distinct(a: QSAError, b: QSAError)
        ensures
            a.spec_status() == b.spec_status() ==> a == b,
            a.spec_status() != 0,
    {
    }

    /// The status with which the surrounding tool ends.
    pub fn status(&self) -> (code: u8)
        ensures
            code == self.spec_status(),
    {
        match self {
            QSAError::ReferenceMismatch => 4,
            QSAError::SourceNotFound => 5,
            QSAError::DirectoryNotFound => 6,
            QSAError::NoConfidentRegion => 7,
            QSAError::DegenerateCoverage => 8,
        }
    }

    /// The text shown to the user.
    pub fn message(&self) -> (text: String)
        ensures
            text@ == self.spec_message(),
    {
        match self {
            QSAError::ReferenceMismatch => "Reference sequence length differs between BAM files".to_owned(),
            QSAError::SourceNotFound => "One of the supplied BAM files were not found".to_owned(),
            QSAError::DirectoryNotFound => "One of the supplied directories were not found".to_owned(),
            QSAError::NoConfidentRegion => "One of the supplied BAM files has no position above the coverage threshold".to_owned(),
            QSAError::DegenerateCoverage => "One of the supplied BAM files has a coverage hole inside".to_owned(),
        }
    }
}

} // verus!
