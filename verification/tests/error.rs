use qsalib::error::QSAError;

#[test]
fn every_error_has_its_message() {
    assert_eq!(
        QSAError::ReferenceMismatch.message(),
        "Reference sequence length differs between BAM files"
    );
    assert_eq!(QSAError::SourceNotFound.message(), "One of the supplied BAM files were not found");
    assert_eq!(
        QSAError::DirectoryNotFound.message(),
        "One of the supplied directories were not found"
    );
    assert_eq!(
        QSAError::NoConfidentRegion.message(),
        "One of the supplied BAM files has no position above the coverage threshold"
    );
    assert_eq!(
        QSAError::DegenerateCoverage.message(),
        "One of the supplied BAM files has a coverage hole inside"
    );
}

#[test]
fn errors_compare_by_kind() {
    assert_eq!(QSAError::SourceNotFound, QSAError::SourceNotFound);
    assert_ne!(QSAError::NoConfidentRegion, QSAError::DegenerateCoverage);
}

#[test]
fn every_error_has_its_own_nonzero_status() {
    let kinds = [
        QSAError::ReferenceMismatch,
        QSAError::SourceNotFound,
        QSAError::DirectoryNotFound,
        QSAError::NoConfidentRegion,
        QSAError::DegenerateCoverage,
    ];
    let codes: Vec<u8> = kinds.iter().map(|kind| kind.status()).collect();
    assert_eq!(codes, vec![4, 5, 6, 7, 8]);
}
