use qsalib::builder::{BamDataBuilder, RecordSource, DEFAULT_THRESHOLD};
use qsalib::error::QSAError;
use qsalib::matrices::{full_range, AlignedRead};
use qsalib::score::ONE;

fn read(start: i32, bases: &str) -> AlignedRead {
    AlignedRead { start, sequence: bases.as_bytes().to_vec() }
}

fn source(name: &str, reference: &str, reads: &[(i32, &str)]) -> RecordSource {
    RecordSource {
        name: name.to_string(),
        sqsn: reference.to_string(),
        reads: reads.iter().map(|&(start, bases)| read(start, bases)).collect(),
    }
}

fn uniform(name: &str, reference: &str) -> RecordSource {
    source(name, reference, &[(0, "ACGT"), (0, "CGTA"), (0, "GTAC"), (0, "TACG")])
}

fn conserved(name: &str, reference: &str) -> RecordSource {
    source(name, reference, &[(0, "ACGT"), (0, "ACGT")])
}

#[test]
fn default_threshold_is_nearest_to_sixty_five_hundredths() {
    assert_eq!(DEFAULT_THRESHOLD, (0.65 * ONE as f64).round() as u64);
    assert!(DEFAULT_THRESHOLD > 0);
}

#[test]
fn full_range_spans_from_least_start_to_greatest_end() {
    assert_eq!(full_range(&vec![read(5, "ACGT"), read(2, "AC"), read(7, "ACGTA")]), (2, 12));
    assert_eq!(full_range(&vec![read(-3, "A")]), (-3, -2));
    assert_eq!(full_range(&vec![read(4, "")]), (4, 4));
}

#[test]
fn full_range_of_no_reads_is_empty() {
    assert_eq!(full_range(&Vec::new()), (i32::MAX, i32::MIN));
}

#[test]
fn full_range_stops_at_the_greatest_coordinate() {
    assert_eq!(full_range(&vec![read(i32::MAX - 1, "ACGT"), read(10, "A")]), (10, i32::MAX));
    assert_eq!(full_range(&vec![read(i32::MAX - 1, "A")]), (i32::MAX - 1, i32::MAX));
}

#[test]
fn builder_builds_the_samples_in_their_order() {
    let mut builder = BamDataBuilder::default();
    builder.add_bam(uniform("a", "chr1")).add_bam(conserved("b", "chr1"));
    let data = builder.in_range((0, 4)).with_threshold(ONE / 2).build().unwrap();
    assert_eq!(data.get_names(), vec!["a", "b"]);
    assert_eq!(data.alpha_diversity().to_vec(), vec![ONE, 0]);
    assert_eq!(data.beta_diversity().to_rows(), vec![vec![0, ONE], vec![ONE, 0]]);
}

#[test]
fn builder_adds_many_sources_behind_the_others() {
    let mut builder = BamDataBuilder::default();
    builder.add_bam(uniform("a", ""));
    builder.add_bams(vec![conserved("b", ""), uniform("c", "")]);
    builder.add_bams(Vec::new());
    assert_eq!(builder.build().unwrap().get_names(), vec!["a", "b", "c"]);
}

#[test]
fn builder_without_sources_builds_the_empty_set() {
    let data = BamDataBuilder::default().build().unwrap();
    assert_eq!(data.len(), 0);
    assert_eq!(data.beta_diversity().shape(), (0, 0));
}

#[test]
fn unset_range_is_the_full_range_of_each_source() {
    let mut builder = BamDataBuilder::default();
    builder.add_bam(source("far", "", &[(1000, "ACGT"), (1000, "CGTA")]));
    builder.add_bam(source("near", "", &[(-7, "AC"), (-7, "AC")]));
    let data = builder.build().unwrap();
    assert_eq!(data.get(0).unwrap().matrices.get_pfm().shape(), (4, 4));
    assert_eq!(data.get(1).unwrap().matrices.get_pfm().shape(), (4, 2));
    assert_eq!(data.alpha_diversity().to_vec(), vec![ONE / 2, 0]);
}

#[test]
fn set_range_discards_reads_outside() {
    let mut builder = BamDataBuilder::default();
    builder.add_bam(source("a", "", &[(0, "ACGT"), (2, "ACGT"), (1, "CC")]));
    let data = builder.in_range((0, 4)).with_threshold(0).build().unwrap();
    assert_eq!(
        data.get(0).unwrap().matrices.get_pfm().to_rows(),
        vec![vec![1, 0, 0, 0], vec![0, 2, 1, 0], vec![0, 0, 1, 0], vec![0, 0, 0, 1]]
    );
}

#[test]
fn default_threshold_trims_low_coverage() {
    let mut builder = BamDataBuilder::default();
    builder.add_bam(source("a", "", &[(0, "ACGT"), (1, "CG"), (1, "CG")]));
    let data = builder.build().unwrap();
    assert_eq!(data.get(0).unwrap().matrices.get_coverage().to_vec(), vec![ONE, ONE]);
    let mut loose = BamDataBuilder::default();
    loose.add_bam(source("a", "", &[(0, "ACGT"), (1, "CG"), (1, "CG")]));
    let data = loose.with_threshold(ONE / 4).build().unwrap();
    assert_eq!(data.get(0).unwrap().matrices.get_coverage().to_vec().len(), 4);
}

#[test]
fn checks_are_enabled_by_default() {
    let mut builder = BamDataBuilder::default();
    builder.add_bam(uniform("a", "chr1")).add_bam(conserved("b", "chr2"));
    assert_eq!(builder.build().err(), Some(QSAError::ReferenceMismatch));
    builder.with_checks(false);
    assert_eq!(builder.build().unwrap().get_names(), vec!["a", "b"]);
    builder.with_checks(true);
    assert_eq!(builder.build().err(), Some(QSAError::ReferenceMismatch));
}

#[test]
fn first_source_without_sample_ends_the_build() {
    let mut builder = BamDataBuilder::default();
    builder.add_bam(uniform("a", "chr1"));
    builder.add_bam(source("hole", "chr2", &[(0, "A"), (2, "A")]));
    builder.add_bam(source("none", "chr1", &[]));
    assert_eq!(builder.build().err(), Some(QSAError::DegenerateCoverage));
    let mut other = BamDataBuilder::default();
    other.add_bam(uniform("a", "chr1")).add_bam(uniform("b", "chr2"));
    assert_eq!(other.with_threshold(ONE).build().err(), Some(QSAError::NoConfidentRegion));
}

#[test]
fn source_without_reads_is_degenerate_coverage() {
    let mut builder = BamDataBuilder::default();
    builder.add_bam(source("none", "", &[]));
    assert_eq!(builder.build().err(), Some(QSAError::DegenerateCoverage));
}

#[test]
fn builder_of_small_windows_fits() {
    let mut builder = BamDataBuilder::default();
    assert!(builder.fits());
    builder.add_bam(uniform("a", "")).add_bam(conserved("b", ""));
    assert!(builder.fits());
    builder.in_range((-1000, 1000));
    assert!(builder.fits());
}
