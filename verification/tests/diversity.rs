use qsalib::array::Vector;
use qsalib::bam::{Bam, BamData};
use qsalib::error::QSAError;
use qsalib::matrices::AlignedRead;
use qsalib::score::ONE;

fn read(start: i32, bases: &str) -> AlignedRead {
    AlignedRead { start, sequence: bases.as_bytes().to_vec() }
}

fn sample(name: &str, reference: &str, reads: &[(i32, &str)]) -> Bam {
    let reads: Vec<AlignedRead> = reads.iter().map(|&(start, bases)| read(start, bases)).collect();
    Bam::new(name.to_string(), reference.to_string(), &reads, (0, 4), ONE / 2).unwrap()
}

/// Efficiency 0 at every position: alpha 0.
fn conserved(name: &str, reference: &str) -> Bam {
    sample(name, reference, &[(0, "ACGT"), (0, "ACGT")])
}

/// Efficiency 1 at every position: alpha 1.
fn uniform(name: &str, reference: &str) -> Bam {
    sample(name, reference, &[(0, "ACGT"), (0, "CGTA"), (0, "GTAC"), (0, "TACG")])
}

/// Efficiency 1/2 at every position: alpha 1/2.
fn halved(name: &str, reference: &str) -> Bam {
    sample(name, reference, &[(0, "ACGT"), (0, "CGTA")])
}

/// Efficiencies 1/2, 1/2, 0, 0: alpha 1/4.
fn quartered(name: &str, reference: &str) -> Bam {
    sample(name, reference, &[(0, "ACGT"), (0, "CAGT")])
}

fn state(data: &BamData) -> (Vec<u64>, Vec<Vec<u64>>, Vec<String>) {
    (data.alpha_diversity().to_vec(), data.beta_diversity().to_rows(), data.get_names())
}

#[test]
fn sample_keeps_name_and_reference() {
    let bam = uniform("first", "chr1");
    assert_eq!(bam.name, "first");
    assert_eq!(bam.reference(), "chr1");
    assert_eq!(bam.matrices.get_pfm().shape(), (4, 4));
}

#[test]
fn sample_without_confident_region_is_refused() {
    let reads = vec![read(0, "ACGT")];
    let made = Bam::new("x".to_string(), "".to_string(), &reads, (0, 4), ONE);
    assert_eq!(made.err(), Some(QSAError::NoConfidentRegion));
    let made = Bam::new("x".to_string(), "".to_string(), &reads, (10, 20), ONE / 2);
    assert_eq!(made.err(), Some(QSAError::DegenerateCoverage));
}

#[test]
fn sample_can_be_renamed() {
    let mut bam = uniform("first", "chr1");
    bam.set_name("second".to_string());
    assert_eq!(bam.name, "second");
    assert_eq!(bam.reference(), "chr1");
    bam.set_name("third".to_string()).set_name("fourth".to_string());
    assert_eq!(bam.name, "fourth");
}

#[test]
fn alpha_diversity_is_the_mean_efficiency() {
    assert_eq!(conserved("a", "").alpha_diversity(), 0);
    assert_eq!(uniform("a", "").alpha_diversity(), ONE);
    assert_eq!(halved("a", "").alpha_diversity(), ONE / 2);
    let bam = quartered("a", "");
    assert_eq!(bam.matrices.get_efficiency().to_vec(), vec![ONE / 2, ONE / 2, 0, 0]);
    assert_eq!(bam.alpha_diversity(), ONE / 4);
}

#[test]
fn alpha_diversity_rounds_the_mean_down() {
    let bam = sample("a", "", &[(0, "ACG"), (0, "CAG"), (0, "ACG"), (0, "CAG")]);
    let efficiency = bam.matrices.get_efficiency().to_vec();
    assert_eq!(efficiency, vec![ONE / 2, ONE / 2, 0]);
    let sum: u64 = efficiency.iter().sum();
    assert_eq!(bam.alpha_diversity(), sum / 3);
    assert_eq!(bam.alpha_diversity(), 1431655765);
}

#[test]
fn frequency_records_of_a_sample() {
    let bam = quartered("a", "");
    assert_eq!(
        bam.pfm_records(),
        vec![vec![1, 1, 0, 0], vec![1, 1, 0, 0], vec![0, 0, 2, 0], vec![0, 0, 0, 2]]
    );
}

#[test]
fn bulk_build_computes_alpha_and_beta() {
    let data = BamData::from_bams(
        vec![conserved("a", "r"), uniform("b", "r"), quartered("c", "")],
        true,
    )
    .unwrap();
    assert_eq!(data.alpha_diversity().to_vec(), vec![0, ONE, ONE / 4]);
    assert_eq!(
        data.beta_diversity().to_rows(),
        vec![
            vec![0, ONE, ONE / 4],
            vec![ONE, 0, 3 * (ONE / 4)],
            vec![ONE / 4, 3 * (ONE / 4), 0],
        ]
    );
    assert_eq!(data.get_names(), vec!["a", "b", "c"]);
}

#[test]
fn bulk_build_of_no_samples() {
    let data = BamData::from_bams(Vec::new(), true).unwrap();
    assert_eq!(data.alpha_diversity().to_vec(), Vec::<u64>::new());
    assert_eq!(data.beta_diversity().shape(), (0, 0));
    assert_eq!(data.get_names(), Vec::<String>::new());
}

#[test]
fn beta_matrix_is_symmetric_with_zero_diagonal() {
    let data = BamData::from_bams(
        vec![halved("a", ""), uniform("b", ""), quartered("c", ""), conserved("d", "")],
        false,
    )
    .unwrap();
    let alpha = data.alpha_diversity().to_vec();
    let beta = data.beta_diversity().to_rows();
    assert_eq!(beta.len(), 4);
    for i in 0..4 {
        assert_eq!(beta[i].len(), 4);
        assert_eq!(beta[i][i], 0);
        for j in 0..4 {
            assert_eq!(beta[i][j], beta[j][i]);
            assert_eq!(beta[i][j], alpha[i].abs_diff(alpha[j]));
        }
    }
}

#[test]
fn pushes_build_what_the_bulk_build_builds() {
    let make = || vec![halved("a", "r"), uniform("b", ""), quartered("c", "r"), conserved("d", "r")];
    let bulk = BamData::from_bams(make(), true).unwrap();
    let mut grown = BamData::default();
    for (count, bam) in make().into_iter().enumerate() {
        assert_eq!(grown.push(bam), Ok(()));
        let prefix: Vec<Bam> = make().into_iter().take(count + 1).collect();
        assert_eq!(state(&grown), state(&BamData::from_bams(prefix, false).unwrap()));
    }
    assert_eq!(state(&grown), state(&bulk));
    assert_eq!(grown.beta_diversity().shape(), (4, 4));
}

#[test]
fn push_onto_the_empty_set() {
    let mut data = BamData::default();
    assert_eq!(state(&data), (Vec::new(), Vec::new(), Vec::new()));
    assert_eq!(data.push(uniform("only", "chr1")), Ok(()));
    assert_eq!(state(&data), (vec![ONE], vec![vec![0]], vec!["only".to_string()]));
}

#[test]
fn push_with_unknown_reference_is_refused_and_changes_nothing() {
    let mut data =
        BamData::from_bams(vec![conserved("a", "chr1"), uniform("b", ""), halved("c", "chr1")], true)
            .unwrap();
    let before = state(&data);
    assert_eq!(data.push(quartered("d", "chr2")), Err(QSAError::ReferenceMismatch));
    assert_eq!(state(&data), before);
    assert_eq!(data.beta_diversity().shape(), (3, 3));
}

#[test]
fn push_with_known_or_without_reference_is_accepted() {
    let mut data = BamData::from_bams(vec![conserved("a", "chr1"), uniform("b", "")], true).unwrap();
    assert_eq!(data.push(quartered("c", "chr1")), Ok(()));
    assert_eq!(data.push(halved("d", "")), Ok(()));
    assert_eq!(data.alpha_diversity().to_vec(), vec![0, ONE, ONE / 4, ONE / 2]);
    assert_eq!(
        data.beta_diversity().to_rows(),
        vec![
            vec![0, ONE, ONE / 4, ONE / 2],
            vec![ONE, 0, 3 * (ONE / 4), ONE / 2],
            vec![ONE / 4, 3 * (ONE / 4), 0, ONE / 4],
            vec![ONE / 2, ONE / 2, ONE / 4, 0],
        ]
    );
    assert_eq!(data.get_names(), vec!["a", "b", "c", "d"]);
}

#[test]
fn push_with_reference_onto_samples_without_any_is_refused() {
    let mut data = BamData::from_bams(vec![conserved("a", ""), uniform("b", "")], true).unwrap();
    let before = state(&data);
    assert_eq!(data.push(halved("c", "chr1")), Err(QSAError::ReferenceMismatch));
    assert_eq!(state(&data), before);
    let mut none = BamData::from_bams(Vec::new(), true).unwrap();
    assert_eq!(none.push(halved("c", "chr1")), Err(QSAError::ReferenceMismatch));
    assert_eq!(state(&none), (Vec::new(), Vec::new(), Vec::new()));
}

#[test]
fn push_without_checks_accepts_any_reference() {
    let mut data = BamData::from_bams(vec![conserved("a", "chr1")], false).unwrap();
    assert_eq!(data.push(uniform("b", "chr2")), Ok(()));
    assert_eq!(data.alpha_diversity().to_vec(), vec![0, ONE]);
    assert_eq!(data.beta_diversity().to_rows(), vec![vec![0, ONE], vec![ONE, 0]]);
}

#[test]
fn bulk_build_refuses_differing_references() {
    let made = BamData::from_bams(vec![conserved("a", "chr1"), uniform("b", "chr2")], true);
    assert_eq!(made.err(), Some(QSAError::ReferenceMismatch));
}

#[test]
fn bulk_build_compares_every_pair_of_references() {
    let made = BamData::from_bams(
        vec![conserved("a", "chr1"), uniform("b", ""), halved("c", "chr2")],
        true,
    );
    assert_eq!(made.err(), Some(QSAError::ReferenceMismatch));
}

#[test]
fn bulk_build_exempts_samples_without_reference() {
    let made = BamData::from_bams(
        vec![conserved("a", ""), uniform("b", "chr1"), halved("c", ""), quartered("d", "chr1")],
        true,
    );
    assert!(made.is_ok());
    assert!(BamData::from_bams(vec![conserved("a", ""), uniform("b", "")], true).is_ok());
}

#[test]
fn bulk_build_without_checks_accepts_differing_references() {
    let made = BamData::from_bams(vec![conserved("a", "chr1"), uniform("b", "chr2")], false);
    assert_eq!(made.unwrap().get_names(), vec!["a", "b"]);
}

#[test]
fn set_counts_and_lends_its_samples() {
    let data = BamData::from_bams(vec![halved("a", ""), uniform("b", "")], false).unwrap();
    assert_eq!(data.len(), 2);
    assert_eq!(data.get(0).unwrap().name, "a");
    assert_eq!(data.get(1).unwrap().name, "b");
    assert!(data.get(2).is_none());
    assert_eq!(BamData::default().len(), 0);
}

#[test]
fn walk_lends_the_samples_in_their_order() {
    let data =
        BamData::from_bams(vec![halved("a", ""), uniform("b", ""), conserved("c", "")], false).unwrap();
    let mut walk = data.iter();
    let mut names = Vec::new();
    while let Some(bam) = walk.next() {
        names.push(bam.name.clone());
    }
    assert_eq!(names, vec!["a", "b", "c"]);
    assert!(walk.next().is_none());
    assert_eq!(data.len(), 3);
}

#[test]
fn walk_hands_over_the_samples_in_their_order() {
    let data =
        BamData::from_bams(vec![halved("a", ""), uniform("b", ""), conserved("c", "")], false).unwrap();
    let mut walk = data.into_iter();
    let mut alphas = Vec::new();
    while let Some(bam) = walk.next() {
        alphas.push((bam.name.clone(), bam.alpha_diversity()));
    }
    assert_eq!(
        alphas,
        vec![("a".to_string(), ONE / 2), ("b".to_string(), ONE), ("c".to_string(), 0)]
    );
    assert!(walk.next().is_none());
}

#[test]
fn walk_over_no_samples_ends_at_once() {
    let data = BamData::default();
    assert!(data.iter().next().is_none());
    assert!(data.into_iter().next().is_none());
}

#[test]
fn beta_pairs_list_the_upper_triangle() {
    let data = BamData::from_bams(
        vec![conserved("a", ""), uniform("b", ""), quartered("c", ""), halved("d", "")],
        false,
    )
    .unwrap();
    assert_eq!(
        data.beta_pairs(),
        vec![ONE, ONE / 4, ONE / 2, 3 * (ONE / 4), ONE / 2, ONE / 4]
    );
    assert_eq!(BamData::default().beta_pairs(), Vec::<u64>::new());
    let one = BamData::from_bams(vec![uniform("b", "")], false).unwrap();
    assert_eq!(one.beta_pairs(), Vec::<u64>::new());
}

#[test]
fn set_can_hold_what_its_beta_matrix_can() {
    assert!(BamData::can_hold(0));
    assert!(BamData::can_hold(1000));
    assert!(!BamData::can_hold(usize::MAX));
    assert!(!BamData::can_hold(1 << (usize::BITS / 2)));
}

#[test]
fn beta_matrix_has_one_column_per_sample() {
    assert_eq!(BamData::default().beta_diversity().shape(), (0, 0));
    assert_eq!(BamData::from_bams(Vec::new(), false).unwrap().beta_diversity().shape(), (0, 0));
    let mut data = BamData::default();
    for count in 1..6 {
        assert_eq!(data.push(halved("x", "")), Ok(()));
        assert_eq!(data.beta_diversity().shape(), (count, count));
        assert_eq!(data.alpha_diversity().to_vec().len(), count);
    }
}

#[test]
fn sample_lends_its_name_and_matrices() {
    let bam = quartered("first", "chr1");
    assert_eq!(bam.name(), "first");
    assert_eq!(bam.matrices().get_efficiency().to_vec(), vec![ONE / 2, ONE / 2, 0, 0]);
}

#[test]
fn beta_of_an_alpha_vector_holds_every_distance() {
    let beta = BamData::beta(&Vector::from_vec(vec![5, 9, 2]));
    assert_eq!(beta.to_rows(), vec![vec![0, 4, 3], vec![4, 0, 7], vec![3, 7, 0]]);
    assert_eq!(BamData::beta(&Vector::from_vec(Vec::new())).shape(), (0, 0));
}
