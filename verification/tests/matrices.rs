use qsalib::array::{Matrix, Vector};
use qsalib::error::QSAError;
use qsalib::matrices::{
    confident_window, is_kept, row_of, window_fits, window_len, AlignedRead, Matrices,
};
use qsalib::score::ONE;

fn read(start: i32, bases: &str) -> AlignedRead {
    AlignedRead { start, sequence: bases.as_bytes().to_vec() }
}

fn score(x: f64) -> u64 {
    (x * ONE as f64).round() as u64
}

fn as_real(score: u64) -> f64 {
    score as f64 / ONE as f64
}

fn sample_reads() -> Vec<AlignedRead> {
    vec![
        read(10, "ACGT"),
        read(11, "AAAA"),
        read(12, "TN"),
        read(9, "AC"),
        read(13, "ACG"),
    ]
}

#[test]
fn bases_map_to_rows_in_order() {
    assert_eq!(row_of(b'A'), Some(0));
    assert_eq!(row_of(b'C'), Some(1));
    assert_eq!(row_of(b'G'), Some(2));
    assert_eq!(row_of(b'T'), Some(3));
}

#[test]
fn other_symbols_map_to_no_row() {
    assert_eq!(row_of(b'N'), None);
    assert_eq!(row_of(b'a'), None);
    assert_eq!(row_of(b'U'), None);
    assert_eq!(row_of(b'-'), None);
    assert_eq!(row_of(0), None);
}

#[test]
fn window_length_is_end_minus_start() {
    assert_eq!(window_len((10, 15)), 5);
    assert_eq!(window_len((-3, 4)), 7);
    assert_eq!(window_len((7, 7)), 0);
    assert_eq!(window_len((9, 2)), 0);
    assert_eq!(window_len((i32::MIN, i32::MAX)), u32::MAX as usize);
}

#[test]
fn read_is_kept_only_when_entirely_inside() {
    assert!(is_kept(&read(10, "ACGT"), (10, 14)));
    assert!(is_kept(&read(10, "ACGT"), (10, 15)));
    assert!(!is_kept(&read(10, "ACGT"), (10, 13)));
    assert!(!is_kept(&read(9, "ACGT"), (10, 15)));
    assert!(!is_kept(&read(14, "AC"), (10, 15)));
    assert!(is_kept(&read(15, ""), (10, 15)));
    assert!(!is_kept(&read(16, ""), (10, 15)));
}

#[test]
fn frequency_matrix_counts_each_base_of_each_kept_read() {
    let (pfm, _) = Matrices::pfm_coverage(&sample_reads(), (10, 15)).unwrap();
    assert_eq!(
        pfm.to_rows(),
        vec![
            vec![1, 1, 1, 1, 1],
            vec![0, 1, 0, 0, 0],
            vec![0, 0, 1, 0, 0],
            vec![0, 0, 1, 1, 0],
        ]
    );
}

#[test]
fn coverage_is_column_sum_over_maximum() {
    let (_, coverage) = Matrices::pfm_coverage(&sample_reads(), (10, 15)).unwrap();
    assert_eq!(
        coverage.to_vec(),
        vec![1431655765, 2863311530, 4294967296, 2863311530, 1431655765]
    );
}

#[test]
fn normalized_maximum_is_exactly_one() {
    let reads = vec![read(0, "AAAAAAA"), read(2, "CCC"), read(3, "G"), read(3, "T"), read(6, "N")];
    let (_, coverage) = Matrices::pfm_coverage(&reads, (0, 8)).unwrap();
    let scores = coverage.to_vec();
    assert_eq!(scores.iter().copied().max(), Some(ONE));
    assert_eq!(as_real(scores[3]), 1.0);
    assert!(scores.iter().all(|&s| s <= ONE));
    assert_eq!(scores[7], 0);
}

#[test]
fn no_usable_record_is_degenerate_coverage() {
    let reads = vec![read(0, "ACGT"), read(98, "ACGT"), read(200, "A")];
    assert_eq!(Matrices::pfm_coverage(&reads, (10, 100)).err(), Some(QSAError::DegenerateCoverage));
    assert_eq!(Matrices::new(&reads, (10, 100), score(0.5)).err(), Some(QSAError::DegenerateCoverage));
}

#[test]
fn no_record_at_all_is_degenerate_coverage() {
    assert_eq!(Matrices::new(&Vec::new(), (0, 10), 0).err(), Some(QSAError::DegenerateCoverage));
}

#[test]
fn only_uncounted_symbols_is_degenerate_coverage() {
    let reads = vec![read(2, "NNNN"), read(3, "acgt")];
    assert_eq!(Matrices::new(&reads, (0, 10), 0).err(), Some(QSAError::DegenerateCoverage));
}

#[test]
fn empty_window_is_degenerate_coverage() {
    let reads = vec![read(5, "ACGT")];
    assert_eq!(Matrices::new(&reads, (5, 5), 0).err(), Some(QSAError::DegenerateCoverage));
    assert_eq!(Matrices::new(&reads, (9, 5), 0).err(), Some(QSAError::DegenerateCoverage));
}

#[test]
fn trimmed_index_range_of_the_coverage_example() {
    let coverage = Vector::from_vec(vec![
        0,
        0,
        score(0.8),
        score(0.9),
        score(0.85),
        0,
        0,
    ]);
    assert_eq!(confident_window(&coverage, score(0.5)), Ok((2, 4)));
}

#[test]
fn threshold_comparison_is_strict() {
    let coverage = Vector::from_vec(vec![5, 6, 7, 6, 5]);
    assert_eq!(confident_window(&coverage, 5), Ok((1, 3)));
    assert_eq!(confident_window(&coverage, 6), Ok((2, 2)));
    assert_eq!(confident_window(&coverage, 4), Ok((0, 4)));
    assert_eq!(confident_window(&coverage, 7), Err(QSAError::NoConfidentRegion));
}

#[test]
fn confident_window_of_nothing_is_no_confident_region() {
    assert_eq!(confident_window(&Vector::from_vec(Vec::new()), 0), Err(QSAError::NoConfidentRegion));
    assert_eq!(confident_window(&Vector::from_vec(vec![0, 0]), 0), Err(QSAError::NoConfidentRegion));
}

#[test]
fn threshold_of_one_leaves_no_confident_region() {
    assert_eq!(
        Matrices::new(&sample_reads(), (10, 15), ONE).err(),
        Some(QSAError::NoConfidentRegion)
    );
    assert_eq!(
        Matrices::new(&sample_reads(), (10, 15), u64::MAX).err(),
        Some(QSAError::NoConfidentRegion)
    );
}

#[test]
fn matrices_are_trimmed_to_the_confident_region() {
    let m = Matrices::new(&sample_reads(), (10, 15), score(0.5)).unwrap();
    assert_eq!(
        m.get_pfm().to_rows(),
        vec![vec![1, 1, 1], vec![1, 0, 0], vec![0, 1, 0], vec![0, 1, 1]]
    );
    assert_eq!(m.get_coverage().to_vec(), vec![2863311530, 4294967296, 2863311530]);
    assert_eq!(m.get_pfm().shape(), (4, 3));
    assert_eq!(m.get_ppm().shape(), (4, 3));
    assert_eq!(m.get_efficiency().to_vec().len(), 3);
}

#[test]
fn threshold_just_below_the_maximum_keeps_one_column() {
    let m = Matrices::new(&sample_reads(), (10, 15), ONE - 1).unwrap();
    assert_eq!(m.get_pfm().to_rows(), vec![vec![1], vec![0], vec![1], vec![1]]);
    assert_eq!(m.get_coverage().to_vec(), vec![ONE]);
}

#[test]
fn probabilities_divide_by_the_raw_column_sum() {
    let m = Matrices::new(&sample_reads(), (10, 15), score(0.5)).unwrap();
    let half = ONE / 2;
    let third = 1431655765;
    assert_eq!(
        m.get_ppm().to_rows(),
        vec![
            vec![half, third, half],
            vec![half, 0, 0],
            vec![0, third, 0],
            vec![0, third, half],
        ]
    );
}

#[test]
fn probability_column_of_three_to_one() {
    let pfm = Matrix::from_rows(&vec![vec![3], vec![1], vec![0], vec![0]]).unwrap();
    let ppm = Matrices::ppm(&pfm).unwrap();
    let column: Vec<f64> = ppm.to_rows().iter().map(|row| as_real(row[0])).collect();
    assert_eq!(column, vec![0.75, 0.25, 0.0, 0.0]);
    let efficiency = as_real(Matrices::efficiency(&ppm).to_vec()[0]);
    let exact = -(0.75 * 0.75f64.log2() + 0.25 * 0.25f64.log2()) / 4f64.log2();
    assert!((efficiency - exact).abs() < 1e-6);
    assert!((efficiency - 0.405639).abs() < 1e-6);
}

#[test]
fn column_without_counts_has_no_probabilities() {
    let pfm = Matrix::from_rows(&vec![vec![3, 0, 1], vec![1, 0, 0], vec![0, 0, 0], vec![0, 0, 2]])
        .unwrap();
    assert_eq!(Matrices::ppm(&pfm).err(), Some(QSAError::DegenerateCoverage));
}

#[test]
fn hole_inside_the_confident_region_is_degenerate_coverage() {
    let reads = vec![read(0, "AC"), read(3, "GT")];
    assert_eq!(Matrices::new(&reads, (0, 5), 0).err(), Some(QSAError::DegenerateCoverage));
    assert_eq!(Matrices::new(&reads, (0, 5), score(0.5)).err(), Some(QSAError::DegenerateCoverage));
}

#[test]
fn threshold_zero_trims_the_uncovered_flanks() {
    let reads = vec![read(3, "ACG"), read(4, "CC")];
    let m = Matrices::new(&reads, (0, 10), 0).unwrap();
    assert_eq!(m.get_pfm().to_rows(), vec![vec![1, 0, 0], vec![0, 2, 1], vec![0, 0, 1], vec![0, 0, 0]]);
    assert_eq!(m.get_coverage().to_vec(), vec![ONE / 2, ONE, ONE]);
}

#[test]
fn efficiency_of_uniform_and_of_conserved_columns() {
    let q = ONE / 4;
    let ppm = Matrix::from_rows(&vec![
        vec![q, ONE, 0, 0, 0],
        vec![q, 0, ONE, 0, 0],
        vec![q, 0, 0, ONE, 0],
        vec![q, 0, 0, 0, ONE],
    ])
    .unwrap();
    assert_eq!(Matrices::efficiency(&ppm).to_vec(), vec![ONE, 0, 0, 0, 0]);
}

#[test]
fn efficiency_of_each_position_of_a_sample() {
    let m = Matrices::new(&sample_reads(), (10, 15), score(0.5)).unwrap();
    let efficiency = m.get_efficiency().to_vec();
    assert_eq!(efficiency[0], ONE / 2);
    assert_eq!(efficiency[2], ONE / 2);
    assert!((as_real(efficiency[1]) - 3f64.log2() / 2.0).abs() < 1e-6);
}

#[test]
fn uniform_sample_has_efficiency_one_everywhere() {
    let reads = vec![read(0, "ACGT"), read(0, "CGTA"), read(0, "GTAC"), read(0, "TACG")];
    let m = Matrices::new(&reads, (0, 4), score(0.65)).unwrap();
    assert_eq!(m.get_efficiency().to_vec(), vec![ONE, ONE, ONE, ONE]);
    assert_eq!(m.get_coverage().to_vec(), vec![ONE, ONE, ONE, ONE]);
}

#[test]
fn frequency_records_hold_one_position_each() {
    let m = Matrices::new(&sample_reads(), (10, 15), score(0.5)).unwrap();
    assert_eq!(m.pfm_records(), vec![vec![1, 1, 0, 0], vec![1, 0, 1, 1], vec![1, 0, 0, 1]]);
}

#[test]
fn negative_coordinates_are_positions_like_any_other() {
    let reads = vec![read(-5, "AC"), read(-4, "CG"), read(-6, "T")];
    let (pfm, _) = Matrices::pfm_coverage(&reads, (-5, -2)).unwrap();
    assert_eq!(pfm.to_rows(), vec![vec![1, 0, 0], vec![0, 2, 0], vec![0, 0, 1], vec![0, 0, 0]]);
}

#[test]
fn windows_fit_while_their_cells_fit_the_address_space() {
    assert!(window_fits((0, 0)));
    assert!(window_fits((10, 15)));
    assert!(window_fits((0, 1 << 20)));
    assert_eq!(window_fits((i32::MIN, i32::MAX)), usize::BITS >= 64);
}

#[test]
fn rare_nucleotide_keeps_a_probability_above_zero() {
    let pfm = Matrix::from_rows(&vec![vec![1], vec![1 << 33], vec![0], vec![0]]).unwrap();
    let ppm = Matrices::ppm(&pfm).unwrap().to_rows();
    assert_eq!(ppm, vec![vec![1], vec![ONE - 1], vec![0], vec![0]]);
    let pfm = Matrix::from_rows(&vec![vec![1, 0], vec![1, 7], vec![1, 0], vec![u64::MAX - 3, 0]])
        .unwrap();
    let ppm = Matrices::ppm(&pfm).unwrap().to_rows();
    assert_eq!(ppm, vec![vec![1, 0], vec![1, ONE], vec![1, 0], vec![ONE - 1, 0]]);
}

#[test]
fn efficiency_is_zero_of_conserved_columns_only() {
    let pfm = Matrix::from_rows(&vec![
        vec![9, 1 << 40, 0, 1],
        vec![0, 1, 0, 1 << 33],
        vec![0, 0, 7, 0],
        vec![0, 0, 0, 0],
    ])
    .unwrap();
    let ppm = Matrices::ppm(&pfm).unwrap();
    let efficiency = Matrices::efficiency(&ppm).to_vec();
    assert_eq!(efficiency[0], 0);
    assert!(efficiency[1] > 0);
    assert_eq!(efficiency[2], 0);
    assert!(efficiency[3] > 0);
}
