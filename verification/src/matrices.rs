use crate::array::{column_total, columns_of, rectangular, Matrix, Vector};
use crate::error::QSAError;
use crate::score::{
    efficiency_of,
    entropy_term,
    lemma_efficiency_of_certainty,
    lemma_entropy_of_small_share,
    ratio,
    spec_efficiency,
    spec_ratio,
    ONE,
};
use vstd::prelude::*;

verus! {

/// One aligned read: the coordinate of its first base and its bases as
/// ASCII letters.
pub struct AlignedRead {
    pub start: i32,
    pub sequence: Vec<u8>,
}

/// The matrices of one sample over its confident region.
pub struct Matrices {
    pfm: Matrix,
    coverage: Vector,
    ppm: Matrix,
    efficiency: Vector,
}

/// The number of rows of a frequency matrix: one per nucleotide.
pub const NUCLEOTIDES: usize = 4;

/// The row that counts a base: `A`, `C`, `G`, `T` in this order. Any other
/// symbol is not counted.
pub open spec fn base_row(base: u8) -> Option<int> {
    if base == 65 {
        Some(0)
    } else if base == 67 {
        Some(1)
    } else if base == 71 {
        Some(2)
    } else if base == 84 {
        Some(3)
    } else {
        None
    }
}

/// The number of positions of the window `[range.0, range.1)`.
pub open spec fn window_width(range: (i32, i32)) -> nat {
    if range.1 > range.0 {
        (range.1 - range.0) as nat
    } else {
        0
    }
}

/// The coordinate behind the last base of a read, or the greatest
/// coordinate there is where the read reaches beyond it.
pub open spec fn capped_end(read: AlignedRead) -> int {
    if read.start + read.sequence@.len() > i32::MAX {
        i32::MAX as int
    } else {
        read.start + read.sequence@.len()
    }
}

/// The least start of the reads, and the greatest coordinate for no reads.
pub open spec fn lowest_start(reads: Seq<AlignedRead>) -> int
    decreases reads.len(),
{
    if reads.len() == 0 {
        i32::MAX as int
    } else if reads.last().start < lowest_start(reads.drop_last()) {
        reads.last().start as int
    } else {
        lowest_start(reads.drop_last())
    }
}

/// The greatest end of the reads, and the least coordinate for no reads.
pub open spec fn highest_end(reads: Seq<AlignedRead>) -> int
    decreases reads.len(),
{
    if reads.len() == 0 {
        i32::MIN as int
    } else if capped_end(reads.last()) > highest_end(reads.drop_last()) {
        capped_end(reads.last())
    } else {
        highest_end(reads.drop_last())
    }
}

/// The full range of the reads: the window from their least start to
/// their greatest end. For no reads it is empty.
pub open spec fn covering(reads: Seq<AlignedRead>) -> (i32, i32) {
    (lowest_start(reads) as i32, highest_end(reads) as i32)
}

/// A read is kept when it lies entirely within the window.
pub open spec fn kept(read: AlignedRead, range: (i32, i32)) -> bool {
    range.0 <= read.start && read.start + read.sequence@.len() <= range.1
}

/// The read is kept and puts the nucleotide of row `row` at column `col`
/// of the window.
pub open spec fn places(read: AlignedRead, range: (i32, i32), row: int, col: int) -> bool {
    let offset = range.0 + col - read.start;
    kept(read, range) && 0 <= offset < read.sequence@.len() && base_row(read.sequence@[offset])
        == Some(row)
}

/// The number of reads that put the nucleotide of row `row` at column `col`.
pub open spec fn tally(reads: Seq<AlignedRead>, range: (i32, i32), row: int, col: int) -> nat
    decreases reads.len(),
{
    if reads.len() == 0 {
        0
    } else {
        tally(reads.drop_last(), range, row, col) + if places(reads.last(), range, row, col) {
            1nat
        } else {
            0nat
        }
    }
}

/// The frequency matrix of the reads over the window: four rows, one
/// column per position, each cell a `tally`.
pub open spec fn frequency(reads: Seq<AlignedRead>, range: (i32, i32)) -> Seq<Seq<u64>> {
    Seq::new(
        NUCLEOTIDES as nat,
        |r: int| Seq::new(window_width(range), |c: int| tally(reads, range, r, c) as u64),
    )
}

/// The sum of each column of a matrix of `width` columns.
pub open spec fn column_totals(rows: Seq<Seq<u64>>, width: nat) -> Seq<int> {
    Seq::new(width, |c: int| column_total(rows, c))
}

/// The greatest item, and 0 for no items.
pub open spec fn maximum(items: Seq<int>) -> int
    decreases items.len(),
{
    if items.len() == 0 {
        0
    } else if items.last() > maximum(items.drop_last()) {
        items.last()
    } else {
        maximum(items.drop_last())
    }
}

/// Every depth divided by the greatest of them, as scores.
pub open spec fn normalized(depths: Seq<int>) -> Seq<u64> {
    Seq::new(depths.len(), |i: int| spec_ratio(depths[i] as nat, maximum(depths) as nat) as u64)
}

/// The index of the first score above the threshold, or the number of
/// scores when none is above it.
pub open spec fn first_above(scores: Seq<u64>, threshold: u64) -> int
    decreases scores.len(),
{
    if scores.len() == 0 {
        0
    } else if scores[0] > threshold {
        0
    } else {
        1 + first_above(scores.drop_first(), threshold)
    }
}

/// The index of the last score above the threshold, or -1 when none is
/// above it.
pub open spec fn last_above(scores: Seq<u64>, threshold: u64) -> int
    decreases scores.len(),
{
    if scores.len() == 0 {
        -1
    } else if scores.last() > threshold {
        scores.len() - 1
    } else {
        last_above(scores.drop_last(), threshold)
    }
}

/// Some column of the matrix has no count at all.
pub open spec fn has_empty_column(rows: Seq<Seq<u64>>) -> bool {
    exists|c: int| 0 <= c < rows[0].len() && column_total(rows, c) == 0
}

/// One nucleotide holds every count of the column.
pub open spec fn conserved(rows: Seq<Seq<u64>>, c: int) -> bool {
    exists|r: int| 0 <= r < 4 && (#[trigger] rows[r])[c] == column_total(rows, c)
}

/// Every count divided by the total of its column, as scores.
pub open spec fn probabilities(rows: Seq<Seq<u64>>) -> Seq<Seq<u64>> {
    Seq::new(
        rows.len(),
        |r: int|
            Seq::new(
                rows[r].len(),
                |c: int| spec_ratio(rows[r][c] as nat, column_total(rows, c) as nat) as u64,
            ),
    )
}

/// The efficiency of every column of a matrix of four rows of
/// probabilities.
pub open spec fn efficiencies(rows: Seq<Seq<u64>>) -> Seq<u64> {
    Seq::new(
        rows[0].len(),
        |c: int|
            spec_efficiency(
                rows[0][c] as nat,
                rows[1][c] as nat,
                rows[2][c] as nat,
                rows[3][c] as nat,
            ) as u64,
    )
}

/// What a `Matrices` holds.
pub struct MatricesView {
    /// The counts of each nucleotide at each position of the region.
    pub pfm: Seq<Seq<u64>>,
    /// The normalized coverage of each position of the region.
    pub coverage: Seq<u64>,
    /// The probability of each nucleotide at each position of the region.
    pub ppm: Seq<Seq<u64>>,
    /// The efficiency of each position of the region.
    pub efficiency: Seq<u64>,
}

impl MatricesView {
    /// The four arrays have the same number of columns, at least one, and
    /// follow from the counts.
    pub open spec fn wf(self) -> bool {
        &&& self.pfm.len() == 4
        &&& 0 < self.coverage.len() <= u32::MAX
        &&& rectangular(self.pfm, self.coverage.len())
        &&& forall|c: int| 0 <= c < self.coverage.len() ==> 0 < #[trigger] column_total(self.pfm, c) <= u64::MAX
        &&& forall|c: int| 0 <= c < self.coverage.len() ==> #[trigger] self.coverage[c] <= ONE
        &&& self.ppm == probabilities(self.pfm)
        &&& self.efficiency == efficiencies(self.ppm)
    }
}

/// The matrices of the reads over the confident region of the window, or
/// the reason why there are none.
pub open spec fn analysis(reads: Seq<AlignedRead>, range: (i32, i32), threshold: u64) -> Result<
    MatricesView,
    QSAError,
> {
    let full = frequency(reads, range);
    let depths = column_totals(full, window_width(range));
    let coverage = normalized(depths);
    let left = first_above(coverage, threshold);
    let right = last_above(coverage, threshold);
    let pfm = columns_of(full, left, right);
    if maximum(depths) == 0 {
        Err(QSAError::DegenerateCoverage)
    } else if left >= coverage.len() {
        Err(QSAError::NoConfidentRegion)
    } else if has_empty_column(pfm) {
        Err(QSAError::DegenerateCoverage)
    } else {
        Ok(
            MatricesView {
                pfm,
                coverage: coverage.subrange(left, right + 1),
                ppm: probabilities(pfm),
                efficiency: efficiencies(probabilities(pfm)),
            },
        )
    }
}

/// A tally counts each read at most once.
pub proof fn lemma_tally_bound(reads: Seq<AlignedRead>, range: (i32, i32), row: int, col: int)
    ensures
        tally(reads, range, row, col) <= reads.len(),
    decreases reads.len(),
{
    if reads.len() > 0 {
        lemma_tally_bound(reads.drop_last(), range, row, col);
    }
}

/// A read counts in at most one row of a column, so the four tallies of a
/// column add up to at most the number of reads.
pub proof fn lemma_depth_bound(reads: Seq<AlignedRead>, range: (i32, i32), col: int)
    ensures
        tally(reads, range, 0, col) + tally(reads, range, 1, col) + tally(reads, range, 2, col)
            + tally(reads, range, 3, col) <= reads.len(),
    decreases reads.len(),
{
    if reads.len() > 0 {
        lemma_depth_bound(reads.drop_last(), range, col);
    }
}

/// The total of a column of a matrix of four rows.
pub proof fn lemma_column_total_four(rows: Seq<Seq<u64>>, c: int)
    requires
        rows.len() == 4,
    ensures
        column_total(rows, c) == rows[0][c] + rows[1][c] + rows[2][c] + rows[3][c],
{
    let three = rows.drop_last();
    let two = three.drop_last();
    let one = two.drop_last();
    assert(column_total(one.drop_last(), c) == 0);
    assert(column_total(one, c) == rows[0][c]);
    assert(column_total(two, c) == rows[0][c] + rows[1][c]);
    assert(column_total(three, c) == rows[0][c] + rows[1][c] + rows[2][c]);
}

/// The greatest item is an upper bound and, when there are items, one of
/// them.
pub proof fn lemma_maximum(items: Seq<int>)
    requires
        forall|i: int| 0 <= i < items.len() ==> items[i] >= 0,
    ensures
        forall|i: int| 0 <= i < items.len() ==> items[i] <= maximum(items),
        maximum(items) >= 0,
        items.len() > 0 ==> exists|i: int| 0 <= i < items.len() && items[i] == maximum(items),
    decreases items.len(),
{
    if items.len() > 0 {
        let front = items.drop_last();
        lemma_maximum(front);
        assert forall|i: int| 0 <= i < items.len() implies items[i] <= maximum(items) by {
            if i < front.len() {
                assert(front[i] == items[i]);
            }
        }
        if items.last() > maximum(front) {
            assert(items[items.len() - 1] == maximum(items));
        } else if front.len() > 0 {
            let i = choose|i: int| 0 <= i < front.len() && front[i] == maximum(front);
            assert(items[i] == maximum(items));
        } else {
            assert(items[0] == maximum(items));
        }
    }
}

/// After normalization no score exceeds `ONE`, and where a depth is
/// positive the greatest score is exactly `ONE`. A score is `ONE` only of a
/// greatest depth, and 0 only of the depth 0.
pub proof fn lemma_normalized_peak(depths: Seq<int>)
    requires
        forall|i: int| 0 <= i < depths.len() ==> depths[i] >= 0,
        exists|i: int| 0 <= i < depths.len() && depths[i] > 0,
    ensures
        forall|i: int| 0 <= i < depths.len() ==> (#[trigger] normalized(depths)[i]) <= ONE,
        exists|i: int| 0 <= i < depths.len() && normalized(depths)[i] == ONE,
        forall|i: int|
            0 <= i < depths.len() ==> ((#[trigger] normalized(depths)[i]) == 0 <==> depths[i] == 0),
        forall|i: int|
            0 <= i < depths.len() ==> ((#[trigger] normalized(depths)[i]) == ONE <==> depths[i]
                == maximum(depths)),
{
    lemma_maximum(depths);
    let peak = maximum(depths);
    let top = choose|i: int| 0 <= i < depths.len() && depths[i] == peak;
    let some = choose|i: int| 0 <= i < depths.len() && depths[i] > 0;
    assert(depths[some] <= peak);
    assert forall|i: int| 0 <= i < depths.len() implies (#[trigger] normalized(depths)[i]) <= ONE && (
    normalized(depths)[i] == 0 <==> depths[i] == 0) && (normalized(depths)[i] == ONE <==> depths[i]
        == peak) by {
        lemma_ratio_bound(depths[i] as nat, peak as nat);
    }
    lemma_ratio_bound(peak as nat, peak as nat);
    assert(normalized(depths)[top] == ONE);
}

/// A part of a whole is a score of at most `ONE`: exactly `ONE` for the
/// whole itself, and 0 for no part only.
pub proof fn lemma_ratio_bound(part: nat, whole: nat)
    requires
        part <= whole,
        whole > 0,
    ensures
        spec_ratio(part, whole) <= ONE,
        spec_ratio(part, whole) == ONE <==> part == whole,
        spec_ratio(part, whole) == 0 <==> part == 0,
{
    crate::score::lemma_ratio_resolution(part, whole);
    assert(part * ONE as nat / whole <= ONE) by (nonlinear_arith)
        requires
            part <= whole,
            whole > 0,
            ONE == 0x1_0000_0000,
    ;
}

/// The total of a column of a frequency matrix is at most the number of
/// reads.
pub proof fn lemma_frequency_totals(reads: Seq<AlignedRead>, range: (i32, i32), col: int)
    requires
        0 <= col < window_width(range),
        reads.len() <= usize::MAX,
    ensures
        column_total(frequency(reads, range), col) == tally(reads, range, 0, col) + tally(
            reads,
            range,
            1,
            col,
        ) + tally(reads, range, 2, col) + tally(reads, range, 3, col),
        0 <= column_total(frequency(reads, range), col) <= reads.len(),
{
    lemma_column_total_four(frequency(reads, range), col);
    lemma_depth_bound(reads, range, col);
    lemma_tally_bound(reads, range, 0, col);
    lemma_tally_bound(reads, range, 1, col);
    lemma_tally_bound(reads, range, 2, col);
    lemma_tally_bound(reads, range, 3, col);
}

/// A probability is a score of at most `ONE`: 0 only of a nucleotide that
/// was never counted, and `ONE` only of one that was alone in its column.
pub proof fn lemma_probabilities_bound(rows: Seq<Seq<u64>>, r: int, c: int)
    requires
        rows.len() == 4,
        0 <= r < 4,
        0 <= c < rows[r].len(),
        0 < column_total(rows, c),
    ensures
        probabilities(rows)[r][c] == spec_ratio(rows[r][c] as nat, column_total(rows, c) as nat),
        probabilities(rows)[r][c] <= ONE,
        probabilities(rows)[r][c] == 0 <==> rows[r][c] == 0,
        probabilities(rows)[r][c] == ONE <==> rows[r][c] == column_total(rows, c),
{
    lemma_column_total_four(rows, c);
    lemma_ratio_bound(rows[r][c] as nat, column_total(rows, c) as nat);
}

/// The bounds of the full range are coordinates, and no read starts
/// before it or ends behind it.
pub proof fn lemma_covering_bounds(reads: Seq<AlignedRead>)
    ensures
        i32::MIN <= lowest_start(reads) <= i32::MAX,
        i32::MIN <= highest_end(reads) <= i32::MAX,
        forall|k: int|
            0 <= k < reads.len() ==> lowest_start(reads) <= (#[trigger] reads[k]).start && capped_end(
                reads[k],
            ) <= highest_end(reads),
    decreases reads.len(),
{
    if reads.len() > 0 {
        let front = reads.drop_last();
        lemma_covering_bounds(front);
        assert forall|k: int| 0 <= k < reads.len() implies lowest_start(reads) <= (
        #[trigger] reads[k]).start && capped_end(reads[k]) <= highest_end(reads) by {
            if k < front.len() {
                assert(front[k] == reads[k]);
            }
        }
    }
}

/// The full range of the reads discards none of them, but for a read that
/// reaches beyond the greatest coordinate, which no window holds.
pub proof fn lemma_covering_keeps(reads: Seq<AlignedRead>, k: int)
    requires
        0 <= k < reads.len(),
    ensures
        kept(reads[k], covering(reads)) <==> reads[k].start + reads[k].sequence@.len() <= i32::MAX,
{
    lemma_covering_bounds(reads);
}

/// Counting one more read lowers no count.
pub proof fn lemma_tally_grows(
    reads: Seq<AlignedRead>,
    read: AlignedRead,
    range: (i32, i32),
    row: int,
    col: int,
)
    ensures
        tally(reads, range, row, col) <= tally(reads.push(read), range, row, col) <= tally(
            reads,
            range,
            row,
            col,
        ) + 1,
{
    assert(reads.push(read).drop_last() == reads);
}

/// The four probabilities of a column add up to 1, but for what rounding
/// each of them takes away or adds: at most three units either way.
pub proof fn lemma_probabilities_sum(rows: Seq<Seq<u64>>, c: int)
    requires
        rows.len() == 4,
        0 <= c < rows[0].len() == rows[1].len() == rows[2].len() == rows[3].len(),
        0 < column_total(rows, c),
    ensures
        ONE - 3 <= column_total(probabilities(rows), c) <= ONE + 3,
{
    let whole = column_total(rows, c);
    let one = ONE as int;
    let shares = probabilities(rows);
    lemma_column_total_four(rows, c);
    lemma_column_total_four(shares, c);
    lemma_probabilities_bound(rows, 0, c);
    lemma_probabilities_bound(rows, 1, c);
    lemma_probabilities_bound(rows, 2, c);
    lemma_probabilities_bound(rows, 3, c);
    let (n0, n1, n2, n3) = (rows[0][c] as int, rows[1][c] as int, rows[2][c] as int, rows[3][c] as int);
    let (q0, q1, q2, q3) = (
        n0 * one / whole,
        n1 * one / whole,
        n2 * one / whole,
        n3 * one / whole,
    );
    // Each share is its quotient, or one more where the quotient is 0.
    assert(q0 <= shares[0][c] <= q0 + 1 && (q0 > 0 ==> shares[0][c] == q0));
    assert(q1 <= shares[1][c] <= q1 + 1 && (q1 > 0 ==> shares[1][c] == q1));
    assert(q2 <= shares[2][c] <= q2 + 1 && (q2 > 0 ==> shares[2][c] == q2));
    assert(q3 <= shares[3][c] <= q3 + 1 && (q3 > 0 ==> shares[3][c] == q3));
    vstd::arithmetic::div_mod::lemma_fundamental_div_mod(n0 * one, whole);
    vstd::arithmetic::div_mod::lemma_fundamental_div_mod(n1 * one, whole);
    vstd::arithmetic::div_mod::lemma_fundamental_div_mod(n2 * one, whole);
    vstd::arithmetic::div_mod::lemma_fundamental_div_mod(n3 * one, whole);
    let lost = (n0 * one) % whole + (n1 * one) % whole + (n2 * one) % whole + (n3 * one) % whole;
    assert(0 <= lost < 4 * whole);
    assert(whole * one == n0 * one + n1 * one + n2 * one + n3 * one) by (nonlinear_arith)
        requires
            whole == n0 + n1 + n2 + n3,
    ;
    assert(whole * (q0 + q1 + q2 + q3) == whole * q0 + whole * q1 + whole * q2 + whole * q3)
        by (nonlinear_arith);
    assert(whole * (q0 + q1 + q2 + q3) + lost == whole * one);
    assert(one - 3 <= q0 + q1 + q2 + q3 <= one) by (nonlinear_arith)
        requires
            whole * (q0 + q1 + q2 + q3) + lost == whole * one,
            0 <= lost < 4 * whole,
            whole > 0,
    ;
    assert(q0 >= 0 && q1 >= 0 && q2 >= 0 && q3 >= 0) by (nonlinear_arith)
        requires
            q0 == n0 * one / whole,
            q1 == n1 * one / whole,
            q2 == n2 * one / whole,
            q3 == n3 * one / whole,
            n0 >= 0 && n1 >= 0 && n2 >= 0 && n3 >= 0,
            one > 0,
            whole > 0,
    ;
}

/// The efficiency of a column of counts is 0 exactly where one nucleotide
/// holds every count.
pub proof fn lemma_efficiency_zero(rows: Seq<Seq<u64>>, c: int)
    requires
        rows.len() == 4,
        0 <= c < rows[0].len() == rows[1].len() == rows[2].len() == rows[3].len(),
        0 < column_total(rows, c),
    ensures
        efficiencies(probabilities(rows))[c] == 0 <==> conserved(rows, c),
{
    let whole = column_total(rows, c);
    let shares = probabilities(rows);
    lemma_column_total_four(rows, c);
    lemma_probabilities_bound(rows, 0, c);
    lemma_probabilities_bound(rows, 1, c);
    lemma_probabilities_bound(rows, 2, c);
    lemma_probabilities_bound(rows, 3, c);
    let (p0, p1, p2, p3) = (
        shares[0][c] as nat,
        shares[1][c] as nat,
        shares[2][c] as nat,
        shares[3][c] as nat,
    );
    assert(efficiencies(shares)[c] == spec_efficiency(p0, p1, p2, p3));
    if conserved(rows, c) {
        lemma_efficiency_of_certainty(p0, p1, p2, p3);
    } else {
        assert(rows[0][c] != whole && rows[1][c] != whole && rows[2][c] != whole && rows[3][c]
            != whole);
        // Some nucleotide was counted, but in no more than half of the reads.
        let r = choose|r: int| 0 <= r < 4 && 0 < (#[trigger] rows[r])[c] && 2 * rows[r][c] <= whole;
        assert(0 <= r < 4 && 0 < rows[r][c] && 2 * rows[r][c] <= whole) by {
            if 0 < rows[0][c] && 2 * rows[0][c] <= whole {
            } else if 0 < rows[1][c] && 2 * rows[1][c] <= whole {
            } else if 0 < rows[2][c] && 2 * rows[2][c] <= whole {
            } else {
                assert(0 < rows[3][c] && 2 * rows[3][c] <= whole);
            }
        }
        let p = shares[r][c] as nat;
        lemma_probabilities_bound(rows, r, c);
        assert(rows[r][c] as nat * ONE as nat / (whole as nat) <= ONE / 2) by (nonlinear_arith)
            requires
                2 * rows[r][c] <= whole,
                whole > 0,
                ONE == 0x1_0000_0000,
        ;
        lemma_entropy_of_small_share(p);
        assert(p == p0 || p == p1 || p == p2 || p == p3);
        let entropy = entropy_term(p0) + entropy_term(p1) + entropy_term(p2) + entropy_term(p3);
        assert(entropy / (2 * ONE) as nat >= 1) by (nonlinear_arith)
            requires
                entropy >= 2 * ONE,
                ONE == 0x1_0000_0000,
        ;
    }
}

/// The efficiency of a position of sound matrices is 0 exactly where one
/// nucleotide holds every count of the position.
pub proof fn lemma_matrices_efficiency_zero(m: MatricesView, c: int)
    requires
        m.wf(),
        0 <= c < m.coverage.len(),
    ensures
        m.efficiency[c] == 0 <==> conserved(m.pfm, c),
{
    assert(m.pfm[0].len() == m.coverage.len() && m.pfm[1].len() == m.coverage.len() && m.pfm[2].len()
        == m.coverage.len() && m.pfm[3].len() == m.coverage.len());
    assert(0 < column_total(m.pfm, c));
    lemma_efficiency_zero(m.pfm, c);
}

/// The four arrays of sound matrices have the same number of columns, the
/// matrices have four rows, and every score is at most `ONE`.
pub proof fn lemma_matrices_shape(m: MatricesView)
    requires
        m.wf(),
    ensures
        m.pfm.len() == 4 && m.ppm.len() == 4,
        rectangular(m.pfm, m.coverage.len()),
        rectangular(m.ppm, m.coverage.len()),
        m.efficiency.len() == m.coverage.len(),
        forall|r: int, c: int|
            0 <= r < 4 && 0 <= c < m.coverage.len() ==> #[trigger] m.ppm[r][c] <= ONE,
        forall|c: int| 0 <= c < m.coverage.len() ==> #[trigger] m.efficiency[c] <= ONE,
        forall|c: int| 0 <= c < m.coverage.len() ==> #[trigger] m.coverage[c] <= ONE,
{
    assert(m.pfm[0].len() == m.coverage.len());
    assert forall|r: int, c: int| 0 <= r < 4 && 0 <= c < m.coverage.len() implies #[trigger] m.ppm[r][c]
        <= ONE by {
        assert(m.pfm[r].len() == m.coverage.len());
        lemma_probabilities_bound(m.pfm, r, c);
    }
}

/// The row that counts a base, if any.
pub fn row_of(base: u8) -> (row: Option<usize>)
    ensures
        match row {
            Some(r) => base_row(base) == Some(r as int),
            None => base_row(base) is None,
        },
{
    if base == 65 {
        Some(0)
    } else if base == 67 {
        Some(1)
    } else if base == 71 {
        Some(2)
    } else if base == 84 {
        Some(3)
    } else {
        None
    }
}

/// Whether the read lies entirely within the window.
pub fn is_kept(read: &AlignedRead, range: (i32, i32)) -> (yes: bool)
    ensures
        yes == kept(*read, range),
{
    if read.start < range.0 || read.start > range.1 {
        return false;
    }
    let room: u64 = (range.1 as i64 - read.start as i64) as u64;
    read.sequence.len() as u64 <= room
}

/// The read puts the nucleotide of row `row` at column `col` with one of
/// its first `done` bases.
pub open spec fn places_before(
    read: AlignedRead,
    range: (i32, i32),
    row: int,
    col: int,
    done: int,
) -> bool {
    places(read, range, row, col) && range.0 + col - read.start < done
}

/// Counts every base of the kept read in the matrix.
fn count_read(pfm: &mut Matrix, read: &AlignedRead, range: (i32, i32), Ghost(before): Ghost<
    Seq<AlignedRead>,
>)
    requires
        kept(*read, range),
        before.len() < usize::MAX,
        old(pfm)@ == frequency(before, range),
    ensures
        final(pfm)@ == frequency(before.push(*read), range),
        final(pfm).width() == old(pfm).width(),
{
    let ghost width = window_width(range);
    let shift: usize = (read.start as i64 - range.0 as i64) as usize;
    let n = read.sequence.len();
    let mut i: usize = 0;
    proof {
        assert forall|r: int, c: int| 0 <= r < 4 && 0 <= c < width implies #[trigger] pfm@[r][c]
            == tally(before, range, r, c) by {
            lemma_tally_bound(before, range, r, c);
        }
    }
    while i < n
        invariant
            kept(*read, range),
            before.len() < usize::MAX,
            i <= n == read.sequence@.len(),
            shift == read.start - range.0,
            width == window_width(range),
            pfm.width() == old(pfm).width(),
            pfm@.len() == 4,
            rectangular(pfm@, width),
            forall|r: int, c: int|
                0 <= r < 4 && 0 <= c < width ==> #[trigger] pfm@[r][c] == tally(before, range, r, c)
                    + if places_before(*read, range, r, c, i as int) {
                    1nat
                } else {
                    0nat
                },
        decreases n - i,
    {
        match row_of(read.sequence[i]) {
            Some(row) => {
                let col = shift + i;
                proof {
                    lemma_tally_bound(before, range, row as int, col as int);
                    assert(!places_before(*read, range, row as int, col as int, i as int));
                }
                let seen = pfm.at(row, col);
                let ghost old_rows = pfm@;
                pfm.put(row, col, seen + 1);
                assert forall|r: int, c: int| 0 <= r < 4 && 0 <= c < width implies #[trigger] pfm@[r][c]
                    == tally(before, range, r, c) + if places_before(*read, range, r, c, i + 1) {
                    1nat
                } else {
                    0nat
                } by {
                    assert(old_rows[r][c] == tally(before, range, r, c) + if places_before(
                        *read,
                        range,
                        r,
                        c,
                        i as int,
                    ) {
                        1nat
                    } else {
                        0nat
                    });
                }
            },
            None => {},
        }
        i += 1;
    }
    assert(pfm@ =~= frequency(before.push(*read), range)) by {
        assert(before.push(*read).drop_last() == before);
        assert forall|r: int, c: int| 0 <= r < 4 && 0 <= c < width implies #[trigger] pfm@[r][c]
            == tally(before.push(*read), range, r, c) as u64 by {
            lemma_tally_bound(before.push(*read), range, r, c);
            assert(places_before(*read, range, r, c, n as int) == places(*read, range, r, c));
        }
        assert forall|r: int| 0 <= r < 4 implies #[trigger] pfm@[r] =~= frequency(
            before.push(*read),
            range,
        )[r] by {}
    }
}

/// `first_above` is the index before which no score is above the
/// threshold and at which one is, if there is any.
pub proof fn lemma_first_above(scores: Seq<u64>, threshold: u64, i: int)
    requires
        0 <= i <= scores.len(),
        forall|j: int| 0 <= j < i ==> scores[j] <= threshold,
        i < scores.len() ==> scores[i] > threshold,
    ensures
        first_above(scores, threshold) == i,
    decreases scores.len(),
{
    if i > 0 {
        let rest = scores.drop_first();
        assert(scores[0] <= threshold);
        assert forall|j: int| 0 <= j < i - 1 implies rest[j] <= threshold by {
            assert(rest[j] == scores[j + 1]);
        }
        lemma_first_above(rest, threshold, i - 1);
    }
}

/// `last_above` is the index behind which no score is above the threshold
/// and at which one is, if there is any.
pub proof fn lemma_last_above(scores: Seq<u64>, threshold: u64, i: int)
    requires
        -1 <= i < scores.len(),
        forall|j: int| i < j < scores.len() ==> scores[j] <= threshold,
        0 <= i ==> scores[i] > threshold,
    ensures
        last_above(scores, threshold) == i,
    decreases scores.len(),
{
    if i < scores.len() - 1 {
        let front = scores.drop_last();
        assert(scores[scores.len() - 1] <= threshold);
        assert forall|j: int| i < j < front.len() implies front[j] <= threshold by {
            assert(front[j] == scores[j]);
        }
        lemma_last_above(front, threshold, i);
    }
}

/// Where no read lies within the window, every depth is zero.
pub proof fn lemma_no_read_kept(reads: Seq<AlignedRead>, range: (i32, i32))
    requires
        forall|k: int| 0 <= k < reads.len() ==> !kept(#[trigger] reads[k], range),
    ensures
        maximum(column_totals(frequency(reads, range), window_width(range))) == 0,
{
    let full = frequency(reads, range);
    let depths = column_totals(full, window_width(range));
    assert forall|c: int| 0 <= c < depths.len() implies depths[c] == 0 by {
        lemma_column_total_four(full, c);
        lemma_untouched(reads, range, 0, c);
        lemma_untouched(reads, range, 1, c);
        lemma_untouched(reads, range, 2, c);
        lemma_untouched(reads, range, 3, c);
    }
    lemma_maximum(depths);
    if depths.len() > 0 {
        let i = choose|i: int| 0 <= i < depths.len() && depths[i] == maximum(depths);
        assert(depths[i] == 0);
    }
}

/// Reads outside the window count nowhere.
proof fn lemma_untouched(reads: Seq<AlignedRead>, range: (i32, i32), row: int, col: int)
    requires
        forall|k: int| 0 <= k < reads.len() ==> !kept(#[trigger] reads[k], range),
    ensures
        tally(reads, range, row, col) == 0,
    decreases reads.len(),
{
    if reads.len() > 0 {
        let front = reads.drop_last();
        assert(!kept(reads[reads.len() - 1], range));
        assert forall|k: int| 0 <= k < front.len() implies !kept(#[trigger] front[k], range) by {
            assert(front[k] == reads[k]);
        }
        lemma_untouched(front, range, row, col);
    }
}

/// The number of positions of the window.
pub fn window_len(range: (i32, i32)) -> (width: usize)
    ensures
        width == window_width(range),
{
    if range.1 > range.0 {
        (range.1 as i64 - range.0 as i64) as usize
    } else {
        0
    }
}

/// Whether the frequency matrix of the window fits the address space.
pub fn window_fits(range: (i32, i32)) -> (ok: bool)
    ensures
        ok == (window_width(range) * 32 <= isize::MAX),
{
    window_len(range) <= isize::MAX as usize / 32
}

/// The full range of the reads: the window from their least start to
/// their greatest end.
pub fn full_range(reads: &Vec<AlignedRead>) -> (range: (i32, i32))
    ensures
        range == covering(reads@),
{
    let mut low: i32 = i32::MAX;
    let mut high: i32 = i32::MIN;
    let mut k: usize = 0;
    while k < reads.len()
        invariant
            k <= reads.len(),
            low == lowest_start(reads@.subrange(0, k as int)),
            high == highest_end(reads@.subrange(0, k as int)),
        decreases reads.len() - k,
    {
        assert(reads@.subrange(0, k + 1).drop_last() == reads@.subrange(0, k as int));
        let read = &reads[k];
        let room: u64 = (i32::MAX as i64 - read.start as i64) as u64;
        let end: i32 = if read.sequence.len() as u64 > room {
            i32::MAX
        } else {
            (read.start as i64 + read.sequence.len() as i64) as i32
        };
        if read.start < low {
            low = read.start;
        }
        if end > high {
            high = end;
        }
        k += 1;
    }
    assert(reads@.subrange(0, k as int) == reads@);
    (low, high)
}

/// The confident region of a coverage vector: the indices of its first
/// and of its last score above the threshold.
pub fn confident_window(coverage: &Vector, threshold: u64) -> (result: Result<
    (usize, usize),
    QSAError,
>)
    ensures
        match result {
            Ok((left, right)) => {
                &&& left == first_above(coverage@, threshold)
                &&& right == last_above(coverage@, threshold)
                &&& left <= right < coverage@.len()
            },
            Err(e) => e == QSAError::NoConfidentRegion,
        },
        result is Err <==> forall|i: int| 0 <= i < coverage@.len() ==> coverage@[i] <= threshold,
        result is Err <==> first_above(coverage@, threshold) >= coverage@.len(),
{
    let n = coverage.len();
    let mut left: usize = 0;
    let mut found = false;
    while left < n && !found
        invariant
            left <= n == coverage@.len(),
            forall|j: int| 0 <= j < left ==> coverage@[j] <= threshold,
            found ==> left < n && coverage@[left as int] > threshold,
        decreases n - left + if found { 0int } else { 1int },
    {
        if coverage.at(left) > threshold {
            found = true;
        } else {
            left += 1;
        }
    }
    proof {
        lemma_first_above(coverage@, threshold, left as int);
    }
    if !found {
        return Err(QSAError::NoConfidentRegion);
    }
    let mut right: usize = n - 1;
    while coverage.at(right) <= threshold
        invariant
            left <= right < n == coverage@.len(),
            coverage@[left as int] > threshold,
            forall|j: int| right < j < n ==> coverage@[j] <= threshold,
        decreases right,
    {
        right -= 1;
    }
    proof {
        lemma_last_above(coverage@, threshold, right as int);
    }
    Ok((left, right))
}

impl View for Matrices {
    type V = MatricesView;

    closed spec fn view(&self) -> MatricesView {
        MatricesView {
            pfm: self.pfm@,
            coverage: self.coverage@,
            ppm: self.ppm@,
            efficiency: self.efficiency@,
        }
    }
}

impl Matrices {
    #[verifier::type_invariant]
    spec fn sound(self) -> bool {
        &&& self@.wf()
        &&& self.pfm.width() == self.coverage@.len()
        &&& self.ppm.width() == self.coverage@.len()
    }

    /// The frequency matrix of the reads over the whole window, and its
    /// normalized coverage.
    pub fn pfm_coverage(reads: &Vec<AlignedRead>, range: (i32, i32)) -> (result: Result<
        (Matrix, Vector),
        QSAError,
    >)
        requires
            window_width(range) * 32 <= isize::MAX,
        ensures
            match result {
                Ok((pfm, coverage)) => {
                    &&& pfm@ == frequency(reads@, range)
                    &&& pfm.width() == window_width(range)
                    &&& coverage@ == normalized(column_totals(pfm@, window_width(range)))
                    &&& forall|i: int| 0 <= i < coverage@.len() ==> #[trigger] coverage@[i] <= ONE
                    &&& exists|i: int| 0 <= i < coverage@.len() && coverage@[i] == ONE
                    &&& forall|c: int|
                        0 <= c < coverage@.len() ==> (#[trigger] coverage@[c] == 0 <==> column_total(
                            pfm@,
                            c,
                        ) == 0)
                },
                Err(e) => e == QSAError::DegenerateCoverage,
            },
            result is Err <==> maximum(column_totals(frequency(reads@, range), window_width(range)))
                == 0,
    {
        let width = window_len(range);
        let mut pfm = Matrix::zeros(NUCLEOTIDES, width);
        assert(pfm@ =~= frequency(reads@.subrange(0, 0), range)) by {
            assert forall|r: int| 0 <= r < 4 implies #[trigger] pfm@[r] =~= frequency(
                reads@.subrange(0, 0),
                range,
            )[r] by {}
        }
        let mut k: usize = 0;
        while k < reads.len()
            invariant
                k <= reads.len(),
                pfm.width() == width,
                pfm@ == frequency(reads@.subrange(0, k as int), range),
            decreases reads.len() - k,
        {
            let ghost before = reads@.subrange(0, k as int);
            assert(reads@.subrange(0, k + 1) == before.push(reads@[k as int]));
            if is_kept(&reads[k], range) {
                count_read(&mut pfm, &reads[k], range, Ghost(before));
            } else {
                assert(pfm@ =~= frequency(before.push(reads@[k as int]), range)) by {
                    assert(before.push(reads@[k as int]).drop_last() == before);
                    assert forall|r: int| 0 <= r < 4 implies #[trigger] pfm@[r] =~= frequency(
                        before.push(reads@[k as int]),
                        range,
                    )[r] by {}
                }
            }
            k += 1;
        }
        assert(reads@.subrange(0, k as int) == reads@);
        let ghost depths = column_totals(pfm@, width as nat);
        proof {
            assert forall|c: int| 0 <= c < width implies 0 <= #[trigger] depths[c] <= reads@.len() by {
                lemma_column_total_four(pfm@, c);
                lemma_depth_bound(reads@, range, c);
                lemma_tally_bound(reads@, range, 0, c);
                lemma_tally_bound(reads@, range, 1, c);
                lemma_tally_bound(reads@, range, 2, c);
                lemma_tally_bound(reads@, range, 3, c);
            }
            lemma_maximum(depths);
        }
        let mut totals: Vec<u64> = Vec::new();
        let mut peak: u64 = 0;
        let mut c: usize = 0;
        while c < width
            invariant
                c <= width,
                pfm.width() == width,
                pfm@.len() == 4,
                rectangular(pfm@, width as nat),
                depths == column_totals(pfm@, width as nat),
                forall|j: int| 0 <= j < width ==> 0 <= #[trigger] depths[j] <= u64::MAX,
                totals@.len() == c,
                forall|j: int| 0 <= j < c ==> totals@[j] == depths[j],
                peak == maximum(depths.subrange(0, c as int)),
            decreases width - c,
        {
            assert(depths[c as int] == column_total(pfm@, c as int));
            let depth = pfm.column_sum(c);
            assert(depths.subrange(0, c + 1).drop_last() == depths.subrange(0, c as int));
            if depth > peak {
                peak = depth;
            }
            totals.push(depth);
            c += 1;
        }
        assert(depths.subrange(0, width as int) == depths);
        if peak == 0 {
            return Err(QSAError::DegenerateCoverage);
        }
        let mut scores: Vec<u64> = Vec::new();
        let mut j: usize = 0;
        assert forall|i: int| 0 <= i < width implies #[trigger] totals@[i] == depths[i] && totals@[i]
            <= peak by {
            assert(depths[i] <= maximum(depths));
        }
        while j < width
            invariant
                j <= width == totals@.len() == depths.len(),
                peak > 0,
                forall|i: int| 0 <= i < width ==> #[trigger] totals@[i] == depths[i] && totals@[i] <= peak,
                scores@.len() == j,
                forall|i: int| 0 <= i < j ==> scores@[i] == spec_ratio(totals@[i] as nat, peak as nat),
            decreases width - j,
        {
            scores.push(ratio(totals[j], peak));
            j += 1;
        }
        let coverage = Vector::wrap(scores);
        assert(coverage@ =~= normalized(depths));
        proof {
            let top = choose|i: int| 0 <= i < depths.len() && depths[i] == maximum(depths);
            assert(depths[top] > 0);
            lemma_normalized_peak(depths);
            let peak_at = choose|i: int| 0 <= i < depths.len() && normalized(depths)[i] == ONE;
            assert(0 <= peak_at < coverage@.len() && coverage@[peak_at] == ONE);
            assert forall|i: int| 0 <= i < coverage@.len() implies #[trigger] coverage@[i] <= ONE by {
                assert(normalized(depths)[i] <= ONE);
            }
            assert forall|c: int| 0 <= c < coverage@.len() implies (#[trigger] coverage@[c] == 0
                <==> column_total(pfm@, c) == 0) by {
                assert(normalized(depths)[c] == 0 <==> depths[c] == 0);
            }
            assert(pfm.width() == window_width(range));
            assert(depths == column_totals(pfm@, window_width(range)));
        }
        Ok((pfm, coverage))
    }

    /// The probability matrix of a frequency matrix: every count divided
    /// by the total of its column. A column without any count has no
    /// probabilities, and is an error.
    pub fn ppm(pfm: &Matrix) -> (result: Result<Matrix, QSAError>)
        requires
            pfm@.len() == 4,
            forall|c: int| 0 <= c < pfm@[0].len() ==> column_total(pfm@, c) <= u64::MAX,
        ensures
            match result {
                Ok(ppm) => {
                    &&& ppm@ == probabilities(pfm@)
                    &&& ppm.width() == pfm.width()
                    &&& forall|r: int, c: int|
                        0 <= r < 4 && 0 <= c < pfm@[r].len() ==> (#[trigger] ppm@[r][c] == 0
                            <==> pfm@[r][c] == 0)
                },
                Err(e) => e == QSAError::DegenerateCoverage,
            },
            result is Err <==> has_empty_column(pfm@),
    {
        let width = pfm.ncols();
        let mut ppm = pfm.duplicate();
        let mut c: usize = 0;
        while c < width
            invariant
                c <= width,
                pfm.width() == width == ppm.width(),
                pfm@.len() == 4 == ppm@.len(),
                rectangular(pfm@, width as nat),
                rectangular(ppm@, width as nat),
                forall|j: int| 0 <= j < width ==> column_total(pfm@, j) <= u64::MAX,
                forall|j: int| 0 <= j < c ==> column_total(pfm@, j) > 0,
                forall|r: int, j: int|
                    0 <= r < 4 && 0 <= j < c ==> #[trigger] ppm@[r][j] == spec_ratio(
                        pfm@[r][j] as nat,
                        column_total(pfm@, j) as nat,
                    ),
            decreases width - c,
        {
            assert(pfm@[0].len() == width);
            proof {
                lemma_column_total_four(pfm@, c as int);
            }
            let whole = pfm.column_sum(c);
            if whole == 0 {
                return Err(QSAError::DegenerateCoverage);
            }
            let mut r: usize = 0;
            while r < NUCLEOTIDES
                invariant
                    r <= 4,
                    c < width,
                    whole > 0,
                    whole == column_total(pfm@, c as int),
                    whole == pfm@[0][c as int] + pfm@[1][c as int] + pfm@[2][c as int] + pfm@[3][c as int],
                    pfm.width() == width == ppm.width(),
                    pfm@.len() == 4 == ppm@.len(),
                    rectangular(pfm@, width as nat),
                    rectangular(ppm@, width as nat),
                    forall|i: int, j: int|
                        0 <= i < 4 && 0 <= j < c ==> #[trigger] ppm@[i][j] == spec_ratio(
                            pfm@[i][j] as nat,
                            column_total(pfm@, j) as nat,
                        ),
                    forall|i: int|
                        0 <= i < r ==> #[trigger] ppm@[i][c as int] == spec_ratio(
                            pfm@[i][c as int] as nat,
                            whole as nat,
                        ),
                decreases 4 - r,
            {
                assert(pfm@[r as int].len() == width);
                assert(ppm@[r as int].len() == width);
                let share = ratio(pfm.at(r, c), whole);
                let ghost rows = ppm@;
                ppm.put(r, c, share);
                assert forall|i: int, j: int| 0 <= i < 4 && 0 <= j < c implies #[trigger] ppm@[i][j]
                    == spec_ratio(pfm@[i][j] as nat, column_total(pfm@, j) as nat) by {
                    assert(rows[i][j] == spec_ratio(pfm@[i][j] as nat, column_total(pfm@, j) as nat));
                }
                assert forall|i: int| 0 <= i < r + 1 implies #[trigger] ppm@[i][c as int] == spec_ratio(
                    pfm@[i][c as int] as nat,
                    whole as nat,
                ) by {
                    if i < r {
                        assert(rows[i][c as int] == spec_ratio(pfm@[i][c as int] as nat, whole as nat));
                    }
                }
                assert(rectangular(ppm@, width as nat)) by {
                    assert forall|i: int| 0 <= i < ppm@.len() implies (#[trigger] ppm@[i]).len()
                        == width by {
                        assert(rows[i].len() == width);
                    }
                }
                r += 1;
            }
            c += 1;
        }
        assert(pfm@[0].len() == width);
        assert(!has_empty_column(pfm@));
        assert(ppm@ =~= probabilities(pfm@)) by {
            assert forall|r: int| 0 <= r < 4 implies #[trigger] ppm@[r] =~= probabilities(pfm@)[r] by {
                assert(pfm@[r].len() == width);
            }
        }
        assert forall|r: int, c: int| 0 <= r < 4 && 0 <= c < pfm@[r].len() implies (
        #[trigger] ppm@[r][c] == 0 <==> pfm@[r][c] == 0) by {
            assert(pfm@[r].len() == width);
            lemma_probabilities_bound(pfm@, r, c);
        }
        Ok(ppm)
    }

    /// The efficiency of every column of a probability matrix.
    pub fn efficiency(ppm: &Matrix) -> (scores: Vector)
        requires
            ppm@.len() == 4,
            forall|r: int, c: int| 0 <= r < 4 && 0 <= c < ppm@[r].len() ==> #[trigger] ppm@[r][c] <= ONE,
        ensures
            scores@ == efficiencies(ppm@),
            forall|c: int| 0 <= c < scores@.len() ==> #[trigger] scores@[c] <= ONE,
    {
        let width = ppm.ncols();
        assert(ppm@[0].len() == width && ppm@[1].len() == width && ppm@[2].len() == width
            && ppm@[3].len() == width);
        let mut scores: Vec<u64> = Vec::new();
        let mut c: usize = 0;
        while c < width
            invariant
                c <= width,
                ppm@.len() == 4,
                ppm@[0].len() == width && ppm@[1].len() == width && ppm@[2].len() == width
                    && ppm@[3].len() == width,
                forall|r: int, j: int|
                    0 <= r < 4 && 0 <= j < ppm@[r].len() ==> #[trigger] ppm@[r][j] <= ONE,
                scores@.len() == c,
                forall|j: int| 0 <= j < c ==> #[trigger] scores@[j] == efficiencies(ppm@)[j],
                forall|j: int| 0 <= j < c ==> #[trigger] scores@[j] <= ONE,
            decreases width - c,
        {
            let score = efficiency_of(ppm.at(0, c), ppm.at(1, c), ppm.at(2, c), ppm.at(3, c));
            scores.push(score);
            c += 1;
        }
        let scores = Vector::wrap(scores);
        assert(scores@ =~= efficiencies(ppm@));
        scores
    }

    /// The matrices of the reads over the confident region of the window:
    /// the counts over the window, its coverage, the region in which the
    /// coverage is above the threshold, and the probabilities and the
    /// efficiency of each position of that region.
    pub fn new(reads: &Vec<AlignedRead>, range: (i32, i32), threshold: u64) -> (result: Result<
        Matrices,
        QSAError,
    >)
        requires
            window_width(range) * 32 <= isize::MAX,
        ensures
            match result {
                Ok(m) => analysis(reads@, range, threshold) == Ok::<MatricesView, QSAError>(m@)
                    && m@.wf(),
                Err(e) => analysis(reads@, range, threshold) == Err::<MatricesView, QSAError>(e),
            },
    {
        let ghost width = window_width(range);
        let ghost depths = column_totals(frequency(reads@, range), width);
        let (full, whole) = match Matrices::pfm_coverage(reads, range) {
            Ok(pair) => pair,
            Err(e) => {
                return Err(e);
            },
        };
        let (left, right) = match confident_window(&whole, threshold) {
            Ok(bounds) => bounds,
            Err(e) => {
                return Err(e);
            },
        };
        let pfm = full.columns_between(left, right);
        let coverage = whole.between(left, right);
        proof {
            assert(reads@.len() == reads.len());
            assert forall|c: int| 0 <= c <= right - left implies 0 <= #[trigger] column_total(pfm@, c)
                <= u64::MAX by {
                lemma_column_total_four(pfm@, c);
                lemma_column_total_four(full@, left + c);
                lemma_frequency_totals(reads@, range, left + c);
            }
            assert(pfm@[0].len() == right - left + 1);
        }
        let ppm = match Matrices::ppm(&pfm) {
            Ok(ppm) => ppm,
            Err(e) => {
                return Err(e);
            },
        };
        proof {
            assert forall|r: int, c: int| 0 <= r < 4 && 0 <= c < ppm@[r].len() implies #[trigger] ppm@[r][c]
                <= ONE by {
                assert(0 <= column_total(pfm@, c));
                lemma_probabilities_bound(pfm@, r, c);
            }
        }
        let efficiency = Matrices::efficiency(&ppm);
        proof {
            assert forall|i: int| 0 <= i < depths.len() implies depths[i] >= 0 by {
                lemma_frequency_totals(reads@, range, i);
            }
            lemma_maximum(depths);
            lemma_normalized_peak(depths);
            assert forall|c: int| 0 <= c < coverage@.len() implies #[trigger] coverage@[c] <= ONE by {
                assert(coverage@[c] == normalized(depths)[left + c]);
            }
            assert(rectangular(pfm@, coverage@.len()));
            assert forall|c: int| 0 <= c < coverage@.len() implies 0 < #[trigger] column_total(pfm@, c)
                <= u64::MAX by {}
        }
        Ok(Matrices { pfm, coverage, ppm, efficiency })
    }

    /// The counts of each nucleotide (rows `A`, `C`, `G`, `T`) at each
    /// position of the confident region.
    pub fn get_pfm(&self) -> (pfm: &Matrix)
        ensures
            pfm@ == self@.pfm,
            pfm.width() == self@.coverage.len(),
            self@.wf(),
    {
        proof {
            use_type_invariant(self);
        }
        &self.pfm
    }

    /// The normalized coverage of each position of the confident region.
    pub fn get_coverage(&self) -> (coverage: &Vector)
        ensures
            coverage@ == self@.coverage,
            self@.wf(),
    {
        proof {
            use_type_invariant(self);
        }
        &self.coverage
    }

    /// The probability of each nucleotide at each position of the
    /// confident region.
    pub fn get_ppm(&self) -> (ppm: &Matrix)
        ensures
            ppm@ == self@.ppm,
            ppm.width() == self@.coverage.len(),
            self@.wf(),
    {
        proof {
            use_type_invariant(self);
        }
        &self.ppm
    }

    /// The efficiency of each position of the confident region.
    pub fn get_efficiency(&self) -> (efficiency: &Vector)
        ensures
            efficiency@ == self@.efficiency,
            self@.wf(),
    {
        proof {
            use_type_invariant(self);
        }
        &self.efficiency
    }

    /// The frequency matrix as the records of a table: one record per
    /// position, with the counts of `A`, `C`, `G` and `T` there.
    pub fn pfm_records(&self) -> (records: Vec<Vec<u64>>)
        ensures
            records@.len() == self@.coverage.len(),
            forall|c: int|
                0 <= c < records@.len() ==> (#[trigger] records@[c])@ == seq![
                    self@.pfm[0][c],
                    self@.pfm[1][c],
                    self@.pfm[2][c],
                    self@.pfm[3][c],
                ],
    {
        proof {
            use_type_invariant(self);
        }
        let width = self.coverage.len();
        let mut records: Vec<Vec<u64>> = Vec::new();
        let mut c: usize = 0;
        while c < width
            invariant
                c <= width == self@.coverage.len(),
                self@.wf(),
                records@.len() == c,
                forall|j: int|
                    0 <= j < c ==> (#[trigger] records@[j])@ == seq![
                        self@.pfm[0][j],
                        self@.pfm[1][j],
                        self@.pfm[2][j],
                        self@.pfm[3][j],
                    ],
            decreases width - c,
        {
            assert(self.pfm@[0].len() == width && self.pfm@[1].len() == width && self.pfm@[2].len()
                == width && self.pfm@[3].len() == width);
            let mut record: Vec<u64> = Vec::new();
            record.push(self.pfm.at(0, c));
            record.push(self.pfm.at(1, c));
            record.push(self.pfm.at(2, c));
            record.push(self.pfm.at(3, c));
            assert(record@ =~= seq![
                self@.pfm[0][c as int],
                self@.pfm[1][c as int],
                self@.pfm[2][c as int],
                self@.pfm[3][c as int],
            ]);
            records.push(record);
            c += 1;
        }
        records
    }
}

} // verus!
