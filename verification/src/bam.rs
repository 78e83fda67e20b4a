use crate::array::{rectangular, total, with_column, Matrix, Vector};
use crate::error::QSAError;
use crate::matrices::{
    analysis,
    window_width,
    AlignedRead,
    Matrices,
    MatricesView,
};
use crate::score::{distance, spec_distance, ONE};
use vstd::prelude::*;

verus! {

/// One sample: its name, its matrices, and the name of the reference
/// sequence that its reads were aligned to (empty where the alignment file
/// names none).
pub struct Bam {
    pub name: String,
    pub matrices: Matrices,
    pub(crate) sqsn: String,
}

/// What a `Bam` holds.
pub struct BamView {
    pub name: Seq<char>,
    pub reference: Seq<char>,
    pub matrices: MatricesView,
}

/// A set of samples in a fixed order, with the alpha diversity of each and
/// the beta diversity of each pair.
pub struct BamData {
    bams: Vec<Bam>,
    checks: bool,
    alpha: Vector,
    beta: Matrix,
}

/// What a `BamData` holds.
pub struct BamDataView {
    pub samples: Seq<BamView>,
    pub checks: bool,
    pub alpha: Seq<u64>,
    pub beta: Seq<Seq<u64>>,
    /// The number of columns of the beta matrix.
    pub beta_width: nat,
}

/// The arithmetic mean of the scores, rounded down to a score.
pub open spec fn mean(scores: Seq<u64>) -> u64
    recommends
        scores.len() > 0,
{
    (total(scores) / scores.len() as int) as u64
}

/// The alpha diversity of each sample: the mean of its efficiency.
pub open spec fn alphas(samples: Seq<BamView>) -> Seq<u64> {
    Seq::new(samples.len(), |i: int| mean(samples[i].matrices.efficiency))
}

/// The beta diversity of each pair of samples: the distance between their
/// alpha diversities.
pub open spec fn pairwise(alpha: Seq<u64>) -> Seq<Seq<u64>> {
    Seq::new(alpha.len(), |i: int| Seq::new(alpha.len(), |j: int| spec_distance(alpha[i], alpha[j])))
}

/// The distance of each alpha diversity to `a`.
pub open spec fn distances(alpha: Seq<u64>, a: u64) -> Seq<u64> {
    Seq::new(alpha.len(), |k: int| spec_distance(alpha[k], a))
}

/// The beta matrix grown by one sample of alpha diversity `a`: a new last
/// column and a new last row of distances, with 0 where they meet.
pub open spec fn grown(beta: Seq<Seq<u64>>, alpha: Seq<u64>, a: u64) -> Seq<Seq<u64>> {
    with_column(beta, distances(alpha, a)).push(distances(alpha, a).push(0))
}

/// What each of the samples holds.
pub open spec fn views(bams: Seq<Bam>) -> Seq<BamView> {
    Seq::new(bams.len(), |i: int| bams[i]@)
}

/// Every two samples that name a reference name the same one.
pub open spec fn consistent(samples: Seq<BamView>) -> bool {
    forall|i: int, j: int|
        0 <= i < j < samples.len() && (#[trigger] samples[i]).reference.len() > 0 && (
        #[trigger] samples[j]).reference.len() > 0 ==> samples[i].reference == samples[j].reference
}

/// The cells above the diagonal of a square matrix, row by row from row
/// `from` on: one for each pair of different indices.
pub open spec fn upper_triangle(rows: Seq<Seq<u64>>, from: int) -> Seq<u64>
    decreases rows.len() - from,
{
    if from < 0 || from >= rows.len() {
        Seq::empty()
    } else {
        rows[from].subrange(from + 1, rows.len() as int) + upper_triangle(rows, from + 1)
    }
}

/// Walks the samples of a set in their order, lending each.
pub struct BamDataIterator<'a> {
    bam: &'a Vec<Bam>,
    seen: usize,
}

/// Walks the samples of a set in their order, handing each over.
pub struct BamDataIntoIterator {
    bam: Vec<Bam>,
}

/// The set built at once from the samples.
pub open spec fn bulk(samples: Seq<BamView>, checks: bool) -> BamDataView {
    BamDataView {
        samples,
        checks,
        alpha: alphas(samples),
        beta: pairwise(alphas(samples)),
        beta_width: samples.len(),
    }
}

/// The set without samples and without checks.
pub open spec fn empty() -> BamDataView {
    BamDataView {
        samples: Seq::empty(),
        checks: false,
        alpha: Seq::empty(),
        beta: Seq::empty(),
        beta_width: 0,
    }
}

/// The set that pushing the samples one by one onto the empty set gives.
pub open spec fn pushed_all(samples: Seq<BamView>) -> BamDataView
    decreases samples.len(),
{
    if samples.len() == 0 {
        empty()
    } else {
        pushed_all(samples.drop_last()).pushed(samples.last())
    }
}

impl BamDataView {
    /// The samples are sound, there is one alpha diversity per sample, and
    /// the beta matrix has one row and one column per sample and holds the
    /// distance of each pair of them.
    pub open spec fn wf(self) -> bool {
        &&& forall|i: int| 0 <= i < self.samples.len() ==> (#[trigger] self.samples[i]).matrices.wf()
        &&& self.alpha == alphas(self.samples)
        &&& self.beta == pairwise(self.alpha)
        &&& self.beta_width == self.samples.len()
    }

    /// A sample may join the set unless checks are enabled, it names a
    /// reference, and no sample of the set names the same one.
    pub open spec fn admits(self, sample: BamView) -> bool {
        ||| !self.checks
        ||| sample.reference.len() == 0
        ||| exists|k: int|
            0 <= k < self.samples.len() && (#[trigger] self.samples[k]).reference == sample.reference
    }

    /// The set after the sample joined it.
    pub open spec fn pushed(self, sample: BamView) -> BamDataView {
        let a = mean(sample.matrices.efficiency);
        BamDataView {
            samples: self.samples.push(sample),
            checks: self.checks,
            alpha: self.alpha.push(a),
            beta: grown(self.beta, self.alpha, a),
            beta_width: self.beta_width + 1,
        }
    }
}

impl View for Bam {
    type V = BamView;

    closed spec fn view(&self) -> BamView {
        BamView { name: self.name@, reference: self.sqsn@, matrices: self.matrices@ }
    }
}

impl View for BamData {
    type V = BamDataView;

    closed spec fn view(&self) -> BamDataView {
        BamDataView {
            samples: views(self.bams@),
            checks: self.checks,
            alpha: self.alpha@,
            beta: self.beta@,
            beta_width: self.beta.width(),
        }
    }
}

/// The sum of scores that are each at most `bound`.
pub proof fn lemma_total_bound(scores: Seq<u64>, bound: int)
    requires
        forall|i: int| 0 <= i < scores.len() ==> scores[i] <= bound,
    ensures
        0 <= total(scores) <= scores.len() * bound,
    decreases scores.len(),
{
    if scores.len() > 0 {
        let front = scores.drop_last();
        assert forall|i: int| 0 <= i < front.len() implies front[i] <= bound by {
            assert(front[i] == scores[i]);
        }
        lemma_total_bound(front, bound);
        assert(front.len() * bound + bound == scores.len() * bound) by (nonlinear_arith)
            requires
                front.len() + 1 == scores.len(),
        ;
    }
}

/// The efficiency of sound matrices has one score of at most `ONE` per
/// position, so its mean is the exact quotient and at most `ONE`.
pub proof fn lemma_mean_bound(m: MatricesView)
    requires
        m.wf(),
    ensures
        m.efficiency.len() == m.coverage.len(),
        0 <= total(m.efficiency) <= u64::MAX,
        mean(m.efficiency) == total(m.efficiency) / m.efficiency.len() as int,
        mean(m.efficiency) <= ONE,
{
    let n = m.coverage.len();
    assert(m.pfm[0].len() == n);
    lemma_total_bound(m.efficiency, ONE as int);
    assert(total(m.efficiency) <= u64::MAX && total(m.efficiency) / n as int <= ONE) by (nonlinear_arith)
        requires
            0 <= total(m.efficiency) <= n * ONE,
            0 < n <= 0xFFFF_FFFF,
            ONE == 0x1_0000_0000,
    ;
}

/// Growing the beta matrix by one row and one column gives the matrix of
/// all pairs of the grown alpha vector.
pub proof fn lemma_grown_is_pairwise(alpha: Seq<u64>, a: u64)
    ensures
        grown(pairwise(alpha), alpha, a) == pairwise(alpha.push(a)),
{
    let n = alpha.len() as int;
    let one = grown(pairwise(alpha), alpha, a);
    let all = pairwise(alpha.push(a));
    assert(one.len() == all.len());
    assert forall|i: int| 0 <= i < n + 1 implies #[trigger] one[i] =~= all[i] by {
        if i < n {
            assert(one[i] == pairwise(alpha)[i].push(distances(alpha, a)[i]));
        }
    }
    assert(one =~= all);
}

/// The beta matrix is symmetric and its diagonal is zero.
pub proof fn lemma_beta_symmetric(data: BamDataView)
    requires
        data.wf(),
    ensures
        data.alpha.len() == data.samples.len(),
        data.beta.len() == data.samples.len(),
        data.beta_width == data.samples.len(),
        rectangular(data.beta, data.samples.len()),
        forall|i: int, j: int|
            0 <= i < data.samples.len() && 0 <= j < data.samples.len() ==> #[trigger] data.beta[i][j]
                == data.beta[j][i] && data.beta[i][j] == spec_distance(data.alpha[i], data.alpha[j]),
        forall|i: int| 0 <= i < data.samples.len() ==> #[trigger] data.beta[i][i] == 0,
{
}

/// A sample that joins a sound set leaves it sound: the grown alpha vector
/// and beta matrix are those of the grown sequence of samples.
pub proof fn lemma_pushed_is_bulk(data: BamDataView, sample: BamView)
    requires
        data.wf(),
        sample.matrices.wf(),
    ensures
        data.pushed(sample).wf(),
        data.pushed(sample) == bulk(data.samples.push(sample), data.checks),
{
    let next = data.pushed(sample);
    lemma_grown_is_pairwise(data.alpha, mean(sample.matrices.efficiency));
    assert(next.alpha =~= alphas(next.samples));
}

/// Pushing samples one by one onto the empty set gives the alpha vector
/// and the beta matrix of the set built from all of them at once.
pub proof fn lemma_push_equals_bulk(samples: Seq<BamView>)
    requires
        forall|i: int| 0 <= i < samples.len() ==> (#[trigger] samples[i]).matrices.wf(),
    ensures
        pushed_all(samples).wf(),
        pushed_all(samples) == bulk(samples, false),
        forall|checks: bool|
            pushed_all(samples).alpha == (#[trigger] bulk(samples, checks)).alpha && pushed_all(
                samples,
            ).beta == bulk(samples, checks).beta,
    decreases samples.len(),
{
    if samples.len() == 0 {
        assert(empty().alpha =~= alphas(samples));
        assert(empty().beta =~= pairwise(empty().alpha));
        assert(empty().samples =~= samples);
    } else {
        let front = samples.drop_last();
        assert forall|i: int| 0 <= i < front.len() implies (#[trigger] front[i]).matrices.wf() by {
            assert(front[i] == samples[i]);
        }
        lemma_push_equals_bulk(front);
        lemma_pushed_is_bulk(pushed_all(front), samples.last());
        assert(front.push(samples.last()) =~= samples);
    }
}

impl Bam {
    /// The sample of the given name whose reads, aligned to the reference
    /// `sqsn`, give matrices over the confident region of the window.
    pub fn new(
        name: String,
        sqsn: String,
        reads: &Vec<AlignedRead>,
        range: (i32, i32),
        threshold: u64,
    ) -> (result: Result<Bam, QSAError>)
        requires
            window_width(range) * 32 <= isize::MAX,
        ensures
            match result {
                Ok(bam) => {
                    &&& bam@.name == name@
                    &&& bam@.reference == sqsn@
                    &&& bam@.matrices.wf()
                    &&& analysis(reads@, range, threshold) == Ok::<MatricesView, QSAError>(
                        bam@.matrices,
                    )
                },
                Err(e) => analysis(reads@, range, threshold) == Err::<MatricesView, QSAError>(e),
            },
    {
        match Matrices::new(reads, range, threshold) {
            Ok(matrices) => Ok(Bam { name, matrices, sqsn }),
            Err(e) => Err(e),
        }
    }

    /// The alpha diversity of the sample: the mean of its efficiency.
    pub fn alpha_diversity(&self) -> (alpha: u64)
        ensures
            alpha == mean(self@.matrices.efficiency),
            alpha == total(self@.matrices.efficiency) / self@.matrices.efficiency.len() as int,
            alpha <= ONE,
            self@.matrices.wf(),
    {
        let efficiency = self.matrices.get_efficiency();
        let coverage = self.matrices.get_coverage();
        proof {
            lemma_mean_bound(self.matrices@);
        }
        efficiency.sum() / coverage.len() as u64
    }

    /// Renames the sample.
    pub fn set_name(&mut self, name: String) -> (renamed: &mut Self)
        ensures
            renamed@.name == name@,
            renamed@.reference == old(self)@.reference,
            renamed@.matrices == old(self)@.matrices,
            *final(self) == *final(renamed),
    {
        self.name = name;
        self
    }

    /// The name of the reference sequence, empty where none is known.
    pub fn reference(&self) -> (sqsn: &String)
        ensures
            sqsn@ == self@.reference,
    {
        &self.sqsn
    }

    /// The name of the sample.
    pub fn name(&self) -> (name: &String)
        ensures
            name@ == self@.name,
    {
        &self.name
    }

    /// The matrices of the sample.
    pub fn matrices(&self) -> (matrices: &Matrices)
        ensures
            matrices@ == self@.matrices,
            matrices@.wf(),
    {
        let _ = self.matrices.get_coverage();
        &self.matrices
    }

    /// The frequency matrix as the records of a table: one record per
    /// position, with the counts of `A`, `C`, `G` and `T` there.
    pub fn pfm_records(&self) -> (records: Vec<Vec<u64>>)
        ensures
            records@.len() == self@.matrices.coverage.len(),
            forall|c: int|
                0 <= c < records@.len() ==> (#[trigger] records@[c])@ == seq![
                    self@.matrices.pfm[0][c],
                    self@.matrices.pfm[1][c],
                    self@.matrices.pfm[2][c],
                    self@.matrices.pfm[3][c],
                ],
    {
        self.matrices.pfm_records()
    }
}

impl BamData {
    /// The samples are sound, there is one alpha diversity per sample, and
    /// the beta matrix holds the distance of each pair of them. This holds
    /// of every set.
    pub open spec fn wf(&self) -> bool {
        self@.wf()
    }

    #[verifier::type_invariant]
    spec fn sound(self) -> bool {
        self@.wf()
    }

    /// The alpha diversity of each sample, in their order.
    fn alpha(bams: &Vec<Bam>) -> (alpha: Vector)
        ensures
            alpha@ == alphas(views(bams@)),
            forall|i: int| 0 <= i < bams@.len() ==> (#[trigger] views(bams@)[i]).matrices.wf(),
    {
        let mut scores: Vec<u64> = Vec::new();
        let mut k: usize = 0;
        while k < bams.len()
            invariant
                k <= bams.len(),
                scores@.len() == k,
                forall|i: int| 0 <= i < k ==> scores@[i] == mean(#[trigger] views(bams@)[i].matrices.efficiency),
                forall|i: int| 0 <= i < k ==> (#[trigger] views(bams@)[i]).matrices.wf(),
            decreases bams.len() - k,
        {
            scores.push(bams[k].alpha_diversity());
            k += 1;
        }
        let alpha = Vector::wrap(scores);
        assert(alpha@ =~= alphas(views(bams@)));
        alpha
    }

    /// Adds the alpha diversity of the sample to the alpha vector.
    fn alpha_add(alpha: &mut Vector, bam: &Bam)
        requires
            (old(alpha)@.len() + 1) * 8 <= isize::MAX,
        ensures
            final(alpha)@ == old(alpha)@.push(mean(bam@.matrices.efficiency)),
            bam@.matrices.wf(),
    {
        let a = bam.alpha_diversity();
        // The grown vector fits, so the append cannot fail.
        match alpha.append(a) {
            Ok(()) => {},
            Err(_) => {},
        }
    }

    /// The beta matrix of an alpha vector: the distance of every pair.
    pub fn beta(alpha: &Vector) -> (beta: Matrix)
        requires
            alpha@.len() * alpha@.len() * 8 <= isize::MAX,
        ensures
            beta@ == pairwise(alpha@),
            beta.width() == alpha@.len(),
    {
        let n = alpha.len();
        assert(n <= n * n * 8) by (nonlinear_arith);
        let mut beta = Matrix::zeros(n, n);
        let mut i: usize = 0;
        while i < n
            invariant
                i <= n == alpha@.len() == beta@.len(),
                beta.width() == n,
                rectangular(beta@, n as nat),
                forall|r: int, c: int|
                    0 <= r < i && 0 <= c < n ==> #[trigger] beta@[r][c] == spec_distance(
                        alpha@[r],
                        alpha@[c],
                    ),
            decreases n - i,
        {
            let mut j: usize = 0;
            while j < n
                invariant
                    i < n == alpha@.len() == beta@.len(),
                    j <= n,
                    beta.width() == n,
                    rectangular(beta@, n as nat),
                    forall|r: int, c: int|
                        0 <= r < i && 0 <= c < n ==> #[trigger] beta@[r][c] == spec_distance(
                            alpha@[r],
                            alpha@[c],
                        ),
                    forall|c: int|
                        0 <= c < j ==> #[trigger] beta@[i as int][c] == spec_distance(
                            alpha@[i as int],
                            alpha@[c],
                        ),
                decreases n - j,
            {
                assert(beta@[i as int].len() == n);
                let ghost rows = beta@;
                beta.put(i, j, distance(alpha.at(i), alpha.at(j)));
                assert(rectangular(beta@, n as nat)) by {
                    assert forall|r: int| 0 <= r < beta@.len() implies (#[trigger] beta@[r]).len()
                        == n by {
                        assert(rows[r].len() == n);
                    }
                }
                assert forall|r: int, c: int| 0 <= r < i && 0 <= c < n implies #[trigger] beta@[r][c]
                    == spec_distance(alpha@[r], alpha@[c]) by {
                    assert(rows[r][c] == spec_distance(alpha@[r], alpha@[c]));
                }
                assert forall|c: int| 0 <= c < j + 1 implies #[trigger] beta@[i as int][c]
                    == spec_distance(alpha@[i as int], alpha@[c]) by {
                    if c < j {
                        assert(rows[i as int][c] == spec_distance(alpha@[i as int], alpha@[c]));
                    }
                }
                j += 1;
            }
            i += 1;
        }
        assert(beta@ =~= pairwise(alpha@)) by {
            assert forall|r: int| 0 <= r < n implies #[trigger] beta@[r] =~= pairwise(alpha@)[r] by {
                assert(beta@[r].len() == n);
            }
        }
        beta
    }

    /// Grows the beta matrix by the last item of the alpha vector: one new
    /// column and one new row with its distance to each item before it.
    fn beta_upd(beta: &mut Matrix, alpha: &Vector)
        requires
            alpha@.len() > 0,
            old(beta)@ == pairwise(alpha@.drop_last()),
            old(beta).width() == alpha@.len() - 1,
            alpha@.len() * alpha@.len() * 8 <= isize::MAX,
        ensures
            final(beta)@ == grown(old(beta)@, alpha@.drop_last(), alpha@.last()),
            final(beta).width() == old(beta).width() + 1,
    {
        let n = alpha.len() - 1;
        let last = alpha.at(n);
        let ghost rest = alpha@.drop_last();
        let mut values: Vec<u64> = Vec::new();
        let mut k: usize = 0;
        while k < n
            invariant
                k <= n == rest.len(),
                alpha@.len() == n + 1,
                last == alpha@[n as int],
                rest == alpha@.drop_last(),
                values@ == distances(rest, last).subrange(0, k as int),
            decreases n - k,
        {
            values.push(distance(alpha.at(k), last));
            assert(values@ =~= distances(rest, last).subrange(0, k + 1));
            k += 1;
        }
        assert(values@ =~= distances(rest, last));
        assert(n + 1 <= (n + 1) * (n + 1) * 8 && n * (n + 1) * 8 <= (n + 1) * (n + 1) * 8)
            by (nonlinear_arith)
            requires
                n >= 0,
        ;
        // The lengths agree and the grown matrix fits, so neither push
        // can fail.
        match beta.push_column(&values) {
            Ok(()) => {},
            Err(_) => {},
        }
        values.push(0);
        match beta.push_row(&values) {
            Ok(()) => {},
            Err(_) => {},
        }
    }

    /// The set of the given samples, in their order. With checks enabled
    /// it is an error if two samples name different references; a sample
    /// that names none agrees with every other.
    pub fn from_bams(bams: Vec<Bam>, checks: bool) -> (result: Result<BamData, QSAError>)
        requires
            bams@.len() * bams@.len() * 8 <= isize::MAX,
        ensures
            match result {
                Ok(data) => data@ == bulk(views(bams@), checks) && data.wf(),
                Err(e) => e == QSAError::ReferenceMismatch,
            },
            result is Err <==> checks && !consistent(views(bams@)),
    {
        if checks {
            let mut first: Option<usize> = None;
            let mut k: usize = 0;
            while k < bams.len()
                invariant
                    checks,
                    k <= bams.len(),
                    match first {
                        None => forall|i: int|
                            0 <= i < k ==> (#[trigger] views(bams@)[i]).reference.len() == 0,
                        Some(f) => {
                            &&& f < k
                            &&& views(bams@)[f as int].reference.len() > 0
                            &&& forall|i: int|
                                0 <= i < k ==> (#[trigger] views(bams@)[i]).reference.len() == 0
                                    || views(bams@)[i].reference == views(bams@)[f as int].reference
                        },
                    },
                decreases bams.len() - k,
            {
                if !bams[k].sqsn.as_str().is_empty() {
                    match first {
                        None => {
                            first = Some(k);
                        },
                        Some(f) => {
                            if bams[f].sqsn != bams[k].sqsn {
                                assert(!consistent(views(bams@))) by {
                                    assert(views(bams@)[f as int].reference != views(
                                        bams@,
                                    )[k as int].reference);
                                }
                                return Err(QSAError::ReferenceMismatch);
                            }
                        },
                    }
                }
                k += 1;
            }
            assert(consistent(views(bams@)));
        }
        let alpha = BamData::alpha(&bams);
        let beta = BamData::beta(&alpha);
        Ok(BamData { bams, checks, alpha, beta })
    }

    /// Adds a sample behind the others. With checks enabled, a sample that
    /// names a reference must name that of a sample already in the set;
    /// otherwise it is refused and the set stays as it was.
    pub fn push(&mut self, bam: Bam) -> (result: Result<(), QSAError>)
        requires
            (old(self)@.samples.len() + 1) * (old(self)@.samples.len() + 1) * 8 <= isize::MAX,
        ensures
            old(self).wf(),
            match result {
                Ok(()) => final(self)@ == old(self)@.pushed(bam@) && final(self).wf(),
                Err(e) => e == QSAError::ReferenceMismatch && *final(self) == *old(self),
            },
            result is Ok <==> old(self)@.admits(bam@),
    {
        proof {
            use_type_invariant(&*self);
        }
        if self.checks && !bam.sqsn.as_str().is_empty() {
            let mut known = false;
            let mut k: usize = 0;
            while k < self.bams.len() && !known
                invariant
                    k <= self.bams.len(),
                    *self == *old(self),
                    forall|i: int| 0 <= i < k ==> (#[trigger] self@.samples[i]).reference != bam@.reference,
                    known ==> old(self)@.admits(bam@),
                decreases self.bams.len() - k + if known { 0int } else { 1int },
            {
                if self.bams[k].sqsn == bam.sqsn {
                    assert(self@.samples[k as int].reference == bam@.reference);
                    known = true;
                } else {
                    k += 1;
                }
            }
            if !known {
                return Err(QSAError::ReferenceMismatch);
            }
        }
        let ghost before = self@;
        assert(before.alpha.len() == before.samples.len());
        assert((before.alpha.len() + 1) * 8 <= (before.alpha.len() + 1) * (before.alpha.len() + 1) * 8)
            by (nonlinear_arith);
        // The three parts grow apart from the set, which takes them back
        // together.
        let mut taken = BamData::default();
        std::mem::swap(self, &mut taken);
        let BamData { bams, checks, alpha, beta } = taken;
        let mut bams = bams;
        let mut alpha = alpha;
        let mut beta = beta;
        BamData::alpha_add(&mut alpha, &bam);
        assert(alpha@.drop_last() == before.alpha);
        BamData::beta_upd(&mut beta, &alpha);
        bams.push(bam);
        proof {
            assert(views(bams@) =~= before.samples.push(bam@));
            lemma_pushed_is_bulk(before, bam@);
        }
        *self = BamData { bams, checks, alpha, beta };
        Ok(())
    }

    /// The alpha diversity of each sample, in their order.
    pub fn alpha_diversity(&self) -> (alpha: &Vector)
        ensures
            alpha@ == self@.alpha,
            self.wf(),
    {
        proof {
            use_type_invariant(self);
        }
        &self.alpha
    }

    /// The beta diversity of each pair of samples.
    pub fn beta_diversity(&self) -> (beta: &Matrix)
        ensures
            beta@ == self@.beta,
            beta.width() == self@.beta_width,
            self.wf(),
    {
        proof {
            use_type_invariant(self);
        }
        &self.beta
    }

    /// The names of the samples, in their order.
    pub fn get_names(&self) -> (names: Vec<String>)
        ensures
            self.wf(),
            names@.len() == self@.samples.len(),
            forall|i: int| 0 <= i < names@.len() ==> (#[trigger] names@[i])@ == self@.samples[i].name,
    {
        proof {
            use_type_invariant(self);
        }
        let mut rv: Vec<String> = Vec::new();
        let mut k: usize = 0;
        while k < self.bams.len()
            invariant
                k <= self.bams.len(),
                rv@.len() == k,
                forall|i: int| 0 <= i < k ==> (#[trigger] rv@[i])@ == self@.samples[i].name,
            decreases self.bams.len() - k,
        {
            rv.push(self.bams[k].name.clone());
            k += 1;
        }
        rv
    }

    /// Whether the beta matrix of `count` samples fits the address space.
    pub fn can_hold(count: usize) -> (ok: bool)
        ensures
            ok == (count * count * 8 <= isize::MAX),
    {
        match count.checked_mul(count) {
            Some(cells) => cells <= isize::MAX as usize / 8,
            None => false,
        }
    }

    /// The number of samples.
    pub fn len(&self) -> (n: usize)
        ensures
            n == self@.samples.len(),
            self.wf(),
    {
        proof {
            use_type_invariant(self);
        }
        self.bams.len()
    }

    /// The sample at index `i`, if there is one.
    pub fn get(&self, i: usize) -> (bam: Option<&Bam>)
        ensures
            match bam {
                Some(bam) => i < self@.samples.len() && bam@ == self@.samples[i as int],
                None => i >= self@.samples.len(),
            },
    {
        if i < self.bams.len() {
            Some(&self.bams[i])
        } else {
            None
        }
    }

    /// The beta diversity of each pair of different samples, once: the
    /// cells above the diagonal of the beta matrix, row by row.
    pub fn beta_pairs(&self) -> (pairs: Vec<u64>)
        ensures
            pairs@ == upper_triangle(self@.beta, 0),
            self.wf(),
    {
        proof {
            use_type_invariant(self);
        }
        let n = self.beta.nrows();
        let ghost rows = self.beta@;
        let mut pairs: Vec<u64> = Vec::new();
        let mut i: usize = 0;
        assert(pairs@ + upper_triangle(rows, 0) =~= upper_triangle(rows, 0));
        while i < n
            invariant
                i <= n == rows.len(),
                rows == self.beta@,
                rectangular(rows, n as nat),
                pairs@ + upper_triangle(rows, i as int) == upper_triangle(rows, 0),
            decreases n - i,
        {
            let ghost before = pairs@;
            let mut j: usize = i + 1;
            while j < n
                invariant
                    i < j <= n == rows.len(),
                    rows == self.beta@,
                    rectangular(rows, n as nat),
                    pairs@ == before + rows[i as int].subrange(i + 1, j as int),
                decreases n - j,
            {
                assert(rows[i as int].len() == n);
                pairs.push(self.beta.at(i, j));
                assert(pairs@ =~= before + rows[i as int].subrange(i + 1, j + 1));
                j += 1;
            }
            assert(pairs@ + upper_triangle(rows, i + 1) =~= before + upper_triangle(rows, i as int));
            i += 1;
        }
        assert(pairs@ + upper_triangle(rows, n as int) =~= pairs@);
        pairs
    }

    /// Walks the samples in their order.
    pub fn iter(&self) -> (walk: BamDataIterator<'_>)
        ensures
            walk.remaining() == self@.samples,
    {
        let walk = BamDataIterator { bam: &self.bams, seen: 0 };
        assert(walk.remaining() =~= self@.samples);
        walk
    }

    /// Takes the set apart into its samples, in their order.
    pub fn into_iter(self) -> (walk: BamDataIntoIterator)
        ensures
            walk.remaining() == self@.samples,
    {
        BamDataIntoIterator { bam: self.bams }
    }
}

impl<'a> BamDataIterator<'a> {
    /// The samples still to come.
    pub closed spec fn remaining(&self) -> Seq<BamView> {
        if self.seen <= self.bam@.len() {
            views(self.bam@).subrange(self.seen as int, self.bam@.len() as int)
        } else {
            Seq::empty()
        }
    }

    /// The next sample, if one is left.
    pub fn next(&mut self) -> (item: Option<&'a Bam>)
        ensures
            match item {
                Some(bam) => {
                    &&& old(self).remaining().len() > 0
                    &&& bam@ == old(self).remaining()[0]
                    &&& final(self).remaining() == old(self).remaining().drop_first()
                },
                None => old(self).remaining().len() == 0 && final(self).remaining() == old(
                    self,
                ).remaining(),
            },
    {
        if self.seen < self.bam.len() {
            let bam = &self.bam[self.seen];
            self.seen = self.seen + 1;
            assert(self.remaining() =~= old(self).remaining().drop_first());
            Some(bam)
        } else {
            None
        }
    }
}

impl BamDataIntoIterator {
    /// The samples still to come.
    pub closed spec fn remaining(&self) -> Seq<BamView> {
        views(self.bam@)
    }

    /// The next sample, if one is left.
    pub fn next(&mut self) -> (item: Option<Bam>)
        ensures
            match item {
                Some(bam) => {
                    &&& old(self).remaining().len() > 0
                    &&& bam@ == old(self).remaining()[0]
                    &&& final(self).remaining() == old(self).remaining().drop_first()
                },
                None => old(self).remaining().len() == 0 && final(self).remaining() == old(
                    self,
                ).remaining(),
            },
    {
        if self.bam.len() > 0 {
            let bam = self.bam.remove(0);
            assert(self.remaining() =~= old(self).remaining().drop_first());
            Some(bam)
        } else {
            None
        }
    }
}

impl Default for BamData {
    /// The set without samples and without checks.
    fn default() -> (data: BamData)
        ensures
            data@ == empty(),
            data.wf(),
    {
        let bams: Vec<Bam> = Vec::new();
        let alpha = Vector::wrap(Vec::new());
        let beta = Matrix::zeros(0, 0);
        assert(views(bams@) =~= empty().samples);
        assert(alpha@ =~= alphas(views(bams@)));
        assert(beta@ =~= pairwise(alpha@));
        assert(beta@ =~= empty().beta);
        BamData { bams, checks: false, alpha, beta }
    }
}

} // verus!
