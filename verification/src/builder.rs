use crate::bam::{bulk, consistent, views, Bam, BamData, BamDataView, BamView};
use crate::error::QSAError;
use crate::matrices::{analysis, covering, full_range, window_fits, window_width, AlignedRead};
use vstd::prelude::*;

verus! {

/// The threshold of a new builder: the score nearest to 0.65.
pub const DEFAULT_THRESHOLD: u64 = 2791728742;

/// What reading one alignment file gives: the name of the sample, the name
/// of the reference sequence in the file's header (empty where the header
/// names none), and the aligned reads in the file's order.
pub struct RecordSource {
    pub name: String,
    pub sqsn: String,
    pub reads: Vec<AlignedRead>,
}

/// Collects the sources and the options of an analysis, and builds the set
/// of samples from them.
pub struct BamDataBuilder {
    bams: Vec<RecordSource>,
    range: Option<(i32, i32)>,
    threshold: u64,
    checks: bool,
}

/// What a `BamDataBuilder` holds.
pub struct BamDataBuilderView {
    pub bams: Seq<RecordSource>,
    pub range: Option<(i32, i32)>,
    pub threshold: u64,
    pub checks: bool,
}

/// The window in which the reads of a source are counted: the configured
/// one, or the full range of the reads where none is configured.
pub open spec fn window_of(range: Option<(i32, i32)>, reads: Seq<AlignedRead>) -> (i32, i32) {
    match range {
        Some(range) => range,
        None => covering(reads),
    }
}

/// The sample that a source gives, or the reason why it gives none.
pub open spec fn sample_of(source: RecordSource, range: Option<(i32, i32)>, threshold: u64) -> Result<
    BamView,
    QSAError,
> {
    match analysis(source.reads@, window_of(range, source.reads@), threshold) {
        Ok(matrices) => Ok(BamView { name: source.name@, reference: source.sqsn@, matrices }),
        Err(e) => Err(e),
    }
}

/// The samples of the sources in their order, or the error of the first
/// source that gives none.
pub open spec fn samples_of(sources: Seq<RecordSource>, range: Option<(i32, i32)>, threshold: u64) -> Result<
    Seq<BamView>,
    QSAError,
>
    decreases sources.len(),
{
    if sources.len() == 0 {
        Ok(Seq::empty())
    } else {
        match samples_of(sources.drop_last(), range, threshold) {
            Err(e) => Err(e),
            Ok(front) => match sample_of(sources.last(), range, threshold) {
                Err(e) => Err(e),
                Ok(sample) => Ok(front.push(sample)),
            },
        }
    }
}

impl BamDataBuilderView {
    /// The set that the builder builds, or the reason why it builds none:
    /// the error of the first source without a sample, or the mismatch of
    /// the references of the samples.
    pub open spec fn built(self) -> Result<BamDataView, QSAError> {
        match samples_of(self.bams, self.range, self.threshold) {
            Err(e) => Err(e),
            Ok(samples) => if self.checks && !consistent(samples) {
                Err(QSAError::ReferenceMismatch)
            } else {
                Ok(bulk(samples, self.checks))
            },
        }
    }

    /// The matrices of every source and of the set fit the address space.
    pub open spec fn fits(self) -> bool {
        &&& self.bams.len() * self.bams.len() * 8 <= isize::MAX
        &&& forall|i: int|
            0 <= i < self.bams.len() ==> window_width(
                window_of(self.range, (#[trigger] self.bams[i]).reads@),
            ) * 32 <= isize::MAX
    }
}

impl View for BamDataBuilder {
    type V = BamDataBuilderView;

    closed spec fn view(&self) -> BamDataBuilderView {
        BamDataBuilderView {
            bams: self.bams@,
            range: self.range,
            threshold: self.threshold,
            checks: self.checks,
        }
    }
}

impl Default for BamDataBuilder {
    /// A builder without sources, over the full range of each source, with
    /// the default threshold and with checks enabled.
    fn default() -> (builder: BamDataBuilder)
        ensures
            builder@ == (BamDataBuilderView {
                bams: Seq::empty(),
                range: None,
                threshold: DEFAULT_THRESHOLD,
                checks: true,
            }),
    {
        BamDataBuilder { bams: Vec::new(), range: None, threshold: DEFAULT_THRESHOLD, checks: true }
    }
}

impl BamDataBuilder {
    /// Adds one source behind the others.
    pub fn add_bam(&mut self, bam: RecordSource) -> (builder: &mut Self)
        ensures
            builder@ == (BamDataBuilderView { bams: old(self)@.bams.push(bam), ..old(self)@ }),
            *final(self) == *final(builder),
    {
        self.bams.push(bam);
        self
    }

    /// Adds the sources, in their order, behind the others.
    pub fn add_bams(&mut self, bams: Vec<RecordSource>) -> (builder: &mut Self)
        ensures
            builder@ == (BamDataBuilderView { bams: old(self)@.bams + bams@, ..old(self)@ }),
            *final(self) == *final(builder),
    {
        let mut bams = bams;
        self.bams.append(&mut bams);
        self
    }

    /// Counts the reads of every source within the window `[start, end)`.
    pub fn in_range(&mut self, range: (i32, i32)) -> (builder: &mut Self)
        ensures
            builder@ == (BamDataBuilderView { range: Some(range), ..old(self)@ }),
            *final(self) == *final(builder),
    {
        self.range = Some(range);
        self
    }

    /// Keeps the region in which the normalized coverage is above the
    /// threshold, a score.
    pub fn with_threshold(&mut self, threshold: u64) -> (builder: &mut Self)
        ensures
            builder@ == (BamDataBuilderView { threshold, ..old(self)@ }),
            *final(self) == *final(builder),
    {
        self.threshold = threshold;
        self
    }

    /// Enables or disables the check that the samples name one reference.
    pub fn with_checks(&mut self, checks: bool) -> (builder: &mut Self)
        ensures
            builder@ == (BamDataBuilderView { checks, ..old(self)@ }),
            *final(self) == *final(builder),
    {
        self.checks = checks;
        self
    }

    /// Whether the matrices of every source and of the set fit the address
    /// space, as `build` asks.
    pub fn fits(&self) -> (ok: bool)
        ensures
            ok == self@.fits(),
    {
        if !BamData::can_hold(self.bams.len()) {
            return false;
        }
        let mut k: usize = 0;
        while k < self.bams.len()
            invariant
                k <= self.bams.len(),
                forall|i: int|
                    0 <= i < k ==> window_width(
                        window_of(self@.range, (#[trigger] self@.bams[i]).reads@),
                    ) * 32 <= isize::MAX,
            decreases self.bams.len() - k,
        {
            let range = match self.range {
                Some(range) => range,
                None => full_range(&self.bams[k].reads),
            };
            if !window_fits(range) {
                assert(self@.bams[k as int] == self.bams@[k as int]);
                return false;
            }
            k += 1;
        }
        true
    }

    /// Builds the sample of every source, in their order, and the set of
    /// them. The first source without a sample ends the build with its
    /// error.
    pub fn build(&self) -> (result: Result<BamData, QSAError>)
        requires
            self@.fits(),
        ensures
            match result {
                Ok(data) => self@.built() == Ok::<BamDataView, QSAError>(data@) && data.wf(),
                Err(e) => self@.built() == Err::<BamDataView, QSAError>(e),
            },
    {
        let mut bams: Vec<Bam> = Vec::new();
        let mut k: usize = 0;
        assert(views(bams@) =~= Seq::empty());
        assert(self@.bams.subrange(0, 0).len() == 0);
        while k < self.bams.len()
            invariant
                k <= self.bams.len(),
                self@.fits(),
                bams@.len() == k,
                samples_of(self@.bams.subrange(0, k as int), self@.range, self@.threshold) == Ok::<
                    Seq<BamView>,
                    QSAError,
                >(views(bams@)),
            decreases self.bams.len() - k,
        {
            let source = &self.bams[k];
            let ghost sources = self@.bams.subrange(0, k + 1);
            assert(sources.drop_last() == self@.bams.subrange(0, k as int));
            assert(sources.last() == *source);
            assert(self@.bams[k as int] == *source);
            let range = match self.range {
                Some(range) => range,
                None => full_range(&source.reads),
            };
            match Bam::new(source.name.clone(), source.sqsn.clone(), &source.reads, range, self.threshold) {
                Ok(bam) => {
                    let ghost front = views(bams@);
                    bams.push(bam);
                    assert(views(bams@) =~= front.push(bam@));
                    assert(sample_of(*source, self@.range, self@.threshold) == Ok::<BamView, QSAError>(
                        bam@,
                    ));
                },
                Err(e) => {
                    proof {
                        lemma_failure_stays(self@.bams, k + 1, self@.range, self@.threshold);
                    }
                    return Err(e);
                },
            }
            k += 1;
        }
        assert(self@.bams.subrange(0, k as int) == self@.bams);
        BamData::from_bams(bams, self.checks)
    }
}

/// Sources behind the first one without a sample do not change the error.
pub proof fn lemma_failure_stays(
    sources: Seq<RecordSource>,
    k: int,
    range: Option<(i32, i32)>,
    threshold: u64,
)
    requires
        0 <= k <= sources.len(),
        samples_of(sources.subrange(0, k), range, threshold) is Err,
    ensures
        samples_of(sources, range, threshold) == samples_of(sources.subrange(0, k), range, threshold),
    decreases sources.len(),
{
    if k < sources.len() {
        let front = sources.drop_last();
        assert(front.subrange(0, k) == sources.subrange(0, k));
        lemma_failure_stays(front, k, range, threshold);
    } else {
        assert(sources.subrange(0, k) == sources);
    }
}

} // verus!
