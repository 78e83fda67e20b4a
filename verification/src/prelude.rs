pub use crate::array::{Matrix, Vector};
pub use crate::bam::{Bam, BamData};
pub use crate::builder::{BamDataBuilder, RecordSource};
pub use crate::error::QSAError;
pub use crate::matrices::{AlignedRead, Matrices};
