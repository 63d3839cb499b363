use vstd::prelude::*;

verus! {

/// The immutable parameters of one pass: target average chunk size and the
/// two directory roots.  The chunker's minimum and maximum sizes derive
/// from the average.
#[derive(Debug, PartialEq, Eq)]
pub struct BackupConfig {
    pub average_size: u32,
    pub input_path: String,
    pub output_path: String,
}

impl BackupConfig {
    /// The bounds the chunker accepts: the average must stay within its
    /// supported window and divide evenly into the derived minimum.
    pub open spec fn wf(self) -> bool {
        256 <= self.average_size <= 4194304 && self.average_size % 8 == 0
    }

    pub fn new(average_size: u32, input_path: String, output_path: String) -> (r: BackupConfig)
        requires
            256 <= average_size <= 4194304,
            average_size % 8 == 0,
        ensures
            r.average_size == average_size,
            r.input_path@ == input_path@,
            r.output_path@ == output_path@,
            r.wf(),
    {
        BackupConfig { average_size, input_path, output_path }
    }

    /// The lower chunk-size bound: a quarter of the average.
    pub fn min_size(&self) -> (r: u32)
        ensures
            r == self.average_size / 4,
    {
        self.average_size / 4
    }

    /// The upper chunk-size bound: four times the average.
    pub fn max_size(&self) -> (r: u32)
        requires
            self.wf(),
        ensures
            r == self.average_size * 4,
    {
        self.average_size * 4
    }
}

impl Clone for BackupConfig {
    fn clone(&self) -> (r: Self)
        ensures
            r == *self,
    {
        BackupConfig {
            average_size: self.average_size,
            input_path: self.input_path.clone(),
            output_path: self.output_path.clone(),
        }
    }
}

} // verus!
