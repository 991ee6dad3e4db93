use vstd::prelude::*;

pub mod normal;
pub mod numeric;
pub mod strict;

verus! {

/// Outcome of one comparison: accepted, wrong answer, or presentation error
/// (the same content, laid out with other whitespace).
#[derive(Debug, Clone, Copy, PartialEq, Eq, Structural)]
pub enum Comparison {
    AC,
    WA,
    PE,
}

/// Which discipline a comparison follows.
#[derive(Debug, Clone, Copy, PartialEq, Eq, Structural)]
pub enum CompareMode {
    Normal,
    Strict,
    SpjFloat,
}

impl Comparison {
    /// The exit code that reports this verdict.
    pub fn exit_code(self) -> (r: i32)
        ensures
            self == Comparison::AC ==> r == 0,
            self == Comparison::WA ==> r == 1,
            self == Comparison::PE ==> r == 2,
    {
        match self {
            Comparison::AC => 0,
            Comparison::WA => 1,
            Comparison::PE => 2,
        }
    }
}

/// A failure that stops a comparison: a stream could not be read.
#[derive(Debug, Clone, PartialEq, Eq)]
pub enum CompareError {
    /// Reading failed; the code of the operating system, where it gave one.
    Io(Option<i32>),
}

/// One comparison to run: where the two streams come from, which discipline
/// to follow, and whether the candidate stream is read to its end whatever
/// the verdict.
#[derive(Debug, Clone)]
pub struct CompareTask {
    pub std_path: String,
    pub user_path: Option<String>,
    pub user_read_all: bool,
    pub mode: CompareMode,
}

} // verus!
