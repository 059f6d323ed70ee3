use vstd::prelude::*;

pub mod error;
pub mod reader;
pub mod writer;
pub mod merge;
pub mod laws;
pub mod round_trip;

pub use error::{GoCoverageError, GoErrorModel};

verus! {

/// How the hit counts of a textual profile are kept.
#[derive(Clone, Copy, Debug, PartialEq, Eq, Structural, Hash)]
pub enum GoProfileMode {
    /// Counts are presence flags, 0 or 1 (written `set`).
    SetMode,
    /// Counts are plain counts (written `count`).
    Count,
    /// Counts are atomically incremented counts (written `atomic`).
    Atomic,
}

/// A textual coverage profile: its mode and its blocks, in order.
#[derive(Clone, Debug, PartialEq, Eq, Hash)]
pub struct GoReport {
    mode: GoProfileMode,
    blocks: Vec<GoProfileBlock>,
}

/// One covered source range with its statement and hit counts.
#[derive(Clone, Debug, PartialEq, Eq, Hash, PartialOrd, Ord)]
pub struct GoProfileBlock {
    filename: String,
    start_line: u32,
    start_col: u32,
    end_line: u32,
    end_col: u32,
    number_of_statements: u32,
    count: u32,
}

/// The value of a [`GoProfileBlock`].
pub struct BlockModel {
    pub filename: Seq<char>,
    pub start_line: u32,
    pub start_col: u32,
    pub end_line: u32,
    pub end_col: u32,
    pub number_of_statements: u32,
    pub count: u32,
}

/// The value of a [`GoReport`].
pub struct ReportModel {
    pub mode: GoProfileMode,
    pub blocks: Seq<BlockModel>,
}

impl View for GoProfileBlock {
    type V = BlockModel;

    closed spec fn view(&self) -> BlockModel {
        BlockModel {
            filename: self.filename@,
            start_line: self.start_line,
            start_col: self.start_col,
            end_line: self.end_line,
            end_col: self.end_col,
            number_of_statements: self.number_of_statements,
            count: self.count,
        }
    }
}

/// The values of a sequence of blocks.
pub open spec fn blocks_view(bs: Seq<GoProfileBlock>) -> Seq<BlockModel> {
    bs.map_values(|b: GoProfileBlock| b@)
}

impl View for GoReport {
    type V = ReportModel;

    closed spec fn view(&self) -> ReportModel {
        ReportModel { mode: self.mode, blocks: blocks_view(self.blocks@) }
    }
}

impl GoReport {
    pub fn new(mode: GoProfileMode, profile_blocks: Vec<GoProfileBlock>) -> (r: Self)
        ensures
            r@ == (ReportModel { mode, blocks: blocks_view(profile_blocks@) }),
    {
        GoReport { mode, blocks: profile_blocks }
    }

    pub fn mode(&self) -> (r: &GoProfileMode)
        ensures
            *r == self@.mode,
    {
        &self.mode
    }

    pub fn mode_mut(&mut self) -> (r: &mut GoProfileMode)
        ensures
            *r == old(self)@.mode,
            final(self)@ == (ReportModel { mode: *final(r), blocks: old(self)@.blocks }),
    {
        &mut self.mode
    }

    pub fn profile_blocks(&self) -> (r: &Vec<GoProfileBlock>)
        ensures
            blocks_view(r@) == self@.blocks,
    {
        &self.blocks
    }

    pub fn profile_blocks_mut(&mut self) -> (r: &mut Vec<GoProfileBlock>)
        ensures
            blocks_view(r@) == old(self)@.blocks,
            final(self)@ == (ReportModel { mode: old(self)@.mode, blocks: blocks_view(final(r)@) }),
    {
        &mut self.blocks
    }
}

impl GoProfileBlock {
    pub fn new(
        filename: String,
        start_line: u32,
        start_col: u32,
        end_line: u32,
        end_col: u32,
        number_of_statements: u32,
        count: u32,
    ) -> (r: Self)
        ensures
            r@ == (BlockModel {
                filename: filename@,
                start_line,
                start_col,
                end_line,
                end_col,
                number_of_statements,
                count,
            }),
    {
        GoProfileBlock {
            filename,
            start_line,
            start_col,
            end_line,
            end_col,
            number_of_statements,
            count,
        }
    }

    pub fn filename(&self) -> (r: &String)
        ensures
            r@ == self@.filename,
    {
        &self.filename
    }

    pub fn filename_mut(&mut self) -> (r: &mut String)
        ensures
            r@ == old(self)@.filename,
            final(self)@ == (BlockModel { filename: final(r)@, ..old(self)@ }),
    {
        &mut self.filename
    }

    pub fn start_line(&self) -> (r: u32)
        ensures
            r == self@.start_line,
    {
        self.start_line
    }

    pub fn start_line_mut(&mut self) -> (r: &mut u32)
        ensures
            *r == old(self)@.start_line,
            final(self)@ == (BlockModel { start_line: *final(r), ..old(self)@ }),
    {
        &mut self.start_line
    }

    pub fn start_col(&self) -> (r: u32)
        ensures
            r == self@.start_col,
    {
        self.start_col
    }

    pub fn start_col_mut(&mut self) -> (r: &mut u32)
        ensures
            *r == old(self)@.start_col,
            final(self)@ == (BlockModel { start_col: *final(r), ..old(self)@ }),
    {
        &mut self.start_col
    }

    pub fn end_line(&self) -> (r: u32)
        ensures
            r == self@.end_line,
    {
        self.end_line
    }

    pub fn end_line_mut(&mut self) -> (r: &mut u32)
        ensures
            *r == old(self)@.end_line,
            final(self)@ == (BlockModel { end_line: *final(r), ..old(self)@ }),
    {
        &mut self.end_line
    }

    pub fn end_col(&self) -> (r: u32)
        ensures
            r == self@.end_col,
    {
        self.end_col
    }

    pub fn end_col_mut(&mut self) -> (r: &mut u32)
        ensures
            *r == old(self)@.end_col,
            final(self)@ == (BlockModel { end_col: *final(r), ..old(self)@ }),
    {
        &mut self.end_col
    }

    pub fn number_of_statements(&self) -> (r: u32)
        ensures
            r == self@.number_of_statements,
    {
        self.number_of_statements
    }

    pub fn number_of_statements_mut(&mut self) -> (r: &mut u32)
        ensures
            *r == old(self)@.number_of_statements,
            final(self)@ == (BlockModel { number_of_statements: *final(r), ..old(self)@ }),
    {
        &mut self.number_of_statements
    }

    pub fn count(&self) -> (r: u32)
        ensures
            r == self@.count,
    {
        self.count
    }

    pub fn count_mut(&mut self) -> (r: &mut u32)
        ensures
            *r == old(self)@.count,
            final(self)@ == (BlockModel { count: *final(r), ..old(self)@ }),
    {
        &mut self.count
    }
}

} // verus!
