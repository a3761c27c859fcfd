//! The data that flows through the result aggregator: raw match records as
//! the structural-search engine reports them, and the display results the
//! aggregator produces.

use vstd::prelude::*;

verus! {

/// A line/column position, zero-based.
#[derive(Clone, Copy, PartialEq, Eq, Structural, Debug)]
pub struct End {
    pub line: usize,
    pub column: usize,
}

/// A half-open byte range into the matched file.
#[derive(Clone, Copy, PartialEq, Eq, Structural, Debug)]
pub struct ReplacementOffsets {
    pub start: u32,
    pub end: u32,
}

/// Where a match sits in its file: byte offsets and line/column positions.
#[derive(Clone, Copy, PartialEq, Eq, Structural, Debug)]
pub struct Range {
    pub byte_offset: ReplacementOffsets,
    pub start: End,
    pub end: End,
}

/// Leading and trailing character counts around the matched text.
#[derive(Clone, Copy, PartialEq, Eq, Structural, Debug)]
pub struct CharCount {
    pub leading: i64,
    pub trailing: i64,
}

/// One raw match record from the structural-search engine. Text fields hold
/// the bytes of the engine's strings.
pub struct SgResultRaw {
    /// The matched text.
    pub text: Vec<u8>,
    /// Where the match sits in the file.
    pub range: Range,
    /// The file the match was found in.
    pub file: Vec<u8>,
    /// The full source line(s) containing the match.
    pub lines: Vec<u8>,
    /// Character counts around the match.
    pub char_count: CharCount,
    /// The proposed replacement, when the query carries one.
    pub replacement: Option<Vec<u8>>,
    /// The language the engine parsed the file as.
    pub language: Vec<u8>,
}

/// The mathematical content of a raw match record.
pub struct RecordView {
    pub text: Seq<u8>,
    pub range: Range,
    pub file: Seq<u8>,
    pub lines: Seq<u8>,
    pub char_count: CharCount,
    pub replacement: Option<Seq<u8>>,
    pub language: Seq<u8>,
}

impl View for SgResultRaw {
    type V = RecordView;

    open spec fn view(&self) -> RecordView {
        RecordView {
            text: self.text@,
            range: self.range,
            file: self.file@,
            lines: self.lines@,
            char_count: self.char_count,
            replacement: match self.replacement {
                Some(ref r) => Some(r@),
                None => None,
            },
            language: self.language@,
        }
    }
}

impl DeepView for SgResultRaw {
    type V = RecordView;

    open spec fn deep_view(&self) -> RecordView {
        self@
    }
}

/// The change marker of one rendered diff line.
#[derive(Clone, Copy, PartialEq, Eq, Structural, Debug)]
pub enum Sign {
    /// The line is added.
    Plus,
    /// The line is removed.
    Minus,
}

/// One rendered output line: optional before/after line numbers, a change
/// marker (`None` for an unchanged or plain line), and the line's text with
/// newline bytes stripped.
pub struct FormattedLine {
    pub bln: Option<usize>,
    pub aln: Option<usize>,
    pub sign: Option<Sign>,
    pub val: Vec<u8>,
}

/// The mathematical content of a rendered line; line numbers as integers.
pub struct LineView {
    pub bln: Option<int>,
    pub aln: Option<int>,
    pub sign: Option<Sign>,
    pub val: Seq<u8>,
}

impl View for FormattedLine {
    type V = LineView;

    open spec fn view(&self) -> LineView {
        LineView {
            bln: match self.bln {
                Some(n) => Some(n as int),
                None => None,
            },
            aln: match self.aln {
                Some(n) => Some(n as int),
                None => None,
            },
            sign: self.sign,
            val: self.val@,
        }
    }
}

impl DeepView for FormattedLine {
    type V = LineView;

    open spec fn deep_view(&self) -> LineView {
        self@
    }
}

/// One match prepared for display: a stable identifier, the rendered lines,
/// and the fields a caller needs to apply the proposed edit.
pub struct SgGuiResultItem {
    pub id: Vec<u8>,
    pub formatted_lines: Vec<FormattedLine>,
    pub file: Vec<u8>,
    pub replacement: Vec<u8>,
    pub byte_start: u32,
    pub byte_end: u32,
}

/// The mathematical content of a display result.
pub struct ItemView {
    pub id: Seq<u8>,
    pub formatted_lines: Seq<LineView>,
    pub file: Seq<u8>,
    pub replacement: Seq<u8>,
    pub byte_start: u32,
    pub byte_end: u32,
}

impl View for SgGuiResultItem {
    type V = ItemView;

    open spec fn view(&self) -> ItemView {
        ItemView {
            id: self.id@,
            formatted_lines: self.formatted_lines.deep_view(),
            file: self.file@,
            replacement: self.replacement@,
            byte_start: self.byte_start,
            byte_end: self.byte_end,
        }
    }
}

impl DeepView for SgGuiResultItem {
    type V = ItemView;

    open spec fn deep_view(&self) -> ItemView {
        self@
    }
}

/// All display results of one file, ordered by byte start.
pub struct FileGroup {
    pub file: Vec<u8>,
    pub results: Vec<SgGuiResultItem>,
}

/// The mathematical content of a file's group.
pub struct GroupView {
    pub file: Seq<u8>,
    pub results: Seq<ItemView>,
}

impl View for FileGroup {
    type V = GroupView;

    open spec fn view(&self) -> GroupView {
        GroupView { file: self.file@, results: self.results.deep_view() }
    }
}

impl DeepView for FileGroup {
    type V = GroupView;

    open spec fn deep_view(&self) -> GroupView {
        self@
    }
}

} // verus!
