//! Line-level diffing of two byte strings, and the formatting of a diff
//! into display lines. The diff itself comes from an outside library; the
//! formatting is verified against an exact spec.

use crate::bytes::strip_nl;
use crate::records::{FormattedLine, LineView, Sign};
use vstd::prelude::*;

verus! {

/// How one diff entry classifies its line.
#[derive(Clone, Copy, PartialEq, Eq, Structural, Debug)]
pub enum DiffTag {
    /// The line occurs only in the old text.
    Delete,
    /// The line occurs only in the new text.
    Insert,
    /// The line occurs in both texts.
    Equal,
}

/// One entry of a line-level diff: its classification, its line index in
/// the old and in the new text (each absent when the entry does not touch
/// that side), and the line's bytes, trailing newline included.
pub struct DiffChange {
    pub tag: DiffTag,
    pub old_index: Option<usize>,
    pub new_index: Option<usize>,
    pub value: Vec<u8>,
}

/// The mathematical content of a diff entry; indices as integers.
pub struct ChangeView {
    pub tag: DiffTag,
    pub old_index: Option<int>,
    pub new_index: Option<int>,
    pub value: Seq<u8>,
}

impl View for DiffChange {
    type V = ChangeView;

    open spec fn view(&self) -> ChangeView {
        ChangeView {
            tag: self.tag,
            old_index: match self.old_index {
                Some(n) => Some(n as int),
                None => None,
            },
            new_index: match self.new_index {
                Some(n) => Some(n as int),
                None => None,
            },
            value: self.value@,
        }
    }
}

impl DeepView for DiffChange {
    type V = ChangeView;

    open spec fn deep_view(&self) -> ChangeView {
        self@
    }
}

/// The line-level diff of two byte strings, in the order the diff algorithm
/// emits its entries. The diff depends on the two inputs alone.
pub uninterp spec fn line_diff_of(old: Seq<u8>, new: Seq<u8>) -> Seq<ChangeView>;

/// Relies on `similar::TextDiff::from_lines` and `iter_all_changes`: a
/// line-level diff of the two byte strings, deterministic in its inputs;
/// each entry's `old_index`/`new_index` is a line index into the respective
/// input, and a text of `n` bytes has at most `n` lines.
#[verifier::external_body]
pub(crate) fn diff_lines(old: &Vec<u8>, new: &Vec<u8>) -> (r: Vec<DiffChange>)
    ensures
        r.deep_view() == line_diff_of(old@, new@),
        forall|i: int|
            0 <= i < r@.len() ==> ((#[trigger] r@[i]).old_index matches Some(k) ==> k <= old@.len()),
        forall|i: int|
            0 <= i < r@.len() ==> ((#[trigger] r@[i]).new_index matches Some(k) ==> k <= new@.len()),
{
    let diff = similar::TextDiff::from_lines(old.as_slice(), new.as_slice());
    let changes = diff.iter_all_changes().map(|c| DiffChange {
        tag: match c.tag() {
            similar::ChangeTag::Delete => DiffTag::Delete,
            similar::ChangeTag::Insert => DiffTag::Insert,
            similar::ChangeTag::Equal => DiffTag::Equal,
        },
        old_index: c.old_index(),
        new_index: c.new_index(),
        value: c.value().to_vec(),
    });
    changes.collect()
}

/// One diff entry rendered as a display line: line numbers are the entry's
/// indices shifted to the excerpt's first line number, the sign follows the
/// tag, and newline bytes are stripped from the text.
pub open spec fn change_line(c: ChangeView, first: int) -> LineView {
    LineView {
        bln: match c.old_index {
            Some(k) => Some(first + k),
            None => None,
        },
        aln: match c.new_index {
            Some(k) => Some(first + k),
            None => None,
        },
        sign: match c.tag {
            DiffTag::Delete => Some(Sign::Minus),
            DiffTag::Insert => Some(Sign::Plus),
            DiffTag::Equal => None,
        },
        val: strip_nl(c.value),
    }
}

/// A whole diff rendered as display lines, entry by entry, in order.
pub open spec fn changes_formatted(cs: Seq<ChangeView>, first: int) -> Seq<LineView> {
    Seq::new(cs.len(), |i: int| change_line(cs[i], first))
}

/// Renders a diff as display lines: one line per entry, in the diff's own
/// order, with line numbers shifted to start at `first`.
pub fn format_changes(changes: &Vec<DiffChange>, first: usize) -> (r: Vec<FormattedLine>)
    requires
        forall|i: int|
            0 <= i < changes@.len() ==> ((#[trigger] changes@[i]).old_index matches Some(k)
                ==> first + k <= usize::MAX),
        forall|i: int|
            0 <= i < changes@.len() ==> ((#[trigger] changes@[i]).new_index matches Some(k)
                ==> first + k <= usize::MAX),
    ensures
        r.deep_view() == changes_formatted(changes.deep_view(), first as int),
{
    let mut out: Vec<FormattedLine> = Vec::new();
    let mut i: usize = 0;
    while i < changes.len()
        invariant
            i <= changes@.len(),
            out.deep_view().len() == i,
            forall|j: int|
                0 <= j < i ==> out.deep_view()[j] == change_line(changes@[j]@, first as int),
            forall|j: int|
                0 <= j < changes@.len() ==> ((#[trigger] changes@[j]).old_index matches Some(k)
                    ==> first + k <= usize::MAX),
            forall|j: int|
                0 <= j < changes@.len() ==> ((#[trigger] changes@[j]).new_index matches Some(k)
                    ==> first + k <= usize::MAX),
        decreases changes@.len() - i,
    {
        let c = &changes[i];
        let bln: Option<usize> = match c.old_index {
            Some(k) => Some(first + k),
            None => None,
        };
        let aln: Option<usize> = match c.new_index {
            Some(k) => Some(first + k),
            None => None,
        };
        let sign: Option<Sign> = match c.tag {
            DiffTag::Delete => Some(Sign::Minus),
            DiffTag::Insert => Some(Sign::Plus),
            DiffTag::Equal => None,
        };
        let val = crate::bytes::remove_newlines(&c.value);
        let ghost prev = out.deep_view();
        out.push(FormattedLine { bln, aln, sign, val });
        proof {
            assert(out.deep_view() =~= prev.push(
                FormattedLine { bln, aln, sign, val }@,
            ));
            assert(out.deep_view()[i as int] == change_line(changes@[i as int]@, first as int));
        }
        i = i + 1;
    }
    proof {
        assert(out.deep_view() =~= changes_formatted(changes.deep_view(), first as int));
    }
    out
}

} // verus!
