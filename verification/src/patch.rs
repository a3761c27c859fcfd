//! The patch engine: applies a list of byte-range edits to a byte buffer in
//! one pass. Every edit's range is expressed against the original buffer;
//! edits must be ascending and non-overlapping, and a list that is not is
//! rejected as a whole.

use crate::bytes::push_range;
use vstd::prelude::*;

verus! {

/// One requested change: replace the half-open range
/// `[byte_start, byte_end)` of the original buffer with `replacement`.
pub struct Edit {
    pub byte_start: u32,
    pub byte_end: u32,
    pub replacement: Vec<u8>,
}

/// The mathematical content of an `Edit`.
pub struct EditView {
    pub byte_start: u32,
    pub byte_end: u32,
    pub replacement: Seq<u8>,
}

impl View for Edit {
    type V = EditView;

    open spec fn view(&self) -> EditView {
        EditView {
            byte_start: self.byte_start,
            byte_end: self.byte_end,
            replacement: self.replacement@,
        }
    }
}

impl DeepView for Edit {
    type V = EditView;

    open spec fn deep_view(&self) -> EditView {
        self@
    }
}

/// Why a patch was refused.
#[derive(Clone, Copy, PartialEq, Eq, Structural, Debug)]
pub enum PatchError {
    /// Some edit's splice range does not fit the buffer: it starts before the
    /// end of the previous edit, ends before it starts, or runs past the end
    /// of the buffer.
    MalformedEdit,
}

/// The edits are well formed against a buffer of length `len`, from position
/// `cursor` on: ascending, non-overlapping, and within bounds.
pub open spec fn edits_wf_from(edits: Seq<EditView>, cursor: int, len: int) -> bool
    decreases edits.len(),
{
    if edits.len() == 0 {
        true
    } else {
        let e = edits[0];
        &&& cursor <= e.byte_start
        &&& e.byte_start <= e.byte_end
        &&& e.byte_end <= len
        &&& edits_wf_from(edits.drop_first(), e.byte_end as int, len)
    }
}

/// The edits are well formed against a buffer of length `len`.
pub open spec fn edits_wf(edits: Seq<EditView>, len: int) -> bool {
    edits_wf_from(edits, 0, len)
}

/// The patched buffer: the part of `orig` from `cursor` up to the first
/// edit's start, then its replacement, then the rest, edit by edit.
pub open spec fn apply_edits_from(orig: Seq<u8>, edits: Seq<EditView>, cursor: int) -> Seq<u8>
    decreases edits.len(),
{
    if edits.len() == 0 {
        orig.subrange(cursor, orig.len() as int)
    } else {
        let e = edits[0];
        orig.subrange(cursor, e.byte_start as int) + e.replacement + apply_edits_from(
            orig,
            edits.drop_first(),
            e.byte_end as int,
        )
    }
}

/// The fully patched buffer.
pub open spec fn apply_edits_spec(orig: Seq<u8>, edits: Seq<EditView>) -> Seq<u8> {
    apply_edits_from(orig, edits, 0)
}

/// Applies `edits` to `original` in one pass. Succeeds exactly when the
/// edits are ascending, non-overlapping and within bounds; a malformed list
/// leaves no partial result.
pub fn apply_edits(original: &Vec<u8>, edits: &Vec<Edit>) -> (r: Result<Vec<u8>, PatchError>)
    ensures
        match r {
            Ok(out) => edits_wf(edits.deep_view(), original@.len() as int) && out@
                == apply_edits_spec(original@, edits.deep_view()),
            Err(e) => e == PatchError::MalformedEdit && !edits_wf(
                edits.deep_view(),
                original@.len() as int,
            ),
        },
{
    let ghost evs = edits.deep_view();
    let orig_len: usize = original.len();
    let mut out: Vec<u8> = Vec::new();
    let mut cursor: usize = 0;
    let mut i: usize = 0;
    proof {
        assert(evs.skip(0) =~= evs);
        assert(out@ + apply_edits_from(original@, evs, 0) =~= apply_edits_from(original@, evs, 0));
    }
    while i < edits.len()
        invariant
            i <= edits@.len(),
            evs == edits.deep_view(),
            evs.len() == edits@.len(),
            cursor <= orig_len,
            original@.len() == orig_len,
            edits_wf(evs, orig_len as int) == edits_wf_from(
                evs.skip(i as int),
                cursor as int,
                orig_len as int,
            ),
            edits_wf(evs, orig_len as int) ==> apply_edits_spec(original@, evs) == out@
                + apply_edits_from(original@, evs.skip(i as int), cursor as int),
        decreases edits@.len() - i,
    {
        let ghost rest = evs.skip(i as int);
        proof {
            assert(rest[0] == edits@[i as int]@);
            assert(rest.drop_first() =~= evs.skip(i + 1));
        }
        let s: usize = edits[i].byte_start as usize;
        let e: usize = edits[i].byte_end as usize;
        if s < cursor || e < s || e > orig_len {
            proof {
                assert(!edits_wf_from(rest, cursor as int, orig_len as int));
            }
            return Err(PatchError::MalformedEdit);
        }
        proof {
            assert(edits_wf_from(rest, cursor as int, orig_len as int) == edits_wf_from(
                evs.skip(i + 1),
                e as int,
                orig_len as int,
            ));
        }
        let ghost pre = out@;
        push_range(&mut out, original.as_slice(), cursor, s);
        push_range(&mut out, edits[i].replacement.as_slice(), 0, edits[i].replacement.len());
        proof {
            assert(edits@[i as int].replacement@.subrange(
                0,
                edits@[i as int].replacement@.len() as int,
            ) =~= rest[0].replacement);
            assert(out@ =~= pre + (original@.subrange(cursor as int, s as int)
                + rest[0].replacement));
            if edits_wf(evs, orig_len as int) {
                assert(apply_edits_from(original@, rest, cursor as int) == original@.subrange(
                    cursor as int,
                    s as int,
                ) + rest[0].replacement + apply_edits_from(
                    original@,
                    evs.skip(i + 1),
                    e as int,
                ));
                assert(pre + (original@.subrange(cursor as int, s as int) + rest[0].replacement)
                    + apply_edits_from(original@, evs.skip(i + 1), e as int) =~= pre
                    + apply_edits_from(original@, rest, cursor as int));
            }
        }
        cursor = e;
        i = i + 1;
    }
    proof {
        assert(evs.skip(i as int) =~= Seq::<EditView>::empty());
    }
    let ghost pre = out@;
    push_range(&mut out, original.as_slice(), cursor, orig_len);
    proof {
        if edits_wf(evs, orig_len as int) {
            assert(apply_edits_from(original@, evs.skip(i as int), cursor as int)
                == original@.subrange(cursor as int, orig_len as int));
            assert(out@ =~= apply_edits_spec(original@, evs));
        }
    }
    Ok(out)
}

/// Law: applying an empty edit list returns the buffer unchanged.
pub proof fn lemma_apply_empty(orig: Seq<u8>)
    ensures
        apply_edits_spec(orig, Seq::<EditView>::empty()) == orig,
{
    assert(apply_edits_spec(orig, Seq::<EditView>::empty()) =~= orig);
}

} // verus!
