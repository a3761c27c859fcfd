//! Sanitizing the structural-search engine's diagnostic output: keep the
//! last non-empty line, drop the decorative arrow glyph, and strip terminal
//! escape sequences.

use crate::bytes::{clone_bytes, remove_all, remove_all_spec, split_lines, split_nl};
use vstd::prelude::*;

verus! {

/// The bytes of the decorative arrow glyph some engine diagnostics end with.
pub open spec fn glyph_spec() -> Seq<u8> {
    seq![0xe2u8, 0x95u8, 0xb0u8, 0xe2u8, 0x96u8, 0xbbu8]
}

/// `s` with ANSI terminal escape sequences removed; depends on `s` alone.
pub uninterp spec fn ansi_stripped_of(s: Seq<u8>) -> Seq<u8>;

/// Relies on `strip_ansi_escapes::strip`: removes ANSI escape sequences
/// from the bytes; the result depends on the input bytes alone.
#[verifier::external_body]
fn strip_ansi(s: &Vec<u8>) -> (r: Vec<u8>)
    ensures
        r@ == ansi_stripped_of(s@),
{
    strip_ansi_escapes::strip(s.as_slice())
}

/// A line with one trailing carriage return removed, as a line ending may
/// be a carriage return followed by the newline.
pub open spec fn trim_cr(p: Seq<u8>) -> Seq<u8> {
    if p.len() > 0 && p.last() == 13 {
        p.drop_last()
    } else {
        p
    }
}

/// The last piece that is non-empty once trimmed, if any.
pub open spec fn last_nonempty(pieces: Seq<Seq<u8>>) -> Option<Seq<u8>>
    decreases pieces.len(),
{
    if pieces.len() == 0 {
        None
    } else if trim_cr(pieces.last()).len() > 0 {
        Some(trim_cr(pieces.last()))
    } else {
        last_nonempty(pieces.drop_last())
    }
}

/// The sanitized diagnostic: the last non-empty line of `stderr` (the whole
/// text when every line is empty), with the arrow glyph and ANSI escape
/// sequences removed.
pub open spec fn sanitized_diagnostic(stderr: Seq<u8>) -> Seq<u8> {
    let base = match last_nonempty(split_nl(stderr)) {
        Some(l) => l,
        None => stderr,
    };
    ansi_stripped_of(remove_all_spec(base, glyph_spec()))
}

/// Reduces an engine's diagnostic output to a single clean message line.
pub fn sanitize_diagnostic(stderr: &Vec<u8>) -> (r: Vec<u8>)
    ensures
        r@ == sanitized_diagnostic(stderr@),
{
    let pieces = split_lines(stderr.as_slice());
    let mut k: usize = pieces.len();
    let mut base: Option<Vec<u8>> = None;
    proof {
        assert(pieces.deep_view().take(k as int) =~= pieces.deep_view());
    }
    while k > 0 && base.is_none()
        invariant
            k <= pieces@.len(),
            pieces.deep_view().len() == pieces@.len(),
            pieces.deep_view() == split_nl(stderr@),
            match base {
                Some(ref b) => last_nonempty(pieces.deep_view()) == Some(b@),
                None => last_nonempty(pieces.deep_view()) == last_nonempty(
                    pieces.deep_view().take(k as int),
                ),
            },
        decreases k,
    {
        let ghost taken = pieces.deep_view().take(k as int);
        proof {
            assert(taken.drop_last() =~= pieces.deep_view().take(k - 1));
            assert(taken.last() == pieces.deep_view()[k - 1]);
            assert(pieces.deep_view()[k - 1] == pieces@[k - 1]@);
        }
        let mut cand = clone_bytes(&pieces[k - 1]);
        if cand.len() > 0 && cand[cand.len() - 1] == 13 {
            let _last = cand.pop();
            proof {
                assert(cand@ =~= trim_cr(pieces@[k - 1]@));
            }
        }
        proof {
            assert(cand@ == trim_cr(taken.last()));
        }
        if cand.len() > 0 {
            proof {
                assert(last_nonempty(taken) == Some(cand@));
            }
            base = Some(cand);
        } else {
            proof {
                assert(last_nonempty(taken) == last_nonempty(pieces.deep_view().take(k - 1)));
            }
        }
        k = k - 1;
    }
    let base_bytes: Vec<u8> = match base {
        Some(b) => b,
        None => {
            proof {
                assert(pieces.deep_view().take(0) =~= Seq::<Seq<u8>>::empty());
            }
            clone_bytes(stderr)
        },
    };
    let mut glyph: Vec<u8> = Vec::new();
    glyph.push(0xe2);
    glyph.push(0x95);
    glyph.push(0xb0);
    glyph.push(0xe2);
    glyph.push(0x96);
    glyph.push(0xbb);
    proof {
        assert(glyph@ =~= glyph_spec());
    }
    let cleaned = remove_all(base_bytes.as_slice(), glyph.as_slice());
    strip_ansi(&cleaned)
}

} // verus!
