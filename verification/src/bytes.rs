//! Byte-string utilities: copying, searching, splitting into lines,
//! first-occurrence replacement, decimal formatting and lexicographic order.

use vstd::prelude::*;

verus! {

/// Appends `src[from..to]` to `out`.
pub fn push_range(out: &mut Vec<u8>, src: &[u8], from: usize, to: usize)
    requires
        from <= to <= src@.len(),
    ensures
        final(out)@ == old(out)@ + src@.subrange(from as int, to as int),
{
    let mut j: usize = from;
    while j < to
        invariant
            from <= j <= to <= src@.len(),
            out@ == old(out)@ + src@.subrange(from as int, j as int),
        decreases to - j,
    {
        let b: u8 = src[j];
        out.push(b);
        j = j + 1;
        assert(out@ =~= old(out)@ + src@.subrange(from as int, j as int));
    }
}

/// An owned copy of a byte string.
pub fn clone_bytes(v: &Vec<u8>) -> (r: Vec<u8>)
    ensures
        r@ == v@,
{
    let mut out: Vec<u8> = Vec::new();
    push_range(&mut out, v.as_slice(), 0, v.len());
    assert(out@ =~= v@);
    out
}

/// Byte-wise equality of two byte strings.
pub fn bytes_eq(a: &Vec<u8>, b: &Vec<u8>) -> (r: bool)
    ensures
        r == (a@ == b@),
{
    if a.len() != b.len() {
        return false;
    }
    let mut i: usize = 0;
    while i < a.len()
        invariant
            i <= a@.len(),
            a@.len() == b@.len(),
            forall|j: int| 0 <= j < i ==> a@[j] == b@[j],
        decreases a@.len() - i,
    {
        if a[i] != b[i] {
            return false;
        }
        i = i + 1;
    }
    proof {
        assert(a@ =~= b@);
    }
    true
}

/// The needle `n` occurs in `h` at position `i`.
pub open spec fn match_at(h: Seq<u8>, n: Seq<u8>, i: int) -> bool {
    0 <= i && i + n.len() <= h.len() && h.subrange(i, i + n.len()) == n
}

/// Compares `h[i..i+n.len()]` with `n`.
pub fn eq_at(h: &[u8], n: &[u8], i: usize) -> (r: bool)
    requires
        i + n@.len() <= h@.len(),
    ensures
        r == match_at(h@, n@, i as int),
{
    let h_len: usize = h.len();
    let mut j: usize = 0;
    while j < n.len()
        invariant
            j <= n@.len(),
            i + n@.len() <= h@.len(),
            h@.len() == h_len,
            forall|k: int| 0 <= k < j ==> h@[i + k] == n@[k],
        decreases n@.len() - j,
    {
        if h[i + j] != n[j] {
            proof {
                assert(h@.subrange(i as int, i + n@.len())[j as int] == h@[i + j]);
            }
            return false;
        }
        j = j + 1;
    }
    proof {
        assert(h@.subrange(i as int, i + n@.len()) =~= n@);
    }
    true
}

/// Index of the first occurrence of `n` in `h` at or after `i`, if any.
pub open spec fn find_at(h: Seq<u8>, n: Seq<u8>, i: int) -> Option<int>
    decreases h.len() - i when 0 <= i <= h.len()
{
    if i + n.len() > h.len() {
        None
    } else if n.len() == 0 {
        Some(i)
    } else if h.subrange(i, i + n.len()) == n {
        Some(i)
    } else {
        find_at(h, n, i + 1)
    }
}

/// `find_at` returns the first match position, or `None` when no position
/// at or after `i` matches.
pub proof fn lemma_find_at(h: Seq<u8>, n: Seq<u8>, i: int)
    requires
        0 <= i <= h.len(),
    ensures
        match find_at(h, n, i) {
            Some(k) => i <= k && match_at(h, n, k) && forall|j: int| i <= j < k ==> !match_at(h, n, j),
            None => forall|j: int| j >= i ==> !match_at(h, n, j),
        },
    decreases h.len() - i,
{
    if i + n.len() > h.len() {
    } else if n.len() == 0 {
        assert(h.subrange(i, i) =~= n);
    } else if h.subrange(i, i + n.len()) == n {
    } else {
        lemma_find_at(h, n, i + 1);
    }
}

/// Finds the first occurrence of `n` in `h`.
pub fn find_sub(h: &[u8], n: &[u8]) -> (r: Option<usize>)
    ensures
        match r {
            Some(i) => find_at(h@, n@, 0) == Some(i as int),
            None => find_at(h@, n@, 0) == None::<int>,
        },
{
    if n.len() > h.len() {
        return None;
    }
    if n.len() == 0 {
        return Some(0);
    }
    let mut i: usize = 0;
    while i <= h.len() - n.len()
        invariant
            1 <= n@.len() <= h@.len(),
            i <= h@.len() - n@.len() + 1,
            find_at(h@, n@, 0) == find_at(h@, n@, i as int),
        decreases h@.len() - i,
    {
        if eq_at(h, n, i) {
            assert(find_at(h@, n@, i as int) == Some(i as int));
            return Some(i);
        }
        assert(find_at(h@, n@, i as int) == find_at(h@, n@, i + 1));
        i = i + 1;
    }
    assert(find_at(h@, n@, i as int) == None::<int>);
    None
}

/// `h` with its first occurrence of `n` (if any) replaced by `rep`.
pub open spec fn replace_first_spec(h: Seq<u8>, n: Seq<u8>, rep: Seq<u8>) -> Seq<u8> {
    match find_at(h, n, 0) {
        Some(i) => h.subrange(0, i) + rep + h.subrange(i + n.len(), h.len() as int),
        None => h,
    }
}

/// Replaces the first occurrence of `n` in `h` by `rep`; when `n` does not
/// occur, the result is `h` unchanged.
pub fn replace_first(h: &Vec<u8>, n: &Vec<u8>, rep: &Vec<u8>) -> (r: Vec<u8>)
    ensures
        r@ == replace_first_spec(h@, n@, rep@),
        r@.len() <= h@.len() + rep@.len(),
{
    proof {
        lemma_find_at(h@, n@, 0);
    }
    match find_sub(h.as_slice(), n.as_slice()) {
        None => clone_bytes(h),
        Some(i) => {
            let h_len: usize = h.len();
            assert(i + n@.len() <= h_len);
            let mut out: Vec<u8> = Vec::new();
            push_range(&mut out, h.as_slice(), 0, i);
            push_range(&mut out, rep.as_slice(), 0, rep.len());
            push_range(&mut out, h.as_slice(), i + n.len(), h.len());
            assert(out@ =~= replace_first_spec(h@, n@, rep@));
            out
        },
    }
}

/// Index of the first occurrence of byte `b` in `s` at or after `i`, if any.
pub open spec fn first_byte_at(s: Seq<u8>, b: u8, i: int) -> Option<int>
    decreases s.len() - i when 0 <= i <= s.len()
{
    if i >= s.len() {
        None
    } else if s[i] == b {
        Some(i)
    } else {
        first_byte_at(s, b, i + 1)
    }
}

/// `first_byte_at` returns the first position holding `b`, or `None` when
/// no position at or after `i` does.
pub proof fn lemma_first_byte(s: Seq<u8>, b: u8, i: int)
    requires
        0 <= i <= s.len(),
    ensures
        match first_byte_at(s, b, i) {
            Some(k) => i <= k < s.len() && s[k] == b && forall|j: int| i <= j < k ==> s[j] != b,
            None => forall|j: int| i <= j < s.len() ==> s[j] != b,
        },
    decreases s.len() - i,
{
    if i < s.len() && s[i] != b {
        lemma_first_byte(s, b, i + 1);
    }
}

/// Finds the first occurrence of byte `b` in `h`.
pub fn find_byte(h: &[u8], b: u8) -> (r: Option<usize>)
    ensures
        match r {
            Some(i) => first_byte_at(h@, b, 0) == Some(i as int),
            None => first_byte_at(h@, b, 0) == None::<int>,
        },
{
    let mut i: usize = 0;
    while i < h.len()
        invariant
            i <= h@.len(),
            first_byte_at(h@, b, 0) == first_byte_at(h@, b, i as int),
        decreases h@.len() - i,
    {
        if h[i] == b {
            assert(first_byte_at(h@, b, i as int) == Some(i as int));
            return Some(i);
        }
        assert(first_byte_at(h@, b, i as int) == first_byte_at(h@, b, i + 1));
        i = i + 1;
    }
    assert(first_byte_at(h@, b, i as int) == None::<int>);
    None
}

/// The pieces of `s` split on the newline byte, empty pieces kept: a string
/// with `k` newlines yields `k + 1` pieces.
pub open spec fn split_nl(s: Seq<u8>) -> Seq<Seq<u8>>
    decreases s.len() via split_nl_dec
{
    match first_byte_at(s, 10, 0) {
        Some(i) => seq![s.take(i)] + split_nl(s.skip(i + 1)),
        None => seq![s],
    }
}

#[via_fn]
proof fn split_nl_dec(s: Seq<u8>) {
    lemma_first_byte(s, 10, 0);
}

/// A split yields at most one piece per byte, plus one.
pub proof fn lemma_split_nl_count(s: Seq<u8>)
    ensures
        1 <= split_nl(s).len() <= s.len() + 1,
    decreases s.len(),
{
    lemma_first_byte(s, 10, 0);
    match first_byte_at(s, 10, 0) {
        Some(i) => {
            lemma_split_nl_count(s.skip(i + 1));
        },
        None => {},
    }
}

/// Splits `s` on the newline byte, keeping empty pieces.
pub fn split_lines(s: &[u8]) -> (r: Vec<Vec<u8>>)
    ensures
        r.deep_view() == split_nl(s@),
{
    let mut out: Vec<Vec<u8>> = Vec::new();
    let mut cursor: usize = 0;
    proof {
        assert(s@.skip(0) =~= s@);
        assert(out.deep_view() =~= Seq::<Seq<u8>>::empty());
        assert(out.deep_view() + split_nl(s@) =~= split_nl(s@));
    }
    loop
        invariant_except_break
            cursor <= s@.len(),
            split_nl(s@) == out.deep_view() + split_nl(s@.skip(cursor as int)),
        ensures
            out.deep_view() == split_nl(s@),
        decreases s@.len() - cursor,
    {
        let rest: &[u8] = vstd::slice::slice_subrange(s, cursor, s.len());
        proof {
            lemma_first_byte(rest@, 10, 0);
        }
        match find_byte(rest, 10) {
            Some(k) => {
                let mut piece: Vec<u8> = Vec::new();
                push_range(&mut piece, s, cursor, cursor + k);
                proof {
                    assert(piece@ =~= rest@.take(k as int));
                    assert(rest@.skip(k + 1) =~= s@.skip(cursor + k + 1));
                    assert(split_nl(rest@) == seq![rest@.take(k as int)] + split_nl(s@.skip(cursor + k + 1)));
                }
                let ghost prev = out.deep_view();
                proof {
                    assert(piece.deep_view() =~= piece@);
                }
                out.push(piece);
                proof {
                    assert(out.deep_view() =~= prev.push(piece@));
                    assert(out.deep_view() + split_nl(s@.skip(cursor + k + 1)) =~= prev + split_nl(rest@));
                }
                cursor = cursor + k + 1;
            },
            None => {
                let mut piece: Vec<u8> = Vec::new();
                push_range(&mut piece, s, cursor, s.len());
                proof {
                    assert(piece@ =~= rest@);
                    assert(split_nl(rest@) == seq![rest@]);
                }
                let ghost prev = out.deep_view();
                proof {
                    assert(piece.deep_view() =~= piece@);
                }
                out.push(piece);
                proof {
                    assert(out.deep_view() =~= prev.push(piece@));
                    assert(out.deep_view() =~= prev + split_nl(rest@));
                }
                break;
            },
        }
    }
    out
}

/// `s` with every newline byte removed.
pub open spec fn strip_nl(s: Seq<u8>) -> Seq<u8>
    decreases s.len(),
{
    if s.len() == 0 {
        s
    } else if s.last() == 10 {
        strip_nl(s.drop_last())
    } else {
        strip_nl(s.drop_last()).push(s.last())
    }
}

/// Removes every newline byte from `s`.
pub fn remove_newlines(s: &Vec<u8>) -> (r: Vec<u8>)
    ensures
        r@ == strip_nl(s@),
{
    let mut out: Vec<u8> = Vec::new();
    let mut i: usize = 0;
    while i < s.len()
        invariant
            i <= s@.len(),
            out@ == strip_nl(s@.take(i as int)),
        decreases s@.len() - i,
    {
        let b: u8 = s[i];
        proof {
            assert(s@.take(i + 1).drop_last() =~= s@.take(i as int));
            assert(s@.take(i + 1).last() == s@[i as int]);
        }
        if b != 10 {
            out.push(b);
        }
        i = i + 1;
    }
    proof {
        assert(s@.take(s@.len() as int) =~= s@);
    }
    out
}

/// `s` with every occurrence of `n` removed, scanning left to right.
pub open spec fn remove_all_spec(s: Seq<u8>, n: Seq<u8>) -> Seq<u8>
    decreases s.len() when n.len() > 0
{
    if s.len() == 0 {
        s
    } else if match_at(s, n, 0) {
        remove_all_spec(s.skip(n.len() as int), n)
    } else {
        seq![s[0]] + remove_all_spec(s.skip(1), n)
    }
}

/// Removes every occurrence of `n` from `s`, scanning left to right.
pub fn remove_all(s: &[u8], n: &[u8]) -> (r: Vec<u8>)
    requires
        n@.len() > 0,
    ensures
        r@ == remove_all_spec(s@, n@),
{
    let mut out: Vec<u8> = Vec::new();
    let mut i: usize = 0;
    proof {
        assert(s@.skip(0) =~= s@);
        assert(out@ + remove_all_spec(s@, n@) =~= remove_all_spec(s@, n@));
    }
    while i < s.len()
        invariant
            i <= s@.len(),
            n@.len() > 0,
            remove_all_spec(s@, n@) == out@ + remove_all_spec(s@.skip(i as int), n@),
        decreases s@.len() - i,
    {
        if n.len() <= s.len() - i && eq_at(s, n, i) {
            proof {
                assert(s@.skip(i as int).subrange(0, n@.len() as int) =~= s@.subrange(i as int, i + n@.len()));
                assert(match_at(s@.skip(i as int), n@, 0));
                assert(s@.skip(i as int).skip(n@.len() as int) =~= s@.skip(i + n@.len()));
            }
            i = i + n.len();
        } else {
            proof {
                if n@.len() <= s@.len() - i {
                    assert(s@.skip(i as int).subrange(0, n@.len() as int) =~= s@.subrange(i as int, i + n@.len()));
                }
                assert(!match_at(s@.skip(i as int), n@, 0));
                assert(s@.skip(i as int)[0] == s@[i as int]);
                assert(s@.skip(i as int).skip(1) =~= s@.skip(i + 1));
            }
            let b: u8 = s[i];
            let ghost prev = out@;
            out.push(b);
            proof {
                assert(out@ + remove_all_spec(s@.skip(i + 1), n@) =~= prev + remove_all_spec(s@.skip(i as int), n@));
            }
            i = i + 1;
        }
    }
    proof {
        assert(s@.skip(i as int) =~= Seq::<u8>::empty());
    }
    out
}

/// The decimal digits of `n`, most significant first.
pub open spec fn dec_digits(n: nat) -> Seq<u8>
    decreases n,
{
    if n < 10 {
        seq![(48 + n) as u8]
    } else {
        dec_digits(n / 10).push((48 + n % 10) as u8)
    }
}

/// Formats `n` in decimal.
pub fn u32_dec(n: u32) -> (r: Vec<u8>)
    ensures
        r@ == dec_digits(n as nat),
    decreases n,
{
    if n < 10 {
        let mut v: Vec<u8> = Vec::new();
        v.push(48 + n as u8);
        assert(v@ =~= dec_digits(n as nat));
        v
    } else {
        let mut v = u32_dec(n / 10);
        v.push(48 + (n % 10) as u8);
        assert(v@ =~= dec_digits(n as nat));
        v
    }
}

/// Strict lexicographic order on byte strings: a proper prefix comes first,
/// and otherwise the first differing byte decides.
pub open spec fn lex_lt(a: Seq<u8>, b: Seq<u8>) -> bool
    decreases a.len(),
{
    if b.len() == 0 {
        false
    } else if a.len() == 0 {
        true
    } else if a[0] < b[0] {
        true
    } else if b[0] < a[0] {
        false
    } else {
        lex_lt(a.drop_first(), b.drop_first())
    }
}

/// The order is irreflexive.
pub proof fn lemma_lex_irrefl(a: Seq<u8>)
    ensures
        !lex_lt(a, a),
    decreases a.len(),
{
    if a.len() > 0 {
        lemma_lex_irrefl(a.drop_first());
    }
}

/// The order is asymmetric.
pub proof fn lemma_lex_asym(a: Seq<u8>, b: Seq<u8>)
    requires
        lex_lt(a, b),
    ensures
        !lex_lt(b, a),
    decreases a.len(),
{
    if a.len() > 0 && b.len() > 0 && a[0] == b[0] {
        lemma_lex_asym(a.drop_first(), b.drop_first());
    }
}

/// Any two byte strings are ordered or equal.
pub proof fn lemma_lex_total(a: Seq<u8>, b: Seq<u8>)
    ensures
        lex_lt(a, b) || lex_lt(b, a) || a == b,
    decreases a.len(),
{
    if a.len() == 0 && b.len() == 0 {
        assert(a =~= b);
    } else if a.len() > 0 && b.len() > 0 && a[0] == b[0] {
        lemma_lex_total(a.drop_first(), b.drop_first());
        if a.drop_first() == b.drop_first() {
            assert(a.drop_first().len() == a.len() - 1);
            assert(b.drop_first().len() == b.len() - 1);
            assert(a.len() == b.len());
            assert forall|i: int| 0 <= i < a.len() implies a[i] == b[i] by {
                if i > 0 {
                    assert(a.drop_first()[i - 1] == a[i]);
                    assert(b.drop_first()[i - 1] == b[i]);
                    assert(a.drop_first()[i - 1] == b.drop_first()[i - 1]);
                }
            }
            assert(a =~= b);
        }
    }
}

/// Compares two byte strings in lexicographic order.
pub fn bytes_lt(a: &Vec<u8>, b: &Vec<u8>) -> (r: bool)
    ensures
        r == lex_lt(a@, b@),
{
    let mut i: usize = 0;
    proof {
        assert(a@.skip(0) =~= a@);
        assert(b@.skip(0) =~= b@);
    }
    while i < a.len() && i < b.len()
        invariant
            i <= a@.len(),
            i <= b@.len(),
            lex_lt(a@, b@) == lex_lt(a@.skip(i as int), b@.skip(i as int)),
        decreases a@.len() - i,
    {
        proof {
            assert(a@.skip(i as int)[0] == a@[i as int]);
            assert(b@.skip(i as int)[0] == b@[i as int]);
        }
        if a[i] < b[i] {
            return true;
        }
        if b[i] < a[i] {
            return false;
        }
        proof {
            assert(a@.skip(i as int).drop_first() =~= a@.skip(i + 1));
            assert(b@.skip(i as int).drop_first() =~= b@.skip(i + 1));
        }
        i = i + 1;
    }
    proof {
        if i >= a@.len() {
            assert(a@.skip(i as int) =~= Seq::<u8>::empty());
        } else {
            assert(b@.skip(i as int) =~= Seq::<u8>::empty());
        }
    }
    a.len() < b.len()
}

} // verus!
