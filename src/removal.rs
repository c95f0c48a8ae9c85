use vstd::prelude::*;

use crate::piece::{
    clamp, lemma_piece_span, lemma_piece_sub, lemma_prefix_full, lemma_prefix_mono,
    lemma_prefix_step, lemma_render_concat, lemma_render_single, lemma_window_merge, log_of,
    piece_fits, pieces_fit, prefix_len, render, sum_lengths, Piece,
};

verus! {

/// How a removal window `pos .. end` cuts one piece.
#[derive(Clone, Copy)]
pub enum Cut {
    /// The window covers the piece's tail: drop that many characters from the end.
    End(usize, usize),
    /// The window covers the whole piece: remove it.
    Full(usize),
    /// The window covers the piece's head: drop that many characters from the front.
    Start(usize, usize),
    /// The window lies strictly inside the piece: keep that many characters in
    /// front of it and the rest after it.
    Slice(usize, usize),
}

/// Index of the piece a cut applies to.
pub open spec fn cut_index(c: Cut) -> int {
    match c {
        Cut::End(i, _) => i as int,
        Cut::Full(i) => i as int,
        Cut::Start(i, _) => i as int,
        Cut::Slice(i, _) => i as int,
    }
}

/// Piece `j` shares at least one character with the window `pos .. end`.
pub open spec fn overlaps(ps: Seq<Piece>, j: int, pos: int, end: int) -> bool {
    prefix_len(ps, j) < end && prefix_len(ps, j + 1) > pos
}

/// The pieces that remain of `p`, which starts at `prev`, once the window
/// `pos .. end` is taken out.
pub open spec fn cut_piece(p: Piece, prev: int, pos: int, end: int) -> Seq<Piece> {
    let len = prev + p.length;
    let leading = Piece { length: (pos - prev) as usize, ..p };
    let trailing = Piece { offset: (p.offset + end - prev) as usize, length: (len - end) as usize, ..p };
    if len <= pos || end <= prev {
        seq![p]
    } else if pos <= prev && len <= end {
        Seq::empty()
    } else if prev < pos && end < len {
        seq![leading, trailing]
    } else if prev < pos {
        seq![leading]
    } else {
        seq![trailing]
    }
}

/// What remains of piece `j`.
pub open spec fn cut_at(ps: Seq<Piece>, j: int, pos: int, end: int) -> Seq<Piece> {
    cut_piece(ps[j], prefix_len(ps, j) as int, pos, end)
}

/// What remains of pieces `lo .. hi`, in order.
pub open spec fn cuts(ps: Seq<Piece>, lo: int, hi: int, pos: int, end: int) -> Seq<Piece>
    decreases hi - lo,
{
    if lo >= hi {
        Seq::empty()
    } else {
        cut_at(ps, lo, pos, end) + cuts(ps, lo + 1, hi, pos, end)
    }
}

/// The cut describes exactly how the window cuts the piece it names.
pub open spec fn cut_matches(ps: Seq<Piece>, c: Cut, pos: int, end: int) -> bool {
    let j = cut_index(c);
    let prev = prefix_len(ps, j) as int;
    let len = prefix_len(ps, j + 1) as int;
    &&& 0 <= j < ps.len()
    &&& match c {
        Cut::End(_, l) => prev < pos < len <= end && l == len - pos,
        Cut::Full(_) => pos <= prev && len <= end,
        Cut::Start(_, l) => pos <= prev < end < len && l == end - prev,
        Cut::Slice(_, k) => prev < pos && end < len && k == pos - prev,
    }
}

/// The window with the part `pos .. end` taken out, both clamped to `x .. y`.
pub open spec fn outside(t: Seq<char>, x: int, y: int, pos: int, end: int) -> Seq<char> {
    t.subrange(x, clamp(pos, x, y)) + t.subrange(clamp(end, x, y), y)
}

/// The remains of a run of pieces split at any index.
pub proof fn lemma_cuts_split(ps: Seq<Piece>, lo: int, mid: int, hi: int, pos: int, end: int)
    requires
        lo <= mid <= hi,
    ensures
        cuts(ps, lo, hi, pos, end) == cuts(ps, lo, mid, pos, end) + cuts(ps, mid, hi, pos, end),
    decreases mid - lo,
{
    if lo < mid {
        lemma_cuts_split(ps, lo + 1, mid, hi, pos, end);
        assert(cuts(ps, lo, hi, pos, end) =~= cuts(ps, lo, mid, pos, end) + cuts(
            ps,
            mid,
            hi,
            pos,
            end,
        ));
    } else {
        assert(cuts(ps, lo, hi, pos, end) =~= Seq::<Piece>::empty() + cuts(ps, mid, hi, pos, end));
    }
}

/// Pieces outside the window are kept as they are.
pub proof fn lemma_cuts_keep(ps: Seq<Piece>, lo: int, hi: int, pos: int, end: int)
    requires
        0 <= lo <= hi <= ps.len(),
        forall|j: int| lo <= j < hi ==> !#[trigger] overlaps(ps, j, pos, end),
    ensures
        cuts(ps, lo, hi, pos, end) == ps.subrange(lo, hi),
    decreases hi - lo,
{
    if lo < hi {
        assert(!overlaps(ps, lo, pos, end));
        lemma_prefix_step(ps, lo);
        lemma_cuts_keep(ps, lo + 1, hi, pos, end);
        assert(ps.subrange(lo, hi) =~= seq![ps[lo]] + ps.subrange(lo + 1, hi));
    } else {
        assert(ps.subrange(lo, hi) =~= Seq::<Piece>::empty());
    }
}

/// What remains of a piece is the document between its ends, without the window.
proof fn lemma_cut_text(o: Seq<char>, a: Seq<char>, ps: Seq<Piece>, j: int, pos: int, end: int)
    requires
        pieces_fit(o, a, ps),
        0 <= j < ps.len(),
        0 <= pos <= end,
        o.len() <= usize::MAX,
        a.len() <= usize::MAX,
    ensures
        render(o, a, cut_at(ps, j, pos, end)) == outside(
            render(o, a, ps),
            prefix_len(ps, j) as int,
            prefix_len(ps, j + 1) as int,
            pos,
            end,
        ),
        pieces_fit(o, a, cut_at(ps, j, pos, end)),
{
    let p = ps[j];
    let prev = prefix_len(ps, j) as int;
    let len = prefix_len(ps, j + 1) as int;
    let t = render(o, a, ps);
    let log = log_of(o, a, p.source);
    let leading = Piece { length: (pos - prev) as usize, ..p };
    let trailing = Piece { offset: (p.offset + end - prev) as usize, length: (len - end) as usize, ..p };
    lemma_piece_span(o, a, ps, j);
    lemma_prefix_step(ps, j);
    assert(piece_fits(o, a, p));
    let w = outside(t, prev, len, pos, end);
    let c = cut_at(ps, j, pos, end);
    if len <= pos || end <= prev {
        lemma_render_single(o, a, p);
        assert(w =~= t.subrange(prev, len));
    } else if pos <= prev && len <= end {
        assert(w =~= Seq::<char>::empty());
        assert(render(o, a, c) == Seq::<char>::empty());
    } else if prev < pos && end < len {
        lemma_piece_sub(o, a, ps, j, prev, pos);
        lemma_piece_sub(o, a, ps, j, end, len);
        assert(c == seq![leading, trailing]);
        assert(seq![leading, trailing] =~= seq![leading] + seq![trailing]);
        lemma_render_concat(o, a, seq![leading], seq![trailing]);
        lemma_render_single(o, a, leading);
        lemma_render_single(o, a, trailing);
        assert(piece_fits(o, a, leading));
        assert(piece_fits(o, a, trailing));
    } else if prev < pos {
        lemma_piece_sub(o, a, ps, j, prev, pos);
        lemma_render_single(o, a, leading);
        assert(w =~= t.subrange(prev, pos));
        assert(piece_fits(o, a, leading));
    } else {
        lemma_piece_sub(o, a, ps, j, end, len);
        lemma_render_single(o, a, trailing);
        assert(w =~= t.subrange(end, len));
        assert(piece_fits(o, a, trailing));
    }
}

/// The remains of pieces `lo .. hi` spell the document between their ends,
/// without the window.
pub proof fn lemma_cuts_text(o: Seq<char>, a: Seq<char>, ps: Seq<Piece>, lo: int, hi: int, pos: int, end: int)
    requires
        pieces_fit(o, a, ps),
        0 <= lo <= hi <= ps.len(),
        0 <= pos <= end <= sum_lengths(ps),
        o.len() <= usize::MAX,
        a.len() <= usize::MAX,
    ensures
        render(o, a, cuts(ps, lo, hi, pos, end)) == outside(
            render(o, a, ps),
            prefix_len(ps, lo) as int,
            prefix_len(ps, hi) as int,
            pos,
            end,
        ),
    decreases hi - lo,
{
    let t = render(o, a, ps);
    if lo == hi {
        lemma_prefix_mono(ps, lo, ps.len() as int);
        lemma_prefix_full(ps);
        crate::piece::lemma_render_len(o, a, ps);
        assert(outside(t, prefix_len(ps, lo) as int, prefix_len(ps, hi) as int, pos, end)
            =~= Seq::<char>::empty());
    } else {
        lemma_cuts_text(o, a, ps, lo + 1, hi, pos, end);
        lemma_cut_text(o, a, ps, lo, pos, end);
        lemma_outside_merge(o, a, ps, lo, hi, pos, end);
        lemma_render_concat(o, a, cut_at(ps, lo, pos, end), cuts(ps, lo + 1, hi, pos, end));
    }
}

/// Two adjacent windows without the removed part join into one.
proof fn lemma_outside_merge(o: Seq<char>, a: Seq<char>, ps: Seq<Piece>, lo: int, hi: int, pos: int, end: int)
    requires
        pieces_fit(o, a, ps),
        0 <= lo < hi <= ps.len(),
        0 <= pos <= end <= sum_lengths(ps),
    ensures
        ({
            let t = render(o, a, ps);
            let x = prefix_len(ps, lo) as int;
            let y = prefix_len(ps, lo + 1) as int;
            let z = prefix_len(ps, hi) as int;
            outside(t, x, y, pos, end) + outside(t, y, z, pos, end) == outside(t, x, z, pos, end)
        }),
{
    let t = render(o, a, ps);
    lemma_prefix_mono(ps, lo, lo + 1);
    lemma_prefix_mono(ps, lo + 1, hi);
    lemma_prefix_mono(ps, hi, ps.len() as int);
    lemma_prefix_full(ps);
    crate::piece::lemma_render_len(o, a, ps);
    let x = prefix_len(ps, lo) as int;
    let y = prefix_len(ps, lo + 1) as int;
    let z = prefix_len(ps, hi) as int;
    lemma_window_merge(t, 0, pos, x, y, z);
    lemma_window_merge(t, end, t.len() as int, x, y, z);
    assert(outside(t, x, y, pos, end) + outside(t, y, z, pos, end) =~= outside(t, x, z, pos, end));
}

/// The remains of the pieces fit the logs.
pub proof fn lemma_cuts_fit(o: Seq<char>, a: Seq<char>, ps: Seq<Piece>, lo: int, hi: int, pos: int, end: int)
    requires
        pieces_fit(o, a, ps),
        0 <= lo <= hi <= ps.len(),
        0 <= pos <= end,
        o.len() <= usize::MAX,
        a.len() <= usize::MAX,
    ensures
        pieces_fit(o, a, cuts(ps, lo, hi, pos, end)),
    decreases hi - lo,
{
    if lo < hi {
        lemma_cuts_fit(o, a, ps, lo + 1, hi, pos, end);
        lemma_cut_text(o, a, ps, lo, pos, end);
        let c = cut_at(ps, lo, pos, end);
        let rest = cuts(ps, lo + 1, hi, pos, end);
        assert forall|k: int| 0 <= k < (c + rest).len() implies #[trigger] piece_fits(
            o,
            a,
            (c + rest)[k],
        ) by {
            if k < c.len() {
                assert(piece_fits(o, a, c[k]));
            } else {
                assert(piece_fits(o, a, rest[k - c.len()]));
            }
        }
    }
}

/// The cuts of the window `pos .. pos + n` of pieces `ps`, in increasing order of
/// index: one for each piece the window touches.
pub fn classify(pieces: &Vec<Piece>, pos: usize, n: usize) -> (r: Vec<Cut>)
    requires
        pos + n <= sum_lengths(pieces@) <= usize::MAX,
        forall|j: int| 0 <= j < pieces@.len() ==> #[trigger] pieces@[j].length > 0,
    ensures
        forall|k: int| 0 <= k < r@.len() ==> cut_matches(pieces@, #[trigger] r@[k], pos as int, pos + n),
        forall|k: int|
            0 <= k < r@.len() ==> cut_index(#[trigger] r@[k]) == cut_index(r@[0]) + k,
        forall|j: int|
            0 <= j < pieces@.len() && #[trigger] overlaps(pieces@, j, pos as int, pos + n) ==> r@.len() > 0
                && cut_index(r@[0]) <= j < cut_index(r@[0]) + r@.len(),
{
    let ghost ps = pieces@;
    let end = pos + n;
    let count = pieces.len();
    let mut remove: Vec<Cut> = Vec::new();
    let mut len: usize = 0;
    let mut i: usize = 0;
    proof {
        assert(ps.subrange(0, 0) =~= Seq::<Piece>::empty());
        lemma_prefix_full(ps);
    }
    while i < count
        invariant
            ps == pieces@,
            count == ps.len(),
            end == pos + n,
            end <= sum_lengths(ps) <= usize::MAX,
            forall|j: int| 0 <= j < ps.len() ==> #[trigger] ps[j].length > 0,
            i <= count,
            len == prefix_len(ps, i as int),
            remove@.len() <= i,
            forall|k: int| 0 <= k < remove@.len() ==> cut_matches(ps, #[trigger] remove@[k], pos as int, end as int),
            forall|k: int|
                0 <= k < remove@.len() ==> cut_index(#[trigger] remove@[k]) == i - remove@.len() + k,
            forall|j: int|
                0 <= j < i - remove@.len() ==> !#[trigger] overlaps(ps, j, pos as int, end as int),
            remove@.len() > 0 ==> prefix_len(ps, i as int) > pos,
        ensures
            forall|j: int| i <= j < count ==> !#[trigger] overlaps(ps, j, pos as int, end as int),
        decreases count - i,
    {
        if len >= end {
            proof {
                assert forall|j: int| i <= j < count implies !#[trigger] overlaps(
                    ps,
                    j,
                    pos as int,
                    end as int,
                ) by {
                    lemma_prefix_mono(ps, i as int, j);
                }
            }
            break;
        }
        proof {
            lemma_prefix_step(ps, i as int);
            lemma_prefix_mono(ps, i as int + 1, count as int);
            lemma_prefix_full(ps);
        }
        let prev_len = len;
        len = len + pieces[i].length;
        let remove_start = pos <= prev_len;
        let remove_end = end >= len && len > pos;
        let remove_slice = prev_len < pos && end < len;
        let ghost before = remove@;
        if !remove_start && remove_end {
            remove.push(Cut::End(i, len - pos));
        } else if remove_start && remove_end {
            remove.push(Cut::Full(i));
        } else if remove_start && !remove_end {
            remove.push(Cut::Start(i, end - prev_len));
        } else if remove_slice {
            remove.push(Cut::Slice(i, pos - prev_len));
        }
        proof {
            if remove@.len() > before.len() {
                assert(remove@.last() == remove@[remove@.len() - 1]);
                assert(forall|k: int| 0 <= k < before.len() ==> remove@[k] == before[k]);
                assert(cut_matches(ps, remove@.last(), pos as int, end as int));
            } else {
                assert(!overlaps(ps, i as int, pos as int, end as int));
                if before.len() > 0 {
                    assert(false);
                }
            }
        }
        i = i + 1;
    }
    proof {
        let r = remove@;
        let f = i - r.len();
        assert forall|j: int|
            0 <= j < ps.len() && #[trigger] overlaps(ps, j, pos as int, end as int) implies r.len() > 0
            && cut_index(r[0]) <= j < cut_index(r[0]) + r.len() by {
            if j < f {
            } else if j >= i {
            } else {
                assert(cut_index(r[0]) == f);
            }
        }
    }
    remove
}

} // verus!
