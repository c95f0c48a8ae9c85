use vstd::prelude::*;

verus! {

/// Which of the two text logs a piece points into.
#[derive(Clone, Copy, PartialEq, Eq, Structural, Debug)]
pub enum PieceSource {
    /// The text the table was created from; never changes.
    Original,
    /// The append-only log of all inserted text.
    Addition,
}

/// A contiguous span `offset .. offset + length` of one of the two logs.
#[derive(Clone, Copy, PartialEq, Eq, Structural, Debug)]
pub struct Piece {
    pub source: PieceSource,
    /// Offset in the log
    pub offset: usize,
    /// Number of characters the piece covers
    pub length: usize,
}

impl Piece {
    pub fn new(source: PieceSource, offset: usize, length: usize) -> (r: Piece)
        ensures
            r == (Piece { source, offset, length }),
    {
        Piece { source, offset, length }
    }
}

/// The log a piece of the given source reads from.
pub open spec fn log_of(original: Seq<char>, addition: Seq<char>, source: PieceSource) -> Seq<char> {
    match source {
        PieceSource::Original => original,
        PieceSource::Addition => addition,
    }
}

/// The piece lies inside its log and is not empty.
pub open spec fn piece_fits(original: Seq<char>, addition: Seq<char>, p: Piece) -> bool {
    &&& p.length > 0
    &&& p.offset + p.length <= log_of(original, addition, p.source).len()
}

/// Every piece of the sequence lies inside its log and is not empty.
pub open spec fn pieces_fit(original: Seq<char>, addition: Seq<char>, ps: Seq<Piece>) -> bool {
    forall|i: int| 0 <= i < ps.len() ==> #[trigger] piece_fits(original, addition, ps[i])
}

/// The characters a piece stands for.
pub open spec fn piece_text(original: Seq<char>, addition: Seq<char>, p: Piece) -> Seq<char> {
    log_of(original, addition, p.source).subrange(p.offset as int, p.offset + p.length)
}

/// The document a sequence of pieces stands for: their texts, concatenated in order.
pub open spec fn render(original: Seq<char>, addition: Seq<char>, ps: Seq<Piece>) -> Seq<char>
    decreases ps.len(),
{
    if ps.len() == 0 {
        Seq::empty()
    } else {
        render(original, addition, ps.drop_last()) + piece_text(original, addition, ps.last())
    }
}

/// Sum of the lengths of the pieces.
pub open spec fn sum_lengths(ps: Seq<Piece>) -> nat
    decreases ps.len(),
{
    if ps.len() == 0 {
        0
    } else {
        (sum_lengths(ps.drop_last()) + ps.last().length) as nat
    }
}

/// Position in the document at which piece `i` starts.
pub open spec fn prefix_len(ps: Seq<Piece>, i: int) -> nat {
    sum_lengths(ps.subrange(0, i))
}

/// `v` moved into `lo ..= hi`.
pub open spec fn clamp(v: int, lo: int, hi: int) -> int {
    if v < lo {
        lo
    } else if v > hi {
        hi
    } else {
        v
    }
}

/// The text of two sequences in a row is the text of the first followed by the second.
pub proof fn lemma_render_concat(original: Seq<char>, addition: Seq<char>, x: Seq<Piece>, y: Seq<Piece>)
    ensures
        render(original, addition, x + y) == render(original, addition, x) + render(original, addition, y),
    decreases y.len(),
{
    if y.len() == 0 {
        assert(x + y =~= x);
        assert(render(original, addition, x) + Seq::empty() =~= render(original, addition, x));
    } else {
        lemma_render_concat(original, addition, x, y.drop_last());
        assert((x + y).drop_last() =~= x + y.drop_last());
        assert((x + y).last() == y.last());
        assert(render(original, addition, x + y) =~= render(original, addition, x) + render(
            original,
            addition,
            y,
        ));
    }
}

/// The text of a single piece.
pub proof fn lemma_render_single(original: Seq<char>, addition: Seq<char>, p: Piece)
    ensures
        render(original, addition, seq![p]) == piece_text(original, addition, p),
{
    assert(seq![p].drop_last() =~= Seq::<Piece>::empty());
    assert(seq![p].last() == p);
    assert(render(original, addition, Seq::<Piece>::empty()) == Seq::<char>::empty());
    assert(Seq::<char>::empty() + piece_text(original, addition, p) =~= piece_text(
        original,
        addition,
        p,
    ));
}

/// The text of fitting pieces is as long as the sum of their lengths.
pub proof fn lemma_render_len(original: Seq<char>, addition: Seq<char>, ps: Seq<Piece>)
    requires
        pieces_fit(original, addition, ps),
    ensures
        render(original, addition, ps).len() == sum_lengths(ps),
    decreases ps.len(),
{
    if ps.len() > 0 {
        assert(piece_fits(original, addition, ps[ps.len() - 1]));
        lemma_render_len(original, addition, ps.drop_last());
    }
}

/// Appending to the logs leaves the text of fitting pieces unchanged.
pub proof fn lemma_render_grow(
    original: Seq<char>,
    addition: Seq<char>,
    addition2: Seq<char>,
    ps: Seq<Piece>,
)
    requires
        pieces_fit(original, addition, ps),
        addition.len() <= addition2.len(),
        addition2.subrange(0, addition.len() as int) == addition,
    ensures
        render(original, addition2, ps) == render(original, addition, ps),
        pieces_fit(original, addition2, ps),
    decreases ps.len(),
{
    if ps.len() > 0 {
        let p = ps.last();
        assert(piece_fits(original, addition, ps[ps.len() - 1]));
        lemma_render_grow(original, addition, addition2, ps.drop_last());
        if p.source == PieceSource::Addition {
            assert(addition2.subrange(p.offset as int, p.offset + p.length) =~= addition.subrange(
                p.offset as int,
                p.offset + p.length,
            ));
        }
        assert forall|i: int| 0 <= i < ps.len() implies #[trigger] piece_fits(
            original,
            addition2,
            ps[i],
        ) by {
            assert(piece_fits(original, addition, ps[i]));
        }
    }
}

/// The next piece starts where piece `i` ends.
pub proof fn lemma_prefix_step(ps: Seq<Piece>, i: int)
    requires
        0 <= i < ps.len(),
    ensures
        prefix_len(ps, i + 1) == prefix_len(ps, i) + ps[i].length,
{
    assert(ps.subrange(0, i + 1).drop_last() =~= ps.subrange(0, i));
}

/// Later pieces start no earlier.
pub proof fn lemma_prefix_mono(ps: Seq<Piece>, i: int, j: int)
    requires
        0 <= i <= j <= ps.len(),
    ensures
        prefix_len(ps, i) <= prefix_len(ps, j),
    decreases j - i,
{
    if i < j {
        lemma_prefix_step(ps, j - 1);
        lemma_prefix_mono(ps, i, j - 1);
    }
}

/// Past the last piece lies the end of the document.
pub proof fn lemma_prefix_full(ps: Seq<Piece>)
    ensures
        prefix_len(ps, ps.len() as int) == sum_lengths(ps),
{
    assert(ps.subrange(0, ps.len() as int) =~= ps);
}

/// The text of piece `i` is the part of the document between its start and the next piece's.
pub proof fn lemma_piece_span(original: Seq<char>, addition: Seq<char>, ps: Seq<Piece>, i: int)
    requires
        pieces_fit(original, addition, ps),
        0 <= i < ps.len(),
    ensures
        prefix_len(ps, i + 1) <= sum_lengths(ps),
        render(original, addition, ps).len() == sum_lengths(ps),
        render(original, addition, ps).subrange(prefix_len(ps, i) as int, prefix_len(ps, i + 1) as int)
            == piece_text(original, addition, ps[i]),
{
    let a = ps.subrange(0, i);
    let b = ps.subrange(i + 1, ps.len() as int);
    assert(ps =~= a + seq![ps[i]] + b);
    lemma_render_concat(original, addition, a + seq![ps[i]], b);
    lemma_render_concat(original, addition, a, seq![ps[i]]);
    lemma_render_single(original, addition, ps[i]);
    assert(pieces_fit(original, addition, a));
    lemma_render_len(original, addition, a);
    lemma_render_len(original, addition, ps);
    assert(piece_fits(original, addition, ps[i]));
    lemma_prefix_step(ps, i);
    lemma_prefix_mono(ps, i + 1, ps.len() as int);
    lemma_prefix_full(ps);
    let r = render(original, addition, ps);
    let ra = render(original, addition, a);
    let t = piece_text(original, addition, ps[i]);
    assert(r.subrange(ra.len() as int, ra.len() + t.len() as int) =~= t);
}

/// The document splits into the pieces before `i`, piece `i`, and the pieces after it.
pub proof fn lemma_render_split(original: Seq<char>, addition: Seq<char>, ps: Seq<Piece>, i: int)
    requires
        pieces_fit(original, addition, ps),
        0 <= i < ps.len(),
    ensures
        render(original, addition, ps) == render(original, addition, ps.subrange(0, i))
            + piece_text(original, addition, ps[i]) + render(
            original,
            addition,
            ps.subrange(i + 1, ps.len() as int),
        ),
        render(original, addition, ps.subrange(0, i)).len() == prefix_len(ps, i),
{
    let a = ps.subrange(0, i);
    let b = ps.subrange(i + 1, ps.len() as int);
    assert(ps =~= a + seq![ps[i]] + b);
    lemma_render_concat(original, addition, a + seq![ps[i]], b);
    lemma_render_concat(original, addition, a, seq![ps[i]]);
    lemma_render_single(original, addition, ps[i]);
    assert(pieces_fit(original, addition, a));
    lemma_render_len(original, addition, a);
}

/// The text of three pieces in a row.
pub proof fn lemma_render_three(original: Seq<char>, addition: Seq<char>, x: Piece, y: Piece, z: Piece)
    ensures
        render(original, addition, seq![x, y, z]) == piece_text(original, addition, x) + piece_text(
            original,
            addition,
            y,
        ) + piece_text(original, addition, z),
{
    assert(seq![x, y, z] =~= seq![x] + seq![y] + seq![z]);
    lemma_render_concat(original, addition, seq![x] + seq![y], seq![z]);
    lemma_render_concat(original, addition, seq![x], seq![y]);
    lemma_render_single(original, addition, x);
    lemma_render_single(original, addition, y);
    lemma_render_single(original, addition, z);
}

/// A piece split after `k` characters: the two parts' texts make up the piece's.
pub proof fn lemma_piece_split(original: Seq<char>, addition: Seq<char>, p: Piece, k: int)
    requires
        piece_fits(original, addition, p),
        0 < k < p.length,
        original.len() <= usize::MAX,
        addition.len() <= usize::MAX,
    ensures
        piece_fits(original, addition, Piece { length: k as usize, ..p }),
        piece_fits(
            original,
            addition,
            Piece { offset: (p.offset + k) as usize, length: (p.length - k) as usize, ..p },
        ),
        piece_text(original, addition, p) == piece_text(original, addition, Piece { length: k as usize, ..p })
            + piece_text(
            original,
            addition,
            Piece { offset: (p.offset + k) as usize, length: (p.length - k) as usize, ..p },
        ),
{
    let log = log_of(original, addition, p.source);
    assert(log.subrange(p.offset as int, p.offset + p.length) =~= log.subrange(
        p.offset as int,
        p.offset + k,
    ) + log.subrange(p.offset + k, p.offset + p.length));
}

/// Both parts of a concatenation are recovered by taking subranges.
pub proof fn lemma_concat_parts(u: Seq<char>, v: Seq<char>)
    ensures
        (u + v).subrange(0, u.len() as int) == u,
        (u + v).subrange(u.len() as int, (u.len() + v.len()) as int) == v,
{
    assert((u + v).subrange(0, u.len() as int) =~= u);
    assert((u + v).subrange(u.len() as int, (u.len() + v.len()) as int) =~= v);
}

/// Clamping a range to two adjacent windows and joining the parts gives the
/// range clamped to the joined window.
pub proof fn lemma_window_merge(t: Seq<char>, lo: int, hi: int, x: int, y: int, z: int)
    requires
        lo <= hi,
        0 <= x <= y <= z <= t.len(),
    ensures
        t.subrange(clamp(lo, x, y), clamp(hi, x, y)) + t.subrange(clamp(lo, y, z), clamp(hi, y, z))
            == t.subrange(clamp(lo, x, z), clamp(hi, x, z)),
{
    assert(t.subrange(clamp(lo, x, y), clamp(hi, x, y)) + t.subrange(clamp(lo, y, z), clamp(hi, y, z))
        =~= t.subrange(clamp(lo, x, z), clamp(hi, x, z)));
}

/// A sub-span of piece `j` is the same part of the document.
pub proof fn lemma_piece_sub(o: Seq<char>, a: Seq<char>, ps: Seq<Piece>, j: int, x: int, y: int)
    requires
        pieces_fit(o, a, ps),
        0 <= j < ps.len(),
        prefix_len(ps, j) <= x <= y <= prefix_len(ps, j + 1),
    ensures
        ({
            let p = ps[j];
            let prev = prefix_len(ps, j) as int;
            log_of(o, a, p.source).subrange(p.offset + x - prev, p.offset + y - prev)
                == render(o, a, ps).subrange(x, y)
        }),
{
    let p = ps[j];
    let prev = prefix_len(ps, j) as int;
    let t = render(o, a, ps);
    lemma_piece_span(o, a, ps, j);
    lemma_prefix_step(ps, j);
    assert(piece_fits(o, a, p));
    assert(t.subrange(x, y) =~= t.subrange(prev, prev + p.length).subrange(x - prev, y - prev));
    assert(log_of(o, a, p.source).subrange(p.offset + x - prev, p.offset + y - prev)
        =~= log_of(o, a, p.source).subrange(p.offset as int, p.offset + p.length).subrange(
        x - prev,
        y - prev,
    ));
}

/// The part of range `lower .. upper` that piece `j` holds, copied from its log,
/// extends the part held by the pieces before it.
pub proof fn lemma_slice_step(o: Seq<char>, a: Seq<char>, ps: Seq<Piece>, j: int, lower: int, upper: int)
    requires
        pieces_fit(o, a, ps),
        0 <= j < ps.len(),
        0 <= lower <= upper,
    ensures
        ({
            let p = ps[j];
            let t = render(o, a, ps);
            let prev = prefix_len(ps, j) as int;
            let len = prefix_len(ps, j + 1) as int;
            let lo = clamp(lower, prev, len);
            let hi = clamp(upper, prev, len);
            &&& len == prev + p.length
            &&& len <= t.len()
            &&& log_of(o, a, p.source).subrange(p.offset + lo - prev, p.offset + hi - prev)
                == t.subrange(lo, hi)
            &&& t.subrange(clamp(lower, 0, prev), clamp(upper, 0, prev)) + t.subrange(lo, hi)
                == t.subrange(clamp(lower, 0, len), clamp(upper, 0, len))
        }),
{
    let prev = prefix_len(ps, j) as int;
    let len = prefix_len(ps, j + 1) as int;
    lemma_piece_span(o, a, ps, j);
    lemma_prefix_step(ps, j);
    lemma_piece_sub(o, a, ps, j, clamp(lower, prev, len), clamp(upper, prev, len));
    lemma_window_merge(render(o, a, ps), lower, upper, 0, prev, len);
}

} // verus!
