use vstd::prelude::*;

use crate::history::{
    lemma_replay_prefix, lemma_replay_push, replay, rewind, Change, ChangeType, Commit,
};
use crate::piece::{
    lemma_concat_parts, lemma_piece_split, lemma_prefix_full, lemma_prefix_mono, lemma_prefix_step,
    lemma_render_concat, lemma_render_len, lemma_render_single, lemma_render_split,
    lemma_render_three, piece_fits, piece_text, pieces_fit, prefix_len, render, sum_lengths, Piece,
};
use crate::removal::{cut_at, cut_index, cut_matches, cuts, lemma_cuts_keep, lemma_cuts_split, overlaps, Cut};

verus! {

/// Index of the piece that holds position `pos`.
pub open spec fn piece_at(ps: Seq<Piece>, pos: int) -> int {
    choose|i: int| 0 <= i < ps.len() && #[trigger] prefix_len(ps, i) <= pos < prefix_len(ps, i + 1)
}

/// The pieces after `p` is put in so that its text starts at position `pos`: at
/// the front or the back when `pos` is an end of the document, before the piece
/// that starts at `pos`, or between the two parts of the piece that holds `pos`,
/// split there.
pub open spec fn placed(ps: Seq<Piece>, pos: int, p: Piece) -> Seq<Piece> {
    if pos == 0 {
        seq![p] + ps
    } else if pos == sum_lengths(ps) {
        ps + seq![p]
    } else {
        let i = piece_at(ps, pos);
        let local = pos - prefix_len(ps, i);
        let q = ps[i];
        if local == 0 {
            ps.insert(i, p)
        } else {
            ps.subrange(0, i) + seq![
                Piece { length: local as usize, ..q },
                p,
                Piece { offset: (q.offset + local) as usize, length: (q.length - local) as usize, ..q },
            ] + ps.subrange(i + 1, ps.len() as int)
        }
    }
}

/// Only one piece holds a given position.
proof fn lemma_piece_at(ps: Seq<Piece>, pos: int, i: int)
    requires
        0 <= i < ps.len(),
        prefix_len(ps, i) <= pos < prefix_len(ps, i + 1),
    ensures
        piece_at(ps, pos) == i,
{
    let j = piece_at(ps, pos);
    if j < i {
        lemma_prefix_mono(ps, j + 1, i);
    } else if j > i {
        lemma_prefix_mono(ps, i + 1, j);
    }
}

/// Inserts `piece` at index `idx` and records the insertion.
fn record_insert(
    pieces: &mut Vec<Piece>,
    commit: &mut Commit,
    idx: usize,
    piece: Piece,
    start: Ghost<Seq<Piece>>,
)
    requires
        idx <= old(pieces)@.len(),
        replay(start@, old(commit).changes@) == Some(old(pieces)@),
    ensures
        final(pieces)@ == old(pieces)@.insert(idx as int, piece),
        replay(start@, final(commit).changes@) == Some(final(pieces)@),
{
    pieces.insert(idx, piece);
    let ghost cs = commit.changes@;
    commit.add_change(idx, piece, ChangeType::Insertion);
    proof {
        lemma_replay_push(start@, cs, Change { pos: idx, piece, typ: ChangeType::Insertion });
    }
}

/// Replaces the piece at index `idx` by `piece`, recorded as the deletion of the
/// old piece followed by the insertion of the new one.
fn record_replace(
    pieces: &mut Vec<Piece>,
    commit: &mut Commit,
    idx: usize,
    piece: Piece,
    start: Ghost<Seq<Piece>>,
)
    requires
        idx < old(pieces)@.len(),
        replay(start@, old(commit).changes@) == Some(old(pieces)@),
    ensures
        final(pieces)@ == old(pieces)@.update(idx as int, piece),
        replay(start@, final(commit).changes@) == Some(final(pieces)@),
{
    let old_piece = pieces[idx];
    pieces[idx] = piece;
    let ghost cs = commit.changes@;
    commit.add_change(idx, old_piece, ChangeType::Deletion);
    let ghost cs1 = commit.changes@;
    commit.add_change(idx, piece, ChangeType::Insertion);
    proof {
        let p0 = old(pieces)@;
        lemma_replay_push(start@, cs, Change { pos: idx, piece: old_piece, typ: ChangeType::Deletion });
        lemma_replay_push(start@, cs1, Change { pos: idx, piece, typ: ChangeType::Insertion });
        assert(p0.remove(idx as int).insert(idx as int, piece) =~= p0.update(idx as int, piece));
    }
}

/// Removes the piece at index `idx` and records the deletion.
fn record_remove(pieces: &mut Vec<Piece>, commit: &mut Commit, idx: usize, start: Ghost<Seq<Piece>>)
    requires
        idx < old(pieces)@.len(),
        replay(start@, old(commit).changes@) == Some(old(pieces)@),
    ensures
        final(pieces)@ == old(pieces)@.remove(idx as int),
        replay(start@, final(commit).changes@) == Some(final(pieces)@),
{
    let ghost cs = commit.changes@;
    let removed = pieces.remove(idx);
    commit.add_change(idx, removed, ChangeType::Deletion);
    proof {
        lemma_replay_push(start@, cs, Change { pos: idx, piece: removed, typ: ChangeType::Deletion });
    }
}

/// Sum of the lengths of the pieces.
pub(crate) fn total_of(pieces: &Vec<Piece>) -> (r: usize)
    requires
        sum_lengths(pieces@) <= usize::MAX,
    ensures
        r == sum_lengths(pieces@),
{
    let ghost ps = pieces@;
    let mut total: usize = 0;
    let mut i: usize = 0;
    proof {
        assert(ps.subrange(0, 0) =~= Seq::<Piece>::empty());
    }
    while i < pieces.len()
        invariant
            ps == pieces@,
            sum_lengths(ps) <= usize::MAX,
            i <= ps.len(),
            total == prefix_len(ps, i as int),
        decreases ps.len() - i,
    {
        proof {
            lemma_prefix_step(ps, i as int);
            lemma_prefix_mono(ps, i as int + 1, ps.len() as int);
            lemma_prefix_full(ps);
        }
        total = total + pieces[i].length;
        i = i + 1;
    }
    proof {
        lemma_prefix_full(ps);
    }
    total
}

/// Takes back the changes, last to first.
pub(crate) fn rewind_changes(pieces: &mut Vec<Piece>, changes: &Vec<Change>, target: Ghost<Seq<Piece>>)
    requires
        rewind(old(pieces)@, changes@) == Some(target@),
    ensures
        final(pieces)@ == target@,
{
    let mut k = changes.len();
    proof {
        assert(changes@.take(k as int) =~= changes@);
    }
    while k > 0
        invariant
            k <= changes@.len(),
            rewind(pieces@, changes@.take(k as int)) == Some(target@),
        decreases k,
    {
        k = k - 1;
        let change = changes[k];
        proof {
            let cs = changes@.take(k + 1);
            assert(cs.last() == change);
            assert(cs.drop_last() =~= changes@.take(k as int));
        }
        match change.typ {
            ChangeType::Deletion => {
                pieces.insert(change.pos, change.piece);
            },
            ChangeType::Insertion => {
                pieces.remove(change.pos);
            },
        }
    }
    proof {
        assert(changes@.take(0) =~= Seq::<Change>::empty());
    }
}

/// Applies the changes again, first to last.
pub(crate) fn replay_changes(pieces: &mut Vec<Piece>, changes: &Vec<Change>, target: Ghost<Seq<Piece>>)
    requires
        replay(old(pieces)@, changes@) == Some(target@),
    ensures
        final(pieces)@ == target@,
{
    let ghost start = pieces@;
    let mut k: usize = 0;
    proof {
        assert(changes@.take(0) =~= Seq::<Change>::empty());
    }
    while k < changes.len()
        invariant
            k <= changes@.len(),
            replay(start, changes@) == Some(target@),
            replay(start, changes@.take(k as int)) == Some(pieces@),
        decreases changes@.len() - k,
    {
        let change = changes[k];
        proof {
            lemma_replay_prefix(start, changes@, k as int);
        }
        match change.typ {
            ChangeType::Deletion => {
                pieces.remove(change.pos);
            },
            ChangeType::Insertion => {
                pieces.insert(change.pos, change.piece);
            },
        }
        k = k + 1;
    }
    proof {
        assert(changes@.take(k as int) =~= changes@);
    }
}

/// Applies one cut of a removal window to the piece it names, recording the changes.
fn apply_cut(
    pieces: &mut Vec<Piece>,
    commit: &mut Commit,
    cut: Cut,
    pos: usize,
    n: usize,
    start: Ghost<Seq<Piece>>,
    o: Ghost<Seq<char>>,
    a: Ghost<Seq<char>>,
)
    requires
        cut_matches(start@, cut, pos as int, pos + n),
        pieces_fit(o@, a@, start@),
        o@.len() <= usize::MAX,
        a@.len() <= usize::MAX,
        cut_index(cut) < old(pieces)@.len(),
        old(pieces)@[cut_index(cut)] == start@[cut_index(cut)],
        replay(start@, old(commit).changes@) == Some(old(pieces)@),
    ensures
        final(pieces)@ == old(pieces)@.subrange(0, cut_index(cut)) + cut_at(
            start@,
            cut_index(cut),
            pos as int,
            pos + n,
        ) + old(pieces)@.subrange(cut_index(cut) + 1, old(pieces)@.len() as int),
        replay(start@, final(commit).changes@) == Some(final(pieces)@),
{
    let ghost ps = old(pieces)@;
    let ghost i = cut_index(cut);
    let ghost end = pos + n;
    proof {
        lemma_prefix_step(start@, i);
        assert(piece_fits(o@, a@, start@[i]));
        assert(pieces@.len() == pieces.len());
    }
    match cut {
        Cut::End(idx, len) => {
            let old_piece = pieces[idx];
            let shrunk = Piece::new(old_piece.source, old_piece.offset, old_piece.length - len);
            record_replace(pieces, commit, idx, shrunk, start);
            proof {
                assert(cut_at(start@, i, pos as int, end) == seq![shrunk]);
                assert(pieces@ =~= ps.subrange(0, i) + seq![shrunk] + ps.subrange(i + 1, ps.len() as int));
            }
        },
        Cut::Full(idx) => {
            record_remove(pieces, commit, idx, start);
            proof {
                assert(cut_at(start@, i, pos as int, end) == Seq::<Piece>::empty());
                assert(pieces@ =~= ps.subrange(0, i) + Seq::<Piece>::empty() + ps.subrange(i + 1, ps.len() as int));
            }
        },
        Cut::Start(idx, len) => {
            let old_piece = pieces[idx];
            let rest_piece = Piece::new(
                old_piece.source,
                old_piece.offset + len,
                old_piece.length - len,
            );
            record_replace(pieces, commit, idx, rest_piece, start);
            proof {
                assert(cut_at(start@, i, pos as int, end) == seq![rest_piece]);
                assert(pieces@ =~= ps.subrange(0, i) + seq![rest_piece] + ps.subrange(i + 1, ps.len() as int));
            }
        },
        Cut::Slice(idx, offset) => {
            let old_piece = pieces[idx];
            let leading = Piece::new(old_piece.source, old_piece.offset, offset);
            let trailing_len = old_piece.length - offset - n;
            let trailing = Piece::new(old_piece.source, old_piece.offset + offset + n, trailing_len);
            record_replace(pieces, commit, idx, leading, start);
            record_insert(pieces, commit, idx + 1, trailing, start);
            proof {
                assert(cut_at(start@, i, pos as int, end) == seq![leading, trailing]);
                assert(pieces@ =~= ps.subrange(0, i) + seq![leading, trailing] + ps.subrange(i + 1, ps.len() as int));
            }
        },
    }
}

/// Applies the cuts of a removal to the pieces, from the last to the first so
/// that the indices of the cuts still to come stay valid, and records the changes.
pub(crate) fn apply_cuts(
    pieces: &mut Vec<Piece>,
    remove: &Vec<Cut>,
    pos: usize,
    n: usize,
    o: Ghost<Seq<char>>,
    a: Ghost<Seq<char>>,
) -> (commit: Commit)
    requires
        pieces_fit(o@, a@, old(pieces)@),
        o@.len() <= usize::MAX,
        a@.len() <= usize::MAX,
        pos + n <= sum_lengths(old(pieces)@) <= usize::MAX,
        forall|k: int|
            0 <= k < remove@.len() ==> cut_matches(old(pieces)@, #[trigger] remove@[k], pos as int, pos + n),
        forall|k: int|
            0 <= k < remove@.len() ==> cut_index(#[trigger] remove@[k]) == cut_index(remove@[0]) + k,
        forall|j: int|
            0 <= j < old(pieces)@.len() && #[trigger] overlaps(old(pieces)@, j, pos as int, pos + n)
                ==> remove@.len() > 0 && cut_index(remove@[0]) <= j < cut_index(remove@[0])
                + remove@.len(),
    ensures
        replay(old(pieces)@, commit.changes@) == Some(final(pieces)@),
        final(pieces)@ == cuts(old(pieces)@, 0, old(pieces)@.len() as int, pos as int, pos + n),
{
    let ghost ps = pieces@;
    let ghost count = ps.len() as int;
    let ghost end = pos + n;
    let ghost f = if remove@.len() > 0 { cut_index(remove@[0]) } else { count };
    let mut commit = Commit::new();
    let mut k = remove.len();
    proof {
        if remove@.len() > 0 {
            assert(cut_matches(ps, remove@[remove@.len() - 1], pos as int, end));
        }
        assert forall|j: int| f + k <= j < count implies !#[trigger] overlaps(ps, j, pos as int, end) by {
        }
        lemma_cuts_keep(ps, f + k, count, pos as int, end);
        assert(ps =~= ps.subrange(0, f + k) + ps.subrange(f + k, count));
        assert(replay(ps, Seq::<Change>::empty()) == Some(ps));
    }
    while k > 0
        invariant
            k <= remove@.len(),
            0 <= f,
            f + remove@.len() <= count,
            remove@.len() > 0 ==> f == cut_index(remove@[0]),
            count == ps.len(),
            end == pos + n,
            pieces_fit(o@, a@, ps),
            o@.len() <= usize::MAX,
            a@.len() <= usize::MAX,
            end <= sum_lengths(ps) <= usize::MAX,
            forall|q: int|
                0 <= q < remove@.len() ==> cut_matches(ps, #[trigger] remove@[q], pos as int, end),
            forall|q: int|
                0 <= q < remove@.len() ==> cut_index(#[trigger] remove@[q]) == cut_index(remove@[0]) + q,
            pieces@ == ps.subrange(0, f + k) + cuts(ps, f + k, count, pos as int, end),
            replay(ps, commit.changes@) == Some(pieces@),
        decreases k,
    {
        k = k - 1;
        let cut = remove[k];
        let ghost i = f + k;
        let ghost prev = prefix_len(ps, i) as int;
        let ghost rest = cuts(ps, i + 1, count, pos as int, end);
        proof {
            assert(cut_matches(ps, remove@[k as int], pos as int, end));
            assert(cut_index(cut) == i);
            lemma_prefix_step(ps, i);
            assert(piece_fits(o@, a@, ps[i]));
            assert(pieces@[i] == ps[i]);
        }
        let ghost before = pieces@;
        apply_cut(pieces, &mut commit, cut, pos, n, Ghost(ps), o, a);
        proof {
            assert(cuts(ps, i, count, pos as int, end) == cut_at(ps, i, pos as int, end) + rest);
            assert(before.subrange(0, i) =~= ps.subrange(0, i));
            assert(before.subrange(i + 1, before.len() as int) =~= rest);
            assert(pieces@ =~= ps.subrange(0, i) + cuts(ps, i, count, pos as int, end));
        }
    }
    proof {
        assert forall|j: int| 0 <= j < f implies !#[trigger] overlaps(ps, j, pos as int, end) by {
        }
        lemma_cuts_keep(ps, 0, f, pos as int, end);
        lemma_cuts_split(ps, 0, f, count, pos as int, end);
    }
    commit
}

/// Puts `piece` into the sequence so that its text starts at position `pos`,
/// splitting the piece that holds `pos` where `pos` falls inside one.
pub(crate) fn insert_piece(
    pieces: &mut Vec<Piece>,
    pos: usize,
    total: usize,
    piece: Piece,
    o: Ghost<Seq<char>>,
    a: Ghost<Seq<char>>,
) -> (commit: Commit)
    requires
        pieces_fit(o@, a@, old(pieces)@),
        piece_fits(o@, a@, piece),
        o@.len() <= usize::MAX,
        a@.len() <= usize::MAX,
        total == sum_lengths(old(pieces)@),
        pos <= total,
    ensures
        replay(old(pieces)@, commit.changes@) == Some(final(pieces)@),
        final(pieces)@ == placed(old(pieces)@, pos as int, piece),
        pieces_fit(o@, a@, final(pieces)@),
        render(o@, a@, final(pieces)@) == render(o@, a@, old(pieces)@).subrange(0, pos as int)
            + piece_text(o@, a@, piece) + render(o@, a@, old(pieces)@).subrange(
            pos as int,
            total as int,
        ),
{
    let ghost ps = pieces@;
    let ghost t = render(o@, a@, ps);
    let mut commit = Commit::new();
    proof {
        lemma_render_len(o@, a@, ps);
        lemma_render_single(o@, a@, piece);
        assert(t.subrange(0, t.len() as int) =~= t);
        assert(replay(ps, Seq::<Change>::empty()) == Some(ps));
    }
    if pos == 0 || pos == total {
        let idx = if pos == 0 { 0 } else { pieces.len() };
        record_insert(pieces, &mut commit, idx, piece, Ghost(ps));
        proof {
            if pos == 0 {
                assert(pieces@ =~= seq![piece] + ps);
                lemma_render_concat(o@, a@, seq![piece], ps);
                assert(t.subrange(0, 0) =~= Seq::<char>::empty());
            } else {
                assert(pieces@ =~= ps + seq![piece]);
                lemma_render_concat(o@, a@, ps, seq![piece]);
                assert(t.subrange(t.len() as int, t.len() as int) =~= Seq::<char>::empty());
            }
        }
        return commit;
    }
    insert_within(pieces, &mut commit, pos, total, piece, Ghost(ps), o, a);
    commit
}

/// Puts `piece` into the sequence at position `pos`, which lies strictly inside
/// the document.
fn insert_within(
    pieces: &mut Vec<Piece>,
    commit: &mut Commit,
    pos: usize,
    total: usize,
    piece: Piece,
    start: Ghost<Seq<Piece>>,
    o: Ghost<Seq<char>>,
    a: Ghost<Seq<char>>,
)
    requires
        old(pieces)@ == start@,
        old(commit).changes@ == Seq::<Change>::empty(),
        pieces_fit(o@, a@, start@),
        piece_fits(o@, a@, piece),
        o@.len() <= usize::MAX,
        a@.len() <= usize::MAX,
        total == sum_lengths(start@),
        0 < pos < total,
    ensures
        replay(start@, final(commit).changes@) == Some(final(pieces)@),
        final(pieces)@ == placed(start@, pos as int, piece),
        pieces_fit(o@, a@, final(pieces)@),
        render(o@, a@, final(pieces)@) == render(o@, a@, start@).subrange(0, pos as int)
            + piece_text(o@, a@, piece) + render(o@, a@, start@).subrange(pos as int, total as int),
{
    let ghost ps = start@;
    let ghost t = render(o@, a@, ps);
    proof {
        lemma_render_len(o@, a@, ps);
        assert(replay(ps, Seq::<Change>::empty()) == Some(ps));
    }
    let (idx, len) = locate(pieces, pos);
    let local = pos - len;
    proof {
        lemma_prefix_step(ps, idx as int);
        lemma_piece_at(ps, pos as int, idx as int);
    }
    if local == 0 {
        record_insert(pieces, commit, idx, piece, Ghost(ps));
        proof {
            lemma_insert_between(o@, a@, ps, idx as int, piece);
        }
    } else {
        split_insert(pieces, commit, idx, local, piece, Ghost(ps), o, a);
        proof {
            lemma_insert_inside(o@, a@, ps, idx as int, local as int, piece);
        }
    }
}

/// Putting a piece before piece `i` puts its text at the position where piece `i` starts.
proof fn lemma_insert_between(o: Seq<char>, a: Seq<char>, ps: Seq<Piece>, i: int, piece: Piece)
    requires
        pieces_fit(o, a, ps),
        0 <= i < ps.len(),
    ensures
        ({
            let t = render(o, a, ps);
            let p = prefix_len(ps, i) as int;
            render(o, a, ps.insert(i, piece)) == t.subrange(0, p) + piece_text(o, a, piece)
                + t.subrange(p, t.len() as int)
        }),
{
    let before = ps.subrange(0, i);
    let after = ps.subrange(i + 1, ps.len() as int);
    let t = render(o, a, ps);
    lemma_render_split(o, a, ps, i);
    lemma_render_len(o, a, ps);
    assert(ps.insert(i, piece) =~= before + seq![piece] + (seq![ps[i]] + after));
    lemma_render_concat(o, a, before + seq![piece], seq![ps[i]] + after);
    lemma_render_concat(o, a, before, seq![piece]);
    lemma_render_concat(o, a, seq![ps[i]], after);
    lemma_render_single(o, a, ps[i]);
    lemma_render_single(o, a, piece);
    let rb = render(o, a, before);
    let rest = piece_text(o, a, ps[i]) + render(o, a, after);
    assert(t =~= rb + rest);
    assert(t.subrange(0, rb.len() as int) =~= rb);
    assert(t.subrange(rb.len() as int, t.len() as int) =~= rest);
}

/// Splitting piece `i` after `local` characters and putting a piece between the
/// parts puts its text at that position.
proof fn lemma_insert_inside(o: Seq<char>, a: Seq<char>, ps: Seq<Piece>, i: int, local: int, piece: Piece)
    requires
        pieces_fit(o, a, ps),
        o.len() <= usize::MAX,
        a.len() <= usize::MAX,
        0 <= i < ps.len(),
        0 < local < ps[i].length,
    ensures
        ({
            let t = render(o, a, ps);
            let p = prefix_len(ps, i) + local;
            let op = ps[i];
            render(o, a, ps.subrange(0, i) + seq![
                Piece { length: local as usize, ..op },
                piece,
                Piece { offset: (op.offset + local) as usize, length: (op.length - local) as usize, ..op },
            ] + ps.subrange(i + 1, ps.len() as int)) == t.subrange(0, p) + piece_text(o, a, piece)
                + t.subrange(p, t.len() as int)
        }),
{
    let op = ps[i];
    let shrunk = Piece { length: local as usize, ..op };
    let trailing = Piece { offset: (op.offset + local) as usize, length: (op.length - local) as usize, ..op };
    let before = ps.subrange(0, i);
    let after = ps.subrange(i + 1, ps.len() as int);
    let t = render(o, a, ps);
    assert(piece_fits(o, a, op));
    lemma_render_split(o, a, ps, i);
    lemma_piece_split(o, a, op, local);
    lemma_render_concat(o, a, before + seq![shrunk, piece, trailing], after);
    lemma_render_concat(o, a, before, seq![shrunk, piece, trailing]);
    lemma_render_three(o, a, shrunk, piece, trailing);
    let rb = render(o, a, before);
    let ra = render(o, a, after);
    let x = piece_text(o, a, shrunk);
    let y = piece_text(o, a, trailing);
    let pt = piece_text(o, a, piece);
    assert(t =~= (rb + x) + (y + ra));
    lemma_concat_parts(rb + x, y + ra);
    assert(rb + (x + pt + y) + ra =~= (rb + x) + pt + (y + ra));
}

/// Splits the piece at `idx` after its first `local` characters and puts `piece`
/// between the two parts.
fn split_insert(
    pieces: &mut Vec<Piece>,
    commit: &mut Commit,
    idx: usize,
    local: usize,
    piece: Piece,
    start: Ghost<Seq<Piece>>,
    o: Ghost<Seq<char>>,
    a: Ghost<Seq<char>>,
)
    requires
        old(pieces)@ == start@,
        old(commit).changes@ == Seq::<Change>::empty(),
        pieces_fit(o@, a@, start@),
        piece_fits(o@, a@, piece),
        o@.len() <= usize::MAX,
        a@.len() <= usize::MAX,
        idx < start@.len(),
        0 < local < start@[idx as int].length,
    ensures
        ({
            let op = start@[idx as int];
            final(pieces)@ == start@.subrange(0, idx as int) + seq![
                Piece { length: local, ..op },
                piece,
                Piece { offset: (op.offset + local) as usize, length: (op.length - local) as usize, ..op },
            ] + start@.subrange(idx + 1, start@.len() as int)
        }),
        replay(start@, final(commit).changes@) == Some(final(pieces)@),
        pieces_fit(o@, a@, final(pieces)@),
{
    let old_piece = pieces[idx];
    proof {
        assert(piece_fits(o@, a@, start@[idx as int]));
        assert(pieces@.len() == pieces.len());
        assert(replay(start@, Seq::<Change>::empty()) == Some(start@));
    }
    let trailing = Piece::new(old_piece.source, old_piece.offset + local, old_piece.length - local);
    let shrunk = Piece::new(old_piece.source, old_piece.offset, local);
    record_replace(pieces, commit, idx, shrunk, start);
    record_insert(pieces, commit, idx + 1, piece, start);
    proof {
        assert(pieces@.len() == pieces.len());
    }
    record_insert(pieces, commit, idx + 2, trailing, start);
    proof {
        let ps = start@;
        assert(pieces@ =~= ps.subrange(0, idx as int) + seq![shrunk, piece, trailing] + ps.subrange(
            idx + 1,
            ps.len() as int,
        ));
        assert forall|k: int| 0 <= k < pieces@.len() implies #[trigger] piece_fits(
            o@,
            a@,
            pieces@[k],
        ) by {
            if k < idx {
                assert(pieces@[k] == ps[k]);
            } else if k > idx + 2 {
                assert(pieces@[k] == ps[k - 2]);
            }
        }
    }
}

/// The index of the piece that holds position `pos`, and the position at which
/// that piece starts.
fn locate(pieces: &Vec<Piece>, pos: usize) -> (r: (usize, usize))
    requires
        pos < sum_lengths(pieces@),
        sum_lengths(pieces@) <= usize::MAX,
    ensures
        r.0 < pieces@.len(),
        r.1 == prefix_len(pieces@, r.0 as int),
        r.1 <= pos < r.1 + pieces@[r.0 as int].length,
{
    let ghost ps = pieces@;
    let n = pieces.len();
    let mut len: usize = 0;
    let mut i: usize = 0;
    proof {
        assert(ps.subrange(0, 0) =~= Seq::<Piece>::empty());
        lemma_prefix_full(ps);
    }
    while i < n
        invariant
            n == ps.len(),
            ps == pieces@,
            pos < sum_lengths(ps) <= usize::MAX,
            i <= n,
            len == prefix_len(ps, i as int),
            len <= pos,
        decreases n - i,
    {
        let l = pieces[i].length;
        proof {
            lemma_prefix_step(ps, i as int);
            lemma_prefix_mono(ps, i as int + 1, n as int);
            lemma_prefix_full(ps);
        }
        if len + l <= pos {
            len = len + l;
            i = i + 1;
        } else {
            return (i, len);
        }
    }
    proof {
        lemma_prefix_full(ps);
    }
    (i, len)
}

} // verus!
