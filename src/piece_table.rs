use vstd::prelude::*;

use crate::history::{lemma_rewind_replay, replay, Change, Commit, Entry, History, HistoryView};
use crate::piece::{
    clamp, lemma_prefix_full, lemma_render_grow, lemma_render_len, lemma_slice_step, log_of,
    piece_fits, piece_text, pieces_fit, prefix_len, render, sum_lengths, Piece, PieceSource,
};
use crate::removal::{classify, cuts, lemma_cuts_fit, lemma_cuts_text, outside};
use crate::sequence::{apply_cuts, insert_piece, placed, replay_changes, rewind_changes, total_of};
use crate::text::{chars_of, push_all, push_span, string_of};

verus! {

/// Why an edit or a read was refused. A refused call changes nothing.
#[derive(Clone, Copy, PartialEq, Eq, Structural, Debug)]
pub enum EditError {
    /// A position or a range end lies past the end of the text.
    OutOfRange,
    /// The text to insert is empty, or the number of characters to remove is zero.
    EmptyInput,
    /// The lower bound of a range is not below its upper bound.
    InvalidRange,
}

/// A text buffer kept as a sequence of pieces over two logs, with a branching
/// undo history.
///
/// Positions and lengths count characters (Unicode scalar values), so a
/// piece never splits a character.
pub struct PieceTable {
    /// The text the table was created from
    original: Vec<char>,
    /// Every text inserted since, in order
    addition: Vec<char>,
    /// Spans of the logs whose texts, in order, make up the document
    pieces: Vec<Piece>,
    /// Length of the document
    total_length: usize,
    /// Edit history
    history: History,
    /// The piece sequence of each history entry
    states: Ghost<Seq<Seq<Piece>>>,
}

/// The abstract state of a table.
pub struct TableView {
    pub original: Seq<char>,
    pub addition: Seq<char>,
    pub pieces: Seq<Piece>,
    pub length: nat,
    pub history: HistoryView,
    /// The piece sequence that belongs to each history entry
    pub states: Seq<Seq<Piece>>,
}

impl TableView {
    /// The document.
    pub open spec fn text(self) -> Seq<char> {
        render(self.original, self.addition, self.pieces)
    }

    /// The table is consistent: the length is the sum of the piece lengths, the
    /// current pieces are those of the head entry, every entry's pieces fit the
    /// logs, and the commit of every entry leads from its parent's pieces to its own.
    pub open spec fn wf(self) -> bool {
        &&& self.history.wf()
        &&& self.states.len() == self.history.entries.len()
        &&& self.states[self.history.head] == self.pieces
        &&& self.length == sum_lengths(self.pieces)
        &&& self.original.len() <= usize::MAX
        &&& self.addition.len() <= usize::MAX
        &&& forall|i: int|
            #![trigger self.states[i]]
            0 <= i < self.states.len() ==> {
                &&& pieces_fit(self.original, self.addition, self.states[i])
                &&& sum_lengths(self.states[i]) <= usize::MAX
            }
        &&& forall|i: int|
            #![trigger self.history.entries[i].previous]
            0 < i < self.states.len() ==> replay(
                self.states[self.history.entries[i].previous->0 as int],
                self.history.entries[i].commit.changes@,
            ) == Some(self.states[i])
    }

    /// `new` is `self` after an edit whose resulting pieces were saved as a new
    /// child of the head entry; the new entry becomes the head.
    pub open spec fn saved(self, new: TableView) -> bool {
        let h = self.history.head;
        let n = self.history.entries.len() as int;
        &&& new.original == self.original
        &&& new.history.entries.len() == n + 1
        &&& new.history.head == n
        &&& new.history.entries[n].previous == Some(h as usize)
        &&& new.history.entries[n].next@ == Seq::<usize>::empty()
        &&& new.history.entries[n].hot_path is None
        &&& new.history.entries[h].next@ == self.history.entries[h].next@.push(n as usize)
        &&& new.history.entries[h].previous == self.history.entries[h].previous
        &&& new.history.entries[h].hot_path == self.history.entries[h].hot_path
        &&& new.history.entries[h].commit == self.history.entries[h].commit
        &&& forall|i: int|
            0 <= i < n && i != h ==> #[trigger] new.history.entries[i] == self.history.entries[i]
        &&& new.states == self.states.push(new.pieces)
    }

    /// `new` is `self` after `s` was inserted at `pos`.
    pub open spec fn inserted(self, new: TableView, pos: int, s: Seq<char>) -> bool {
        &&& self.saved(new)
        &&& new.addition == self.addition + s
        &&& new.pieces == placed(
            self.pieces,
            pos,
            Piece {
                source: PieceSource::Addition,
                offset: self.addition.len() as usize,
                length: s.len() as usize,
            },
        )
        &&& new.length == self.length + s.len()
        &&& new.text() == self.text().subrange(0, pos) + s + self.text().subrange(
            pos,
            self.length as int,
        )
    }

    /// `new` is `self` after the `n` characters from `pos` on were removed.
    pub open spec fn removed(self, new: TableView, pos: int, n: int) -> bool {
        &&& self.saved(new)
        &&& new.addition == self.addition
        &&& new.pieces == cuts(self.pieces, 0, self.pieces.len() as int, pos, pos + n)
        &&& new.length == self.length - n
        &&& new.text() == self.text().subrange(0, pos) + self.text().subrange(
            pos + n,
            self.length as int,
        )
    }

    /// `new` is `self` after an undo: at the root nothing changes; elsewhere the
    /// head moves to its parent, whose pieces come back and whose hot child
    /// becomes the entry just left.
    pub open spec fn undone(self, new: TableView) -> bool {
        let h = self.history.head;
        let p = self.history.entries[h].previous->0 as int;
        if h == 0 {
            new == self
        } else {
            &&& new.original == self.original
            &&& new.addition == self.addition
            &&& new.states == self.states
            &&& new.pieces == self.states[p]
            &&& new.length == sum_lengths(new.pieces)
            &&& new.history.head == p
            &&& new.history.entries == self.history.entries.update(
                p,
                Entry { hot_path: Some(h as usize), ..self.history.entries[p] },
            )
        }
    }

    /// `new` is `self` after a hot redo: without a hot child nothing changes;
    /// otherwise the head moves to the hot child, whose pieces come back.
    pub open spec fn redone(self, new: TableView) -> bool {
        match self.history.entries[self.history.head].hot_path {
            None => new == self,
            Some(h) => {
                &&& new.original == self.original
                &&& new.addition == self.addition
                &&& new.states == self.states
                &&& new.pieces == self.states[h as int]
                &&& new.length == sum_lengths(new.pieces)
                &&& new.history.head == h
                &&& new.history.entries == self.history.entries
            },
        }
    }
}

/// Saving an edit whose commit leads from the old pieces to the new ones keeps the
/// table consistent.
proof fn lemma_save_wf(old: TableView, new: TableView)
    requires
        old.wf(),
        old.saved(new),
        new.history.wf(),
        replay(old.pieces, new.history.entries[new.history.head].commit.changes@) == Some(
            new.pieces,
        ),
        old.addition.len() <= new.addition.len(),
        new.addition.subrange(0, old.addition.len() as int) == old.addition,
        pieces_fit(new.original, new.addition, new.pieces),
        new.length == sum_lengths(new.pieces),
        new.length <= usize::MAX,
        new.addition.len() <= usize::MAX,
    ensures
        new.wf(),
{
    let n = old.history.entries.len() as int;
    let h = old.history.head;
    assert forall|i: int|
        #![trigger new.states[i]]
        0 <= i < new.states.len() implies {
        &&& pieces_fit(new.original, new.addition, new.states[i])
        &&& sum_lengths(new.states[i]) <= usize::MAX
    } by {
        if i < n {
            assert(new.states[i] == old.states[i]);
            lemma_render_grow(old.original, old.addition, new.addition, old.states[i]);
        }
    }
    assert forall|i: int|
        #![trigger new.history.entries[i].previous]
        0 < i < new.states.len() implies replay(
        new.states[new.history.entries[i].previous->0 as int],
        new.history.entries[i].commit.changes@,
    ) == Some(new.states[i]) by {
        if i < n {
            if i != h {
                assert(new.history.entries[i] == old.history.entries[i]);
            }
            assert(old.history.entries[i].previous is Some);
            let p = old.history.entries[i].previous->0 as int;
            assert(new.states[p] == old.states[p]);
            assert(new.states[i] == old.states[i]);
        } else {
            assert(new.states[h] == old.states[h]);
        }
    }
}

impl View for PieceTable {
    type V = TableView;

    closed spec fn view(&self) -> TableView {
        TableView {
            original: self.original@,
            addition: self.addition@,
            pieces: self.pieces@,
            length: self.total_length as nat,
            history: self.history@,
            states: self.states@,
        }
    }
}

impl PieceTable {
    /// The table is consistent (see `TableView::wf`).
    pub open spec fn wf(&self) -> bool {
        self@.wf()
    }

    /// The document.
    pub open spec fn text(&self) -> Seq<char> {
        self@.text()
    }

    /// Creates a table over `string`, with a history that holds only its root.
    pub fn from(string: &str) -> (r: PieceTable)
        ensures
            r.wf(),
            r@.original == string@,
            r@.addition == Seq::<char>::empty(),
            string@.len() == 0 ==> r@.pieces == Seq::<Piece>::empty(),
            string@.len() > 0 ==> r@.pieces == seq![
                Piece { source: PieceSource::Original, offset: 0, length: string@.len() as usize },
            ],
            r@.length == string@.len(),
            r.text() == string@,
            r@.history.head == 0,
            r@.history.entries.len() == 1,
            r@.history.entries[0].commit.changes@ == Seq::<Change>::empty(),
            r@.history.entries[0].next@ == Seq::<usize>::empty(),
            r@.history.entries[0].hot_path is None,
    {
        let original = chars_of(string);
        let string_len = original.len();
        let mut pieces: Vec<Piece> = Vec::new();
        if string_len > 0 {
            pieces.push(Piece::new(PieceSource::Original, 0, string_len));
        }
        let ghost ps = pieces@;
        let states: Ghost<Seq<Seq<Piece>>> = Ghost(Seq::empty().push(ps));
        let table = PieceTable {
            original,
            addition: Vec::new(),
            pieces,
            total_length: string_len,
            history: History::new(Commit::new()),
            states,
        };
        proof {
            let v = table@;
            assert(v.original.len() == table.original.len());
            assert(v.addition.len() == 0);
            if string_len > 0 {
                assert(ps.drop_last() =~= Seq::<Piece>::empty());
                assert(sum_lengths(Seq::<Piece>::empty()) == 0);
                assert(ps.last() == ps[0]);
                assert(piece_fits(v.original, v.addition, ps[0]));
                assert(v.original.subrange(0, string_len as int) =~= v.original);
                assert(render(v.original, v.addition, Seq::<Piece>::empty()) + v.original
                    =~= v.original);
            } else {
                assert(v.original =~= Seq::<char>::empty());
            }
            assert(v.states[0] == ps);
            assert(pieces_fit(v.original, v.addition, ps));
            assert(sum_lengths(ps) == string_len);
            assert(v.states.len() == 1);
            assert(v.history.entries.len() == 1);
            assert(v.history.head == 0);
        }
        table
    }

    /// Length of the document.
    pub fn len(&self) -> (r: usize)
        requires
            self.wf(),
        ensures
            r == self@.length,
            r == sum_lengths(self@.pieces),
            r == self.text().len(),
    {
        proof {
            assert(self@.states[self@.history.head] == self@.pieces);
            lemma_render_len(self@.original, self@.addition, self@.pieces);
        }
        self.total_length
    }

    /// The text the table was created from.
    pub fn original(&self) -> (r: String)
        ensures
            r@ == self@.original,
    {
        string_of(self.original.as_slice())
    }

    /// Every text inserted so far, in order of insertion.
    pub fn addition(&self) -> (r: String)
        ensures
            r@ == self@.addition,
    {
        string_of(self.addition.as_slice())
    }

    /// The piece sequence, in document order.
    pub fn pieces(&self) -> (r: &Vec<Piece>)
        ensures
            r@ == self@.pieces,
    {
        &self.pieces
    }

    /// The edit history.
    pub fn history(&self) -> (r: &History)
        ensures
            r@ == self@.history,
    {
        &self.history
    }

    /// Inserts `string` at character position `pos`.
    ///
    /// Fails with `OutOfRange` if `pos` lies past the end of the document, then
    /// with `EmptyInput` if `string` is empty. The text goes to the end of the
    /// addition log, a piece over it into the sequence, and the commit of the
    /// edit into a new history entry.
    pub fn insert(&mut self, pos: usize, string: &str) -> (r: Result<(), EditError>)
        requires
            old(self).wf(),
            old(self)@.length + string@.len() <= usize::MAX,
        ensures
            final(self).wf(),
            pos > old(self)@.length ==> r == Err::<(), EditError>(EditError::OutOfRange),
            pos <= old(self)@.length && string@.len() == 0 ==> r == Err::<(), EditError>(
                EditError::EmptyInput,
            ),
            r is Err ==> final(self)@ == old(self)@,
            pos <= old(self)@.length && string@.len() > 0 ==> r is Ok && old(self)@.inserted(
                final(self)@,
                pos as int,
                string@,
            ),
    {
        if pos > self.total_length {
            return Err(EditError::OutOfRange);
        }
        let chars = chars_of(string);
        if chars.len() == 0 {
            return Err(EditError::EmptyInput);
        }
        let ghost old_view = self@;
        let ghost o = self.original@;
        let ghost a = self.addition@;
        let ghost ps = self.pieces@;
        proof {
            assert(self@.states[self@.history.head] == ps);
            lemma_render_len(o, a, ps);
        }
        let old_length = self.total_length;
        let piece = Piece::new(PieceSource::Addition, self.addition.len(), chars.len());
        self.total_length = self.total_length + chars.len();
        push_all(&mut self.addition, &chars);
        let ghost a2 = self.addition@;
        proof {
            assert(a2.len() == self.addition.len());
            assert(a2.subrange(0, a.len() as int) =~= a);
            lemma_render_grow(o, a, a2, ps);
            assert(piece_text(o, a2, piece) =~= chars@);
        }
        let commit = insert_piece(&mut self.pieces, pos, old_length, piece, Ghost(o), Ghost(a2));
        self.history.save(commit);
        self.states = Ghost(self.states@.push(self.pieces@));
        proof {
            let v = self@;
            lemma_render_len(o, a2, v.pieces);
            lemma_save_wf(old_view, v);
        }
        Ok(())
    }

    /// Appends `string` at the end of the document; fails with `EmptyInput` if it
    /// is empty.
    pub fn append(&mut self, string: &str) -> (r: Result<(), EditError>)
        requires
            old(self).wf(),
            old(self)@.length + string@.len() <= usize::MAX,
        ensures
            final(self).wf(),
            string@.len() == 0 ==> r == Err::<(), EditError>(EditError::EmptyInput)
                && final(self)@ == old(self)@,
            string@.len() > 0 ==> r is Ok && old(self)@.inserted(
                final(self)@,
                old(self)@.length as int,
                string@,
            ),
    {
        let length = self.total_length;
        self.insert(length, string)
    }

    /// Removes the `n` characters from position `pos` on.
    ///
    /// Fails with `EmptyInput` if `n` is zero, then with `OutOfRange` if the range
    /// reaches past the end of the document. Each piece the range touches loses
    /// its tail, its head, its middle or all of it; the commit of the edit is
    /// saved as a new history entry.
    pub fn remove(&mut self, pos: usize, n: usize) -> (r: Result<(), EditError>)
        requires
            old(self).wf(),
        ensures
            final(self).wf(),
            n == 0 ==> r == Err::<(), EditError>(EditError::EmptyInput),
            n > 0 && pos + n > old(self)@.length ==> r == Err::<(), EditError>(
                EditError::OutOfRange,
            ),
            r is Err ==> final(self)@ == old(self)@,
            n > 0 && pos + n <= old(self)@.length ==> r is Ok && old(self)@.removed(
                final(self)@,
                pos as int,
                n as int,
            ),
    {
        if n == 0 {
            return Err(EditError::EmptyInput);
        }
        if pos > self.total_length || n > self.total_length - pos {
            return Err(EditError::OutOfRange);
        }
        let ghost old_view = self@;
        let ghost o = self.original@;
        let ghost a = self.addition@;
        let ghost ps = self.pieces@;
        proof {
            assert(self@.states[self@.history.head] == ps);
            lemma_render_len(o, a, ps);
            assert forall|j: int| 0 <= j < ps.len() implies #[trigger] ps[j].length > 0 by {
                assert(piece_fits(o, a, ps[j]));
            }
        }
        let remove = classify(&self.pieces, pos, n);
        self.total_length = self.total_length - n;
        let commit = apply_cuts(&mut self.pieces, &remove, pos, n, Ghost(o), Ghost(a));
        self.history.save(commit);
        self.states = Ghost(self.states@.push(self.pieces@));
        proof {
            let v = self@;
            let count = ps.len() as int;
            let t = render(o, a, ps);
            lemma_cuts_text(o, a, ps, 0, count, pos as int, pos + n);
            lemma_cuts_fit(o, a, ps, 0, count, pos as int, pos + n);
            assert(ps.subrange(0, 0) =~= Seq::<Piece>::empty());
            lemma_prefix_full(ps);
            assert(outside(t, 0, t.len() as int, pos as int, pos + n) == t.subrange(0, pos as int)
                + t.subrange(pos + n, t.len() as int));
            lemma_render_len(o, a, v.pieces);
            assert(v.addition.subrange(0, a.len() as int) =~= a);
            lemma_save_wf(old_view, v);
        }
        Ok(())
    }

    /// Reverts the table to the state before the edit that led to the current
    /// history entry; does nothing at the root.
    pub fn undo(&mut self)
        requires
            old(self).wf(),
        ensures
            final(self).wf(),
            old(self)@.undone(final(self)@),
    {
        let ghost old_view = self@;
        match self.history.undo() {
            None => {},
            Some(left) => {
                let ghost p = old_view.history.entries[left as int].previous->0 as int;
                let changes = &self.history.entries()[left].commit.changes;
                proof {
                    assert(old_view.history.entries[left as int].previous is Some);
                    assert(replay(old_view.states[p], changes@) == Some(old_view.states[left as int]));
                    lemma_rewind_replay(old_view.states[p], changes@);
                }
                rewind_changes(&mut self.pieces, changes, Ghost(old_view.states[p]));
                proof {
                    assert(old_view.states[p] == self.states@[p]);
                }
                self.total_length = total_of(&self.pieces);
                proof {
                    let v = self@;
                    assert forall|i: int|
                        #![trigger v.history.entries[i].previous]
                        0 < i < v.states.len() implies replay(
                        v.states[v.history.entries[i].previous->0 as int],
                        v.history.entries[i].commit.changes@,
                    ) == Some(v.states[i]) by {
                        assert(old_view.history.entries[i].previous is Some);
                    }
                }
            },
        }
    }

    /// Moves the table forward along the hot path: applies again the edit that
    /// the last undo from the current entry took back; does nothing where no
    /// undo left this entry.
    pub fn hot_redo(&mut self)
        requires
            old(self).wf(),
        ensures
            final(self).wf(),
            old(self)@.redone(final(self)@),
    {
        let ghost old_view = self@;
        match self.history.hot_redo() {
            None => {},
            Some(hot) => {
                let changes = &self.history.entries()[hot].commit.changes;
                proof {
                    let h = old_view.history.head;
                    assert(old_view.history.entries[h].hot_path is Some);
                    assert(old_view.history.entries[hot as int].previous is Some);
                }
                replay_changes(&mut self.pieces, changes, Ghost(old_view.states[hot as int]));
                self.total_length = total_of(&self.pieces);
            },
        }
    }

    /// `r` is what reading the range `lower .. upper` gives: `InvalidRange` unless
    /// `lower < upper`, then `OutOfRange` if `upper` lies past the end, and the
    /// characters of the range otherwise.
    pub open spec fn sliced(&self, lower: int, upper: int, r: Result<String, EditError>) -> bool {
        if lower >= upper {
            r == Err::<String, EditError>(EditError::InvalidRange)
        } else if upper > self@.length {
            r == Err::<String, EditError>(EditError::OutOfRange)
        } else {
            r is Ok && r->Ok_0@ == self.text().subrange(lower, upper)
        }
    }

    /// The characters from `lower` up to, not including, `upper`.
    ///
    /// Fails with `InvalidRange` unless `lower < upper`, then with `OutOfRange`
    /// if `upper` lies past the end of the document.
    pub fn slice_between(&self, lower: usize, upper: usize) -> (r: Result<String, EditError>)
        requires
            self.wf(),
        ensures
            self.sliced(lower as int, upper as int, r),
    {
        if lower >= upper {
            return Err(EditError::InvalidRange);
        }
        if upper > self.total_length {
            return Err(EditError::OutOfRange);
        }
        let ghost o = self.original@;
        let ghost a = self.addition@;
        let ghost ps = self.pieces@;
        let ghost t = self.text();
        proof {
            assert(self@.states[self@.history.head] == ps);
            lemma_render_len(o, a, ps);
            lemma_prefix_full(ps);
            assert(ps.subrange(0, 0) =~= Seq::<Piece>::empty());
        }
        let mut out: Vec<char> = Vec::new();
        let mut len: usize = 0;
        let mut i: usize = 0;
        let n = self.pieces.len();
        while i < n
            invariant
                self.wf(),
                o == self.original@,
                a == self.addition@,
                ps == self.pieces@,
                t == render(o, a, ps),
                pieces_fit(o, a, ps),
                t.len() == sum_lengths(ps),
                n == ps.len(),
                lower < upper <= t.len(),
                0 <= i <= n,
                len == prefix_len(ps, i as int),
                len <= t.len(),
                out@ == t.subrange(clamp(lower as int, 0, len as int), clamp(upper as int, 0, len as int)),
            ensures
                i == n || len >= upper,
            decreases n - i,
        {
            if len >= upper {
                break;
            }
            let piece = self.pieces[i];
            let prev_len = len;
            proof {
                lemma_slice_step(o, a, ps, i as int, lower as int, upper as int);
                lemma_prefix_full(ps);
            }
            len = len + piece.length;
            let source = match piece.source {
                PieceSource::Original => &self.original,
                PieceSource::Addition => &self.addition,
            };
            proof {
                assert(source@ == log_of(o, a, piece.source));
                assert(piece_fits(o, a, ps[i as int]));
                assert(source@.len() == source.len());
            }
            let capture_start = lower <= prev_len;
            let capture_end = upper >= len && len > lower;
            let capture_slice = prev_len < lower && upper < len;
            if !capture_start && capture_end {
                push_span(&mut out, source, piece.offset + (lower - prev_len), piece.offset + piece.length);
            } else if capture_start && capture_end {
                push_span(&mut out, source, piece.offset, piece.offset + piece.length);
            } else if capture_start && !capture_end {
                push_span(&mut out, source, piece.offset, piece.offset + (upper - prev_len));
            } else if capture_slice {
                push_span(&mut out, source, piece.offset + (lower - prev_len), piece.offset + (upper - prev_len));
            }
            i = i + 1;
        }
        proof {
            if i == n {
                lemma_prefix_full(ps);
            }
            assert(len >= upper);
            assert(out@ == t.subrange(lower as int, upper as int));
        }
        Ok(string_of(out.as_slice()))
    }

    /// The whole document.
    pub fn to_string(&self) -> (r: String)
        requires
            self.wf(),
        ensures
            r@ == self.text(),
    {
        proof {
            assert(self@.states[self@.history.head] == self@.pieces);
            lemma_render_len(self@.original, self@.addition, self@.pieces);
        }
        if self.total_length == 0 {
            return String::new();
        }
        match self.slice_between(0, self.total_length) {
            Ok(s) => {
                assert(self.text().subrange(0, self@.length as int) =~= self.text());
                s
            },
            Err(_) => String::new(),
        }
    }
}

} // verus!
