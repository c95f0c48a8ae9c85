use vstd::prelude::*;

use crate::piece::{lemma_render_grow, lemma_render_len, sum_lengths};
use crate::piece_table::TableView;

verus! {

/// The length of a consistent table is the sum of its piece lengths and the
/// length of its text. Every operation keeps a table consistent, so this holds
/// after any sequence of them.
pub proof fn lemma_length_invariant(t: TableView)
    requires
        t.wf(),
    ensures
        t.length == sum_lengths(t.pieces),
        t.length == t.text().len(),
{
    lemma_render_len(t.original, t.addition, t.pieces);
}

/// An insertion followed by an undo gives back the pieces and the text from
/// before the insertion.
pub proof fn lemma_insert_undo(t0: TableView, t1: TableView, t2: TableView, pos: int, s: Seq<char>)
    requires
        t0.wf(),
        t1.wf(),
        t0.inserted(t1, pos, s),
        t1.undone(t2),
    ensures
        t2.pieces == t0.pieces,
        t2.text() == t0.text(),
{
    lemma_back_to_parent(t0, t1, t2);
    assert(t1.addition.subrange(0, t0.addition.len() as int) =~= t0.addition);
    lemma_render_grow(t0.original, t0.addition, t1.addition, t0.pieces);
}

/// A removal followed by an undo gives back the pieces and the text from before
/// the removal.
pub proof fn lemma_remove_undo(t0: TableView, t1: TableView, t2: TableView, pos: int, n: int)
    requires
        t0.wf(),
        t1.wf(),
        t0.removed(t1, pos, n),
        t1.undone(t2),
    ensures
        t2.pieces == t0.pieces,
        t2.text() == t0.text(),
{
    lemma_back_to_parent(t0, t1, t2);
}

/// Undoing a saved edit returns to the pieces of the entry it was saved from.
proof fn lemma_back_to_parent(t0: TableView, t1: TableView, t2: TableView)
    requires
        t0.wf(),
        t0.saved(t1),
        t1.undone(t2),
    ensures
        t2.pieces == t0.pieces,
        t2.original == t0.original,
        t2.addition == t1.addition,
{
    let n = t0.history.entries.len() as int;
    assert(t1.history.head == n);
    assert(t1.states[t0.history.head] == t0.states[t0.history.head]);
}

/// After an edit, an undo followed by a hot redo gives back the pieces and the
/// text right after the edit.
pub proof fn lemma_undo_hot_redo(t1: TableView, t2: TableView, t3: TableView)
    requires
        t1.wf(),
        t1.history.head != 0,
        t1.undone(t2),
        t2.redone(t3),
    ensures
        t3.pieces == t1.pieces,
        t3.text() == t1.text(),
{
    let h = t1.history.head;
    let p = t1.history.entries[h].previous->0 as int;
    assert(0 < h < t1.history.entries.len());
    assert(t1.history.entries[h].previous is Some);
    assert(t2.history.entries[p].hot_path == Some(h as usize));
}

} // verus!
