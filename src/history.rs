use vstd::prelude::*;

use crate::piece::Piece;

verus! {

/// Whether a change put a piece into the sequence or took one out.
#[derive(Clone, Copy, PartialEq, Eq, Structural, Debug)]
pub enum ChangeType {
    Deletion,
    Insertion,
}

/// One mutation of the piece sequence.
#[derive(Clone, Copy, PartialEq, Eq, Structural, Debug)]
pub struct Change {
    /// Position of the piece in the sequence at the time of the change
    pub pos: usize,
    pub piece: Piece,
    pub typ: ChangeType,
}

impl Change {
    pub fn new(pos: usize, piece: Piece, typ: ChangeType) -> (r: Change)
        ensures
            r == (Change { pos, piece, typ }),
    {
        Change { pos, piece, typ }
    }
}

/// The changes that make up one logical edit, in the order they were applied.
///
/// Deletions that an edit depends on come before the insertions at the same
/// index, so replaying the changes forward keeps every position valid.
#[derive(Clone, PartialEq, Debug)]
pub struct Commit {
    pub changes: Vec<Change>,
}

impl Commit {
    pub fn new() -> (r: Commit)
        ensures
            r.changes@ == Seq::<Change>::empty(),
    {
        Commit { changes: Vec::new() }
    }

    pub fn add_change(&mut self, pos: usize, piece: Piece, typ: ChangeType)
        ensures
            final(self).changes@ == old(self).changes@.push(Change { pos, piece, typ }),
    {
        self.changes.push(Change::new(pos, piece, typ));
    }
}

/// A node of the history tree.
#[derive(Clone, PartialEq, Debug)]
pub struct Entry {
    /// Index of the parent entry, `None` for the root
    pub previous: Option<usize>,
    /// Indices of the child entries, oldest first
    pub next: Vec<usize>,
    /// The child that was left by the last undo from here
    pub hot_path: Option<usize>,
    /// The commit that leads from the parent to this entry
    pub commit: Commit,
}

impl Entry {
    pub fn new(commit: Commit) -> (r: Entry)
        ensures
            r.previous is None,
            r.next@ == Seq::<usize>::empty(),
            r.hot_path is None,
            r.commit == commit,
    {
        Entry { previous: None, next: Vec::new(), hot_path: None, commit }
    }
}

/// Applies one change forward; `None` where its position does not fit, or where a
/// deletion names a piece other than the one it removes.
pub open spec fn apply_change(s: Seq<Piece>, c: Change) -> Option<Seq<Piece>> {
    match c.typ {
        ChangeType::Deletion => if c.pos < s.len() && s[c.pos as int] == c.piece {
            Some(s.remove(c.pos as int))
        } else {
            None
        },
        ChangeType::Insertion => if c.pos <= s.len() {
            Some(s.insert(c.pos as int, c.piece))
        } else {
            None
        },
    }
}

/// Takes one change back: a deletion puts its piece back, an insertion removes it.
pub open spec fn revert_change(s: Seq<Piece>, c: Change) -> Option<Seq<Piece>> {
    match c.typ {
        ChangeType::Deletion => if c.pos <= s.len() {
            Some(s.insert(c.pos as int, c.piece))
        } else {
            None
        },
        ChangeType::Insertion => if c.pos < s.len() && s[c.pos as int] == c.piece {
            Some(s.remove(c.pos as int))
        } else {
            None
        },
    }
}

/// Applies the changes in order, first to last.
pub open spec fn replay(s: Seq<Piece>, cs: Seq<Change>) -> Option<Seq<Piece>>
    decreases cs.len(),
{
    if cs.len() == 0 {
        Some(s)
    } else {
        match replay(s, cs.drop_last()) {
            Some(m) => apply_change(m, cs.last()),
            None => None,
        }
    }
}

/// Takes the changes back in reverse order, last to first.
pub open spec fn rewind(s: Seq<Piece>, cs: Seq<Change>) -> Option<Seq<Piece>>
    decreases cs.len(),
{
    if cs.len() == 0 {
        Some(s)
    } else {
        match revert_change(s, cs.last()) {
            Some(m) => rewind(m, cs.drop_last()),
            None => None,
        }
    }
}

/// Replaying one more change continues from where the shorter replay ended.
pub proof fn lemma_replay_push(s: Seq<Piece>, cs: Seq<Change>, c: Change)
    ensures
        replay(s, cs.push(c)) == match replay(s, cs) {
            Some(m) => apply_change(m, c),
            None => None,
        },
{
    assert(cs.push(c).drop_last() =~= cs);
}

/// Taking back the changes of a successful replay returns to where it started.
pub proof fn lemma_rewind_replay(s: Seq<Piece>, cs: Seq<Change>)
    requires
        replay(s, cs) is Some,
    ensures
        rewind(replay(s, cs)->0, cs) == Some(s),
    decreases cs.len(),
{
    if cs.len() > 0 {
        let m = replay(s, cs.drop_last())->0;
        let c = cs.last();
        let t = replay(s, cs)->0;
        match c.typ {
            ChangeType::Deletion => {
                assert(t.insert(c.pos as int, c.piece) =~= m);
            },
            ChangeType::Insertion => {
                assert(t.remove(c.pos as int) =~= m);
            },
        }
        lemma_rewind_replay(s, cs.drop_last());
    }
}

/// Every prefix of a successful replay succeeds, one change after the other.
pub proof fn lemma_replay_prefix(s: Seq<Piece>, cs: Seq<Change>, k: int)
    requires
        replay(s, cs) is Some,
        0 <= k < cs.len(),
    ensures
        replay(s, cs.take(k)) is Some,
        replay(s, cs.take(k + 1)) == apply_change(replay(s, cs.take(k))->0, cs[k]),
        apply_change(replay(s, cs.take(k))->0, cs[k]) is Some,
    decreases cs.len(),
{
    assert(cs.take(k + 1).drop_last() =~= cs.take(k));
    if k + 1 < cs.len() {
        lemma_replay_prefix(s, cs.drop_last(), k);
        assert(cs.drop_last().take(k) =~= cs.take(k));
        assert(cs.drop_last().take(k + 1) =~= cs.take(k + 1));
    } else {
        assert(cs.take(k + 1) =~= cs);
    }
}

/// The abstract state of a history: its entries and the current one.
pub struct HistoryView {
    pub head: int,
    pub entries: Seq<Entry>,
}

impl HistoryView {
    /// The history is a tree rooted at entry 0 whose parent links point backwards
    /// and whose hot links point from a parent to one of its children.
    pub open spec fn wf(self) -> bool {
        &&& 0 < self.entries.len() <= usize::MAX
        &&& 0 <= self.head < self.entries.len()
        &&& self.entries[0].previous is None
        &&& forall|i: int|
            #![trigger self.entries[i].previous]
            0 < i < self.entries.len() ==> {
                &&& self.entries[i].previous is Some
                &&& self.entries[i].previous->0 < i
                &&& self.entries[self.entries[i].previous->0 as int].next@.contains(i as usize)
            }
        &&& forall|i: int|
            #![trigger self.entries[i].hot_path]
            0 <= i < self.entries.len() && self.entries[i].hot_path is Some ==> {
                let h = self.entries[i].hot_path->0 as int;
                &&& 0 < h < self.entries.len()
                &&& self.entries[h].previous == Some(i as usize)
                &&& self.entries[i].next@.contains(h as usize)
            }
    }

    /// The parent of entry `i`.
    pub open spec fn parent(self, i: int) -> Option<usize> {
        self.entries[i].previous
    }

    /// The hot child of entry `i`.
    pub open spec fn hot(self, i: int) -> Option<usize> {
        self.entries[i].hot_path
    }

    /// The changes of the commit that leads into entry `i`.
    pub open spec fn commit(self, i: int) -> Seq<Change> {
        self.entries[i].commit.changes@
    }
}

/// The branching edit history: an arena of entries and the index of the current one.
pub struct History {
    entries: Vec<Entry>,
    head: usize,
}

impl View for History {
    type V = HistoryView;

    closed spec fn view(&self) -> HistoryView {
        HistoryView { head: self.head as int, entries: self.entries@ }
    }
}

impl History {
    /// A history that holds only its root, which carries `commit`.
    pub fn new(commit: Commit) -> (r: History)
        ensures
            r@.wf(),
            r@.head == 0,
            r@.entries.len() == 1,
            r@.entries[0].commit == commit,
            r@.entries[0].next@ == Seq::<usize>::empty(),
            r@.entries[0].hot_path is None,
    {
        let h = History { entries: vec![Entry::new(commit)], head: 0 };
        assert(h.entries@.len() == 1);
        h
    }

    /// The entries, indexed by position.
    pub fn entries(&self) -> (r: &Vec<Entry>)
        ensures
            r@ == self@.entries,
    {
        &self.entries
    }

    /// Index of the current entry.
    pub fn head(&self) -> (r: usize)
        ensures
            r == self@.head,
    {
        self.head
    }

    /// Adds `commit` as a new child of the current entry and moves there.
    pub fn save(&mut self, commit: Commit)
        requires
            old(self)@.wf(),
        ensures
            final(self)@.wf(),
            final(self)@.head == old(self)@.entries.len(),
            final(self)@.entries.len() == old(self)@.entries.len() + 1,
            forall|i: int|
                0 <= i < old(self)@.entries.len() && i != old(self)@.head
                    ==> #[trigger] final(self)@.entries[i] == old(self)@.entries[i],
            final(self)@.entries[old(self)@.head].previous == old(self)@.entries[old(
                self,
            )@.head].previous,
            final(self)@.entries[old(self)@.head].hot_path == old(self)@.entries[old(
                self,
            )@.head].hot_path,
            final(self)@.entries[old(self)@.head].commit == old(self)@.entries[old(
                self,
            )@.head].commit,
            final(self)@.entries[old(self)@.head].next@ == old(self)@.entries[old(
                self,
            )@.head].next@.push(old(self)@.entries.len() as usize),
            final(self)@.entries.last().previous == Some(old(self)@.head as usize),
            final(self)@.entries.last().next@ == Seq::<usize>::empty(),
            final(self)@.entries.last().hot_path is None,
            final(self)@.entries.last().commit == commit,
    {
        let prev_head = self.head;
        let new_head = self.entries.len();
        self.entries[prev_head].next.push(new_head);
        let mut entry = Entry::new(commit);
        entry.previous = Some(prev_head);
        self.entries.push(entry);
        self.head = new_head;
        proof {
            assert(self.entries@.len() == self.entries.len());
            let v = self@;
            assert forall|i: int|
                #![trigger v.entries[i].previous]
                0 < i < v.entries.len() implies {
                &&& v.entries[i].previous is Some
                &&& v.entries[i].previous->0 < i
                &&& v.entries[v.entries[i].previous->0 as int].next@.contains(i as usize)
            } by {
                if i < new_head {
                    let p = old(self)@.entries[i].previous->0 as int;
                    if p == prev_head {
                        let k = choose|k: int|
                            0 <= k < old(self)@.entries[p].next@.len()
                                && old(self)@.entries[p].next@[k] == i as usize;
                        assert(v.entries[p].next@[k] == i as usize);
                    }
                } else {
                    assert(v.entries[prev_head as int].next@.last() == new_head);
                }
            }
            assert forall|i: int|
                #![trigger v.entries[i].hot_path]
                0 <= i < v.entries.len() && v.entries[i].hot_path is Some implies {
                let h = v.entries[i].hot_path->0 as int;
                &&& 0 < h < v.entries.len()
                &&& v.entries[h].previous == Some(i as usize)
                &&& v.entries[i].next@.contains(h as usize)
            } by {
                let h = v.entries[i].hot_path->0 as int;
                if i == prev_head {
                    let k = choose|k: int|
                        0 <= k < old(self)@.entries[i].next@.len()
                            && old(self)@.entries[i].next@[k] == h as usize;
                    assert(v.entries[i].next@[k] == h as usize);
                }
            }
        }
    }

    /// Moves to the parent of the current entry and marks the entry left as the
    /// parent's hot child. Returns the index of the entry left, whose commit is to
    /// be taken back; `None`, with nothing changed, at the root.
    pub fn undo(&mut self) -> (r: Option<usize>)
        requires
            old(self)@.wf(),
        ensures
            final(self)@.wf(),
            old(self)@.head == 0 ==> r is None && final(self)@ == old(self)@,
            old(self)@.head != 0 ==> {
                let h = old(self)@.head;
                let p = old(self)@.entries[h].previous->0 as int;
                &&& r == Some(h as usize)
                &&& final(self)@.head == p
                &&& final(self)@.entries == old(self)@.entries.update(
                    p,
                    Entry { hot_path: Some(h as usize), ..old(self)@.entries[p] },
                )
            },
    {
        let prev_head = self.head;
        match self.entries[prev_head].previous {
            None => None,
            Some(parent) => {
                self.head = parent;
                self.entries[parent].hot_path = Some(prev_head);
                proof {
                    let v = self@;
                    assert forall|i: int|
                        #![trigger v.entries[i].previous]
                        0 < i < v.entries.len() implies {
                        &&& v.entries[i].previous is Some
                        &&& v.entries[i].previous->0 < i
                        &&& v.entries[v.entries[i].previous->0 as int].next@.contains(i as usize)
                    } by {
                        assert(old(self)@.entries[i].previous is Some);
                    }
                    assert forall|i: int|
                        #![trigger v.entries[i].hot_path]
                        0 <= i < v.entries.len() && v.entries[i].hot_path is Some implies {
                        let h = v.entries[i].hot_path->0 as int;
                        &&& 0 < h < v.entries.len()
                        &&& v.entries[h].previous == Some(i as usize)
                        &&& v.entries[i].next@.contains(h as usize)
                    } by {
                        if i != parent {
                            assert(old(self)@.entries[i].hot_path is Some);
                        } else {
                            assert(old(self)@.entries[prev_head as int].previous is Some);
                        }
                    }
                }
                Some(prev_head)
            },
        }
    }

    /// Moves to the hot child of the current entry and returns its index, whose
    /// commit is to be applied again; `None`, with nothing changed, where there is
    /// no hot child.
    pub fn hot_redo(&mut self) -> (r: Option<usize>)
        requires
            old(self)@.wf(),
        ensures
            final(self)@.wf(),
            final(self)@.entries == old(self)@.entries,
            r == old(self)@.entries[old(self)@.head].hot_path,
            r is None ==> final(self)@.head == old(self)@.head,
            r is Some ==> final(self)@.head == r->0,
    {
        match self.entries[self.head].hot_path {
            None => None,
            Some(hot_head) => {
                self.head = hot_head;
                Some(hot_head)
            },
        }
    }
}

} // verus!
