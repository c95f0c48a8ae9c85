use piece_table::{EditError, Piece, PieceSource, PieceTable, PieceTableSlice};

fn piece_sum(table: &PieceTable) -> usize {
    table.pieces().iter().map(|p| p.length).sum()
}

fn check_lengths(table: &PieceTable) {
    assert_eq!(table.len(), piece_sum(table));
    assert_eq!(table.len(), table.to_string().chars().count());
}

#[test]
fn length_invariant_through_edits() {
    let mut table = PieceTable::from("Hello");
    check_lengths(&table);
    table.append(", World").unwrap();
    check_lengths(&table);
    table.insert(2, "XYZ").unwrap();
    check_lengths(&table);
    table.remove(1, 6).unwrap();
    check_lengths(&table);
    table.undo();
    check_lengths(&table);
    table.hot_redo();
    check_lengths(&table);
    table.undo();
    table.undo();
    check_lengths(&table);
    assert_eq!(table.to_string(), "Hello, World");
}

#[test]
fn insert_then_undo_restores() {
    let mut table = PieceTable::from("Held!");
    table.insert(2, "llor").unwrap();
    let pieces = table.pieces().clone();
    let text = table.to_string();
    table.insert(4, "o, W").unwrap();
    assert_eq!(table.to_string(), "Hello, World!");
    table.undo();
    assert_eq!(*table.pieces(), pieces);
    assert_eq!(table.to_string(), text);
}

#[test]
fn remove_then_undo_restores() {
    let mut table = PieceTable::from("Held!");
    table.insert(2, "llor").unwrap();
    table.insert(4, "o, W").unwrap();
    let pieces = table.pieces().clone();
    table.remove(3, 6).unwrap();
    assert_eq!(table.to_string(), "Helrld!");
    table.undo();
    assert_eq!(*table.pieces(), pieces);
    assert_eq!(table.to_string(), "Hello, World!");
}

#[test]
fn undo_then_hot_redo_reproduces_edit() {
    let mut table = PieceTable::from("Hello, World!");
    table.remove(2, 7).unwrap();
    let pieces = table.pieces().clone();
    assert_eq!(table.to_string(), "Herld!");
    table.undo();
    assert_eq!(table.to_string(), "Hello, World!");
    table.hot_redo();
    assert_eq!(*table.pieces(), pieces);
    assert_eq!(table.to_string(), "Herld!");
}

#[test]
fn slice_matches_rendered_text() {
    let mut table = PieceTable::from("Held!");
    table.insert(2, "llor").unwrap();
    table.insert(4, "o, W").unwrap();
    table.remove(0, 1).unwrap();
    table.append("?").unwrap();
    let text: Vec<char> = table.to_string().chars().collect();
    for i in 0..text.len() {
        for j in (i + 1)..=text.len() {
            let expected: String = text[i..j].iter().collect();
            assert_eq!(table.slice_between(i, j).unwrap(), expected);
        }
    }
}

#[test]
fn scenario_insert_in_middle() {
    let mut table = PieceTable::from("HelloWorld!");
    table.insert(5, ", ").unwrap();
    assert_eq!(table.to_string(), "Hello, World!");
    assert_eq!(
        *table.pieces(),
        vec![
            Piece::new(PieceSource::Original, 0, 5),
            Piece::new(PieceSource::Addition, 0, 2),
            Piece::new(PieceSource::Original, 5, 6),
        ]
    );
}

#[test]
fn scenario_append_to_empty() {
    let mut table = PieceTable::from("");
    table.append("Hello, World!").unwrap();
    assert_eq!(table.to_string(), "Hello, World!");
    let entries = table.history().entries();
    assert_eq!(entries.len(), 2);
    assert_eq!(entries[0].next, vec![1]);
    assert_eq!(entries[1].commit.changes.len(), 1);
}

#[test]
fn scenario_remove_tail() {
    let mut table = PieceTable::from("Hello, World!");
    table.remove(5, 8).unwrap();
    assert_eq!(table.to_string(), "Hello");
}

#[test]
fn scenario_undo_redo_twice() {
    let mut table = PieceTable::from("Held!");
    table.insert(2, "llor").unwrap();
    table.insert(4, "o, W").unwrap();
    assert_eq!(table.to_string(), "Hello, World!");
    table.undo();
    table.undo();
    assert_eq!(table.to_string(), "Held!");
    table.hot_redo();
    table.hot_redo();
    assert_eq!(table.to_string(), "Hello, World!");
}

#[test]
fn scenario_hot_redo_follows_last_branch() {
    let mut table = PieceTable::from("Hello");
    table.append("World!").unwrap();
    table.insert(5, ", ").unwrap();
    table.undo();
    assert_eq!(table.to_string(), "HelloWorld!");
    // A different edit from the same entry forks the history.
    table.insert(5, " ").unwrap();
    assert_eq!(table.to_string(), "Hello World!");
    assert_eq!(table.history().entries()[1].next, vec![2, 3]);
    table.undo();
    table.hot_redo();
    assert_eq!(table.to_string(), "Hello World!");
    table.undo();
    assert_eq!(table.history().entries()[1].hot_path, Some(3));
}

#[test]
fn scenario_hot_redo_after_single_undo() {
    let mut table = PieceTable::from("Hello");
    table.append("World!").unwrap();
    table.insert(5, ", ").unwrap();
    table.undo();
    table.hot_redo();
    assert_eq!(table.history().head(), 2);
    assert_eq!(table.to_string(), "Hello, World!");
}

#[test]
fn scenario_boundaries() {
    let mut table = PieceTable::from("Hello, World!");
    let length = table.len();
    assert_eq!(table.slice(3..3), Err(EditError::InvalidRange));
    assert_eq!(table.slice(0..length + 1), Err(EditError::OutOfRange));
    assert_eq!(table.insert(length + 1, "x"), Err(EditError::OutOfRange));
    assert_eq!(table.remove(4, 0), Err(EditError::EmptyInput));
    assert_eq!(table.to_string(), "Hello, World!");
    assert_eq!(table.history().entries().len(), 1);
}

#[test]
fn refused_edits_change_nothing() {
    let mut table = PieceTable::from("Hello, World!");
    assert_eq!(table.insert(0, ""), Err(EditError::EmptyInput));
    assert_eq!(table.append(""), Err(EditError::EmptyInput));
    assert_eq!(table.remove(10, 5), Err(EditError::OutOfRange));
    assert_eq!(table.remove(15, 5), Err(EditError::OutOfRange));
    assert_eq!(table.remove(usize::MAX, 2), Err(EditError::OutOfRange));
    let mut empty = PieceTable::from("");
    assert_eq!(empty.remove(0, 5), Err(EditError::OutOfRange));
    assert_eq!(empty.insert(1, "Hello, World!"), Err(EditError::OutOfRange));
    assert_eq!(table.to_string(), "Hello, World!");
    assert_eq!(table.addition(), "");
    assert_eq!(table.history().entries().len(), 1);
}

#[test]
fn slice_errors() {
    let table = PieceTable::from("Hello, World!");
    assert_eq!(table.slice(3..1), Err(EditError::InvalidRange));
    assert_eq!(table.slice(20..22), Err(EditError::OutOfRange));
    assert_eq!(table.slice(0..22), Err(EditError::OutOfRange));
    assert_eq!(table.slice(5..=usize::MAX), Err(EditError::OutOfRange));
    assert_eq!(table.slice(..=usize::MAX), Err(EditError::OutOfRange));
    assert_eq!(table.slice(13..), Err(EditError::InvalidRange));
    assert_eq!(table.slice(..0), Err(EditError::InvalidRange));
    assert_eq!(table.slice(4..=4).unwrap(), "o");
    let empty = PieceTable::from("");
    assert_eq!(empty.slice(..), Err(EditError::InvalidRange));
    assert_eq!(empty.to_string(), "");
}

#[test]
fn remove_inside_shifted_piece() {
    let mut table = PieceTable::from("abcdefgh");
    table.remove(0, 2).unwrap();
    assert_eq!(*table.pieces(), vec![Piece::new(PieceSource::Original, 2, 6)]);
    table.remove(2, 2).unwrap();
    assert_eq!(table.to_string(), "cdgh");
    assert_eq!(
        *table.pieces(),
        vec![
            Piece::new(PieceSource::Original, 2, 2),
            Piece::new(PieceSource::Original, 6, 2),
        ]
    );
    table.undo();
    assert_eq!(table.to_string(), "cdefgh");
}

#[test]
fn positions_count_characters() {
    let mut table = PieceTable::from("héllo");
    assert_eq!(table.len(), 5);
    assert_eq!(table.original(), "héllo");
    table.insert(2, "ü").unwrap();
    assert_eq!(table.to_string(), "héüllo");
    assert_eq!(table.addition(), "ü");
    assert_eq!(table.slice(1..3).unwrap(), "éü");
    table.remove(0, 2).unwrap();
    assert_eq!(table.to_string(), "üllo");
}

#[test]
fn undo_at_root_and_redo_without_hot_path() {
    let mut table = PieceTable::from("abc");
    table.undo();
    table.hot_redo();
    assert_eq!(table.to_string(), "abc");
    table.append("d").unwrap();
    table.hot_redo();
    assert_eq!(table.to_string(), "abcd");
    assert_eq!(table.history().head(), 1);
}
