use piece_table::{ChangeType, Commit, Entry, History, Piece, PieceSource, PieceTable};

fn validate_table<S1: AsRef<str>, S2: AsRef<str>, S3: AsRef<str>>(
    table: &PieceTable,
    original: S1,
    addition: S2,
    pieces: &Vec<Piece>,
    expected: S3,
) {
    assert_eq!(table.original(), original.as_ref());
    assert_eq!(table.addition(), addition.as_ref());
    assert_eq!(*table.pieces(), *pieces);
    assert_eq!(table.len(), expected.as_ref().len());
    assert_eq!(table.to_string(), expected.as_ref());
}

fn validate_history(history: &History, changes: &Vec<Entry>, head: usize) {
    assert_eq!(*history.entries(), *changes);
    assert_eq!(history.head(), head);
}

fn create_entry(
    previous: Option<usize>,
    next: Vec<usize>,
    hot_path: Option<usize>,
    commit: Commit,
) -> Entry {
    Entry {
        previous,
        next,
        hot_path,
        commit,
    }
}

fn middle_commit() -> Commit {
    let mut commit = Commit::new();
    commit.add_change(
        0,
        Piece::new(PieceSource::Original, 0, "HelloWorld!".len()),
        ChangeType::Deletion,
    );
    commit.add_change(
        0,
        Piece::new(PieceSource::Original, 0, "Hello".len()),
        ChangeType::Insertion,
    );
    commit.add_change(
        1,
        Piece::new(PieceSource::Addition, 0, ", ".len()),
        ChangeType::Insertion,
    );
    commit.add_change(
        2,
        Piece::new(PieceSource::Original, "Hello".len(), "World!".len()),
        ChangeType::Insertion,
    );
    commit
}

fn between_commits() -> (Commit, Commit) {
    let mut commit1 = Commit::new();
    commit1.add_change(
        1,
        Piece::new(PieceSource::Addition, 0, "World!".len()),
        ChangeType::Insertion,
    );
    let mut commit2 = Commit::new();
    commit2.add_change(
        1,
        Piece::new(PieceSource::Addition, "World!".len(), ", ".len()),
        ChangeType::Insertion,
    );
    (commit1, commit2)
}

#[test]
fn append() {
    let mut commit = Commit::new();
    commit.add_change(
        0,
        Piece::new(PieceSource::Addition, 0, "Hello, World!".len()),
        ChangeType::Insertion,
    );
    let changes = vec![
        create_entry(None, vec![1], None, Commit::new()),
        create_entry(Some(0), Vec::new(), None, commit),
    ];

    let mut table = PieceTable::from("");
    table.append("Hello, World!").unwrap();

    validate_history(table.history(), &changes, 1);
}

#[test]
fn history_front() {
    let mut commit = Commit::new();
    commit.add_change(
        0,
        Piece::new(PieceSource::Addition, 0, "Hello, ".len()),
        ChangeType::Insertion,
    );
    let changes = vec![
        create_entry(None, vec![1], None, Commit::new()),
        create_entry(Some(0), Vec::new(), None, commit),
    ];

    let mut table = PieceTable::from("World!");
    table.insert(0, "Hello, ").unwrap();

    validate_history(table.history(), &changes, 1);
}

#[test]
fn history_middle() {
    let changes = vec![
        create_entry(None, vec![1], None, Commit::new()),
        create_entry(Some(0), Vec::new(), None, middle_commit()),
    ];

    let mut table = PieceTable::from("HelloWorld!");
    table.insert("Hello".len(), ", ").unwrap();

    validate_history(table.history(), &changes, 1);
}

#[test]
fn history_between_pieces() {
    let (commit1, commit2) = between_commits();
    let changes = vec![
        create_entry(None, vec![1], None, Commit::new()),
        create_entry(Some(0), vec![2], None, commit1),
        create_entry(Some(1), Vec::new(), None, commit2),
    ];

    let mut table = PieceTable::from("Hello");
    table.append("World!").unwrap();
    table.insert("Hello".len(), ", ").unwrap();

    validate_history(table.history(), &changes, 2);
}

#[test]
fn complex() {
    let mut commit1 = Commit::new();
    commit1.add_change(
        0,
        Piece::new(PieceSource::Original, 0, "Held!".len()),
        ChangeType::Deletion,
    );
    commit1.add_change(
        0,
        Piece::new(PieceSource::Original, 0, 2),
        ChangeType::Insertion,
    );
    commit1.add_change(
        1,
        Piece::new(PieceSource::Addition, 0, "llor".len()),
        ChangeType::Insertion,
    );
    commit1.add_change(
        2,
        Piece::new(PieceSource::Original, "He".len(), "ld!".len()),
        ChangeType::Insertion,
    );
    let mut commit2 = Commit::new();
    commit2.add_change(
        1,
        Piece::new(PieceSource::Addition, 0, "llor".len()),
        ChangeType::Deletion,
    );
    commit2.add_change(
        1,
        Piece::new(PieceSource::Addition, 0, "ll".len()),
        ChangeType::Insertion,
    );
    commit2.add_change(
        2,
        Piece::new(PieceSource::Addition, "llor".len(), "o, W".len()),
        ChangeType::Insertion,
    );
    commit2.add_change(
        3,
        Piece::new(PieceSource::Addition, "ll".len(), "or".len()),
        ChangeType::Insertion,
    );

    let changes = vec![
        create_entry(None, vec![1], None, Commit::new()),
        create_entry(Some(0), Vec::new(), None, commit1.clone()),
    ];

    let pieces = vec![
        Piece::new(PieceSource::Original, 0, 2),
        Piece::new(PieceSource::Addition, 0, 2),
        Piece::new(PieceSource::Addition, 4, 4),
        Piece::new(PieceSource::Addition, 2, 2),
        Piece::new(PieceSource::Original, 2, 3),
    ];

    let mut table = PieceTable::from("Held!");

    table.insert(2, "llor").unwrap();
    validate_history(table.history(), &changes, 1);

    let changes = vec![
        create_entry(None, vec![1], None, Commit::new()),
        create_entry(Some(0), vec![2], None, commit1),
        create_entry(Some(1), Vec::new(), None, commit2),
    ];

    table.insert(4, "o, W").unwrap();
    validate_history(table.history(), &changes, 2);
    validate_table(&table, "Held!", "lloro, W", &pieces, "Hello, World!");
}

#[test]
fn history_empty() {
    let history = History::new(Commit::new());
    let mut table = PieceTable::from("");
    table.undo();

    validate_history(table.history(), history.entries(), 0);
    validate_table(&table, "", String::new(), &Vec::new(), String::new());

    table.undo();

    validate_history(table.history(), history.entries(), 0);
    validate_table(&table, "", String::new(), &Vec::new(), String::new());
}

#[test]
fn history_no_changes() {
    let history = History::new(Commit::new());
    let pieces = vec![Piece::new(PieceSource::Original, 0, "Hello, World!".len())];

    let mut table = PieceTable::from("Hello, World!");
    table.undo();

    validate_history(table.history(), history.entries(), 0);
    validate_table(
        &table,
        "Hello, World!",
        String::new(),
        &pieces,
        "Hello, World!",
    );

    table.undo();

    validate_history(table.history(), history.entries(), 0);
    validate_table(
        &table,
        "Hello, World!",
        String::new(),
        &pieces,
        "Hello, World!",
    );
}

#[test]
fn history_middle_once() {
    let changes = vec![
        create_entry(None, vec![1], Some(1), Commit::new()),
        create_entry(Some(0), Vec::new(), None, middle_commit()),
    ];

    let pieces = vec![Piece::new(PieceSource::Original, 0, "HelloWorld!".len())];

    let mut table = PieceTable::from("HelloWorld!");
    table.insert("Hello".len(), ", ").unwrap();
    table.undo();

    validate_history(table.history(), &changes, 0);
    validate_table(&table, "HelloWorld!", ", ", &pieces, "HelloWorld!");
}

#[test]
fn undo_between_pieces() {
    let (commit1, commit2) = between_commits();
    let changes = vec![
        create_entry(None, vec![1], None, Commit::new()),
        create_entry(Some(0), vec![2], Some(2), commit1.clone()),
        create_entry(Some(1), Vec::new(), None, commit2.clone()),
    ];

    let pieces = vec![
        Piece::new(PieceSource::Original, 0, "Hello".len()),
        Piece::new(PieceSource::Addition, 0, "World!".len()),
    ];

    let mut table = PieceTable::from("Hello");
    table.append("World!").unwrap();
    table.insert("Hello".len(), ", ").unwrap();
    table.undo();

    validate_history(table.history(), &changes, 1);
    validate_table(&table, "Hello", "World!, ", &pieces, "HelloWorld!");

    // Second undo
    let changes = vec![
        create_entry(None, vec![1], Some(1), Commit::new()),
        create_entry(Some(0), vec![2], Some(2), commit1),
        create_entry(Some(1), Vec::new(), None, commit2),
    ];

    let pieces = vec![Piece::new(PieceSource::Original, 0, "Hello".len())];

    table.undo();

    validate_history(table.history(), &changes, 0);
    validate_table(&table, "Hello", "World!, ", &pieces, "Hello");
}

#[test]
fn hot_redo_empty() {
    let history = History::new(Commit::new());
    let mut table = PieceTable::from("");
    table.hot_redo();

    validate_history(table.history(), history.entries(), 0);
    validate_table(&table, "", String::new(), &Vec::new(), String::new());

    table.undo();
    table.hot_redo();

    validate_history(table.history(), history.entries(), 0);
    validate_table(&table, "", String::new(), &Vec::new(), String::new());
}

#[test]
fn hot_redo_no_changes() {
    let history = History::new(Commit::new());
    let pieces = vec![Piece::new(PieceSource::Original, 0, "Hello, World!".len())];

    let mut table = PieceTable::from("Hello, World!");
    table.hot_redo();

    validate_history(table.history(), history.entries(), 0);
    validate_table(
        &table,
        "Hello, World!",
        String::new(),
        &pieces,
        "Hello, World!",
    );

    table.undo();
    table.hot_redo();

    validate_history(table.history(), history.entries(), 0);
    validate_table(
        &table,
        "Hello, World!",
        String::new(),
        &pieces,
        "Hello, World!",
    );
}

#[test]
fn hot_redo_middle_once() {
    let changes = vec![
        create_entry(None, vec![1], Some(1), Commit::new()),
        create_entry(Some(0), Vec::new(), None, middle_commit()),
    ];

    let pieces = vec![
        Piece::new(PieceSource::Original, 0, "Hello".len()),
        Piece::new(PieceSource::Addition, 0, ", ".len()),
        Piece::new(PieceSource::Original, "Hello".len(), "World!".len()),
    ];

    let mut table = PieceTable::from("HelloWorld!");
    table.insert("Hello".len(), ", ").unwrap();
    table.undo();
    table.hot_redo();

    validate_history(table.history(), &changes, 1);
    validate_table(&table, "HelloWorld!", ", ", &pieces, "Hello, World!");
}

#[test]
fn hot_redo_between_pieces() {
    let (commit1, commit2) = between_commits();

    let mut table = PieceTable::from("Hello");
    table.append("World!").unwrap();
    table.insert("Hello".len(), ", ").unwrap();
    table.undo();

    // Second undo
    let changes = vec![
        create_entry(None, vec![1], Some(1), Commit::new()),
        create_entry(Some(0), vec![2], Some(2), commit1),
        create_entry(Some(1), Vec::new(), None, commit2),
    ];

    let pieces = vec![
        Piece::new(PieceSource::Original, 0, "Hello".len()),
        Piece::new(PieceSource::Addition, 0, "World!".len()),
    ];

    table.undo();
    table.hot_redo();

    validate_history(table.history(), &changes, 1);
    validate_table(&table, "Hello", "World!, ", &pieces, "HelloWorld!");

    table.hot_redo();

    let pieces = vec![
        Piece::new(PieceSource::Original, 0, "Hello".len()),
        Piece::new(PieceSource::Addition, "World!".len(), ", ".len()),
        Piece::new(PieceSource::Addition, 0, "World!".len()),
    ];

    validate_history(table.history(), &changes, 2);
    validate_table(&table, "Hello", "World!, ", &pieces, "Hello, World!");
}
