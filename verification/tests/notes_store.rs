use encrypted_notes_backend::identity::Identity;
use encrypted_notes_backend::notes::{EncryptedNote, Notes};

fn ident(id: u128) -> Identity {
    Identity { id }
}

fn s(text: &str) -> String {
    String::from(text)
}

#[test]
fn notes_of_unknown_identity_are_empty() {
    let n = Notes::default();
    assert!(n.get_notes(ident(1)).is_empty());
}

#[test]
fn add_note_assigns_increasing_ids() {
    let mut n = Notes::default();
    let i = ident(1);
    n.add_note(i, s("first"));
    n.add_note(i, s("second"));
    let notes = n.get_notes(i);
    assert_eq!(notes.len(), 2);
    assert_eq!(notes[0].id, 0);
    assert_eq!(notes[0].data, s("first"));
    assert_eq!(notes[1].id, 1);
    assert_eq!(notes[1].data, s("second"));
}

#[test]
fn note_ids_are_global_across_identities() {
    let mut n = Notes::default();
    n.add_note(ident(1), s("mine"));
    n.add_note(ident(2), s("yours"));
    assert_eq!(n.get_notes(ident(1))[0].id, 0);
    assert_eq!(n.get_notes(ident(2))[0].id, 1);
    assert_eq!(n.get_notes(ident(1)).len(), 1);
    assert_eq!(n.get_notes(ident(2)).len(), 1);
}

#[test]
fn delete_note_removes_by_id() {
    let mut n = Notes::default();
    let i = ident(1);
    n.add_note(i, s("keep"));
    n.add_note(i, s("drop"));
    n.delete_note(i, 1);
    let notes = n.get_notes(i);
    assert_eq!(notes.len(), 1);
    assert_eq!(notes[0].id, 0);
    assert_eq!(notes[0].data, s("keep"));
}

#[test]
fn delete_note_absent_id_is_noop() {
    let mut n = Notes::default();
    let i = ident(1);
    n.add_note(i, s("only"));
    n.delete_note(i, 42);
    n.delete_note(ident(9), 0);
    assert_eq!(n.get_notes(i).len(), 1);
}

#[test]
fn update_note_replaces_data_by_id() {
    let mut n = Notes::default();
    let i = ident(1);
    n.add_note(i, s("old"));
    n.add_note(i, s("other"));
    n.update_note(
        i,
        EncryptedNote {
            id: 0,
            data: s("new"),
        },
    );
    let notes = n.get_notes(i);
    assert_eq!(notes[0].id, 0);
    assert_eq!(notes[0].data, s("new"));
    assert_eq!(notes[1].data, s("other"));
}

#[test]
fn update_note_absent_id_is_noop() {
    let mut n = Notes::default();
    let i = ident(1);
    n.add_note(i, s("only"));
    n.update_note(
        i,
        EncryptedNote {
            id: 7,
            data: s("lost"),
        },
    );
    n.update_note(
        ident(9),
        EncryptedNote {
            id: 0,
            data: s("lost"),
        },
    );
    let notes = n.get_notes(i);
    assert_eq!(notes.len(), 1);
    assert_eq!(notes[0].data, s("only"));
}

#[test]
fn notes_are_scoped_per_identity() {
    let mut n = Notes::default();
    n.add_note(ident(1), s("secret"));
    assert!(n.get_notes(ident(2)).is_empty());
    n.delete_note(ident(2), 0);
    assert_eq!(n.get_notes(ident(1)).len(), 1);
}
