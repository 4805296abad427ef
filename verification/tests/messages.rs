use zippy_frontend::messages::{decimal_string, Message, MessageKind, NoteKind};
use zippy_frontend::source::Span;

#[test]
fn indentation_message_texts() {
    let m = Message { kind: MessageKind::IndentError { expected: 0, actual: 3 }, span: Span::new(0, 1) };
    assert_eq!(m.title(), "indentation is not correct");
    let notes = m.notes();
    assert_eq!(notes.len(), 2);
    assert_eq!(notes[0].0, NoteKind::Note);
    assert_eq!(notes[1].0, NoteKind::Help);
    assert_eq!(notes[1].1, "try removing 3 spaces");
    let one = Message { kind: MessageKind::IndentError { expected: 2, actual: 3 }, span: Span::new(0, 1) };
    assert_eq!(one.notes()[1].1, "try removing 1 space");
}

#[test]
fn unresolved_name_title_names_it() {
    let m = Message { kind: MessageKind::UnresolvedName("foo".to_string()), span: Span::new(0, 1) };
    assert_eq!(m.title(), "no item named foo");
    assert!(m.notes().is_empty());
}

#[test]
fn decimal_strings() {
    assert_eq!(decimal_string(0), "0");
    assert_eq!(decimal_string(1203), "1203");
}
