use mace::cursor_set::Direction;
use mace::delta::Builder;
use mace::generational::Id;
use mace::position::Position;
use mace::protocol::{RemoteRejection, Request, Response};
use mace::size::Size;
use mace::editor::State;
use mace::text::Text;

fn text_of(s: &str) -> Text {
    let lines: Vec<Vec<char>> = s.split('\n').map(|l| l.chars().collect()).collect();
    Text::from_lines(lines)
}

fn lines_of(t: &Text) -> Vec<String> {
    t.as_lines().iter().map(|l| l.iter().collect()).collect()
}

fn doc_with_session(s: &str) -> (State, Id, Id) {
    let mut state = State::new();
    let did = state
        .create_document("plan.txt".to_string(), 0, text_of(s))
        .expect("id space");
    let sid = state.create_session(did).expect("id space");
    (state, did, sid)
}

fn pos(line: usize, column: usize) -> Position {
    Position { line, column }
}

fn insert_at(col: usize, s: &str) -> mace::delta::Delta {
    let mut b = Builder::new();
    b.retain(Size { line: 0, column: col });
    b.insert(text_of(s));
    b.build()
}

#[test]
fn typing_inserts_at_the_caret() {
    let (mut state, did, sid) = doc_with_session("ab");
    state.move_cursors_to(sid, pos(0, 1), false);
    let request = state.insert_text(sid, text_of("X"));
    assert_eq!(lines_of(state.document(did).text()), vec!["aXb".to_string()]);
    assert!(request.is_some());
    match request.unwrap() {
        Request::ApplyDelta(path, revision, _) => {
            assert_eq!(path, "plan.txt".to_string());
            assert_eq!(revision, 0);
        }
    }
}

#[test]
fn typing_replaces_a_selection() {
    let (mut state, did, sid) = doc_with_session("abc");
    state.move_cursors_to(sid, pos(0, 1), false);
    state.move_cursors(sid, Direction::Right, true);
    state.insert_text(sid, text_of("Z"));
    assert_eq!(lines_of(state.document(did).text()), vec!["aZc".to_string()]);
}

#[test]
fn backspace_deletes_one_character() {
    let (mut state, did, sid) = doc_with_session("abc");
    state.move_cursors_to(sid, pos(0, 2), false);
    state.insert_backspace(sid);
    assert_eq!(lines_of(state.document(did).text()), vec!["ac".to_string()]);
}

#[test]
fn backspace_at_line_start_joins_lines() {
    let (mut state, did, sid) = doc_with_session("ab\ncd");
    state.move_cursors_to(sid, pos(1, 0), false);
    state.insert_backspace(sid);
    assert_eq!(lines_of(state.document(did).text()), vec!["abcd".to_string()]);
}

#[test]
fn backspace_at_origin_does_nothing() {
    let (mut state, did, sid) = doc_with_session("ab");
    state.move_cursors_to(sid, pos(0, 0), false);
    state.insert_backspace(sid);
    assert_eq!(lines_of(state.document(did).text()), vec!["ab".to_string()]);
}

// The outstanding queue never grows past two, whatever the burst of edits:
// one delta in flight and one coalescing buffer.
#[test]
fn outstanding_queue_stays_bounded() {
    let (mut state, did, sid) = doc_with_session("");
    let mut requests: usize = 0;
    for k in 0..10usize {
        state.move_cursors_to(sid, pos(0, k), false);
        let r = state.insert_text(sid, text_of("x"));
        if r.is_some() {
            requests += 1;
        }
        assert!(state.document(did).outstanding_count() <= 2);
    }
    // Only the first edit was sent; the rest wait, coalesced.
    assert_eq!(requests, 1);
    assert_eq!(state.document(did).outstanding_count(), 2);
    // Acknowledging the in-flight delta sends the coalesced one.
    let next = state
        .handle_response(did, Response::ApplyDelta(Ok(())))
        .expect("accepted");
    assert!(next.is_some());
    assert_eq!(state.document(did).revision(), 1);
    assert_eq!(state.document(did).outstanding_count(), 1);
    // Acknowledging that leaves the queue empty.
    let last = state
        .handle_response(did, Response::ApplyDelta(Ok(())))
        .expect("accepted");
    assert!(last.is_none());
    assert_eq!(state.document(did).outstanding_count(), 0);
    assert_eq!(state.document(did).revision(), 2);
    assert_eq!(
        lines_of(state.document(did).text()),
        vec!["xxxxxxxxxx".to_string()]
    );
}

// Convergence: document "ab"; the local session inserts "X" at column 1
// (queued, in flight); a notification delivers a remote insertion of "Y" at
// column 0, authored against the original "ab". The transformed remote delta
// lands at its original offset and the final text is "YaXb"; the response for
// the local edit then advances the revision with no further text change.
#[test]
fn convergence_with_a_foreign_insertion() {
    let (mut state, did, sid) = doc_with_session("ab");
    state.move_cursors_to(sid, pos(0, 1), false);
    let request = state.insert_text(sid, text_of("X"));
    assert!(request.is_some());
    assert_eq!(lines_of(state.document(did).text()), vec!["aXb".to_string()]);

    state.handle_notification(did, insert_at(0, "Y"));
    assert_eq!(lines_of(state.document(did).text()), vec!["YaXb".to_string()]);
    assert_eq!(state.document(did).revision(), 1);

    let next = state
        .handle_response(did, Response::ApplyDelta(Ok(())))
        .expect("accepted");
    assert!(next.is_none());
    assert_eq!(state.document(did).revision(), 2);
    assert_eq!(lines_of(state.document(did).text()), vec!["YaXb".to_string()]);
}

// Undo across a foreign edit: start "abc"; locally delete the "b"; a foreign
// notification inserts "Z" at column 0; undo restores the "b" at the position
// it occupies given the foreign prefix: "Zabc", not "abc".
#[test]
fn undo_across_a_foreign_edit() {
    let (mut state, did, sid) = doc_with_session("abc");
    state.move_cursors_to(sid, pos(0, 2), false);
    state.insert_backspace(sid);
    assert_eq!(lines_of(state.document(did).text()), vec!["ac".to_string()]);

    state.handle_notification(did, insert_at(0, "Z"));
    assert_eq!(lines_of(state.document(did).text()), vec!["Zac".to_string()]);

    state.undo(sid);
    assert_eq!(lines_of(state.document(did).text()), vec!["Zabc".to_string()]);
}

#[test]
fn undo_and_redo_round_trip() {
    let (mut state, did, sid) = doc_with_session("hello");
    state.move_cursors_to(sid, pos(0, 5), false);
    state.insert_text(sid, text_of(" world"));
    assert_eq!(
        lines_of(state.document(did).text()),
        vec!["hello world".to_string()]
    );
    state.undo(sid);
    assert_eq!(lines_of(state.document(did).text()), vec!["hello".to_string()]);
    state.redo(sid);
    assert_eq!(
        lines_of(state.document(did).text()),
        vec!["hello world".to_string()]
    );
}

#[test]
fn undo_with_empty_stack_does_nothing() {
    let (mut state, did, sid) = doc_with_session("ab");
    let r = state.undo(sid);
    assert!(r.is_none());
    assert_eq!(lines_of(state.document(did).text()), vec!["ab".to_string()]);
}

// A fresh local edit after an undo deliberately leaves the redo stack in
// place; its stale top no longer applies and redoing it is a no-op.
#[test]
fn stale_redo_is_left_untouched() {
    let (mut state, did, sid) = doc_with_session("ab");
    state.move_cursors_to(sid, pos(0, 2), false);
    state.insert_text(sid, text_of("X"));
    state.undo(sid);
    assert_eq!(lines_of(state.document(did).text()), vec!["ab".to_string()]);
    // A different edit that makes the recorded redo inapplicable.
    state.move_cursors_to(sid, pos(0, 2), false);
    state.insert_backspace(sid);
    state.insert_backspace(sid);
    assert_eq!(lines_of(state.document(did).text()), vec![String::new()]);
    let r = state.redo(sid);
    assert!(r.is_none());
    assert_eq!(lines_of(state.document(did).text()), vec![String::new()]);
}

// Fan-out: two sessions on one document. Session A inserts text before
// session B's caret; B's caret keeps its logical position, past the inserted
// span, never inside it.
#[test]
fn fan_out_remaps_the_other_session() {
    let (mut state, did, a) = doc_with_session("ab");
    let b = state.create_session(did).expect("id space");
    state.move_cursors_to(b, pos(0, 2), false);
    state.move_cursors_to(a, pos(0, 1), false);
    state.insert_text(a, text_of("XY"));
    assert_eq!(lines_of(state.document(did).text()), vec!["aXYb".to_string()]);
    let carets = state.session(b).carets();
    assert_eq!(carets.len(), 1);
    assert_eq!(carets.get(0), pos(0, 4));
    // The acting session's caret lands after what it typed.
    let own = state.session(a).carets();
    assert_eq!(own.get(0), pos(0, 3));
}

#[test]
fn remote_rejection_is_surfaced_and_changes_nothing() {
    let (mut state, did, sid) = doc_with_session("ab");
    state.move_cursors_to(sid, pos(0, 0), false);
    state.insert_text(sid, text_of("Q"));
    let r = state.handle_response(
        did,
        Response::ApplyDelta(Err(RemoteRejection { reason: "stale revision".to_string() })),
    );
    assert!(r.is_err());
    assert_eq!(state.document(did).revision(), 0);
    assert_eq!(state.document(did).outstanding_count(), 1);
    assert_eq!(lines_of(state.document(did).text()), vec!["Qab".to_string()]);
}

#[test]
fn document_lookup_by_path() {
    let mut state = State::new();
    let did = state
        .create_document("a.txt".to_string(), 0, text_of("a"))
        .expect("id space");
    let other = state
        .create_document("b.txt".to_string(), 3, text_of("b"))
        .expect("id space");
    assert_eq!(state.document_id_by_path(&"a.txt".to_string()), Some(did));
    assert_eq!(state.document_id_by_path(&"b.txt".to_string()), Some(other));
    assert_eq!(state.document_id_by_path(&"c.txt".to_string()), None);
    assert_eq!(state.document(other).revision(), 3);
}

// Two documents under one path: the newest wins, as a fresh snapshot of the
// same file replaces the stale one.
#[test]
fn duplicate_path_resolves_to_the_newest_document() {
    let mut state = State::new();
    let stale = state
        .create_document("a.txt".to_string(), 0, text_of("old"))
        .expect("id space");
    let fresh = state
        .create_document("a.txt".to_string(), 7, text_of("new"))
        .expect("id space");
    assert_ne!(stale, fresh);
    assert_eq!(state.document_id_by_path(&"a.txt".to_string()), Some(fresh));
}

#[test]
fn rejection_reason_is_passed_through() {
    let (mut state, did, sid) = doc_with_session("ab");
    state.move_cursors_to(sid, pos(0, 0), false);
    state.insert_text(sid, text_of("Q"));
    let r = state.handle_response(
        did,
        Response::ApplyDelta(Err(RemoteRejection { reason: "stale revision".to_string() })),
    );
    match r {
        Err(rejection) => assert_eq!(rejection.reason, "stale revision".to_string()),
        Ok(_) => panic!("a rejection must be surfaced"),
    }
}

#[test]
fn cursor_movement_clamps_at_edges() {
    let (mut state, _did, sid) = doc_with_session("ab\nc");
    state.move_cursors_to(sid, pos(0, 0), false);
    state.move_cursors(sid, Direction::Left, false);
    assert_eq!(state.session(sid).carets().get(0), pos(0, 0));
    state.move_cursors(sid, Direction::Right, false);
    assert_eq!(state.session(sid).carets().get(0), pos(0, 1));
    state.move_cursors(sid, Direction::Right, false);
    state.move_cursors(sid, Direction::Right, false);
    assert_eq!(state.session(sid).carets().get(0), pos(1, 0));
    state.move_cursors(sid, Direction::Up, false);
    assert_eq!(state.session(sid).carets().get(0), pos(0, 0));
    state.move_cursors(sid, Direction::Down, false);
    state.move_cursors(sid, Direction::Down, false);
    assert_eq!(state.session(sid).carets().get(0), pos(1, 0));
}

#[test]
fn added_cursors_all_type() {
    let (mut state, did, sid) = doc_with_session("ab\ncd");
    state.move_cursors_to(sid, pos(0, 1), false);
    state.add_cursor(sid, pos(1, 1));
    state.insert_text(sid, text_of("-"));
    assert_eq!(
        lines_of(state.document(did).text()),
        vec!["a-b".to_string(), "c-d".to_string()]
    );
}
