use flexkit::dnd::{dnd_step, display_index, insertion_slot, DndInput, DndState};
use flexkit::form::{latch_blurred, FieldState, Form, FormField};
use flexkit::inbox::UiInbox;

#[test]
fn inbox_reads_in_send_order() {
    let mut inbox: UiInbox<i32> = UiInbox::new();
    inbox.send(1).ok();
    inbox.send(2).ok();
    inbox.send(3).ok();
    assert_eq!(inbox.read(), vec![1, 2, 3]);
    assert_eq!(inbox.read(), Vec::<i32>::new());
}

#[test]
fn inbox_replace_keeps_only_the_last() {
    let mut inbox: UiInbox<i32> = UiInbox::new();
    inbox.send(1).ok();
    inbox.send(2).ok();
    inbox.send(3).ok();
    let mut t = 0;
    assert!(inbox.replace(&mut t));
    assert_eq!(t, 3);
    assert_eq!(inbox.read(), Vec::<i32>::new());
}

#[test]
fn inbox_replace_without_items_leaves_target() {
    let mut inbox: UiInbox<i32> = UiInbox::new();
    let mut t = 41;
    assert!(!inbox.replace(&mut t));
    assert_eq!(t, 41);
}

#[test]
fn inbox_send_fails_after_close() {
    let mut inbox: UiInbox<&'static str> = UiInbox::new();
    inbox.send("kept").ok();
    inbox.close();
    match inbox.send("lost") {
        Err(e) => assert_eq!(e.0, "lost"),
        Ok(()) => panic!("send to a closed inbox must fail"),
    }
    // Values queued before the close are still drained.
    assert_eq!(inbox.read(), vec!["kept"]);
}

#[test]
fn form_field_finds_first_error() {
    let mut form = Form::new();
    form.add_error(7, String::from("too short"));
    form.add_error(7, String::from("later message"));
    form.add_error(9, String::from("other field"));
    let f = FormField::new(&form, 7);
    assert_eq!(f.error.as_deref(), Some("too short"));
    let g = FormField::new(&form, 8);
    assert_eq!(g.error, None);
}

#[test]
fn form_field_label_and_visibility() {
    let form = Form::new();
    let f = FormField::new(&form, 1).label(String::from("name"));
    assert_eq!(f.label.as_deref(), Some("name"));
    // No error: never visibly errored.
    assert!(!f.visibly_errored(true));
    let mut form2 = Form::new();
    form2.add_error(1, String::from("required"));
    let g = FormField::new(&form2, 1);
    // Error present, but only shown once the field has blurred.
    assert!(!g.visibly_errored(false));
    assert!(g.visibly_errored(true));
}

#[test]
fn blurred_latch_never_unlatches() {
    assert!(!latch_blurred(false, false));
    assert!(latch_blurred(false, true));
    assert!(latch_blurred(true, false));
    assert!(latch_blurred(true, true));
}

#[test]
fn form_focuses_first_errored_control() {
    let mut form = Form::new();
    form.register(FieldState { state_id: 1, widget_id: 10, errors: vec![] });
    form.register(
        FieldState { state_id: 2, widget_id: 20, errors: vec![String::from("bad")] },
    );
    form.register(
        FieldState { state_id: 3, widget_id: 30, errors: vec![String::from("also bad")] },
    );
    assert_eq!(form.first_errored(), Some(1));
    let clean = Form::new();
    assert_eq!(clean.first_errored(), None);
}

#[test]
fn dnd_press_drag_release_emits_once() {
    let (s1, e1) = dnd_step(DndState::Idle, DndInput::Press { id: 42, y: 100 });
    assert_eq!(s1, DndState::Dragging { id: 42, pointer_y: 100 });
    assert_eq!(e1, None);
    let (s2, e2) = dnd_step(s1, DndInput::MoveTo { y: 130 });
    assert_eq!(s2, DndState::Dragging { id: 42, pointer_y: 130 });
    assert_eq!(e2, None);
    let (s3, e3) = dnd_step(s2, DndInput::Release { from: 0, to: 2 });
    assert_eq!(s3, DndState::DroppedPending { from: 0, to: 2 });
    assert_eq!(e3, None);
    let (s4, e4) = dnd_step(s3, DndInput::Frame);
    assert_eq!(s4, DndState::Idle);
    assert_eq!(e4, Some((0, 2)));
    // The event fires exactly once.
    let (s5, e5) = dnd_step(s4, DndInput::Frame);
    assert_eq!(s5, DndState::Idle);
    assert_eq!(e5, None);
}

#[test]
fn dnd_ignores_stray_inputs() {
    let (s, e) = dnd_step(DndState::Idle, DndInput::MoveTo { y: 5 });
    assert_eq!(s, DndState::Idle);
    assert_eq!(e, None);
    let dragging = DndState::Dragging { id: 1, pointer_y: 3 };
    let (s2, e2) = dnd_step(dragging, DndInput::Press { id: 2, y: 9 });
    assert_eq!(s2, dragging);
    assert_eq!(e2, None);
}

#[test]
fn insertion_slot_counts_centers_above() {
    let centers = vec![10, 30, 50, 70];
    assert_eq!(insertion_slot(&centers, 0), 0);
    assert_eq!(insertion_slot(&centers, 40), 2);
    assert_eq!(insertion_slot(&centers, 100), 4);
    // A center exactly at the pointer does not count as above.
    assert_eq!(insertion_slot(&centers, 30), 1);
}

#[test]
fn display_index_shifts_after_gap() {
    assert_eq!(display_index(0, 2), 0);
    assert_eq!(display_index(1, 2), 1);
    assert_eq!(display_index(2, 2), 3);
    assert_eq!(display_index(3, 2), 4);
}
