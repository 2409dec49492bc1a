use gltf_explorer::explorer::{
    can_open_dialog, dialog_result, displayed_document, import_result, initial_state, title,
    update, wants_dialog, Message, PickAndImport, State,
};

fn title_string(name: Option<&str>) -> String {
    title(name).into_iter().collect()
}

#[test]
fn starts_on_welcome_screen_without_a_file() {
    let s: State<u32> = initial_state(None);
    assert!(matches!(s, State::Initial));
}

#[test]
fn starts_on_the_given_document() {
    let s = initial_state(Some(7u32));
    assert!(matches!(s, State::ExploringDocument(7)));
}

#[test]
fn opening_the_dialog_from_the_welcome_screen() {
    let s = update(State::<u32>::Initial, Message::OpenFileDialog);
    assert!(matches!(s, State::ChoosingInitialDocument));
}

#[test]
fn opening_the_dialog_over_a_document_keeps_it() {
    let s = update(State::ExploringDocument(3u32), Message::OpenFileDialog);
    assert!(matches!(s, State::ChoosingNewDocument(3)));
}

#[test]
fn a_second_open_request_changes_nothing() {
    let s = update(State::<u32>::ChoosingInitialDocument, Message::OpenFileDialog);
    assert!(matches!(s, State::ChoosingInitialDocument));
    let s = update(State::ChoosingNewDocument(3u32), Message::OpenFileDialog);
    assert!(matches!(s, State::ChoosingNewDocument(3)));
}

#[test]
fn finished_import_shows_the_new_document() {
    let s = update(
        State::ChoosingNewDocument(3u32),
        Message::DocumentOpenProgress(PickAndImport::Finished(9)),
    );
    assert!(matches!(s, State::ExploringDocument(9)));
    let s = update(
        State::<u32>::ChoosingInitialDocument,
        Message::DocumentOpenProgress(PickAndImport::Finished(4)),
    );
    assert!(matches!(s, State::ExploringDocument(4)));
}

#[test]
fn failed_import_keeps_the_open_document() {
    let s = update(
        State::ChoosingNewDocument(3u32),
        Message::DocumentOpenProgress(PickAndImport::Errored(String::from("bad file"))),
    );
    assert!(matches!(s, State::ExploringDocument(3)));
}

#[test]
fn cancelled_pick_keeps_the_open_document() {
    let s = update(
        State::ChoosingNewDocument(3u32),
        Message::DocumentOpenProgress(PickAndImport::NoFileSelected),
    );
    assert!(matches!(s, State::ExploringDocument(3)));
}

#[test]
fn failed_initial_pick_returns_to_welcome() {
    let s = update(
        State::<u32>::ChoosingInitialDocument,
        Message::DocumentOpenProgress(PickAndImport::Errored(String::from("bad file"))),
    );
    assert!(matches!(s, State::Initial));
    let s = update(
        State::<u32>::ChoosingInitialDocument,
        Message::DocumentOpenProgress(PickAndImport::NoFileSelected),
    );
    assert!(matches!(s, State::Initial));
}

#[test]
fn progress_is_ignored_while_no_pick_runs() {
    let s = update(
        State::ExploringDocument(5u32),
        Message::DocumentOpenProgress(PickAndImport::Finished(8)),
    );
    assert!(matches!(s, State::ExploringDocument(5)));
    let s = update(
        State::<u32>::Initial,
        Message::DocumentOpenProgress(PickAndImport::NoFileSelected),
    );
    assert!(matches!(s, State::Initial));
}

#[test]
fn dialog_subscription_runs_only_while_choosing() {
    assert!(!wants_dialog(&State::<u32>::Initial));
    assert!(wants_dialog(&State::<u32>::ChoosingInitialDocument));
    assert!(!wants_dialog(&State::ExploringDocument(1u32)));
    assert!(wants_dialog(&State::ChoosingNewDocument(1u32)));
}

#[test]
fn open_button_reacts_only_while_no_choice_runs() {
    assert!(can_open_dialog(&State::<u32>::Initial));
    assert!(!can_open_dialog(&State::<u32>::ChoosingInitialDocument));
    assert!(can_open_dialog(&State::ExploringDocument(1u32)));
    assert!(!can_open_dialog(&State::ChoosingNewDocument(1u32)));
}

#[test]
fn displayed_document_is_kept_through_a_new_choice() {
    assert_eq!(displayed_document(&State::<u32>::Initial), None);
    assert_eq!(displayed_document(&State::<u32>::ChoosingInitialDocument), None);
    assert_eq!(displayed_document(&State::ExploringDocument(2u32)), Some(&2));
    assert_eq!(displayed_document(&State::ChoosingNewDocument(2u32)), Some(&2));
}

#[test]
fn title_is_the_application_name_alone_or_prefixed() {
    assert_eq!(title_string(None), "glTF Explorer");
    assert_eq!(title_string(Some("duck.glb")), "duck.glb - glTF Explorer");
}

#[test]
fn dialog_outcomes_are_classified() {
    assert_eq!(
        dialog_result::<u32>(Ok(Some(String::from("a.glb")))),
        Ok(String::from("a.glb"))
    );
    assert!(matches!(
        dialog_result::<u32>(Ok(None)),
        Err(PickAndImport::NoFileSelected)
    ));
    match dialog_result::<u32>(Err(String::from("no display"))) {
        Err(PickAndImport::Errored(e)) => assert_eq!(e, "no display"),
        other => panic!("unexpected: {:?}", other),
    }
}

#[test]
fn import_outcomes_are_classified() {
    assert!(matches!(
        import_result::<u32>(Ok(6)),
        PickAndImport::Finished(6)
    ));
    match import_result::<u32>(Err(String::from("malformed"))) {
        PickAndImport::Errored(e) => assert_eq!(e, "malformed"),
        other => panic!("unexpected: {:?}", other),
    }
}
