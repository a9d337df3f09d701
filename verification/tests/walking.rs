use manifest_scan::event::JsonEvent;
use manifest_scan::extract::{Action, ExtractionState};

fn flags(state: &ExtractionState) -> (i128, bool, bool, bool, bool) {
    (
        state.depth,
        state.at_root_object,
        state.in_target_array,
        state.in_array_item,
        state.awaiting_value,
    )
}

fn at(depth: i128, root: bool, target: bool, item: bool, awaiting: bool) -> ExtractionState {
    ExtractionState {
        depth,
        at_root_object: root,
        in_target_array: target,
        in_array_item: item,
        awaiting_value: awaiting,
    }
}

fn is_continue(action: Action<'_>) -> bool {
    matches!(action, Action::Continue)
}

#[test]
fn fresh_state_has_depth_zero_and_no_flag() {
    assert_eq!(flags(&ExtractionState::new()), (0, false, false, false, false));
}

#[test]
fn first_brace_enters_the_root_object() {
    let (next, action) = ExtractionState::new().step(JsonEvent::EnterObj);
    assert_eq!(flags(&next), (1, true, false, false, false));
    assert!(is_continue(action));
}

#[test]
fn first_bracket_does_not_enter_the_root_object() {
    let (next, action) = ExtractionState::new().step(JsonEvent::EnterList);
    assert_eq!(flags(&next), (1, false, false, false, false));
    assert!(is_continue(action));
}

#[test]
fn packages_key_in_the_root_object_is_noted() {
    let (next, action) = at(1, true, false, false, false).step(JsonEvent::Entry("packages"));
    assert_eq!(flags(&next), (1, true, true, false, false));
    assert!(is_continue(action));
}

#[test]
fn other_key_in_the_root_object_is_not_noted() {
    let (next, action) = at(1, true, false, false, false).step(JsonEvent::Entry("package"));
    assert_eq!(flags(&next), (1, true, false, false, false));
    assert!(is_continue(action));
    let (next, _) = at(1, true, false, false, false).step(JsonEvent::Str("packages"));
    assert_eq!(flags(&next), (1, true, false, false, false));
    let (next, _) = at(2, true, false, false, false).step(JsonEvent::Entry("packages"));
    assert_eq!(flags(&next), (2, true, false, false, false));
}

#[test]
fn opening_the_array_changes_the_depth_only() {
    let (next, action) = at(1, true, true, false, false).step(JsonEvent::EnterList);
    assert_eq!(flags(&next), (2, true, true, false, false));
    assert!(is_continue(action));
}

#[test]
fn brace_in_the_array_enters_an_item() {
    let (next, action) = at(2, true, true, false, false).step(JsonEvent::EnterObj);
    assert_eq!(flags(&next), (3, true, true, true, false));
    assert!(is_continue(action));
    let (next, _) = at(2, true, false, false, false).step(JsonEvent::EnterObj);
    assert_eq!(flags(&next), (3, true, false, false, false));
    let (next, _) = at(3, true, true, false, false).step(JsonEvent::EnterObj);
    assert_eq!(flags(&next), (4, true, true, false, false));
}

#[test]
fn manifest_path_key_in_an_item_awaits_its_value() {
    let (next, action) = at(3, true, true, true, false).step(JsonEvent::Entry("manifest_path"));
    assert_eq!(flags(&next), (3, true, true, true, true));
    assert!(is_continue(action));
    let (next, _) = at(3, true, true, true, false).step(JsonEvent::Entry("name"));
    assert_eq!(flags(&next), (3, true, true, true, false));
    let (next, _) = at(4, true, true, true, false).step(JsonEvent::Entry("manifest_path"));
    assert_eq!(flags(&next), (4, true, true, true, false));
    let (next, _) = at(3, true, true, false, false).step(JsonEvent::Entry("manifest_path"));
    assert_eq!(flags(&next), (3, true, true, false, false));
}

#[test]
fn awaited_string_is_captured() {
    let (next, action) = at(3, true, true, true, true).step(JsonEvent::Str("/a/Cargo.toml"));
    assert_eq!(flags(&next), (3, true, true, true, false));
    match action {
        Action::Capture(path) => assert_eq!(path, "/a/Cargo.toml"),
        other => panic!("unexpected action {other:?}"),
    }
}

#[test]
fn string_that_is_not_awaited_is_not_captured() {
    let (next, action) = at(3, true, true, true, false).step(JsonEvent::Str("/a"));
    assert_eq!(flags(&next), (3, true, true, true, false));
    assert!(is_continue(action));
    let (next, action) = at(4, true, true, true, true).step(JsonEvent::Str("/a"));
    assert_eq!(flags(&next), (4, true, true, true, true));
    assert!(is_continue(action));
}

#[test]
fn awaited_value_of_another_kind_is_dropped() {
    let (next, action) = at(3, true, true, true, true).step(JsonEvent::Entry("name"));
    assert_eq!(flags(&next), (3, true, true, true, false));
    assert!(is_continue(action));
    let (next, action) = at(3, true, true, true, true).step(JsonEvent::Entry("manifest_path"));
    assert_eq!(flags(&next), (3, true, true, true, false));
    assert!(is_continue(action));
    let (next, action) = at(4, true, true, true, true).step(JsonEvent::ExitObj);
    assert_eq!(flags(&next), (3, true, true, true, false));
    assert!(is_continue(action));
    let (next, action) = at(4, true, true, true, true).step(JsonEvent::ExitList);
    assert_eq!(flags(&next), (3, true, true, true, false));
    assert!(is_continue(action));
}

#[test]
fn value_that_opens_a_bracket_is_awaited_until_it_closes() {
    let (next, action) = at(3, true, true, true, true).step(JsonEvent::EnterObj);
    assert_eq!(flags(&next), (4, true, true, true, true));
    assert!(is_continue(action));
    let (next, action) = at(3, true, true, true, true).step(JsonEvent::EnterList);
    assert_eq!(flags(&next), (4, true, true, true, true));
    assert!(is_continue(action));
}

#[test]
fn closing_brace_leaves_the_item() {
    let (next, action) = at(3, true, true, true, false).step(JsonEvent::ExitObj);
    assert_eq!(flags(&next), (2, true, true, false, false));
    assert!(is_continue(action));
    let (next, _) = at(3, true, true, true, true).step(JsonEvent::ExitObj);
    assert_eq!(flags(&next), (2, true, true, false, true));
    let (next, _) = at(4, true, true, true, false).step(JsonEvent::ExitObj);
    assert_eq!(flags(&next), (3, true, true, true, false));
}

#[test]
fn closing_the_array_stops_the_walk() {
    let (next, action) = at(2, true, true, false, false).step(JsonEvent::ExitList);
    assert_eq!(flags(&next), (1, true, true, false, false));
    assert!(matches!(action, Action::Stop));
}

#[test]
fn closing_another_array_does_not_stop_the_walk() {
    let (next, action) = at(2, true, false, false, false).step(JsonEvent::ExitList);
    assert_eq!(flags(&next), (1, true, false, false, false));
    assert!(is_continue(action));
    let (next, action) = at(3, true, true, false, false).step(JsonEvent::ExitList);
    assert_eq!(flags(&next), (2, true, true, false, false));
    assert!(is_continue(action));
    let (next, action) = at(2, true, true, false, false).step(JsonEvent::ExitObj);
    assert_eq!(flags(&next), (1, true, true, false, false));
    assert!(is_continue(action));
}

#[test]
fn depth_follows_every_bracket() {
    let mut state = ExtractionState::new();
    let events = [
        (JsonEvent::ExitObj, -1),
        (JsonEvent::ExitList, -2),
        (JsonEvent::EnterList, -1),
        (JsonEvent::Str("x"), -1),
        (JsonEvent::Entry("packages"), -1),
        (JsonEvent::EnterObj, 0),
        (JsonEvent::EnterObj, 1),
        (JsonEvent::EnterList, 2),
    ];
    for (event, depth) in events {
        let (next, action) = state.step(event);
        assert!(is_continue(action));
        assert_eq!(next.depth, depth);
        state = next;
    }
    assert_eq!(flags(&state), (2, true, false, false, false));
}
