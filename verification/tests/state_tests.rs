use dri_tracker::codec::decode;
use dri_tracker::state::RotationState;

fn sorted(mut v: Vec<String>) -> Vec<String> {
    v.sort();
    v
}

#[test]
fn fresh_state_is_empty() {
    let st = RotationState::new();
    assert_eq!(st.raw, "");
    assert_eq!(st.names(), Vec::<String>::new());
    assert_eq!(st.url_token(), "");
}

#[test]
fn set_raw_text_trims_leading_whitespace_of_the_blob() {
    let mut st = RotationState::new();
    st.set_raw_text("  \n Alice\nBob");
    assert_eq!(st.raw, "Alice\nBob");
    assert_eq!(st.names(), vec!["Alice".to_string(), "Bob".to_string()]);
}

#[test]
fn blank_lines_between_names_are_kept() {
    let mut st = RotationState::new();
    st.set_raw_text("Alice\nBob\n\nCarol");
    assert_eq!(
        st.names(),
        vec!["Alice".to_string(), "Bob".to_string(), "".to_string(), "Carol".to_string()]
    );
}

#[test]
fn names_trim_the_whole_blob_not_single_lines() {
    let mut st = RotationState::new();
    st.set_raw_text("Alice\nBob  \n");
    // Trailing whitespace of the whole block goes; spaces inside lines stay.
    assert_eq!(st.names(), vec!["Alice".to_string(), "Bob".to_string()]);
    st.set_raw_text("Alice\n  Bob");
    assert_eq!(st.names(), vec!["Alice".to_string(), "  Bob".to_string()]);
}

#[test]
fn whitespace_only_text_means_no_names() {
    let mut st = RotationState::new();
    st.set_raw_text("   \n\t\n  ");
    assert_eq!(st.names(), Vec::<String>::new());
    assert_eq!(st.url_token(), "");
}

#[test]
fn url_token_round_trips_through_from_query() {
    let mut st = RotationState::new();
    st.set_raw_text("Amy\nBob\nCharlie");
    let token = st.url_token();
    let st2 = RotationState::from_query(&token);
    assert_eq!(st2.names(), st.names());
    assert_eq!(st2.raw, "Amy\nBob\nCharlie");
}

#[test]
fn from_query_with_garbage_starts_empty() {
    let st = RotationState::from_query("not-a-%token");
    assert_eq!(st.raw, "");
    assert_eq!(st.names(), Vec::<String>::new());
}

#[test]
fn from_query_with_empty_query_starts_empty() {
    let st = RotationState::from_query("");
    assert_eq!(st.raw, "");
}

#[test]
fn clear_then_decode_yields_empty_list() {
    let mut st = RotationState::new();
    st.set_raw_text("Alice\nBob");
    st.clear();
    let token = st.url_token();
    assert_eq!(token, "");
    assert_eq!(decode(&token).unwrap(), Vec::<String>::new());
}

#[test]
fn shuffle_keeps_the_names_and_changes_the_order() {
    let mut st = RotationState::new();
    st.set_raw_text("Alice\nBob\nCarol\nDan\nErin");
    let before = st.names();
    let raw_before = st.raw.clone();
    st.shuffle();
    let after = st.names();
    assert_eq!(sorted(before), sorted(after.clone()));
    // Five distinct names: the order is guaranteed to change.
    assert_ne!(st.raw, raw_before);
    // And the URL still carries exactly the shuffled list.
    let st2 = RotationState::from_query(&st.url_token());
    assert_eq!(st2.names(), after);
}

#[test]
fn shuffle_of_identical_entries_is_a_no_op() {
    let mut st = RotationState::new();
    st.set_raw_text("same\nsame\nsame");
    st.shuffle();
    assert_eq!(st.raw, "same\nsame\nsame");
}

#[test]
fn shuffle_of_single_name_is_a_no_op() {
    let mut st = RotationState::new();
    st.set_raw_text("solo");
    st.shuffle();
    assert_eq!(st.raw, "solo");
}

#[test]
fn shuffle_of_two_distinct_names_swaps_them() {
    let mut st = RotationState::new();
    st.set_raw_text("Amy\nBob");
    st.shuffle();
    assert_eq!(st.raw, "Bob\nAmy");
}
