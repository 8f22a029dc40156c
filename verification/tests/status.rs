use roping_manager::model::{
    event_status_from_label, CoreError, EventStatus, EventStatusLabel,
};

#[test]
fn canonical_labels_map_to_themselves() {
    assert_eq!(event_status_from_label(EventStatusLabel::Active), Ok(EventStatus::Active));
    assert_eq!(event_status_from_label(EventStatusLabel::Upcoming), Ok(EventStatus::Upcoming));
    assert_eq!(event_status_from_label(EventStatusLabel::Completed), Ok(EventStatus::Completed));
    assert_eq!(event_status_from_label(EventStatusLabel::Locked), Ok(EventStatus::Locked));
}

#[test]
fn draft_normalizes_to_upcoming() {
    assert_eq!(event_status_from_label(EventStatusLabel::Draft), Ok(EventStatus::Upcoming));
}

#[test]
fn finalized_and_archived_are_terminal() {
    assert_eq!(event_status_from_label(EventStatusLabel::Finalized), Ok(EventStatus::Completed));
    assert_eq!(event_status_from_label(EventStatusLabel::Archived), Ok(EventStatus::Completed));
}

#[test]
fn unrecognized_label_is_rejected() {
    assert_eq!(
        event_status_from_label(EventStatusLabel::Other),
        Err(CoreError::Validation)
    );
}
