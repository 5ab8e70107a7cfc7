use arora_behavior::subscriber::{subscriber_step, Delivery, SubscriberAction, MAX_CONSECUTIVE_ERRORS};

#[test]
fn failed_receives_back_off_then_end_the_stream() {
    let mut errors = 0;
    let mut delays = Vec::new();
    loop {
        let (next, action) = subscriber_step(errors, &Delivery::Failed);
        errors = next;
        match action {
            SubscriberAction::Retry(ms) => delays.push(ms),
            SubscriberAction::Stop => break,
            other => panic!("unexpected {other:?}"),
        }
    }
    assert_eq!(errors, MAX_CONSECUTIVE_ERRORS);
    assert_eq!(delays, vec![100, 200, 400, 800]);
}

#[test]
fn a_published_message_resets_the_failure_count() {
    let (errors, _) = subscriber_step(0, &Delivery::Failed);
    let (errors, _) = subscriber_step(errors, &Delivery::Failed);
    assert_eq!(errors, 2);
    assert_eq!(subscriber_step(errors, &Delivery::Decoded(vec![])), (0, SubscriberAction::EmitWhole));
}

#[test]
fn routed_fields_that_resolve_land_together() {
    assert_eq!(
        subscriber_step(1, &Delivery::Decoded(vec![true, false, true])),
        (0, SubscriberAction::EmitRoutes(vec![0, 2]))
    );
}

#[test]
fn a_message_with_no_resolved_route_or_that_does_not_decode_is_dropped() {
    assert_eq!(subscriber_step(3, &Delivery::Decoded(vec![false, false])), (3, SubscriberAction::Skip));
    assert_eq!(subscriber_step(2, &Delivery::Undecodable), (2, SubscriberAction::Skip));
}
