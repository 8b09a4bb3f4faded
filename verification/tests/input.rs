use house_automation::curve::{CircadianCurve, CurveAnchor, CurvePoint, TimeOfDay};
use house_automation::double::Double;
use house_automation::input::{
    Action, ActionContext, ActionOutcome, ClickClassifier, ClickWindow, Gesture, InputError,
    Mapping, MappingEntry, RawInputEvent, ScopeTarget, ToggleContext,
};
use house_automation::overlay::{
    AcknowledgementKind, AcknowledgementSettings, OverlayId, OverlaySet,
};
use house_automation::state::{
    AutomationState, ControlId, ControlState, ConvergenceDuration, CurveMode, CurveToggleOutcome,
    MonotonicTime, Scope, ScopeId, ScopeState, StateError, UserOffsets,
};
use house_automation::value::{Brightness, KelvinRange};

fn d(value: f64) -> Double {
    Double::from_bits(value.to_bits())
}

fn f(value: Double) -> f64 {
    f64::from_bits(value.to_bits())
}

fn control(value: &str) -> ControlId {
    ControlId::new(value.to_owned()).unwrap()
}

fn now(seconds: Double) -> MonotonicTime {
    MonotonicTime::from_seconds(seconds).unwrap()
}

fn classifier() -> ClickClassifier {
    ClickClassifier::new(ClickWindow::from_seconds(d(0.35)).unwrap())
}

fn gestures(events: &[(ControlId, Gesture)]) -> Vec<Gesture> {
    events.iter().map(|(_, gesture)| *gesture).collect()
}

#[test]
fn first_short_click_waits_then_flushes_strictly_after_deadline() {
    let remote = control("remote-a");
    let mut classifier = classifier();

    assert!(
        classifier
            .ingest(remote.clone(), RawInputEvent::CenterShort, now(d(10.0)))
            .unwrap()
            .is_empty()
    );
    assert!(classifier.flush_due(now(d(10.35))).unwrap().is_empty());
    assert_eq!(
        classifier.flush_due(now(d(10.350_001))).unwrap(),
        vec![(remote, Gesture::CenterSingle)]
    );
}

#[test]
fn second_short_click_before_or_at_deadline_emits_only_double() {
    for second_at in [d(10.349), d(10.35)] {
        let remote = control("remote-a");
        let mut classifier = classifier();
        classifier
            .ingest(remote.clone(), RawInputEvent::CenterShort, now(d(10.0)))
            .unwrap();

        assert_eq!(
            classifier
                .ingest(remote.clone(), RawInputEvent::CenterShort, now(second_at))
                .unwrap(),
            vec![(remote, Gesture::CenterDouble)]
        );
        assert!(classifier.flush_due(now(d(20.0))).unwrap().is_empty());
    }
}

#[test]
fn click_after_deadline_emits_prior_single_then_starts_new_pending_click() {
    let remote = control("remote-a");
    let mut classifier = classifier();
    classifier
        .ingest(remote.clone(), RawInputEvent::CenterShort, now(d(1.0)))
        .unwrap();

    assert_eq!(
        classifier
            .ingest(remote.clone(), RawInputEvent::CenterShort, now(d(1.5)))
            .unwrap(),
        vec![(remote.clone(), Gesture::CenterSingle)]
    );
    assert_eq!(
        classifier.flush_due(now(d(1.850_001))).unwrap(),
        vec![(remote, Gesture::CenterSingle)]
    );
}

#[test]
fn third_click_after_completed_double_starts_fresh_single_sequence() {
    let remote = control("remote-a");
    let mut classifier = classifier();
    classifier
        .ingest(remote.clone(), RawInputEvent::CenterShort, now(d(1.0)))
        .unwrap();
    classifier
        .ingest(remote.clone(), RawInputEvent::CenterShort, now(d(1.1)))
        .unwrap();

    assert!(
        classifier
            .ingest(remote.clone(), RawInputEvent::CenterShort, now(d(1.2)))
            .unwrap()
            .is_empty()
    );
    assert_eq!(
        classifier.flush_due(now(d(1.551))).unwrap(),
        vec![(remote, Gesture::CenterSingle)]
    );
}

#[test]
fn long_press_and_release_cannot_pair_with_pending_short_click() {
    for (raw, expected) in [
        (RawInputEvent::CenterLong, Gesture::CenterLong),
        (RawInputEvent::CenterRelease, Gesture::CenterRelease),
    ] {
        let remote = control("remote-a");
        let mut classifier = classifier();
        classifier
            .ingest(remote.clone(), RawInputEvent::CenterShort, now(d(1.0)))
            .unwrap();

        assert_eq!(
            gestures(&classifier.ingest(remote, raw, now(d(1.1))).unwrap()),
            vec![Gesture::CenterSingle, expected]
        );
        assert!(classifier.flush_due(now(d(2.0))).unwrap().is_empty());
    }
}

#[test]
fn pending_clicks_are_independent_per_control() {
    let remote_a = control("remote-a");
    let remote_b = control("remote-b");
    let mut classifier = classifier();
    classifier
        .ingest(remote_a.clone(), RawInputEvent::CenterShort, now(d(1.0)))
        .unwrap();
    classifier
        .ingest(remote_b.clone(), RawInputEvent::CenterShort, now(d(1.1)))
        .unwrap();

    assert_eq!(
        classifier
            .ingest(remote_a.clone(), RawInputEvent::CenterShort, now(d(1.2)))
            .unwrap(),
        vec![(remote_a, Gesture::CenterDouble)]
    );
    assert_eq!(
        classifier.flush_due(now(d(1.451))).unwrap(),
        vec![(remote_b, Gesture::CenterSingle)]
    );
}

#[test]
fn directional_events_are_normalized_without_disturbing_pending_click() {
    let remote = control("remote-a");
    let mut classifier = classifier();
    classifier
        .ingest(remote.clone(), RawInputEvent::CenterShort, now(d(1.0)))
        .unwrap();

    for (raw, expected) in [
        (RawInputEvent::Up, Gesture::Up),
        (RawInputEvent::Down, Gesture::Down),
        (RawInputEvent::Left, Gesture::Left),
        (RawInputEvent::Right, Gesture::Right),
    ] {
        assert_eq!(
            classifier.ingest(remote.clone(), raw, now(d(1.1))).unwrap(),
            vec![(remote.clone(), expected)]
        );
    }
    assert_eq!(
        classifier.flush_due(now(d(1.351))).unwrap(),
        vec![(remote, Gesture::CenterSingle)]
    );
}

#[test]
fn monotonic_regression_is_rejected_without_consuming_pending_state() {
    let remote = control("remote-a");
    let mut classifier = classifier();
    classifier
        .ingest(remote.clone(), RawInputEvent::CenterShort, now(d(10.0)))
        .unwrap();

    assert!(classifier.flush_due(now(d(9.0))).is_err());
    assert_eq!(
        classifier.flush_due(now(d(10.351))).unwrap(),
        vec![(remote, Gesture::CenterSingle)]
    );
}

#[test]
fn deadline_overflow_is_rejected_without_consuming_other_pending_clicks() {
    let remote_a = control("remote-a");
    let mut classifier = classifier();
    classifier
        .ingest(remote_a.clone(), RawInputEvent::CenterShort, now(d(1.0)))
        .unwrap();
    let before = classifier.copied();

    assert_eq!(
        classifier.ingest(
            control("remote-b"),
            RawInputEvent::CenterShort,
            now(d(f64::MAX)),
        ),
        Err(InputError::DeadlineOverflow)
    );
    assert_eq!(classifier, before);
    assert_eq!(
        classifier.flush_due(now(d(1.351))).unwrap(),
        vec![(remote_a, Gesture::CenterSingle)]
    );
}

#[test]
fn expired_clicks_emit_by_deadline_before_control_identifier() {
    let earlier_id_sorts_later = control("remote-z");
    let later_id_sorts_earlier = control("remote-a");
    let mut classifier = classifier();
    classifier
        .ingest(
            earlier_id_sorts_later.clone(),
            RawInputEvent::CenterShort,
            now(d(1.0)),
        )
        .unwrap();
    classifier
        .ingest(
            later_id_sorts_earlier.clone(),
            RawInputEvent::CenterShort,
            now(d(1.1)),
        )
        .unwrap();

    assert_eq!(
        classifier.flush_due(now(d(2.0))).unwrap(),
        vec![
            (earlier_id_sorts_later, Gesture::CenterSingle),
            (later_id_sorts_earlier, Gesture::CenterSingle),
        ]
    );
}

#[test]
fn equal_deadlines_emit_by_control_identifier() {
    let remote_z = control("remote-z");
    let remote_a = control("remote-a");
    let mut classifier = classifier();
    classifier
        .ingest(remote_z.clone(), RawInputEvent::CenterShort, now(d(1.0)))
        .unwrap();
    classifier
        .ingest(remote_a.clone(), RawInputEvent::CenterShort, now(d(1.0)))
        .unwrap();

    assert_eq!(
        classifier.flush_due(now(d(2.0))).unwrap(),
        vec![
            (remote_a, Gesture::CenterSingle),
            (remote_z, Gesture::CenterSingle),
        ]
    );
}

#[test]
fn click_window_rejects_zero_negative_and_non_finite_values() {
    for seconds in [d(0.0), d(-0.1), d(f64::NAN), d(f64::NEG_INFINITY), d(f64::INFINITY)] {
        assert!(
            ClickWindow::from_seconds(seconds).is_err(),
            "accepted {seconds:?}"
        );
    }
}
fn id(value: &str) -> ScopeId {
    ScopeId::new(value.to_owned()).unwrap()
}

fn duration() -> ConvergenceDuration {
    ConvergenceDuration::from_seconds(d(10.0)).unwrap()
}

fn live_curve() -> CurvePoint {
    CircadianCurve::new(vec![
        CurveAnchor::new(
            TimeOfDay::from_hms(12, 0, 0).unwrap(),
            Brightness::new(d(0.4)).unwrap(),
            d(3_000.0),
        )
        .unwrap(),
        CurveAnchor::new(
            TimeOfDay::from_hms(18, 0, 0).unwrap(),
            Brightness::new(d(0.8)).unwrap(),
            d(5_000.0),
        )
        .unwrap(),
    ])
    .unwrap()
    .point(TimeOfDay::from_hms(12, 0, 0).unwrap())
    .unwrap()
}

fn state() -> (AutomationState, Scope, Scope, Scope, ControlId, ControlId) {
    let room = Scope::Room(id("kitchen"));
    let floor = Scope::Floor(id("ground"));
    let house = Scope::House;
    let remote_a = control("remote-a");
    let remote_b = control("remote-b");
    let mut state = AutomationState::default();
    for scope in [&room, &floor, &house] {
        state
            .insert_scope(scope.clone(), ScopeState::new(true))
            .unwrap();
    }
    state
        .insert_control(remote_a.clone(), ControlState::new(room.clone()))
        .unwrap();
    state
        .insert_control(remote_b.clone(), ControlState::new(room.clone()))
        .unwrap();
    (state, room, floor, house, remote_a, remote_b)
}

fn context() -> ActionContext<'static> {
    ActionContext::default()
}

fn mapping(entries: Vec<MappingEntry>) -> Mapping {
    Mapping::new(entries).unwrap()
}

#[test]
fn mapping_is_declarative_serializable_and_rejects_duplicate_gestures() {
    let mapping = mapping(vec![
        MappingEntry::new(
            Gesture::Up,
            ScopeTarget::SelectedScope,
            Action::brightness_offset(d(0.1)).unwrap(),
        )
        .unwrap(),
        MappingEntry::new(
            Gesture::CenterSingle,
            ScopeTarget::Explicit(Scope::House),
            Action::TogglePower,
        )
        .unwrap(),
    ]);
    assert_eq!(mapping.entry(Gesture::Up).unwrap().gesture(), Gesture::Up);
    assert!(mapping.entry(Gesture::Down).is_none());

    let duplicate_entries = vec![
        MappingEntry::new(
            Gesture::Up,
            ScopeTarget::SelectedScope,
            Action::brightness_offset(d(0.1)).unwrap(),
        )
        .unwrap(),
        MappingEntry::new(
            Gesture::Up,
            ScopeTarget::SelectedScope,
            Action::brightness_offset(d(0.2)).unwrap(),
        )
        .unwrap(),
    ];
    assert_eq!(
        Mapping::new(duplicate_entries.clone()),
        Err(InputError::DuplicateGesture(Gesture::Up))
    );
    assert_eq!(
        MappingEntry::new(
            Gesture::CenterLong,
            ScopeTarget::SelectedScope,
            Action::SelectScope,
        ),
        Err(InputError::SelectScopeRequiresExplicitTarget)
    );
}

#[test]
fn offset_actions_reject_non_finite_deltas() {
    for delta in [d(f64::NAN), d(f64::NEG_INFINITY), d(f64::INFINITY)] {
        assert!(Action::brightness_offset(delta).is_err());
        assert!(Action::color_temperature_offset(delta).is_err());
    }
}

#[test]
fn offset_addition_overflow_leaves_scope_state_unchanged() {
    let (mut state, room, _, _, remote, _) = state();
    state
        .set_scope_offsets(&room, UserOffsets::new(d(f64::MAX), d(0.0)).unwrap())
        .unwrap();
    let before = state.snapshot();
    let mapping = mapping(vec![
        MappingEntry::new(
            Gesture::Up,
            ScopeTarget::SelectedScope,
            Action::brightness_offset(d(f64::MAX)).unwrap(),
        )
        .unwrap(),
    ]);

    assert_eq!(
        mapping.execute(&remote, Gesture::Up, &mut state, context()),
        Err(InputError::State(StateError::NonFinite))
    );
    assert_eq!(state.snapshot(), before);
}

#[test]
fn selected_scope_actions_mutate_shared_scope_state() {
    let (mut state, room, _, _, remote_a, remote_b) = state();
    let mapping = mapping(vec![
        MappingEntry::new(
            Gesture::Up,
            ScopeTarget::SelectedScope,
            Action::brightness_offset(d(0.1)).unwrap(),
        )
        .unwrap(),
        MappingEntry::new(
            Gesture::Left,
            ScopeTarget::SelectedScope,
            Action::color_temperature_offset(d(-250.0)).unwrap(),
        )
        .unwrap(),
        MappingEntry::new(
            Gesture::Down,
            ScopeTarget::SelectedScope,
            Action::brightness_offset(d(-0.025)).unwrap(),
        )
        .unwrap(),
        MappingEntry::new(
            Gesture::Right,
            ScopeTarget::SelectedScope,
            Action::color_temperature_offset(d(50.0)).unwrap(),
        )
        .unwrap(),
        MappingEntry::new(
            Gesture::CenterSingle,
            ScopeTarget::SelectedScope,
            Action::TogglePower,
        )
        .unwrap(),
    ]);

    mapping
        .execute(&remote_a, Gesture::Up, &mut state, context())
        .unwrap();
    mapping
        .execute(&remote_a, Gesture::Left, &mut state, context())
        .unwrap();
    mapping
        .execute(&remote_a, Gesture::Down, &mut state, context())
        .unwrap();
    mapping
        .execute(&remote_a, Gesture::Right, &mut state, context())
        .unwrap();
    assert!(
        (f(state.scope_state(&room).unwrap().offsets().brightness()) - 0.075).abs() < f64::EPSILON
    );
    assert_eq!(
        state
            .scope_state(&room)
            .unwrap()
            .offsets()
            .color_temperature_kelvin(),
        d(-200.0)
    );
    assert_eq!(
        mapping
            .execute(&remote_b, Gesture::CenterSingle, &mut state, context())
            .unwrap(),
        Some(ActionOutcome::PowerToggled {
            scope: room.clone(),
            on: false,
        })
    );
    assert!(!state.scope_state(&room).unwrap().is_on());
}

#[test]
fn explicit_room_floor_and_house_targets_resolve_independently() {
    let (mut state, room, floor, house, remote, _) = state();
    for (scope, gesture) in [
        (room.clone(), Gesture::Up),
        (floor.clone(), Gesture::Down),
        (house.clone(), Gesture::Right),
    ] {
        let mapping = mapping(vec![
            MappingEntry::new(
                gesture,
                ScopeTarget::Explicit(scope.clone()),
                Action::brightness_offset(d(0.1)).unwrap(),
            )
            .unwrap(),
        ]);
        mapping
            .execute(&remote, gesture, &mut state, context())
            .unwrap();
        assert_eq!(
            state.scope_state(&scope).unwrap().offsets().brightness(),
            d(0.1)
        );
    }
}

#[test]
fn selected_scope_change_survives_snapshot_restore() {
    let (mut state, _, floor, _, remote, _) = state();
    let mapping = mapping(vec![
        MappingEntry::new(
            Gesture::CenterLong,
            ScopeTarget::Explicit(floor.clone()),
            Action::SelectScope,
        )
        .unwrap(),
    ]);

    assert_eq!(
        mapping
            .execute(&remote, Gesture::CenterLong, &mut state, context())
            .unwrap(),
        Some(ActionOutcome::ScopeSelected {
            scope: floor.clone(),
        })
    );
    let restored = AutomationState::restore(state.snapshot()).unwrap();
    assert_eq!(
        restored.control_state(&remote).unwrap().selected_scope(),
        &floor
    );
}

#[test]
fn select_scope_requires_explicit_target() {
    assert_eq!(
        MappingEntry::new(
            Gesture::CenterLong,
            ScopeTarget::SelectedScope,
            Action::SelectScope,
        ),
        Err(InputError::SelectScopeRequiresExplicitTarget)
    );
}

#[test]
fn successful_circadian_toggle_returns_outcome_and_acknowledgement_request() {
    let (mut state, room, _, _, remote, _) = state();
    let settings =
        AcknowledgementSettings::new(OverlayId::new("circadian-ack".to_owned()).unwrap(), d(0.1), d(0.5), 100)
            .unwrap();
    let mapping = mapping(vec![
        MappingEntry::new(
            Gesture::CenterDouble,
            ScopeTarget::SelectedScope,
            Action::ToggleCircadian,
        )
        .unwrap(),
    ]);
    let context = ActionContext::default().with_toggle(
        ToggleContext::new(live_curve(), now(d(10.0)), duration()).with_acknowledgement(&settings),
    );

    let outcome = mapping
        .execute(&remote, Gesture::CenterDouble, &mut state, context)
        .unwrap()
        .unwrap();
    let ActionOutcome::CircadianToggled {
        scope,
        outcome,
        acknowledgement,
    } = outcome
    else {
        panic!("wrong action outcome");
    };
    assert_eq!(scope, room);
    assert_eq!(outcome, CurveToggleOutcome::Frozen);
    let frozen_acknowledgement = acknowledgement.unwrap();
    assert_eq!(frozen_acknowledgement.kind(), AcknowledgementKind::Frozen);

    let unfreeze_context = ActionContext::default().with_toggle(
        ToggleContext::new(live_curve(), now(d(11.0)), duration()).with_acknowledgement(&settings),
    );
    let unfreeze = mapping
        .execute(&remote, Gesture::CenterDouble, &mut state, unfreeze_context)
        .unwrap()
        .unwrap();
    let ActionOutcome::CircadianToggled {
        scope,
        outcome,
        acknowledgement,
    } = unfreeze
    else {
        panic!("wrong action outcome");
    };
    let unfrozen_acknowledgement = acknowledgement.unwrap();
    assert_eq!(scope, room);
    assert_eq!(outcome, CurveToggleOutcome::Unfrozen);
    assert_eq!(
        unfrozen_acknowledgement.kind(),
        AcknowledgementKind::Unfrozen
    );
    assert_ne!(frozen_acknowledgement, unfrozen_acknowledgement);
    assert!(matches!(
        state.scope_state(&room).unwrap().mode(),
        CurveMode::Converging { .. }
    ));
}

#[test]
fn acknowledgement_uses_layers_from_resolved_scope() {
    let (mut state, kitchen, _, _, remote, _) = state();
    let bedroom = Scope::Room(id("bedroom"));
    state
        .insert_scope(bedroom.clone(), ScopeState::new(true))
        .unwrap();
    state
        .set_scope_offsets(&bedroom, UserOffsets::new(d(0.4), d(0.0)).unwrap())
        .unwrap();
    let range = KelvinRange::new(d(2_200.0), d(6_500.0)).unwrap();
    assert_eq!(
        state
            .compose_scope_target(&bedroom, live_curve(), now(d(10.0)), range)
            .unwrap()
            .brightness
            .unwrap()
            .get(),
        d(0.8)
    );
    let settings =
        AcknowledgementSettings::new(OverlayId::new("circadian-ack".to_owned()).unwrap(), d(0.1), d(0.5), 100)
            .unwrap();
    let mapping = mapping(vec![
        MappingEntry::new(
            Gesture::CenterDouble,
            ScopeTarget::Explicit(kitchen.clone()),
            Action::ToggleCircadian,
        )
        .unwrap(),
    ]);
    let context = ActionContext::default().with_toggle(
        ToggleContext::new(live_curve(), now(d(10.0)), duration()).with_acknowledgement(&settings),
    );

    let outcome = mapping
        .execute(&remote, Gesture::CenterDouble, &mut state, context)
        .unwrap()
        .unwrap();
    let ActionOutcome::CircadianToggled {
        acknowledgement: Some(acknowledgement),
        ..
    } = outcome
    else {
        panic!("toggle did not return acknowledgement");
    };
    let kitchen_layers = state
        .compose_scope_layers(&kitchen, live_curve(), now(d(10.0)))
        .unwrap();
    let mut overlays = OverlaySet::new();
    overlays
        .insert_request(acknowledgement.into_overlay(), now(d(10.0)))
        .unwrap();
    let signalled = overlays.compose(kitchen_layers, now(d(10.1)), range).unwrap();
    assert_eq!(signalled.brightness.unwrap().get(), d(0.5));
}

#[test]
fn circadian_toggle_without_toggle_context_fails_without_mutation() {
    let (mut state, room, _, _, remote, _) = state();
    let before = state.snapshot();
    let mapping = mapping(vec![
        MappingEntry::new(
            Gesture::CenterDouble,
            ScopeTarget::SelectedScope,
            Action::ToggleCircadian,
        )
        .unwrap(),
    ]);

    assert_eq!(
        mapping.execute(
            &remote,
            Gesture::CenterDouble,
            &mut state,
            ActionContext::default(),
        ),
        Err(InputError::MissingToggleContext)
    );
    assert_eq!(state.snapshot(), before);
    assert!(matches!(
        state.scope_state(&room).unwrap().mode(),
        CurveMode::Follow
    ));
}

#[test]
fn failed_circadian_toggle_returns_no_outcome_or_acknowledgement_and_does_not_mutate() {
    let (mut state, room, _, _, remote, _) = state();
    state
        .toggle_scope_curve(&room, live_curve(), now(d(10.0)), duration())
        .unwrap();
    state
        .toggle_scope_curve(&room, live_curve(), now(d(20.0)), duration())
        .unwrap();
    let before = *state.scope_state(&room).unwrap().mode();
    state
        .compose_scope_layers(&room, live_curve(), now(d(20.0)))
        .unwrap();
    let settings =
        AcknowledgementSettings::new(OverlayId::new("circadian-ack".to_owned()).unwrap(), d(0.1), d(0.5), 100)
            .unwrap();
    let mapping = mapping(vec![
        MappingEntry::new(
            Gesture::CenterDouble,
            ScopeTarget::SelectedScope,
            Action::ToggleCircadian,
        )
        .unwrap(),
    ]);
    let failed_context = ActionContext::default().with_toggle(
        ToggleContext::new(live_curve(), now(d(19.0)), duration()).with_acknowledgement(&settings),
    );

    assert_eq!(
        mapping.execute(&remote, Gesture::CenterDouble, &mut state, failed_context,),
        Err(InputError::State(StateError::MonotonicClockRegressed))
    );
    assert_eq!(state.scope_state(&room).unwrap().mode(), &before);
}

#[test]
fn unknown_control_and_scope_errors_propagate_without_partial_mutation() {
    let (mut state, room, _, _, remote, _) = state();
    let before = state.snapshot();
    let selected_mapping = mapping(vec![
        MappingEntry::new(
            Gesture::Up,
            ScopeTarget::SelectedScope,
            Action::brightness_offset(d(0.1)).unwrap(),
        )
        .unwrap(),
    ]);
    assert_eq!(
        selected_mapping.execute(&control("missing"), Gesture::Up, &mut state, context()),
        Err(InputError::State(StateError::UnknownControl(control(
            "missing"
        ))))
    );

    let missing_scope = Scope::Room(id("missing"));
    let explicit_mapping = mapping(vec![
        MappingEntry::new(
            Gesture::Up,
            ScopeTarget::Explicit(missing_scope.clone()),
            Action::brightness_offset(d(0.1)).unwrap(),
        )
        .unwrap(),
    ]);
    assert_eq!(
        explicit_mapping.execute(&remote, Gesture::Up, &mut state, context()),
        Err(InputError::State(StateError::UnknownScope(missing_scope)))
    );
    assert_eq!(state.snapshot(), before);
    assert_eq!(
        state.scope_state(&room).unwrap().offsets().brightness(),
        d(0.0)
    );
}

#[test]
fn missing_mapping_is_a_deterministic_no_op() {
    let (mut state, _, _, _, remote, _) = state();
    assert_eq!(
        Mapping::new(Vec::new())
            .unwrap()
            .execute(&remote, Gesture::Up, &mut state, context())
            .unwrap(),
        None
    );
}

#[test]
fn frozen_and_converging_modes_are_distinct_for_test_precondition() {
    let (mut state, room, _, _, _, _) = state();
    state
        .toggle_scope_curve(&room, live_curve(), now(d(10.0)), duration())
        .unwrap();
    assert!(matches!(
        state.scope_state(&room).unwrap().mode(),
        CurveMode::Frozen { .. }
    ));
}
