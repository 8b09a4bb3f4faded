use house_automation::curve::{CircadianCurve, CurveAnchor, CurvePoint, TimeOfDay};
use house_automation::double::Double;
use house_automation::state::{
    AutomationSnapshot, AutomationSnapshotParts, AutomationState, ControlId, ControlSnapshot,
    ControlState, ConvergenceDuration, CurveMode, CurveToggleOutcome, DailyResetOutcome, LocalDate,
    MonotonicTime, Scope, ScopeId, ScopeMembership, ScopeState, StateError, UserOffsets,
};
use house_automation::value::{Brightness, KelvinRange};

fn d(value: f64) -> Double {
    Double::from_bits(value.to_bits())
}

fn f(value: Double) -> f64 {
    f64::from_bits(value.to_bits())
}

fn time(hour: u8) -> TimeOfDay {
    TimeOfDay::from_hms(hour, 0, 0).unwrap()
}

fn point(brightness: Double, kelvin: Double) -> CurvePoint {
    let anchor = |hour| {
        CurveAnchor::new(time(hour), Brightness::new(brightness).unwrap(), kelvin).unwrap()
    };
    CircadianCurve::new(vec![anchor(0), anchor(12)])
        .unwrap()
        .point(time(0))
        .unwrap()
}

fn room(name: &str) -> Scope {
    Scope::Room(ScopeId::new(name.to_owned()).unwrap())
}

fn configured_state() -> AutomationState {
    let mut state = AutomationState::default();
    state
        .insert_scope(room("kitchen"), ScopeState::new(true))
        .unwrap();
    for id in ["remote_a", "remote_b"] {
        state
            .insert_control(
                ControlId::new(id.to_owned()).unwrap(),
                ControlState::new(room("kitchen")),
            )
            .unwrap();
    }
    state
}

#[test]
fn identifiers_enforce_safe_topic_and_log_grammar_in_constructors_and_serde() {
    let too_long = "a".repeat(65);
    for invalid in [
        "",
        "_bad",
        "bad_",
        "-bad",
        "bad-",
        "bad/name",
        "bad+name",
        "bad#name",
        "bad name",
        "Bad",
        "bad\nname",
        too_long.as_str(),
    ] {
        assert!(ScopeId::new(invalid.to_owned()).is_err(), "accepted {invalid:?}");
        assert!(ControlId::new(invalid.to_owned()).is_err(), "accepted {invalid:?}");
    }

    let max_length = "a".repeat(64);
    for valid in ["a", "room-1", "remote_2", max_length.as_str()] {
        assert_eq!(ScopeId::new(valid.to_owned()).unwrap().as_str(), valid);
        assert_eq!(ControlId::new(valid.to_owned()).unwrap().as_str(), valid);
    }
}

#[test]
fn scope_membership_matches_configured_room_floor_and_house() {
    let membership = ScopeMembership::new(
        ScopeId::new("kitchen".to_owned()).unwrap(),
        ScopeId::new("ground".to_owned()).unwrap(),
    );
    assert!(membership.is_in(&room("kitchen")));
    assert!(membership.is_in(&Scope::Floor(ScopeId::new("ground".to_owned()).unwrap())));
    assert!(membership.is_in(&Scope::House));
    assert!(!membership.is_in(&room("bedroom")));
    assert!(!membership.is_in(&Scope::Floor(ScopeId::new("upper".to_owned()).unwrap())));
}

#[test]
fn local_dates_validate_gregorian_century_rules() {
    assert!(LocalDate::new(1900, 2, 29).is_err());
    assert!(LocalDate::new(2000, 2, 29).is_ok());
    assert!(LocalDate::new(2024, 2, 29).is_ok());
    assert!(LocalDate::new(2026, 2, 29).is_err());
    assert!(LocalDate::new(2026, 0, 1).is_err());
    assert!(LocalDate::new(2026, 13, 1).is_err());
    assert!(LocalDate::new(2026, 4, 31).is_err());
}

#[test]
fn offsets_and_convergence_inputs_reject_non_finite_values() {
    for invalid in [d(f64::NAN), d(f64::NEG_INFINITY), d(f64::INFINITY)] {
        assert!(UserOffsets::new(invalid, d(0.0)).is_err());
        assert!(UserOffsets::new(d(0.0), invalid).is_err());
        assert!(ConvergenceDuration::from_seconds(invalid).is_err());
        assert!(MonotonicTime::from_seconds(invalid).is_err());
    }
    assert!(ConvergenceDuration::from_seconds(d(0.0)).is_err());
    assert!(ConvergenceDuration::from_seconds(d(-1.0)).is_err());
    assert!(MonotonicTime::from_seconds(d(-1.0)).is_err());
}

#[test]
fn controls_target_one_shared_scope_state_without_divergence() {
    let mut state = configured_state();
    let remote_a = ControlId::new("remote_a".to_owned()).unwrap();
    let remote_b = ControlId::new("remote_b".to_owned()).unwrap();
    let kitchen = room("kitchen");

    state
        .adjust_control_offsets(&remote_a, d(0.15), d(-300.0))
        .unwrap();
    assert!(!state.toggle_control_power(&remote_b).unwrap());
    let target = state
        .compose_control_target(
            &remote_b,
            point(d(0.45), d(2_700.0)),
            MonotonicTime::from_seconds(d(1.0)).unwrap(),
            KelvinRange::new(d(2_200.0), d(6_500.0)).unwrap(),
        )
        .unwrap();

    assert!(!target.on);
    assert!((f(target.brightness.unwrap().get()) - 0.6).abs() < 1e-12);
    assert_eq!(target.color_temperature.unwrap().get(), d(2_400.0));
    assert_eq!(
        state.scope_state(&kitchen).unwrap().offsets(),
        UserOffsets::new(d(0.15), d(-300.0)).unwrap()
    );
}

#[test]
fn encapsulated_actions_query_iterate_select_and_reject_unknown_ids() {
    let mut state = configured_state();
    let kitchen = room("kitchen");
    let bedroom = room("bedroom");
    let remote_a = ControlId::new("remote_a".to_owned()).unwrap();
    let missing = ControlId::new("missing".to_owned()).unwrap();

    assert_eq!(state.scope_states().len(), 1);
    assert_eq!(state.control_states().len(), 2);
    assert!(state.scope_state(&kitchen).unwrap().is_on());
    assert_eq!(
        state.control_state(&remote_a).unwrap().selected_scope(),
        &kitchen
    );
    assert_eq!(
        state.scope_state(&bedroom),
        Err(StateError::UnknownScope(bedroom.clone()))
    );
    assert_eq!(
        state.control_state(&missing),
        Err(StateError::UnknownControl(missing.clone()))
    );
    assert_eq!(
        state.insert_control(
            ControlId::new("orphan".to_owned()).unwrap(),
            ControlState::new(bedroom.clone())
        ),
        Err(StateError::UnknownScope(bedroom.clone()))
    );
    assert_eq!(
        state.select_control_scope(&remote_a, bedroom.clone()),
        Err(StateError::UnknownScope(bedroom.clone()))
    );
    assert_eq!(
        state.set_scope_power(&bedroom, false),
        Err(StateError::UnknownScope(bedroom))
    );
    assert_eq!(
        state.toggle_control_power(&missing),
        Err(StateError::UnknownControl(missing))
    );
}

#[test]
fn selection_power_and_offset_apis_update_scope_state() {
    let mut state = configured_state();
    let bedroom = room("bedroom");
    let remote_a = ControlId::new("remote_a".to_owned()).unwrap();
    state
        .insert_scope(bedroom.clone(), ScopeState::new(false))
        .unwrap();
    state
        .select_control_scope(&remote_a, bedroom.clone())
        .unwrap();
    state.set_scope_power(&bedroom, true).unwrap();
    state
        .set_scope_offsets(&bedroom, UserOffsets::new(d(0.1), d(200.0)).unwrap())
        .unwrap();
    state.adjust_scope_offsets(&bedroom, d(-0.05), d(50.0)).unwrap();

    assert_eq!(
        state.control_state(&remote_a).unwrap().selected_scope(),
        &bedroom
    );
    assert!(state.scope_state(&bedroom).unwrap().is_on());
    let offsets = state.scope_state(&bedroom).unwrap().offsets();
    assert!((f(offsets.brightness()) - 0.05).abs() < 1e-12);
    assert_eq!(offsets.color_temperature_kelvin(), d(250.0));
}

#[test]
fn freeze_captures_unoffset_baseline_and_later_offset_changes_compose() {
    let mut state = configured_state();
    let kitchen = room("kitchen");
    let duration = ConvergenceDuration::from_seconds(d(20.0)).unwrap();
    assert_eq!(
        state
            .toggle_scope_curve(
                &kitchen,
                point(d(0.45), d(2_700.0)),
                MonotonicTime::from_seconds(d(10.0)).unwrap(),
                duration,
            )
            .unwrap(),
        CurveToggleOutcome::Frozen
    );
    state
        .set_scope_offsets(&kitchen, UserOffsets::new(d(0.15), d(-300.0)).unwrap())
        .unwrap();
    let target = state
        .compose_scope_target(
            &kitchen,
            point(d(0.2), d(4_000.0)),
            MonotonicTime::from_seconds(d(100.0)).unwrap(),
            KelvinRange::new(d(2_200.0), d(6_500.0)).unwrap(),
        )
        .unwrap();
    assert!((f(target.brightness.unwrap().get()) - 0.6).abs() < 1e-12);
    assert_eq!(target.color_temperature.unwrap().get(), d(2_400.0));
}

#[test]
fn frozen_baseline_stays_constant_as_time_and_live_curve_advance() {
    let mut state = configured_state();
    let kitchen = room("kitchen");
    state
        .toggle_scope_curve(
            &kitchen,
            point(d(0.45), d(2_700.0)),
            MonotonicTime::from_seconds(d(1.0)).unwrap(),
            ConvergenceDuration::from_seconds(d(20.0)).unwrap(),
        )
        .unwrap();
    let range = KelvinRange::new(d(2_200.0), d(6_500.0)).unwrap();
    let first = state
        .compose_scope_target(
            &kitchen,
            point(d(0.2), d(4_000.0)),
            MonotonicTime::from_seconds(d(100.0)).unwrap(),
            range,
        )
        .unwrap();
    let later = state
        .compose_scope_target(
            &kitchen,
            point(d(0.9), d(6_000.0)),
            MonotonicTime::from_seconds(d(10_000.0)).unwrap(),
            range,
        )
        .unwrap();
    assert_eq!(first, later);
}

#[test]
fn unfreeze_converges_then_follows_live_curve_and_returns_outcome() {
    let mut state = configured_state();
    let kitchen = room("kitchen");
    let duration = ConvergenceDuration::from_seconds(d(10.0)).unwrap();
    state
        .toggle_scope_curve(
            &kitchen,
            point(d(0.4), d(2_700.0)),
            MonotonicTime::from_seconds(d(10.0)).unwrap(),
            duration,
        )
        .unwrap();
    assert_eq!(
        state
            .toggle_control_curve(
                &ControlId::new("remote_a".to_owned()).unwrap(),
                point(d(0.8), d(5_000.0)),
                MonotonicTime::from_seconds(d(10.0)).unwrap(),
                duration,
            )
            .unwrap(),
        CurveToggleOutcome::Unfrozen
    );
    let halfway = state
        .compose_scope_target(
            &kitchen,
            point(d(0.8), d(5_000.0)),
            MonotonicTime::from_seconds(d(15.0)).unwrap(),
            KelvinRange::new(d(2_000.0), d(6_500.0)).unwrap(),
        )
        .unwrap();
    assert!((f(halfway.brightness.unwrap().get()) - 0.6).abs() < 1e-12);
    assert_eq!(halfway.color_temperature.unwrap().get(), d(3_850.0));
    let followed = state
        .compose_scope_target(
            &kitchen,
            point(d(0.7), d(4_500.0)),
            MonotonicTime::from_seconds(d(20.0)).unwrap(),
            KelvinRange::new(d(2_000.0), d(6_500.0)).unwrap(),
        )
        .unwrap();
    assert_eq!(followed.brightness.unwrap().get(), d(0.7));
    assert_eq!(
        state.scope_state(&kitchen).unwrap().mode(),
        &CurveMode::Follow
    );
}

#[test]
fn toggling_during_convergence_freezes_current_unoffset_baseline_without_jump() {
    let mut state = configured_state();
    let kitchen = room("kitchen");
    let duration = ConvergenceDuration::from_seconds(d(10.0)).unwrap();
    state
        .set_scope_offsets(&kitchen, UserOffsets::new(d(0.1), d(100.0)).unwrap())
        .unwrap();
    state
        .toggle_scope_curve(
            &kitchen,
            point(d(0.4), d(2_700.0)),
            MonotonicTime::from_seconds(d(10.0)).unwrap(),
            duration,
        )
        .unwrap();
    state
        .toggle_scope_curve(
            &kitchen,
            point(d(0.8), d(5_000.0)),
            MonotonicTime::from_seconds(d(10.0)).unwrap(),
            duration,
        )
        .unwrap();
    assert_eq!(
        state
            .toggle_scope_curve(
                &kitchen,
                point(d(0.8), d(5_000.0)),
                MonotonicTime::from_seconds(d(15.0)).unwrap(),
                duration,
            )
            .unwrap(),
        CurveToggleOutcome::Frozen
    );
    let target = state
        .compose_scope_target(
            &kitchen,
            point(d(0.1), d(2_200.0)),
            MonotonicTime::from_seconds(d(99.0)).unwrap(),
            KelvinRange::new(d(2_000.0), d(6_500.0)).unwrap(),
        )
        .unwrap();
    assert!((f(target.brightness.unwrap().get()) - 0.7).abs() < 1e-12);
    assert_eq!(target.color_temperature.unwrap().get(), d(3_950.0));
}

#[test]
fn composition_clamps_offsets_and_clock_regression_is_explicit() {
    let mut state = configured_state();
    let kitchen = room("kitchen");
    state
        .set_scope_offsets(&kitchen, UserOffsets::new(d(0.8), d(-2_000.0)).unwrap())
        .unwrap();
    let target = state
        .compose_scope_target(
            &kitchen,
            point(d(0.5), d(3_000.0)),
            MonotonicTime::from_seconds(d(0.0)).unwrap(),
            KelvinRange::new(d(2_200.0), d(6_500.0)).unwrap(),
        )
        .unwrap();
    assert_eq!(target.brightness.unwrap().get(), d(1.0));
    assert_eq!(target.color_temperature.unwrap().get(), d(2_200.0));

    let duration = ConvergenceDuration::from_seconds(d(10.0)).unwrap();
    state
        .toggle_scope_curve(
            &kitchen,
            point(d(0.4), d(2_700.0)),
            MonotonicTime::from_seconds(d(10.0)).unwrap(),
            duration,
        )
        .unwrap();
    state
        .toggle_scope_curve(
            &kitchen,
            point(d(0.8), d(5_000.0)),
            MonotonicTime::from_seconds(d(10.0)).unwrap(),
            duration,
        )
        .unwrap();
    assert_eq!(
        state.compose_scope_target(
            &kitchen,
            point(d(0.8), d(5_000.0)),
            MonotonicTime::from_seconds(d(9.0)).unwrap(),
            KelvinRange::new(d(2_000.0), d(6_500.0)).unwrap(),
        ),
        Err(StateError::MonotonicClockRegressed)
    );
}

#[test]
fn nightly_reset_unfreezes_every_scope_without_restarting_convergence() {
    let mut state = AutomationState::default();
    let kitchen = room("kitchen");
    let bedroom = room("bedroom");
    let floor = Scope::Floor(ScopeId::new("ground".to_owned()).unwrap());
    let office = room("office");
    for (scope, on) in [
        (kitchen.clone(), false),
        (bedroom.clone(), true),
        (floor.clone(), true),
        (office.clone(), true),
    ] {
        state.insert_scope(scope, ScopeState::new(on)).unwrap();
    }
    let duration = ConvergenceDuration::from_seconds(d(20.0)).unwrap();
    for scope in [&kitchen, &bedroom, &office] {
        state
            .toggle_scope_curve(
                scope,
                point(d(0.4), d(2_700.0)),
                MonotonicTime::from_seconds(d(10.0)).unwrap(),
                duration,
            )
            .unwrap();
    }
    state
        .toggle_scope_curve(
            &office,
            point(d(0.8), d(5_000.0)),
            MonotonicTime::from_seconds(d(10.0)).unwrap(),
            duration,
        )
        .unwrap();
    let office_before = *state.scope_state(&office).unwrap().mode();
    state
        .set_scope_offsets(&kitchen, UserOffsets::new(d(0.1), d(100.0)).unwrap())
        .unwrap();

    let date = LocalDate::new(2026, 9, 13).unwrap();
    assert_eq!(
        state
            .reset_circadian_if_due(
                date,
                TimeOfDay::from_hms(4, 0, 0).unwrap(),
                TimeOfDay::from_hms(4, 0, 0).unwrap(),
                MonotonicTime::from_seconds(d(50.0)).unwrap(),
                duration,
            )
            .unwrap(),
        DailyResetOutcome::Unfroze
    );
    for scope in [&kitchen, &bedroom] {
        assert!(matches!(
            state.scope_state(scope).unwrap().mode(),
            CurveMode::Converging { .. }
        ));
    }
    assert_eq!(
        state.scope_state(&floor).unwrap().mode(),
        &CurveMode::Follow
    );
    assert_eq!(state.scope_state(&office).unwrap().mode(), &office_before);
    assert!(!state.scope_state(&kitchen).unwrap().is_on());
    assert_eq!(
        state.scope_state(&kitchen).unwrap().offsets(),
        UserOffsets::new(d(0.1), d(100.0)).unwrap()
    );
    assert_eq!(state.last_reset_date(), Some(date));
}

#[test]
fn reset_schedule_is_idempotent_and_records_due_empty_state() {
    let date = LocalDate::new(2026, 9, 13).unwrap();
    let reset_time = TimeOfDay::from_hms(4, 0, 0).unwrap();
    let duration = ConvergenceDuration::from_seconds(d(20.0)).unwrap();
    let mut state = AutomationState::default();

    assert_eq!(
        state
            .reset_circadian_if_due(
                date,
                TimeOfDay::from_hms(3, 59, 59).unwrap(),
                reset_time,
                MonotonicTime::from_seconds(d(10.0)).unwrap(),
                duration,
            )
            .unwrap(),
        DailyResetOutcome::MarkerInitialized
    );
    assert_eq!(
        state.last_reset_date(),
        Some(LocalDate::new(2026, 9, 12).unwrap())
    );
    assert_eq!(
        state
            .reset_circadian_if_due(
                date,
                TimeOfDay::from_hms(10, 0, 0).unwrap(),
                reset_time,
                MonotonicTime::from_seconds(d(20.0)).unwrap(),
                duration,
            )
            .unwrap(),
        DailyResetOutcome::Unfroze
    );
    let after = state.clone();
    assert_eq!(
        state
            .reset_circadian_if_due(
                date,
                TimeOfDay::from_hms(23, 0, 0).unwrap(),
                reset_time,
                MonotonicTime::from_seconds(d(30.0)).unwrap(),
                duration,
            )
            .unwrap(),
        DailyResetOutcome::NotDue
    );
    assert_eq!(state, after);
    assert_eq!(state.last_reset_date(), Some(date));
}

#[test]
fn startup_catches_latest_missed_reset_before_and_after_four() {
    let today = LocalDate::new(2026, 9, 13).unwrap();
    let reset_time = TimeOfDay::from_hms(4, 0, 0).unwrap();
    let now = MonotonicTime::from_seconds(d(1.0)).unwrap();
    let duration = ConvergenceDuration::from_seconds(d(20.0)).unwrap();
    let mut after_four =
        AutomationState::with_last_reset_date(LocalDate::new(2026, 9, 12).unwrap());
    assert_eq!(
        after_four
            .reset_circadian_if_due(today, time(12), reset_time, now, duration)
            .unwrap(),
        DailyResetOutcome::Unfroze
    );
    assert_eq!(after_four.last_reset_date(), Some(today));

    let mut missed_yesterday =
        AutomationState::with_last_reset_date(LocalDate::new(2026, 9, 11).unwrap());
    assert_eq!(
        missed_yesterday
            .reset_circadian_if_due(today, time(3), reset_time, now, duration)
            .unwrap(),
        DailyResetOutcome::Unfroze
    );
    assert_eq!(
        missed_yesterday.last_reset_date(),
        Some(LocalDate::new(2026, 9, 12).unwrap())
    );
    let mut completed_yesterday =
        AutomationState::with_last_reset_date(LocalDate::new(2026, 9, 12).unwrap());
    assert_eq!(
        completed_yesterday
            .reset_circadian_if_due(today, time(3), reset_time, now, duration)
            .unwrap(),
        DailyResetOutcome::NotDue
    );
}

#[test]
fn missed_reset_previous_day_handles_month_leap_century_and_year_boundaries() {
    let cases = [
        ((2024, 2, 28), (2024, 3, 1), (2024, 2, 29)),
        ((1900, 2, 27), (1900, 3, 1), (1900, 2, 28)),
        ((1999, 12, 30), (2000, 1, 1), (1999, 12, 31)),
    ];
    for (last, today, expected) in cases {
        let mut state = AutomationState::with_last_reset_date(
            LocalDate::new(last.0, last.1, last.2).unwrap(),
        );
        assert_eq!(
            state
                .reset_circadian_if_due(
                    LocalDate::new(today.0, today.1, today.2).unwrap(),
                    time(3),
                    time(4),
                    MonotonicTime::from_seconds(d(1.0)).unwrap(),
                    ConvergenceDuration::from_seconds(d(20.0)).unwrap(),
                )
                .unwrap(),
            DailyResetOutcome::Unfroze
        );
        assert_eq!(
            state.last_reset_date(),
            Some(LocalDate::new(expected.0, expected.1, expected.2).unwrap())
        );
    }
}

#[test]
fn fresh_marker_persists_before_commands_and_stale_freeze_resets_once() {
    let kitchen = room("kitchen");
    let duration = ConvergenceDuration::from_seconds(d(20.0)).unwrap();
    let mut state = configured_state();

    let initialized = state
        .reset_circadian_if_due(
            LocalDate::new(2026, 9, 13).unwrap(),
            time(1),
            time(4),
            MonotonicTime::from_seconds(d(1.0)).unwrap(),
            duration,
        )
        .unwrap();
    assert_eq!(initialized, DailyResetOutcome::MarkerInitialized);
    assert!(initialized.durable_state_changed());
    assert_eq!(
        state.last_reset_date(),
        Some(LocalDate::new(2026, 9, 12).unwrap())
    );
    assert_eq!(
        state.scope_state(&kitchen).unwrap().mode(),
        &CurveMode::Follow
    );

    state
        .toggle_scope_curve(
            &kitchen,
            point(d(0.4), d(2_700.0)),
            MonotonicTime::from_seconds(d(2.0)).unwrap(),
            duration,
        )
        .unwrap();
    let mut restored = AutomationState::restore(state.snapshot()).unwrap();

    let reset = restored
        .reset_circadian_if_due(
            LocalDate::new(2026, 9, 15).unwrap(),
            time(3),
            time(4),
            MonotonicTime::from_seconds(d(0.0)).unwrap(),
            duration,
        )
        .unwrap();
    assert_eq!(reset, DailyResetOutcome::Unfroze);
    assert!(reset.durable_state_changed());
    assert!(matches!(
        restored.scope_state(&kitchen).unwrap().mode(),
        CurveMode::Converging { .. }
    ));
    let after_first = restored.clone();
    assert_eq!(
        restored
            .reset_circadian_if_due(
                LocalDate::new(2026, 9, 15).unwrap(),
                time(3),
                time(4),
                MonotonicTime::from_seconds(d(1.0)).unwrap(),
                duration,
            )
            .unwrap(),
        DailyResetOutcome::NotDue
    );
    assert!(!DailyResetOutcome::NotDue.durable_state_changed());
    assert_eq!(restored, after_first);
}

#[test]
fn frozen_snapshot_round_trip_remains_frozen() {
    let mut state = configured_state();
    let kitchen = room("kitchen");
    state
        .toggle_scope_curve(
            &kitchen,
            point(d(0.4), d(2_700.0)),
            MonotonicTime::from_seconds(d(10.0)).unwrap(),
            ConvergenceDuration::from_seconds(d(20.0)).unwrap(),
        )
        .unwrap();
    let restored = AutomationState::restore(state.snapshot()).unwrap();
    assert!(matches!(
        restored.scope_state(&kitchen).unwrap().mode(),
        CurveMode::Frozen { .. }
    ));
    assert_eq!(restored.control_states().len(), 2);
}

#[test]
fn converging_snapshot_restores_follow_for_new_monotonic_epoch() {
    let mut state = configured_state();
    let kitchen = room("kitchen");
    let duration = ConvergenceDuration::from_seconds(d(20.0)).unwrap();
    for _ in 0..2 {
        state
            .toggle_scope_curve(
                &kitchen,
                point(d(0.4), d(2_700.0)),
                MonotonicTime::from_seconds(d(100.0)).unwrap(),
                duration,
            )
            .unwrap();
    }
    let mut restored = AutomationState::restore(state.snapshot()).unwrap();
    assert_eq!(
        restored.scope_state(&kitchen).unwrap().mode(),
        &CurveMode::Follow
    );
    let target = restored
        .compose_scope_target(
            &kitchen,
            point(d(0.7), d(4_500.0)),
            MonotonicTime::from_seconds(d(0.0)).unwrap(),
            KelvinRange::new(d(2_000.0), d(6_500.0)).unwrap(),
        )
        .unwrap();
    assert_eq!(target.brightness.unwrap().get(), d(0.7));
}

#[test]
fn restore_rejects_control_selection_for_unknown_scope() {
    let snapshot = AutomationSnapshot::from_parts(AutomationSnapshotParts {
        scopes: Vec::new(),
        controls: vec![ControlSnapshot {
            id: ControlId::new("remote_a".to_owned()).unwrap(),
            selected_scope: room("missing"),
        }],
        last_reset_date: None,
    });
    assert_eq!(
        AutomationState::restore(snapshot),
        Err(StateError::UnknownScope(room("missing")))
    );
}

#[test]
fn a_restored_state_gives_the_snapshot_it_came_from() {
    let mut state = configured_state();
    let kitchen = room("kitchen");
    state
        .set_scope_offsets(&kitchen, UserOffsets::new(d(0.1), d(-100.0)).unwrap())
        .unwrap();
    let duration = ConvergenceDuration::from_seconds(d(20.0)).unwrap();
    for _ in 0..3 {
        let restored = AutomationState::restore(state.snapshot()).unwrap();
        assert_eq!(restored.snapshot(), state.snapshot());
        state
            .toggle_scope_curve(
                &kitchen,
                point(d(0.4), d(2_700.0)),
                MonotonicTime::from_seconds(d(10.0)).unwrap(),
                duration,
            )
            .unwrap();
    }
}

#[test]
fn freezing_leaves_the_target_where_it_was() {
    let mut state = configured_state();
    let kitchen = room("kitchen");
    let now = MonotonicTime::from_seconds(d(10.0)).unwrap();
    let live = point(d(0.4), d(2_700.0));
    let range = KelvinRange::new(d(2_000.0), d(6_500.0)).unwrap();
    state
        .set_scope_offsets(&kitchen, UserOffsets::new(d(0.1), d(150.0)).unwrap())
        .unwrap();
    for _ in 0..3 {
        let before = state.compose_scope_target(&kitchen, live, now, range).unwrap();
        state
            .toggle_scope_curve(
                &kitchen,
                live,
                now,
                ConvergenceDuration::from_seconds(d(20.0)).unwrap(),
            )
            .unwrap();
        let after = state.compose_scope_target(&kitchen, live, now, range).unwrap();
        assert_eq!(before, after);
    }
}
