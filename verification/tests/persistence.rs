use house_automation::curve::CurvePoint;
use house_automation::double::Double;
use house_automation::persistence::{
    accept_control, accept_format, accept_history, accept_scope, accept_unversioned, assemble,
    scope_key, Migration, PersistenceError, RECORD_FORMAT_VERSION,
};
use house_automation::state::{
    AutomationState, ControlId, ControlState, LocalDate, MonotonicTime, Scope, ScopeId, ScopeState,
};
use house_automation::value::{Brightness, Kelvin};

fn d(value: f64) -> Double {
    Double::from_bits(value.to_bits())
}

fn scope_id(text: &str) -> ScopeId {
    ScopeId::new(text.to_owned()).unwrap()
}

fn known() -> Vec<Migration> {
    vec![
        Migration {
            version: 1,
            name: "initial",
        },
        Migration {
            version: 2,
            name: "later",
        },
    ]
}

fn applied(entries: &[(i64, &str)]) -> Vec<(i64, String)> {
    entries
        .iter()
        .map(|(version, name)| (*version, name.to_string()))
        .collect()
}

fn stored_state() -> AutomationState {
    let mut state = AutomationState::with_last_reset_date(LocalDate::new(2026, 9, 13).unwrap());
    let living = Scope::Room(scope_id("living"));
    state
        .insert_scope(living.clone(), ScopeState::new(true))
        .unwrap();
    state
        .insert_scope(Scope::House, ScopeState::new(false))
        .unwrap();
    state
        .insert_control(
            ControlId::new("remote".to_owned()).unwrap(),
            ControlState::new(living.clone()),
        )
        .unwrap();
    state
        .adjust_scope_offsets(&living, d(0.25), d(-100.0))
        .unwrap();
    state
        .freeze_scope_curve(
            &living,
            CurvePoint {
                brightness: Brightness::new(d(0.5)).unwrap(),
                color_temperature: Kelvin::new(d(2700.0)).unwrap(),
            },
            MonotonicTime::from_seconds(d(1.0)).unwrap(),
        )
        .unwrap();
    state
}

#[test]
fn histories_are_a_beginning_of_the_known_one() {
    assert_eq!(
        accept_history(&known(), &applied(&[(1, "initial")])).ok(),
        Some(1)
    );
    assert_eq!(
        accept_history(&known(), &applied(&[(1, "initial"), (2, "later")])).ok(),
        Some(2)
    );
    assert!(matches!(
        accept_history(&known(), &applied(&[])),
        Err(PersistenceError::UnknownHistory)
    ));
    assert!(matches!(
        accept_history(
            &known(),
            &applied(&[(1, "initial"), (2, "later"), (3, "newest")])
        ),
        Err(PersistenceError::UnknownHistory)
    ));
    let error = accept_history(&known(), &applied(&[(1, "initial"), (2, "other")])).unwrap_err();
    assert_eq!(
        error.message(),
        "invalid migration history: migration history diverges at position 2"
    );
}

#[test]
fn databases_without_history_are_empty() {
    assert!(accept_unversioned(0).is_ok());
    assert!(matches!(
        accept_unversioned(3),
        Err(PersistenceError::UnversionedDatabase)
    ));
}

#[test]
fn records_of_another_format_are_refused() {
    assert!(accept_format("scope", RECORD_FORMAT_VERSION).is_ok());
    assert_eq!(
        accept_format("scope", 2).unwrap_err().message(),
        "unsupported scope record format 2"
    );
}

#[test]
fn scopes_have_keys_of_their_own() {
    assert_eq!(scope_key(&Scope::House), "house");
    assert_eq!(scope_key(&Scope::Room(scope_id("living"))), "room:living");
    assert_eq!(scope_key(&Scope::Floor(scope_id("living"))), "floor:living");
}

#[test]
fn records_stand_under_their_own_key() {
    let snapshot = stored_state().snapshot();
    for scope in &snapshot.scopes {
        assert!(accept_scope(&scope_key(scope.scope()), scope).is_ok());
        assert!(matches!(
            accept_scope("room:kitchen", scope),
            Err(PersistenceError::ScopeKeyMismatch)
        ));
    }
    assert!(accept_control("remote", &snapshot.controls[0]).is_ok());
    assert!(matches!(
        accept_control("other", &snapshot.controls[0]),
        Err(PersistenceError::ControlKeyMismatch)
    ));
}

#[test]
fn what_was_stored_is_loaded_whatever_the_order_of_its_records() {
    let state = stored_state();
    let mut parts = state.snapshot().into_parts();
    parts.scopes.reverse();
    let loaded = assemble(parts.scopes, parts.controls, Some(parts.last_reset_date)).unwrap();
    assert_eq!(loaded.last_reset_date(), state.last_reset_date());
    let before = state.scope_states();
    let after = loaded.scope_states();
    assert_eq!(before.len(), after.len());
    for (left, right) in before.iter().zip(after.iter()) {
        assert_eq!(left.0, right.0);
        assert_eq!(left.1.is_on(), right.1.is_on());
        assert_eq!(left.1.offsets(), right.1.offsets());
        assert_eq!(left.1.mode(), right.1.mode());
    }
    assert_eq!(
        loaded.control_states()[0].1.selected_scope(),
        state.control_states()[0].1.selected_scope()
    );
}

#[test]
fn records_without_metadata_are_refused_unless_there_are_none() {
    assert!(assemble(Vec::new(), Vec::new(), None)
        .unwrap()
        .scope_states()
        .is_empty());
    let parts = stored_state().snapshot().into_parts();
    let error = assemble(parts.scopes, parts.controls, None).err().unwrap();
    assert_eq!(
        error.message(),
        "corrupt persisted state: state metadata is missing"
    );
}

#[test]
fn repeated_records_are_refused() {
    let mut parts = stored_state().snapshot().into_parts();
    let repeated = stored_state().snapshot().into_parts().scopes.remove(0);
    parts.scopes.push(repeated);
    assert!(matches!(
        assemble(parts.scopes, parts.controls, Some(None)),
        Err(PersistenceError::Restore(_))
    ));
}
