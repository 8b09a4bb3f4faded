//! How the state is kept in a database: versions, keys and completeness of the
//! records.
use crate::message::joined;
use crate::state::{
    AutomationSnapshot, AutomationState, ControlSnapshot, LocalDate, Scope, ScopeSnapshot,
    ScopeState, StateError,
};
use crate::ordered::OrderedKey;
use crate::text;
use vstd::prelude::*;
use vstd::string::*;

verus! {

/// Version of the newest schema.
pub const CURRENT_SCHEMA_VERSION: i64 = 1;

/// Version of the form in which records are written.
pub const RECORD_FORMAT_VERSION: u32 = 1;

/// A step from one schema to the next. Once released it never changes.
#[derive(Debug, Clone, Copy)]
pub struct Migration {
    pub version: i64,
    pub name: &'static str,
}

/// What is wrong with what is stored.
#[derive(Debug)]
pub enum PersistenceError {
    UnversionedDatabase,
    UnknownHistory,
    DivergentHistory { position: usize },
    EmptyHistory,
    UnsupportedRecordFormat { kind: &'static str, version: u32 },
    ScopeKeyMismatch,
    ControlKeyMismatch,
    MissingMetadata,
    JournalMode,
    BackupIntegrity,
    BackupDestinationExists,
    Restore(StateError),
}

impl PersistenceError {
    /// The fault in words.
    pub open spec fn described(self) -> Seq<char> {
        match self {
            PersistenceError::UnversionedDatabase =>
                "invalid migration history: nonempty unversioned database is unsupported"@,
            PersistenceError::UnknownHistory =>
                "invalid migration history: migration history is not a known prefix"@,
            PersistenceError::DivergentHistory { position } =>
                "invalid migration history: migration history diverges at position "@
                    + crate::message::decimal(position as nat),
            PersistenceError::EmptyHistory => "invalid migration history: history is empty"@,
            PersistenceError::UnsupportedRecordFormat { kind, version } => "unsupported "@ + kind@
                + " record format "@ + crate::message::decimal(version as nat),
            PersistenceError::ScopeKeyMismatch =>
                "corrupt persisted state: scope record key does not match payload"@,
            PersistenceError::ControlKeyMismatch =>
                "corrupt persisted state: control record key does not match payload"@,
            PersistenceError::MissingMetadata =>
                "corrupt persisted state: state metadata is missing"@,
            PersistenceError::JournalMode =>
                "corrupt persisted state: SQLite did not enable WAL journal mode"@,
            PersistenceError::BackupIntegrity =>
                "corrupt persisted state: online backup integrity check failed"@,
            PersistenceError::BackupDestinationExists => "backup destination already exists"@,
            PersistenceError::Restore(error) => "restore automation state: "@ + error.described(),
        }
    }

    pub fn message(&self) -> (text: String)
        ensures
            text@ == self.described(),
    {
        match self {
            PersistenceError::UnversionedDatabase => String::from_str(
                "invalid migration history: nonempty unversioned database is unsupported",
            ),
            PersistenceError::UnknownHistory => String::from_str(
                "invalid migration history: migration history is not a known prefix",
            ),
            PersistenceError::DivergentHistory { position } => joined(
                String::from_str(
                    "invalid migration history: migration history diverges at position ",
                ),
                crate::message::digits(*position as u64).as_str(),
            ),
            PersistenceError::EmptyHistory => String::from_str(
                "invalid migration history: history is empty",
            ),
            PersistenceError::UnsupportedRecordFormat { kind, version } => joined(
                joined(joined(String::from_str("unsupported "), kind), " record format "),
                crate::message::digits(*version as u64).as_str(),
            ),
            PersistenceError::ScopeKeyMismatch => String::from_str(
                "corrupt persisted state: scope record key does not match payload",
            ),
            PersistenceError::ControlKeyMismatch => String::from_str(
                "corrupt persisted state: control record key does not match payload",
            ),
            PersistenceError::MissingMetadata => String::from_str(
                "corrupt persisted state: state metadata is missing",
            ),
            PersistenceError::JournalMode => String::from_str(
                "corrupt persisted state: SQLite did not enable WAL journal mode",
            ),
            PersistenceError::BackupIntegrity => String::from_str(
                "corrupt persisted state: online backup integrity check failed",
            ),
            PersistenceError::BackupDestinationExists => String::from_str(
                "backup destination already exists",
            ),
            PersistenceError::Restore(error) => joined(
                String::from_str("restore automation state: "),
                error.message().as_str(),
            ),
        }
    }
}

// Migrations.

/// An applied migration is the known one.
pub open spec fn recognized(known: Migration, applied: (i64, String)) -> bool {
    known.version == applied.0 && known.name@ == applied.1@
}

/// First of the applied migrations, from `i` on, that is not the known one.
pub open spec fn divergence(known: Seq<Migration>, applied: Seq<(i64, String)>, i: int) -> Option<int>
    decreases applied.len() - i,
{
    if i >= applied.len() {
        None
    } else if recognized(known[i], applied[i]) {
        divergence(known, applied, i + 1)
    } else {
        Some(i)
    }
}

/// Tells how many of the known migrations have been applied, where that is the
/// beginning of them.
pub fn accept_history(known: &Vec<Migration>, applied: &Vec<(i64, String)>) -> (result: Result<
    usize,
    PersistenceError,
>)
    ensures
        if applied@.len() == 0 || applied@.len() > known@.len() {
            result matches Err(PersistenceError::UnknownHistory)
        } else {
            match divergence(known@, applied@, 0) {
                Some(i) => result matches Err(PersistenceError::DivergentHistory { position })
                    && position == i + 1,
                None => result matches Ok(count) && count == applied@.len(),
            }
        },
{
    if applied.len() == 0 || applied.len() > known.len() {
        return Err(PersistenceError::UnknownHistory);
    }
    let mut i: usize = 0;
    while i < applied.len()
        invariant
            i <= applied@.len() <= known@.len(),
            divergence(known@, applied@, 0) == divergence(known@, applied@, i as int),
        decreases applied@.len() - i,
    {
        if known[i].version != applied[i].0 || !text::text_equals(
            known[i].name,
            applied[i].1.as_str(),
        ) {
            return Err(PersistenceError::DivergentHistory { position: i + 1 });
        }
        i = i + 1;
    }
    Ok(applied.len())
}

/// Accepts a database without any history: it has to be empty.
pub fn accept_unversioned(user_table_count: i64) -> (result: Result<(), PersistenceError>)
    ensures
        if user_table_count == 0 {
            result is Ok
        } else {
            result matches Err(PersistenceError::UnversionedDatabase)
        },
{
    if user_table_count != 0 {
        return Err(PersistenceError::UnversionedDatabase);
    }
    Ok(())
}

// Records.

/// Accepts the format version of a record.
pub fn accept_format(kind: &'static str, version: u32) -> (result: Result<(), PersistenceError>)
    ensures
        if version == RECORD_FORMAT_VERSION {
            result is Ok
        } else {
            result matches Err(
                PersistenceError::UnsupportedRecordFormat { kind: named, version: found },
            ) && named@ == kind@ && found == version
        },
{
    if version != RECORD_FORMAT_VERSION {
        return Err(PersistenceError::UnsupportedRecordFormat { kind, version });
    }
    Ok(())
}

/// The key under which a scope is stored.
pub open spec fn stored_key(scope: Scope) -> Seq<char> {
    match scope {
        Scope::Room(id) => "room:"@ + id.text@,
        Scope::Floor(id) => "floor:"@ + id.text@,
        Scope::House => "house"@,
    }
}

pub fn scope_key(scope: &Scope) -> (key: String)
    ensures
        key@ == stored_key(*scope),
{
    match scope {
        Scope::Room(id) => joined(String::from_str("room:"), id.as_str()),
        Scope::Floor(id) => joined(String::from_str("floor:"), id.as_str()),
        Scope::House => String::from_str("house"),
    }
}

/// Scopes that are stored under the same key are the same.
pub proof fn keys_tell_scopes_apart(a: Scope, b: Scope)
    requires
        stored_key(a) == stored_key(b),
    ensures
        a.key() == b.key(),
{
    reveal_strlit("room:");
    reveal_strlit("floor:");
    reveal_strlit("house");
    let x = stored_key(a);
    let y = stored_key(b);
    assert(x[0] == y[0]);
    match (a, b) {
        (Scope::Room(i), Scope::Room(j)) => {
            assert(x.skip(5) =~= i.text@);
            assert(y.skip(5) =~= j.text@);
        },
        (Scope::Floor(i), Scope::Floor(j)) => {
            assert(x.skip(6) =~= i.text@);
            assert(y.skip(6) =~= j.text@);
        },
        _ => {},
    }
}

/// Accepts a stored scope under its own key only.
pub fn accept_scope(stored: &str, scope: &ScopeSnapshot) -> (result: Result<(), PersistenceError>)
    ensures
        if stored@ == stored_key(scope.scope) {
            result is Ok
        } else {
            result matches Err(PersistenceError::ScopeKeyMismatch)
        },
{
    if !text::text_equals(stored, scope_key(scope.scope()).as_str()) {
        return Err(PersistenceError::ScopeKeyMismatch);
    }
    Ok(())
}

/// Accepts a stored control under its own name only.
pub fn accept_control(stored: &str, control: &ControlSnapshot) -> (result: Result<
    (),
    PersistenceError,
>)
    ensures
        if stored@ == control.id.text@ {
            result is Ok
        } else {
            result matches Err(PersistenceError::ControlKeyMismatch)
        },
{
    if !text::text_equals(stored, control.id().as_str()) {
        return Err(PersistenceError::ControlKeyMismatch);
    }
    Ok(())
}

/// What the stored records make up; `last_reset_date` is none where the record of
/// it is missing.
pub fn assemble(
    scopes: Vec<ScopeSnapshot>,
    controls: Vec<ControlSnapshot>,
    last_reset_date: Option<Option<LocalDate>>,
) -> (result: Result<AutomationState, PersistenceError>)
    ensures
        match last_reset_date {
            Some(date) => {
                let snapshot = AutomationSnapshot { scopes, controls, last_reset_date: date };
                match result {
                    Ok(state) => AutomationState::restored_from(
                        snapshot,
                        Ok::<AutomationState, StateError>(state),
                    ),
                    Err(PersistenceError::Restore(error)) => AutomationState::restored_from(
                        snapshot,
                        Err::<AutomationState, StateError>(error),
                    ),
                    Err(_) => false,
                }
            },
            None => if scopes@.len() == 0 && controls@.len() == 0 {
                result matches Ok(state) && state.scopes@ == Map::<Seq<u8>, ScopeState>::empty()
                    && state.controls@.is_empty() && state.last_reset_date is None && state.wf()
            } else {
                result matches Err(PersistenceError::MissingMetadata)
            },
        },
{
    match last_reset_date {
        Some(last_reset_date) => {
            let snapshot = AutomationSnapshot { scopes, controls, last_reset_date };
            match AutomationState::restore(snapshot) {
                Ok(state) => Ok(state),
                Err(error) => Err(PersistenceError::Restore(error)),
            }
        },
        None => {
            if scopes.len() == 0 && controls.len() == 0 {
                return Ok(AutomationState::default());
            }
            Err(PersistenceError::MissingMetadata)
        },
    }
}

/// The same records in some order.
pub open spec fn reordered(stored: AutomationSnapshot, loaded: AutomationSnapshot) -> bool {
    &&& loaded.last_reset_date == stored.last_reset_date
    &&& loaded.scopes@.to_multiset() == stored.scopes@.to_multiset()
    &&& loaded.controls@.to_multiset() == stored.controls@.to_multiset()
}

/// Sequences of the same values hold the same, each as often.
proof fn lemma_same_values<T>(a: Seq<T>, b: Seq<T>)
    requires
        a.to_multiset() == b.to_multiset(),
        b.no_duplicates(),
    ensures
        a.no_duplicates(),
        forall|value: T| #[trigger] a.contains(value) <==> b.contains(value),
{
    a.to_multiset_ensures();
    b.to_multiset_ensures();
    b.lemma_multiset_has_no_duplicates();
    a.lemma_multiset_has_no_duplicates_conv();
    assert forall|value: T| #[trigger] a.contains(value) <==> b.contains(value) by {
        assert(a.contains(value) <==> a.to_multiset().count(value) > 0);
        assert(b.contains(value) <==> b.to_multiset().count(value) > 0);
    }
}

/// What was stored is restored from its records, whatever their order; scopes on
/// their way back to the curve then follow it.
pub proof fn load_undoes_save(
    state: AutomationState,
    stored: AutomationSnapshot,
    loaded: AutomationSnapshot,
    result: Result<AutomationState, StateError>,
)
    requires
        state.wf(),
        crate::ordered::ascending(state.scopes.pairs()),
        crate::ordered::ascending(state.controls.pairs()),
        state.stored_as(stored),
        reordered(stored, loaded),
        AutomationState::restored_from(loaded, result),
    ensures
        result is Ok,
        result->Ok_0.last_reset_date == state.last_reset_date,
        result->Ok_0.controls@ == state.controls@,
        result->Ok_0.scopes@ == state.scopes@.map_values(
            |scope: ScopeState|
                ScopeState {
                    on: scope.on,
                    offsets: scope.offsets,
                    mode: scope.mode.persisted().restored(),
                },
        ),
{
    let scopes = stored.scopes@;
    let controls = stored.controls@;
    let pairs = state.scopes.pairs();
    let others = state.controls.pairs();
    assert forall|i: int, j: int| 0 <= i < scopes.len() && 0 <= j < scopes.len() && i != j implies
        (#[trigger] scopes[i]).scope.key() != (#[trigger] scopes[j]).scope.key() by {
        let (a, b) = if i < j {
            (i, j)
        } else {
            (j, i)
        };
        assert(text::before(pairs[a].0.key(), pairs[b].0.key()));
        text::before_irreflexive(pairs[a].0.key());
    }
    assert forall|i: int, j: int|
        0 <= i < controls.len() && 0 <= j < controls.len() && i != j implies (
    #[trigger] controls[i]).id.key() != (#[trigger] controls[j]).id.key() by {
        let (a, b) = if i < j {
            (i, j)
        } else {
            (j, i)
        };
        assert(text::before(others[a].0.key(), others[b].0.key()));
        text::before_irreflexive(others[a].0.key());
    }
    assert(scopes.no_duplicates());
    assert(controls.no_duplicates());
    lemma_same_values(loaded.scopes@, scopes);
    lemma_same_values(loaded.controls@, controls);
    let x = loaded.scopes@;
    let y = loaded.controls@;
    assert forall|i: int| 0 <= i < x.len() implies scopes.contains(#[trigger] x[i]) by {
        assert(x.contains(x[i]));
    }
    assert forall|i: int| 0 <= i < y.len() implies controls.contains(#[trigger] y[i]) by {
        assert(y.contains(y[i]));
    }
    assert forall|i: int, j: int| 0 <= i < j < x.len() implies (#[trigger] x[i]).scope.key() != (
    #[trigger] x[j]).scope.key() by {
        let a = choose|a: int| 0 <= a < scopes.len() && #[trigger] scopes[a] == x[i];
        let b = choose|b: int| 0 <= b < scopes.len() && #[trigger] scopes[b] == x[j];
        assert(x[i] != x[j]);
    }
    assert forall|i: int, j: int| 0 <= i < j < y.len() implies (#[trigger] y[i]).id.key() != (
    #[trigger] y[j]).id.key() by {
        let a = choose|a: int| 0 <= a < controls.len() && #[trigger] controls[a] == y[i];
        let b = choose|b: int| 0 <= b < controls.len() && #[trigger] controls[b] == y[j];
        assert(y[i] != y[j]);
    }
    assert forall|key: Seq<u8>| crate::state::scope_listed(x, x.len() as int, key)
        == #[trigger] state.scopes@.contains_key(key) by {
        if crate::state::scope_listed(x, x.len() as int, key) {
            let i = choose|i: int| 0 <= i < x.len() && (#[trigger] x[i]).scope.key() == key;
            let a = choose|a: int| 0 <= a < scopes.len() && #[trigger] scopes[a] == x[i];
            crate::ordered::pair_is_mapped(pairs, a);
        }
        if crate::ordered::has_key(pairs, key) {
            let a = crate::ordered::index_of(pairs, key);
            assert(scopes.contains(scopes[a]));
            assert(x.contains(scopes[a]));
            let i = choose|i: int| 0 <= i < x.len() && x[i] == scopes[a];
            assert(x[i].scope.key() == key);
        }
    }
    assert forall|key: Seq<u8>| crate::state::control_listed(y, y.len() as int, key)
        == #[trigger] state.controls@.contains_key(key) by {
        if crate::state::control_listed(y, y.len() as int, key) {
            let i = choose|i: int| 0 <= i < y.len() && (#[trigger] y[i]).id.key() == key;
            let a = choose|a: int| 0 <= a < controls.len() && #[trigger] controls[a] == y[i];
            crate::ordered::pair_is_mapped(others, a);
        }
        if crate::ordered::has_key(others, key) {
            let a = crate::ordered::index_of(others, key);
            assert(controls.contains(controls[a]));
            assert(y.contains(controls[a]));
            let i = choose|i: int| 0 <= i < y.len() && y[i] == controls[a];
            assert(y[i].id.key() == key);
        }
    }
    assert forall|i: int| 0 <= i < y.len() implies crate::state::scope_listed(
        x,
        x.len() as int,
        (#[trigger] y[i]).selected_scope.key(),
    ) by {
        let a = choose|a: int| 0 <= a < controls.len() && #[trigger] controls[a] == y[i];
        crate::ordered::pair_is_mapped(others, a);
        assert(state.controls@.contains_key(others[a].0.key()));
        assert(state.scopes@.contains_key(y[i].selected_scope.key()));
    }
    match result {
        Ok(found) => {
            let change = |scope: ScopeState|
                ScopeState {
                    on: scope.on,
                    offsets: scope.offsets,
                    mode: scope.mode.persisted().restored(),
                };
            assert forall|key: Seq<u8>| #[trigger] found.scopes@.contains_key(key) implies
                found.scopes@[key] == change(state.scopes@[key]) by {
                let i = choose|i: int| 0 <= i < x.len() && (#[trigger] x[i]).scope.key() == key;
                let a = choose|a: int| 0 <= a < scopes.len() && #[trigger] scopes[a] == x[i];
                crate::ordered::pair_is_mapped(pairs, a);
            }
            assert(found.scopes@ =~= state.scopes@.map_values(change));
            assert forall|key: Seq<u8>| #[trigger] found.controls@.contains_key(key) implies
                found.controls@[key] == state.controls@[key] by {
                let i = choose|i: int| 0 <= i < y.len() && (#[trigger] y[i]).id.key() == key;
                let a = choose|a: int| 0 <= a < controls.len() && #[trigger] controls[a] == y[i];
                crate::ordered::pair_is_mapped(others, a);
            }
            assert(found.controls@ =~= state.controls@);
        },
        Err(StateError::DuplicateScope(_)) => {
            let i = choose|i: int|
                {
                    &&& 0 <= i < x.len()
                    &&& crate::state::scope_listed(x, i, (#[trigger] x[i]).scope.key())
                };
            let j = choose|j: int| 0 <= j < i && (#[trigger] x[j]).scope.key() == x[i].scope.key();
            assert(x[j].scope.key() != x[i].scope.key());
        },
        Err(StateError::DuplicateControl(_)) => {
            let i = choose|i: int|
                {
                    &&& 0 <= i < y.len()
                    &&& crate::state::control_listed(y, i, (#[trigger] y[i]).id.key())
                };
            let j = choose|j: int| 0 <= j < i && (#[trigger] y[j]).id.key() == y[i].id.key();
            assert(y[j].id.key() != y[i].id.key());
        },
        Err(StateError::UnknownScope(_)) => {
            let i = choose|i: int|
                {
                    &&& 0 <= i < y.len()
                    &&& !crate::state::scope_listed(
                        x,
                        x.len() as int,
                        (#[trigger] y[i]).selected_scope.key(),
                    )
                };
            assert(crate::state::scope_listed(x, x.len() as int, y[i].selected_scope.key()));
        },
        _ => {},
    }
}

} // verus!
