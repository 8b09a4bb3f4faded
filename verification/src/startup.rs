//! How a house starts: what is remembered is fitted to what is configured.
use crate::input::{ClickClassifier, InputError, Mapping, MappingEntry, ScopeTarget};
use crate::ordered::{OrderedKey, SortedMap};
use crate::overlay::{OverlayId, OverlaySet};
use crate::reconcile::{DeviceDefinition, DeviceId, GroupDefinition};
use crate::reconciler::Reconciler;
use crate::runtime::{
    DeviceRuntime, GroupRuntime, HouseEngine, HousePlan, RuntimeError, RuntimeInstant,
    TopologyProblem,
};
use crate::setup::{RawConfig, RuntimeConfigParts};
use crate::solar::SolarAlmanac;
use crate::state::{
    AutomationState, ControlId, ControlState, CurveMode, LocalDate, MonotonicTime, Scope,
    ScopeId, ScopeMembership, ScopeState, StateError, UserOffsets,
};
use crate::topology::{
    ControlConfiguration, CurveConfiguration, DeviceConfiguration, GroupConfiguration,
    ScopeConfiguration,
};
use crate::value::LightTarget;
use std::sync::Arc;
use vstd::prelude::*;
use vstd::string::*;

verus! {

/// The first `n` configured scopes in order, each with its last place.
pub open spec fn scope_pairs(scopes: Seq<ScopeConfiguration>, n: int) -> Seq<(Scope, usize)>
    decreases n,
{
    if n <= 0 {
        Seq::empty()
    } else {
        crate::ordered::with_pair(
            scope_pairs(scopes, n - 1),
            scopes[n - 1].scope,
            (n - 1) as usize,
        )
    }
}

/// The first `n` configured controls in order, each with its last place.
pub open spec fn control_pairs(controls: Seq<ControlConfiguration>, n: int) -> Seq<
    (ControlId, usize),
>
    decreases n,
{
    if n <= 0 {
        Seq::empty()
    } else {
        crate::ordered::with_pair(
            control_pairs(controls, n - 1),
            controls[n - 1].id,
            (n - 1) as usize,
        )
    }
}

/// What is kept of the state of a scope over a restart.
pub open spec fn kept(state: ScopeState) -> ScopeState {
    ScopeState {
        on: state.on,
        offsets: state.offsets,
        mode: state.mode.persisted().restored(),
    }
}

/// A scope that was not there before: off, and on its curve.
pub open spec fn fresh() -> ScopeState {
    ScopeState { on: false, offsets: UserOffsets::none(), mode: CurveMode::Follow }
}

/// The configured scopes, as far as they are remembered as they were.
pub open spec fn settled_scopes(
    configured: Map<Seq<u8>, usize>,
    persisted: Map<Seq<u8>, ScopeState>,
) -> Map<Seq<u8>, ScopeState> {
    Map::new(
        |key: Seq<u8>| configured.contains_key(key),
        |key: Seq<u8>|
            if persisted.contains_key(key) {
                kept(persisted[key])
            } else {
                fresh()
            },
    )
}

/// The entry selects `scope`.
pub open spec fn selects(entry: MappingEntry, scope: Scope) -> bool {
    entry.action is SelectScope && (entry.target matches ScopeTarget::Explicit(named)
        && named.key() == scope.key())
}

/// The first remembered selection, from alias `a` on.
pub open spec fn alias_selection(
    aliases: Seq<ControlId>,
    persisted: Map<Seq<u8>, ControlState>,
    a: int,
) -> Option<Scope>
    decreases aliases.len() - a,
{
    if a >= aliases.len() {
        None
    } else if persisted.contains_key(aliases[a].key()) {
        Some(persisted[aliases[a].key()].selected_scope)
    } else {
        alias_selection(aliases, persisted, a + 1)
    }
}

impl ControlConfiguration {
    /// A scope that the control starts with or can select.
    pub open spec fn reaches(self, scope: Scope) -> bool {
        ||| self.selected_scope.key() == scope.key()
        ||| exists|e: int|
            0 <= e < self.mapping.entries@.len() && #[trigger] selects(
                self.mapping.entries@[e],
                scope,
            )
    }

    /// What is remembered of the control, under its name or else an alias.
    pub open spec fn remembered(self, persisted: Map<Seq<u8>, ControlState>) -> Option<Scope> {
        if persisted.contains_key(self.id.key()) {
            Some(persisted[self.id.key()].selected_scope)
        } else {
            alias_selection(self.aliases@, persisted, 0)
        }
    }

    /// The scope that the control selects after a restart.
    pub open spec fn selection(self, persisted: Map<Seq<u8>, ControlState>) -> Scope {
        match self.remembered(persisted) {
            Some(scope) => if self.reaches(scope) {
                scope
            } else {
                self.selected_scope
            },
            None => self.selected_scope,
        }
    }

    fn can_reach(&self, scope: &Scope) -> (result: bool)
        ensures
            result == self.reaches(*scope),
    {
        if self.selected_scope.matches_key(scope) {
            return true;
        }
        let mut e: usize = 0;
        while e < self.mapping.entries.len()
            invariant
                e <= self.mapping.entries@.len(),
                self.selected_scope.key() != scope.key(),
                forall|j: int|
                    0 <= j < e ==> !#[trigger] selects(self.mapping.entries@[j], *scope),
            decreases self.mapping.entries@.len() - e,
        {
            let entry = &self.mapping.entries[e];
            if entry.action().is_select_scope() {
                if let ScopeTarget::Explicit(named) = entry.target() {
                    if named.matches_key(scope) {
                        assert(selects(self.mapping.entries@[e as int], *scope));
                        return true;
                    }
                }
            }
            e = e + 1;
        }
        false
    }

    fn recall(&self, persisted: &SortedMap<ControlId, ControlState>) -> (result: Option<Scope>)
        ensures
            result == self.remembered(persisted@),
    {
        if let Some(state) = persisted.get(&self.id) {
            return Some(state.selected_scope.clone());
        }
        let mut a: usize = 0;
        while a < self.aliases.len()
            invariant
                a <= self.aliases@.len(),
                !persisted@.contains_key(self.id.key()),
                self.remembered(persisted@) == alias_selection(
                    self.aliases@,
                    persisted@,
                    a as int,
                ),
            decreases self.aliases@.len() - a,
        {
            if let Some(state) = persisted.get(&self.aliases[a]) {
                return Some(state.selected_scope.clone());
            }
            a = a + 1;
        }
        None
    }

    fn select(&self, persisted: &SortedMap<ControlId, ControlState>) -> (scope: Scope)
        ensures
            scope == self.selection(persisted@),
    {
        if let Some(scope) = self.recall(persisted) {
            if self.can_reach(&scope) {
                return scope;
            }
        }
        self.selected_scope.clone()
    }
}

/// The configured controls with what each selects.
pub open spec fn settled_controls(
    configured: Map<Seq<u8>, usize>,
    controls: Seq<ControlConfiguration>,
    persisted: Map<Seq<u8>, ControlState>,
) -> Map<Seq<u8>, ControlState> {
    Map::new(
        |key: Seq<u8>| configured.contains_key(key),
        |key: Seq<u8>|
            ControlState {
                selected_scope: controls[configured[key] as int].selection(persisted),
            },
    )
}

/// The selection of the first control, among the first `n` in order, that selects
/// a scope which is not configured.
pub open spec fn stray_selection(
    pairs: Seq<(ControlId, usize)>,
    controls: Seq<ControlConfiguration>,
    persisted: Map<Seq<u8>, ControlState>,
    scopes: Map<Seq<u8>, ScopeState>,
    n: int,
) -> Option<Scope>
    decreases n,
{
    if n <= 0 {
        None
    } else if stray_selection(pairs, controls, persisted, scopes, n - 1) is Some {
        stray_selection(pairs, controls, persisted, scopes, n - 1)
    } else {
        let scope = controls[pairs[n - 1].1 as int].selection(persisted);
        if scopes.contains_key(scope.key()) {
            None
        } else {
            Some(scope)
        }
    }
}

proof fn lemma_stray_selection_stays(
    pairs: Seq<(ControlId, usize)>,
    controls: Seq<ControlConfiguration>,
    persisted: Map<Seq<u8>, ControlState>,
    scopes: Map<Seq<u8>, ScopeState>,
    m: int,
    n: int,
)
    requires
        0 <= m <= n,
        stray_selection(pairs, controls, persisted, scopes, m) is Some,
    ensures
        stray_selection(pairs, controls, persisted, scopes, n) == stray_selection(
            pairs,
            controls,
            persisted,
            scopes,
            m,
        ),
    decreases n,
{
    if m < n {
        lemma_stray_selection_stays(pairs, controls, persisted, scopes, m, n - 1);
    }
}

/// The scopes that a house starts with.
pub open spec fn starting_scopes(
    scopes: Seq<ScopeConfiguration>,
    persisted: AutomationState,
) -> Map<Seq<u8>, ScopeState> {
    settled_scopes(
        crate::ordered::map_of(scope_pairs(scopes, scopes.len() as int)),
        persisted.scopes@,
    )
}

/// The controls that a house starts with.
pub open spec fn starting_controls(
    controls: Seq<ControlConfiguration>,
    persisted: AutomationState,
) -> Map<Seq<u8>, ControlState> {
    settled_controls(
        crate::ordered::map_of(control_pairs(controls, controls.len() as int)),
        controls,
        persisted.controls@,
    )
}

/// The selection that keeps a house from starting.
pub open spec fn starting_fault(
    scopes: Seq<ScopeConfiguration>,
    controls: Seq<ControlConfiguration>,
    persisted: AutomationState,
) -> Option<Scope> {
    let pairs = control_pairs(controls, controls.len() as int);
    stray_selection(
        pairs,
        controls,
        persisted.controls@,
        starting_scopes(scopes, persisted),
        pairs.len() as int,
    )
}

fn collect_scopes(scopes: &Vec<ScopeConfiguration>) -> (map: SortedMap<Scope, usize>)
    ensures
        map.pairs() == scope_pairs(scopes@, scopes@.len() as int),
        forall|p: int|
            0 <= p < map.pairs().len() ==> (#[trigger] map.pairs()[p]).1 < scopes@.len(),
{
    let mut map: SortedMap<Scope, usize> = SortedMap::new();
    let mut i: usize = 0;
    while i < scopes.len()
        invariant
            i <= scopes@.len(),
            map.pairs() == scope_pairs(scopes@, i as int),
            forall|p: int| 0 <= p < map.pairs().len() ==> (#[trigger] map.pairs()[p]).1 < i,
        decreases scopes@.len() - i,
    {
        let ghost before = map.pairs();
        proof {
            lemma_values_stay_good(before, scopes@[i as int].scope, i, |p: usize| p < i + 1);
        }
        map.set(scopes[i].scope.clone(), i);
        assert forall|p: int| 0 <= p < map.pairs().len() implies (#[trigger] map.pairs()[p]).1
            < i + 1 by {
            let good = |p: usize| p < i + 1;
            assert(good(crate::ordered::with_pair(before, scopes@[i as int].scope, i)[p].1));
        }
        i = i + 1;
    }
    map
}

fn collect_controls(controls: &Vec<ControlConfiguration>) -> (map: SortedMap<ControlId, usize>)
    ensures
        map.pairs() == control_pairs(controls@, controls@.len() as int),
        forall|p: int|
            0 <= p < map.pairs().len() ==> (#[trigger] map.pairs()[p]).1 < controls@.len(),
{
    let mut map: SortedMap<ControlId, usize> = SortedMap::new();
    let mut i: usize = 0;
    while i < controls.len()
        invariant
            i <= controls@.len(),
            map.pairs() == control_pairs(controls@, i as int),
            forall|p: int|
                0 <= p < map.pairs().len() ==> (#[trigger] map.pairs()[p]).1 < i,
        decreases controls@.len() - i,
    {
        let ghost before = map.pairs();
        proof {
            lemma_values_stay_good(before, controls@[i as int].id, i, |p: usize| p < i + 1);
        }
        map.set(controls[i].id.clone(), i);
        assert forall|p: int| 0 <= p < map.pairs().len() implies (#[trigger] map.pairs()[p]).1
            < i + 1 by {
            let good = |p: usize| p < i + 1;
            assert(good(crate::ordered::with_pair(before, controls@[i as int].id, i)[p].1));
        }
        i = i + 1;
    }
    map
}

proof fn lemma_rank_bounds<K: OrderedKey, V>(pairs: Seq<(K, V)>, key: Seq<u8>)
    ensures
        0 <= crate::ordered::rank(pairs, key) <= pairs.len(),
    decreases pairs.len(),
{
    if pairs.len() > 0 {
        lemma_rank_bounds(pairs.drop_first(), key);
    }
}

/// Fits what is remembered to what is configured. Scopes and controls that are no
/// longer configured are forgotten.
pub fn normalize_state(
    persisted: &AutomationState,
    scopes: &Vec<ScopeConfiguration>,
    controls: &Vec<ControlConfiguration>,
) -> (result: Result<AutomationState, RuntimeError>)
    ensures
        match starting_fault(scopes@, controls@, *persisted) {
            Some(scope) => result == Err::<AutomationState, RuntimeError>(
                RuntimeError::State(StateError::UnknownScope(scope)),
            ),
            None => {
                &&& result matches Ok(state)
                &&& state.scopes@ == starting_scopes(scopes@, *persisted)
                &&& state.controls@ == starting_controls(controls@, *persisted)
                &&& state.last_reset_date == persisted.last_reset_date
                &&& state.wf()
            },
        },
{
    let configured = collect_scopes(scopes);
    let mut state = match persisted.last_reset_date {
        Some(date) => AutomationState::with_last_reset_date(date),
        None => AutomationState::default(),
    };
    let count: usize = configured.len();
    let ghost pairs = configured.pairs();
    let mut i: usize = 0;
    assert(settled_scopes(crate::ordered::map_of(pairs.take(0)), persisted.scopes@)
        =~= Map::<Seq<u8>, ScopeState>::empty());
    while i < count
        invariant
            i <= count,
            count == pairs.len(),
            pairs == configured.pairs(),
            crate::ordered::ascending(pairs),
            state.scopes@ == settled_scopes(
                crate::ordered::map_of(pairs.take(i as int)),
                persisted.scopes@,
            ),
            state.controls@ == Map::<Seq<u8>, ControlState>::empty(),
            state.last_reset_date == persisted.last_reset_date,
            state.wf(),
        decreases count - i,
    {
        let scope = configured.key_at(i);
        let next = match persisted.scopes.get(scope) {
            Some(saved) => ScopeState {
                on: saved.on,
                offsets: saved.offsets,
                mode: match saved.mode {
                    CurveMode::Frozen { baseline } => CurveMode::Frozen { baseline },
                    _ => CurveMode::Follow,
                },
            },
            None => ScopeState::new(false),
        };
        let ghost before = state.scopes@;
        proof {
            crate::ordered::prefix_is_mapped(pairs, i as int);
        }
        match state.insert_scope(scope.clone(), next) {
            Ok(()) => {},
            Err(error) => return Err(RuntimeError::State(error)),
        }
        assert(state.scopes@ =~= settled_scopes(
            crate::ordered::map_of(pairs.take(i + 1)),
            persisted.scopes@,
        ));
        i = i + 1;
    }
    assert(pairs.take(count as int) =~= pairs);
    assert(state.scopes@ == starting_scopes(scopes@, *persisted));
    let placed = collect_controls(controls);
    let total: usize = placed.len();
    let ghost order = placed.pairs();
    let mut c: usize = 0;
    assert(settled_controls(
        crate::ordered::map_of(order.take(0)),
        controls@,
        persisted.controls@,
    ) =~= Map::<Seq<u8>, ControlState>::empty());
    while c < total
        invariant
            c <= total,
            total == order.len(),
            order == placed.pairs(),
            order == control_pairs(controls@, controls@.len() as int),
            crate::ordered::ascending(order),
            forall|p: int|
                0 <= p < order.len() ==> (#[trigger] placed.pairs()[p]).1 < controls@.len(),
            state.scopes@ == starting_scopes(scopes@, *persisted),
            state.controls@ == settled_controls(
                crate::ordered::map_of(order.take(c as int)),
                controls@,
                persisted.controls@,
            ),
            stray_selection(
                order,
                controls@,
                persisted.controls@,
                starting_scopes(scopes@, *persisted),
                c as int,
            ) is None,
            state.last_reset_date == persisted.last_reset_date,
            state.wf(),
        decreases total - c,
    {
        let place: usize = *placed.value_at(c);
        let selected = controls[place].select(&persisted.controls);
        proof {
            crate::ordered::prefix_is_mapped(order, c as int);
        }
        match state.insert_control(placed.key_at(c).clone(), ControlState::new(selected)) {
            Ok(()) => {},
            Err(error) => {
                proof {
                    lemma_stray_selection_stays(
                        order,
                        controls@,
                        persisted.controls@,
                        starting_scopes(scopes@, *persisted),
                        c + 1,
                        total as int,
                    );
                }
                return Err(RuntimeError::State(error));
            },
        }
        assert(state.controls@ =~= settled_controls(
            crate::ordered::map_of(order.take(c + 1)),
            controls@,
            persisted.controls@,
        ));
        c = c + 1;
    }
    assert(order.take(total as int) =~= order);
    Ok(state)
}

// What has changed since the last run.

pub open spec fn modes_alike(a: CurveMode, b: CurveMode) -> bool {
    match (a, b) {
        (CurveMode::Frozen { baseline: x }, CurveMode::Frozen { baseline: y }) => {
            &&& x.brightness.value.same(y.brightness.value)
            &&& x.color_temperature.value.same(y.color_temperature.value)
        },
        _ => !(a is Frozen) && !(b is Frozen),
    }
}

/// Two scope states are stored alike.
pub open spec fn scopes_alike(a: ScopeState, b: ScopeState) -> bool {
    &&& a.on == b.on
    &&& a.offsets.brightness.same(b.offsets.brightness)
    &&& a.offsets.color_temperature_kelvin.same(b.offsets.color_temperature_kelvin)
    &&& modes_alike(a.mode, b.mode)
}

/// Two sets of scopes are stored alike.
pub open spec fn scope_maps_alike(
    a: Map<Seq<u8>, ScopeState>,
    b: Map<Seq<u8>, ScopeState>,
) -> bool {
    &&& forall|key: Seq<u8>|
        #![trigger a.contains_key(key)]
        #![trigger b.contains_key(key)]
        a.contains_key(key) == b.contains_key(key)
    &&& forall|key: Seq<u8>| #[trigger] a.contains_key(key) ==> scopes_alike(a[key], b[key])
}

/// Two sets of controls are stored alike.
pub open spec fn control_maps_alike(
    a: Map<Seq<u8>, ControlState>,
    b: Map<Seq<u8>, ControlState>,
) -> bool {
    &&& forall|key: Seq<u8>|
        #![trigger a.contains_key(key)]
        #![trigger b.contains_key(key)]
        a.contains_key(key) == b.contains_key(key)
    &&& forall|key: Seq<u8>| #[trigger]
        a.contains_key(key) ==> a[key].selected_scope.key() == b[key].selected_scope.key()
}

/// Two states are stored alike.
pub open spec fn alike(a: AutomationState, b: AutomationState) -> bool {
    &&& a.last_reset_date == b.last_reset_date
    &&& scope_maps_alike(a.scopes@, b.scopes@)
    &&& control_maps_alike(a.controls@, b.controls@)
}

fn are_modes_alike(a: CurveMode, b: CurveMode) -> (result: bool)
    ensures
        result == modes_alike(a, b),
{
    match (a, b) {
        (CurveMode::Frozen { baseline: x }, CurveMode::Frozen { baseline: y }) =>
            x.brightness.value.equals(y.brightness.value) && x.color_temperature.value.equals(
            y.color_temperature.value,
        ),
        (CurveMode::Frozen { .. }, _) => false,
        (_, CurveMode::Frozen { .. }) => false,
        _ => true,
    }
}

fn are_scopes_alike(a: &AutomationState, b: &AutomationState) -> (result: bool)
    ensures
        result <==> (forall|key: Seq<u8>| #[trigger]
            a.scopes@.contains_key(key) ==> b.scopes@.contains_key(key) && scopes_alike(
                a.scopes@[key],
                b.scopes@[key],
            )),
{
    let count: usize = a.scopes.len();
    let ghost pairs = a.scopes.pairs();
    let mut i: usize = 0;
    while i < count
        invariant
            i <= count,
            count == pairs.len(),
            pairs == a.scopes.pairs(),
            crate::ordered::ascending(pairs),
            forall|j: int|
                0 <= j < i ==> b.scopes@.contains_key((#[trigger] pairs[j]).0.key())
                    && scopes_alike(pairs[j].1, b.scopes@[pairs[j].0.key()]),
        decreases count - i,
    {
        proof {
            crate::ordered::pair_is_mapped(pairs, i as int);
            assert(a.scopes@.contains_key(pairs[i as int].0.key()));
        }
        let x = a.scopes.value_at(i);
        match b.scopes.get(a.scopes.key_at(i)) {
            Some(y) => {
                if x.on != y.on || !x.offsets.brightness.equals(y.offsets.brightness)
                    || !x.offsets.color_temperature_kelvin.equals(
                    y.offsets.color_temperature_kelvin,
                ) || !are_modes_alike(x.mode, y.mode) {
                    return false;
                }
            },
            None => return false,
        }
        i = i + 1;
    }
    assert forall|key: Seq<u8>| #[trigger]
        a.scopes@.contains_key(key) implies b.scopes@.contains_key(key) && scopes_alike(
        a.scopes@[key],
        b.scopes@[key],
    ) by {
        let j = crate::ordered::index_of(pairs, key);
        assert(pairs[j].0.key() == key);
    }
    true
}

fn are_controls_alike(a: &AutomationState, b: &AutomationState) -> (result: bool)
    ensures
        result <==> (forall|key: Seq<u8>| #[trigger]
            a.controls@.contains_key(key) ==> b.controls@.contains_key(key)
                && a.controls@[key].selected_scope.key() == b.controls@[key].selected_scope.key()),
{
    let count: usize = a.controls.len();
    let ghost pairs = a.controls.pairs();
    let mut i: usize = 0;
    while i < count
        invariant
            i <= count,
            count == pairs.len(),
            pairs == a.controls.pairs(),
            crate::ordered::ascending(pairs),
            forall|j: int|
                0 <= j < i ==> b.controls@.contains_key((#[trigger] pairs[j]).0.key())
                    && pairs[j].1.selected_scope.key()
                    == b.controls@[pairs[j].0.key()].selected_scope.key(),
        decreases count - i,
    {
        proof {
            crate::ordered::pair_is_mapped(pairs, i as int);
            assert(a.controls@.contains_key(pairs[i as int].0.key()));
        }
        match b.controls.get(a.controls.key_at(i)) {
            Some(other) => {
                if !a.controls.value_at(i).selected_scope.matches_key(&other.selected_scope) {
                    return false;
                }
            },
            None => return false,
        }
        i = i + 1;
    }
    assert forall|key: Seq<u8>| #[trigger]
        a.controls@.contains_key(key) implies b.controls@.contains_key(key)
        && a.controls@[key].selected_scope.key() == b.controls@[key].selected_scope.key() by {
        let j = crate::ordered::index_of(pairs, key);
        assert(pairs[j].0.key() == key);
    }
    true
}

fn covers_scopes(a: &AutomationState, b: &AutomationState) -> (result: bool)
    ensures
        result <==> (forall|key: Seq<u8>| #[trigger]
            a.scopes@.contains_key(key) ==> b.scopes@.contains_key(key)),
{
    let count: usize = a.scopes.len();
    let ghost pairs = a.scopes.pairs();
    let mut i: usize = 0;
    while i < count
        invariant
            i <= count,
            count == pairs.len(),
            pairs == a.scopes.pairs(),
            crate::ordered::ascending(pairs),
            forall|j: int| 0 <= j < i ==> b.scopes@.contains_key((#[trigger] pairs[j]).0.key()),
        decreases count - i,
    {
        proof {
            crate::ordered::pair_is_mapped(pairs, i as int);
            assert(a.scopes@.contains_key(pairs[i as int].0.key()));
        }
        if !b.scopes.contains(a.scopes.key_at(i)) {
            return false;
        }
        i = i + 1;
    }
    assert forall|key: Seq<u8>| #[trigger] a.scopes@.contains_key(key) implies
        b.scopes@.contains_key(key) by {
        let j = crate::ordered::index_of(pairs, key);
        assert(pairs[j].0.key() == key);
    }
    true
}

fn covers_controls(a: &AutomationState, b: &AutomationState) -> (result: bool)
    ensures
        result <==> (forall|key: Seq<u8>| #[trigger]
            a.controls@.contains_key(key) ==> b.controls@.contains_key(key)),
{
    let count: usize = a.controls.len();
    let ghost pairs = a.controls.pairs();
    let mut i: usize = 0;
    while i < count
        invariant
            i <= count,
            count == pairs.len(),
            pairs == a.controls.pairs(),
            crate::ordered::ascending(pairs),
            forall|j: int| 0 <= j < i ==> b.controls@.contains_key((#[trigger] pairs[j]).0.key()),
        decreases count - i,
    {
        proof {
            crate::ordered::pair_is_mapped(pairs, i as int);
            assert(a.controls@.contains_key(pairs[i as int].0.key()));
        }
        if !b.controls.contains(a.controls.key_at(i)) {
            return false;
        }
        i = i + 1;
    }
    assert forall|key: Seq<u8>| #[trigger] a.controls@.contains_key(key) implies
        b.controls@.contains_key(key) by {
        let j = crate::ordered::index_of(pairs, key);
        assert(pairs[j].0.key() == key);
    }
    true
}

fn are_dates_alike(a: Option<LocalDate>, b: Option<LocalDate>) -> (result: bool)
    ensures
        result == (a == b),
{
    match (a, b) {
        (Some(x), Some(y)) => x.year == y.year && x.month == y.month && x.day == y.day,
        (None, None) => true,
        _ => false,
    }
}

/// Whether two states are stored alike.
pub fn are_alike(a: &AutomationState, b: &AutomationState) -> (result: bool)
    ensures
        result == alike(*a, *b),
{
    if !are_dates_alike(a.last_reset_date, b.last_reset_date) {
        return false;
    }
    let scopes = are_scopes_alike(a, b) && covers_scopes(b, a);
    let controls = are_controls_alike(a, b) && covers_controls(b, a);
    proof {
        if alike(*a, *b) {
            assert forall|key: Seq<u8>| #[trigger] b.scopes@.contains_key(key) implies
                a.scopes@.contains_key(key) by {}
            assert forall|key: Seq<u8>| #[trigger] b.controls@.contains_key(key) implies
                a.controls@.contains_key(key) by {}
        }
    }
    scopes && controls
}

// The plan of the house.

/// Place, among ordered scopes, of the narrowest that a device stands in.
pub open spec fn owner_place(scopes: Seq<(Scope, usize)>, membership: ScopeMembership) -> Option<
    int,
> {
    let room = Scope::Room(membership.room).key();
    let floor = Scope::Floor(membership.floor).key();
    let house = Scope::House.key();
    if crate::ordered::has_key(scopes, room) {
        Some(crate::ordered::index_of(scopes, room))
    } else if crate::ordered::has_key(scopes, floor) {
        Some(crate::ordered::index_of(scopes, floor))
    } else if crate::ordered::has_key(scopes, house) {
        Some(crate::ordered::index_of(scopes, house))
    } else {
        None
    }
}

/// The place of the scope that rules a device.
fn resolve_owner(scopes: &SortedMap<Scope, usize>, membership: &ScopeMembership) -> (result: Result<
    usize,
    RuntimeError,
>)
    ensures
        match owner_place(scopes.pairs(), *membership) {
            Some(p) => result matches Ok(place) && place == p && place < scopes.pairs().len(),
            None => result == Err::<usize, RuntimeError>(
                RuntimeError::InvalidTopology(TopologyProblem::NoPhysicalOwner),
            ),
        },
{
    if let Some(place) = scopes.position(&Scope::Room(membership.room.clone())) {
        return Ok(place);
    }
    if let Some(place) = scopes.position(&Scope::Floor(membership.floor.clone())) {
        return Ok(place);
    }
    if let Some(place) = scopes.position(&Scope::House) {
        return Ok(place);
    }
    Err(RuntimeError::InvalidTopology(TopologyProblem::NoPhysicalOwner))
}

/// First place, from `c` on, of a curve with this name.
pub open spec fn curve_place(curves: Seq<CurveConfiguration>, name: Seq<char>, c: int) -> Option<int>
    decreases curves.len() - c,
{
    if c >= curves.len() {
        None
    } else if curves[c].id.text@ == name {
        Some(c)
    } else {
        curve_place(curves, name, c + 1)
    }
}

fn find_curve(curves: &Vec<CurveConfiguration>, name: &ScopeId) -> (result: Option<usize>)
    ensures
        match result {
            Some(c) => c < curves@.len() && curve_place(curves@, name.text@, 0) == Some(c as int),
            None => curve_place(curves@, name.text@, 0) is None,
        },
{
    let mut c: usize = 0;
    while c < curves.len()
        invariant
            c <= curves@.len(),
            curve_place(curves@, name.text@, 0) == curve_place(curves@, name.text@, c as int),
        decreases curves@.len() - c,
    {
        if crate::text::text_equals(curves[c].id.as_str(), name.as_str()) {
            return Some(c);
        }
        c = c + 1;
    }
    None
}

/// Some scope names a curve that is not there.
pub open spec fn curve_missing(
    scopes: Seq<ScopeConfiguration>,
    curves: Seq<CurveConfiguration>,
) -> bool {
    exists|i: int|
        0 <= i < scopes.len() && curve_place(curves, (#[trigger] scopes[i]).curve.text@, 0) is None
}

fn is_curve_missing(scopes: &Vec<ScopeConfiguration>, curves: &Vec<CurveConfiguration>) -> (result:
    bool)
    ensures
        result == curve_missing(scopes@, curves@),
{
    let mut i: usize = 0;
    while i < scopes.len()
        invariant
            i <= scopes@.len(),
            forall|j: int|
                0 <= j < i ==> curve_place(curves@, (#[trigger] scopes@[j]).curve.text@, 0) is Some,
        decreases scopes@.len() - i,
    {
        if find_curve(curves, &scopes[i].curve).is_none() {
            assert(curve_place(curves@, scopes@[i as int].curve.text@, 0) is None);
            return true;
        }
        i = i + 1;
    }
    false
}

/// The device is a light.
pub open spec fn lit(device: DeviceConfiguration) -> bool {
    device.definition.capabilities.on_off
}

/// The lights among the first `n` devices in order, each with its last place.
pub open spec fn light_pairs(devices: Seq<DeviceConfiguration>, n: int) -> Seq<(DeviceId, usize)>
    decreases n,
{
    if n <= 0 {
        Seq::empty()
    } else if lit(devices[n - 1]) {
        crate::ordered::with_pair(
            light_pairs(devices, n - 1),
            devices[n - 1].id,
            (n - 1) as usize,
        )
    } else {
        light_pairs(devices, n - 1)
    }
}

/// Some light stands in no configured scope.
pub open spec fn homeless(devices: Seq<DeviceConfiguration>, scopes: Seq<(Scope, usize)>) -> bool {
    exists|i: int|
        0 <= i < devices.len() && lit(#[trigger] devices[i]) && owner_place(
            scopes,
            devices[i].membership,
        ) is None
}

/// The aliases of the first `n` names of a device.
pub open spec fn aliases_of(aliases: Seq<DeviceId>, id: DeviceId, n: int) -> Seq<
    (DeviceId, DeviceId),
> {
    Seq::new(n as nat, |a: int| (aliases[a], id))
}

/// The aliases of the first `n` devices.
pub open spec fn alias_pairs(devices: Seq<DeviceConfiguration>, n: int) -> Seq<(DeviceId, DeviceId)>
    decreases n,
{
    if n <= 0 {
        Seq::empty()
    } else {
        let device = devices[n - 1];
        alias_pairs(devices, n - 1) + aliases_of(
            device.aliases@,
            device.id,
            device.aliases@.len() as int,
        )
    }
}

/// The scopes that rule the first `n` lights in order, each with its place.
pub open spec fn owner_pairs(
    scopes: Seq<(Scope, usize)>,
    devices: Seq<DeviceConfiguration>,
    lights: Seq<(DeviceId, usize)>,
    n: int,
) -> Seq<(Scope, usize)>
    decreases n,
{
    if n <= 0 {
        Seq::empty()
    } else {
        let place = owner_place(scopes, devices[lights[n - 1].1 as int].membership)->Some_0;
        crate::ordered::with_pair(
            owner_pairs(scopes, devices, lights, n - 1),
            scopes[place].0,
            place as usize,
        )
    }
}

/// The mappings of the first `n` controls in order.
pub open spec fn mapping_pairs(controls: Seq<ControlConfiguration>, n: int) -> Seq<
    (ControlId, Mapping),
>
    decreases n,
{
    if n <= 0 {
        Seq::empty()
    } else {
        crate::ordered::with_pair(
            mapping_pairs(controls, n - 1),
            controls[n - 1].id,
            controls[n - 1].mapping,
        )
    }
}

/// Values of pairs stay good when one more good value comes.
proof fn lemma_values_stay_good<K: OrderedKey, V>(
    pairs: Seq<(K, V)>,
    key: K,
    value: V,
    good: spec_fn(V) -> bool,
)
    requires
        forall|p: int| 0 <= p < pairs.len() ==> good((#[trigger] pairs[p]).1),
        good(value),
    ensures
        forall|p: int|
            0 <= p < crate::ordered::with_pair(pairs, key, value).len() ==> good(
                (#[trigger] crate::ordered::with_pair(pairs, key, value)[p]).1,
            ),
{
    let next = crate::ordered::with_pair(pairs, key, value);
    assert forall|p: int| 0 <= p < next.len() implies good((#[trigger] next[p]).1) by {
        if crate::ordered::has_key(pairs, key.key()) {
            let q = crate::ordered::index_of(pairs, key.key());
            if p != q {
                assert(next[p] == pairs[p]);
            }
        } else {
            let q = crate::ordered::rank(pairs, key.key());
            lemma_rank_bounds(pairs, key.key());
            if p < q {
                assert(next[p] == pairs[p]);
            } else if p > q {
                assert(next[p] == pairs[p - 1]);
            }
        }
    }
}

/// `place` is that of a light that some scope rules.
spec fn ruled(
    devices: Seq<DeviceConfiguration>,
    scopes: Seq<(Scope, usize)>,
    place: usize,
) -> bool {
    &&& place < devices.len()
    &&& lit(devices[place as int])
    &&& owner_place(scopes, devices[place as int].membership) is Some
}

fn collect_lights(devices: &Vec<DeviceConfiguration>, scopes: &SortedMap<Scope, usize>) -> (result:
    Result<SortedMap<DeviceId, usize>, RuntimeError>)
    ensures
        match result {
            Ok(lights) => {
                &&& !homeless(devices@, scopes.pairs())
                &&& lights.pairs() == light_pairs(devices@, devices@.len() as int)
                &&& forall|p: int|
                    0 <= p < lights.pairs().len() ==> ruled(
                        devices@,
                        scopes.pairs(),
                        (#[trigger] lights.pairs()[p]).1,
                    )
            },
            Err(error) => homeless(devices@, scopes.pairs()) && error
                == RuntimeError::InvalidTopology(TopologyProblem::NoPhysicalOwner),
        },
{
    let mut lights: SortedMap<DeviceId, usize> = SortedMap::new();
    let mut i: usize = 0;
    while i < devices.len()
        invariant
            i <= devices@.len(),
            lights.pairs() == light_pairs(devices@, i as int),
            forall|p: int|
                0 <= p < lights.pairs().len() ==> ruled(
                    devices@,
                    scopes.pairs(),
                    (#[trigger] lights.pairs()[p]).1,
                ),
            forall|j: int|
                0 <= j < i ==> (lit(#[trigger] devices@[j]) ==> owner_place(
                    scopes.pairs(),
                    devices@[j].membership,
                ) is Some),
        decreases devices@.len() - i,
    {
        if devices[i].definition.capabilities().on_off {
            match resolve_owner(scopes, &devices[i].membership) {
                Ok(_) => {},
                Err(error) => {
                    assert(lit(devices@[i as int]));
                    return Err(error);
                },
            }
            proof {
                lemma_values_stay_good(
                    lights.pairs(),
                    devices@[i as int].id,
                    i,
                    |place: usize| ruled(devices@, scopes.pairs(), place),
                );
            }
            let ghost before = lights.pairs();
            lights.set(devices[i].id.clone(), i);
            assert forall|p: int| 0 <= p < lights.pairs().len() implies ruled(
                devices@,
                scopes.pairs(),
                (#[trigger] lights.pairs()[p]).1,
            ) by {
                let good = |place: usize| ruled(devices@, scopes.pairs(), place);
                assert(good(
                    crate::ordered::with_pair(before, devices@[i as int].id, i)[p].1,
                ));
            }
        }
        i = i + 1;
    }
    Ok(lights)
}

fn collect_aliases(devices: &Vec<DeviceConfiguration>) -> (aliases: Vec<(DeviceId, DeviceId)>)
    ensures
        aliases@ == alias_pairs(devices@, devices@.len() as int),
{
    let mut aliases: Vec<(DeviceId, DeviceId)> = Vec::new();
    let mut i: usize = 0;
    while i < devices.len()
        invariant
            i <= devices@.len(),
            aliases@ == alias_pairs(devices@, i as int),
        decreases devices@.len() - i,
    {
        let device = &devices[i];
        let ghost before = aliases@;
        let mut a: usize = 0;
        assert(before + aliases_of(device.aliases@, device.id, 0) =~= before);
        while a < device.aliases.len()
            invariant
                a <= device.aliases@.len(),
                aliases@ == before + aliases_of(device.aliases@, device.id, a as int),
            decreases device.aliases@.len() - a,
        {
            aliases.push((device.aliases[a].clone(), device.id.clone()));
            a = a + 1;
            assert(aliases@ =~= before + aliases_of(device.aliases@, device.id, a as int));
        }
        i = i + 1;
    }
    aliases
}

/// Every light's owner is listed.
spec fn owners_listed(
    scopes: Seq<(Scope, usize)>,
    devices: Seq<DeviceConfiguration>,
    lights: Seq<(DeviceId, usize)>,
    owners: Map<Seq<u8>, usize>,
    n: int,
) -> bool {
    forall|j: int|
        0 <= j < n ==> owners.contains_key(
            scopes[owner_place(
                scopes,
                devices[(#[trigger] lights[j]).1 as int].membership,
            )->Some_0].0.key(),
        )
}

fn collect_owners(
    scopes: &SortedMap<Scope, usize>,
    devices: &Vec<DeviceConfiguration>,
    lights: &SortedMap<DeviceId, usize>,
) -> (owners: SortedMap<Scope, usize>)
    requires
        forall|p: int|
            0 <= p < lights.pairs().len() ==> ruled(
                devices@,
                scopes.pairs(),
                (#[trigger] lights.pairs()[p]).1,
            ),
    ensures
        owners.pairs() == owner_pairs(
            scopes.pairs(),
            devices@,
            lights.pairs(),
            lights.pairs().len() as int,
        ),
        owners_listed(
            scopes.pairs(),
            devices@,
            lights.pairs(),
            owners@,
            lights.pairs().len() as int,
        ),
        forall|k: int|
            0 <= k < owners.pairs().len() ==> (#[trigger] owners.pairs()[k]).1
                < scopes.pairs().len(),
{
    let mut owners: SortedMap<Scope, usize> = SortedMap::new();
    let count: usize = lights.len();
    let mut j: usize = 0;
    while j < count
        invariant
            j <= count,
            count == lights.pairs().len(),
            forall|p: int|
                0 <= p < lights.pairs().len() ==> ruled(
                    devices@,
                    scopes.pairs(),
                    (#[trigger] lights.pairs()[p]).1,
                ),
            owners.pairs() == owner_pairs(scopes.pairs(), devices@, lights.pairs(), j as int),
            owners_listed(scopes.pairs(), devices@, lights.pairs(), owners@, j as int),
            forall|k: int|
                0 <= k < owners.pairs().len() ==> (#[trigger] owners.pairs()[k]).1
                    < scopes.pairs().len(),
        decreases count - j,
    {
        let device: usize = *lights.value_at(j);
        assert(ruled(devices@, scopes.pairs(), lights.pairs()[j as int].1));
        if let Ok(place) = resolve_owner(scopes, &devices[device].membership) {
            let ghost before = owners.pairs();
            let ghost bound = scopes.pairs().len();
            let ghost key = scopes.pairs()[place as int].0;
            proof {
                lemma_values_stay_good(before, key, place, |p: usize| p < bound);
            }
            owners.set(scopes.key_at(place).clone(), place);
            assert forall|k: int| 0 <= k < owners.pairs().len() implies (
            #[trigger] owners.pairs()[k]).1 < scopes.pairs().len() by {
                let good = |p: usize| p < bound;
                assert(good(crate::ordered::with_pair(before, key, place)[k].1));
            }
        }
        j = j + 1;
    }
    owners
}

/// What is planned for a light.
pub open spec fn light_planned(
    light: DeviceRuntime,
    id: DeviceId,
    device: DeviceConfiguration,
    scopes: Seq<(Scope, usize)>,
    owners: Seq<(Scope, usize)>,
) -> bool {
    &&& light.id == id
    &&& light.membership == device.membership
    &&& light.capabilities == device.definition.capabilities
    &&& light.owner == crate::ordered::index_of(
        owners,
        scopes[owner_place(scopes, device.membership)->Some_0].0.key(),
    )
}

/// What is planned for the first `n` lights.
pub open spec fn lights_planned(
    planned: Seq<DeviceRuntime>,
    devices: Seq<DeviceConfiguration>,
    lights: Seq<(DeviceId, usize)>,
    scopes: Seq<(Scope, usize)>,
    owners: Seq<(Scope, usize)>,
    n: int,
) -> bool {
    &&& planned.len() == n
    &&& forall|j: int|
        0 <= j < n ==> light_planned(
            #[trigger] planned[j],
            lights[j].0,
            devices[lights[j].1 as int],
            scopes,
            owners,
        )
}

fn plan_lights(
    scopes: &SortedMap<Scope, usize>,
    devices: &Vec<DeviceConfiguration>,
    lights: &SortedMap<DeviceId, usize>,
    owners: &SortedMap<Scope, usize>,
) -> (planned: Vec<DeviceRuntime>)
    requires
        forall|p: int|
            0 <= p < lights.pairs().len() ==> ruled(
                devices@,
                scopes.pairs(),
                (#[trigger] lights.pairs()[p]).1,
            ),
        owners_listed(
            scopes.pairs(),
            devices@,
            lights.pairs(),
            owners@,
            lights.pairs().len() as int,
        ),
    ensures
        lights_planned(
            planned@,
            devices@,
            lights.pairs(),
            scopes.pairs(),
            owners.pairs(),
            lights.pairs().len() as int,
        ),
        forall|j: int|
            0 <= j < planned@.len() ==> (#[trigger] planned@[j]).owner < owners.pairs().len(),
{
    let mut planned: Vec<DeviceRuntime> = Vec::new();
    let count: usize = lights.len();
    let mut j: usize = 0;
    while j < count
        invariant
            j <= count,
            count == lights.pairs().len(),
            forall|p: int|
                0 <= p < lights.pairs().len() ==> ruled(
                    devices@,
                    scopes.pairs(),
                    (#[trigger] lights.pairs()[p]).1,
                ),
            owners_listed(
                scopes.pairs(),
                devices@,
                lights.pairs(),
                owners@,
                lights.pairs().len() as int,
            ),
            lights_planned(
                planned@,
                devices@,
                lights.pairs(),
                scopes.pairs(),
                owners.pairs(),
                j as int,
            ),
            forall|i: int|
                0 <= i < planned@.len() ==> (#[trigger] planned@[i]).owner < owners.pairs().len(),
        decreases count - j,
    {
        let place: usize = *lights.value_at(j);
        assert(ruled(devices@, scopes.pairs(), lights.pairs()[j as int].1));
        let device = &devices[place];
        if let Ok(scope) = resolve_owner(scopes, &device.membership) {
            if let Some(owner) = owners.position(scopes.key_at(scope)) {
                planned.push(
                    DeviceRuntime {
                        id: lights.key_at(j).clone(),
                        membership: device.membership.clone(),
                        capabilities: device.definition.capabilities(),
                        owner,
                    },
                );
            }
        }
        j = j + 1;
    }
    planned
}

/// Place of a light.
pub open spec fn light_index(lights: Seq<(DeviceId, usize)>, id: DeviceId) -> Option<usize> {
    if crate::ordered::has_key(lights, id.key()) {
        Some(crate::ordered::index_of(lights, id.key()) as usize)
    } else {
        None
    }
}

/// The owner that all members share; none where a member is no light.
pub open spec fn common_owner(members: Seq<Option<usize>>, lights: Seq<DeviceRuntime>) -> Option<
    usize,
> {
    match members.first() {
        Some(first) => if members.len() > 0 && forall|m: int|
            0 <= m < members.len() ==> ((#[trigger] members[m]) matches Some(i)
                && lights[i as int].owner == lights[first as int].owner) {
            Some(lights[first as int].owner)
        } else {
            None
        },
        None => None,
    }
}

/// What is planned for a group.
pub open spec fn group_planned(
    planned: GroupRuntime,
    group: GroupConfiguration,
    lights: Seq<(DeviceId, usize)>,
    devices: Seq<DeviceRuntime>,
) -> bool {
    &&& planned.id == group.id
    &&& planned.members@ == Seq::new(
        group.members@.len(),
        |m: int| light_index(lights, group.members@[m]),
    )
    &&& planned.shared_owner == if group.members@.len() > 0 {
        common_owner(planned.members@, devices)
    } else {
        None
    }
    &&& planned.has_group_color_temperature == group.mired_range is Some
}

fn shared_owner(members: &Vec<Option<usize>>, lights: &Vec<DeviceRuntime>) -> (owner: Option<usize>)
    requires
        forall|m: int|
            0 <= m < members@.len() ==> ((#[trigger] members@[m]) matches Some(i) ==> i
                < lights@.len()),
    ensures
        owner == if members@.len() > 0 {
            common_owner(members@, lights@)
        } else {
            None
        },
{
    if members.len() == 0 {
        return None;
    }
    let first: usize = match members[0] {
        Some(first) => first,
        None => return None,
    };
    let owner: usize = lights[first].owner;
    let mut m: usize = 0;
    while m < members.len()
        invariant
            m <= members@.len(),
            members@.len() > 0,
            members@[0] == Some(first),
            first < lights@.len(),
            owner == lights@[first as int].owner,
            forall|j: int|
                0 <= j < members@.len() ==> ((#[trigger] members@[j]) matches Some(i) ==> i
                    < lights@.len()),
            forall|j: int|
                0 <= j < m ==> ((#[trigger] members@[j]) matches Some(i)
                    && lights@[i as int].owner == owner),
        decreases members@.len() - m,
    {
        match members[m] {
            Some(i) => {
                if lights[i].owner != owner {
                    return None;
                }
            },
            None => return None,
        }
        m = m + 1;
    }
    Some(owner)
}

fn plan_group(
    group: &GroupConfiguration,
    lights: &SortedMap<DeviceId, usize>,
    devices: &Vec<DeviceRuntime>,
) -> (planned: GroupRuntime)
    requires
        devices@.len() == lights.pairs().len(),
    ensures
        group_planned(planned, *group, lights.pairs(), devices@),
        forall|m: int|
            0 <= m < planned.members@.len() ==> ((#[trigger] planned.members@[m]) matches Some(i)
                ==> i < devices@.len()),
        planned.shared_owner matches Some(owner) ==> exists|i: int|
            0 <= i < devices@.len() && owner == (#[trigger] devices@[i]).owner,
{
    let mut members: Vec<Option<usize>> = Vec::new();
    let mut m: usize = 0;
    while m < group.members.len()
        invariant
            m <= group.members@.len(),
            devices@.len() == lights.pairs().len(),
            members@ == Seq::new(
                m as nat,
                |j: int| light_index(lights.pairs(), group.members@[j]),
            ),
            forall|j: int|
                0 <= j < members@.len() ==> ((#[trigger] members@[j]) matches Some(i) ==> i
                    < devices@.len()),
        decreases group.members@.len() - m,
    {
        let place = lights.position(&group.members[m]);
        assert(place == light_index(lights.pairs(), group.members@[m as int]));
        members.push(place);
        m = m + 1;
        assert(members@ =~= Seq::new(
            m as nat,
            |j: int| light_index(lights.pairs(), group.members@[j]),
        ));
    }
    let owner = shared_owner(&members, devices);
    GroupRuntime {
        id: group.id.clone(),
        members,
        shared_owner: owner,
        has_group_color_temperature: group.mired_range.is_some(),
    }
}

/// The curve of each owner.
pub open spec fn owners_curved(
    owner_curves: Seq<usize>,
    owners: Seq<(Scope, usize)>,
    scopes: Seq<(Scope, usize)>,
    configured: Seq<ScopeConfiguration>,
    curves: Seq<CurveConfiguration>,
    n: int,
) -> bool {
    &&& owner_curves.len() == n
    &&& forall|k: int|
        0 <= k < n ==> curve_place(
            curves,
            configured[scopes[owners[k].1 as int].1 as int].curve.text@,
            0,
        ) == Some((#[trigger] owner_curves[k]) as int)
}

fn plan_curves(
    owners: &SortedMap<Scope, usize>,
    scopes: &SortedMap<Scope, usize>,
    configured: &Vec<ScopeConfiguration>,
    curves: &Vec<CurveConfiguration>,
) -> (owner_curves: Vec<usize>)
    requires
        !curve_missing(configured@, curves@),
        forall|k: int|
            0 <= k < owners.pairs().len() ==> (#[trigger] owners.pairs()[k]).1
                < scopes.pairs().len(),
        forall|p: int|
            0 <= p < scopes.pairs().len() ==> (#[trigger] scopes.pairs()[p]).1
                < configured@.len(),
    ensures
        owners_curved(
            owner_curves@,
            owners.pairs(),
            scopes.pairs(),
            configured@,
            curves@,
            owners.pairs().len() as int,
        ),
        forall|k: int|
            0 <= k < owner_curves@.len() ==> (#[trigger] owner_curves@[k]) < curves@.len(),
{
    let mut owner_curves: Vec<usize> = Vec::new();
    let count: usize = owners.len();
    let mut k: usize = 0;
    while k < count
        invariant
            k <= count,
            count == owners.pairs().len(),
            !curve_missing(configured@, curves@),
            forall|k: int|
                0 <= k < owners.pairs().len() ==> (#[trigger] owners.pairs()[k]).1
                    < scopes.pairs().len(),
            forall|p: int|
                0 <= p < scopes.pairs().len() ==> (#[trigger] scopes.pairs()[p]).1
                    < configured@.len(),
            owners_curved(
                owner_curves@,
                owners.pairs(),
                scopes.pairs(),
                configured@,
                curves@,
                k as int,
            ),
            forall|j: int|
                0 <= j < owner_curves@.len() ==> (#[trigger] owner_curves@[j]) < curves@.len(),
        decreases count - k,
    {
        let scope: usize = *owners.value_at(k);
        let place: usize = *scopes.value_at(scope);
        assert(curve_place(curves@, configured@[place as int].curve.text@, 0) is Some);
        if let Some(curve) = find_curve(curves, &configured[place].curve) {
            owner_curves.push(curve);
        }
        k = k + 1;
    }
    owner_curves
}

fn owner_names(owners: &SortedMap<Scope, usize>) -> (names: Vec<Scope>)
    ensures
        names@ == Seq::new(owners.pairs().len(), |k: int| owners.pairs()[k].0),
{
    let mut names: Vec<Scope> = Vec::new();
    let count: usize = owners.len();
    let mut k: usize = 0;
    while k < count
        invariant
            k <= count,
            count == owners.pairs().len(),
            names@ == Seq::new(k as nat, |j: int| owners.pairs()[j].0),
        decreases count - k,
    {
        names.push(owners.key_at(k).clone());
        k = k + 1;
        assert(names@ =~= Seq::new(k as nat, |j: int| owners.pairs()[j].0));
    }
    names
}

fn take_mappings(controls: Vec<ControlConfiguration>) -> (mappings: Vec<(ControlId, Mapping)>)
    requires
        forall|i: int| 0 <= i < controls@.len() ==> (#[trigger] controls@[i]).mapping.wf(),
    ensures
        mappings@ == mapping_pairs(controls@, controls@.len() as int),
        forall|c: int| 0 <= c < mappings@.len() ==> (#[trigger] mappings@[c]).1.wf(),
{
    let ghost all = controls@;
    let mut rest = controls;
    let mut mappings: SortedMap<ControlId, Mapping> = SortedMap::new();
    let ghost mut i: int = 0;
    assert(all.skip(0) =~= all);
    while rest.len() > 0
        invariant
            0 <= i <= all.len(),
            rest@ == all.skip(i),
            forall|j: int| 0 <= j < all.len() ==> (#[trigger] all[j]).mapping.wf(),
            mappings.pairs() == mapping_pairs(all, i),
            forall|c: int|
                0 <= c < mappings.pairs().len() ==> (#[trigger] mappings.pairs()[c]).1.wf(),
        decreases rest@.len(),
    {
        let control = rest.remove(0);
        let ghost before = mappings.pairs();
        proof {
            assert(control == all[i]);
            assert(rest@ =~= all.skip(i + 1));
            lemma_values_stay_good(before, all[i].id, all[i].mapping, |m: Mapping| m.wf());
        }
        mappings.set(control.id, control.mapping);
        assert forall|c: int| 0 <= c < mappings.pairs().len() implies (
        #[trigger] mappings.pairs()[c]).1.wf() by {
            let good = |m: Mapping| m.wf();
            assert(good(crate::ordered::with_pair(before, all[i].id, all[i].mapping)[c].1));
        }
        proof {
            i = i + 1;
        }
    }
    mappings.into_pairs()
}

/// What the devices are to the reconciler.
pub open spec fn device_definitions(devices: Seq<DeviceConfiguration>) -> Seq<DeviceDefinition> {
    Seq::new(devices.len(), |i: int| devices[i].definition)
}

/// What the groups are to the reconciler.
pub open spec fn group_definitions(groups: Seq<GroupConfiguration>) -> Seq<GroupDefinition> {
    Seq::new(groups.len(), |g: int| groups[g].definition)
}

fn define_devices(devices: &Vec<DeviceConfiguration>) -> (definitions: Vec<DeviceDefinition>)
    ensures
        definitions@ == device_definitions(devices@),
{
    let mut definitions: Vec<DeviceDefinition> = Vec::new();
    let mut i: usize = 0;
    while i < devices.len()
        invariant
            i <= devices@.len(),
            definitions@ == device_definitions(devices@).take(i as int),
        decreases devices@.len() - i,
    {
        definitions.push(devices[i].definition.clone());
        i = i + 1;
        assert(definitions@ =~= device_definitions(devices@).take(i as int));
    }
    assert(definitions@ =~= device_definitions(devices@));
    definitions
}

/// What is planned for the groups.
pub open spec fn groups_planned(
    planned: Seq<GroupRuntime>,
    groups: Seq<GroupConfiguration>,
    lights: Seq<(DeviceId, usize)>,
    devices: Seq<DeviceRuntime>,
    n: int,
) -> bool {
    &&& planned.len() == n
    &&& forall|g: int|
        0 <= g < n ==> group_planned(#[trigger] planned[g], groups[g], lights, devices)
}

fn take_groups(
    groups: Vec<GroupConfiguration>,
    lights: &SortedMap<DeviceId, usize>,
    devices: &Vec<DeviceRuntime>,
    owner_count: usize,
) -> (result: (Vec<GroupRuntime>, Vec<GroupDefinition>))
    requires
        devices@.len() == lights.pairs().len(),
        forall|i: int| 0 <= i < devices@.len() ==> (#[trigger] devices@[i]).owner < owner_count,
    ensures
        groups_planned(
            result.0@,
            groups@,
            lights.pairs(),
            devices@,
            groups@.len() as int,
        ),
        result.1@ == group_definitions(groups@),
        forall|g: int|
            0 <= g < result.0@.len() ==> group_fits(
                #[trigger] result.0@[g],
                devices@.len() as int,
                owner_count as int,
            ),
{
    let ghost all = groups@;
    let mut rest = groups;
    let mut planned: Vec<GroupRuntime> = Vec::new();
    let mut definitions: Vec<GroupDefinition> = Vec::new();
    let ghost mut g: int = 0;
    assert(all.skip(0) =~= all);
    while rest.len() > 0
        invariant
            0 <= g <= all.len(),
            rest@ == all.skip(g),
            devices@.len() == lights.pairs().len(),
            forall|i: int|
                0 <= i < devices@.len() ==> (#[trigger] devices@[i]).owner < owner_count,
            groups_planned(planned@, all, lights.pairs(), devices@, g),
            definitions@ == group_definitions(all).take(g),
            forall|h: int|
                0 <= h < planned@.len() ==> group_fits(
                    #[trigger] planned@[h],
                    devices@.len() as int,
                    owner_count as int,
                ),
        decreases rest@.len(),
    {
        let group = rest.remove(0);
        assert(group == all[g]);
        assert(rest@ =~= all.skip(g + 1));
        planned.push(plan_group(&group, lights, devices));
        definitions.push(group.definition);
        proof {
            g = g + 1;
        }
        assert(definitions@ =~= group_definitions(all).take(g));
    }
    assert(definitions@ =~= group_definitions(all));
    (planned, definitions)
}

/// Places in a group lie within the house.
pub open spec fn group_fits(group: GroupRuntime, lights: int, owners: int) -> bool {
    &&& group.shared_owner matches Some(owner) ==> owner < owners
    &&& forall|m: int|
        0 <= m < group.members@.len() ==> ((#[trigger] group.members@[m]) matches Some(i) ==> i
            < lights)
}

/// The plan is that of the parts.
pub open spec fn planned(plan: HousePlan, parts: RuntimeConfigParts) -> bool {
    let scopes = scope_pairs(parts.scopes@, parts.scopes@.len() as int);
    let lights = light_pairs(parts.devices@, parts.devices@.len() as int);
    let owners = owner_pairs(scopes, parts.devices@, lights, lights.len() as int);
    &&& plan.owners@ == Seq::new(owners.len(), |k: int| owners[k].0)
    &&& owners_curved(
        plan.owner_curves@,
        owners,
        scopes,
        parts.scopes@,
        parts.curves@,
        owners.len() as int,
    )
    &&& plan.curves == parts.curves
    &&& lights_planned(
        plan.devices@,
        parts.devices@,
        lights,
        scopes,
        owners,
        lights.len() as int,
    )
    &&& plan.aliases@ == alias_pairs(parts.devices@, parts.devices@.len() as int)
    &&& groups_planned(
        plan.groups@,
        parts.groups@,
        lights,
        plan.devices@,
        parts.groups@.len() as int,
    )
    &&& plan.controls@ == mapping_pairs(parts.controls@, parts.controls@.len() as int)
    &&& plan.acknowledgement == parts.acknowledgement
    &&& plan.circadian == parts.circadian
    &&& plan.whole_hour == parts.whole_hour
    &&& plan.reconciliation_timing == parts.reconciliation_timing
    &&& plan.whole_hour_id.text@ == "whole-hour"@
}

/// A reset is due on `day`.
pub open spec fn reset_due(last: Option<LocalDate>, day: LocalDate) -> bool {
    !(last matches Some(last) && last.not_before(day))
}

/// The first thing that keeps the house from starting.
pub open spec fn startup_fault(
    parts: RuntimeConfigParts,
    persisted: AutomationState,
    now: RuntimeInstant,
) -> Option<RuntimeError> {
    let scopes = scope_pairs(parts.scopes@, parts.scopes@.len() as int);
    let definitions = device_definitions(parts.devices@);
    let groups = group_definitions(parts.groups@);
    if starting_fault(parts.scopes@, parts.controls@, persisted) is Some {
        Some(
            RuntimeError::State(
                StateError::UnknownScope(
                    starting_fault(parts.scopes@, parts.controls@, persisted)->Some_0,
                ),
            ),
        )
    } else if crate::state::scheduled_reset(
        now.local_date,
        now.local_time,
        parts.circadian.daily_reset_time,
    ) is Err {
        Some(
            RuntimeError::State(
                crate::state::scheduled_reset(
                    now.local_date,
                    now.local_time,
                    parts.circadian.daily_reset_time,
                )->Err_0,
            ),
        )
    } else if curve_missing(parts.scopes@, parts.curves@) {
        Some(RuntimeError::InvalidTopology(TopologyProblem::MissingCurve))
    } else if homeless(parts.devices@, scopes) {
        Some(RuntimeError::InvalidTopology(TopologyProblem::NoPhysicalOwner))
    } else if light_pairs(parts.devices@, parts.devices@.len() as int).len() == 0 {
        Some(RuntimeError::InvalidTopology(TopologyProblem::NoControllableDevice))
    } else if crate::reconciler::device_fault(definitions, definitions.len() as int) is Some {
        Some(
            RuntimeError::Reconcile(
                crate::reconciler::device_fault(definitions, definitions.len() as int)->Some_0,
            ),
        )
    } else if crate::reconciler::group_fault(definitions, groups, groups.len() as int) is Some {
        Some(
            RuntimeError::Reconcile(
                crate::reconciler::group_fault(
                    definitions,
                    groups,
                    groups.len() as int,
                )->Some_0,
            ),
        )
    } else if parts.input.ambiguous_hold_window.value.less(parts.input.double_click_window.value) {
        Some(RuntimeError::Input(InputError::HoldWindowTooShort))
    } else {
        None
    }
}

/// What the house remembers once it has started.
pub open spec fn recalls(
    state: AutomationState,
    changed: bool,
    parts: RuntimeConfigParts,
    persisted: AutomationState,
    now: RuntimeInstant,
) -> bool {
    let reset_time = parts.circadian.daily_reset_time;
    let day = crate::state::scheduled_reset(now.local_date, now.local_time, reset_time)->Ok_0;
    let due = reset_due(persisted.last_reset_date, day);
    let first = persisted.last_reset_date is None && now.local_time.seconds < reset_time.seconds;
    let scopes = starting_scopes(parts.scopes@, persisted);
    let controls = starting_controls(parts.controls@, persisted);
    &&& state.scopes@ == if due && !first {
        crate::state::all_unfrozen(
            scopes,
            now.monotonic,
            parts.circadian.convergence_duration,
        )
    } else {
        scopes
    }
    &&& state.controls@ == controls
    &&& state.last_reset_date == if due {
        Some(day)
    } else {
        persisted.last_reset_date
    }
    &&& changed == (due || !scope_maps_alike(persisted.scopes@, scopes) || !control_maps_alike(
        persisted.controls@,
        controls,
    ))
    &&& state.wf()
}

/// The house that the parts and what is remembered start.
pub open spec fn starts(
    engine: HouseEngine,
    parts: RuntimeConfigParts,
    persisted: AutomationState,
    now: RuntimeInstant,
) -> bool {
    &&& planned(*engine.plan, parts)
    &&& *engine.adapter == parts.zigbee2mqtt
    &&& *engine.mqtt == parts.mqtt
    &&& engine.almanac.days@.len() == 0
    &&& recalls(engine.state, engine.startup_state_changed, parts, persisted, now)
    &&& forall|k: int|
        0 <= k < engine.overlays@.len() ==> (
        #[trigger] engine.overlays@[k]).overlays.pairs().len() == 0
            && engine.overlays@[k].next_sequence == 0 && engine.overlays@[k].last_observed is None
    &&& engine.classifier.window == parts.input.double_click_window
    &&& engine.classifier.hold == parts.input.ambiguous_hold_window
    &&& engine.classifier.pending.pairs().len() == 0
    &&& engine.classifier.last_observed is None
    &&& crate::reconciler::built(
        device_definitions(parts.devices@),
        group_definitions(parts.groups@),
        parts.retry_policy,
        engine.reconciler@,
    )
    &&& forall|i: int|
        0 <= i < engine.last_targets@.len() ==> (#[trigger] engine.last_targets@[i]) is None
    &&& forall|i: int|
        0 <= i < engine.last_reconciled_at@.len() ==> (
        #[trigger] engine.last_reconciled_at@[i]) is None
    &&& engine.pending_actions@.len() == 0
}

fn recall_state(parts: &RuntimeConfigParts, persisted: &AutomationState, now: RuntimeInstant) -> (result:
    Result<(AutomationState, bool), RuntimeError>)
    requires
        now.wf(),
    ensures
        match result {
            Ok((state, changed)) => {
                &&& starting_fault(parts.scopes@, parts.controls@, *persisted) is None
                &&& crate::state::scheduled_reset(
                    now.local_date,
                    now.local_time,
                    parts.circadian.daily_reset_time,
                ) is Ok
                &&& recalls(state, changed, *parts, *persisted, now)
            },
            Err(error) => {
                &&& startup_fault(*parts, *persisted, now) == Some(error)
            },
        },
{
    let mut state = match normalize_state(persisted, &parts.scopes, &parts.controls) {
        Ok(state) => state,
        Err(error) => return Err(error),
    };
    let same = are_alike(persisted, &state);
    let reset = match state.reset_circadian_if_due(
        now.local_date,
        now.local_time,
        parts.circadian.daily_reset_time,
        now.monotonic,
        parts.circadian.convergence_duration,
    ) {
        Ok(reset) => reset,
        Err(error) => return Err(RuntimeError::State(error)),
    };
    Ok((state, !same || reset.durable_state_changed()))
}

fn no_overlays(count: usize) -> (overlays: Vec<OverlaySet>)
    ensures
        overlays@.len() == count,
        forall|k: int|
            0 <= k < count ==> (#[trigger] overlays@[k]).overlays.pairs().len() == 0
                && overlays@[k].next_sequence == 0 && overlays@[k].last_observed is None,
{
    let mut overlays: Vec<OverlaySet> = Vec::new();
    let mut k: usize = 0;
    while k < count
        invariant
            k <= count,
            overlays@.len() == k,
            forall|j: int|
                0 <= j < k ==> (#[trigger] overlays@[j]).overlays.pairs().len() == 0
                    && overlays@[j].next_sequence == 0 && overlays@[j].last_observed is None,
        decreases count - k,
    {
        overlays.push(OverlaySet::new());
        k = k + 1;
    }
    overlays
}

impl HouseEngine {
    /// Starts a house. What is remembered is fitted to the configuration, and a
    /// daily reset that was missed is carried out.
    pub fn initialize(
        parts: RuntimeConfigParts,
        persisted: AutomationState,
        now: RuntimeInstant,
    ) -> (result: Result<Self, RuntimeError>)
        requires
            parts.wf(),
            now.wf(),
        ensures
            match startup_fault(parts, persisted, now) {
                Some(error) => result == Err::<HouseEngine, RuntimeError>(error),
                None => result matches Ok(engine) && starts(engine, parts, persisted, now)
                    && engine.wf(),
            },
    {
        let ghost given = parts;
        let (state, startup_state_changed) = match recall_state(&parts, &persisted, now) {
            Ok(recalled) => recalled,
            Err(error) => return Err(error),
        };
        if is_curve_missing(&parts.scopes, &parts.curves) {
            return Err(RuntimeError::InvalidTopology(TopologyProblem::MissingCurve));
        }
        let scopes = collect_scopes(&parts.scopes);
        let lights = match collect_lights(&parts.devices, &scopes) {
            Ok(lights) => lights,
            Err(error) => return Err(error),
        };
        if lights.len() == 0 {
            return Err(RuntimeError::InvalidTopology(TopologyProblem::NoControllableDevice));
        }
        let owners = collect_owners(&scopes, &parts.devices, &lights);
        let owner_count: usize = owners.len();
        let owner_curves = plan_curves(&owners, &scopes, &parts.scopes, &parts.curves);
        let devices = plan_lights(&scopes, &parts.devices, &lights, &owners);
        let aliases = collect_aliases(&parts.devices);
        let definitions = define_devices(&parts.devices);
        let (groups, group_definitions) = take_groups(
            parts.groups,
            &lights,
            &devices,
            owner_count,
        );
        let reconciler = match Reconciler::new(
            definitions,
            group_definitions,
            parts.retry_policy,
        ) {
            Ok(reconciler) => reconciler,
            Err(error) => return Err(RuntimeError::Reconcile(error)),
        };
        let classifier = match ClickClassifier::with_hold_window(
            parts.input.double_click_window,
            parts.input.ambiguous_hold_window,
        ) {
            Ok(classifier) => classifier,
            Err(error) => return Err(RuntimeError::Input(error)),
        };
        let controls = take_mappings(parts.controls);
        let light_count: usize = devices.len();
        let plan = HousePlan {
            owners: owner_names(&owners),
            owner_curves,
            curves: parts.curves,
            devices,
            aliases,
            groups,
            controls,
            acknowledgement: parts.acknowledgement,
            circadian: parts.circadian,
            whole_hour: parts.whole_hour,
            reconciliation_timing: parts.reconciliation_timing,
            whole_hour_id: OverlayId { text: String::from_str("whole-hour") },
        };
        assert(planned(plan, given));
        assert(plan.wf()) by {
            assert forall|g: int| 0 <= g < plan.groups@.len() implies plan.group_wf(
                #[trigger] plan.groups@[g],
            ) by {
                assert(group_fits(
                    plan.groups@[g],
                    plan.devices@.len() as int,
                    plan.owners@.len() as int,
                ));
            }
        }
        let engine = HouseEngine {
            plan: Arc::new(plan),
            adapter: Arc::new(parts.zigbee2mqtt),
            mqtt: Arc::new(parts.mqtt),
            almanac: Arc::new(SolarAlmanac::new(Vec::new())),
            state,
            startup_state_changed,
            overlays: no_overlays(owner_count),
            classifier,
            reconciler,
            last_targets: no_targets(light_count),
            last_reconciled_at: no_times(light_count),
            pending_actions: Vec::new(),
        };
        Ok(engine)
    }
}

fn no_targets(count: usize) -> (targets: Vec<Option<LightTarget>>)
    ensures
        targets@ == Seq::new(count as nat, |i: int| None::<LightTarget>),
{
    let mut targets: Vec<Option<LightTarget>> = Vec::new();
    while targets.len() < count
        invariant
            targets@.len() <= count,
            targets@ == Seq::new(targets@.len(), |i: int| None::<LightTarget>),
        decreases count - targets@.len(),
    {
        targets.push(None);
        assert(targets@ =~= Seq::new(targets@.len(), |i: int| None::<LightTarget>));
    }
    targets
}

fn no_times(count: usize) -> (times: Vec<Option<MonotonicTime>>)
    ensures
        times@ == Seq::new(count as nat, |i: int| None::<MonotonicTime>),
{
    let mut times: Vec<Option<MonotonicTime>> = Vec::new();
    while times.len() < count
        invariant
            times@.len() <= count,
            times@ == Seq::new(times@.len(), |i: int| None::<MonotonicTime>),
        decreases count - times@.len(),
    {
        times.push(None);
        assert(times@ =~= Seq::new(times@.len(), |i: int| None::<MonotonicTime>));
    }
    times
}

/// A scope that was not remembered starts off, on its curve and without offsets.
pub proof fn newcomers_start_dark(
    scopes: Seq<ScopeConfiguration>,
    persisted: AutomationState,
    key: Seq<u8>,
)
    requires
        starting_scopes(scopes, persisted).contains_key(key),
        !persisted.scopes@.contains_key(key),
    ensures
        starting_scopes(scopes, persisted)[key] == fresh(),
        !starting_scopes(scopes, persisted)[key].on,
{
}

/// A device is ruled by a scope that it stands in, and by none wider than another
/// configured one that it stands in.
pub proof fn narrowest_scope_rules(
    scopes: Seq<(Scope, usize)>,
    membership: ScopeMembership,
    q: int,
)
    requires
        0 <= q < scopes.len(),
        membership.within(scopes[q].0),
    ensures
        owner_place(scopes, membership) matches Some(p) && 0 <= p < scopes.len()
            && membership.within(scopes[p].0) && scopes[p].0.kind() <= scopes[q].0.kind(),
{
    let room = Scope::Room(membership.room);
    let floor = Scope::Floor(membership.floor);
    let other = scopes[q].0;
    match other {
        Scope::Room(_) => {
            assert(other.key() == room.key());
        },
        Scope::Floor(_) => {
            assert(other.key() == floor.key());
        },
        Scope::House => {},
    }
    assert(crate::ordered::has_key(scopes, other.key()));
    let p = owner_place(scopes, membership)->Some_0;
    let found = scopes[p].0;
    let wanted = if found.key() == room.key() {
        room
    } else if found.key() == floor.key() {
        floor
    } else {
        Scope::House
    };
    assert(found.key() == wanted.key());
    assert(found.key()[0] == found.kind() && wanted.key()[0] == wanted.kind());
    assert(found.key().skip(1) =~= crate::text::bytes_of(found.name()));
    assert(wanted.key().skip(1) =~= crate::text::bytes_of(wanted.name()));
    crate::text::bytes_injective(found.name(), wanted.name());
}

/// In a configuration without a problem every scope finds its curve.
pub proof fn accepted_scopes_find_their_curves(config: RawConfig, parts: RuntimeConfigParts)
    requires
        config.fault() is None,
        config.describes(parts),
    ensures
        !curve_missing(parts.scopes@, parts.curves@),
{
    assert forall|i: int| 0 <= i < parts.scopes@.len() implies curve_place(
        parts.curves@,
        (#[trigger] parts.scopes@[i]).curve.text@,
        0,
    ) is Some by {
        config.scopes_are_lit(i);
        let name = config.scopes@[i].curve()@;
        let c = choose|c: int|
            0 <= c < config.curves@.len() && (#[trigger] config.curves@[c]).id@ == name;
        assert(parts.curves@[c].id.text@ == name);
        lemma_curve_is_placed(parts.curves@, name, 0, c);
    }
}

proof fn lemma_curve_is_placed(
    curves: Seq<CurveConfiguration>,
    name: Seq<char>,
    from: int,
    c: int,
)
    requires
        0 <= from <= c < curves.len(),
        curves[c].id.text@ == name,
    ensures
        curve_place(curves, name, from) is Some,
    decreases c - from,
{
    if curves[from].id.text@ != name {
        lemma_curve_is_placed(curves, name, from + 1, c);
    }
}

} // verus!
