//! Remote input: click classification and the mapping from gestures to actions.
use crate::curve::CurvePoint;
use crate::double::Double;
use crate::ordered::{Duplicate, OrderedKey, SortedMap};
use crate::overlay::{AcknowledgementRequest, AcknowledgementSettings};
use crate::state::{
    AutomationState, ControlId, ControlState, ConvergenceDuration, CurveToggleOutcome,
    MonotonicTime, Scope, ScopeState, StateError, UserOffsets,
};
use vstd::prelude::*;

verus! {

#[derive(Debug, PartialEq)]
pub enum InputError {
    NonFinite,
    NonPositiveClickWindow,
    NonPositiveHoldWindow,
    HoldWindowTooShort,
    DeadlineOverflow,
    MonotonicClockRegressed,
    DuplicateGesture(Gesture),
    SelectScopeRequiresExplicitTarget,
    MissingToggleContext,
    State(StateError),
}

/// How long a second press may take to make a double click.
#[derive(Debug, Clone, Copy, PartialEq)]
pub struct ClickWindow {
    pub value: Double,
}

impl ClickWindow {
    pub fn from_seconds(seconds: Double) -> (result: Result<Self, InputError>)
        ensures
            result == if !seconds.finite() {
                Err(InputError::NonFinite)
            } else if seconds.at_most(Double { bits: 0 }) {
                Err(InputError::NonPositiveClickWindow)
            } else {
                Ok::<ClickWindow, InputError>(ClickWindow { value: seconds })
            },
    {
        if !seconds.is_finite() {
            return Err(InputError::NonFinite);
        }
        if seconds.le(Double::from_bits(0)) {
            return Err(InputError::NonPositiveClickWindow);
        }
        Ok(ClickWindow { value: seconds })
    }
}

/// How long a press that may become a hold waits for one.
#[derive(Debug, Clone, Copy, PartialEq)]
pub struct AmbiguousHoldWindow {
    pub value: Double,
}

impl AmbiguousHoldWindow {
    pub fn from_seconds(seconds: Double) -> (result: Result<Self, InputError>)
        ensures
            result == if !seconds.finite() {
                Err(InputError::NonFinite)
            } else if seconds.at_most(Double { bits: 0 }) {
                Err(InputError::NonPositiveHoldWindow)
            } else {
                Ok::<AmbiguousHoldWindow, InputError>(AmbiguousHoldWindow { value: seconds })
            },
    {
        if !seconds.is_finite() {
            return Err(InputError::NonFinite);
        }
        if seconds.le(Double::from_bits(0)) {
            return Err(InputError::NonPositiveHoldWindow);
        }
        Ok(AmbiguousHoldWindow { value: seconds })
    }
}

#[derive(Debug, Clone, Copy, PartialEq, Eq, PartialOrd, Ord, Structural)]
pub enum Direction {
    Up,
    Down,
    Left,
    Right,
}

/// What a remote reports.
#[derive(Debug, Clone, Copy, PartialEq, Eq, Structural)]
pub enum RawInputEvent {
    Up,
    Down,
    Left,
    Right,
    CenterShort,
    CenterLong,
    CenterRelease,
    /// A press that a hold may still follow.
    AmbiguousCenterPrefix,
    DirectionHold(Direction),
    DirectionRelease(Direction),
}

/// What a user did.
#[derive(Debug, Clone, Copy, PartialEq, Eq, PartialOrd, Ord, Structural)]
pub enum Gesture {
    Up,
    Down,
    Left,
    Right,
    CenterSingle,
    CenterDouble,
    CenterLong,
    CenterRelease,
    DirectionHold(Direction),
    DirectionRelease(Direction),
}

pub type ClassifiedInput = (ControlId, Gesture);

/// A finite change.
#[derive(Debug, Clone, Copy, PartialEq)]
pub struct FiniteDelta {
    pub value: Double,
}

impl FiniteDelta {
    pub open spec fn checked(value: Double) -> Result<FiniteDelta, InputError> {
        if value.finite() {
            Ok(FiniteDelta { value })
        } else {
            Err(InputError::NonFinite)
        }
    }

    pub fn new(value: Double) -> (result: Result<Self, InputError>)
        ensures
            result == FiniteDelta::checked(value),
    {
        if !value.is_finite() {
            return Err(InputError::NonFinite);
        }
        Ok(FiniteDelta { value })
    }

    pub fn get(self) -> (value: Double)
        ensures
            value == self.value,
    {
        self.value
    }
}

/// Which scope a mapping acts on.
#[derive(Debug, PartialEq)]
pub enum ScopeTarget {
    SelectedScope,
    Explicit(Scope),
}

impl Clone for ScopeTarget {
    fn clone(&self) -> (result: Self)
        ensures
            result == *self,
    {
        match self {
            ScopeTarget::SelectedScope => ScopeTarget::SelectedScope,
            ScopeTarget::Explicit(scope) => ScopeTarget::Explicit(scope.clone()),
        }
    }
}

/// What a mapping does.
#[derive(Debug, Clone, Copy, PartialEq)]
pub enum Action {
    AdjustBrightnessOffset(FiniteDelta),
    AdjustColorTemperatureOffset(FiniteDelta),
    TogglePower,
    ToggleCircadian,
    SelectScope,
}

impl Action {
    pub fn brightness_offset(delta: Double) -> (result: Result<Self, InputError>)
        ensures
            result == match FiniteDelta::checked(delta) {
                Ok(delta) => Ok::<Action, InputError>(Action::AdjustBrightnessOffset(delta)),
                Err(error) => Err(error),
            },
    {
        match FiniteDelta::new(delta) {
            Ok(delta) => Ok(Action::AdjustBrightnessOffset(delta)),
            Err(error) => Err(error),
        }
    }

    pub fn color_temperature_offset(delta_kelvin: Double) -> (result: Result<Self, InputError>)
        ensures
            result == match FiniteDelta::checked(delta_kelvin) {
                Ok(delta) => Ok::<Action, InputError>(Action::AdjustColorTemperatureOffset(delta)),
                Err(error) => Err(error),
            },
    {
        match FiniteDelta::new(delta_kelvin) {
            Ok(delta) => Ok(Action::AdjustColorTemperatureOffset(delta)),
            Err(error) => Err(error),
        }
    }

    pub fn is_select_scope(self) -> (result: bool)
        ensures
            result == (self is SelectScope),
    {
        matches!(self, Action::SelectScope)
    }
}

/// One gesture with its action.
#[derive(Debug, PartialEq)]
pub struct MappingEntry {
    pub gesture: Gesture,
    pub target: ScopeTarget,
    pub action: Action,
}

impl Clone for MappingEntry {
    fn clone(&self) -> (result: Self)
        ensures
            result == *self,
    {
        MappingEntry { gesture: self.gesture, target: self.target.clone(), action: self.action }
    }
}

impl MappingEntry {
    /// Scope selection names the scope it selects.
    pub open spec fn wf(self) -> bool {
        self.action is SelectScope ==> self.target is Explicit
    }

    pub fn new(gesture: Gesture, target: ScopeTarget, action: Action) -> (result: Result<
        Self,
        InputError,
    >)
        ensures
            result == if (MappingEntry { gesture, target, action }).wf() {
                Ok::<MappingEntry, InputError>(MappingEntry { gesture, target, action })
            } else {
                Err(InputError::SelectScopeRequiresExplicitTarget)
            },
    {
        if matches!(action, Action::SelectScope) && matches!(target, ScopeTarget::SelectedScope) {
            return Err(InputError::SelectScopeRequiresExplicitTarget);
        }
        Ok(MappingEntry { gesture, target, action })
    }

    pub fn gesture(&self) -> (gesture: Gesture)
        ensures
            gesture == self.gesture,
    {
        self.gesture
    }

    pub fn target(&self) -> (target: &ScopeTarget)
        ensures
            *target == self.target,
    {
        &self.target
    }

    pub fn action(&self) -> (action: Action)
        ensures
            action == self.action,
    {
        self.action
    }
}

/// No gesture occurs twice among the first `n` entries.
pub open spec fn gestures_differ(entries: Seq<MappingEntry>, n: int) -> bool {
    forall|i: int, j: int|
        0 <= i < j < n ==> (#[trigger] entries[i]).gesture != (#[trigger] entries[j]).gesture
}

pub open spec fn gesture_listed(entries: Seq<MappingEntry>, n: int, gesture: Gesture) -> bool {
    exists|i: int| 0 <= i < n && (#[trigger] entries[i]).gesture == gesture
}

/// What each gesture of a control does.
#[derive(Debug, PartialEq)]
pub struct Mapping {
    pub entries: Vec<MappingEntry>,
}

/// What a toggle needs to know.
#[derive(Debug, Clone, Copy)]
pub struct ToggleContext<'a> {
    pub live_curve: CurvePoint,
    pub now: MonotonicTime,
    pub convergence_duration: ConvergenceDuration,
    pub acknowledgement: Option<&'a AcknowledgementSettings>,
}

impl<'a> ToggleContext<'a> {
    pub fn new(
        live_curve: CurvePoint,
        now: MonotonicTime,
        convergence_duration: ConvergenceDuration,
    ) -> (result: Self)
        ensures
            result == (ToggleContext {
                live_curve,
                now,
                convergence_duration,
                acknowledgement: None,
            }),
    {
        ToggleContext { live_curve, now, convergence_duration, acknowledgement: None }
    }

    pub fn with_acknowledgement(self, settings: &'a AcknowledgementSettings) -> (result: Self)
        ensures
            result == (ToggleContext { acknowledgement: Some(settings), ..self }),
    {
        ToggleContext {
            live_curve: self.live_curve,
            now: self.now,
            convergence_duration: self.convergence_duration,
            acknowledgement: Some(settings),
        }
    }
}

/// What actions may need to know.
#[derive(Debug, Clone, Copy)]
pub struct ActionContext<'a> {
    pub toggle: Option<ToggleContext<'a>>,
}

impl<'a> ActionContext<'a> {
    pub fn with_toggle(self, toggle: ToggleContext<'a>) -> (result: Self)
        ensures
            result.toggle == Some(toggle),
    {
        ActionContext { toggle: Some(toggle) }
    }
}

impl<'a> Default for ActionContext<'a> {
    fn default() -> (result: Self)
        ensures
            result.toggle is None,
    {
        ActionContext { toggle: None }
    }
}

/// What an action did.
#[derive(Debug, PartialEq)]
pub enum ActionOutcome {
    BrightnessOffsetAdjusted { scope: Scope, offsets: UserOffsets },
    ColorTemperatureOffsetAdjusted { scope: Scope, offsets: UserOffsets },
    PowerToggled { scope: Scope, on: bool },
    CircadianToggled {
        scope: Scope,
        outcome: CurveToggleOutcome,
        acknowledgement: Option<AcknowledgementRequest>,
    },
    ScopeSelected { scope: Scope },
}

impl Mapping {
    pub open spec fn wf(self) -> bool {
        gestures_differ(self.entries@, self.entries@.len() as int)
    }

    pub open spec fn entry_of(self, gesture: Gesture) -> Option<MappingEntry> {
        if gesture_listed(self.entries@, self.entries@.len() as int, gesture) {
            Some(
                self.entries@[choose|i: int|
                    0 <= i < self.entries@.len() && (#[trigger] self.entries@[i]).gesture
                        == gesture],
            )
        } else {
            None
        }
    }

    /// The scope that `entry` acts on when a control has selected `selected`.
    pub open spec fn resolved(entry: MappingEntry, selected: Scope) -> Scope {
        match entry.target {
            ScopeTarget::SelectedScope => selected,
            ScopeTarget::Explicit(scope) => scope,
        }
    }

    /// Result of toggling the curve of `scope` in `state`.
    pub open spec fn toggle_result(
        state: AutomationState,
        scope: Scope,
        context: ToggleContext<'_>,
    ) -> Result<Option<ActionOutcome>, InputError> {
        let layers = state.layers(scope, context.live_curve, context.now);
        match (
            context.acknowledgement,
            layers,
            state.scopes@[scope.key()].toggled(
                context.live_curve,
                context.now,
                context.convergence_duration,
            ),
        ) {
            (Some(_), Err(error), _) => Err(InputError::State(error)),
            (_, _, Err(error)) => Err(InputError::State(error)),
            (acknowledgement, _, Ok((_, outcome))) => Ok(
                Some(
                    ActionOutcome::CircadianToggled {
                        scope,
                        outcome,
                        acknowledgement: match acknowledgement {
                            Some(settings) => settings.request(outcome, layers->Ok_0),
                            None => None,
                        },
                    },
                ),
            ),
        }
    }

    /// What executing `entry` on the known scope `scope` does.
    pub open spec fn executed(
        entry: MappingEntry,
        before: AutomationState,
        after: AutomationState,
        control_id: ControlId,
        scope: Scope,
        context: ActionContext<'_>,
        result: Result<Option<ActionOutcome>, InputError>,
    ) -> bool {
        let state = before.scopes@[scope.key()];
        match entry.action {
            Action::AdjustBrightnessOffset(delta) => {
                let moved = state.offsets.moved(delta.value, Double { bits: 0 });
                if moved.wf() {
                    result == Ok::<Option<ActionOutcome>, InputError>(
                        Some(ActionOutcome::BrightnessOffsetAdjusted { scope, offsets: moved }),
                    ) && before.with_scope(after, scope, ScopeState { offsets: moved, ..state })
                } else {
                    result == Err::<Option<ActionOutcome>, InputError>(
                        InputError::State(StateError::NonFinite),
                    ) && after == before
                }
            },
            Action::AdjustColorTemperatureOffset(delta) => {
                let moved = state.offsets.moved(Double { bits: 0 }, delta.value);
                if moved.wf() {
                    result == Ok::<Option<ActionOutcome>, InputError>(
                        Some(
                            ActionOutcome::ColorTemperatureOffsetAdjusted { scope, offsets: moved },
                        ),
                    ) && before.with_scope(after, scope, ScopeState { offsets: moved, ..state })
                } else {
                    result == Err::<Option<ActionOutcome>, InputError>(
                        InputError::State(StateError::NonFinite),
                    ) && after == before
                }
            },
            Action::TogglePower => {
                result == Ok::<Option<ActionOutcome>, InputError>(
                    Some(ActionOutcome::PowerToggled { scope, on: !state.on }),
                ) && before.with_scope(after, scope, ScopeState { on: !state.on, ..state })
            },
            Action::ToggleCircadian => match context.toggle {
                None => result == Err::<Option<ActionOutcome>, InputError>(
                    InputError::MissingToggleContext,
                ) && after == before,
                Some(toggle) => {
                    &&& result == Mapping::toggle_result(before, scope, toggle)
                    &&& result is Err ==> after == before
                    &&& result is Ok ==> before.with_scope(
                        after,
                        scope,
                        ScopeState {
                            mode: state.toggled(
                                toggle.live_curve,
                                toggle.now,
                                toggle.convergence_duration,
                            )->Ok_0.0,
                            ..state
                        },
                    )
                },
            },
            Action::SelectScope => {
                &&& result == Ok::<Option<ActionOutcome>, InputError>(
                    Some(ActionOutcome::ScopeSelected { scope }),
                )
                &&& after.scopes == before.scopes
                &&& after.last_reset_date == before.last_reset_date
                &&& after.controls@ == before.controls@.insert(
                    control_id.key(),
                    ControlState { selected_scope: scope },
                )
            },
        }
    }

    pub fn new(entries: Vec<MappingEntry>) -> (result: Result<Self, InputError>)
        ensures
            match result {
                Ok(mapping) => mapping.entries@ == entries@ && mapping.wf(),
                Err(InputError::DuplicateGesture(gesture)) => exists|i: int|
                    {
                        &&& 0 <= i < entries@.len()
                        &&& gestures_differ(entries@, i)
                        &&& gesture_listed(entries@, i, (#[trigger] entries@[i]).gesture)
                        &&& gesture == entries@[i].gesture
                    },
                Err(_) => false,
            },
    {
        let mut i: usize = 0;
        while i < entries.len()
            invariant
                i <= entries@.len(),
                gestures_differ(entries@, i as int),
            decreases entries@.len() - i,
        {
            let mut j: usize = 0;
            while j < i
                invariant
                    j <= i,
                    i < entries@.len(),
                    gestures_differ(entries@, i as int),
                    forall|k: int|
                        0 <= k < j ==> (#[trigger] entries@[k]).gesture != entries@[i as int].gesture,
                decreases i - j,
            {
                if entries[j].gesture == entries[i].gesture {
                    assert(gesture_listed(entries@, i as int, entries@[i as int].gesture));
                    return Err(InputError::DuplicateGesture(entries[i].gesture));
                }
                j = j + 1;
            }
            i = i + 1;
        }
        Ok(Mapping { entries })
    }

    pub fn entry(&self, gesture: Gesture) -> (entry: Option<&MappingEntry>)
        requires
            self.wf(),
        ensures
            match entry {
                Some(found) => self.entry_of(gesture) == Some(*found) && found.gesture == gesture
                    && self.entries@.contains(*found),
                None => self.entry_of(gesture) is None,
            },
    {
        let mut i: usize = 0;
        while i < self.entries.len()
            invariant
                i <= self.entries@.len(),
                self.wf(),
                forall|j: int| 0 <= j < i ==> (#[trigger] self.entries@[j]).gesture != gesture,
            decreases self.entries@.len() - i,
        {
            if self.entries[i].gesture == gesture {
                proof {
                    let k = choose|k: int|
                        0 <= k < self.entries@.len() && (#[trigger] self.entries@[k]).gesture
                            == gesture;
                    assert(self.entries@[i as int].gesture == gesture);
                    assert(k == i);
                }
                return Some(&self.entries[i]);
            }
            i = i + 1;
        }
        None
    }

    pub fn execute(
        &self,
        control_id: &ControlId,
        gesture: Gesture,
        state: &mut AutomationState,
        context: ActionContext<'_>,
    ) -> (result: Result<Option<ActionOutcome>, InputError>)
        requires
            self.wf(),
        ensures
            ({
                let selected = old(state).controls@[control_id.key()].selected_scope;
                let entry = self.entry_of(gesture)->0;
                let scope = Mapping::resolved(entry, selected);
                if !old(state).controls@.contains_key(control_id.key()) {
                    result == Err::<Option<ActionOutcome>, InputError>(
                        InputError::State(StateError::UnknownControl(*control_id)),
                    ) && *final(state) == *old(state)
                } else if self.entry_of(gesture) is None {
                    result == Ok::<Option<ActionOutcome>, InputError>(None) && *final(state)
                        == *old(state)
                } else if !old(state).scopes@.contains_key(scope.key()) {
                    result == Err::<Option<ActionOutcome>, InputError>(
                        InputError::State(StateError::UnknownScope(scope)),
                    ) && *final(state) == *old(state)
                } else {
                    Mapping::executed(
                        entry,
                        *old(state),
                        *final(state),
                        *control_id,
                        scope,
                        context,
                        result,
                    )
                }
            }),
            old(state).wf() ==> final(state).wf(),
    {
        let selected_scope = match state.control_state(control_id) {
            Ok(control) => control.selected_scope.clone(),
            Err(error) => return Err(InputError::State(error)),
        };
        let entry = match self.entry(gesture) {
            Some(entry) => entry,
            None => return Ok(None),
        };
        let scope = match &entry.target {
            ScopeTarget::SelectedScope => selected_scope,
            ScopeTarget::Explicit(scope) => scope.clone(),
        };
        if let Err(error) = state.scope_state(&scope) {
            return Err(InputError::State(error));
        }
        let outcome = match entry.action {
            Action::AdjustBrightnessOffset(delta) => {
                match state.adjust_scope_offsets(&scope, delta.value, Double::from_bits(0)) {
                    Ok(offsets) => ActionOutcome::BrightnessOffsetAdjusted { scope, offsets },
                    Err(error) => return Err(InputError::State(error)),
                }
            },
            Action::AdjustColorTemperatureOffset(delta) => {
                match state.adjust_scope_offsets(&scope, Double::from_bits(0), delta.value) {
                    Ok(offsets) => ActionOutcome::ColorTemperatureOffsetAdjusted { scope, offsets },
                    Err(error) => return Err(InputError::State(error)),
                }
            },
            Action::TogglePower => {
                match state.toggle_scope_power(&scope) {
                    Ok(on) => ActionOutcome::PowerToggled { scope, on },
                    Err(error) => return Err(InputError::State(error)),
                }
            },
            Action::ToggleCircadian => {
                let toggle = match context.toggle {
                    Some(toggle) => toggle,
                    None => return Err(InputError::MissingToggleContext),
                };
                let layers = match toggle.acknowledgement {
                    Some(_) => {
                        match state.compose_scope_layers(&scope, toggle.live_curve, toggle.now) {
                            Ok(layers) => Some(layers),
                            Err(error) => return Err(InputError::State(error)),
                        }
                    },
                    None => None,
                };
                let outcome = match state.toggle_scope_curve(
                    &scope,
                    toggle.live_curve,
                    toggle.now,
                    toggle.convergence_duration,
                ) {
                    Ok(outcome) => outcome,
                    Err(error) => return Err(InputError::State(error)),
                };
                let acknowledgement = match (toggle.acknowledgement, layers) {
                    (Some(settings), Some(layers)) => settings.for_scope_toggle(outcome, &layers),
                    _ => None,
                };
                ActionOutcome::CircadianToggled { scope, outcome, acknowledgement }
            },
            Action::SelectScope => {
                match state.select_control_scope(control_id, scope.clone()) {
                    Ok(()) => ActionOutcome::ScopeSelected { scope },
                    Err(error) => return Err(InputError::State(error)),
                }
            },
        };
        Ok(Some(outcome))
    }
}

impl Default for Mapping {
    fn default() -> (result: Self)
        ensures
            result.entries@ == Seq::<MappingEntry>::empty(),
            result.wf(),
    {
        Mapping { entries: Vec::new() }
    }
}

/// A press that is not yet told apart.
#[derive(Debug, Clone, Copy, PartialEq)]
pub struct PendingClick {
    /// Last moment at which a second press makes a double click.
    pub deadline: Double,
    /// Last moment before the press counts as a single click.
    pub resolves: Double,
    /// A hold may still follow.
    pub ambiguous: bool,
}

impl Duplicate for PendingClick {
    fn duplicate(&self) -> (result: Self) {
        *self
    }
}

/// Whether `pending` has become a single click.
pub open spec fn is_due(pending: PendingClick, now: MonotonicTime) -> bool {
    pending.resolves.less(now.value)
}

/// The pending clicks that are due (`due`) or still open (`!due`) at `now`.
pub open spec fn selected_clicks(
    pairs: Seq<(ControlId, PendingClick)>,
    now: MonotonicTime,
    due: bool,
) -> Seq<(ControlId, PendingClick)>
    decreases pairs.len(),
{
    if pairs.len() == 0 {
        Seq::empty()
    } else {
        let rest = selected_clicks(pairs.drop_last(), now, due);
        if is_due(pairs.last().1, now) == due {
            rest.push(pairs.last())
        } else {
            rest
        }
    }
}

/// Number of leading clicks that resolve no later than `click`.
pub open spec fn click_place(
    ordered: Seq<(ControlId, PendingClick)>,
    click: PendingClick,
) -> int
    decreases ordered.len(),
{
    if ordered.len() == 0 || click.resolves.less(ordered[0].1.resolves) {
        0
    } else {
        1 + click_place(ordered.drop_first(), click)
    }
}

/// The clicks by the time they resolve; those of one time keep their order.
pub open spec fn by_resolution(clicks: Seq<(ControlId, PendingClick)>) -> Seq<
    (ControlId, PendingClick),
>
    decreases clicks.len(),
{
    if clicks.len() == 0 {
        Seq::empty()
    } else {
        let rest = by_resolution(clicks.drop_last());
        rest.insert(click_place(rest, clicks.last().1), clicks.last())
    }
}

pub open spec fn singles(clicks: Seq<(ControlId, PendingClick)>) -> Seq<ClassifiedInput> {
    Seq::new(clicks.len(), |i: int| (clicks[i].0, Gesture::CenterSingle))
}

/// The single clicks that are due at `now`, earliest first.
pub open spec fn due_events(pairs: Seq<(ControlId, PendingClick)>, now: MonotonicTime) -> Seq<
    ClassifiedInput,
> {
    singles(by_resolution(selected_clicks(pairs, now, true)))
}

proof fn lemma_click_place(
    ordered: Seq<(ControlId, PendingClick)>,
    click: PendingClick,
    i: int,
)
    requires
        0 <= i <= ordered.len(),
        forall|j: int| 0 <= j < i ==> !click.resolves.less((#[trigger] ordered[j]).1.resolves),
        i < ordered.len() ==> click.resolves.less(ordered[i].1.resolves),
    ensures
        click_place(ordered, click) == i,
    decreases i,
{
    if i > 0 {
        let rest = ordered.drop_first();
        assert(!click.resolves.less(ordered[0].1.resolves));
        assert forall|j: int| 0 <= j < i - 1 implies !click.resolves.less(
            (#[trigger] rest[j]).1.resolves,
        ) by {
            assert(rest[j] == ordered[j + 1]);
        }
        lemma_click_place(rest, click, i - 1);
    }
}

proof fn lemma_click_place_range(
    ordered: Seq<(ControlId, PendingClick)>,
    click: PendingClick,
)
    ensures
        0 <= click_place(ordered, click) <= ordered.len(),
        forall|j: int|
            0 <= j < click_place(ordered, click) ==> !click.resolves.less(
                (#[trigger] ordered[j]).1.resolves,
            ),
        click_place(ordered, click) < ordered.len() ==> click.resolves.less(
            ordered[click_place(ordered, click)].1.resolves,
        ),
    decreases ordered.len(),
{
    if ordered.len() > 0 && !click.resolves.less(ordered[0].1.resolves) {
        let rest = ordered.drop_first();
        lemma_click_place_range(rest, click);
        assert forall|j: int| 0 <= j < click_place(ordered, click) implies !click.resolves.less(
            (#[trigger] ordered[j]).1.resolves,
        ) by {
            if j > 0 {
                assert(rest[j - 1] == ordered[j]);
            }
        }
    }
}

/// Due clicks come out from the earliest to the latest; none is lost or added.
pub proof fn due_in_order(clicks: Seq<(ControlId, PendingClick)>)
    ensures
        by_resolution(clicks).len() == clicks.len(),
        by_resolution(clicks).to_multiset() == clicks.to_multiset(),
        forall|i: int, j: int|
            0 <= i < j < by_resolution(clicks).len() ==> !(#[trigger] by_resolution(
                clicks,
            )[j]).1.resolves.less((#[trigger] by_resolution(clicks)[i]).1.resolves),
    decreases clicks.len(),
{
    broadcast use vstd::seq_lib::group_to_multiset_ensures;

    if clicks.len() > 0 {
        let rest = by_resolution(clicks.drop_last());
        let last = clicks.last();
        due_in_order(clicks.drop_last());
        lemma_click_place_range(rest, last.1);
        let p = click_place(rest, last.1);
        let next = rest.insert(p, last);
        assert forall|i: int, j: int| 0 <= i < j < next.len() implies !(
        #[trigger] next[j]).1.resolves.less((#[trigger] next[i]).1.resolves) by {
            let x = if i < p { i } else { i - 1 };
            let y = if j < p { j } else { j - 1 };
            if i == p {
                assert(next[j] == rest[y]);
                if y > p {
                    assert(!rest[y].1.resolves.less(rest[p].1.resolves));
                }
            } else if j == p {
                assert(next[i] == rest[x]);
            } else {
                assert(next[i] == rest[x] && next[j] == rest[y]);
            }
        }
        vstd::seq_lib::to_multiset_insert(rest, p, last);
        assert(clicks =~= clicks.drop_last().push(last));
    } else {
        assert(clicks =~= Seq::<(ControlId, PendingClick)>::empty());
    }
}

/// A click of the chosen kind is selected.
pub(crate) proof fn lemma_selected(
    pairs: Seq<(ControlId, PendingClick)>,
    now: MonotonicTime,
    due: bool,
    k: int,
)
    requires
        0 <= k < pairs.len(),
        is_due(pairs[k].1, now) == due,
    ensures
        exists|j: int|
            0 <= j < selected_clicks(pairs, now, due).len() && #[trigger] selected_clicks(
                pairs,
                now,
                due,
            )[j] == pairs[k],
    decreases pairs.len(),
{
    let all = selected_clicks(pairs, now, due);
    if k == pairs.len() - 1 {
        assert(all[all.len() - 1] == pairs[k]);
    } else {
        let rest = selected_clicks(pairs.drop_last(), now, due);
        lemma_selected(pairs.drop_last(), now, due, k);
        let j = choose|j: int| 0 <= j < rest.len() && #[trigger] rest[j] == pairs.drop_last()[k];
        assert(all[j] == pairs[k]);
    }
}

/// Every selected click is one of the pairs.
pub(crate) proof fn lemma_selection(
    pairs: Seq<(ControlId, PendingClick)>,
    now: MonotonicTime,
    due: bool,
)
    requires
        crate::ordered::ascending(pairs),
    ensures
        forall|j: int|
            0 <= j < selected_clicks(pairs, now, due).len() ==> exists|k: int|
                0 <= k < pairs.len() && pairs[k] == #[trigger] selected_clicks(pairs, now, due)[j],
        forall|j: int|
            0 <= j < selected_clicks(pairs, now, due).len() ==> is_due(
                (#[trigger] selected_clicks(pairs, now, due)[j]).1,
                now,
            ) == due,
    decreases pairs.len(),
{
    if pairs.len() > 0 {
        let shorter = pairs.drop_last();
        assert(crate::ordered::ascending(shorter));
        lemma_selection(shorter, now, due);
        let rest = selected_clicks(shorter, now, due);
        let all = selected_clicks(pairs, now, due);
        assert forall|j: int| 0 <= j < all.len() implies exists|k: int|
            0 <= k < pairs.len() && pairs[k] == #[trigger] all[j] by {
            if j < rest.len() {
                let k = choose|k: int| 0 <= k < shorter.len() && shorter[k] == rest[j];
                assert(pairs[k] == all[j]);
            } else {
                assert(pairs[pairs.len() - 1] == all[j]);
            }
        }
    }
}

/// Selected clicks stay in the order of their controls.
pub(crate) proof fn lemma_selection_ascends(
    pairs: Seq<(ControlId, PendingClick)>,
    now: MonotonicTime,
    due: bool,
)
    requires
        crate::ordered::ascending(pairs),
    ensures
        crate::ordered::ascending(selected_clicks(pairs, now, due)),
    decreases pairs.len(),
{
    if pairs.len() > 0 {
        let shorter = pairs.drop_last();
        assert(crate::ordered::ascending(shorter));
        lemma_selection_ascends(shorter, now, due);
        lemma_selection(shorter, now, due);
        let rest = selected_clicks(shorter, now, due);
        let all = selected_clicks(pairs, now, due);
        assert forall|i: int, j: int| 0 <= i < j < all.len() implies crate::text::before(
            (#[trigger] all[i]).0.key(),
            (#[trigger] all[j]).0.key(),
        ) by {
            assert(all[i] == rest[i]);
            let x = choose|x: int| 0 <= x < shorter.len() && shorter[x] == rest[i];
            assert(pairs[x] == rest[i]);
            if j < rest.len() {
                assert(all[j] == rest[j]);
            } else {
                assert(all[j] == pairs[pairs.len() - 1]);
            }
        }
    }
}

/// A click is either told or left waiting, and one that has been told is not told
/// again.
pub proof fn clicks_are_told_once(pairs: Seq<(ControlId, PendingClick)>, now: MonotonicTime)
    ensures
        due_events(pairs, now).len() + selected_clicks(pairs, now, false).len() == pairs.len(),
        due_events(selected_clicks(pairs, now, false), now).len() == 0,
    decreases pairs.len(),
{
    due_in_order(selected_clicks(pairs, now, true));
    due_in_order(selected_clicks(selected_clicks(pairs, now, false), now, true));
    if pairs.len() > 0 {
        let shorter = pairs.drop_last();
        clicks_are_told_once(shorter, now);
        due_in_order(selected_clicks(shorter, now, true));
        due_in_order(selected_clicks(selected_clicks(shorter, now, false), now, true));
        let waiting = selected_clicks(pairs, now, false);
        if !is_due(pairs.last().1, now) {
            assert(waiting.drop_last() =~= selected_clicks(shorter, now, false));
        }
    }
}

/// Tells single, double and long presses apart.
#[derive(Debug, PartialEq)]
pub struct ClickClassifier {
    pub window: ClickWindow,
    pub hold: AmbiguousHoldWindow,
    pub pending: SortedMap<ControlId, PendingClick>,
    pub last_observed: Option<MonotonicTime>,
}

/// Whether `raw` is a press that a second one may follow.
pub open spec fn starts_click(raw: RawInputEvent) -> bool {
    raw is CenterShort || raw is AmbiguousCenterPrefix
}

/// The gesture that `raw` is by itself.
pub open spec fn direct_gesture(raw: RawInputEvent) -> Gesture {
    match raw {
        RawInputEvent::Up => Gesture::Up,
        RawInputEvent::Down => Gesture::Down,
        RawInputEvent::Left => Gesture::Left,
        RawInputEvent::Right => Gesture::Right,
        RawInputEvent::CenterLong => Gesture::CenterLong,
        RawInputEvent::CenterRelease => Gesture::CenterRelease,
        RawInputEvent::DirectionHold(direction) => Gesture::DirectionHold(direction),
        RawInputEvent::DirectionRelease(direction) => Gesture::DirectionRelease(direction),
        RawInputEvent::CenterShort | RawInputEvent::AmbiguousCenterPrefix => Gesture::CenterSingle,
    }
}

impl ClickClassifier {
    /// The clock has gone back since the last operation.
    pub open spec fn regressed(self, now: MonotonicTime) -> bool {
        self.last_observed matches Some(previous) && now.value.less(previous.value)
    }

    /// A press at `now` would complete a double click.
    pub open spec fn completes_double(self, key: Seq<u8>, now: MonotonicTime) -> bool {
        &&& self.pending@.contains_key(key)
        &&& now.value.at_most(self.pending@[key].deadline)
        &&& !is_due(self.pending@[key], now)
    }

    /// What a first press at `now` waits for.
    pub open spec fn fresh(self, raw: RawInputEvent, now: MonotonicTime) -> PendingClick {
        let deadline = now.value.sum(self.window.value);
        let ambiguous = raw is AmbiguousCenterPrefix;
        PendingClick {
            deadline,
            resolves: if ambiguous {
                now.value.sum(self.hold.value)
            } else {
                deadline
            },
            ambiguous,
        }
    }

    pub open spec fn usable(deadline: Double, now: MonotonicTime) -> bool {
        deadline.finite() && !deadline.at_most(now.value)
    }

    /// A first press whose deadlines cannot be told from `now`.
    pub open spec fn overflows(self, key: Seq<u8>, raw: RawInputEvent, now: MonotonicTime) -> bool {
        &&& starts_click(raw)
        &&& !self.completes_double(key, now)
        &&& !ClickClassifier::usable(self.fresh(raw, now).deadline, now)
            || !ClickClassifier::usable(self.fresh(raw, now).resolves, now)
    }

    /// The clicks that stay pending once `raw` came in at `now`.
    pub open spec fn pending_after(
        self,
        control: ControlId,
        raw: RawInputEvent,
        now: MonotonicTime,
    ) -> Seq<(ControlId, PendingClick)> {
        let waiting = selected_clicks(self.pending.pairs(), now, false);
        let i = crate::ordered::index_of(waiting, control.key());
        if !crate::ordered::has_key(waiting, control.key()) {
            if starts_click(raw) {
                crate::ordered::with_pair(waiting, control, self.fresh(raw, now))
            } else {
                waiting
            }
        } else if starts_click(raw) {
            if now.value.at_most(waiting[i].1.deadline) {
                waiting.remove(i)
            } else {
                crate::ordered::with_pair(waiting, control, self.fresh(raw, now))
            }
        } else if raw is CenterLong || raw is CenterRelease {
            waiting.remove(i)
        } else {
            waiting
        }
    }

    /// The gestures that follow those that are due when `raw` comes in.
    pub open spec fn gestures_of(
        self,
        control: ControlId,
        raw: RawInputEvent,
        now: MonotonicTime,
    ) -> Seq<ClassifiedInput> {
        let waiting = selected_clicks(self.pending.pairs(), now, false);
        let click = waiting[crate::ordered::index_of(waiting, control.key())].1;
        let open = crate::ordered::has_key(waiting, control.key());
        if starts_click(raw) {
            if !open {
                seq![]
            } else if now.value.at_most(click.deadline) {
                seq![(control, Gesture::CenterDouble)]
            } else {
                seq![(control, Gesture::CenterSingle)]
            }
        } else if open && (raw is CenterRelease || (raw is CenterLong && !click.ambiguous)) {
            seq![(control, Gesture::CenterSingle), (control, direct_gesture(raw))]
        } else {
            seq![(control, direct_gesture(raw))]
        }
    }

    /// A press on one control leaves the clicks of every other control as they wait.
    pub proof fn controls_stay_apart(
        self,
        control: ControlId,
        raw: RawInputEvent,
        now: MonotonicTime,
        other: Seq<u8>,
    )
        requires
            crate::ordered::ascending(self.pending.pairs()),
            other != control.key(),
        ensures
            ({
                let before = crate::ordered::map_of(
                    selected_clicks(self.pending.pairs(), now, false),
                );
                let after = crate::ordered::map_of(self.pending_after(control, raw, now));
                &&& after.contains_key(other) == before.contains_key(other)
                &&& after.contains_key(other) ==> after[other] == before[other]
            }),
    {
        let waiting = selected_clicks(self.pending.pairs(), now, false);
        lemma_selection_ascends(self.pending.pairs(), now, false);
        crate::ordered::pair_is_put(waiting, control, self.fresh(raw, now));
        if crate::ordered::has_key(waiting, control.key()) {
            crate::ordered::pair_is_taken(waiting, control.key());
        }
    }

    /// An exact copy.
    pub fn copied(&self) -> (result: Self)
        ensures
            result.window == self.window,
            result.hold == self.hold,
            result.pending.pairs() == self.pending.pairs(),
            result.last_observed == self.last_observed,
    {
        ClickClassifier {
            window: self.window,
            hold: self.hold,
            pending: self.pending.copied(),
            last_observed: self.last_observed,
        }
    }

    pub fn new(window: ClickWindow) -> (result: Self)
        ensures
            result.window == window,
            result.hold.value == window.value,
            result.pending.pairs() == Seq::<(ControlId, PendingClick)>::empty(),
            result.last_observed is None,
    {
        ClickClassifier {
            window,
            hold: AmbiguousHoldWindow { value: window.value },
            pending: SortedMap::new(),
            last_observed: None,
        }
    }

    /// A classifier that lets a press become a hold within `hold`, which may
    /// not be shorter than the double-click window.
    pub fn with_hold_window(window: ClickWindow, hold: AmbiguousHoldWindow) -> (result: Result<
        Self,
        InputError,
    >)
        ensures
            match result {
                Ok(classifier) => {
                    &&& !hold.value.less(window.value)
                    &&& classifier.window == window
                    &&& classifier.hold == hold
                    &&& classifier.pending.pairs() == Seq::<(ControlId, PendingClick)>::empty()
                    &&& classifier.last_observed is None
                },
                Err(error) => hold.value.less(window.value) && error
                    == InputError::HoldWindowTooShort,
            },
    {
        if hold.value.lt(window.value) {
            return Err(InputError::HoldWindowTooShort);
        }
        Ok(ClickClassifier { window, hold, pending: SortedMap::new(), last_observed: None })
    }

    /// The time after which the next pending press becomes a single click.
    pub fn next_deadline(&self) -> (deadline: Option<MonotonicTime>)
        ensures
            match deadline {
                None => self.pending.pairs().len() == 0,
                Some(time) => {
                    &&& exists|i: int|
                        0 <= i < self.pending.pairs().len() && (
                        #[trigger] self.pending.pairs()[i]).1.resolves == time.value
                    &&& forall|i: int|
                        0 <= i < self.pending.pairs().len() ==> !(
                        #[trigger] self.pending.pairs()[i]).1.resolves.less(time.value)
                },
            },
    {
        let count: usize = self.pending.len();
        if count == 0 {
            return None;
        }
        let mut best = self.pending.value_at(0).resolves;
        let ghost mut found = 0int;
        let mut i: usize = 1;
        while i < count
            invariant
                1 <= i <= count,
                count == self.pending.pairs().len(),
                0 <= found < i,
                self.pending.pairs()[found].1.resolves == best,
                forall|j: int|
                    0 <= j < i ==> !(#[trigger] self.pending.pairs()[j]).1.resolves.less(best),
            decreases count - i,
        {
            let candidate = self.pending.value_at(i).resolves;
            if candidate.lt(best) {
                best = candidate;
                proof {
                    found = i as int;
                }
            }
            i = i + 1;
        }
        assert(self.pending.pairs()[found].1.resolves == best);
        Some(MonotonicTime { value: best })
    }

    fn validate_monotonic(&self, now: MonotonicTime) -> (result: Result<(), InputError>)
        ensures
            result == if self.regressed(now) {
                Err::<(), InputError>(InputError::MonotonicClockRegressed)
            } else {
                Ok(())
            },
    {
        if let Some(previous) = self.last_observed {
            if now.is_before(previous) {
                return Err(InputError::MonotonicClockRegressed);
            }
        }
        Ok(())
    }

    /// The deadlines of a first press.
    fn deadlines(&self, raw: RawInputEvent, now: MonotonicTime) -> (result: Option<PendingClick>)
        ensures
            result == if ClickClassifier::usable(self.fresh(raw, now).deadline, now)
                && ClickClassifier::usable(self.fresh(raw, now).resolves, now) {
                Some(self.fresh(raw, now))
            } else {
                None
            },
    {
        let deadline = now.value.plus(self.window.value);
        let ambiguous = raw == RawInputEvent::AmbiguousCenterPrefix;
        let resolves = if ambiguous {
            now.value.plus(self.hold.value)
        } else {
            deadline
        };
        if !deadline.is_finite() || deadline.le(now.value) {
            return None;
        }
        if !resolves.is_finite() || resolves.le(now.value) {
            return None;
        }
        Some(PendingClick { deadline, resolves, ambiguous })
    }

    /// Takes the clicks that are due out of the pending ones.
    fn take_due(&mut self, now: MonotonicTime) -> (events: Vec<ClassifiedInput>)
        ensures
            events@ == due_events(old(self).pending.pairs(), now),
            final(self).pending.pairs() == selected_clicks(old(self).pending.pairs(), now, false),
            final(self).window == old(self).window,
            final(self).hold == old(self).hold,
            final(self).last_observed == old(self).last_observed,
    {
        let ghost before = self.pending.pairs();
        let count: usize = self.pending.len();
        let mut kept: SortedMap<ControlId, PendingClick> = SortedMap::new();
        let mut due: Vec<(ControlId, PendingClick)> = Vec::new();
        let mut i: usize = 0;
        assert(before.take(0) =~= Seq::<(ControlId, PendingClick)>::empty());
        while i < count
            invariant
                i <= count,
                count == before.len(),
                before == self.pending.pairs(),
                crate::ordered::ascending(before),
                kept.pairs() == selected_clicks(before.take(i as int), now, false),
                due@ == by_resolution(selected_clicks(before.take(i as int), now, true)),
                *self == *old(self),
            decreases count - i,
        {
            let ghost here = before.take(i as int);
            let ghost next = before.take(i + 1);
            proof {
                assert(next.drop_last() =~= here);
                assert(next.last() == before[i as int]);
                assert(crate::ordered::ascending(here));
                lemma_selection(here, now, false);
                lemma_click_place_range(due@, before[i as int].1);
            }
            let id = self.pending.key_at(i).clone();
            let click = *self.pending.value_at(i);
            if click.resolves.lt(now.value) {
                let mut p: usize = 0;
                while p < due.len() && !click.resolves.lt(due[p].1.resolves)
                    invariant
                        p <= due@.len(),
                        forall|j: int|
                            0 <= j < p ==> !click.resolves.less((#[trigger] due@[j]).1.resolves),
                    decreases due@.len() - p,
                {
                    p = p + 1;
                }
                proof {
                    lemma_click_place(due@, click, p as int);
                    let selected = selected_clicks(next, now, true);
                    assert(selected == selected_clicks(here, now, true).push(before[i as int]));
                    assert(selected.drop_last() =~= selected_clicks(here, now, true));
                }
                due.insert(p, (id, click));
            } else {
                proof {
                    assert forall|j: int| 0 <= j < kept.pairs().len() implies crate::text::before(
                        (#[trigger] kept.pairs()[j]).0.key(),
                        id.key(),
                    ) by {
                        let chosen = selected_clicks(here, now, false)[j];
                        let k = choose|k: int| 0 <= k < here.len() && here[k] == chosen;
                        assert(before[k] == kept.pairs()[j]);
                        assert(before[i as int].0 == id);
                    }
                }
                kept.push_last(id, click);
            }
            i = i + 1;
        }
        assert(before.take(count as int) =~= before);
        self.pending = kept;
        let mut events: Vec<ClassifiedInput> = Vec::new();
        let mut j: usize = 0;
        while j < due.len()
            invariant
                j <= due@.len(),
                events@ == singles(due@).take(j as int),
            decreases due@.len() - j,
        {
            events.push((due[j].0.clone(), Gesture::CenterSingle));
            assert(events@ =~= singles(due@).take(j + 1));
            j = j + 1;
        }
        assert(events@ =~= singles(due@));
        events
    }

    pub fn ingest(&mut self, control_id: ControlId, raw: RawInputEvent, now: MonotonicTime) -> (result:
        Result<Vec<ClassifiedInput>, InputError>)
        ensures
            final(self).window == old(self).window,
            final(self).hold == old(self).hold,
            if old(self).regressed(now) {
                result == Err::<Vec<ClassifiedInput>, InputError>(
                    InputError::MonotonicClockRegressed,
                ) && *final(self) == *old(self)
            } else if old(self).overflows(control_id.key(), raw, now) {
                result == Err::<Vec<ClassifiedInput>, InputError>(InputError::DeadlineOverflow)
                    && *final(self) == *old(self)
            } else {
                &&& result matches Ok(events)
                &&& events@ == due_events(old(self).pending.pairs(), now) + old(self).gestures_of(
                    control_id,
                    raw,
                    now,
                )
                &&& final(self).pending.pairs() == old(self).pending_after(control_id, raw, now)
                &&& final(self).last_observed == Some(now)
            },
    {
        if let Err(error) = self.validate_monotonic(now) {
            return Err(error);
        }
        let first = match raw {
            RawInputEvent::CenterShort | RawInputEvent::AmbiguousCenterPrefix => {
                let doubles = match self.pending.get(&control_id) {
                    Some(click) => now.value.le(click.deadline) && !click.resolves.lt(now.value),
                    None => false,
                };
                if doubles {
                    None
                } else {
                    match self.deadlines(raw, now) {
                        Some(click) => Some(click),
                        None => return Err(InputError::DeadlineOverflow),
                    }
                }
            },
            _ => None,
        };
        let ghost doubles = self.completes_double(control_id.key(), now);
        let ghost before = self.pending.pairs();
        let _ = self.pending.len();
        let mut events = self.take_due(now);
        let ghost waiting = self.pending.pairs();
        let ghost due = events@;
        let position = self.pending.position(&control_id);
        proof {
            if position is Some {
                lemma_selection(before, now, false);
                let k = choose|k: int|
                    0 <= k < before.len() && before[k] == selected_clicks(
                        before,
                        now,
                        false,
                    )[position->0 as int];
                crate::ordered::pair_is_mapped(before, k);
            } else if doubles {
                let k = crate::ordered::index_of(before, control_id.key());
                crate::ordered::pair_is_mapped(before, k);
                lemma_selected(before, now, false, k);
                crate::ordered::pair_is_mapped(
                    waiting,
                    choose|j: int| 0 <= j < waiting.len() && waiting[j] == before[k],
                );
            }
        }
        match raw {
            RawInputEvent::CenterShort | RawInputEvent::AmbiguousCenterPrefix => {
                match (position, first) {
                    (Some(i), None) => {
                        let _ = self.pending.remove_at(i);
                        events.push((control_id, Gesture::CenterDouble));
                    },
                    (Some(_), Some(click)) => {
                        self.pending.set(control_id.clone(), click);
                        events.push((control_id, Gesture::CenterSingle));
                    },
                    (None, Some(click)) => {
                        self.pending.set(control_id, click);
                    },
                    (None, None) => {},
                }
            },
            RawInputEvent::CenterLong => {
                if let Some(i) = position {
                    let (_, click) = self.pending.remove_at(i);
                    if !click.ambiguous {
                        events.push((control_id.clone(), Gesture::CenterSingle));
                    }
                }
                events.push((control_id, Gesture::CenterLong));
            },
            RawInputEvent::CenterRelease => {
                if let Some(i) = position {
                    let _ = self.pending.remove_at(i);
                    events.push((control_id.clone(), Gesture::CenterSingle));
                }
                events.push((control_id, Gesture::CenterRelease));
            },
            RawInputEvent::Up => events.push((control_id, Gesture::Up)),
            RawInputEvent::Down => events.push((control_id, Gesture::Down)),
            RawInputEvent::Left => events.push((control_id, Gesture::Left)),
            RawInputEvent::Right => events.push((control_id, Gesture::Right)),
            RawInputEvent::DirectionHold(direction) => {
                events.push((control_id, Gesture::DirectionHold(direction)))
            },
            RawInputEvent::DirectionRelease(direction) => {
                events.push((control_id, Gesture::DirectionRelease(direction)))
            },
        }
        assert(events@ =~= due + old(self).gestures_of(control_id, raw, now));
        self.last_observed = Some(now);
        Ok(events)
    }

    pub fn flush_due(&mut self, now: MonotonicTime) -> (result: Result<
        Vec<ClassifiedInput>,
        InputError,
    >)
        ensures
            final(self).window == old(self).window,
            final(self).hold == old(self).hold,
            if old(self).regressed(now) {
                result == Err::<Vec<ClassifiedInput>, InputError>(
                    InputError::MonotonicClockRegressed,
                ) && *final(self) == *old(self)
            } else {
                &&& result matches Ok(events)
                &&& events@ == due_events(old(self).pending.pairs(), now)
                &&& final(self).pending.pairs() == selected_clicks(
                    old(self).pending.pairs(),
                    now,
                    false,
                )
                &&& final(self).last_observed == Some(now)
            },
    {
        if let Err(error) = self.validate_monotonic(now) {
            return Err(error);
        }
        let events = self.take_due(now);
        self.last_observed = Some(now);
        Ok(events)
    }
}

} // verus!
