//! What actions do to the rooms, floors and house they are aimed at.
use crate::amount::size_of;
use crate::double::Double;
use crate::input::Action;
use crate::light::slack;
use crate::ordered::OrderedKey;
use crate::runtime::{Acting, EngineModel, HousePlan, RuntimeInstant};
use crate::solar::SolarAlmanac;
use crate::state::{Scope, ScopeState};
use vstd::prelude::*;

verus! {

/// Device `i` stands in the room, on the floor or in the house that is meant.
pub open spec fn stands_in(plan: HousePlan, i: int, target: Scope) -> bool {
    match target {
        Scope::House => true,
        Scope::Floor(floor) => plan.devices@[i].membership.floor.text@ == floor.text@,
        Scope::Room(room) => plan.devices@[i].membership.room.text@ == room.text@,
    }
}

/// The scope that rules device `i`.
pub open spec fn ruler(plan: HousePlan, i: int) -> Seq<u8> {
    plan.owners@[plan.devices@[i].owner as int].key()
}

/// The state of the scope that rules device `i`.
pub open spec fn ruling(plan: HousePlan, scopes: Map<Seq<u8>, ScopeState>, i: int) -> ScopeState {
    scopes[ruler(plan, i)]
}

/// Some device in `target` is ruled by a scope that is on.
pub open spec fn lit(plan: HousePlan, scopes: Map<Seq<u8>, ScopeState>, target: Scope) -> bool {
    exists|i: int|
        0 <= i < plan.devices@.len() && #[trigger] stands_in(plan, i, target)
            && scopes.contains_key(ruler(plan, i)) && ruling(plan, scopes, i).on
}

/// Every device in `target` is ruled by a scope that is frozen.
pub open spec fn still(plan: HousePlan, scopes: Map<Seq<u8>, ScopeState>, target: Scope) -> bool {
    forall|i: int|
        0 <= i < plan.devices@.len() && #[trigger] stands_in(plan, i, target)
            ==> scopes.contains_key(ruler(plan, i)) && ruling(plan, scopes, i).mode is Frozen
}

/// `key` rules no device in `target`.
pub open spec fn elsewhere(plan: HousePlan, key: Seq<u8>, target: Scope) -> bool {
    forall|i: int|
        0 <= i < plan.devices@.len() && #[trigger] stands_in(plan, i, target) ==> ruler(plan, i)
            != key
}

/// The owner of a device in the target is affected, and an affected owner has one.
proof fn lemma_affected(plan: HousePlan, target: Scope)
    requires
        plan.wf(),
    ensures
        forall|i: int|
            0 <= i < plan.devices@.len() && #[trigger] stands_in(plan, i, target)
                ==> plan.affected(target)[plan.devices@[i].owner as int],
        forall|k: int|
            0 <= k < plan.owners@.len() && #[trigger] plan.affected(target)[k] ==> exists|i: int|
                0 <= i < plan.devices@.len() && #[trigger] stands_in(plan, i, target)
                    && plan.devices@[i].owner == k,
        plan.affected(target).len() == plan.owners@.len(),
{
    assert forall|i: int|
        0 <= i < plan.devices@.len() && #[trigger] stands_in(plan, i, target) implies plan.affected(
        target,
    )[plan.devices@[i].owner as int] by {
        assert(plan.devices@[i].membership.within(target));
        assert(plan.affects(plan.devices@[i].owner as int, target));
    }
    assert forall|k: int|
        0 <= k < plan.owners@.len() && #[trigger] plan.affected(target)[k] implies exists|i: int|
        0 <= i < plan.devices@.len() && #[trigger] stands_in(plan, i, target)
            && plan.devices@[i].owner == k by {
        assert(plan.affects(k, target));
        let i = choose|i: int|
            0 <= i < plan.devices@.len() && (#[trigger] plan.devices@[i]).owner == k
                && plan.devices@[i].membership.within(target);
        assert(stands_in(plan, i, target));
    }
}

/// What of a scope an action leaves alone.
pub open spec fn kept(action: Action, old: ScopeState, new: ScopeState) -> bool {
    match action {
        Action::TogglePower => new.offsets == old.offsets && new.mode == old.mode,
        Action::ToggleCircadian => new.offsets == old.offsets && new.on == old.on,
        Action::SelectScope => new == old,
        _ => new.on == old.on && new.mode == old.mode,
    }
}

/// What holds of scopes after the first `n` owners have been acted on.
spec fn underway(
    plan: HousePlan,
    start: Map<Seq<u8>, ScopeState>,
    done: Map<Seq<u8>, ScopeState>,
    action: Action,
    flag: bool,
    mask: Seq<bool>,
    n: int,
) -> bool {
    &&& done.dom() == start.dom()
    &&& forall|key: Seq<u8>|
        #[trigger] done.contains_key(key) ==> kept(action, start[key], done[key])
    &&& forall|key: Seq<u8>|
        #[trigger] done.contains_key(key) && (forall|k: int|
            0 <= k < n && #[trigger] mask[k] ==> plan.owners@[k].key() != key) ==> done[key]
            == start[key]
    &&& forall|k: int|
        0 <= k < n && #[trigger] mask[k] ==> {
            let key = plan.owners@[k].key();
            &&& done.contains_key(key)
            &&& action is TogglePower ==> done[key].on == !flag
            &&& action is ToggleCircadian ==> (done[key].mode is Frozen) == !flag
        }
}

/// Acting on one owner changes that owner only, and as the action says.
proof fn lemma_owner(
    plan: HousePlan,
    almanac: SolarAlmanac,
    acting: Acting,
    action: Action,
    flag: bool,
    k: int,
    now: RuntimeInstant,
)
    requires
        0 <= k < plan.owners@.len(),
        acting.fault is None,
        plan.owner_acted(almanac, acting, action, flag, k, now).fault is None,
        !(action is SelectScope),
    ensures
        ({
            let next = plan.owner_acted(almanac, acting, action, flag, k, now);
            let key = plan.owners@[k].key();
            &&& acting.scopes.contains_key(key)
            &&& next.scopes == acting.scopes.insert(key, next.scopes[key])
            &&& kept(action, acting.scopes[key], next.scopes[key])
            &&& action is TogglePower ==> next.scopes[key].on == !flag
            &&& action is ToggleCircadian ==> (next.scopes[key].mode is Frozen) == !flag
        }),
{
    reveal(HousePlan::owner_acted);
    let next = plan.owner_acted(almanac, acting, action, flag, k, now);
    let key = plan.owners@[k].key();
    assert(next.scopes =~= acting.scopes.insert(key, next.scopes[key]));
}

proof fn lemma_underway(
    plan: HousePlan,
    almanac: SolarAlmanac,
    start: Acting,
    action: Action,
    flag: bool,
    mask: Seq<bool>,
    now: RuntimeInstant,
    n: int,
)
    requires
        0 <= n <= mask.len(),
        mask.len() == plan.owners@.len(),
        start.fault is None,
        plan.owners_acted(almanac, start, action, flag, mask, now, n).fault is None,
        !(action is SelectScope),
    ensures
        underway(
            plan,
            start.scopes,
            plan.owners_acted(almanac, start, action, flag, mask, now, n).scopes,
            action,
            flag,
            mask,
            n,
        ),
    decreases n,
{
    if n > 0 {
        lemma_underway(plan, almanac, start, action, flag, mask, now, n - 1);
        let before = plan.owners_acted(almanac, start, action, flag, mask, now, n - 1);
        let next = plan.owners_acted(almanac, start, action, flag, mask, now, n);
        if mask[n - 1] {
            lemma_owner(plan, almanac, before, action, flag, n - 1, now);
            let own = plan.owners@[n - 1].key();
            assert(next.scopes.dom() =~= start.scopes.dom());
            assert forall|key: Seq<u8>|
                #[trigger] next.scopes.contains_key(key) && (forall|k: int|
                    0 <= k < n && #[trigger] mask[k] ==> plan.owners@[k].key()
                        != key) implies next.scopes[key] == start.scopes[key] by {
                assert(mask[n - 1]);
                assert(key != own);
                assert(before.scopes.contains_key(key));
            }
            assert forall|key: Seq<u8>| #[trigger] next.scopes.contains_key(key) implies kept(
                action,
                start.scopes[key],
                next.scopes[key],
            ) by {
                assert(before.scopes.contains_key(key));
            }
        }
    }
}

impl EngineModel {
    /// What an action did, owner by owner.
    proof fn lemma_acted(
        self,
        plan: HousePlan,
        almanac: SolarAlmanac,
        action: Action,
        target: Scope,
        now: RuntimeInstant,
    )
        requires
            plan.wf(),
            self.acted(plan, almanac, action, target, now).1 is Ok,
        ensures
            underway(
                plan,
                self.scopes,
                self.acted(plan, almanac, action, target, now).0.scopes,
                action,
                plan.action_flag(self.scopes, action, plan.affected(target)),
                plan.affected(target),
                plan.owners@.len() as int,
            ),
    {
        let mask = plan.affected(target);
        let flag = plan.action_flag(self.scopes, action, mask);
        let start = Acting {
            scopes: self.scopes,
            overlays: self.overlays,
            acknowledged: 0,
            fault: None,
        };
        let n = mask.len() as int;
        let done = plan.owners_acted(almanac, start, action, flag, mask, now, n);
        lemma_underway(plan, almanac, start, action, flag, mask, now, n);
        let next = EngineModel { scopes: done.scopes, overlays: done.overlays, ..self };
        next.recomputation_keeps_the_state(plan, almanac, now, true);
    }

    /// A power toggle switches all that rules a light in the target alike: off if any of
    /// it was on, and on otherwise.
    pub proof fn power_toggles_together(
        self,
        plan: HousePlan,
        almanac: SolarAlmanac,
        target: Scope,
        now: RuntimeInstant,
    )
        requires
            plan.wf(),
            self.acted(plan, almanac, Action::TogglePower, target, now).1 is Ok,
        ensures
            ({
                let after = self.acted(plan, almanac, Action::TogglePower, target, now).0.scopes;
                forall|i: int|
                    0 <= i < plan.devices@.len() && #[trigger] stands_in(plan, i, target) ==> {
                        &&& after.contains_key(ruler(plan, i))
                        &&& ruling(plan, after, i).on == !lit(plan, self.scopes, target)
                    }
            }),
    {
        let mask = plan.affected(target);
        self.lemma_acted(plan, almanac, Action::TogglePower, target, now);
        lemma_affected(plan, target);
        let flag = plan.any_on(self.scopes, mask);
        if flag {
            let k = choose|k: int|
                0 <= k < mask.len() && #[trigger] mask[k] && self.scopes.contains_key(
                    plan.owners@[k].key(),
                ) && self.scopes[plan.owners@[k].key()].on;
            let i = choose|i: int|
                0 <= i < plan.devices@.len() && #[trigger] stands_in(plan, i, target)
                    && plan.devices@[i].owner == k;
            assert(stands_in(plan, i, target) && ruling(plan, self.scopes, i).on);
        }
        if lit(plan, self.scopes, target) {
            let i = choose|i: int|
                0 <= i < plan.devices@.len() && #[trigger] stands_in(plan, i, target)
                    && self.scopes.contains_key(ruler(plan, i)) && ruling(plan, self.scopes, i).on;
            assert(mask[plan.devices@[i].owner as int]);
        }
        assert(flag == lit(plan, self.scopes, target));
        let after = self.acted(plan, almanac, Action::TogglePower, target, now).0.scopes;
        assert forall|i: int|
            0 <= i < plan.devices@.len() && #[trigger] stands_in(plan, i, target) implies {
            &&& after.contains_key(ruler(plan, i))
            &&& ruling(plan, after, i).on == !lit(plan, self.scopes, target)
        } by {
            assert(mask[plan.devices@[i].owner as int]);
        }
    }

    /// A curve toggle freezes all that rules a light in the target, or lets all of it go
    /// if all of it was frozen.
    pub proof fn curves_toggle_together(
        self,
        plan: HousePlan,
        almanac: SolarAlmanac,
        target: Scope,
        now: RuntimeInstant,
    )
        requires
            plan.wf(),
            self.acted(plan, almanac, Action::ToggleCircadian, target, now).1 is Ok,
        ensures
            ({
                let after = self.acted(
                    plan,
                    almanac,
                    Action::ToggleCircadian,
                    target,
                    now,
                ).0.scopes;
                forall|i: int|
                    0 <= i < plan.devices@.len() && #[trigger] stands_in(plan, i, target) ==> {
                        &&& after.contains_key(ruler(plan, i))
                        &&& (ruling(plan, after, i).mode is Frozen) == !still(
                            plan,
                            self.scopes,
                            target,
                        )
                    }
            }),
    {
        let mask = plan.affected(target);
        self.lemma_acted(plan, almanac, Action::ToggleCircadian, target, now);
        lemma_affected(plan, target);
        let flag = plan.all_frozen(self.scopes, mask);
        if still(plan, self.scopes, target) {
            assert forall|k: int| 0 <= k < mask.len() && #[trigger] mask[k] implies {
                &&& self.scopes.contains_key(plan.owners@[k].key())
                &&& self.scopes[plan.owners@[k].key()].mode is Frozen
            } by {
                let i = choose|i: int|
                    0 <= i < plan.devices@.len() && #[trigger] stands_in(plan, i, target)
                        && plan.devices@[i].owner == k;
                assert(ruler(plan, i) == plan.owners@[k].key());
            }
        }
        if flag {
            assert forall|i: int|
                0 <= i < plan.devices@.len() && #[trigger] stands_in(plan, i, target) implies {
                &&& self.scopes.contains_key(ruler(plan, i))
                &&& ruling(plan, self.scopes, i).mode is Frozen
            } by {
                assert(mask[plan.devices@[i].owner as int]);
            }
        }
        assert(flag == still(plan, self.scopes, target));
        let after = self.acted(plan, almanac, Action::ToggleCircadian, target, now).0.scopes;
        assert forall|i: int|
            0 <= i < plan.devices@.len() && #[trigger] stands_in(plan, i, target) implies {
            &&& after.contains_key(ruler(plan, i))
            &&& (ruling(plan, after, i).mode is Frozen) == !still(plan, self.scopes, target)
        } by {
            assert(mask[plan.devices@[i].owner as int]);
        }
    }

    /// An action leaves alone what rules no light in its target, and of the rest what it
    /// is not about.
    pub proof fn actions_stay_in_their_target(
        self,
        plan: HousePlan,
        almanac: SolarAlmanac,
        action: Action,
        target: Scope,
        now: RuntimeInstant,
        key: Seq<u8>,
    )
        requires
            plan.wf(),
            self.scopes.contains_key(key),
        ensures
            ({
                let (after, result) = self.acted(plan, almanac, action, target, now);
                result is Ok ==> {
                    &&& after.scopes.contains_key(key)
                    &&& kept(action, self.scopes[key], after.scopes[key])
                    &&& elsewhere(plan, key, target) ==> after.scopes[key] == self.scopes[key]
                }
            }),
    {
        let (after, result) = self.acted(plan, almanac, action, target, now);
        if result is Ok {
            let mask = plan.affected(target);
            self.lemma_acted(plan, almanac, action, target, now);
            lemma_affected(plan, target);
            assert(after.scopes.contains_key(key));
            if elsewhere(plan, key, target) {
                assert forall|k: int| 0 <= k < mask.len() && #[trigger] mask[k] implies plan.owners@[k].key()
                    != key by {
                    let i = choose|i: int|
                        0 <= i < plan.devices@.len() && #[trigger] stands_in(plan, i, target)
                            && plan.devices@[i].owner == k;
                    assert(ruler(plan, i) == plan.owners@[k].key());
                }
            }
        }
    }
}

/// No two owners are one scope.
pub open spec fn owners_differ(plan: HousePlan) -> bool {
    forall|a: int, b: int|
        0 <= a < b < plan.owners@.len() ==> (#[trigger] plan.owners@[a]).key() != (
        #[trigger] plan.owners@[b]).key()
}

/// The steps that an action adds to the offsets.
pub open spec fn steps(action: Action) -> (Double, Double) {
    match action {
        Action::AdjustBrightnessOffset(delta) => (delta.value, Double { bits: 0 }),
        Action::AdjustColorTemperatureOffset(delta) => (Double { bits: 0 }, delta.value),
        _ => (Double { bits: 0 }, Double { bits: 0 }),
    }
}

proof fn lemma_shifted(
    plan: HousePlan,
    almanac: SolarAlmanac,
    start: Acting,
    action: Action,
    flag: bool,
    mask: Seq<bool>,
    now: RuntimeInstant,
    n: int,
)
    requires
        0 <= n <= mask.len(),
        mask.len() == plan.owners@.len(),
        owners_differ(plan),
        start.fault is None,
        plan.owners_acted(almanac, start, action, flag, mask, now, n).fault is None,
        action is AdjustBrightnessOffset || action is AdjustColorTemperatureOffset,
    ensures
        ({
            let done = plan.owners_acted(almanac, start, action, flag, mask, now, n).scopes;
            forall|k: int|
                0 <= k < n && #[trigger] mask[k] ==> {
                    let key = plan.owners@[k].key();
                    start.scopes.contains_key(key) && done.contains_key(key) && done[key].offsets
                        == start.scopes[key].offsets.moved(steps(action).0, steps(action).1)
                }
        }),
    decreases n,
{
    if n > 0 {
        lemma_shifted(plan, almanac, start, action, flag, mask, now, n - 1);
        lemma_underway(plan, almanac, start, action, flag, mask, now, n - 1);
        let before = plan.owners_acted(almanac, start, action, flag, mask, now, n - 1);
        let next = plan.owners_acted(almanac, start, action, flag, mask, now, n);
        if mask[n - 1] {
            let own = plan.owners@[n - 1].key();
            lemma_owner(plan, almanac, before, action, flag, n - 1, now);
            assert(before.scopes[own] == start.scopes[own]) by {
                assert forall|k: int| 0 <= k < n - 1 && #[trigger] mask[k] implies plan.owners@[k].key()
                    != own by {}
            }
            assert(next.scopes[own].offsets == start.scopes[own].offsets.moved(
                steps(action).0,
                steps(action).1,
            )) by {
                reveal(HousePlan::owner_acted);
            }
            assert forall|k: int| 0 <= k < n && #[trigger] mask[k] implies {
                let key = plan.owners@[k].key();
                start.scopes.contains_key(key) && next.scopes.contains_key(key)
                    && next.scopes[key].offsets == start.scopes[key].offsets.moved(
                    steps(action).0,
                    steps(action).1,
                )
            } by {
                if k < n - 1 {
                    assert(plan.owners@[k].key() != own);
                }
            }
        }
    }
}

impl EngineModel {
    /// A step brighter, darker, warmer or colder is added to the offset that it is about,
    /// once for all that rules a light in the target; the other offset stays as it was.
    pub proof fn offsets_step_together(
        self,
        plan: HousePlan,
        almanac: SolarAlmanac,
        action: Action,
        target: Scope,
        now: RuntimeInstant,
        i: int,
    )
        requires
            plan.wf(),
            owners_differ(plan),
            self.acted(plan, almanac, action, target, now).1 is Ok,
            action is AdjustBrightnessOffset || action is AdjustColorTemperatureOffset,
            0 <= i < plan.devices@.len(),
            stands_in(plan, i, target),
            ruling(plan, self.scopes, i).offsets.wf(),
            size_of(ruling(plan, self.scopes, i).offsets.brightness.amount()) <= 1_000_000real,
            size_of(
                ruling(plan, self.scopes, i).offsets.color_temperature_kelvin.amount(),
            ) <= 1_000_000real,
            action matches Action::AdjustBrightnessOffset(delta) ==> delta.value.finite()
                && size_of(delta.value.amount()) <= 1_000_000real,
            action matches Action::AdjustColorTemperatureOffset(delta) ==> delta.value.finite()
                && size_of(delta.value.amount()) <= 1_000_000real,
        ensures
            ({
                let after = self.acted(plan, almanac, action, target, now).0.scopes;
                let old = ruling(plan, self.scopes, i).offsets;
                let new = ruling(plan, after, i).offsets;
                &&& after.contains_key(ruler(plan, i))
                &&& action matches Action::AdjustBrightnessOffset(delta) ==> size_of(
                    new.brightness.amount() - (old.brightness.amount() + delta.value.amount()),
                ) <= slack() && size_of(
                    new.color_temperature_kelvin.amount() - old.color_temperature_kelvin.amount(),
                ) <= slack()
                &&& action matches Action::AdjustColorTemperatureOffset(delta) ==> size_of(
                    new.color_temperature_kelvin.amount() - (old.color_temperature_kelvin.amount()
                        + delta.value.amount()),
                ) <= slack() && size_of(
                    new.brightness.amount() - old.brightness.amount(),
                ) <= slack()
            }),
    {
        let mask = plan.affected(target);
        let flag = plan.action_flag(self.scopes, action, mask);
        let start = Acting {
            scopes: self.scopes,
            overlays: self.overlays,
            acknowledged: 0,
            fault: None,
        };
        let n = mask.len() as int;
        let done = plan.owners_acted(almanac, start, action, flag, mask, now, n);
        lemma_affected(plan, target);
        lemma_shifted(plan, almanac, start, action, flag, mask, now, n);
        let next = EngineModel { scopes: done.scopes, overlays: done.overlays, ..self };
        next.recomputation_keeps_the_state(plan, almanac, now, true);
        assert(mask[plan.devices@[i].owner as int]);
        crate::light::lemma_small();
        crate::light::offsets_move_by_their_steps(
            ruling(plan, self.scopes, i).offsets,
            steps(action).0,
            steps(action).1,
        );
    }
}

} // verus!
