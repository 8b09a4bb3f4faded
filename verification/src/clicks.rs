//! How presses become clicks.
use crate::amount::{eps, lemma_grow, size_of, tiny};
use crate::double::Double;
use crate::input::{ClickClassifier, Gesture, PendingClick, RawInputEvent};
use crate::ordered::OrderedKey;
use crate::state::{ControlId, MonotonicTime};
use vstd::prelude::*;

verus! {

/// A microsecond, in seconds: more than the roundings of a deadline can be off.
pub open spec fn microsecond() -> real {
    1real / 1_000_000real
}

/// A deadline is off by less than a microsecond.
proof fn lemma_deadline(now: Double, window: Double)
    requires
        now.finite(),
        window.finite(),
        0real <= now.amount() <= 1_000_000_000real,
        0real <= window.amount() <= 1_000_000real,
    ensures
        now.sum(window).finite(),
        size_of(now.sum(window).amount() - (now.amount() + window.amount())) <= microsecond()
            / 2real,
{
    crate::light::lemma_small();
    Double::sum_amount(now, window);
    let x = now.amount() + window.amount();
    lemma_grow(x, 2_000_000_000real, eps());
}

/// The control has a click waiting: no more than one, and the one that was put there.
proof fn lemma_waits(
    pairs: Seq<(ControlId, PendingClick)>,
    key: Seq<u8>,
    click: PendingClick,
    now: MonotonicTime,
)
    requires
        crate::ordered::ascending(pairs),
        crate::ordered::map_of(pairs).contains_key(key),
        crate::ordered::map_of(pairs)[key] == click,
    ensures
        ({
            let waiting = crate::input::selected_clicks(pairs, now, false);
            &&& crate::ordered::has_key(waiting, key) == !crate::input::is_due(click, now)
            &&& crate::ordered::has_key(waiting, key) ==> waiting[crate::ordered::index_of(
                waiting,
                key,
            )].1 == click
        }),
        crate::input::is_due(click, now) <==> exists|j: int|
            0 <= j < crate::input::due_events(pairs, now).len() && (
            #[trigger] crate::input::due_events(pairs, now)[j]).0.key() == key,
{
    let waiting = crate::input::selected_clicks(pairs, now, false);
    let told = crate::input::selected_clicks(pairs, now, true);
    assert(crate::ordered::has_key(pairs, key));
    let k = crate::ordered::index_of(pairs, key);
    assert(pairs[k].1 == click && pairs[k].0.key() == key);
    crate::input::lemma_selection(pairs, now, false);
    crate::input::lemma_selection(pairs, now, true);
    crate::input::lemma_selection_ascends(pairs, now, false);
    crate::input::due_in_order(told);
    let sorted = crate::input::by_resolution(told);
    if !crate::input::is_due(click, now) {
        crate::input::lemma_selected(pairs, now, false, k);
        let j = choose|j: int| 0 <= j < waiting.len() && #[trigger] waiting[j] == pairs[k];
        crate::ordered::pair_is_mapped(waiting, j);
        assert forall|j: int|
            0 <= j < crate::input::due_events(pairs, now).len() implies (
        #[trigger] crate::input::due_events(pairs, now)[j]).0.key() != key by {
            lemma_listed(sorted, told, j);
            let i = choose|i: int| 0 <= i < told.len() && told[i] == sorted[j];
            assert(told[i].0 == sorted[j].0);
            let m = choose|m: int| 0 <= m < pairs.len() && pairs[m] == told[i];
            if pairs[m].0.key() == key {
                crate::ordered::pair_is_mapped(pairs, m);
            }
        }
    } else {
        if crate::ordered::has_key(waiting, key) {
            let j = crate::ordered::index_of(waiting, key);
            let m = choose|m: int| 0 <= m < pairs.len() && pairs[m] == waiting[j];
            crate::ordered::pair_is_mapped(pairs, m);
        }
        crate::input::lemma_selected(pairs, now, true, k);
        let i = choose|i: int| 0 <= i < told.len() && #[trigger] told[i] == pairs[k];
        lemma_listed(told, sorted, i);
        let j = choose|j: int| 0 <= j < sorted.len() && sorted[j] == told[i];
        assert(crate::input::due_events(pairs, now)[j].0 == sorted[j].0);
    }
}

/// What one of two lists of the same things holds, the other does.
proof fn lemma_listed(
    a: Seq<(ControlId, PendingClick)>,
    b: Seq<(ControlId, PendingClick)>,
    i: int,
)
    requires
        a.to_multiset() == b.to_multiset(),
        0 <= i < a.len(),
    ensures
        exists|j: int| 0 <= j < b.len() && b[j] == a[i],
{
    broadcast use vstd::seq_lib::group_to_multiset_ensures;

    assert(a.contains(a[i]));
    assert(a.to_multiset().count(a[i]) > 0);
    assert(b.contains(a[i]));
}

/// A press that comes when none waits tells nothing yet. A second one within the window
/// makes a double click of both. Without one, the press is told as a single click once
/// the window is over, and not before; a press after that starts anew. A microsecond
/// either way is left to rounding.
pub proof fn presses_make_single_and_double_clicks(
    before: ClickClassifier,
    after: ClickClassifier,
    control: ControlId,
    first: MonotonicTime,
    second: MonotonicTime,
)
    requires
        crate::ordered::ascending(before.pending.pairs()),
        !crate::ordered::has_key(
            crate::input::selected_clicks(before.pending.pairs(), first, false),
            control.key(),
        ),
        after.window == before.window,
        after.hold == before.hold,
        after.pending.pairs() == before.pending_after(control, RawInputEvent::CenterShort, first),
        first.value.finite(),
        second.value.finite(),
        before.window.value.finite(),
        0real <= first.value.amount() <= second.value.amount() <= 1_000_000_000real,
        0real <= before.window.value.amount() <= 1_000_000real,
    ensures
        ({
            let end = first.value.amount() + before.window.value.amount();
            let told = crate::input::due_events(after.pending.pairs(), second);
            let answer = after.gestures_of(control, RawInputEvent::CenterShort, second);
            &&& before.gestures_of(control, RawInputEvent::CenterShort, first).len() == 0
            &&& second.value.amount() <= end - microsecond() ==> {
                &&& answer == seq![(control, Gesture::CenterDouble)]
                &&& forall|j: int|
                    0 <= j < told.len() ==> (#[trigger] told[j]).0.key() != control.key()
            }
            &&& second.value.amount() >= end + microsecond() ==> {
                &&& answer.len() == 0
                &&& exists|j: int|
                    0 <= j < told.len() && (#[trigger] told[j]).0.key() == control.key()
                &&& forall|j: int| 0 <= j < told.len() ==> (#[trigger] told[j]).1
                    == Gesture::CenterSingle
            }
        }),
{
    let raw = RawInputEvent::CenterShort;
    let waiting = crate::input::selected_clicks(before.pending.pairs(), first, false);
    let click = before.fresh(raw, first);
    let pairs = after.pending.pairs();
    let key = control.key();
    crate::input::lemma_selection_ascends(before.pending.pairs(), first, false);
    crate::ordered::pair_is_put(waiting, control, click);
    assert(crate::ordered::map_of(pairs).contains_key(key));
    lemma_waits(pairs, key, click, second);
    lemma_deadline(first.value, before.window.value);
    Double::amounts_keep_order(click.resolves, second.value);
    Double::amounts_keep_order(second.value, click.deadline);
    let told = crate::input::due_events(pairs, second);
    if second.value.amount() <= first.value.amount() + before.window.value.amount()
        - microsecond() {
        assert forall|j: int| 0 <= j < told.len() implies (#[trigger] told[j]).0.key() != key by {
            if told[j].0.key() == key {
                assert(crate::input::due_events(pairs, second)[j].0.key() == key);
            }
        }
    }
}

/// What any other press or turn is told as: itself, last of all.
pub proof fn plain_presses_are_told_as_they_are(
    classifier: ClickClassifier,
    control: ControlId,
    raw: RawInputEvent,
    now: MonotonicTime,
)
    requires
        !(raw is CenterShort),
        !(raw is AmbiguousCenterPrefix),
    ensures
        ({
            let told = classifier.gestures_of(control, raw, now);
            &&& told.len() > 0
            &&& told.last().0 == control
            &&& raw is Up <==> told.last().1 is Up
            &&& raw is Down <==> told.last().1 is Down
            &&& raw is Left <==> told.last().1 is Left
            &&& raw is Right <==> told.last().1 is Right
            &&& raw is CenterLong <==> told.last().1 is CenterLong
            &&& raw is CenterRelease <==> told.last().1 is CenterRelease
            &&& raw matches RawInputEvent::DirectionHold(direction) ==> told.last().1
                == Gesture::DirectionHold(direction)
            &&& raw matches RawInputEvent::DirectionRelease(direction) ==> told.last().1
                == Gesture::DirectionRelease(direction)
        }),
{
}

} // verus!
