//! Temporary lighting overlays and the pulse that acknowledges a curve toggle.
use crate::double::Double;
use crate::ordered::{Duplicate, OrderedKey, SortedMap};
use crate::state::{CurveToggleOutcome, MonotonicTime};
use crate::text;
use crate::value::{
    Brightness, Capabilities, Color, Kelvin, KelvinRange, LayeredLightTarget, LightTarget,
    ValueError,
};
use vstd::prelude::*;

verus! {

/// Bits of `0.01`.
pub const MIN_ACKNOWLEDGEMENT_AMPLITUDE: u64 = 0x3f84_7ae1_47ae_147b;

/// Bits of `0.25`.
pub const MAX_ACKNOWLEDGEMENT_AMPLITUDE: u64 = 0x3fd0_0000_0000_0000;

/// Bits of `0.5`.
pub const HALF: u64 = 0x3fe0_0000_0000_0000;

/// Bits of `1.0`.
pub const ONE: u64 = 0x3ff0_0000_0000_0000;

/// Bits of `2.0`.
pub const TWO: u64 = 0x4000_0000_0000_0000;

#[derive(Debug, Clone, Copy, PartialEq)]
pub enum OverlayError {
    InvalidIdentifier,
    NonFinite,
    NonPositiveDuration,
    AmplitudeOutOfRange,
    EmptyScene,
    ExpiryOverflow,
    MonotonicClockRegressed,
    SequenceExhausted,
    InvalidValue(ValueError),
}

/// Name of an overlay.
#[derive(Debug, PartialEq, Eq, PartialOrd, Ord, Hash)]
pub struct OverlayId {
    pub text: String,
}

impl OverlayId {
    pub open spec fn wf(self) -> bool {
        text::identifier(self.text@)
    }

    pub fn new(value: String) -> (result: Result<Self, OverlayError>)
        ensures
            result == if text::identifier(value@) {
                Ok::<OverlayId, OverlayError>(OverlayId { text: value })
            } else {
                Err(OverlayError::InvalidIdentifier)
            },
    {
        if text::is_identifier(value.as_str()) {
            Ok(OverlayId { text: value })
        } else {
            Err(OverlayError::InvalidIdentifier)
        }
    }

    pub fn as_str(&self) -> (text: &str)
        ensures
            text@ == self.text@,
    {
        self.text.as_str()
    }
}

impl Clone for OverlayId {
    fn clone(&self) -> (result: Self)
        ensures
            result == *self,
    {
        OverlayId { text: self.text.clone() }
    }
}

impl Duplicate for OverlayId {
    fn duplicate(&self) -> (result: Self) {
        self.clone()
    }
}

impl OrderedKey for OverlayId {
    open spec fn key(&self) -> Seq<u8> {
        text::bytes_of(self.text@)
    }

    fn precedes(&self, other: &Self) -> (result: bool) {
        let result = text::text_precedes(self.text.as_str(), other.text.as_str());
        assert(result == text::precedes(self.text@, other.text@));
        result
    }

    fn matches_key(&self, other: &Self) -> (result: bool) {
        proof {
            text::bytes_injective(self.text@, other.text@);
        }
        text::text_equals(self.text.as_str(), other.text.as_str())
    }
}

/// How long an overlay lasts.
#[derive(Debug, Clone, Copy, PartialEq)]
pub struct OverlayDuration {
    pub value: Double,
}

impl OverlayDuration {
    pub open spec fn wf(self) -> bool {
        OverlayDuration::checked(self.value) is Ok
    }

    pub open spec fn checked(seconds: Double) -> Result<OverlayDuration, OverlayError> {
        if !seconds.finite() {
            Err(OverlayError::NonFinite)
        } else if seconds.at_most(Double { bits: 0 }) {
            Err(OverlayError::NonPositiveDuration)
        } else {
            Ok(OverlayDuration { value: seconds })
        }
    }

    pub fn from_seconds(seconds: Double) -> (result: Result<Self, OverlayError>)
        ensures
            result == OverlayDuration::checked(seconds),
    {
        if !seconds.is_finite() {
            return Err(OverlayError::NonFinite);
        }
        if seconds.le(Double::from_bits(0)) {
            return Err(OverlayError::NonPositiveDuration);
        }
        Ok(OverlayDuration { value: seconds })
    }
}

/// What an overlay changes.
#[derive(Debug, Clone, Copy, PartialEq)]
pub enum OverlayEffect {
    BrightnessDelta(Double),
    ColorTemperatureDelta(Double),
    Scene {
        brightness: Option<Brightness>,
        color_temperature: Option<Kelvin>,
        color: Option<Color>,
    },
}

/// A sum that must stay finite.
pub open spec fn finite_sum(left: Double, right: Double) -> Result<Double, OverlayError> {
    if left.sum(right).finite() {
        Ok(left.sum(right))
    } else {
        Err(OverlayError::NonFinite)
    }
}

fn checked_add(left: Double, right: Double) -> (result: Result<Double, OverlayError>)
    ensures
        result == finite_sum(left, right),
{
    let total = left.plus(right);
    if !total.is_finite() {
        return Err(OverlayError::NonFinite);
    }
    Ok(total)
}

impl OverlayEffect {
    /// The layers once this effect lies on top of them.
    pub open spec fn applied(self, target: LayeredLightTarget) -> Result<
        LayeredLightTarget,
        OverlayError,
    > {
        match self {
            OverlayEffect::BrightnessDelta(delta) => match target.brightness {
                None => Ok(target),
                Some(brightness) => match finite_sum(brightness, delta) {
                    Ok(value) => Ok(LayeredLightTarget { brightness: Some(value), ..target }),
                    Err(error) => Err(error),
                },
            },
            OverlayEffect::ColorTemperatureDelta(delta) => match target.color_temperature_kelvin {
                None => Ok(target),
                Some(kelvin) => match finite_sum(kelvin, delta) {
                    Ok(value) => Ok(
                        LayeredLightTarget { color_temperature_kelvin: Some(value), ..target },
                    ),
                    Err(error) => Err(error),
                },
            },
            OverlayEffect::Scene { brightness, color_temperature, color } => {
                let lit = match brightness {
                    Some(brightness) => LayeredLightTarget {
                        brightness: Some(brightness.value),
                        ..target
                    },
                    None => target,
                };
                // Colour wins when a scene gives both.
                Ok(
                    match (color, color_temperature) {
                        (Some(color), _) => LayeredLightTarget {
                            color: Some(color),
                            color_temperature_kelvin: None,
                            ..lit
                        },
                        (None, Some(kelvin)) => LayeredLightTarget {
                            color: None,
                            color_temperature_kelvin: Some(kelvin.value),
                            ..lit
                        },
                        (None, None) => lit,
                    },
                )
            },
        }
    }

    pub fn brightness_delta(delta: Double) -> (result: Result<Self, OverlayError>)
        ensures
            result == if delta.finite() {
                Ok::<OverlayEffect, OverlayError>(OverlayEffect::BrightnessDelta(delta))
            } else {
                Err(OverlayError::NonFinite)
            },
    {
        if !delta.is_finite() {
            return Err(OverlayError::NonFinite);
        }
        Ok(OverlayEffect::BrightnessDelta(delta))
    }

    pub fn color_temperature_delta(delta_kelvin: Double) -> (result: Result<Self, OverlayError>)
        ensures
            result == if delta_kelvin.finite() {
                Ok::<OverlayEffect, OverlayError>(
                    OverlayEffect::ColorTemperatureDelta(delta_kelvin),
                )
            } else {
                Err(OverlayError::NonFinite)
            },
    {
        if !delta_kelvin.is_finite() {
            return Err(OverlayError::NonFinite);
        }
        Ok(OverlayEffect::ColorTemperatureDelta(delta_kelvin))
    }

    pub fn scene(
        brightness: Option<Brightness>,
        color_temperature: Option<Kelvin>,
        color: Option<Color>,
    ) -> (result: Result<Self, OverlayError>)
        ensures
            result == if brightness is None && color_temperature is None && color is None {
                Err(OverlayError::EmptyScene)
            } else {
                Ok::<OverlayEffect, OverlayError>(
                    OverlayEffect::Scene { brightness, color_temperature, color },
                )
            },
    {
        if brightness.is_none() && color_temperature.is_none() && color.is_none() {
            return Err(OverlayError::EmptyScene);
        }
        Ok(OverlayEffect::Scene { brightness, color_temperature, color })
    }

    pub fn apply(self, target: &mut LayeredLightTarget) -> (result: Result<(), OverlayError>)
        ensures
            match self.applied(*old(target)) {
                Ok(next) => result is Ok && *final(target) == next,
                Err(error) => result == Err::<(), OverlayError>(error) && *final(target) == *old(
                    target,
                ),
            },
    {
        match self {
            OverlayEffect::BrightnessDelta(delta) => {
                if let Some(brightness) = target.brightness {
                    match checked_add(brightness, delta) {
                        Ok(value) => target.brightness = Some(value),
                        Err(error) => return Err(error),
                    }
                }
            },
            OverlayEffect::ColorTemperatureDelta(delta) => {
                if let Some(kelvin) = target.color_temperature_kelvin {
                    match checked_add(kelvin, delta) {
                        Ok(value) => target.color_temperature_kelvin = Some(value),
                        Err(error) => return Err(error),
                    }
                }
            },
            OverlayEffect::Scene { brightness, color_temperature, color } => {
                if let Some(brightness) = brightness {
                    target.brightness = Some(brightness.value);
                }
                if let Some(color) = color {
                    target.color = Some(color);
                    target.color_temperature_kelvin = None;
                } else if let Some(color_temperature) = color_temperature {
                    target.color_temperature_kelvin = Some(color_temperature.value);
                    target.color = None;
                }
            },
        }
        Ok(())
    }
}

/// An overlay that is yet to start.
#[derive(Debug, PartialEq)]
pub struct OverlayRequest {
    pub id: OverlayId,
    pub effect: OverlayEffect,
    pub priority: i32,
    pub duration: OverlayDuration,
}

impl OverlayRequest {
    pub fn new(id: OverlayId, effect: OverlayEffect, priority: i32, duration: OverlayDuration) -> (result:
        Self)
        ensures
            result == (OverlayRequest { id, effect, priority, duration }),
    {
        OverlayRequest { id, effect, priority, duration }
    }
}

/// An overlay that has started.
#[derive(Debug, Clone, Copy, PartialEq)]
pub struct ActiveOverlay {
    pub effect: OverlayEffect,
    pub priority: i32,
    pub sequence: u64,
    pub expires_at: Double,
}

impl Duplicate for ActiveOverlay {
    fn duplicate(&self) -> (result: Self) {
        *self
    }
}

impl ActiveOverlay {
    /// Lower priorities come first; equal ones in order of insertion.
    pub open spec fn not_after(self, other: ActiveOverlay) -> bool {
        self.priority < other.priority || (self.priority == other.priority && self.sequence
            <= other.sequence)
    }

    pub open spec fn live(self, now: MonotonicTime) -> bool {
        now.value.less(self.expires_at)
    }
}

/// Number of leading overlays that do not come after `overlay`.
pub open spec fn place(ordered: Seq<ActiveOverlay>, overlay: ActiveOverlay) -> int
    decreases ordered.len(),
{
    if ordered.len() == 0 || !ordered[0].not_after(overlay) {
        0
    } else {
        1 + place(ordered.drop_first(), overlay)
    }
}

/// The overlays in the order in which they apply.
pub open spec fn arranged(overlays: Seq<ActiveOverlay>) -> Seq<ActiveOverlay>
    decreases overlays.len(),
{
    if overlays.len() == 0 {
        Seq::empty()
    } else {
        let rest = arranged(overlays.drop_last());
        rest.insert(place(rest, overlays.last()), overlays.last())
    }
}

/// The first `n` overlays applied one after the other.
pub open spec fn layered(
    ordered: Seq<ActiveOverlay>,
    n: int,
    underlying: LayeredLightTarget,
) -> Result<LayeredLightTarget, OverlayError>
    decreases n,
{
    if n <= 0 {
        Ok(underlying)
    } else {
        match layered(ordered, n - 1, underlying) {
            Ok(target) => ordered[n - 1].effect.applied(target),
            Err(error) => Err(error),
        }
    }
}

pub open spec fn values_of(pairs: Seq<(OverlayId, ActiveOverlay)>) -> Seq<ActiveOverlay> {
    Seq::new(pairs.len(), |i: int| pairs[i].1)
}

/// The overlays that have not expired.
pub open spec fn live_pairs(
    pairs: Seq<(OverlayId, ActiveOverlay)>,
    now: MonotonicTime,
) -> Seq<(OverlayId, ActiveOverlay)>
    decreases pairs.len(),
{
    if pairs.len() == 0 {
        Seq::empty()
    } else {
        let rest = live_pairs(pairs.drop_last(), now);
        if pairs.last().1.live(now) {
            rest.push(pairs.last())
        } else {
            rest
        }
    }
}

proof fn lemma_place(ordered: Seq<ActiveOverlay>, overlay: ActiveOverlay, i: int)
    requires
        0 <= i <= ordered.len(),
        forall|j: int| 0 <= j < i ==> (#[trigger] ordered[j]).not_after(overlay),
        i < ordered.len() ==> !ordered[i].not_after(overlay),
    ensures
        place(ordered, overlay) == i,
    decreases i,
{
    if i > 0 {
        let rest = ordered.drop_first();
        assert(ordered[0].not_after(overlay));
        assert forall|j: int| 0 <= j < i - 1 implies (#[trigger] rest[j]).not_after(overlay) by {
            assert(rest[j] == ordered[j + 1]);
        }
        lemma_place(rest, overlay, i - 1);
    }
}

proof fn lemma_place_range(ordered: Seq<ActiveOverlay>, overlay: ActiveOverlay)
    ensures
        0 <= place(ordered, overlay) <= ordered.len(),
        forall|j: int|
            0 <= j < place(ordered, overlay) ==> (#[trigger] ordered[j]).not_after(overlay),
        place(ordered, overlay) < ordered.len() ==> !ordered[place(ordered, overlay)].not_after(
            overlay,
        ),
    decreases ordered.len(),
{
    if ordered.len() > 0 && ordered[0].not_after(overlay) {
        let rest = ordered.drop_first();
        lemma_place_range(rest, overlay);
        assert forall|j: int| 0 <= j < place(ordered, overlay) implies (
        #[trigger] ordered[j]).not_after(overlay) by {
            if j > 0 {
                assert(rest[j - 1] == ordered[j]);
            }
        }
    }
}

/// Overlays apply from lower to higher priority and, at equal priority, in
/// order of insertion; none is lost or added.
pub proof fn arranged_by_priority(overlays: Seq<ActiveOverlay>)
    ensures
        arranged(overlays).len() == overlays.len(),
        arranged(overlays).to_multiset() == overlays.to_multiset(),
        forall|i: int, j: int|
            0 <= i < j < arranged(overlays).len() ==> (#[trigger] arranged(overlays)[i]).not_after(
                #[trigger] arranged(overlays)[j],
            ),
    decreases overlays.len(),
{
    broadcast use vstd::seq_lib::group_to_multiset_ensures;

    if overlays.len() > 0 {
        let rest = arranged(overlays.drop_last());
        let last = overlays.last();
        arranged_by_priority(overlays.drop_last());
        lemma_place_range(rest, last);
        let p = place(rest, last);
        let next = rest.insert(p, last);
        assert forall|i: int, j: int| 0 <= i < j < next.len() implies (
        #[trigger] next[i]).not_after(#[trigger] next[j]) by {
            let x = if i < p { i } else { i - 1 };
            let y = if j < p { j } else { j - 1 };
            if i == p {
                assert(next[j] == rest[y]);
                if y > p {
                    assert(rest[p].not_after(rest[y]));
                }
            } else if j == p {
                assert(next[i] == rest[x]);
            } else {
                assert(next[i] == rest[x] && next[j] == rest[y]);
            }
        }
        vstd::seq_lib::to_multiset_insert(rest, p, last);
        assert(overlays =~= overlays.drop_last().push(last));
    } else {
        assert(overlays =~= Seq::<ActiveOverlay>::empty());
    }
}

/// Once one overlay fails, so does every longer prefix.
proof fn lemma_layered_error(
    ordered: Seq<ActiveOverlay>,
    n: int,
    m: int,
    underlying: LayeredLightTarget,
)
    requires
        0 <= n <= m,
        layered(ordered, n, underlying) is Err,
    ensures
        layered(ordered, m, underlying) == layered(ordered, n, underlying),
    decreases m - n,
{
    if n < m {
        lemma_layered_error(ordered, n, m - 1, underlying);
    }
}

/// In-memory overlays ordered from lower to higher priority.
///
/// Equal-priority overlays apply in insertion order, so later sequences win
/// for absolute fields. Replacing a key assigns a new insertion sequence.
#[derive(Debug, PartialEq)]
pub struct OverlaySet {
    pub overlays: SortedMap<OverlayId, ActiveOverlay>,
    pub next_sequence: u64,
    pub last_observed: Option<MonotonicTime>,
}

/// Contents of a set of overlays.
#[verifier::ext_equal]
pub struct OverlayModel {
    pub pairs: Seq<(OverlayId, ActiveOverlay)>,
    pub next_sequence: u64,
    pub last_observed: Option<MonotonicTime>,
}

impl OverlayModel {
    pub open spec fn regressed(self, now: MonotonicTime) -> bool {
        self.last_observed matches Some(previous) && now.value.less(previous.value)
    }

    /// The set once `request` has started, and what came of it.
    #[verifier::opaque]
    pub open spec fn with_request(self, request: OverlayRequest, now: MonotonicTime) -> (
        OverlayModel,
        Result<(), OverlayError>,
    ) {
        let expires_at = now.value.sum(request.duration.value);
        if self.regressed(now) {
            (self, Err(OverlayError::MonotonicClockRegressed))
        } else if !expires_at.finite() {
            (self, Err(OverlayError::ExpiryOverflow))
        } else if self.next_sequence == u64::MAX {
            (self, Err(OverlayError::SequenceExhausted))
        } else {
            (
                OverlayModel {
                    pairs: crate::ordered::with_pair(
                        self.pairs,
                        request.id,
                        ActiveOverlay {
                            effect: request.effect,
                            priority: request.priority,
                            sequence: self.next_sequence,
                            expires_at,
                        },
                    ),
                    next_sequence: (self.next_sequence + 1) as u64,
                    last_observed: Some(now),
                },
                Ok(()),
            )
        }
    }

    /// The set once it has been composed, and the target.
    #[verifier::opaque]
    pub open spec fn composed(
        self,
        underlying: LayeredLightTarget,
        now: MonotonicTime,
        range: KelvinRange,
    ) -> (OverlayModel, Result<LightTarget, OverlayError>) {
        if self.regressed(now) {
            (self, Err(OverlayError::MonotonicClockRegressed))
        } else {
            let pairs = live_pairs(self.pairs, now);
            (
                OverlayModel {
                    pairs,
                    next_sequence: self.next_sequence,
                    last_observed: Some(now),
                },
                composed(pairs, underlying, range),
            )
        }
    }
}

impl OverlaySet {
    pub open spec fn model(self) -> OverlayModel {
        OverlayModel {
            pairs: self.overlays.pairs(),
            next_sequence: self.next_sequence,
            last_observed: self.last_observed,
        }
    }

    /// An exact copy.
    pub fn copied(&self) -> (result: Self)
        ensures
            result.model() == self.model(),
            self.wf() ==> result.wf(),
    {
        OverlaySet {
            overlays: self.overlays.copied(),
            next_sequence: self.next_sequence,
            last_observed: self.last_observed,
        }
    }

    /// Sequences are below the next one and different, and expiries are times.
    pub open spec fn wf(self) -> bool {
        &&& forall|key: Seq<u8>| #[trigger]
            self.overlays@.contains_key(key) ==> self.overlays@[key].sequence < self.next_sequence
                && (MonotonicTime { value: self.overlays@[key].expires_at }).wf()
        &&& forall|a: Seq<u8>, b: Seq<u8>| #[trigger]
            self.overlays@.contains_key(a) && #[trigger] self.overlays@.contains_key(b) && a != b
                ==> self.overlays@[a].sequence != self.overlays@[b].sequence
    }

    /// The clock has gone back since the last operation.
    pub open spec fn regressed(self, now: MonotonicTime) -> bool {
        self.last_observed matches Some(previous) && now.value.less(previous.value)
    }

    pub fn new() -> (result: Self)
        ensures
            result.overlays@ == Map::<Seq<u8>, ActiveOverlay>::empty(),
            result.overlays.pairs() == Seq::<(OverlayId, ActiveOverlay)>::empty(),
            result.next_sequence == 0,
            result.last_observed is None,
            result.wf(),
    {
        OverlaySet { overlays: SortedMap::new(), next_sequence: 0, last_observed: None }
    }

    /// Number of stored entries. Expired entries are pruned by
    /// [`Self::compose`].
    pub fn stored_count(&self) -> (count: usize)
        ensures
            count == self.overlays.pairs().len(),
    {
        self.overlays.len()
    }

    pub fn next_expiry(&self) -> (expiry: Option<MonotonicTime>)
        ensures
            match expiry {
                None => self.overlays.pairs().len() == 0,
                Some(time) => {
                    &&& exists|i: int|
                        0 <= i < self.overlays.pairs().len() && (
                        #[trigger] self.overlays.pairs()[i]).1.expires_at == time.value
                    &&& forall|i: int|
                        0 <= i < self.overlays.pairs().len() ==> !(
                        #[trigger] self.overlays.pairs()[i]).1.expires_at.less(time.value)
                    &&& self.wf() ==> time.wf()
                },
            },
    {
        let count: usize = self.overlays.len();
        if count == 0 {
            return None;
        }
        let mut best = self.overlays.value_at(0).expires_at;
        let ghost mut found = 0int;
        let mut i: usize = 1;
        while i < count
            invariant
                1 <= i <= count,
                count == self.overlays.pairs().len(),
                0 <= found < i,
                self.overlays.pairs()[found].1.expires_at == best,
                forall|j: int|
                    0 <= j < i ==> !(#[trigger] self.overlays.pairs()[j]).1.expires_at.less(best),
            decreases count - i,
        {
            let candidate = self.overlays.value_at(i).expires_at;
            if candidate.lt(best) {
                best = candidate;
                proof {
                    found = i as int;
                }
            }
            i = i + 1;
        }
        proof {
            crate::ordered::pair_is_mapped(self.overlays.pairs(), found);
        }
        Some(MonotonicTime { value: best })
    }

    fn validate_monotonic(&self, now: MonotonicTime) -> (result: Result<(), OverlayError>)
        ensures
            result == if self.regressed(now) {
                Err::<(), OverlayError>(OverlayError::MonotonicClockRegressed)
            } else {
                Ok(())
            },
    {
        if let Some(previous) = self.last_observed {
            if now.is_before(previous) {
                return Err(OverlayError::MonotonicClockRegressed);
            }
        }
        Ok(())
    }

    /// Outcome of inserting an overlay at `now`.
    pub open spec fn inserted(
        self,
        next: OverlaySet,
        request: OverlayRequest,
        now: MonotonicTime,
        result: Result<(), OverlayError>,
    ) -> bool {
        let expires_at = now.value.sum(request.duration.value);
        if self.regressed(now) {
            result == Err::<(), OverlayError>(OverlayError::MonotonicClockRegressed) && next == self
        } else if !expires_at.finite() {
            result == Err::<(), OverlayError>(OverlayError::ExpiryOverflow) && next == self
        } else if self.next_sequence == u64::MAX {
            result == Err::<(), OverlayError>(OverlayError::SequenceExhausted) && next == self
        } else {
            let overlay = ActiveOverlay {
                effect: request.effect,
                priority: request.priority,
                sequence: self.next_sequence,
                expires_at,
            };
            &&& result is Ok
            &&& next.overlays@ == self.overlays@.insert(request.id.key(), overlay)
            &&& next.overlays.pairs() == crate::ordered::with_pair(
                self.overlays.pairs(),
                request.id,
                overlay,
            )
            &&& next.next_sequence == self.next_sequence + 1
            &&& next.last_observed == Some(now)
        }
    }

    pub fn insert(
        &mut self,
        id: OverlayId,
        effect: OverlayEffect,
        priority: i32,
        now: MonotonicTime,
        duration: OverlayDuration,
    ) -> (result: Result<(), OverlayError>)
        ensures
            old(self).inserted(
                *final(self),
                OverlayRequest { id, effect, priority, duration },
                now,
                result,
            ),
            (final(self).model(), result) == old(self).model().with_request(
                OverlayRequest { id, effect, priority, duration },
                now,
            ),
            old(self).wf() && now.wf() && duration.wf() ==> final(self).wf(),
    {
        proof {
            reveal(OverlayModel::with_request);
        }
        if let Err(error) = self.validate_monotonic(now) {
            return Err(error);
        }
        let expires_at = match checked_add(now.value, duration.value) {
            Ok(value) => value,
            Err(_) => return Err(OverlayError::ExpiryOverflow),
        };
        let sequence: u64 = self.next_sequence;
        if sequence == u64::MAX {
            return Err(OverlayError::SequenceExhausted);
        }
        proof {
            if now.wf() && duration.wf() {
                Double::sum_grows(now.value, duration.value);
            }
        }
        self.overlays.set(id, ActiveOverlay { effect, priority, sequence, expires_at });
        self.next_sequence = sequence + 1;
        self.last_observed = Some(now);
        Ok(())
    }

    pub fn insert_request(&mut self, request: OverlayRequest, now: MonotonicTime) -> (result: Result<
        (),
        OverlayError,
    >)
        ensures
            old(self).inserted(*final(self), request, now, result),
            (final(self).model(), result) == old(self).model().with_request(request, now),
            old(self).wf() && now.wf() && request.duration.wf() ==> final(self).wf(),
    {
        self.insert(request.id, request.effect, request.priority, now, request.duration)
    }

    pub fn cancel(&mut self, id: &OverlayId) -> (cancelled: bool)
        ensures
            cancelled == old(self).overlays@.contains_key(id.key()),
            final(self).overlays@ == old(self).overlays@.remove(id.key()),
            final(self).next_sequence == old(self).next_sequence,
            final(self).last_observed == old(self).last_observed,
            old(self).wf() ==> final(self).wf(),
    {
        match self.overlays.position(id) {
            Some(i) => {
                let _ = self.overlays.remove_at(i);
                true
            },
            None => {
                assert(self.overlays@.remove(id.key()) =~= self.overlays@);
                false
            },
        }
    }

    /// Removes the overlays that have expired.
    fn prune(&mut self, now: MonotonicTime)
        ensures
            final(self).overlays.pairs() == live_pairs(old(self).overlays.pairs(), now),
            final(self).next_sequence == old(self).next_sequence,
            final(self).last_observed == old(self).last_observed,
            old(self).wf() ==> final(self).wf(),
    {
        let ghost before = self.overlays.pairs();
        let count: usize = self.overlays.len();
        let mut kept: SortedMap<OverlayId, ActiveOverlay> = SortedMap::new();
        let mut i: usize = 0;
        assert(before.take(0) =~= Seq::<(OverlayId, ActiveOverlay)>::empty());
        while i < count
            invariant
                i <= count,
                count == before.len(),
                before == self.overlays.pairs(),
                crate::ordered::ascending(before),
                kept.pairs() == live_pairs(before.take(i as int), now),
                forall|j: int|
                    0 <= j < kept.pairs().len() ==> before.take(i as int).contains(
                        #[trigger] kept.pairs()[j],
                    ),
            decreases count - i,
        {
            let overlay = *self.overlays.value_at(i);
            proof {
                assert(before.take(i + 1).drop_last() =~= before.take(i as int));
                assert forall|j: int| 0 <= j < kept.pairs().len() implies text::before(
                    (#[trigger] kept.pairs()[j]).0.key(),
                    before[i as int].0.key(),
                ) by {
                    let k = choose|k: int|
                        0 <= k < i && before.take(i as int)[k] == kept.pairs()[j];
                    assert(before.take(i as int).contains(kept.pairs()[j]));
                    assert(before[k] == kept.pairs()[j]);
                }
            }
            let ghost so_far = kept.pairs();
            if now.value.lt(overlay.expires_at) {
                kept.push_last(self.overlays.key_at(i).clone(), overlay);
            }
            proof {
                assert forall|j: int| 0 <= j < kept.pairs().len() implies before.take(
                    i + 1,
                ).contains(#[trigger] kept.pairs()[j]) by {
                    if j < so_far.len() {
                        assert(so_far[j] == kept.pairs()[j]);
                        let k = choose|k: int|
                            0 <= k < i && before.take(i as int)[k] == so_far[j];
                        assert(before.take(i as int).contains(so_far[j]));
                        assert(before.take(i + 1)[k] == so_far[j]);
                    } else {
                        assert(before.take(i + 1)[i as int] == kept.pairs()[j]);
                    }
                }
            }
            i = i + 1;
        }
        assert(before.take(count as int) =~= before);
        let kept_count: usize = kept.len();
        proof {
            if self.wf() {
                lemma_subset_wf(self.overlays.pairs(), kept.pairs());
            }
        }
        self.overlays = kept;
    }

    pub fn compose(
        &mut self,
        underlying: LayeredLightTarget,
        now: MonotonicTime,
        color_temperature_range: KelvinRange,
    ) -> (result: Result<LightTarget, OverlayError>)
        ensures
            if old(self).regressed(now) {
                result == Err::<LightTarget, OverlayError>(OverlayError::MonotonicClockRegressed)
                    && *final(self) == *old(self)
            } else {
                &&& final(self).overlays.pairs() == live_pairs(old(self).overlays.pairs(), now)
                &&& final(self).next_sequence == old(self).next_sequence
                &&& final(self).last_observed == Some(now)
                &&& result == composed(final(self).overlays.pairs(), underlying, color_temperature_range)
            },
            (final(self).model(), result) == old(self).model().composed(
                underlying,
                now,
                color_temperature_range,
            ),
            old(self).wf() ==> final(self).wf(),
    {
        let result = self.apply_live(underlying, now, color_temperature_range);
        proof {
            reveal(OverlayModel::composed);
        }
        result
    }

    fn apply_live(
        &mut self,
        underlying: LayeredLightTarget,
        now: MonotonicTime,
        color_temperature_range: KelvinRange,
    ) -> (result: Result<LightTarget, OverlayError>)
        ensures
            if old(self).regressed(now) {
                result == Err::<LightTarget, OverlayError>(OverlayError::MonotonicClockRegressed)
                    && *final(self) == *old(self)
            } else {
                &&& final(self).overlays.pairs() == live_pairs(old(self).overlays.pairs(), now)
                &&& final(self).next_sequence == old(self).next_sequence
                &&& final(self).last_observed == Some(now)
                &&& result == composed(final(self).overlays.pairs(), underlying, color_temperature_range)
            },
            old(self).wf() ==> final(self).wf(),
    {
        if let Err(error) = self.validate_monotonic(now) {
            return Err(error);
        }
        self.prune(now);
        self.last_observed = Some(now);
        let ordered = self.arrange();
        let mut target = underlying;
        let mut i: usize = 0;
        while i < ordered.len()
            invariant
                i <= ordered@.len(),
                layered(ordered@, i as int, underlying) == Ok::<LayeredLightTarget, OverlayError>(
                    target,
                ),
                ordered@ == arranged(values_of(self.overlays.pairs())),
                !old(self).regressed(now),
                self.overlays.pairs() == live_pairs(old(self).overlays.pairs(), now),
                self.next_sequence == old(self).next_sequence,
                self.last_observed == Some(now),
                old(self).wf() ==> self.wf(),
            decreases ordered@.len() - i,
        {
            if let Err(error) = ordered[i].effect.apply(&mut target) {
                proof {
                    lemma_layered_error(ordered@, i + 1, ordered@.len() as int, underlying);
                }
                return Err(error);
            }
            i = i + 1;
        }
        match target.finalize(color_temperature_range) {
            Ok(target) => Ok(target),
            Err(error) => Err(OverlayError::InvalidValue(error)),
        }
    }

    /// The stored overlays in the order in which they apply.
    fn arrange(&self) -> (ordered: Vec<ActiveOverlay>)
        ensures
            ordered@ == arranged(values_of(self.overlays.pairs())),
    {
        let mut ordered: Vec<ActiveOverlay> = Vec::new();
        let count: usize = self.overlays.len();
        let ghost values = values_of(self.overlays.pairs());
        let mut k: usize = 0;
        assert(values.take(0) =~= Seq::<ActiveOverlay>::empty());
        while k < count
            invariant
                k <= count,
                count == self.overlays.pairs().len(),
                values == values_of(self.overlays.pairs()),
                ordered@ == arranged(values.take(k as int)),
            decreases count - k,
        {
            let overlay = *self.overlays.value_at(k);
            let mut i: usize = 0;
            while i < ordered.len() && (ordered[i].priority < overlay.priority || (
            ordered[i].priority == overlay.priority && ordered[i].sequence <= overlay.sequence))
                invariant
                    i <= ordered@.len(),
                    forall|j: int| 0 <= j < i ==> (#[trigger] ordered@[j]).not_after(overlay),
                decreases ordered@.len() - i,
            {
                i = i + 1;
            }
            proof {
                lemma_place(ordered@, overlay, i as int);
                assert(values.take(k + 1).drop_last() =~= values.take(k as int));
                assert(values.take(k + 1).last() == overlay);
            }
            ordered.insert(i, overlay);
            k = k + 1;
        }
        assert(values.take(count as int) =~= values);
        ordered
    }
}

/// The target that live overlays make of the layers below them.
pub open spec fn composed(
    pairs: Seq<(OverlayId, ActiveOverlay)>,
    underlying: LayeredLightTarget,
    range: KelvinRange,
) -> Result<LightTarget, OverlayError> {
    let ordered = arranged(values_of(pairs));
    match layered(ordered, ordered.len() as int, underlying) {
        Err(error) => Err(error),
        Ok(target) => match target.finalized(range) {
            Ok(target) => Ok(target),
            Err(error) => Err(OverlayError::InvalidValue(error)),
        },
    }
}

/// Overlays neither switch a light nor change how it fades, and never leave it both a
/// colour and a colour temperature.
pub proof fn overlays_keep_power(
    ordered: Seq<ActiveOverlay>,
    n: int,
    underlying: LayeredLightTarget,
)
    requires
        underlying.color is None || underlying.color_temperature_kelvin is None,
    ensures
        layered(ordered, n, underlying) matches Ok(target) ==> {
            &&& target.on == underlying.on
            &&& target.transition_ms == underlying.transition_ms
            &&& target.color is None || target.color_temperature_kelvin is None
        },
    decreases n,
{
    if n > 0 {
        overlays_keep_power(ordered, n - 1, underlying);
    }
}

/// Overlays that have expired leave no trace.
pub proof fn expired_overlays_leave_no_trace(
    pairs: Seq<(OverlayId, ActiveOverlay)>,
    now: MonotonicTime,
    underlying: LayeredLightTarget,
    range: KelvinRange,
)
    requires
        forall|i: int| 0 <= i < pairs.len() ==> !(#[trigger] pairs[i]).1.live(now),
    ensures
        live_pairs(pairs, now).len() == 0,
        composed(live_pairs(pairs, now), underlying, range) == match underlying.finalized(range) {
            Ok(target) => Ok::<LightTarget, OverlayError>(target),
            Err(error) => Err(OverlayError::InvalidValue(error)),
        },
    decreases pairs.len(),
{
    if pairs.len() > 0 {
        let shorter = pairs.drop_last();
        assert forall|i: int| 0 <= i < shorter.len() implies !(
        #[trigger] shorter[i]).1.live(now) by {
            assert(shorter[i] == pairs[i]);
        }
        assert(!pairs[pairs.len() - 1].1.live(now));
        expired_overlays_leave_no_trace(shorter, now, underlying, range);
    }
}

proof fn lemma_subset_wf(
    before: Seq<(OverlayId, ActiveOverlay)>,
    after: Seq<(OverlayId, ActiveOverlay)>,
)
    requires
        crate::ordered::ascending(before),
        crate::ordered::ascending(after),
        forall|j: int| 0 <= j < after.len() ==> before.contains(#[trigger] after[j]),
    ensures
        forall|key: Seq<u8>| #[trigger]
            crate::ordered::map_of(after).contains_key(key) ==> crate::ordered::map_of(
                before,
            ).contains_key(key) && crate::ordered::map_of(after)[key] == crate::ordered::map_of(
                before,
            )[key],
{
    assert forall|key: Seq<u8>| #[trigger]
        crate::ordered::map_of(after).contains_key(key) implies crate::ordered::map_of(
        before,
    ).contains_key(key) && crate::ordered::map_of(after)[key] == crate::ordered::map_of(
        before,
    )[key] by {
        let j = crate::ordered::index_of(after, key);
        crate::ordered::pair_is_mapped(after, j);
        assert(before.contains(after[j]));
        let k = choose|k: int| 0 <= k < before.len() && before[k] == after[j];
        crate::ordered::pair_is_mapped(before, k);
    }
}

impl Default for OverlaySet {
    fn default() -> (result: Self)
        ensures
            result.overlays@ == Map::<Seq<u8>, ActiveOverlay>::empty(),
            result.next_sequence == 0,
            result.last_observed is None,
    {
        OverlaySet::new()
    }
}

#[derive(Debug, Clone, Copy, PartialEq, Eq, Structural)]
pub enum AcknowledgementKind {
    Frozen,
    Unfrozen,
}

impl AcknowledgementKind {
    pub open spec fn of(outcome: CurveToggleOutcome) -> AcknowledgementKind {
        match outcome {
            CurveToggleOutcome::Frozen => AcknowledgementKind::Frozen,
            CurveToggleOutcome::Unfrozen => AcknowledgementKind::Unfrozen,
        }
    }

    pub fn from_outcome(outcome: CurveToggleOutcome) -> (kind: AcknowledgementKind)
        ensures
            kind == AcknowledgementKind::of(outcome),
    {
        match outcome {
            CurveToggleOutcome::Frozen => AcknowledgementKind::Frozen,
            CurveToggleOutcome::Unfrozen => AcknowledgementKind::Unfrozen,
        }
    }
}

/// How a curve toggle is acknowledged.
#[derive(Debug, PartialEq)]
pub struct AcknowledgementSettings {
    pub id: OverlayId,
    pub amplitude: Double,
    pub duration: OverlayDuration,
    pub priority: i32,
}

impl Clone for AcknowledgementSettings {
    fn clone(&self) -> (result: Self)
        ensures
            result == *self,
    {
        AcknowledgementSettings {
            id: self.id.clone(),
            amplitude: self.amplitude,
            duration: self.duration,
            priority: self.priority,
        }
    }
}

impl AcknowledgementSettings {
    pub open spec fn wf(self) -> bool {
        self.amplitude.finite() && self.duration.wf()
    }

    pub open spec fn checked(
        id: OverlayId,
        amplitude: Double,
        duration_seconds: Double,
        priority: i32,
    ) -> Result<AcknowledgementSettings, OverlayError> {
        if !amplitude.finite() {
            Err(OverlayError::NonFinite)
        } else if !((Double { bits: MIN_ACKNOWLEDGEMENT_AMPLITUDE }).at_most(amplitude)
            && amplitude.at_most(Double { bits: MAX_ACKNOWLEDGEMENT_AMPLITUDE })) {
            Err(OverlayError::AmplitudeOutOfRange)
        } else {
            match OverlayDuration::checked(duration_seconds) {
                Ok(duration) => Ok(AcknowledgementSettings { id, amplitude, duration, priority }),
                Err(error) => Err(error),
            }
        }
    }

    /// Brightness of the pulse over a light at `level`.
    ///
    /// Freezing pulses toward the middle, unfreezing away from it unless that
    /// leaves the range, in which case it pulses twice as far toward the middle.
    pub open spec fn pulse(self, outcome: CurveToggleOutcome, level: Double) -> Double {
        let zero = Double { bits: 0 };
        let one = Double { bits: ONE };
        let brightness = level.limited(zero, one);
        let primary = if brightness.at_most(Double { bits: HALF }) {
            self.amplitude
        } else {
            self.amplitude.negated()
        };
        let opposite = brightness.difference(primary);
        match outcome {
            CurveToggleOutcome::Frozen => brightness.sum(primary).limited(zero, one),
            CurveToggleOutcome::Unfrozen => if zero.at_most(opposite) && opposite.at_most(one) {
                opposite
            } else {
                brightness.sum((Double { bits: TWO }).product(primary)).limited(zero, one)
            },
        }
    }

    pub open spec fn request(self, outcome: CurveToggleOutcome, target: LayeredLightTarget) -> Option<
        AcknowledgementRequest,
    > {
        match target.brightness {
            Some(level) => if target.on {
                Some(
                    AcknowledgementRequest {
                        kind: AcknowledgementKind::of(outcome),
                        overlay: OverlayRequest {
                            id: self.id,
                            effect: OverlayEffect::Scene {
                                brightness: Some(Brightness { value: self.pulse(outcome, level) }),
                                color_temperature: None,
                                color: None,
                            },
                            priority: self.priority,
                            duration: self.duration,
                        },
                    },
                )
            } else {
                None
            },
            None => None,
        }
    }

    /// The pulse over finite layers is a valid brightness.
    pub proof fn pulse_is_brightness(self, outcome: CurveToggleOutcome, level: Double)
        requires
            self.wf(),
            level.finite(),
        ensures
            (Brightness { value: self.pulse(outcome, level) }).wf(),
    {
        let zero = Double { bits: 0 };
        let one = Double { bits: ONE };
        let brightness = level.limited(zero, one);
        let primary = if brightness.at_most(Double { bits: HALF }) {
            self.amplitude
        } else {
            self.amplitude.negated()
        };
        assert(primary.finite());
        Double::finite_operations(brightness, primary);
        let twice = (Double { bits: TWO }).product(primary);
        Double::finite_operations(Double { bits: TWO }, primary);
        if twice.finite() {
            Double::finite_operations(brightness, twice);
        }
    }

    /// The two pulses differ from each other and from the light that they are shown
    /// over.
    pub proof fn pulses_are_visible(self, level: Double)
        requires
            (Double { bits: MIN_ACKNOWLEDGEMENT_AMPLITUDE }).at_most(self.amplitude),
            self.amplitude.at_most(Double { bits: MAX_ACKNOWLEDGEMENT_AMPLITUDE }),
            level.finite(),
        ensures
            ({
                let shown = level.limited(Double { bits: 0 }, Double { bits: ONE });
                let frozen = self.pulse(CurveToggleOutcome::Frozen, level);
                let unfrozen = self.pulse(CurveToggleOutcome::Unfrozen, level);
                &&& !frozen.same(shown)
                &&& !unfrozen.same(shown)
                &&& !frozen.same(unfrozen)
            }),
    {
        let zero = Double { bits: 0 };
        let one = Double { bits: ONE };
        let half = Double { bits: HALF };
        let least = Double { bits: 0x3f80_0000_0000_0000 };
        let a = self.amplitude;
        let b = level.limited(zero, one);
        Double::known_units();
        Double::order_is_numeric(least, a);
        Double::order_is_numeric(a, Double { bits: MAX_ACKNOWLEDGEMENT_AMPLITUDE });
        Double::order_is_numeric(zero, b);
        Double::order_is_numeric(b, one);
        Double::order_is_numeric(b, half);
        Double::doubling_is_exact(a);
        Double::doubling_is_exact(a.negated());
        assert(a.negated().units() == -a.units());
        assert(a.negated().negated() == a);
        let primary = if b.at_most(half) {
            a
        } else {
            a.negated()
        };
        let twice = (Double { bits: TWO }).product(primary);
        let opposite = b.difference(primary);
        if b.at_most(half) {
            Double::sums_stay_apart(b, zero, b, a);
            if b.units() >= a.units() {
                Double::sums_stay_apart(b, a.negated(), b, zero);
                Double::sums_stay_apart(b, a.negated(), b, a);
            } else {
                Double::sums_keep_their_sign(b, a.negated());
                Double::sums_stay_apart(b, zero, b, twice);
                Double::sums_stay_apart(b, a, b, twice);
            }
        } else {
            Double::sums_stay_apart(b, a.negated(), b, zero);
            if b.units() + a.units() <= one.units() {
                Double::sums_stay_apart(b, zero, b, a);
                Double::sums_stay_apart(b, a.negated(), b, a);
            } else {
                Double::sums_reach_one(b, a);
                Double::sums_stay_apart(b, twice, b, zero);
                Double::sums_stay_apart(b, twice, b, a.negated());
            }
        }
        Double::plus_zero_is_same(b);
    }

    pub fn new(id: OverlayId, amplitude: Double, duration_seconds: Double, priority: i32) -> (result:
        Result<Self, OverlayError>)
        ensures
            result == AcknowledgementSettings::checked(id, amplitude, duration_seconds, priority),
            result matches Ok(settings) ==> settings.wf(),
    {
        if !amplitude.is_finite() {
            return Err(OverlayError::NonFinite);
        }
        if !(Double::from_bits(MIN_ACKNOWLEDGEMENT_AMPLITUDE).le(amplitude) && amplitude.le(
            Double::from_bits(MAX_ACKNOWLEDGEMENT_AMPLITUDE),
        )) {
            return Err(OverlayError::AmplitudeOutOfRange);
        }
        match OverlayDuration::from_seconds(duration_seconds) {
            Ok(duration) => Ok(AcknowledgementSettings { id, amplitude, duration, priority }),
            Err(error) => Err(error),
        }
    }

    pub fn for_toggle(
        &self,
        outcome: CurveToggleOutcome,
        target: &LayeredLightTarget,
        capabilities: Capabilities,
    ) -> (result: Option<AcknowledgementRequest>)
        ensures
            result == if capabilities.dimming {
                self.request(outcome, *target)
            } else {
                None
            },
    {
        if !capabilities.dimming {
            return None;
        }
        self.for_scope_toggle(outcome, target)
    }

    /// Builds one scope-level pulse. Device adaptation later omits brightness
    /// for members without dimming support.
    pub fn for_scope_toggle(&self, outcome: CurveToggleOutcome, target: &LayeredLightTarget) -> (result:
        Option<AcknowledgementRequest>)
        ensures
            result == self.request(outcome, *target),
    {
        if !target.on {
            return None;
        }
        let level = match target.brightness {
            Some(level) => level,
            None => return None,
        };
        let zero = Double::from_bits(0);
        let one = Double::from_bits(ONE);
        let brightness = level.clamp(zero, one);
        let primary = if brightness.le(Double::from_bits(HALF)) {
            self.amplitude
        } else {
            self.amplitude.neg()
        };
        let frozen_target = brightness.plus(primary).clamp(zero, one);
        let opposite = brightness.minus(primary);
        let unfrozen_target = if zero.le(opposite) && opposite.le(one) {
            opposite
        } else {
            brightness.plus(Double::from_bits(TWO).times(primary)).clamp(zero, one)
        };
        let pulse_target = match outcome {
            CurveToggleOutcome::Frozen => frozen_target,
            CurveToggleOutcome::Unfrozen => unfrozen_target,
        };
        Some(
            AcknowledgementRequest {
                kind: AcknowledgementKind::from_outcome(outcome),
                overlay: OverlayRequest::new(
                    self.id.clone(),
                    OverlayEffect::Scene {
                        brightness: Some(Brightness { value: pulse_target }),
                        color_temperature: None,
                        color: None,
                    },
                    self.priority,
                    self.duration,
                ),
            },
        )
    }
}

/// A pulse that acknowledges a toggle.
#[derive(Debug, PartialEq)]
pub struct AcknowledgementRequest {
    pub kind: AcknowledgementKind,
    pub overlay: OverlayRequest,
}

impl AcknowledgementRequest {
    pub fn kind(&self) -> (kind: AcknowledgementKind)
        ensures
            kind == self.kind,
    {
        self.kind
    }

    pub fn into_overlay(self) -> (overlay: OverlayRequest)
        ensures
            overlay == self.overlay,
    {
        self.overlay
    }
}

} // verus!
