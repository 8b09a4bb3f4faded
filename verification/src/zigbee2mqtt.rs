//! Topics and messages of Zigbee2MQTT.
use crate::double::Double;
use crate::input::{Direction, RawInputEvent};
use crate::json::{read_json, write_json, JsonDocument, JsonField, JsonItem, JsonScalar};
use crate::message::{digits, joined};
use crate::ordered::{OrderedKey, SortedMap};
use crate::reconcile::{
    Availability, CommandEntity, DeviceId, DispatchToken, EntityId, ReconcileAction,
};
use crate::state::{ControlId, MonotonicTime};
use crate::text;
use crate::value::{Brightness, Capabilities, Color, DeviceTarget, Kelvin};
use vstd::prelude::*;
use vstd::string::*;

verus! {

pub const MAX_TOPIC_COMPONENT_LENGTH: usize = 256;

pub const MAX_UNKNOWN_ACTION_LENGTH: usize = 128;

/// Long circadian changes use sparse incremental commands, so adapter-side
/// hardware transitions are deliberately bounded to one minute.
pub const MAX_COMMAND_TRANSITION_MS: u64 = 60_000;

/// Bits of `254.0`.
pub const BRIGHTNESS_SCALE: u64 = 0x406f_c000_0000_0000;

/// Bits of `1_000_000.0`.
pub const MIRED_SCALE: u64 = 0x412e_8480_0000_0000;

/// Bits of `100.0`.
pub const PERCENT: u64 = 0x4059_0000_0000_0000;

/// Bits of `1000.0`.
pub const MILLISECONDS: u64 = 0x408f_4000_0000_0000;

/// Bits of two to the 64th.
pub const MILLISECOND_LIMIT: u64 = 0x43f0_0000_0000_0000;

/// What went wrong, where, and whether it can ever go right.
#[verifier::ext_equal]
pub struct Fault {
    pub context: Seq<char>,
    pub reason: Seq<char>,
    pub permanent: bool,
}

pub open spec fn configuration(reason: Seq<char>) -> Fault {
    Fault { context: "configuration"@, reason, permanent: true }
}

pub open spec fn about(context: Seq<char>, reason: Seq<char>) -> Fault {
    Fault { context, reason, permanent: false }
}

#[derive(Debug, PartialEq, Eq)]
pub struct AdapterError {
    pub context: String,
    pub reason: String,
    pub permanent: bool,
}

impl AdapterError {
    pub open spec fn view(&self) -> Fault {
        Fault { context: self.context@, reason: self.reason@, permanent: self.permanent }
    }

    fn configuration(reason: String) -> (error: Self)
        ensures
            error@ == configuration(reason@),
    {
        AdapterError { context: String::from_str("configuration"), reason, permanent: true }
    }

    fn message(context: &str, reason: String) -> (error: Self)
        ensures
            error@ == about(context@, reason@),
    {
        AdapterError { context: String::from_str(context), reason, permanent: false }
    }

    /// Permanent errors are invalid adapter configuration/encoding and must
    /// cancel the staged token. Transient MQTT enqueue errors occur outside the
    /// adapter and use the reconciler's bounded dispatch backoff instead.
    pub fn is_permanent(&self) -> (permanent: bool)
        ensures
            permanent == self.permanent,
    {
        self.permanent
    }

    /// The error in words.
    pub fn text(&self) -> (text: String)
        ensures
            text@ == self.context@ + ": "@ + self.reason@,
    {
        joined(joined(self.context.clone(), ": "), self.reason.as_str())
    }
}

#[derive(Debug, Clone, Copy, PartialEq, Eq, Structural)]
pub struct MiredRange {
    pub min: u16,
    pub max: u16,
}

impl MiredRange {
    pub open spec fn wf(self) -> bool {
        0 < self.min <= self.max
    }

    /// The nearest mired value that the range holds; zero for what is no number.
    pub open spec fn limited(self, value: Double) -> u16 {
        let whole = value.rounded();
        if value.nan() {
            0
        } else if whole < self.min {
            self.min
        } else if whole > self.max {
            self.max
        } else {
            whole as u16
        }
    }

    pub fn new(min: u16, max: u16) -> (result: Result<Self, AdapterError>)
        ensures
            result matches Err(error) ==> error.permanent,
            match result {
                Ok(range) => range == (MiredRange { min, max }) && range.wf(),
                Err(error) => !(MiredRange { min, max }).wf() && error@ == configuration(
                    "mired range must be positive and ordered"@,
                ),
            },
    {
        if min == 0 || min > max {
            return Err(
                AdapterError::configuration(
                    String::from_str("mired range must be positive and ordered"),
                ),
            );
        }
        Ok(MiredRange { min, max })
    }

    pub fn min(self) -> (min: u16)
        ensures
            min == self.min,
    {
        self.min
    }

    pub fn max(self) -> (max: u16)
        ensures
            max == self.max,
    {
        self.max
    }

    fn contains(self, value: u64) -> (result: bool)
        ensures
            result == (self.min <= value <= self.max),
    {
        self.min as u64 <= value && value <= self.max as u64
    }

    pub(crate) fn clamp(self, value: Double) -> (result: u16)
        ensures
            result == self.limited(value),
    {
        let whole: u64 = value.round_to_u64();
        if value.is_nan() {
            0
        } else if whole < self.min as u64 {
            self.min
        } else if whole > self.max as u64 {
            self.max
        } else {
            whole as u16
        }
    }
}

/// A last topic segment that Zigbee2MQTT gives a meaning of its own.
pub open spec fn reserved_terminal(segment: Seq<char>) -> bool {
    ||| segment == "left"@
    ||| segment == "right"@
    ||| segment == "set"@
    ||| segment == "get"@
    ||| segment == "availability"@
    ||| text::numeric(segment)
}

/// A name that a device, group or control can have as a topic.
pub open spec fn friendly(name: Seq<char>) -> bool {
    &&& name.len() > 0
    &&& text::bytes_of(name).len() <= MAX_TOPIC_COMPONENT_LENGTH
    &&& name[0] != '/'
    &&& name[name.len() - 1] != '/'
    &&& name != "bridge"@
    &&& !text::starts(name, "bridge/"@)
    &&& !text::has_unfit(name)
    &&& !reserved_terminal(text::pieces(name, '/').last())
}

fn validate_friendly_name(value: &str) -> (result: bool)
    ensures
        result == friendly(value@),
{
    let chars = text::characters(value);
    if chars.len() == 0 || value.as_bytes().len() > MAX_TOPIC_COMPONENT_LENGTH {
        return false;
    }
    if chars[0] == '/' || chars[chars.len() - 1] == '/' {
        return false;
    }
    if text::text_equals(value, "bridge") || text::starts_with(
        &chars,
        &text::characters("bridge/"),
    ) || text::contains_unfit(&chars) {
        return false;
    }
    let segments = text::split(value, '/');
    let terminal = segments[segments.len() - 1].as_str();
    assert(terminal@ == text::views(segments@).last());
    !(text::text_equals(terminal, "left") || text::text_equals(terminal, "right")
        || text::text_equals(terminal, "set") || text::text_equals(terminal, "get")
        || text::text_equals(terminal, "availability") || text::is_numeric(
        &text::characters(terminal),
    ))
}

/// A topic under which all others stand.
pub open spec fn base(topic: Seq<char>) -> bool {
    &&& topic.len() > 0
    &&& text::bytes_of(topic).len() <= MAX_TOPIC_COMPONENT_LENGTH
    &&& topic[0] != '/'
    &&& topic[topic.len() - 1] != '/'
    &&& !text::has_unfit(topic)
}

fn validate_base_topic(value: &str) -> (result: bool)
    ensures
        result == base(value@),
{
    let chars = text::characters(value);
    if chars.len() == 0 || value.as_bytes().len() > MAX_TOPIC_COMPONENT_LENGTH {
        return false;
    }
    chars[0] != '/' && chars[chars.len() - 1] != '/' && !text::contains_unfit(&chars)
}

#[derive(Debug, PartialEq)]
pub struct DeviceBinding {
    pub id: DeviceId,
    pub friendly_name: String,
    pub capabilities: Capabilities,
    pub mired_range: Option<MiredRange>,
    pub single_transition_attribute: bool,
}

impl Clone for DeviceBinding {
    fn clone(&self) -> (result: Self)
        ensures
            result == *self,
    {
        DeviceBinding {
            id: self.id.clone(),
            friendly_name: self.friendly_name.clone(),
            capabilities: self.capabilities,
            mired_range: self.mired_range,
            single_transition_attribute: self.single_transition_attribute,
        }
    }
}

impl DeviceBinding {
    pub fn new(
        id: DeviceId,
        friendly_name: String,
        capabilities: Capabilities,
        mired_range: Option<MiredRange>,
        single_transition_attribute: bool,
    ) -> (result: Result<Self, AdapterError>)
        ensures
            result matches Err(error) ==> error.permanent,
            match result {
                Ok(binding) => {
                    &&& binding == (DeviceBinding {
                        id,
                        friendly_name,
                        capabilities,
                        mired_range,
                        single_transition_attribute,
                    })
                    &&& capabilities.color_temperature is Some == mired_range is Some
                    &&& friendly(friendly_name@)
                },
                Err(error) => if capabilities.color_temperature is Some != mired_range is Some {
                    error@ == configuration(
                        "mired range must be present exactly when color-temperature capability is present"@,
                    )
                } else {
                    !friendly(friendly_name@) && error@ == configuration(
                        "invalid Zigbee2MQTT friendly name"@,
                    )
                },
            },
    {
        if capabilities.color_temperature.is_some() != mired_range.is_some() {
            return Err(
                AdapterError::configuration(
                    String::from_str(
                        "mired range must be present exactly when color-temperature capability is present",
                    ),
                ),
            );
        }
        if !validate_friendly_name(friendly_name.as_str()) {
            return Err(
                AdapterError::configuration(String::from_str("invalid Zigbee2MQTT friendly name")),
            );
        }
        Ok(
            DeviceBinding {
                id,
                friendly_name,
                capabilities,
                mired_range,
                single_transition_attribute,
            },
        )
    }
}

#[derive(Debug, PartialEq, Eq)]
pub struct GroupBinding {
    pub id: EntityId,
    pub friendly_name: String,
    pub mired_range: Option<MiredRange>,
    pub single_transition_attribute: bool,
}

impl Clone for GroupBinding {
    fn clone(&self) -> (result: Self)
        ensures
            result == *self,
    {
        GroupBinding {
            id: self.id.clone(),
            friendly_name: self.friendly_name.clone(),
            mired_range: self.mired_range,
            single_transition_attribute: self.single_transition_attribute,
        }
    }
}

impl GroupBinding {
    pub fn new(
        id: EntityId,
        friendly_name: String,
        mired_range: Option<MiredRange>,
        single_transition_attribute: bool,
    ) -> (result: Result<Self, AdapterError>)
        ensures
            result matches Err(error) ==> error.permanent,
            match result {
                Ok(binding) => binding == (GroupBinding {
                    id,
                    friendly_name,
                    mired_range,
                    single_transition_attribute,
                }) && friendly(friendly_name@),
                Err(error) => !friendly(friendly_name@) && error@ == configuration(
                    "invalid Zigbee2MQTT friendly name"@,
                ),
            },
    {
        if !validate_friendly_name(friendly_name.as_str()) {
            return Err(
                AdapterError::configuration(String::from_str("invalid Zigbee2MQTT friendly name")),
            );
        }
        Ok(GroupBinding { id, friendly_name, mired_range, single_transition_attribute })
    }
}

#[derive(Debug, PartialEq, Eq)]
pub struct ControlBinding {
    pub id: ControlId,
    pub friendly_name: String,
}

impl Clone for ControlBinding {
    fn clone(&self) -> (result: Self)
        ensures
            result == *self,
    {
        ControlBinding { id: self.id.clone(), friendly_name: self.friendly_name.clone() }
    }
}

impl ControlBinding {
    pub fn new(id: ControlId, friendly_name: String) -> (result: Result<Self, AdapterError>)
        ensures
            result matches Err(error) ==> error.permanent,
            match result {
                Ok(binding) => binding == (ControlBinding { id, friendly_name }) && friendly(
                    friendly_name@,
                ),
                Err(error) => !friendly(friendly_name@) && error@ == configuration(
                    "invalid Zigbee2MQTT friendly name"@,
                ),
            },
    {
        if !validate_friendly_name(friendly_name.as_str()) {
            return Err(
                AdapterError::configuration(String::from_str("invalid Zigbee2MQTT friendly name")),
            );
        }
        Ok(ControlBinding { id, friendly_name })
    }
}

#[derive(Debug, Clone, Copy, PartialEq, Eq, Structural)]
pub enum Qos {
    AtMostOnce,
    AtLeastOnce,
    ExactlyOnce,
}

#[derive(Debug, Clone, Copy, PartialEq, Eq)]
pub struct InboundMessage<'a> {
    pub topic: &'a str,
    pub payload: &'a [u8],
    pub retain: bool,
    pub duplicate: bool,
    pub qos: Qos,
}

impl<'a> InboundMessage<'a> {
    pub fn new(topic: &'a str, payload: &'a [u8], retain: bool, duplicate: bool, qos: Qos) -> (result:
        Self)
        ensures
            result == (InboundMessage { topic, payload, retain, duplicate, qos }),
    {
        InboundMessage { topic, payload, retain, duplicate, qos }
    }

    pub fn topic(self) -> (topic: &'a str)
        ensures
            topic == self.topic,
    {
        self.topic
    }

    pub fn payload(self) -> (payload: &'a [u8])
        ensures
            payload == self.payload,
    {
        self.payload
    }

    pub fn retain(self) -> (retain: bool)
        ensures
            retain == self.retain,
    {
        self.retain
    }

    pub fn duplicate(self) -> (duplicate: bool)
        ensures
            duplicate == self.duplicate,
    {
        self.duplicate
    }

    pub fn qos(self) -> (qos: Qos)
        ensures
            qos == self.qos,
    {
        self.qos
    }
}

/// What a message says.
#[derive(Debug, PartialEq)]
pub enum InboundEvent {
    BridgeAvailability(Availability),
    DeviceAvailability { device: DeviceId, availability: Availability },
    DeviceState { device: DeviceId, state: DeviceTarget },
    Input { control: ControlId, event: RawInputEvent },
    UnknownInputAction { control: ControlId, action: String },
}

/// What a message says, with texts by their characters.
pub enum Heard {
    BridgeAvailability(Availability),
    DeviceAvailability { device: DeviceId, availability: Availability },
    DeviceState { device: DeviceId, state: DeviceTarget },
    Input { control: ControlId, event: RawInputEvent },
    UnknownInputAction { control: ControlId, action: Seq<u8> },
}

impl InboundEvent {
    pub open spec fn view(&self) -> Heard {
        match *self {
            InboundEvent::BridgeAvailability(availability) => Heard::BridgeAvailability(
                availability,
            ),
            InboundEvent::DeviceAvailability { device, availability } => Heard::DeviceAvailability {
                device,
                availability,
            },
            InboundEvent::DeviceState { device, state } => Heard::DeviceState { device, state },
            InboundEvent::Input { control, event } => Heard::Input { control, event },
            InboundEvent::UnknownInputAction { control, action } => Heard::UnknownInputAction {
                control,
                action: text::bytes_of(action@),
            },
        }
    }
}

/// `result` is `expected`.
pub open spec fn tells<T>(expected: Result<T, Fault>, result: Result<T, AdapterError>) -> bool {
    match expected {
        Ok(value) => result == Ok::<T, AdapterError>(value),
        Err(fault) => result matches Err(error) && error@ == fault,
    }
}

/// The field called `name` among the first `n`.
pub open spec fn field_named(
    fields: Seq<crate::json::FieldView>,
    n: int,
    name: Seq<char>,
) -> Option<crate::json::FieldView>
    decreases n,
{
    if n <= 0 {
        None
    } else {
        match field_named(fields, n - 1, name) {
            Some(field) => Some(field),
            None => if fields[n - 1].name == name {
                Some(fields[n - 1])
            } else {
                None
            },
        }
    }
}

pub open spec fn field_views(fields: Seq<JsonField>) -> Seq<crate::json::FieldView> {
    Seq::new(fields.len(), |i: int| fields[i]@)
}

proof fn lemma_field_found(fields: Seq<crate::json::FieldView>, k: int, n: int, name: Seq<char>)
    requires
        0 <= k < n,
        fields[k].name == name,
        field_named(fields, k, name) is None,
    ensures
        field_named(fields, n, name) == Some(fields[k]),
    decreases n - k,
{
    if n > k + 1 {
        lemma_field_found(fields, k, n - 1, name);
    }
}

fn find_field<'a>(fields: &'a Vec<JsonField>, name: &str) -> (field: Option<&'a JsonField>)
    ensures
        match field {
            Some(found) => field_named(field_views(fields@), fields@.len() as int, name@) == Some(
                found@,
            ),
            None => field_named(field_views(fields@), fields@.len() as int, name@) is None,
        },
{
    let ghost views = field_views(fields@);
    let mut i: usize = 0;
    while i < fields.len()
        invariant
            i <= fields@.len(),
            views == field_views(fields@),
            field_named(views, i as int, name@) is None,
        decreases fields@.len() - i,
    {
        assert(views[i as int] == fields@[i as int]@);
        if text::text_equals(fields[i].name.as_str(), name) {
            proof {
                lemma_field_found(views, i as int, fields@.len() as int, name@);
            }
            return Some(&fields[i]);
        }
        i = i + 1;
    }
    None
}

/// The number called `name` among the first `n` components: `None` if there is
/// none of that name, `Some(None)` if it is no number.
pub open spec fn component_named(
    components: Seq<(Seq<char>, Option<Double>)>,
    n: int,
    name: Seq<char>,
) -> Option<Option<Double>>
    decreases n,
{
    if n <= 0 {
        None
    } else {
        match component_named(components, n - 1, name) {
            Some(value) => Some(value),
            None => if components[n - 1].0 == name {
                Some(components[n - 1].1)
            } else {
                None
            },
        }
    }
}

proof fn lemma_component_found(
    components: Seq<(Seq<char>, Option<Double>)>,
    k: int,
    n: int,
    name: Seq<char>,
)
    requires
        0 <= k < n,
        components[k].0 == name,
        component_named(components, k, name) is None,
    ensures
        component_named(components, n, name) == Some(components[k].1),
    decreases n - k,
{
    if n > k + 1 {
        lemma_component_found(components, k, n - 1, name);
    }
}

fn find_component(components: &Vec<(String, Option<Double>)>, name: &str) -> (value: Option<
    Option<Double>,
>)
    ensures
        value == component_named(
            Seq::new(components@.len(), |i: int| (components@[i].0@, components@[i].1)),
            components@.len() as int,
            name@,
        ),
{
    let ghost views = Seq::new(
        components@.len(),
        |i: int| (components@[i].0@, components@[i].1),
    );
    let mut i: usize = 0;
    while i < components.len()
        invariant
            i <= components@.len(),
            views == Seq::new(
                components@.len(),
                |i: int| (components@[i].0@, components@[i].1),
            ),
            component_named(views, i as int, name@) is None,
        decreases components@.len() - i,
    {
        assert(views[i as int] == (components@[i as int].0@, components@[i as int].1));
        if text::text_equals(components[i].0.as_str(), name) {
            proof {
                lemma_component_found(views, i as int, components@.len() as int, name@);
            }
            return Some(components[i].1);
        }
        i = i + 1;
    }
    None
}

/// The availability that a word stands for.
pub open spec fn availability_word(context: Seq<char>, word: Seq<char>) -> Result<
    Availability,
    Fault,
> {
    if word == "online"@ {
        Ok(Availability::Online)
    } else if word == "offline"@ {
        Ok(Availability::Offline)
    } else if word == "unknown"@ {
        Ok(Availability::Unknown)
    } else {
        Err(about(context, "unknown availability state"@))
    }
}

/// The availability in a payload that reads as `document`, or does not read as
/// JSON at all.
pub open spec fn availability_of(
    context: Seq<char>,
    payload: Seq<u8>,
    document: Result<crate::json::DocumentView, Seq<char>>,
) -> Result<Availability, Fault> {
    match document {
        Ok(document) => match (document.text, document.fields) {
            (Some(word), _) => availability_word(context, word),
            (None, Some(fields)) => match field_named(fields, fields.len() as int, "state"@) {
                Some(field) => match field.text {
                    Some(word) => availability_word(context, word),
                    None => Err(about(context, "availability.state must be a string"@)),
                },
                None => Err(about(context, "availability.state must be a string"@)),
            },
            (None, None) => Err(
                about(context, "availability payload must be a string or object"@),
            ),
        },
        Err(_) => if vstd::utf8::valid_utf8(payload) {
            availability_word(context, vstd::utf8::decode_utf8(payload))
        } else {
            Err(about(context, "availability payload is not UTF-8"@))
        },
    }
}

/// Decodes bytes with `std::str::from_utf8`, which succeeds exactly on valid
/// UTF-8 and then gives the text that the bytes encode.
#[verifier::external_body]
pub(crate) fn decode(payload: &[u8]) -> (text: Option<String>)
    ensures
        match text {
            Some(text) => vstd::utf8::valid_utf8(payload@) && text@ == vstd::utf8::decode_utf8(
                payload@,
            ),
            None => !vstd::utf8::valid_utf8(payload@),
        },
{
    std::str::from_utf8(payload).ok().map(str::to_owned)
}

fn name_availability(context: &str, word: &str) -> (result: Result<Availability, AdapterError>)
    ensures
        tells(availability_word(context@, word@), result),
{
    if text::text_equals(word, "online") {
        Ok(Availability::Online)
    } else if text::text_equals(word, "offline") {
        Ok(Availability::Offline)
    } else if text::text_equals(word, "unknown") {
        Ok(Availability::Unknown)
    } else {
        Err(AdapterError::message(context, String::from_str("unknown availability state")))
    }
}

pub open spec fn document_view(document: Result<JsonDocument, String>) -> Result<
    crate::json::DocumentView,
    Seq<char>,
> {
    match document {
        Ok(document) => Ok(document@),
        Err(reason) => Err(reason@),
    }
}

/// The availability in a payload that was read as `document`.
pub fn availability_from(
    context: &str,
    payload: &[u8],
    document: &Result<JsonDocument, String>,
) -> (result: Result<Availability, AdapterError>)
    ensures
        tells(availability_of(context@, payload@, document_view(*document)), result),
{
    match document {
        Ok(document) => {
            if let Some(word) = &document.text {
                return name_availability(context, word.as_str());
            }
            match &document.fields {
                Some(fields) => {
                    assert(document@.fields->0 =~= field_views(fields@));
                    if let Some(field) = find_field(fields, "state") {
                        if let Some(word) = &field.text {
                            return name_availability(context, word.as_str());
                        }
                    }
                    Err(
                        AdapterError::message(
                            context,
                            String::from_str("availability.state must be a string"),
                        ),
                    )
                },
                None => Err(
                    AdapterError::message(
                        context,
                        String::from_str("availability payload must be a string or object"),
                    ),
                ),
            }
        },
        Err(_) => {
            match decode(payload) {
                Some(word) => name_availability(context, word.as_str()),
                None => Err(
                    AdapterError::message(
                        context,
                        String::from_str("availability payload is not UTF-8"),
                    ),
                ),
            }
        },
    }
}

/// The fields of an object.
pub open spec fn object_of(
    context: Seq<char>,
    document: Result<crate::json::DocumentView, Seq<char>>,
) -> Result<Seq<crate::json::FieldView>, Fault> {
    match document {
        Err(reason) => Err(about(context, "invalid JSON: "@ + reason)),
        Ok(document) => match document.fields {
            Some(fields) => Ok(fields),
            None => Err(about(context, "payload must be a JSON object"@)),
        },
    }
}

fn object_from<'a>(context: &str, document: &'a Result<JsonDocument, String>) -> (result: Result<
    &'a Vec<JsonField>,
    AdapterError,
>)
    ensures
        match object_of(context@, document_view(*document)) {
            Ok(fields) => result matches Ok(found) && field_views(found@) == fields,
            Err(fault) => result matches Err(error) && error@ == fault,
        },
{
    match document {
        Err(reason) => Err(
            AdapterError::message(
                context,
                joined(String::from_str("invalid JSON: "), reason.as_str()),
            ),
        ),
        Ok(document) => {
            match &document.fields {
                Some(fields) => {
                    assert(document@.fields->0 =~= field_views(fields@));
                    Ok(fields)
                },
                None => Err(
                    AdapterError::message(
                        context,
                        String::from_str("payload must be a JSON object"),
                    ),
                ),
            }
        },
    }
}

/// The power state in a field.
pub open spec fn power_of(context: Seq<char>, field: Option<crate::json::FieldView>) -> Result<
    Option<bool>,
    Fault,
> {
    match field {
        None => Ok(None),
        Some(field) => if field.text == Some("ON"@) {
            Ok(Some(true))
        } else if field.text == Some("OFF"@) {
            Ok(Some(false))
        } else {
            Err(about(context, "state must be ON or OFF"@))
        },
    }
}

fn power_from(context: &str, field: Option<&JsonField>) -> (result: Result<
    Option<bool>,
    AdapterError,
>)
    ensures
        tells(
            power_of(
                context@,
                match field {
                    Some(field) => Some(field@),
                    None => None,
                },
            ),
            result,
        ),
{
    match field {
        None => Ok(None),
        Some(field) => {
            if let Some(word) = &field.text {
                if text::text_equals(word.as_str(), "ON") {
                    return Ok(Some(true));
                }
                if text::text_equals(word.as_str(), "OFF") {
                    return Ok(Some(false));
                }
            }
            Err(AdapterError::message(context, String::from_str("state must be ON or OFF")))
        },
    }
}

/// The brightness in a field, on a scale of 254.
pub open spec fn brightness_of(context: Seq<char>, field: Option<crate::json::FieldView>) -> Result<
    Option<Brightness>,
    Fault,
> {
    match field {
        None => Ok(None),
        Some(field) => match field.unsigned {
            Some(raw) => if raw > 254 {
                Err(about(context, "brightness must be an integer from 0 to 254"@))
            } else {
                let value = Double::of_nat(raw as nat).quotient(
                    Double { bits: BRIGHTNESS_SCALE },
                );
                match crate::value::in_range(
                    value,
                    Double { bits: 0 },
                    Double { bits: crate::value::ONE },
                ) {
                    Ok(value) => Ok(Some(Brightness { value })),
                    Err(error) => Err(about(context, error.described())),
                }
            },
            None => Err(about(context, "brightness must be an integer from 0 to 254"@)),
        },
    }
}

fn brightness_from(context: &str, field: Option<&JsonField>) -> (result: Result<
    Option<Brightness>,
    AdapterError,
>)
    ensures
        tells(
            brightness_of(
                context@,
                match field {
                    Some(field) => Some(field@),
                    None => None,
                },
            ),
            result,
        ),
{
    match field {
        None => Ok(None),
        Some(field) => {
            if let Some(raw) = field.unsigned {
                if raw <= 254 {
                    let value = Double::from_u64(raw).over(Double::from_bits(BRIGHTNESS_SCALE));
                    return match Brightness::new(value) {
                        Ok(brightness) => Ok(Some(brightness)),
                        Err(error) => Err(AdapterError::message(context, error.message())),
                    };
                }
            }
            Err(
                AdapterError::message(
                    context,
                    String::from_str("brightness must be an integer from 0 to 254"),
                ),
            )
        },
    }
}

/// The colour temperature in a field, in mired.
pub open spec fn kelvin_of(binding: DeviceBinding, field: Option<crate::json::FieldView>) -> Result<
    Option<Kelvin>,
    Fault,
> {
    let context = binding.friendly_name@;
    match field {
        Some(field) => if binding.capabilities.color_temperature is None {
            Ok(None)
        } else {
            match field.unsigned {
                Some(raw) => if raw > u16::MAX {
                    Err(about(context, "color_temp must be a positive integer mired value"@))
                } else {
                    match binding.mired_range {
                        None => Err(
                            configuration(
                                "device "@ + binding.id.text@
                                    + " has CCT state without a mired range"@,
                            ),
                        ),
                        Some(range) => if !(range.min <= raw <= range.max) {
                            Err(about(context, "color_temp is outside configured mired range"@))
                        } else {
                            match Kelvin::checked(
                                (Double { bits: MIRED_SCALE }).quotient(
                                    Double::of_nat(raw as nat),
                                ),
                            ) {
                                Ok(kelvin) => Ok(Some(kelvin)),
                                Err(error) => Err(about(context, error.described())),
                            }
                        },
                    }
                },
                None => Err(about(context, "color_temp must be a positive integer mired value"@)),
            }
        },
        None => Ok(None),
    }
}

fn kelvin_from(binding: &DeviceBinding, field: Option<&JsonField>) -> (result: Result<
    Option<Kelvin>,
    AdapterError,
>)
    ensures
        tells(
            kelvin_of(
                *binding,
                match field {
                    Some(field) => Some(field@),
                    None => None,
                },
            ),
            result,
        ),
{
    let context = binding.friendly_name.as_str();
    let field = match field {
        Some(field) => field,
        None => return Ok(None),
    };
    if binding.capabilities.color_temperature.is_none() {
        return Ok(None);
    }
    let raw: u64 = match field.unsigned {
        Some(raw) if raw <= u16::MAX as u64 => raw,
        _ => return Err(
            AdapterError::message(
                context,
                String::from_str("color_temp must be a positive integer mired value"),
            ),
        ),
    };
    let range = match binding.mired_range {
        Some(range) => range,
        None => return Err(
            AdapterError::configuration(
                joined(
                    joined(String::from_str("device "), binding.id.text.as_str()),
                    " has CCT state without a mired range",
                ),
            ),
        ),
    };
    if !range.contains(raw) {
        return Err(
            AdapterError::message(
                context,
                String::from_str("color_temp is outside configured mired range"),
            ),
        );
    }
    match Kelvin::new(Double::from_bits(MIRED_SCALE).over(Double::from_u64(raw))) {
        Ok(kelvin) => Ok(Some(kelvin)),
        Err(error) => Err(AdapterError::message(context, error.message())),
    }
}

/// A component that has to be a finite number.
pub open spec fn finite_component(
    context: Seq<char>,
    components: Seq<(Seq<char>, Option<Double>)>,
    name: Seq<char>,
    label: Seq<char>,
) -> Result<Double, Fault> {
    match component_named(components, components.len() as int, name) {
        Some(Some(value)) => if value.finite() {
            Ok(value)
        } else {
            Err(about(context, label + " must be finite number"@))
        },
        _ => Err(about(context, label + " must be finite number"@)),
    }
}

pub open spec fn component_views(components: Seq<(String, Option<Double>)>) -> Seq<
    (Seq<char>, Option<Double>),
> {
    Seq::new(components.len(), |i: int| (components[i].0@, components[i].1))
}

fn finite_number(
    context: &str,
    components: &Vec<(String, Option<Double>)>,
    name: &str,
    label: &str,
) -> (result: Result<Double, AdapterError>)
    ensures
        tells(
            finite_component(context@, component_views(components@), name@, label@),
            result,
        ),
{
    let found = find_component(components, name);
    proof {
        assert(component_views(components@) =~= Seq::new(
            components@.len(),
            |i: int| (components@[i].0@, components@[i].1),
        ));
    }
    if let Some(Some(value)) = found {
        if value.is_finite() {
            return Ok(value);
        }
    }
    Err(
        AdapterError::message(
            context,
            joined(String::from_str(label), " must be finite number"),
        ),
    )
}

/// The colour that components describe.
pub open spec fn color_of_components(
    context: Seq<char>,
    components: Seq<(Seq<char>, Option<Double>)>,
) -> Result<Color, Fault> {
    let n = components.len() as int;
    if component_named(components, n, "x"@) is Some || component_named(
        components,
        n,
        "y"@,
    ) is Some {
        match (
            finite_component(context, components, "x"@, "color.x"@),
            finite_component(context, components, "y"@, "color.y"@),
        ) {
            (Err(fault), _) => Err(fault),
            (_, Err(fault)) => Err(fault),
            (Ok(x), Ok(y)) => match Color::accepted(
                crate::value::in_range(
                    x,
                    Double { bits: 0 },
                    Double { bits: crate::value::ONE },
                ),
                crate::value::in_range(
                    y,
                    Double { bits: 0 },
                    Double { bits: crate::value::ONE },
                ),
                Color::Xy { x, y },
            ) {
                Ok(color) => Ok(color),
                Err(error) => Err(about(context, error.described())),
            },
        }
    } else if component_named(components, n, "hue"@) is Some || component_named(
        components,
        n,
        "saturation"@,
    ) is Some {
        match (
            finite_component(context, components, "hue"@, "color.hue"@),
            finite_component(context, components, "saturation"@, "color.saturation"@),
        ) {
            (Err(fault), _) => Err(fault),
            (_, Err(fault)) => Err(fault),
            (Ok(hue), Ok(percent)) => {
                let saturation = percent.quotient(Double { bits: PERCENT });
                match Color::accepted(
                    crate::value::in_range(
                        hue,
                        Double { bits: 0 },
                        Double { bits: crate::value::FULL_TURN },
                    ),
                    crate::value::in_range(
                        saturation,
                        Double { bits: 0 },
                        Double { bits: crate::value::ONE },
                    ),
                    Color::Hs { hue, saturation },
                ) {
                    Ok(color) => Ok(color),
                    Err(error) => Err(about(context, error.described())),
                }
            },
        }
    } else {
        Err(about(context, "color needs x/y or hue/saturation"@))
    }
}

/// The colour in a field.
pub open spec fn color_of(context: Seq<char>, field: Option<crate::json::FieldView>) -> Result<
    Option<Color>,
    Fault,
> {
    match field {
        None => Ok(None),
        Some(field) => match field.components {
            None => Err(about(context, "color must be an object"@)),
            Some(components) => match color_of_components(context, components) {
                Ok(color) => Ok(Some(color)),
                Err(fault) => Err(fault),
            },
        },
    }
}

fn parse_color(context: &str, components: &Vec<(String, Option<Double>)>) -> (result: Result<
    Color,
    AdapterError,
>)
    ensures
        tells(color_of_components(context@, component_views(components@)), result),
{
    proof {
        assert(component_views(components@) =~= Seq::new(
            components@.len(),
            |i: int| (components@[i].0@, components@[i].1),
        ));
    }
    if find_component(components, "x").is_some() || find_component(components, "y").is_some() {
        let x = match finite_number(context, components, "x", "color.x") {
            Ok(x) => x,
            Err(error) => return Err(error),
        };
        let y = match finite_number(context, components, "y", "color.y") {
            Ok(y) => y,
            Err(error) => return Err(error),
        };
        match Color::xy(x, y) {
            Ok(color) => Ok(color),
            Err(error) => Err(AdapterError::message(context, error.message())),
        }
    } else if find_component(components, "hue").is_some() || find_component(
        components,
        "saturation",
    ).is_some() {
        let hue = match finite_number(context, components, "hue", "color.hue") {
            Ok(hue) => hue,
            Err(error) => return Err(error),
        };
        let percent = match finite_number(
            context,
            components,
            "saturation",
            "color.saturation",
        ) {
            Ok(percent) => percent,
            Err(error) => return Err(error),
        };
        match Color::hs(hue, percent.over(Double::from_bits(PERCENT))) {
            Ok(color) => Ok(color),
            Err(error) => Err(AdapterError::message(context, error.message())),
        }
    } else {
        Err(
            AdapterError::message(
                context,
                String::from_str("color needs x/y or hue/saturation"),
            ),
        )
    }
}

fn color_from(context: &str, field: Option<&JsonField>) -> (result: Result<
    Option<Color>,
    AdapterError,
>)
    ensures
        tells(
            color_of(
                context@,
                match field {
                    Some(field) => Some(field@),
                    None => None,
                },
            ),
            result,
        ),
{
    match field {
        None => Ok(None),
        Some(field) => {
            match &field.components {
                None => Err(
                    AdapterError::message(context, String::from_str("color must be an object")),
                ),
                Some(components) => {
                    assert(field@.components->0 =~= component_views(components@));
                    match parse_color(context, components) {
                        Ok(color) => Ok(Some(color)),
                        Err(error) => Err(error),
                    }
                },
            }
        },
    }
}

/// The transition in a field, given in seconds.
pub open spec fn transition_of(context: Seq<char>, field: Option<crate::json::FieldView>) -> Result<
    Option<u64>,
    Fault,
> {
    match field {
        None => Ok(None),
        Some(field) => match field.number {
            Some(seconds) => if !seconds.finite() || !(Double { bits: 0 }).at_most(seconds) {
                Err(about(context, "transition must be nonnegative seconds"@))
            } else {
                let milliseconds = seconds.product(Double { bits: MILLISECONDS });
                if (Double { bits: MILLISECOND_LIMIT }).less(milliseconds) {
                    Err(about(context, "transition is too large"@))
                } else {
                    Ok(Some(milliseconds.rounded()))
                }
            },
            None => Err(about(context, "transition must be nonnegative seconds"@)),
        },
    }
}

fn transition_from(context: &str, field: Option<&JsonField>) -> (result: Result<
    Option<u64>,
    AdapterError,
>)
    ensures
        tells(
            transition_of(
                context@,
                match field {
                    Some(field) => Some(field@),
                    None => None,
                },
            ),
            result,
        ),
{
    let field = match field {
        Some(field) => field,
        None => return Ok(None),
    };
    if let Some(seconds) = field.number {
        if seconds.is_finite() && Double::from_bits(0).le(seconds) {
            let milliseconds = seconds.times(Double::from_bits(MILLISECONDS));
            if Double::from_bits(MILLISECOND_LIMIT).lt(milliseconds) {
                return Err(
                    AdapterError::message(context, String::from_str("transition is too large")),
                );
            }
            return Ok(Some(milliseconds.round_to_u64()));
        }
    }
    Err(
        AdapterError::message(
            context,
            String::from_str("transition must be nonnegative seconds"),
        ),
    )
}

/// Of a colour temperature and a colour that are both reported, the one that
/// is shown; neither if the mode does not tell.
pub open spec fn shown(
    color_temperature: Option<Kelvin>,
    color: Option<Color>,
    mode: Option<Seq<char>>,
) -> (Option<Kelvin>, Option<Color>) {
    if color_temperature is Some && color is Some {
        if mode == Some("color_temp"@) {
            (color_temperature, None)
        } else if mode == Some("xy"@) || mode == Some("hs"@) {
            (None, color)
        } else {
            (None, None)
        }
    } else {
        (color_temperature, color)
    }
}

/// The state that a device reports.
pub open spec fn state_of(
    binding: DeviceBinding,
    document: Result<crate::json::DocumentView, Seq<char>>,
) -> Result<DeviceTarget, Fault> {
    let context = binding.friendly_name@;
    match object_of(context, document) {
        Err(fault) => Err(fault),
        Ok(fields) => {
            let n = fields.len() as int;
            match (
                power_of(context, field_named(fields, n, "state"@)),
                brightness_of(context, field_named(fields, n, "brightness"@)),
                kelvin_of(binding, field_named(fields, n, "color_temp"@)),
                color_of(context, field_named(fields, n, "color"@)),
                transition_of(context, field_named(fields, n, "transition"@)),
            ) {
                (Err(fault), _, _, _, _) => Err(fault),
                (_, Err(fault), _, _, _) => Err(fault),
                (_, _, Err(fault), _, _) => Err(fault),
                (_, _, _, Err(fault), _) => Err(fault),
                (_, _, _, _, Err(fault)) => Err(fault),
                (Ok(on), Ok(brightness), Ok(kelvin), Ok(color), Ok(transition_ms)) => {
                    let mode = match field_named(fields, n, "color_mode"@) {
                        Some(field) => field.text,
                        None => None,
                    };
                    let visible = shown(kelvin, color, mode);
                    Ok(
                        DeviceTarget {
                            on,
                            brightness,
                            color_temperature: visible.0,
                            color: visible.1,
                            transition_ms,
                        },
                    )
                },
            }
        },
    }
}

/// The state of a device whose message was read as `document`.
pub fn state_from(binding: &DeviceBinding, document: &Result<JsonDocument, String>) -> (result:
    Result<DeviceTarget, AdapterError>)
    ensures
        tells(state_of(*binding, document_view(*document)), result),
{
    let context = binding.friendly_name.as_str();
    let fields = match object_from(context, document) {
        Ok(fields) => fields,
        Err(error) => return Err(error),
    };
    let on = match power_from(context, find_field(fields, "state")) {
        Ok(on) => on,
        Err(error) => return Err(error),
    };
    let brightness = match brightness_from(context, find_field(fields, "brightness")) {
        Ok(brightness) => brightness,
        Err(error) => return Err(error),
    };
    let kelvin = match kelvin_from(binding, find_field(fields, "color_temp")) {
        Ok(kelvin) => kelvin,
        Err(error) => return Err(error),
    };
    let color = match color_from(context, find_field(fields, "color")) {
        Ok(color) => color,
        Err(error) => return Err(error),
    };
    let transition_ms = match transition_from(context, find_field(fields, "transition")) {
        Ok(transition_ms) => transition_ms,
        Err(error) => return Err(error),
    };
    let (color_temperature, color) = if kelvin.is_some() && color.is_some() {
        let mut by_temperature = false;
        let mut by_color = false;
        if let Some(field) = find_field(fields, "color_mode") {
            if let Some(mode) = &field.text {
                by_temperature = text::text_equals(mode.as_str(), "color_temp");
                by_color = text::text_equals(mode.as_str(), "xy") || text::text_equals(
                    mode.as_str(),
                    "hs",
                );
            }
        }
        if by_temperature {
            (kelvin, None)
        } else if by_color {
            (None, color)
        } else {
            (None, None)
        }
    } else {
        (kelvin, color)
    };
    Ok(DeviceTarget { on, brightness, color_temperature, color, transition_ms })
}

/// What a remote means by one of the actions it reports.
pub open spec fn meaning(action: Seq<char>) -> Option<RawInputEvent> {
    if action == "toggle"@ {
        Some(RawInputEvent::AmbiguousCenterPrefix)
    } else if action == "toggle_hold"@ {
        Some(RawInputEvent::CenterLong)
    } else if action == "brightness_up_click"@ {
        Some(RawInputEvent::Up)
    } else if action == "brightness_up_hold"@ {
        Some(RawInputEvent::DirectionHold(Direction::Up))
    } else if action == "brightness_up_release"@ {
        Some(RawInputEvent::DirectionRelease(Direction::Up))
    } else if action == "brightness_down_click"@ {
        Some(RawInputEvent::Down)
    } else if action == "brightness_down_hold"@ {
        Some(RawInputEvent::DirectionHold(Direction::Down))
    } else if action == "brightness_down_release"@ {
        Some(RawInputEvent::DirectionRelease(Direction::Down))
    } else if action == "arrow_left_click"@ {
        Some(RawInputEvent::Left)
    } else if action == "arrow_left_hold"@ {
        Some(RawInputEvent::DirectionHold(Direction::Left))
    } else if action == "arrow_left_release"@ {
        Some(RawInputEvent::DirectionRelease(Direction::Left))
    } else if action == "arrow_right_click"@ {
        Some(RawInputEvent::Right)
    } else if action == "arrow_right_hold"@ {
        Some(RawInputEvent::DirectionHold(Direction::Right))
    } else if action == "arrow_right_release"@ {
        Some(RawInputEvent::DirectionRelease(Direction::Right))
    } else {
        None
    }
}

/// What a remote means by one of the actions it reports.
pub fn remote_event(action: &str) -> (event: Option<RawInputEvent>)
    ensures
        event == meaning(action@),
{
    if text::text_equals(action, "toggle") {
        Some(RawInputEvent::AmbiguousCenterPrefix)
    } else if text::text_equals(action, "toggle_hold") {
        Some(RawInputEvent::CenterLong)
    } else if text::text_equals(action, "brightness_up_click") {
        Some(RawInputEvent::Up)
    } else if text::text_equals(action, "brightness_up_hold") {
        Some(RawInputEvent::DirectionHold(Direction::Up))
    } else if text::text_equals(action, "brightness_up_release") {
        Some(RawInputEvent::DirectionRelease(Direction::Up))
    } else if text::text_equals(action, "brightness_down_click") {
        Some(RawInputEvent::Down)
    } else if text::text_equals(action, "brightness_down_hold") {
        Some(RawInputEvent::DirectionHold(Direction::Down))
    } else if text::text_equals(action, "brightness_down_release") {
        Some(RawInputEvent::DirectionRelease(Direction::Down))
    } else if text::text_equals(action, "arrow_left_click") {
        Some(RawInputEvent::Left)
    } else if text::text_equals(action, "arrow_left_hold") {
        Some(RawInputEvent::DirectionHold(Direction::Left))
    } else if text::text_equals(action, "arrow_left_release") {
        Some(RawInputEvent::DirectionRelease(Direction::Left))
    } else if text::text_equals(action, "arrow_right_click") {
        Some(RawInputEvent::Right)
    } else if text::text_equals(action, "arrow_right_hold") {
        Some(RawInputEvent::DirectionHold(Direction::Right))
    } else if text::text_equals(action, "arrow_right_release") {
        Some(RawInputEvent::DirectionRelease(Direction::Right))
    } else {
        None
    }
}

/// The last character boundary at or before `n`.
pub open spec fn boundary(bytes: Seq<u8>, n: int) -> int
    decreases n,
{
    if n <= 0 {
        0
    } else if vstd::utf8::is_char_boundary(bytes, n) {
        n
    } else {
        boundary(bytes, n - 1)
    }
}

/// The bytes of as many leading characters as fit into `limit` bytes.
pub open spec fn truncated(text: Seq<char>, limit: int) -> Seq<u8> {
    let bytes = text::bytes_of(text);
    if bytes.len() <= limit {
        bytes
    } else {
        bytes.take(boundary(bytes, limit))
    }
}

/// Cuts a text to at most `limit` bytes, between characters.
pub fn truncate_utf8(value: &str, limit: usize) -> (result: String)
    ensures
        text::bytes_of(result@) == truncated(value@, limit as int),
        text::bytes_of(result@).len() <= limit,
{
    let length: usize = value.as_bytes().len();
    if length <= limit {
        return value.to_owned();
    }
    let ghost bytes = text::bytes_of(value@);
    let mut end: usize = limit;
    proof {
        vstd::utf8::encode_utf8_valid_utf8(value@);
        vstd::utf8::is_char_boundary_start_end_of_seq(bytes);
    }
    while !value.is_char_boundary(end)
        invariant
            end <= limit < length,
            length == bytes.len(),
            bytes == text::bytes_of(value@),
            vstd::utf8::is_char_boundary(bytes, 0),
            boundary(bytes, end as int) == boundary(bytes, limit as int),
        decreases end,
    {
        end = end - 1;
    }
    let (head, _) = value.split_at(end);
    assert(head.spec_bytes() =~= bytes.take(end as int));
    head.to_owned()
}

/// What a control reports, if anything.
pub open spec fn input_of(
    binding: ControlBinding,
    document: Result<crate::json::DocumentView, Seq<char>>,
) -> Result<Option<Heard>, Fault> {
    let context = binding.friendly_name@;
    match object_of(context, document) {
        Err(fault) => Err(fault),
        Ok(fields) => match field_named(fields, fields.len() as int, "action"@) {
            None => Ok(None),
            Some(field) => match field.text {
                None => Err(about(context, "action must be a string"@)),
                Some(action) => match meaning(action) {
                    Some(event) => Ok(Some(Heard::Input { control: binding.id, event })),
                    None => Ok(
                        Some(
                            Heard::UnknownInputAction {
                                control: binding.id,
                                action: truncated(action, MAX_UNKNOWN_ACTION_LENGTH as int),
                            },
                        ),
                    ),
                },
            },
        },
    }
}

/// `result` says what `expected` does.
pub open spec fn says(
    expected: Result<Option<Heard>, Fault>,
    result: Result<Option<InboundEvent>, AdapterError>,
) -> bool {
    match expected {
        Ok(None) => result matches Ok(None),
        Ok(Some(heard)) => result matches Ok(Some(event)) && event@ == heard,
        Err(fault) => result matches Err(error) && error@ == fault,
    }
}

/// What a control whose message was read as `document` reports.
pub fn input_from(binding: &ControlBinding, document: &Result<JsonDocument, String>) -> (result:
    Result<Option<InboundEvent>, AdapterError>)
    ensures
        says(input_of(*binding, document_view(*document)), result),
{
    let context = binding.friendly_name.as_str();
    let fields = match object_from(context, document) {
        Ok(fields) => fields,
        Err(error) => return Err(error),
    };
    let field = match find_field(fields, "action") {
        Some(field) => field,
        None => return Ok(None),
    };
    match &field.text {
        None => Err(AdapterError::message(context, String::from_str("action must be a string"))),
        Some(action) => {
            match remote_event(action.as_str()) {
                Some(event) => Ok(
                    Some(InboundEvent::Input { control: binding.id.clone(), event }),
                ),
                None => {
                    let action = truncate_utf8(action.as_str(), MAX_UNKNOWN_ACTION_LENGTH);
                    let control = binding.id.clone();
                    Ok(Some(InboundEvent::UnknownInputAction { control, action }))
                },
            }
        },
    }
}

pub open spec fn under(base: Seq<char>, name: Seq<char>) -> Seq<char> {
    base + "/"@ + name
}

pub open spec fn bridge_topic(base: Seq<char>) -> Seq<char> {
    base + "/bridge/state"@
}

pub open spec fn availability_topic(base: Seq<char>, name: Seq<char>) -> Seq<char> {
    under(base, name) + "/availability"@
}

fn topic_under(base: &String, name: &str) -> (topic: String)
    ensures
        topic@ == under(base@, name@),
{
    joined(joined(base.clone(), "/"), name)
}

/// One of the first `d` devices or `c` controls, or the bridge, reports on
/// `topic`.
pub open spec fn topic_used(
    base: Seq<char>,
    devices: Seq<DeviceBinding>,
    d: int,
    controls: Seq<ControlBinding>,
    c: int,
    topic: Seq<char>,
) -> bool {
    ||| topic == bridge_topic(base)
    ||| exists|k: int|
        0 <= k < d && (topic == under(base, (#[trigger] devices[k]).friendly_name@) || topic
            == availability_topic(base, devices[k].friendly_name@))
    ||| exists|k: int| 0 <= k < c && topic == under(base, (#[trigger] controls[k]).friendly_name@)
}

fn is_topic_used(
    base: &String,
    devices: &Vec<DeviceBinding>,
    d: usize,
    controls: &Vec<ControlBinding>,
    c: usize,
    topic: &str,
) -> (result: bool)
    requires
        d <= devices@.len(),
        c <= controls@.len(),
    ensures
        result == topic_used(base@, devices@, d as int, controls@, c as int, topic@),
{
    if text::text_equals(topic, joined(base.clone(), "/bridge/state").as_str()) {
        return true;
    }
    let mut i: usize = 0;
    while i < d
        invariant
            i <= d <= devices@.len(),
            forall|k: int|
                0 <= k < i ==> !(topic@ == under(base@, (#[trigger] devices@[k]).friendly_name@)
                    || topic@ == availability_topic(base@, devices@[k].friendly_name@)),
        decreases d - i,
    {
        let state = topic_under(base, devices[i].friendly_name.as_str());
        if text::text_equals(topic, state.as_str()) || text::text_equals(
            topic,
            joined(state.clone(), "/availability").as_str(),
        ) {
            assert(devices@[i as int] == devices@[i as int]);
            return true;
        }
        i = i + 1;
    }
    let mut j: usize = 0;
    while j < c
        invariant
            j <= c <= controls@.len(),
            forall|k: int|
                0 <= k < j ==> topic@ != under(base@, (#[trigger] controls@[k]).friendly_name@),
        decreases c - j,
    {
        let state = topic_under(base, controls[j].friendly_name.as_str());
        if text::text_equals(topic, state.as_str()) {
            assert(topic@ == under(base@, controls@[j as int].friendly_name@));
            return true;
        }
        j = j + 1;
    }
    false
}

/// One of the first `d` devices, `c` controls or `g` groups is called `name`.
pub open spec fn name_used(
    devices: Seq<DeviceBinding>,
    d: int,
    controls: Seq<ControlBinding>,
    c: int,
    groups: Seq<GroupBinding>,
    g: int,
    name: Seq<char>,
) -> bool {
    ||| exists|k: int| 0 <= k < d && (#[trigger] devices[k]).friendly_name@ == name
    ||| exists|k: int| 0 <= k < c && (#[trigger] controls[k]).friendly_name@ == name
    ||| exists|k: int| 0 <= k < g && (#[trigger] groups[k]).friendly_name@ == name
}

fn is_name_used(
    devices: &Vec<DeviceBinding>,
    d: usize,
    controls: &Vec<ControlBinding>,
    c: usize,
    groups: &Vec<GroupBinding>,
    g: usize,
    name: &str,
) -> (result: bool)
    requires
        d <= devices@.len(),
        c <= controls@.len(),
        g <= groups@.len(),
    ensures
        result == name_used(
            devices@,
            d as int,
            controls@,
            c as int,
            groups@,
            g as int,
            name@,
        ),
{
    let mut i: usize = 0;
    while i < d
        invariant
            i <= d <= devices@.len(),
            forall|k: int| 0 <= k < i ==> (#[trigger] devices@[k]).friendly_name@ != name@,
        decreases d - i,
    {
        if text::text_equals(devices[i].friendly_name.as_str(), name) {
            assert(devices@[i as int].friendly_name@ == name@);
            return true;
        }
        i = i + 1;
    }
    let mut j: usize = 0;
    while j < c
        invariant
            j <= c <= controls@.len(),
            forall|k: int| 0 <= k < j ==> (#[trigger] controls@[k]).friendly_name@ != name@,
        decreases c - j,
    {
        if text::text_equals(controls[j].friendly_name.as_str(), name) {
            assert(controls@[j as int].friendly_name@ == name@);
            return true;
        }
        j = j + 1;
    }
    let mut l: usize = 0;
    while l < g
        invariant
            l <= g <= groups@.len(),
            forall|k: int| 0 <= k < l ==> (#[trigger] groups@[k]).friendly_name@ != name@,
        decreases g - l,
    {
        if text::text_equals(groups[l].friendly_name.as_str(), name) {
            assert(groups@[l as int].friendly_name@ == name@);
            return true;
        }
        l = l + 1;
    }
    false
}

/// One of the first `n` bindings is that of device `id`.
pub open spec fn device_bound(devices: Seq<DeviceBinding>, n: int, id: DeviceId) -> bool {
    exists|k: int| 0 <= k < n && (#[trigger] devices[k]).id.text@ == id.text@
}

pub open spec fn group_bound(groups: Seq<GroupBinding>, n: int, id: EntityId) -> bool {
    exists|k: int| 0 <= k < n && (#[trigger] groups[k]).id.text@ == id.text@
}

/// Device `k` cannot be told from those before it.
pub open spec fn device_conflict(base: Seq<char>, devices: Seq<DeviceBinding>, k: int) -> bool {
    let name = devices[k].friendly_name@;
    ||| name_used(devices, k, seq![], 0, seq![], 0, name)
    ||| topic_used(base, devices, k, seq![], 0, under(base, name))
    ||| topic_used(base, devices, k, seq![], 0, availability_topic(base, name))
    ||| device_bound(devices, k, devices[k].id)
}

/// Control `k` cannot be told from the devices and the controls before it.
pub open spec fn control_conflict(
    base: Seq<char>,
    devices: Seq<DeviceBinding>,
    controls: Seq<ControlBinding>,
    k: int,
) -> bool {
    let name = controls[k].friendly_name@;
    ||| name_used(devices, devices.len() as int, controls, k, seq![], 0, name)
    ||| topic_used(base, devices, devices.len() as int, controls, k, under(base, name))
}

/// Group `k` cannot be told from everything before it.
pub open spec fn group_conflict(
    base: Seq<char>,
    devices: Seq<DeviceBinding>,
    controls: Seq<ControlBinding>,
    groups: Seq<GroupBinding>,
    k: int,
) -> bool {
    let name = groups[k].friendly_name@;
    ||| name_used(
        devices,
        devices.len() as int,
        controls,
        controls.len() as int,
        groups,
        k,
        name,
    )
    ||| topic_used(
        base,
        devices,
        devices.len() as int,
        controls,
        controls.len() as int,
        under(base, name),
    )
    ||| group_bound(groups, k, groups[k].id)
}

/// The devices, groups and controls behind a Zigbee2MQTT base topic.
#[derive(Debug, PartialEq)]
pub struct Zigbee2MqttAdapter {
    pub base_topic: String,
    pub devices: Vec<DeviceBinding>,
    pub groups: Vec<GroupBinding>,
    pub controls: Vec<ControlBinding>,
}

impl Zigbee2MqttAdapter {
    /// All names, topics and identifiers differ.
    pub open spec fn wf(self) -> bool {
        &&& base(self.base_topic@)
        &&& forall|k: int| #![trigger self.devices@[k]]
            0 <= k < self.devices@.len() ==> !device_conflict(
                self.base_topic@,
                self.devices@,
                k,
            )
        &&& forall|k: int| #![trigger self.controls@[k]]
            0 <= k < self.controls@.len() ==> !control_conflict(
                self.base_topic@,
                self.devices@,
                self.controls@,
                k,
            )
        &&& forall|k: int| #![trigger self.groups@[k]]
            0 <= k < self.groups@.len() ==> !group_conflict(
                self.base_topic@,
                self.devices@,
                self.controls@,
                self.groups@,
                k,
            )
    }

    pub fn new(
        base_topic: String,
        devices: Vec<DeviceBinding>,
        groups: Vec<GroupBinding>,
        controls: Vec<ControlBinding>,
    ) -> (result: Result<Self, AdapterError>)
        ensures
            result matches Err(error) ==> error.permanent,
            match result {
                Ok(adapter) => {
                    &&& adapter == (Zigbee2MqttAdapter { base_topic, devices, groups, controls })
                    &&& adapter.wf()
                },
                Err(error) => if !base(base_topic@) {
                    error@ == configuration("invalid Zigbee2MQTT base topic"@)
                } else if exists|k: int|
                    0 <= k < devices@.len() && #[trigger] device_conflict(
                        base_topic@,
                        devices@,
                        k,
                    ) {
                    error@ == configuration("duplicate or reserved Zigbee2MQTT device binding"@)
                } else if exists|k: int|
                    0 <= k < controls@.len() && #[trigger] control_conflict(
                        base_topic@,
                        devices@,
                        controls@,
                        k,
                    ) {
                    error@ == configuration("duplicate or reserved Zigbee2MQTT control binding"@)
                } else {
                    &&& error@ == configuration(
                        "duplicate or reserved Zigbee2MQTT group binding"@,
                    )
                    &&& exists|k: int|
                        0 <= k < groups@.len() && #[trigger] group_conflict(
                            base_topic@,
                            devices@,
                            controls@,
                            groups@,
                            k,
                        )
                },
            },
    {
        if !validate_base_topic(base_topic.as_str()) {
            return Err(
                AdapterError::configuration(String::from_str("invalid Zigbee2MQTT base topic")),
            );
        }
        let no_controls: Vec<ControlBinding> = Vec::new();
        let no_groups: Vec<GroupBinding> = Vec::new();
        assert(no_controls@ =~= seq![]);
        assert(no_groups@ =~= seq![]);
        let mut i: usize = 0;
        while i < devices.len()
            invariant
                i <= devices@.len(),
                no_controls@ == Seq::<ControlBinding>::empty(),
                no_groups@ == Seq::<GroupBinding>::empty(),
                base(base_topic@),
                forall|k: int| #![trigger devices@[k]]
                    0 <= k < i ==> !device_conflict(base_topic@, devices@, k),
            decreases devices@.len() - i,
        {
            let name = devices[i].friendly_name.as_str();
            let state = topic_under(&base_topic, name);
            let availability = joined(state.clone(), "/availability");
            if is_name_used(&devices, i, &no_controls, 0, &no_groups, 0, name) || is_topic_used(
                &base_topic,
                &devices,
                i,
                &no_controls,
                0,
                state.as_str(),
            ) || is_topic_used(
                &base_topic,
                &devices,
                i,
                &no_controls,
                0,
                availability.as_str(),
            ) || find_device(&devices, i, &devices[i].id).is_some() {
                assert(device_conflict(base_topic@, devices@, i as int));
                return Err(
                    AdapterError::configuration(
                        String::from_str("duplicate or reserved Zigbee2MQTT device binding"),
                    ),
                );
            }
            assert(!device_conflict(base_topic@, devices@, i as int));
            i = i + 1;
        }
        let mut j: usize = 0;
        while j < controls.len()
            invariant
                j <= controls@.len(),
                no_groups@ == Seq::<GroupBinding>::empty(),
                base(base_topic@),
                forall|k: int| #![trigger devices@[k]]
                    0 <= k < devices@.len() ==> !device_conflict(base_topic@, devices@, k),
                forall|k: int| #![trigger controls@[k]]
                    0 <= k < j ==> !control_conflict(base_topic@, devices@, controls@, k),
            decreases controls@.len() - j,
        {
            let name = controls[j].friendly_name.as_str();
            let state = topic_under(&base_topic, name);
            if is_name_used(&devices, devices.len(), &controls, j, &no_groups, 0, name)
                || is_topic_used(
                &base_topic,
                &devices,
                devices.len(),
                &controls,
                j,
                state.as_str(),
            ) {
                proof {
                    assert(control_conflict(base_topic@, devices@, controls@, j as int));
                    assert forall|k: int| 0 <= k < devices@.len() implies !#[trigger] device_conflict(
                        base_topic@,
                        devices@,
                        k,
                    ) by {
                        assert(devices@[k] == devices@[k]);
                    }
                }
                return Err(
                    AdapterError::configuration(
                        String::from_str("duplicate or reserved Zigbee2MQTT control binding"),
                    ),
                );
            }
            assert(!control_conflict(base_topic@, devices@, controls@, j as int));
            j = j + 1;
        }
        let mut l: usize = 0;
        while l < groups.len()
            invariant
                l <= groups@.len(),
                base(base_topic@),
                forall|k: int| #![trigger devices@[k]]
                    0 <= k < devices@.len() ==> !device_conflict(base_topic@, devices@, k),
                forall|k: int| #![trigger controls@[k]]
                    0 <= k < controls@.len() ==> !control_conflict(
                        base_topic@,
                        devices@,
                        controls@,
                        k,
                    ),
                forall|k: int| #![trigger groups@[k]]
                    0 <= k < l ==> !group_conflict(
                        base_topic@,
                        devices@,
                        controls@,
                        groups@,
                        k,
                    ),
            decreases groups@.len() - l,
        {
            let name = groups[l].friendly_name.as_str();
            let state = topic_under(&base_topic, name);
            if is_name_used(
                &devices,
                devices.len(),
                &controls,
                controls.len(),
                &groups,
                l,
                name,
            ) || is_topic_used(
                &base_topic,
                &devices,
                devices.len(),
                &controls,
                controls.len(),
                state.as_str(),
            ) || find_group(&groups, l, &groups[l].id).is_some() {
                proof {
                    assert(group_conflict(
                        base_topic@,
                        devices@,
                        controls@,
                        groups@,
                        l as int,
                    ));
                    assert forall|k: int| 0 <= k < devices@.len() implies !#[trigger] device_conflict(
                        base_topic@,
                        devices@,
                        k,
                    ) by {
                        assert(devices@[k] == devices@[k]);
                    }
                    assert forall|k: int| 0 <= k < controls@.len() implies !#[trigger] control_conflict(
                        base_topic@,
                        devices@,
                        controls@,
                        k,
                    ) by {
                        assert(controls@[k] == controls@[k]);
                    }
                }
                return Err(
                    AdapterError::configuration(
                        String::from_str("duplicate or reserved Zigbee2MQTT group binding"),
                    ),
                );
            }
            assert(!group_conflict(base_topic@, devices@, controls@, groups@, l as int));
            l = l + 1;
        }
        Ok(Zigbee2MqttAdapter { base_topic, devices, groups, controls })
    }
}

/// Position of the binding of `id` among the first `n`, or `n`.
pub open spec fn device_place(devices: Seq<DeviceBinding>, n: int, id: DeviceId) -> int
    decreases n,
{
    if n <= 0 {
        0
    } else if device_place(devices, n - 1, id) < n - 1 {
        device_place(devices, n - 1, id)
    } else if devices[n - 1].id.text@ == id.text@ {
        n - 1
    } else {
        n
    }
}

proof fn lemma_device_place(devices: Seq<DeviceBinding>, k: int, n: int, id: DeviceId)
    requires
        0 <= k < n,
        devices[k].id.text@ == id.text@,
        device_place(devices, k, id) == k,
    ensures
        device_place(devices, n, id) == k,
    decreases n - k,
{
    if n > k + 1 {
        lemma_device_place(devices, k, n - 1, id);
    }
}

fn find_device(devices: &Vec<DeviceBinding>, n: usize, id: &DeviceId) -> (position: Option<usize>)
    requires
        n <= devices@.len(),
    ensures
        position is Some == device_bound(devices@, n as int, *id),
        match position {
            Some(k) => k < n && device_place(devices@, n as int, *id) == k && devices@[k as int].id.text@
                == id.text@,
            None => device_place(devices@, n as int, *id) == n,
        },
{
    let mut k: usize = 0;
    while k < n
        invariant
            k <= n <= devices@.len(),
            device_place(devices@, k as int, *id) == k,
            forall|j: int| 0 <= j < k ==> (#[trigger] devices@[j]).id.text@ != id.text@,
        decreases n - k,
    {
        if text::text_equals(devices[k].id.text.as_str(), id.text.as_str()) {
            proof {
                lemma_device_place(devices@, k as int, n as int, *id);
                assert(devices@[k as int].id.text@ == id.text@);
            }
            return Some(k);
        }
        k = k + 1;
    }
    None
}

/// Position of the binding of `id` among the first `n`, or `n`.
pub open spec fn group_place(groups: Seq<GroupBinding>, n: int, id: EntityId) -> int
    decreases n,
{
    if n <= 0 {
        0
    } else if group_place(groups, n - 1, id) < n - 1 {
        group_place(groups, n - 1, id)
    } else if groups[n - 1].id.text@ == id.text@ {
        n - 1
    } else {
        n
    }
}

proof fn lemma_group_place(groups: Seq<GroupBinding>, k: int, n: int, id: EntityId)
    requires
        0 <= k < n,
        groups[k].id.text@ == id.text@,
        group_place(groups, k, id) == k,
    ensures
        group_place(groups, n, id) == k,
    decreases n - k,
{
    if n > k + 1 {
        lemma_group_place(groups, k, n - 1, id);
    }
}

fn find_group(groups: &Vec<GroupBinding>, n: usize, id: &EntityId) -> (position: Option<usize>)
    requires
        n <= groups@.len(),
    ensures
        position is Some == group_bound(groups@, n as int, *id),
        match position {
            Some(k) => k < n && group_place(groups@, n as int, *id) == k && groups@[k as int].id.text@
                == id.text@,
            None => group_place(groups@, n as int, *id) == n,
        },
{
    let mut k: usize = 0;
    while k < n
        invariant
            k <= n <= groups@.len(),
            group_place(groups@, k as int, *id) == k,
            forall|j: int| 0 <= j < k ==> (#[trigger] groups@[j]).id.text@ != id.text@,
        decreases n - k,
    {
        if text::text_equals(groups[k].id.text.as_str(), id.text.as_str()) {
            proof {
                lemma_group_place(groups@, k as int, n as int, *id);
                assert(groups@[k as int].id.text@ == id.text@);
            }
            return Some(k);
        }
        k = k + 1;
    }
    None
}

/// The first place of `item` among the first `n` of `list`, or `n`.
pub open spec fn first_of(list: Seq<Seq<char>>, n: int, item: Seq<char>) -> int
    decreases n,
{
    if n <= 0 {
        0
    } else if first_of(list, n - 1, item) < n - 1 {
        first_of(list, n - 1, item)
    } else if list[n - 1] == item {
        n - 1
    } else {
        n
    }
}

proof fn lemma_first_of_range(list: Seq<Seq<char>>, n: int, item: Seq<char>)
    requires
        0 <= n,
    ensures
        0 <= first_of(list, n, item) <= n,
    decreases n,
{
    if n > 0 {
        lemma_first_of_range(list, n - 1, item);
    }
}

proof fn lemma_first_of(list: Seq<Seq<char>>, k: int, n: int, item: Seq<char>)
    requires
        0 <= k < n,
        list[k] == item,
        first_of(list, k, item) == k,
    ensures
        first_of(list, n, item) == k,
    decreases n - k,
{
    if n > k + 1 {
        lemma_first_of(list, k, n - 1, item);
    }
}

impl Zigbee2MqttAdapter {
    pub open spec fn state_topics(self) -> Seq<Seq<char>> {
        Seq::new(
            self.devices@.len(),
            |k: int| under(self.base_topic@, self.devices@[k].friendly_name@),
        )
    }

    pub open spec fn availability_topics(self) -> Seq<Seq<char>> {
        Seq::new(
            self.devices@.len(),
            |k: int| availability_topic(self.base_topic@, self.devices@[k].friendly_name@),
        )
    }

    pub open spec fn control_topics(self) -> Seq<Seq<char>> {
        Seq::new(
            self.controls@.len(),
            |k: int| under(self.base_topic@, self.controls@[k].friendly_name@),
        )
    }

    /// What a message says. Retained actions are always stale and say nothing.
    pub open spec fn heard(self, topic: Seq<char>, payload: Seq<u8>, retain: bool) -> Result<
        Option<Heard>,
        Fault,
    > {
        let document = crate::json::json_of(payload);
        let d = self.devices@.len() as int;
        let c = self.controls@.len() as int;
        let available = first_of(self.availability_topics(), d, topic);
        let reporting = first_of(self.state_topics(), d, topic);
        let control = first_of(self.control_topics(), c, topic);
        if topic == bridge_topic(self.base_topic@) {
            match availability_of(topic, payload, document) {
                Ok(availability) => Ok(Some(Heard::BridgeAvailability(availability))),
                Err(fault) => Err(fault),
            }
        } else if available < d {
            let device = self.devices@[available];
            match availability_of(device.friendly_name@, payload, document) {
                Ok(availability) => Ok(
                    Some(Heard::DeviceAvailability { device: device.id, availability }),
                ),
                Err(fault) => Err(fault),
            }
        } else if reporting < d {
            let device = self.devices@[reporting];
            match state_of(device, document) {
                Ok(state) => Ok(Some(Heard::DeviceState { device: device.id, state })),
                Err(fault) => Err(fault),
            }
        } else if control < c {
            if retain {
                Ok(None)
            } else {
                input_of(self.controls@[control], document)
            }
        } else {
            Ok(None)
        }
    }

    fn availability_listener(&self, topic: &str) -> (position: usize)
        ensures
            position == first_of(
                self.availability_topics(),
                self.devices@.len() as int,
                topic@,
            ),
            position <= self.devices@.len(),
    {
        let ghost list = self.availability_topics();
        let mut k: usize = 0;
        while k < self.devices.len()
            invariant
                k <= self.devices@.len(),
                list == self.availability_topics(),
                first_of(list, k as int, topic@) == k,
            decreases self.devices@.len() - k,
        {
            let state = topic_under(&self.base_topic, self.devices[k].friendly_name.as_str());
            if text::text_equals(joined(state, "/availability").as_str(), topic) {
                proof {
                    lemma_first_of(list, k as int, self.devices@.len() as int, topic@);
                }
                return k;
            }
            k = k + 1;
        }
        k
    }

    fn state_listener(&self, topic: &str) -> (position: usize)
        ensures
            position == first_of(self.state_topics(), self.devices@.len() as int, topic@),
            position <= self.devices@.len(),
    {
        let ghost list = self.state_topics();
        let mut k: usize = 0;
        while k < self.devices.len()
            invariant
                k <= self.devices@.len(),
                list == self.state_topics(),
                first_of(list, k as int, topic@) == k,
            decreases self.devices@.len() - k,
        {
            let state = topic_under(&self.base_topic, self.devices[k].friendly_name.as_str());
            if text::text_equals(state.as_str(), topic) {
                proof {
                    lemma_first_of(list, k as int, self.devices@.len() as int, topic@);
                }
                return k;
            }
            k = k + 1;
        }
        k
    }

    fn control_listener(&self, topic: &str) -> (position: usize)
        ensures
            position == first_of(self.control_topics(), self.controls@.len() as int, topic@),
            position <= self.controls@.len(),
    {
        let ghost list = self.control_topics();
        let mut k: usize = 0;
        while k < self.controls.len()
            invariant
                k <= self.controls@.len(),
                list == self.control_topics(),
                first_of(list, k as int, topic@) == k,
            decreases self.controls@.len() - k,
        {
            let state = topic_under(&self.base_topic, self.controls[k].friendly_name.as_str());
            if text::text_equals(state.as_str(), topic) {
                proof {
                    lemma_first_of(list, k as int, self.controls@.len() as int, topic@);
                }
                return k;
            }
            k = k + 1;
        }
        k
    }

    pub fn parse(&self, message: &InboundMessage<'_>) -> (result: Result<
        Option<InboundEvent>,
        AdapterError,
    >)
        ensures
            says(self.heard(message.topic@, message.payload@, message.retain), result),
            self.ranged() ==> (result matches Err(error) ==> !error.permanent),
    {
        proof {
            if self.ranged() {
                self.malformed_messages_pass(message.topic@, message.payload@, message.retain);
            }
        }
        let topic = message.topic;
        let payload = message.payload;
        if text::text_equals(topic, joined(self.base_topic.clone(), "/bridge/state").as_str()) {
            return match availability_from(topic, payload, &read_json(payload)) {
                Ok(availability) => Ok(Some(InboundEvent::BridgeAvailability(availability))),
                Err(error) => Err(error),
            };
        }
        let available: usize = self.availability_listener(topic);
        if available < self.devices.len() {
            let binding = &self.devices[available];
            return match availability_from(
                binding.friendly_name.as_str(),
                payload,
                &read_json(payload),
            ) {
                Ok(availability) => Ok(
                    Some(
                        InboundEvent::DeviceAvailability {
                            device: binding.id.clone(),
                            availability,
                        },
                    ),
                ),
                Err(error) => Err(error),
            };
        }
        let reporting: usize = self.state_listener(topic);
        if reporting < self.devices.len() {
            let binding = &self.devices[reporting];
            return match state_from(binding, &read_json(payload)) {
                Ok(state) => Ok(
                    Some(InboundEvent::DeviceState { device: binding.id.clone(), state }),
                ),
                Err(error) => Err(error),
            };
        }
        // Action topics are subscribed at QoS 0, so MQTT does not redeliver
        // them. DUP may still be set by a publisher and is not evidence that
        // this process has already handled the event. Retained actions are
        // always stale and must never replay a physical gesture.
        let control: usize = self.control_listener(topic);
        if control < self.controls.len() {
            if message.retain {
                return Ok(None);
            }
            return input_from(&self.controls[control], &read_json(payload));
        }
        Ok(None)
    }
}

/// A topic, ordered by its bytes.
#[derive(Debug, PartialEq, Eq)]
pub struct Topic {
    pub text: String,
}

impl OrderedKey for Topic {
    open spec fn key(&self) -> Seq<u8> {
        text::bytes_of(self.text@)
    }

    fn precedes(&self, other: &Self) -> (result: bool) {
        let result = text::text_precedes(self.text.as_str(), other.text.as_str());
        assert(result == text::precedes(self.text@, other.text@));
        result
    }

    fn matches_key(&self, other: &Self) -> (result: bool) {
        proof {
            text::bytes_injective(self.text@, other.text@);
        }
        text::text_equals(self.text.as_str(), other.text.as_str())
    }
}

#[derive(Debug, PartialEq, Eq)]
pub struct Subscription {
    pub topic: String,
    pub qos: Qos,
}

impl Subscription {
    pub fn topic(&self) -> (topic: &str)
        ensures
            topic@ == self.topic@,
    {
        self.topic.as_str()
    }

    pub fn qos(&self) -> (qos: Qos)
        ensures
            qos == self.qos,
    {
        self.qos
    }
}

/// Subscriptions as pairs of topic and quality of service.
pub open spec fn subscription_pairs(subscriptions: Seq<Subscription>) -> Seq<(Topic, Qos)> {
    Seq::new(
        subscriptions.len(),
        |i: int| (Topic { text: subscriptions[i].topic }, subscriptions[i].qos),
    )
}

/// `topics` with each of the first `n` of `list` at `qos`.
pub open spec fn with_topics(
    topics: Map<Seq<u8>, Qos>,
    list: Seq<Seq<char>>,
    n: int,
    qos: Qos,
) -> Map<Seq<u8>, Qos>
    decreases n,
{
    if n <= 0 {
        topics
    } else {
        with_topics(topics, list, n - 1, qos).insert(text::bytes_of(list[n - 1]), qos)
    }
}

impl Zigbee2MqttAdapter {
    /// The topics to listen to: states at least once, actions at most once.
    pub open spec fn subscribed(self) -> Map<Seq<u8>, Qos> {
        let d = self.devices@.len() as int;
        let bridge = Map::<Seq<u8>, Qos>::empty().insert(
            text::bytes_of(bridge_topic(self.base_topic@)),
            Qos::AtLeastOnce,
        );
        let states = with_topics(bridge, self.state_topics(), d, Qos::AtLeastOnce);
        let controls = with_topics(
            states,
            self.control_topics(),
            self.controls@.len() as int,
            Qos::AtMostOnce,
        );
        with_topics(controls, self.availability_topics(), d, Qos::AtLeastOnce)
    }

    pub fn subscriptions(&self) -> (subscriptions: Vec<Subscription>)
        ensures
            crate::ordered::ascending(subscription_pairs(subscriptions@)),
            crate::ordered::map_of(subscription_pairs(subscriptions@)) == self.subscribed(),
    {
        let mut topics: SortedMap<Topic, Qos> = SortedMap::new();
        topics.set(
            Topic { text: joined(self.base_topic.clone(), "/bridge/state") },
            Qos::AtLeastOnce,
        );
        let ghost bridge = topics@;
        let mut i: usize = 0;
        while i < self.devices.len()
            invariant
                i <= self.devices@.len(),
                topics@ == with_topics(bridge, self.state_topics(), i as int, Qos::AtLeastOnce),
            decreases self.devices@.len() - i,
        {
            let text = topic_under(&self.base_topic, self.devices[i].friendly_name.as_str());
            topics.set(Topic { text }, Qos::AtLeastOnce);
            i = i + 1;
        }
        let ghost states = topics@;
        let mut j: usize = 0;
        while j < self.controls.len()
            invariant
                j <= self.controls@.len(),
                topics@ == with_topics(states, self.control_topics(), j as int, Qos::AtMostOnce),
            decreases self.controls@.len() - j,
        {
            let text = topic_under(&self.base_topic, self.controls[j].friendly_name.as_str());
            topics.set(Topic { text }, Qos::AtMostOnce);
            j = j + 1;
        }
        let ghost controls = topics@;
        let mut l: usize = 0;
        while l < self.devices.len()
            invariant
                l <= self.devices@.len(),
                topics@ == with_topics(
                    controls,
                    self.availability_topics(),
                    l as int,
                    Qos::AtLeastOnce,
                ),
            decreases self.devices@.len() - l,
        {
            let state = topic_under(&self.base_topic, self.devices[l].friendly_name.as_str());
            topics.set(Topic { text: joined(state, "/availability") }, Qos::AtLeastOnce);
            l = l + 1;
        }
        let mut subscriptions: Vec<Subscription> = Vec::new();
        let mut k: usize = 0;
        while k < topics.len()
            invariant
                k <= topics.pairs().len(),
                subscription_pairs(subscriptions@) == topics.pairs().take(k as int),
            decreases topics.pairs().len() - k,
        {
            let ghost before = subscription_pairs(subscriptions@);
            subscriptions.push(
                Subscription { topic: topics.key_at(k).text.clone(), qos: *topics.value_at(k) },
            );
            proof {
                assert(subscription_pairs(subscriptions@) =~= before.push(
                    topics.pairs()[k as int],
                ));
                assert(subscription_pairs(subscriptions@) =~= topics.pairs().take(k + 1));
            }
            k = k + 1;
        }
        assert(topics.pairs().take(topics.pairs().len() as int) =~= topics.pairs());
        subscriptions
    }
}

/// A field of a command or of a read request.
#[derive(Debug, Clone, Copy, PartialEq, Eq, Structural)]
pub enum PayloadField {
    State,
    Brightness,
    ColorTemp,
    ColorX,
    ColorY,
    ColorHue,
    ColorSaturation,
    Transition,
}

impl PayloadField {
    /// The object that holds the field, if it is not the message itself, and
    /// the field's name in it.
    pub open spec fn path_text(self) -> (Option<Seq<char>>, Seq<char>) {
        match self {
            PayloadField::State => (None, "state"@),
            PayloadField::Brightness => (None, "brightness"@),
            PayloadField::ColorTemp => (None, "color_temp"@),
            PayloadField::ColorX => (Some("color"@), "x"@),
            PayloadField::ColorY => (Some("color"@), "y"@),
            PayloadField::ColorHue => (Some("color"@), "hue"@),
            PayloadField::ColorSaturation => (Some("color"@), "saturation"@),
            PayloadField::Transition => (None, "transition"@),
        }
    }

    pub fn path(self) -> (path: (Option<&'static str>, &'static str))
        ensures
            path.1@ == self.path_text().1,
            match path.0 {
                Some(parent) => self.path_text().0 == Some(parent@),
                None => self.path_text().0 is None,
            },
    {
        match self {
            PayloadField::State => (None, "state"),
            PayloadField::Brightness => (None, "brightness"),
            PayloadField::ColorTemp => (None, "color_temp"),
            PayloadField::ColorX => (Some("color"), "x"),
            PayloadField::ColorY => (Some("color"), "y"),
            PayloadField::ColorHue => (Some("color"), "hue"),
            PayloadField::ColorSaturation => (Some("color"), "saturation"),
            PayloadField::Transition => (None, "transition"),
        }
    }
}

/// What a field holds.
#[derive(Debug, Clone, Copy, PartialEq)]
pub enum PayloadValue {
    Blank,
    On,
    Off,
    Whole(u64),
    Number(Double),
}

pub type Payload = Seq<(PayloadField, PayloadValue)>;

/// A field, if it is wanted.
pub open spec fn wanted(condition: bool, field: PayloadField, value: PayloadValue) -> Payload {
    if condition {
        seq![(field, value)]
    } else {
        seq![]
    }
}

fn add_field(
    payload: &mut Vec<(PayloadField, PayloadValue)>,
    condition: bool,
    field: PayloadField,
    value: PayloadValue,
)
    ensures
        final(payload)@ == old(payload)@ + wanted(condition, field, value),
{
    if condition {
        payload.push((field, value));
    }
    assert(payload@ =~= old(payload)@ + wanted(condition, field, value));
}

/// Asks a device for all that it can report.
pub open spec fn read_payload(capabilities: Capabilities) -> Payload {
    Seq::empty() + wanted(capabilities.on_off, PayloadField::State, PayloadValue::Blank) + wanted(
        capabilities.dimming,
        PayloadField::Brightness,
        PayloadValue::Blank,
    ) + wanted(
        capabilities.color_temperature is Some,
        PayloadField::ColorTemp,
        PayloadValue::Blank,
    ) + wanted(capabilities.color_xy, PayloadField::ColorX, PayloadValue::Blank) + wanted(
        capabilities.color_xy,
        PayloadField::ColorY,
        PayloadValue::Blank,
    ) + wanted(capabilities.color_hs, PayloadField::ColorHue, PayloadValue::Blank) + wanted(
        capabilities.color_hs,
        PayloadField::ColorSaturation,
        PayloadValue::Blank,
    )
}

fn read_request(capabilities: Capabilities) -> (payload: Vec<(PayloadField, PayloadValue)>)
    ensures
        payload@ == read_payload(capabilities),
{
    let mut payload: Vec<(PayloadField, PayloadValue)> = Vec::new();
    add_field(&mut payload, capabilities.on_off, PayloadField::State, PayloadValue::Blank);
    add_field(&mut payload, capabilities.dimming, PayloadField::Brightness, PayloadValue::Blank);
    add_field(
        &mut payload,
        capabilities.color_temperature.is_some(),
        PayloadField::ColorTemp,
        PayloadValue::Blank,
    );
    add_field(&mut payload, capabilities.color_xy, PayloadField::ColorX, PayloadValue::Blank);
    add_field(&mut payload, capabilities.color_xy, PayloadField::ColorY, PayloadValue::Blank);
    add_field(&mut payload, capabilities.color_hs, PayloadField::ColorHue, PayloadValue::Blank);
    add_field(&mut payload, capabilities.color_hs, PayloadField::ColorSaturation, PayloadValue::Blank);
    payload
}

pub open spec fn power_payload(on: Option<bool>) -> Payload {
    match on {
        Some(true) => seq![(PayloadField::State, PayloadValue::On)],
        Some(false) => seq![(PayloadField::State, PayloadValue::Off)],
        None => seq![],
    }
}

pub open spec fn brightness_payload(brightness: Option<Brightness>) -> Payload {
    match brightness {
        Some(brightness) => seq![
            (
                PayloadField::Brightness,
                PayloadValue::Whole(
                    brightness.value.product(Double { bits: BRIGHTNESS_SCALE }).rounded(),
                ),
            ),
        ],
        None => seq![],
    }
}

/// A colour temperature in mired, as near as the range allows.
pub open spec fn temperature_payload(kelvin: Option<Kelvin>, range: Option<MiredRange>) -> Payload {
    match (kelvin, range) {
        (Some(kelvin), Some(range)) => seq![
            (
                PayloadField::ColorTemp,
                PayloadValue::Whole(
                    range.limited((Double { bits: MIRED_SCALE }).quotient(kelvin.value)) as u64,
                ),
            ),
        ],
        _ => seq![],
    }
}

pub open spec fn color_payload(color: Color) -> Payload {
    match color {
        Color::Xy { x, y } => seq![
            (PayloadField::ColorX, PayloadValue::Number(x)),
            (PayloadField::ColorY, PayloadValue::Number(y)),
        ],
        Color::Hs { hue, saturation } => seq![
            (PayloadField::ColorHue, PayloadValue::Number(hue)),
            (
                PayloadField::ColorSaturation,
                PayloadValue::Number(saturation.product(Double { bits: PERCENT })),
            ),
        ],
    }
}

/// A transition in seconds.
pub open spec fn transition_payload(transition_ms: Option<u64>) -> Payload {
    match transition_ms {
        Some(milliseconds) => seq![
            (
                PayloadField::Transition,
                PayloadValue::Number(
                    Double::of_nat(milliseconds as nat).quotient(Double { bits: MILLISECONDS }),
                ),
            ),
        ],
        None => seq![],
    }
}

fn add_power(payload: &mut Vec<(PayloadField, PayloadValue)>, on: Option<bool>)
    ensures
        final(payload)@ == old(payload)@ + power_payload(on),
{
    if let Some(on) = on {
        payload.push(
            (
                PayloadField::State,
                if on {
                    PayloadValue::On
                } else {
                    PayloadValue::Off
                },
            ),
        );
    }
    assert(payload@ =~= old(payload)@ + power_payload(on));
}

fn add_brightness(
    payload: &mut Vec<(PayloadField, PayloadValue)>,
    brightness: Option<Brightness>,
)
    ensures
        final(payload)@ == old(payload)@ + brightness_payload(brightness),
{
    if let Some(brightness) = brightness {
        let raw: u64 = brightness.value.times(Double::from_bits(BRIGHTNESS_SCALE)).round_to_u64();
        payload.push((PayloadField::Brightness, PayloadValue::Whole(raw)));
    }
    assert(payload@ =~= old(payload)@ + brightness_payload(brightness));
}

fn add_color_temperature(
    payload: &mut Vec<(PayloadField, PayloadValue)>,
    kelvin: Option<Kelvin>,
    range: Option<MiredRange>,
)
    ensures
        final(payload)@ == old(payload)@ + temperature_payload(kelvin, range),
{
    if let Some(kelvin) = kelvin {
        if let Some(range) = range {
            let raw: u16 = range.clamp(Double::from_bits(MIRED_SCALE).over(kelvin.value));
            payload.push((PayloadField::ColorTemp, PayloadValue::Whole(raw as u64)));
        }
    }
    assert(payload@ =~= old(payload)@ + temperature_payload(kelvin, range));
}

fn add_color(payload: &mut Vec<(PayloadField, PayloadValue)>, color: Color)
    ensures
        final(payload)@ == old(payload)@ + color_payload(color),
{
    match color {
        Color::Xy { x, y } => {
            payload.push((PayloadField::ColorX, PayloadValue::Number(x)));
            payload.push((PayloadField::ColorY, PayloadValue::Number(y)));
        },
        Color::Hs { hue, saturation } => {
            payload.push((PayloadField::ColorHue, PayloadValue::Number(hue)));
            payload.push(
                (
                    PayloadField::ColorSaturation,
                    PayloadValue::Number(saturation.times(Double::from_bits(PERCENT))),
                ),
            );
        },
    }
    assert(payload@ =~= old(payload)@ + color_payload(color));
}

fn add_transition(payload: &mut Vec<(PayloadField, PayloadValue)>, transition_ms: Option<u64>)
    ensures
        final(payload)@ == old(payload)@ + transition_payload(transition_ms),
{
    if let Some(milliseconds) = transition_ms {
        payload.push(
            (
                PayloadField::Transition,
                PayloadValue::Number(
                    Double::from_u64(milliseconds).over(Double::from_bits(MILLISECONDS)),
                ),
            ),
        );
    }
    assert(payload@ =~= old(payload)@ + transition_payload(transition_ms));
}

/// A payload that is not sent before its time.
#[derive(Debug, PartialEq)]
pub struct TimedPayload {
    pub payload: Vec<(PayloadField, PayloadValue)>,
    pub not_before_ms: u64,
}

pub open spec fn timed_views(payloads: Seq<TimedPayload>) -> Seq<(Payload, u64)> {
    Seq::new(payloads.len(), |i: int| (payloads[i].payload@, payloads[i].not_before_ms))
}

/// A command that has to be sent in two parts.
pub open spec fn splits(target: DeviceTarget, single_transition_attribute: bool) -> bool {
    &&& single_transition_attribute
    &&& target.transition_ms is Some
    &&& target.brightness is Some
    &&& target.color_temperature is Some
    &&& target.color is None
}

/// The payload of a command that is sent in one part.
pub open spec fn whole_payload(target: DeviceTarget, range: Option<MiredRange>) -> Payload {
    let lit = Seq::empty() + power_payload(target.on) + brightness_payload(target.brightness);
    let colored = match target.color {
        Some(color) => lit + color_payload(color),
        None => lit + temperature_payload(target.color_temperature, range),
    };
    if target.brightness is Some || target.color_temperature is Some || target.color is Some {
        colored + transition_payload(target.transition_ms)
    } else {
        colored
    }
}

/// The payloads of a command, with their times.
pub open spec fn payloads_of(
    target: DeviceTarget,
    range: Option<MiredRange>,
    single_transition_attribute: bool,
) -> Result<Seq<(Payload, u64)>, Fault> {
    if target.transition_ms matches Some(milliseconds) && milliseconds
        > MAX_COMMAND_TRANSITION_MS {
        Err(
            configuration(
                "transition exceeds maximum of "@ + crate::message::decimal(
                    MAX_COMMAND_TRANSITION_MS as nat,
                ) + " ms; use sparse incremental circadian commands instead"@,
            ),
        )
    } else if target.color is None && target.color_temperature is Some && range is None {
        Err(configuration("color-temperature command requires a configured mired range"@))
    } else if splits(target, single_transition_attribute) {
        Ok(
            seq![
                (
                    Seq::empty() + power_payload(target.on) + brightness_payload(target.brightness)
                        + transition_payload(target.transition_ms),
                    0,
                ),
                (
                    Seq::empty() + temperature_payload(target.color_temperature, range)
                        + transition_payload(target.transition_ms),
                    target.transition_ms->0,
                ),
            ],
        )
    } else if whole_payload(target, range).len() == 0 {
        Ok(seq![])
    } else {
        Ok(seq![(whole_payload(target, range), 0)])
    }
}

pub fn command_payloads(
    target: DeviceTarget,
    mired_range: Option<MiredRange>,
    single_transition_attribute: bool,
) -> (result: Result<Vec<TimedPayload>, AdapterError>)
    ensures
        match payloads_of(target, mired_range, single_transition_attribute) {
            Ok(payloads) => result matches Ok(list) && timed_views(list@) == payloads,
            Err(fault) => result matches Err(error) && error@ == fault,
        },
{
    if let Some(milliseconds) = target.transition_ms {
        if milliseconds > MAX_COMMAND_TRANSITION_MS {
            return Err(
                AdapterError::configuration(
                    joined(
                        joined(
                            String::from_str("transition exceeds maximum of "),
                            digits(MAX_COMMAND_TRANSITION_MS).as_str(),
                        ),
                        " ms; use sparse incremental circadian commands instead",
                    ),
                ),
            );
        }
    }
    if target.color.is_none() && target.color_temperature.is_some() && mired_range.is_none() {
        return Err(
            AdapterError::configuration(
                String::from_str("color-temperature command requires a configured mired range"),
            ),
        );
    }
    let mut list: Vec<TimedPayload> = Vec::new();
    if single_transition_attribute && target.brightness.is_some()
        && target.color_temperature.is_some() && target.color.is_none() {
        if let Some(milliseconds) = target.transition_ms {
            let mut brightness: Vec<(PayloadField, PayloadValue)> = Vec::new();
            add_power(&mut brightness, target.on);
            add_brightness(&mut brightness, target.brightness);
            add_transition(&mut brightness, target.transition_ms);
            let mut temperature: Vec<(PayloadField, PayloadValue)> = Vec::new();
            add_color_temperature(&mut temperature, target.color_temperature, mired_range);
            add_transition(&mut temperature, target.transition_ms);
            list.push(TimedPayload { payload: brightness, not_before_ms: 0 });
            list.push(TimedPayload { payload: temperature, not_before_ms: milliseconds });
            assert(timed_views(list@) =~= payloads_of(
                target,
                mired_range,
                single_transition_attribute,
            )->Ok_0);
            return Ok(list);
        }
    }
    let mut payload: Vec<(PayloadField, PayloadValue)> = Vec::new();
    add_power(&mut payload, target.on);
    add_brightness(&mut payload, target.brightness);
    if let Some(color) = target.color {
        add_color(&mut payload, color);
    } else {
        add_color_temperature(&mut payload, target.color_temperature, mired_range);
    }
    if target.brightness.is_some() || target.color_temperature.is_some() || target.color.is_some() {
        add_transition(&mut payload, target.transition_ms);
    }
    assert(payload@ == whole_payload(target, mired_range));
    if payload.len() != 0 {
        list.push(TimedPayload { payload, not_before_ms: 0 });
    }
    assert(timed_views(list@) =~= payloads_of(
        target,
        mired_range,
        single_transition_attribute,
    )->Ok_0);
    Ok(list)
}

/// A message to be sent.
#[derive(Debug, PartialEq)]
pub struct Publication {
    pub topic: String,
    pub payload: Vec<(PayloadField, PayloadValue)>,
    pub retain: bool,
    pub qos: Qos,
    pub not_before_ms: u64,
    pub dispatch_token: Option<DispatchToken>,
    pub dispatch_operation_index: Option<usize>,
}

/// A message to be sent, with its text by characters.
#[verifier::ext_equal]
pub struct PublicationView {
    pub topic: Seq<char>,
    pub payload: Payload,
    pub retain: bool,
    pub qos: Qos,
    pub not_before_ms: u64,
    pub dispatch_token: Option<DispatchToken>,
    pub dispatch_operation_index: Option<usize>,
}

/// A message that is never retained and is delivered at least once.
pub open spec fn fresh_publication(
    topic: Seq<char>,
    payload: Payload,
    not_before_ms: u64,
    dispatch_token: Option<DispatchToken>,
) -> PublicationView {
    PublicationView {
        topic,
        payload,
        retain: false,
        qos: Qos::AtLeastOnce,
        not_before_ms,
        dispatch_token,
        dispatch_operation_index: None,
    }
}

impl PayloadValue {
    /// How the value is shown: a word as text, a number exactly, null in place of what
    /// is no number.
    pub open spec fn shown(self) -> crate::json::ScalarView {
        match self {
            PayloadValue::Blank => crate::json::ScalarView::Text(""@),
            PayloadValue::On => crate::json::ScalarView::Text("ON"@),
            PayloadValue::Off => crate::json::ScalarView::Text("OFF"@),
            PayloadValue::Whole(number) => crate::json::ScalarView::Whole(number),
            PayloadValue::Number(number) => if number.finite() {
                crate::json::ScalarView::Decimal(crate::decimal::spelling(number))
            } else {
                crate::json::ScalarView::Null
            },
        }
    }

    fn scalar(self) -> (scalar: JsonScalar)
        ensures
            scalar@ == self.shown(),
    {
        match self {
            PayloadValue::Blank => JsonScalar::Text(String::from_str("")),
            PayloadValue::On => JsonScalar::Text(String::from_str("ON")),
            PayloadValue::Off => JsonScalar::Text(String::from_str("OFF")),
            PayloadValue::Whole(number) => JsonScalar::Whole(number),
            PayloadValue::Number(number) => {
                if number.is_finite() {
                    JsonScalar::Decimal(number.decimal_text())
                } else {
                    JsonScalar::Null
                }
            },
        }
    }
}

/// The fields of the message itself.
pub open spec fn outer_fields(payload: Payload) -> Payload {
    payload.filter(|entry: (PayloadField, PayloadValue)| entry.0.path_text().0 is None)
}

/// The fields of the colour object.
pub open spec fn color_fields(payload: Payload) -> Payload {
    payload.filter(|entry: (PayloadField, PayloadValue)| entry.0.path_text().0 is Some)
}

/// The fields of the colour object by name, each as it is shown.
pub open spec fn color_items(payload: Payload) -> Seq<(Seq<char>, crate::json::ScalarView)> {
    let color = color_fields(payload);
    Seq::new(color.len(), |i: int| (color[i].0.path_text().1, color[i].1.shown()))
}

/// The fields of the message itself by name, each as it is shown.
pub open spec fn outer_items(payload: Payload) -> Seq<(Seq<char>, crate::json::ItemView)> {
    let own = outer_fields(payload);
    Seq::new(
        own.len(),
        |i: int| (own[i].0.path_text().1, crate::json::ItemView::Scalar(own[i].1.shown())),
    )
}

/// One more field goes to the end of where it belongs.
pub(crate) proof fn lemma_items_step(payload: Payload, entry: (PayloadField, PayloadValue))
    ensures
        outer_items(payload.push(entry)) == if entry.0.path_text().0 is None {
            outer_items(payload).push(
                (entry.0.path_text().1, crate::json::ItemView::Scalar(entry.1.shown())),
            )
        } else {
            outer_items(payload)
        },
        color_items(payload.push(entry)) == if entry.0.path_text().0 is Some {
            color_items(payload).push((entry.0.path_text().1, entry.1.shown()))
        } else {
            color_items(payload)
        },
{
    reveal(Seq::filter);
    assert(payload.push(entry).drop_last() =~= payload);
    assert(payload.push(entry).last() == entry);
    if entry.0.path_text().0 is None {
        assert(outer_fields(payload.push(entry)) == outer_fields(payload).push(entry));
        assert(color_fields(payload.push(entry)) == color_fields(payload));
        assert(outer_items(payload.push(entry)) =~= outer_items(payload).push(
            (entry.0.path_text().1, crate::json::ItemView::Scalar(entry.1.shown())),
        ));
    } else {
        assert(color_fields(payload.push(entry)) == color_fields(payload).push(entry));
        assert(outer_fields(payload.push(entry)) == outer_fields(payload));
        assert(color_items(payload.push(entry)) =~= color_items(payload).push(
            (entry.0.path_text().1, entry.1.shown()),
        ));
    }
}

/// The object that a payload stands for: its own fields, and after them the colour
/// object if it has a field.
pub open spec fn layout(payload: Payload) -> Seq<(Seq<char>, crate::json::ItemView)> {
    if color_fields(payload).len() > 0 {
        outer_items(payload).push(
            ("color"@, crate::json::ItemView::Object(color_items(payload))),
        )
    } else {
        outer_items(payload)
    }
}

impl Publication {
    pub open spec fn view(&self) -> PublicationView {
        PublicationView {
            topic: self.topic@,
            payload: self.payload@,
            retain: self.retain,
            qos: self.qos,
            not_before_ms: self.not_before_ms,
            dispatch_token: self.dispatch_token,
            dispatch_operation_index: self.dispatch_operation_index,
        }
    }

    pub fn topic(&self) -> (topic: &str)
        ensures
            topic@ == self.topic@,
    {
        self.topic.as_str()
    }

    /// The object that the payload stands for.
    fn items(&self) -> (items: Vec<(String, JsonItem)>)
        ensures
            crate::json::items_view(items@) == layout(self.payload@),
    {
        let mut items: Vec<(String, JsonItem)> = Vec::new();
        let mut color: Vec<(String, JsonScalar)> = Vec::new();
        let mut i: usize = 0;
        proof {
            assert(self.payload@.take(0) =~= Seq::empty());
            reveal(Seq::filter);
            assert(crate::json::items_view(items@) =~= outer_items(self.payload@.take(0)));
            assert(crate::json::scalars_view(color@) =~= color_items(self.payload@.take(0)));
        }
        while i < self.payload.len()
            invariant
                i <= self.payload@.len(),
                crate::json::items_view(items@) == outer_items(self.payload@.take(i as int)),
                crate::json::scalars_view(color@) == color_items(self.payload@.take(i as int)),
            decreases self.payload@.len() - i,
        {
            let (field, value) = self.payload[i];
            let (parent, name) = field.path();
            let scalar = value.scalar();
            let ghost earlier = crate::json::items_view(items@);
            let ghost colored = crate::json::scalars_view(color@);
            proof {
                let before = self.payload@.take(i as int);
                assert(self.payload@.take(i + 1) =~= before.push((field, value)));
                lemma_items_step(before, (field, value));
            }
            match parent {
                None => items.push((String::from_str(name), JsonItem::Scalar(scalar))),
                Some(_) => color.push((String::from_str(name), scalar)),
            }
            proof {
                let shown = crate::json::items_view(items@);
                let list = crate::json::scalars_view(color@);
                if parent is None {
                    assert(shown =~= earlier.push(shown.last()));
                } else {
                    assert(list =~= colored.push(list.last()));
                }
                assert(shown =~= outer_items(self.payload@.take(i + 1)));
                assert(list =~= color_items(self.payload@.take(i + 1)));
            }
            i = i + 1;
        }
        assert(self.payload@.take(i as int) =~= self.payload@);
        let ghost own = crate::json::items_view(items@);
        assert(crate::json::scalars_view(color@).len() == color@.len());
        if color.len() > 0 {
            items.push((String::from_str("color"), JsonItem::Object(color)));
        }
        proof {
            let shown = crate::json::items_view(items@);
            assert forall|k: int| 0 <= k < own.len() implies #[trigger] shown[k] == own[k] by {}
            assert(shown =~= layout(self.payload@));
        }
        items
    }

    /// The JSON text of the payload, as it is sent.
    pub fn payload(&self) -> (result: Result<Vec<u8>, AdapterError>)
        ensures
            match crate::json::json_bytes(layout(self.payload@)) {
                Ok(bytes) => result matches Ok(sent) && sent@ == bytes,
                Err(reason) => result matches Err(error) && error@ == configuration(
                    "cannot encode command: "@ + reason,
                ),
            },
    {
        let items = self.items();
        match write_json(&items) {
            Ok(bytes) => Ok(bytes),
            Err(reason) => Err(
                AdapterError::configuration(
                    joined(String::from_str("cannot encode command: "), reason.as_str()),
                ),
            ),
        }
    }

    pub fn retain(&self) -> (retain: bool)
        ensures
            retain == self.retain,
    {
        self.retain
    }

    pub fn qos(&self) -> (qos: Qos)
        ensures
            qos == self.qos,
    {
        self.qos
    }

    /// Minimum delay from the containing `AdapterPlan` epoch, not from the
    /// previous operation.
    pub fn not_before_ms(&self) -> (milliseconds: u64)
        ensures
            milliseconds == self.not_before_ms,
    {
        self.not_before_ms
    }

    /// Correlates all command publications in one reconciler batch. Pair this
    /// with `dispatch_operation_index` when claiming the enqueue permit.
    pub fn dispatch_token(&self) -> (token: Option<DispatchToken>)
        ensures
            token == self.dispatch_token,
    {
        self.dispatch_token
    }

    /// Zero-based operation index within this publication's dispatch token.
    /// Reads carry no dispatch token and therefore no operation index.
    pub fn dispatch_operation_index(&self) -> (index: Option<usize>)
        ensures
            index == self.dispatch_operation_index,
    {
        self.dispatch_operation_index
    }
}

#[derive(Debug, PartialEq)]
pub enum AdapterOperation {
    Subscribe(Subscription),
    Publish(Publication),
}

impl AdapterOperation {
    pub fn publication(&self) -> (publication: Option<&Publication>)
        ensures
            match *self {
                AdapterOperation::Publish(message) => publication matches Some(found) && *found
                    == message,
                AdapterOperation::Subscribe(_) => publication is None,
            },
    {
        match self {
            AdapterOperation::Publish(publication) => Some(publication),
            AdapterOperation::Subscribe(_) => None,
        }
    }

    pub fn subscription(&self) -> (subscription: Option<&Subscription>)
        ensures
            match *self {
                AdapterOperation::Subscribe(request) => subscription matches Some(found) && *found
                    == request,
                AdapterOperation::Publish(_) => subscription is None,
            },
    {
        match self {
            AdapterOperation::Subscribe(subscription) => Some(subscription),
            AdapterOperation::Publish(_) => None,
        }
    }

    pub fn qos(&self) -> (qos: Qos)
        ensures
            qos == match *self {
                AdapterOperation::Subscribe(subscription) => subscription.qos,
                AdapterOperation::Publish(publication) => publication.qos,
            },
    {
        match self {
            AdapterOperation::Subscribe(subscription) => subscription.qos,
            AdapterOperation::Publish(publication) => publication.qos,
        }
    }
}

/// The moment from which the offsets of a plan are measured.
#[derive(Debug, Clone, Copy, PartialEq)]
pub struct PlanEpoch {
    pub time: MonotonicTime,
}

impl PlanEpoch {
    pub fn new(monotonic_time: MonotonicTime) -> (epoch: Self)
        ensures
            epoch.time == monotonic_time,
    {
        PlanEpoch { time: monotonic_time }
    }

    pub fn monotonic_time(self) -> (time: MonotonicTime)
        ensures
            time == self.time,
    {
        self.time
    }
}

/// How many operations a token has, and the latest of their offsets.
#[derive(Debug, Clone, Copy, PartialEq, Eq, Structural)]
pub struct DispatchPlanMetadata {
    pub token: DispatchToken,
    pub operation_count: usize,
    pub max_offset_ms: u64,
}

impl DispatchPlanMetadata {
    pub fn token(self) -> (token: DispatchToken)
        ensures
            token == self.token,
    {
        self.token
    }

    pub fn operation_count(self) -> (count: usize)
        ensures
            count == self.operation_count,
    {
        self.operation_count
    }

    pub fn max_offset_ms(self) -> (milliseconds: u64)
        ensures
            milliseconds == self.max_offset_ms,
    {
        self.max_offset_ms
    }
}

/// What has to be done, in order.
#[derive(Debug, PartialEq)]
pub struct AdapterPlan {
    pub epoch: PlanEpoch,
    pub operations: Vec<AdapterOperation>,
    pub dispatch_plans: Vec<DispatchPlanMetadata>,
}

impl AdapterPlan {
    /// Identifies the instant from which every operation's `not_before_ms` is
    /// measured. Executors must not reinterpret offsets relative to each prior
    /// publication.
    pub fn epoch(&self) -> (epoch: PlanEpoch)
        ensures
            epoch == self.epoch,
    {
        self.epoch
    }

    /// Per-token registration data derived from the final globally ordered
    /// command publications. Register every entry with the reconciler before
    /// enqueueing any operation from this plan.
    pub fn dispatch_plans(&self) -> (plans: &Vec<DispatchPlanMetadata>)
        ensures
            *plans == self.dispatch_plans,
    {
        &self.dispatch_plans
    }

    /// Ordered execution plan: subscriptions, reads, zero-delay commands, then
    /// delayed command phases. Equal offsets preserve input/action order.
    /// Before enqueueing every command, executors must claim its token and
    /// `dispatch_operation_index` with `Reconciler::claim_next_operation`, hold
    /// the returned permit across MQTT enqueue, and skip benign stale/already
    /// accepted claims.
    pub fn operations(&self) -> (operations: &Vec<AdapterOperation>)
        ensures
            *operations == self.operations,
    {
        &self.operations
    }
}

pub open spec fn publication_views(publications: Seq<Publication>) -> Seq<PublicationView> {
    Seq::new(publications.len(), |i: int| publications[i]@)
}

/// Number of leading publications that are not sent later than `time`.
pub open spec fn phase_place(ordered: Seq<PublicationView>, time: u64) -> int
    decreases ordered.len(),
{
    if ordered.len() == 0 || ordered[0].not_before_ms > time {
        0
    } else {
        1 + phase_place(ordered.drop_first(), time)
    }
}

/// The publications by their offsets; those of one offset keep their order.
pub open spec fn phased(publications: Seq<PublicationView>) -> Seq<PublicationView>
    decreases publications.len(),
{
    if publications.len() == 0 {
        Seq::empty()
    } else {
        let rest = phased(publications.drop_last());
        let last = publications.last();
        rest.insert(phase_place(rest, last.not_before_ms), last)
    }
}

/// How many of the first `n` publications carry `token`.
pub open spec fn token_count(
    publications: Seq<PublicationView>,
    n: int,
    token: Option<DispatchToken>,
) -> int
    decreases n,
{
    if n <= 0 {
        0
    } else {
        token_count(publications, n - 1, token) + if publications[n - 1].dispatch_token == token {
            1int
        } else {
            0
        }
    }
}

/// The latest offset of the first `n` publications that carry `token`.
pub open spec fn token_offset(
    publications: Seq<PublicationView>,
    n: int,
    token: Option<DispatchToken>,
) -> u64
    decreases n,
{
    if n <= 0 {
        0
    } else {
        let earlier = token_offset(publications, n - 1, token);
        let last = publications[n - 1];
        if last.dispatch_token == token && last.not_before_ms > earlier {
            last.not_before_ms
        } else {
            earlier
        }
    }
}

/// Each publication numbered within its token.
pub open spec fn numbered(publications: Seq<PublicationView>) -> Seq<PublicationView> {
    Seq::new(
        publications.len(),
        |k: int|
            PublicationView {
                dispatch_operation_index: Some(
                    token_count(publications, k, publications[k].dispatch_token) as usize,
                ),
                ..publications[k]
            },
    )
}

/// `plans` lists each token of the first `n` publications once, in ascending
/// order, with its count and latest offset.
pub open spec fn summarized(
    publications: Seq<PublicationView>,
    n: int,
    plans: Seq<DispatchPlanMetadata>,
) -> bool {
    &&& forall|a: int, b: int|
        0 <= a < b < plans.len() ==> (#[trigger] plans[a]).token.value < (
        #[trigger] plans[b]).token.value
    &&& forall|a: int|
        0 <= a < plans.len() ==> {
            let token = Some((#[trigger] plans[a]).token);
            &&& plans[a].operation_count == token_count(publications, n, token)
            &&& plans[a].operation_count > 0
            &&& plans[a].max_offset_ms == token_offset(publications, n, token)
        }
    &&& forall|k: int|
        0 <= k < n ==> ((#[trigger] publications[k]).dispatch_token matches Some(token)
            ==> exists|a: int| 0 <= a < plans.len() && (#[trigger] plans[a]).token == token)
}

/// The read requests among the first `n` actions.
pub open spec fn reads_of(adapter: Zigbee2MqttAdapter, actions: Seq<ReconcileAction>, n: int) -> Result<
    Seq<PublicationView>,
    Fault,
>
    decreases n,
{
    if n <= 0 {
        Ok(Seq::empty())
    } else {
        match reads_of(adapter, actions, n - 1) {
            Err(fault) => Err(fault),
            Ok(reads) => match actions[n - 1] {
                ReconcileAction::RequestState(id) => {
                    let d = adapter.devices@.len() as int;
                    let k = device_place(adapter.devices@, d, id);
                    if k < d {
                        Ok(
                            reads.push(
                                fresh_publication(
                                    under(
                                        adapter.base_topic@,
                                        adapter.devices@[k].friendly_name@,
                                    ) + "/get"@,
                                    read_payload(adapter.devices@[k].capabilities),
                                    0,
                                    None,
                                ),
                            ),
                        )
                    } else {
                        Err(configuration("unbound device "@ + id.text@))
                    }
                },
                _ => Ok(reads),
            },
        }
    }
}

/// What is known of the addressee of a command.
pub struct Addressee {
    pub friendly_name: Seq<char>,
    pub mired_range: Option<MiredRange>,
    pub single_transition_attribute: bool,
}

pub open spec fn addressee(adapter: Zigbee2MqttAdapter, entity: CommandEntity) -> Result<
    Addressee,
    Fault,
> {
    match entity {
        CommandEntity::Device(id) => {
            let d = adapter.devices@.len() as int;
            let k = device_place(adapter.devices@, d, id);
            if k < d {
                let binding = adapter.devices@[k];
                Ok(
                    Addressee {
                        friendly_name: binding.friendly_name@,
                        mired_range: binding.mired_range,
                        single_transition_attribute: binding.single_transition_attribute,
                    },
                )
            } else {
                Err(configuration("unbound device "@ + id.text@))
            }
        },
        CommandEntity::Group(id) => {
            let g = adapter.groups@.len() as int;
            let k = group_place(adapter.groups@, g, id);
            if k < g {
                let binding = adapter.groups@[k];
                Ok(
                    Addressee {
                        friendly_name: binding.friendly_name@,
                        mired_range: binding.mired_range,
                        single_transition_attribute: binding.single_transition_attribute,
                    },
                )
            } else {
                Err(configuration("unbound group "@ + id.text@))
            }
        },
    }
}

/// The publications of one command.
pub open spec fn command_messages(
    adapter: Zigbee2MqttAdapter,
    token: DispatchToken,
    entity: CommandEntity,
    target: DeviceTarget,
) -> Result<Seq<PublicationView>, Fault> {
    match addressee(adapter, entity) {
        Err(fault) => Err(fault),
        Ok(addressee) => match payloads_of(
            target,
            addressee.mired_range,
            addressee.single_transition_attribute,
        ) {
            Err(fault) => Err(fault),
            Ok(payloads) => if payloads.len() == 0 {
                Err(
                    configuration(
                        "command for "@ + addressee.friendly_name
                            + " has no controllable fields"@,
                    ),
                )
            } else {
                Ok(
                    Seq::new(
                        payloads.len(),
                        |i: int|
                            fresh_publication(
                                under(adapter.base_topic@, addressee.friendly_name) + "/set"@,
                                payloads[i].0,
                                payloads[i].1,
                                Some(token),
                            ),
                    ),
                )
            },
        },
    }
}

/// The publications of the commands among the first `n` actions.
pub open spec fn commands_of(
    adapter: Zigbee2MqttAdapter,
    actions: Seq<ReconcileAction>,
    n: int,
) -> Result<Seq<PublicationView>, Fault>
    decreases n,
{
    if n <= 0 {
        Ok(Seq::empty())
    } else {
        match commands_of(adapter, actions, n - 1) {
            Err(fault) => Err(fault),
            Ok(messages) => match actions[n - 1] {
                ReconcileAction::Command { token, entity, target } => match command_messages(
                    adapter,
                    token,
                    entity,
                    target,
                ) {
                    Err(fault) => Err(fault),
                    Ok(more) => Ok(messages + more),
                },
                _ => Ok(messages),
            },
        }
    }
}

/// `operation` sends `message`.
pub open spec fn published(operation: AdapterOperation, message: PublicationView) -> bool {
    operation matches AdapterOperation::Publish(publication) && publication@ == message
}

pub open spec fn resubscribes(actions: Seq<ReconcileAction>) -> bool {
    exists|i: int| 0 <= i < actions.len() && (#[trigger] actions[i]) is Resubscribe
}

/// The operations are the subscriptions (if any), the reads and the commands
/// by phase and number, in this order; the plans sum the commands up.
pub open spec fn planned(
    adapter: Zigbee2MqttAdapter,
    epoch: PlanEpoch,
    actions: Seq<ReconcileAction>,
    plan: AdapterPlan,
) -> bool {
    let reads = reads_of(adapter, actions, actions.len() as int)->Ok_0;
    let ordered = phased(commands_of(adapter, actions, actions.len() as int)->Ok_0);
    let messages = reads + numbered(ordered);
    let first = plan.operations@.len() - messages.len();
    &&& plan.epoch == epoch
    &&& 0 <= first
    &&& forall|i: int|
        0 <= i < first ==> (#[trigger] plan.operations@[i]) is Subscribe
    &&& forall|i: int|
        0 <= i < messages.len() ==> published(plan.operations@[first + i], #[trigger] messages[i])
    &&& if resubscribes(actions) {
        let pairs = Seq::new(
            first as nat,
            |i: int|
                (
                    Topic { text: plan.operations@[i]->Subscribe_0.topic },
                    plan.operations@[i]->Subscribe_0.qos,
                ),
        );
        crate::ordered::ascending(pairs) && crate::ordered::map_of(pairs) == adapter.subscribed()
    } else {
        first == 0
    }
    &&& summarized(ordered, ordered.len() as int, plan.dispatch_plans@)
}

proof fn lemma_phase_place(ordered: Seq<PublicationView>, time: u64, i: int)
    requires
        0 <= i <= ordered.len(),
        forall|j: int| 0 <= j < i ==> (#[trigger] ordered[j]).not_before_ms <= time,
        i < ordered.len() ==> ordered[i].not_before_ms > time,
    ensures
        phase_place(ordered, time) == i,
    decreases i,
{
    if i > 0 {
        let rest = ordered.drop_first();
        assert(ordered[0].not_before_ms <= time);
        assert forall|j: int| 0 <= j < i - 1 implies (#[trigger] rest[j]).not_before_ms
            <= time by {
            assert(rest[j] == ordered[j + 1]);
        }
        lemma_phase_place(rest, time, i - 1);
    }
}

proof fn lemma_phase_place_range(ordered: Seq<PublicationView>, time: u64)
    ensures
        0 <= phase_place(ordered, time) <= ordered.len(),
        forall|j: int|
            0 <= j < phase_place(ordered, time) ==> (#[trigger] ordered[j]).not_before_ms <= time,
        phase_place(ordered, time) < ordered.len() ==> ordered[phase_place(
            ordered,
            time,
        )].not_before_ms > time,
    decreases ordered.len(),
{
    if ordered.len() > 0 && ordered[0].not_before_ms <= time {
        let rest = ordered.drop_first();
        lemma_phase_place_range(rest, time);
        assert forall|j: int| 0 <= j < phase_place(ordered, time) implies (
        #[trigger] ordered[j]).not_before_ms <= time by {
            if j > 0 {
                assert(rest[j - 1] == ordered[j]);
            }
        }
    }
}

/// Commands are sent by phase, earlier offsets first; none is lost or added.
pub proof fn phases_ascend(publications: Seq<PublicationView>)
    ensures
        phased(publications).len() == publications.len(),
        phased(publications).to_multiset() == publications.to_multiset(),
        forall|i: int, j: int|
            0 <= i < j < phased(publications).len() ==> (#[trigger] phased(
                publications,
            )[i]).not_before_ms <= (#[trigger] phased(publications)[j]).not_before_ms,
    decreases publications.len(),
{
    broadcast use vstd::seq_lib::group_to_multiset_ensures;

    if publications.len() > 0 {
        let rest = phased(publications.drop_last());
        let last = publications.last();
        phases_ascend(publications.drop_last());
        lemma_phase_place_range(rest, last.not_before_ms);
        let p = phase_place(rest, last.not_before_ms);
        let next = rest.insert(p, last);
        assert forall|i: int, j: int| 0 <= i < j < next.len() implies (
        #[trigger] next[i]).not_before_ms <= (#[trigger] next[j]).not_before_ms by {
            let x = if i < p { i } else { i - 1 };
            let y = if j < p { j } else { j - 1 };
            if i == p {
                assert(next[j] == rest[y]);
                if y > p {
                    assert(rest[p].not_before_ms <= rest[y].not_before_ms);
                }
            } else if j == p {
                assert(next[i] == rest[x]);
            } else {
                assert(next[i] == rest[x] && next[j] == rest[y]);
            }
        }
        vstd::seq_lib::to_multiset_insert(rest, p, last);
        assert(publications =~= publications.drop_last().push(last));
    } else {
        assert(publications =~= Seq::<PublicationView>::empty());
    }
}

/// The publications that are sent at one offset.
pub open spec fn sent_at(publications: Seq<PublicationView>, time: u64) -> Seq<PublicationView> {
    publications.filter(|publication: PublicationView| publication.not_before_ms == time)
}

proof fn lemma_none_sent(publications: Seq<PublicationView>, time: u64)
    requires
        forall|i: int|
            0 <= i < publications.len() ==> (#[trigger] publications[i]).not_before_ms > time,
    ensures
        sent_at(publications, time) == Seq::<PublicationView>::empty(),
    decreases publications.len(),
{
    reveal(Seq::filter);
    if publications.len() > 0 {
        assert(publications.last().not_before_ms > time);
        lemma_none_sent(publications.drop_last(), time);
    }
}

/// Commands of one offset are sent in the order in which they were asked for.
pub proof fn phases_keep_the_order(publications: Seq<PublicationView>, time: u64)
    ensures
        sent_at(phased(publications), time) == sent_at(publications, time),
    decreases publications.len(),
{
    reveal(Seq::filter);
    if publications.len() > 0 {
        let rest = phased(publications.drop_last());
        let last = publications.last();
        phases_keep_the_order(publications.drop_last(), time);
        phases_ascend(publications.drop_last());
        lemma_phase_place_range(rest, last.not_before_ms);
        let p = phase_place(rest, last.not_before_ms);
        let low = rest.take(p);
        let high = rest.skip(p);
        let chosen = |publication: PublicationView| publication.not_before_ms == time;
        assert(rest =~= low + high);
        assert(rest.insert(p, last) =~= low.push(last) + high);
        Seq::filter_distributes_over_add(low, high, chosen);
        Seq::filter_distributes_over_add(low.push(last), high, chosen);
        assert(low.push(last).drop_last() =~= low);
        if last.not_before_ms == time {
            assert forall|i: int| 0 <= i < high.len() implies (#[trigger] high[i]).not_before_ms
                > time by {
                assert(rest[p].not_before_ms > time);
                if i > 0 {
                    assert(rest[p].not_before_ms <= rest[p + i].not_before_ms);
                }
            }
            lemma_none_sent(high, time);
        }
        assert(sent_at(rest.insert(p, last), time) =~= sent_at(publications, time));
    }
}

/// A publication is counted, and its offset is covered, among all of its token.
proof fn lemma_token_totals(
    publications: Seq<PublicationView>,
    k: int,
    n: int,
    token: Option<DispatchToken>,
)
    requires
        0 <= k < n <= publications.len(),
        publications[k].dispatch_token == token,
    ensures
        0 <= token_count(publications, k, token) <= k,
        token_count(publications, k, token) < token_count(publications, n, token),
        publications[k].not_before_ms <= token_offset(publications, n, token),
    decreases n,
{
    lemma_token_count_bound(publications, k, token);
    if k < n - 1 {
        lemma_token_totals(publications, k, n - 1, token);
    }
}

/// Commands are numbered within their token, below the token's registered count, and
/// are sent within its registered offset; a read request carries neither token nor
/// number.
pub proof fn commands_are_numbered(
    adapter: Zigbee2MqttAdapter,
    epoch: PlanEpoch,
    actions: Seq<ReconcileAction>,
    plan: AdapterPlan,
    i: int,
)
    requires
        reads_of(adapter, actions, actions.len() as int) is Ok,
        commands_of(adapter, actions, actions.len() as int) is Ok,
        planned(adapter, epoch, actions, plan),
        0 <= i < plan.operations@.len(),
    ensures
        plan.operations@[i] matches AdapterOperation::Publish(publication) ==> match (
            publication.dispatch_token,
            publication.dispatch_operation_index,
        ) {
            (None, None) => true,
            (Some(token), Some(index)) => exists|a: int|
                0 <= a < plan.dispatch_plans@.len() && (
                #[trigger] plan.dispatch_plans@[a]).token == token && index
                    < plan.dispatch_plans@[a].operation_count && publication.not_before_ms
                    <= plan.dispatch_plans@[a].max_offset_ms,
            _ => false,
        },
{
    let n = actions.len() as int;
    let reads = reads_of(adapter, actions, n)->Ok_0;
    let all = commands_of(adapter, actions, n)->Ok_0;
    let ordered = phased(all);
    let messages = reads + numbered(ordered);
    let first = plan.operations@.len() - messages.len();
    lemma_reads_are_fresh(adapter, actions, n);
    if i >= first {
        let k = i - first;
        assert(published(plan.operations@[first + k], messages[k]));
        if k < reads.len() {
            assert(messages[k] == reads[k]);
        } else {
            let place = k - reads.len();
            lemma_commands_tokens(adapter, actions, n);
            lemma_phased_tokens(all);
            let message = ordered[place];
            let token = message.dispatch_token;
            lemma_token_totals(ordered, place, ordered.len() as int, token);
            assert(ordered.len() <= plan.operations.len());
            assert(messages[k] == numbered(ordered)[place]);
        }
    }
}

/// A command waits no longer than a transition may take.
proof fn lemma_payload_offsets(
    target: DeviceTarget,
    mired_range: Option<MiredRange>,
    single_transition_attribute: bool,
)
    ensures
        payloads_of(target, mired_range, single_transition_attribute) matches Ok(payloads) ==> (
        forall|i: int|
            0 <= i < payloads.len() ==> (#[trigger] payloads[i]).1 <= MAX_COMMAND_TRANSITION_MS),
{
}

proof fn lemma_reads_are_fresh(
    adapter: Zigbee2MqttAdapter,
    actions: Seq<ReconcileAction>,
    n: int,
)
    ensures
        reads_of(adapter, actions, n) matches Ok(reads) ==> (forall|i: int|
            0 <= i < reads.len() ==> {
                &&& !(#[trigger] reads[i]).retain
                &&& reads[i].qos == Qos::AtLeastOnce
                &&& reads[i].not_before_ms == 0
                &&& reads[i].dispatch_token is None
                &&& reads[i].dispatch_operation_index is None
            }),
    decreases n,
{
    if n > 0 {
        lemma_reads_are_fresh(adapter, actions, n - 1);
    }
}

proof fn lemma_commands_are_fresh(
    adapter: Zigbee2MqttAdapter,
    actions: Seq<ReconcileAction>,
    n: int,
)
    ensures
        commands_of(adapter, actions, n) matches Ok(messages) ==> (forall|i: int|
            0 <= i < messages.len() ==> {
                &&& !(#[trigger] messages[i]).retain
                &&& messages[i].qos == Qos::AtLeastOnce
                &&& messages[i].not_before_ms <= MAX_COMMAND_TRANSITION_MS
            }),
    decreases n,
{
    if n > 0 {
        lemma_commands_are_fresh(adapter, actions, n - 1);
        if let ReconcileAction::Command { entity, target, .. } = actions[n - 1] {
            if let Ok(addressee) = addressee(adapter, entity) {
                lemma_payload_offsets(
                    target,
                    addressee.mired_range,
                    addressee.single_transition_attribute,
                );
            }
        }
    }
}

/// What a plan publishes is never retained, is delivered at least once, and is
/// sent within a minute of the plan.
pub proof fn plans_retain_nothing(
    adapter: Zigbee2MqttAdapter,
    epoch: PlanEpoch,
    actions: Seq<ReconcileAction>,
    plan: AdapterPlan,
    i: int,
)
    requires
        reads_of(adapter, actions, actions.len() as int) is Ok,
        commands_of(adapter, actions, actions.len() as int) is Ok,
        planned(adapter, epoch, actions, plan),
        0 <= i < plan.operations@.len(),
    ensures
        plan.operations@[i] matches AdapterOperation::Publish(publication) ==> {
            &&& !publication.retain
            &&& publication.qos == Qos::AtLeastOnce
            &&& publication.not_before_ms <= MAX_COMMAND_TRANSITION_MS
        },
{
    let n = actions.len() as int;
    let reads = reads_of(adapter, actions, n)->Ok_0;
    let all = commands_of(adapter, actions, n)->Ok_0;
    let ordered = phased(all);
    let messages = reads + numbered(ordered);
    let first = plan.operations@.len() - messages.len();
    lemma_reads_are_fresh(adapter, actions, n);
    lemma_commands_are_fresh(adapter, actions, n);
    if i >= first {
        let k = i - first;
        assert(published(plan.operations@[first + k], messages[k]));
        if k >= reads.len() {
            phases_ascend(all);
            ordered.to_multiset_ensures();
            all.to_multiset_ensures();
            let message = ordered[k - reads.len()];
            assert(ordered.contains(message));
            assert(ordered.to_multiset().count(message) > 0);
            assert(all.contains(message));
            let j = all.index_of(message);
            assert(all[j] == message);
        }
    }
}

/// What keeps actions from being planned lies in the configuration and stays.
pub proof fn plans_fail_for_good(
    adapter: Zigbee2MqttAdapter,
    actions: Seq<ReconcileAction>,
    n: int,
)
    ensures
        reads_of(adapter, actions, n) matches Err(fault) ==> fault.permanent,
        commands_of(adapter, actions, n) matches Err(fault) ==> fault.permanent,
    decreases n,
{
    if n > 0 {
        plans_fail_for_good(adapter, actions, n - 1);
    }
}

impl Zigbee2MqttAdapter {
    /// Every device that can set its colour temperature has a mired range, as every
    /// accepted binding does.
    pub open spec fn ranged(self) -> bool {
        forall|k: int|
            0 <= k < self.devices@.len() ==> ((
            #[trigger] self.devices@[k]).capabilities.color_temperature is Some
                ==> self.devices@[k].mired_range is Some)
    }

    /// A message that makes no sense is a passing matter.
    pub proof fn malformed_messages_pass(self, topic: Seq<char>, payload: Seq<u8>, retain: bool)
        requires
            self.ranged(),
        ensures
            self.heard(topic, payload, retain) matches Err(fault) ==> !fault.permanent,
    {
        let d = self.devices@.len() as int;
        lemma_first_of_range(self.state_topics(), d, topic);
        let k = first_of(self.state_topics(), d, topic);
        assert(k < d ==> (self.devices@[k].capabilities.color_temperature is Some
            ==> self.devices@[k].mired_range is Some));
    }
}

/// A gesture that the broker kept is never made again.
pub proof fn kept_gestures_say_nothing(
    adapter: Zigbee2MqttAdapter,
    topic: Seq<char>,
    payload: Seq<u8>,
)
    ensures
        !(adapter.heard(topic, payload, true) matches Ok(Some(Heard::Input { .. }))),
        !(adapter.heard(topic, payload, true) matches Ok(Some(Heard::UnknownInputAction { .. }))),
{
}

/// Puts a publication into its phase.
fn insert_phased(ordered: &mut Vec<Publication>, publication: Publication)
    ensures
        publication_views(final(ordered)@) == publication_views(old(ordered)@).insert(
            phase_place(publication_views(old(ordered)@), publication.not_before_ms),
            publication@,
        ),
{
    let ghost views = publication_views(ordered@);
    let mut p: usize = 0;
    while p < ordered.len() && ordered[p].not_before_ms <= publication.not_before_ms
        invariant
            p <= ordered@.len(),
            views == publication_views(ordered@),
            forall|j: int|
                0 <= j < p ==> (#[trigger] views[j]).not_before_ms <= publication.not_before_ms,
        decreases ordered@.len() - p,
    {
        assert(views[p as int] == ordered@[p as int]@);
        p = p + 1;
    }
    proof {
        if p < ordered@.len() {
            assert(views[p as int] == ordered@[p as int]@);
        }
        lemma_phase_place(views, publication.not_before_ms, p as int);
    }
    ordered.insert(p, publication);
    assert(publication_views(ordered@) =~= views.insert(p as int, publication@));
}

impl Zigbee2MqttAdapter {
    fn read_messages(&self, actions: &Vec<ReconcileAction>) -> (result: Result<
        Vec<Publication>,
        AdapterError,
    >)
        ensures
            match reads_of(*self, actions@, actions@.len() as int) {
                Ok(reads) => result matches Ok(list) && publication_views(list@) == reads,
                Err(fault) => result matches Err(error) && error@ == fault,
            },
    {
        let mut list: Vec<Publication> = Vec::new();
        assert(publication_views(list@) =~= Seq::<PublicationView>::empty());
        let mut i: usize = 0;
        while i < actions.len()
            invariant
                i <= actions@.len(),
                reads_of(*self, actions@, i as int) == Ok::<Seq<PublicationView>, Fault>(
                    publication_views(list@),
                ),
            decreases actions@.len() - i,
        {
            if let ReconcileAction::RequestState(id) = &actions[i] {
                match find_device(&self.devices, self.devices.len(), id) {
                    Some(k) => {
                        let name = self.devices[k].friendly_name.as_str();
                        let publication = Publication {
                            topic: joined(topic_under(&self.base_topic, name), "/get"),
                            payload: read_request(self.devices[k].capabilities),
                            retain: false,
                            qos: Qos::AtLeastOnce,
                            not_before_ms: 0,
                            dispatch_token: None,
                            dispatch_operation_index: None,
                        };
                        let ghost before = publication_views(list@);
                        list.push(publication);
                        assert(publication_views(list@) =~= before.push(publication@));
                    },
                    None => {
                        proof {
                            lemma_reads_fail(*self, actions@, i + 1, actions@.len() as int);
                        }
                        return Err(
                            AdapterError::configuration(
                                joined(String::from_str("unbound device "), id.text.as_str()),
                            ),
                        );
                    },
                }
            }
            i = i + 1;
        }
        Ok(list)
    }

    /// Name, mired range and transition behaviour of an addressee.
    fn address(&self, entity: &CommandEntity) -> (result: Result<
        (String, Option<MiredRange>, bool),
        AdapterError,
    >)
        ensures
            match addressee(*self, *entity) {
                Ok(found) => result matches Ok(parts) && parts.0@ == found.friendly_name
                    && parts.1 == found.mired_range && parts.2
                    == found.single_transition_attribute,
                Err(fault) => result matches Err(error) && error@ == fault,
            },
    {
        match entity {
            CommandEntity::Device(id) => {
                match find_device(&self.devices, self.devices.len(), id) {
                    Some(k) => {
                        let binding = &self.devices[k];
                        Ok(
                            (
                                binding.friendly_name.clone(),
                                binding.mired_range,
                                binding.single_transition_attribute,
                            ),
                        )
                    },
                    None => Err(
                        AdapterError::configuration(
                            joined(String::from_str("unbound device "), id.text.as_str()),
                        ),
                    ),
                }
            },
            CommandEntity::Group(id) => {
                match find_group(&self.groups, self.groups.len(), id) {
                    Some(k) => {
                        let binding = &self.groups[k];
                        Ok(
                            (
                                binding.friendly_name.clone(),
                                binding.mired_range,
                                binding.single_transition_attribute,
                            ),
                        )
                    },
                    None => Err(
                        AdapterError::configuration(
                            joined(String::from_str("unbound group "), id.text.as_str()),
                        ),
                    ),
                }
            },
        }
    }

    /// The publications of one command, in order.
    fn messages(&self, token: DispatchToken, entity: &CommandEntity, target: DeviceTarget) -> (result:
        Result<Vec<Publication>, AdapterError>)
        ensures
            match command_messages(*self, token, *entity, target) {
                Ok(messages) => result matches Ok(list) && publication_views(list@) == messages,
                Err(fault) => result matches Err(error) && error@ == fault,
            },
    {
        let (name, mired_range, single) = match self.address(entity) {
            Ok(parts) => parts,
            Err(error) => return Err(error),
        };
        let mut payloads = match command_payloads(target, mired_range, single) {
            Ok(payloads) => payloads,
            Err(error) => return Err(error),
        };
        let ghost all = timed_views(payloads@);
        if payloads.len() == 0 {
            return Err(
                AdapterError::configuration(
                    joined(
                        joined(String::from_str("command for "), name.as_str()),
                        " has no controllable fields",
                    ),
                ),
            );
        }
        let topic = joined(topic_under(&self.base_topic, name.as_str()), "/set");
        let ghost expected = command_messages(*self, token, *entity, target)->Ok_0;
        let mut list: Vec<Publication> = Vec::new();
        let ghost mut seen = 0int;
        assert(all.skip(0) =~= all);
        while payloads.len() > 0
            invariant
                0 <= seen <= all.len(),
                timed_views(payloads@) == all.skip(seen),
                payloads@.len() == all.len() - seen,
                expected.len() == all.len(),
                forall|k: int|
                    0 <= k < all.len() ==> #[trigger] expected[k] == fresh_publication(
                        topic@,
                        all[k].0,
                        all[k].1,
                        Some(token),
                    ),
                publication_views(list@) == expected.take(seen),
            decreases payloads@.len(),
        {
            let ghost views = timed_views(payloads@);
            let ghost before = publication_views(list@);
            let timed = payloads.remove(0);
            proof {
                assert(views[0] == (timed.payload@, timed.not_before_ms));
                assert(views[0] == all[seen]);
                assert(timed_views(payloads@) =~= views.remove(0));
                assert(views.remove(0) =~= all.skip(seen + 1));
            }
            list.push(
                Publication {
                    topic: topic.clone(),
                    payload: timed.payload,
                    retain: false,
                    qos: Qos::AtLeastOnce,
                    not_before_ms: timed.not_before_ms,
                    dispatch_token: Some(token),
                    dispatch_operation_index: None,
                },
            );
            proof {
                assert(list@.last()@ =~= expected[seen]);
                assert(publication_views(list@) =~= before.push(expected[seen]));
                assert(publication_views(list@) =~= expected.take(seen + 1));
                seen = seen + 1;
            }
        }
        assert(expected.take(expected.len() as int) =~= expected);
        Ok(list)
    }

    /// The publications of all commands by phase.
    fn command_phases(&self, actions: &Vec<ReconcileAction>) -> (result: Result<
        Vec<Publication>,
        AdapterError,
    >)
        ensures
            match commands_of(*self, actions@, actions@.len() as int) {
                Ok(messages) => result matches Ok(list) && publication_views(list@) == phased(
                    messages,
                ),
                Err(fault) => result matches Err(error) && error@ == fault,
            },
    {
        let mut ordered: Vec<Publication> = Vec::new();
        assert(publication_views(ordered@) =~= Seq::<PublicationView>::empty());
        let ghost mut listed = Seq::<PublicationView>::empty();
        let mut i: usize = 0;
        while i < actions.len()
            invariant
                i <= actions@.len(),
                commands_of(*self, actions@, i as int) == Ok::<Seq<PublicationView>, Fault>(listed),
                publication_views(ordered@) == phased(listed),
            decreases actions@.len() - i,
        {
            if let ReconcileAction::Command { token, entity, target } = &actions[i] {
                let mut list = match self.messages(*token, entity, *target) {
                    Ok(list) => list,
                    Err(error) => {
                        proof {
                            lemma_commands_fail(*self, actions@, i + 1, actions@.len() as int);
                        }
                        return Err(error);
                    },
                };
                let ghost more = publication_views(list@);
                let ghost before = listed;
                let ghost mut seen = 0int;
                assert(more.skip(0) =~= more);
                assert(before + more.take(0) =~= before);
                while list.len() > 0
                    invariant
                        0 <= seen <= more.len(),
                        publication_views(list@) == more.skip(seen),
                        list@.len() == more.len() - seen,
                        listed == before + more.take(seen),
                        publication_views(ordered@) == phased(listed),
                    decreases list@.len(),
                {
                    let ghost views = publication_views(list@);
                    let publication = list.remove(0);
                    proof {
                        assert(views[0] == publication@);
                        assert(views[0] == more[seen]);
                        assert(publication_views(list@) =~= views.remove(0));
                        assert(views.remove(0) =~= more.skip(seen + 1));
                        let next = listed.push(more[seen]);
                        assert(next.drop_last() =~= listed);
                        assert(next =~= before + more.take(seen + 1));
                        listed = next;
                        seen = seen + 1;
                    }
                    insert_phased(&mut ordered, publication);
                }
                assert(more.take(more.len() as int) =~= more);
            }
            i = i + 1;
        }
        Ok(ordered)
    }
}

proof fn lemma_reads_fail(
    adapter: Zigbee2MqttAdapter,
    actions: Seq<ReconcileAction>,
    n: int,
    m: int,
)
    requires
        0 <= n <= m,
        reads_of(adapter, actions, n) is Err,
    ensures
        reads_of(adapter, actions, m) == reads_of(adapter, actions, n),
    decreases m - n,
{
    if n < m {
        lemma_reads_fail(adapter, actions, n, m - 1);
    }
}

proof fn lemma_commands_fail(
    adapter: Zigbee2MqttAdapter,
    actions: Seq<ReconcileAction>,
    n: int,
    m: int,
)
    requires
        0 <= n <= m,
        commands_of(adapter, actions, n) is Err,
    ensures
        commands_of(adapter, actions, m) == commands_of(adapter, actions, n),
    decreases m - n,
{
    if n < m {
        lemma_commands_fail(adapter, actions, n, m - 1);
    }
}

proof fn lemma_token_count_bound(
    publications: Seq<PublicationView>,
    n: int,
    token: Option<DispatchToken>,
)
    requires
        0 <= n,
    ensures
        0 <= token_count(publications, n, token) <= n,
    decreases n,
{
    if n > 0 {
        lemma_token_count_bound(publications, n - 1, token);
    }
}

/// Without a publication of its token a summary has nothing to count.
proof fn lemma_token_absent(
    publications: Seq<PublicationView>,
    n: int,
    token: Option<DispatchToken>,
)
    requires
        forall|k: int| 0 <= k < n ==> (#[trigger] publications[k]).dispatch_token != token,
    ensures
        token_count(publications, n, token) == 0,
        token_offset(publications, n, token) == 0,
    decreases n,
{
    if n > 0 {
        lemma_token_absent(publications, n - 1, token);
    }
}

/// Place of a token among ascending plans.
fn plan_place(plans: &Vec<DispatchPlanMetadata>, token: DispatchToken) -> (place: usize)
    ensures
        place <= plans@.len(),
        forall|a: int|
            0 <= a < place ==> (#[trigger] plans@[a]).token.value < token.value,
        place < plans@.len() ==> plans@[place as int].token.value >= token.value,
{
    let mut a: usize = 0;
    while a < plans.len() && plans[a].token.value < token.value
        invariant
            a <= plans@.len(),
            forall|b: int| 0 <= b < a ==> (#[trigger] plans@[b]).token.value < token.value,
        decreases plans@.len() - a,
    {
        a = a + 1;
    }
    a
}

/// Takes one more publication into the summary.
fn summarize(
    plans: &mut Vec<DispatchPlanMetadata>,
    token: DispatchToken,
    offset: u64,
    Ghost(publications): Ghost<Seq<PublicationView>>,
    Ghost(n): Ghost<int>,
) -> (index: usize)
    requires
        0 <= n < publications.len() <= usize::MAX,
        publications[n].dispatch_token == Some(token),
        publications[n].not_before_ms == offset,
        summarized(publications, n, old(plans)@),
        forall|k: int| 0 <= k < n ==> (#[trigger] publications[k]).dispatch_token is Some,
    ensures
        summarized(publications, n + 1, final(plans)@),
        index == token_count(publications, n, Some(token)),
{
    let ghost before = plans@;
    let place: usize = plan_place(plans, token);
    proof {
        lemma_token_count_bound(publications, n, Some(token));
    }
    if place < plans.len() && plans[place].token.value == token.value {
        let entry = plans[place];
        let index: usize = entry.operation_count;
        let max_offset_ms: u64 = if offset > entry.max_offset_ms {
            offset
        } else {
            entry.max_offset_ms
        };
        let next = DispatchPlanMetadata { token, operation_count: index + 1, max_offset_ms };
        plans.set(place, next);
        proof {
            let after = plans@;
            assert forall|a: int, b: int| 0 <= a < b < after.len() implies (
            #[trigger] after[a]).token.value < (#[trigger] after[b]).token.value by {
                assert(before[a].token.value < before[b].token.value);
            }
            assert forall|a: int| 0 <= a < after.len() implies {
                let token = Some((#[trigger] after[a]).token);
                &&& after[a].operation_count == token_count(publications, n + 1, token)
                &&& after[a].operation_count > 0
                &&& after[a].max_offset_ms == token_offset(publications, n + 1, token)
            } by {
                assert(before[a].operation_count == token_count(
                    publications,
                    n,
                    Some(before[a].token),
                ));
                if a != place {
                    assert(before[a].token.value != before[place as int].token.value) by {
                        if a < place {
                            assert(before[a].token.value < before[place as int].token.value);
                        } else {
                            assert(before[place as int].token.value < before[a].token.value);
                        }
                    }
                }
            }
            assert forall|k: int| 0 <= k < n + 1 implies ((
            #[trigger] publications[k]).dispatch_token matches Some(found) ==> exists|a: int|
                0 <= a < after.len() && (#[trigger] after[a]).token == found) by {
                let found = publications[k].dispatch_token->0;
                if k < n {
                    let a = choose|a: int|
                        0 <= a < before.len() && (#[trigger] before[a]).token == found;
                    assert(after[a].token == found);
                } else {
                    assert(after[place as int].token == found);
                }
            }
        }
        return index;
    }
    proof {
        assert forall|k: int| 0 <= k < n implies (#[trigger] publications[k]).dispatch_token
            != Some(token) by {
            if publications[k].dispatch_token == Some(token) {
                let a = choose|a: int|
                    0 <= a < before.len() && (#[trigger] before[a]).token == token;
                if a > place {
                    assert(before[place as int].token.value < before[a].token.value);
                }
            }
        }
        lemma_token_absent(publications, n, Some(token));
    }
    plans.insert(
        place,
        DispatchPlanMetadata { token, operation_count: 1, max_offset_ms: offset },
    );
    proof {
        let after = plans@;
        assert forall|a: int, b: int| 0 <= a < b < after.len() implies (
        #[trigger] after[a]).token.value < (#[trigger] after[b]).token.value by {
            let x = if a < place { a } else { a - 1 };
            let y = if b < place { b } else { b - 1 };
            if a == place {
                assert(after[b] == before[y]);
                if y > place {
                    assert(before[place as int].token.value < before[y].token.value);
                }
            } else if b == place {
                assert(after[a] == before[x]);
            } else {
                assert(after[a] == before[x] && after[b] == before[y]);
            }
        }
        assert forall|a: int| 0 <= a < after.len() implies {
            let token = Some((#[trigger] after[a]).token);
            &&& after[a].operation_count == token_count(publications, n + 1, token)
            &&& after[a].operation_count > 0
            &&& after[a].max_offset_ms == token_offset(publications, n + 1, token)
        } by {
            if a != place {
                let x = if a < place { a } else { a - 1 };
                assert(after[a] == before[x]);
                assert(before[x].token.value != token.value) by {
                    if x > place {
                        assert(before[place as int].token.value < before[x].token.value);
                    }
                }
            }
        }
        assert forall|k: int| 0 <= k < n + 1 implies ((
        #[trigger] publications[k]).dispatch_token matches Some(found) ==> exists|a: int|
            0 <= a < after.len() && (#[trigger] after[a]).token == found) by {
            let found = publications[k].dispatch_token->0;
            if k < n {
                let a = choose|a: int|
                    0 <= a < before.len() && (#[trigger] before[a]).token == found;
                assert(after[if a < place { a } else { a + 1 }].token == found);
            } else {
                assert(after[place as int].token == found);
            }
        }
    }
    0
}

/// Every command publication carries the token of its command.
proof fn lemma_commands_tokens(
    adapter: Zigbee2MqttAdapter,
    actions: Seq<ReconcileAction>,
    n: int,
)
    requires
        commands_of(adapter, actions, n) is Ok,
    ensures
        forall|k: int|
            0 <= k < commands_of(adapter, actions, n)->Ok_0.len() ==> (#[trigger] commands_of(
                adapter,
                actions,
                n,
            )->Ok_0[k]).dispatch_token is Some,
    decreases n,
{
    if n > 0 {
        lemma_commands_tokens(adapter, actions, n - 1);
    }
}

proof fn lemma_phased_tokens(publications: Seq<PublicationView>)
    requires
        forall|k: int|
            0 <= k < publications.len() ==> (#[trigger] publications[k]).dispatch_token is Some,
    ensures
        phased(publications).len() == publications.len(),
        forall|k: int|
            0 <= k < phased(publications).len() ==> (#[trigger] phased(
                publications,
            )[k]).dispatch_token is Some,
    decreases publications.len(),
{
    if publications.len() > 0 {
        let shorter = publications.drop_last();
        let last = publications.last();
        assert forall|k: int| 0 <= k < shorter.len() implies (
        #[trigger] shorter[k]).dispatch_token is Some by {
            assert(shorter[k] == publications[k]);
        }
        lemma_phased_tokens(shorter);
        let rest = phased(shorter);
        lemma_phase_place_range(rest, last.not_before_ms);
        let p = phase_place(rest, last.not_before_ms);
        let all = rest.insert(p, last);
        assert forall|k: int| 0 <= k < all.len() implies (
        #[trigger] all[k]).dispatch_token is Some by {
            if k == p {
                assert(publications[publications.len() - 1] == last);
            } else {
                assert(all[k] == rest[if k < p { k } else { k - 1 }]);
            }
        }
    }
}

impl Zigbee2MqttAdapter {
    pub fn apply_actions(&self, epoch: PlanEpoch, actions: &Vec<ReconcileAction>) -> (result: Result<
        AdapterPlan,
        AdapterError,
    >)
        ensures
            match (
                reads_of(*self, actions@, actions@.len() as int),
                commands_of(*self, actions@, actions@.len() as int),
            ) {
                (Err(fault), _) => result matches Err(error) && error@ == fault,
                (_, Err(fault)) => result matches Err(error) && error@ == fault,
                (Ok(_), Ok(_)) => result matches Ok(plan) && planned(*self, epoch, actions@, plan),
            },
            result matches Err(error) ==> error.permanent,
    {
        proof {
            plans_fail_for_good(*self, actions@, actions@.len() as int);
        }
        let n: usize = actions.len();
        let mut again: bool = false;
        let mut i: usize = 0;
        while i < n
            invariant
                i <= n,
                n == actions@.len(),
                again == (exists|j: int| 0 <= j < i && (#[trigger] actions@[j]) is Resubscribe),
            decreases n - i,
        {
            if let ReconcileAction::Resubscribe = &actions[i] {
                assert(actions@[i as int] is Resubscribe);
                again = true;
            }
            i = i + 1;
        }
        let mut operations: Vec<AdapterOperation> = Vec::new();
        let ghost mut pairs = Seq::<(Topic, Qos)>::empty();
        if again {
            let mut subscriptions = self.subscriptions();
            let ghost all = subscription_pairs(subscriptions@);
            proof {
                pairs = all;
                assert(all.skip(0) =~= all);
            }
            let ghost mut seen = 0int;
            while subscriptions.len() > 0
                invariant
                    0 <= seen <= all.len(),
                    subscription_pairs(subscriptions@) == all.skip(seen),
                    subscriptions@.len() == all.len() - seen,
                    operations@.len() == seen,
                    forall|j: int|
                        0 <= j < seen ==> (#[trigger] operations@[j]) is Subscribe && all[j] == (
                            Topic { text: operations@[j]->Subscribe_0.topic },
                            operations@[j]->Subscribe_0.qos,
                        ),
                decreases subscriptions@.len(),
            {
                let ghost views = subscription_pairs(subscriptions@);
                let subscription = subscriptions.remove(0);
                proof {
                    assert(views[0] == (Topic { text: subscription.topic }, subscription.qos));
                    assert(views[0] == all[seen]);
                    assert(subscription_pairs(subscriptions@) =~= views.remove(0));
                    assert(views.remove(0) =~= all.skip(seen + 1));
                    seen = seen + 1;
                }
                operations.push(AdapterOperation::Subscribe(subscription));
            }
        }
        let ghost first = operations@.len() as int;
        let mut reads = match self.read_messages(actions) {
            Ok(reads) => reads,
            Err(error) => return Err(error),
        };
        let ghost all_reads = publication_views(reads@);
        let ghost mut done = 0int;
        let ghost heads = operations@;
        assert(all_reads.skip(0) =~= all_reads);
        while reads.len() > 0
            invariant
                0 <= done <= all_reads.len(),
                publication_views(reads@) == all_reads.skip(done),
                reads@.len() == all_reads.len() - done,
                operations@.len() == first + done,
                first == heads.len(),
                forall|j: int| 0 <= j < first ==> #[trigger] operations@[j] == heads[j],
                forall|j: int|
                    0 <= j < done ==> published(operations@[first + j], #[trigger] all_reads[j]),
            decreases reads@.len(),
        {
            let ghost views = publication_views(reads@);
            let ghost before = operations@;
            let publication = reads.remove(0);
            operations.push(AdapterOperation::Publish(publication));
            proof {
                assert(views[0] == publication@);
                assert(views[0] == all_reads[done]);
                assert(publication_views(reads@) =~= views.remove(0));
                assert(views.remove(0) =~= all_reads.skip(done + 1));
                assert(operations@[first + done] == AdapterOperation::Publish(publication));
                assert forall|j: int| 0 <= j < done + 1 implies published(
                    operations@[first + j],
                    #[trigger] all_reads[j],
                ) by {
                    if j < done {
                        assert(operations@[first + j] == before[first + j]);
                    }
                }
                done = done + 1;
            }
        }
        let mut commands = match self.command_phases(actions) {
            Ok(commands) => commands,
            Err(error) => return Err(error),
        };
        let ghost ordered = publication_views(commands@);
        let ghost marked = numbered(ordered);
        let ghost middle = operations@;
        proof {
            lemma_commands_tokens(*self, actions@, actions@.len() as int);
            lemma_phased_tokens(commands_of(*self, actions@, actions@.len() as int)->Ok_0);
            assert(ordered.skip(0) =~= ordered);
        }
        let total: usize = commands.len();
        let mut dispatch_plans: Vec<DispatchPlanMetadata> = Vec::new();
        let ghost mut sent = 0int;
        while commands.len() > 0
            invariant
                0 <= sent <= ordered.len(),
                total == ordered.len(),
                marked == numbered(ordered),
                publication_views(commands@) == ordered.skip(sent),
                commands@.len() == ordered.len() - sent,
                middle.len() == first + all_reads.len(),
                operations@.len() == middle.len() + sent,
                forall|j: int| 0 <= j < middle.len() ==> #[trigger] operations@[j] == middle[j],
                forall|j: int|
                    0 <= j < sent ==> published(operations@[middle.len() + j], #[trigger] marked[j]),
                forall|k: int|
                    0 <= k < ordered.len() ==> (#[trigger] ordered[k]).dispatch_token is Some,
                summarized(ordered, sent, dispatch_plans@),
            decreases commands@.len(),
        {
            let ghost views = publication_views(commands@);
            let ghost before = operations@;
            let mut publication = commands.remove(0);
            proof {
                assert(views[0] == publication@);
                assert(views[0] == ordered[sent]);
                assert(publication_views(commands@) =~= views.remove(0));
                assert(views.remove(0) =~= ordered.skip(sent + 1));
            }
            if let Some(token) = publication.dispatch_token {
                let offset: u64 = publication.not_before_ms;
                let index: usize = summarize(
                    &mut dispatch_plans,
                    token,
                    offset,
                    Ghost(ordered),
                    Ghost(sent),
                );
                publication.dispatch_operation_index = Some(index);
            }
            operations.push(AdapterOperation::Publish(publication));
            proof {
                assert(publication@ =~= marked[sent]);
                assert(operations@[middle.len() + sent] == AdapterOperation::Publish(publication));
                assert forall|j: int| 0 <= j < sent + 1 implies published(
                    operations@[middle.len() + j],
                    #[trigger] marked[j],
                ) by {
                    if j < sent {
                        assert(operations@[middle.len() + j] == before[middle.len() + j]);
                    }
                }
                sent = sent + 1;
            }
        }
        let plan = AdapterPlan { epoch, operations, dispatch_plans };
        proof {
            let messages = all_reads + marked;
            assert(plan.operations@.len() - messages.len() == first);
            assert forall|i: int| 0 <= i < messages.len() implies published(
                plan.operations@[first + i],
                #[trigger] messages[i],
            ) by {
                if i < all_reads.len() {
                    assert(messages[i] == all_reads[i]);
                    assert(plan.operations@[first + i] == middle[first + i]);
                } else {
                    assert(messages[i] == marked[i - all_reads.len()]);
                }
            }
            assert forall|i: int| 0 <= i < first implies (
            #[trigger] plan.operations@[i]) is Subscribe by {
                assert(plan.operations@[i] == middle[i]);
                assert(middle[i] == heads[i]);
            }
            if again {
                let listed = Seq::new(
                    first as nat,
                    |i: int|
                        (
                            Topic { text: plan.operations@[i]->Subscribe_0.topic },
                            plan.operations@[i]->Subscribe_0.qos,
                        ),
                );
                assert forall|i: int| 0 <= i < first implies #[trigger] listed[i] == pairs[i] by {
                    assert(plan.operations@[i] == middle[i]);
                    assert(middle[i] == heads[i]);
                }
                assert(listed =~= pairs);
            }
        }
        Ok(plan)
    }
}

} // verus!
