//! What may be shown in a log of values that hold secrets or raw payloads.
use crate::config::{MqttCredentialSource, MqttSettings};
use crate::message::{digits, joined};
use crate::mqtt::{MqttCredentials, OwnedInboundMessage, TransportEvent};
use crate::setup::ValidatedConfig;
use crate::zigbee2mqtt::Qos;
use vstd::prelude::*;
use vstd::string::*;

verus! {

/// What `Debug` of `str` writes for a text: the text in quotes, escaped.
pub uninterp spec fn quoted_text(text: Seq<char>) -> Seq<char>;

/// Writes a text with `Debug` of `str`, which goes by the text alone.
#[verifier::external_body]
fn quoted(text: &str) -> (result: String)
    ensures
        result@ == quoted_text(text@),
{
    format!("{text:?}")
}

pub open spec fn flag_text(value: bool) -> Seq<char> {
    if value {
        "true"@
    } else {
        "false"@
    }
}

fn flag(value: bool) -> (text: &'static str)
    ensures
        text@ == flag_text(value),
{
    if value {
        "true"
    } else {
        "false"
    }
}

impl Qos {
    pub open spec fn name_text(self) -> Seq<char> {
        match self {
            Qos::AtMostOnce => "AtMostOnce"@,
            Qos::AtLeastOnce => "AtLeastOnce"@,
            Qos::ExactlyOnce => "ExactlyOnce"@,
        }
    }

    fn name(self) -> (text: &'static str)
        ensures
            text@ == self.name_text(),
    {
        match self {
            Qos::AtMostOnce => "AtMostOnce",
            Qos::AtLeastOnce => "AtLeastOnce",
            Qos::ExactlyOnce => "ExactlyOnce",
        }
    }
}

impl OwnedInboundMessage {
    /// The message without its payload.
    pub open spec fn shown(self) -> Seq<char> {
        "OwnedInboundMessage { topic: "@ + quoted_text(self.topic@)
            + ", payload: \"<redacted>\", retain: "@ + flag_text(self.retain) + ", duplicate: "@
            + flag_text(self.duplicate) + ", qos: "@ + self.qos.name_text() + " }"@
    }

    /// The message for a log: everything but the payload.
    pub fn redacted(&self) -> (text: String)
        ensures
            text@ == self.shown(),
    {
        let mut text = String::from_str("OwnedInboundMessage { topic: ");
        text = joined(text, quoted(self.topic.as_str()).as_str());
        text = joined(text, ", payload: \"<redacted>\", retain: ");
        text = joined(text, flag(self.retain));
        text = joined(text, ", duplicate: ");
        text = joined(text, flag(self.duplicate));
        text = joined(text, ", qos: ");
        text = joined(text, self.qos.name());
        joined(text, " }")
    }

    /// What is shown of a message tells nothing of its payload.
    pub proof fn payloads_are_not_shown(self, other: OwnedInboundMessage)
        requires
            self.topic@ == other.topic@,
            self.retain == other.retain,
            self.duplicate == other.duplicate,
            self.qos == other.qos,
        ensures
            self.shown() == other.shown(),
    {
    }
}

impl TransportEvent {
    /// The event without a payload.
    pub open spec fn shown(self) -> Seq<char> {
        match self {
            TransportEvent::Connected => "Connected"@,
            TransportEvent::Disconnected => "Disconnected"@,
            TransportEvent::Publish(message) => "Publish("@ + message.shown() + ")"@,
        }
    }

    /// The event for a log: everything but a payload.
    pub fn redacted(&self) -> (text: String)
        ensures
            text@ == self.shown(),
    {
        match self {
            TransportEvent::Connected => String::from_str("Connected"),
            TransportEvent::Disconnected => String::from_str("Disconnected"),
            TransportEvent::Publish(message) => joined(
                joined(String::from_str("Publish("), message.redacted().as_str()),
                ")",
            ),
        }
    }
}

impl MqttCredentials {
    /// That there are credentials, for a log.
    pub fn redacted(&self) -> (text: String)
        ensures
            text@ == "MqttCredentials(<redacted>)"@,
    {
        String::from_str("MqttCredentials(<redacted>)")
    }
}

impl MqttCredentialSource {
    /// That credentials come from somewhere, for a log.
    pub fn redacted(&self) -> (text: String)
        ensures
            text@ == "MqttCredentialSource(<redacted>)"@,
    {
        String::from_str("MqttCredentialSource(<redacted>)")
    }
}

impl MqttSettings {
    /// The settings without names, topics and where the credentials are.
    pub open spec fn shown(self) -> Seq<char> {
        "MqttSettings { host: \"<redacted>\", port: "@ + crate::message::decimal(self.port as nat)
            + ", client_id: \"<redacted>\", application_namespace: \"<redacted>\", zigbee2mqtt_base_topic: \"<redacted>\", credentials: "@
            + (if self.credentials is Some {
            "Some(\"<redacted>\")"@
        } else {
            "None"@
        }) + " }"@
    }

    /// The settings for a log: the port, and whether there are credentials.
    pub fn redacted(&self) -> (text: String)
        ensures
            text@ == self.shown(),
    {
        let credentials = if self.credentials.is_some() {
            "Some(\"<redacted>\")"
        } else {
            "None"
        };
        let mut text = String::from_str("MqttSettings { host: \"<redacted>\", port: ");
        text = joined(text, digits(self.port as u64).as_str());
        text = joined(
            text,
            ", client_id: \"<redacted>\", application_namespace: \"<redacted>\", zigbee2mqtt_base_topic: \"<redacted>\", credentials: ",
        );
        text = joined(text, credentials);
        joined(text, " }")
    }
}

impl ValidatedConfig {
    /// The configuration without what it says of broker, house and credentials.
    pub open spec fn shown(self) -> Seq<char> {
        "ValidatedConfig { schema_version: 1, mqtt: \"<redacted>\", topology: \"<redacted>\", credential_source: \"<redacted>\", health_is_loopback: "@
            + flag_text(self.parts.health.address.loopback) + " }"@
    }

    /// The configuration for a log: whether health is served to this machine only.
    pub fn redacted(&self) -> (text: String)
        ensures
            text@ == self.shown(),
    {
        let text = String::from_str(
            "ValidatedConfig { schema_version: 1, mqtt: \"<redacted>\", topology: \"<redacted>\", credential_source: \"<redacted>\", health_is_loopback: ",
        );
        joined(joined(text, flag(self.parts.health.address.loopback)), " }")
    }
}

} // verus!
