//! Whether the service is fit to work.
use vstd::prelude::*;

verus! {

/// What the health page shows.
#[derive(Debug, Clone, Copy, PartialEq, Eq)]
pub struct HealthSnapshot {
    pub ready: bool,
    pub database_migrated: bool,
    pub mqtt_connected: bool,
    pub zigbee2mqtt_bridge_online: bool,
    pub adapter_available: bool,
    pub last_successful_reconciliation_unix_seconds: Option<i64>,
}

impl HealthSnapshot {
    pub fn ready(&self) -> (ready: bool)
        ensures
            ready == self.ready,
    {
        self.ready
    }

    /// The HTTP status of the health page.
    pub fn status_code(&self) -> (code: u16)
        ensures
            code == if self.ready {
                200
            } else {
                503int
            },
    {
        if self.ready {
            200
        } else {
            503
        }
    }
}

/// What is known of the parts that the service needs.
#[derive(Debug, Clone, Copy, PartialEq, Eq)]
pub struct HealthState {
    pub database_migrated: bool,
    pub mqtt_connected: bool,
    pub bridge_online: bool,
    pub last_successful_reconciliation_unix_seconds: Option<i64>,
}

impl HealthState {
    /// Every part is there.
    pub open spec fn fit(self) -> bool {
        self.database_migrated && self.mqtt_connected && self.bridge_online
    }

    pub fn new() -> (state: Self)
        ensures
            state == (HealthState {
                database_migrated: false,
                mqtt_connected: false,
                bridge_online: false,
                last_successful_reconciliation_unix_seconds: None,
            }),
    {
        HealthState {
            database_migrated: false,
            mqtt_connected: false,
            bridge_online: false,
            last_successful_reconciliation_unix_seconds: None,
        }
    }

    pub fn set_database_migrated(&mut self, value: bool)
        ensures
            *final(self) == (HealthState { database_migrated: value, ..*old(self) }),
    {
        self.database_migrated = value;
    }

    pub fn set_mqtt_connected(&mut self, value: bool)
        ensures
            *final(self) == (HealthState { mqtt_connected: value, ..*old(self) }),
    {
        self.mqtt_connected = value;
    }

    pub fn set_bridge_online(&mut self, value: bool)
        ensures
            *final(self) == (HealthState { bridge_online: value, ..*old(self) }),
    {
        self.bridge_online = value;
    }

    pub fn record_reconciliation(&mut self, unix_seconds: i64)
        ensures
            *final(self) == (HealthState {
                last_successful_reconciliation_unix_seconds: Some(unix_seconds),
                ..*old(self)
            }),
    {
        self.last_successful_reconciliation_unix_seconds = Some(unix_seconds);
    }

    /// The service is ready exactly when every part is there.
    pub fn snapshot(&self) -> (snapshot: HealthSnapshot)
        ensures
            snapshot == (HealthSnapshot {
                ready: self.fit(),
                database_migrated: self.database_migrated,
                mqtt_connected: self.mqtt_connected,
                zigbee2mqtt_bridge_online: self.bridge_online,
                adapter_available: self.bridge_online,
                last_successful_reconciliation_unix_seconds:
                    self.last_successful_reconciliation_unix_seconds,
            }),
    {
        HealthSnapshot {
            ready: self.database_migrated && self.mqtt_connected && self.bridge_online,
            database_migrated: self.database_migrated,
            mqtt_connected: self.mqtt_connected,
            zigbee2mqtt_bridge_online: self.bridge_online,
            adapter_available: self.bridge_online,
            last_successful_reconciliation_unix_seconds:
                self.last_successful_reconciliation_unix_seconds,
        }
    }
}

impl Default for HealthState {
    fn default() -> (state: Self)
        ensures
            state == (HealthState {
                database_migrated: false,
                mqtt_connected: false,
                bridge_online: false,
                last_successful_reconciliation_unix_seconds: None,
            }),
    {
        HealthState::new()
    }
}

} // verus!
