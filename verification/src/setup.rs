//! A whole configuration: from what a file says to what the service runs on.
use crate::config::{
    CircadianSettings, ConfigError, HealthSettings, InputSettings, MqttSettings, Problem,
    RawAcknowledgement, RawCircadian, RawHealth, RawInput, RawLocation, RawMqtt,
    RawReconciliation, RawWholeHour, ReconciliationTiming, ValidatedLocation, WholeHourSettings,
};
use crate::curve::TimeOfDay;
use crate::double::Double;
use crate::input::{AmbiguousHoldWindow, ClickWindow};
use crate::overlay::AcknowledgementSettings;
use crate::reconcile::RetryPolicy;
use crate::solar::TimeZone;
use crate::topology::{
    ControlConfiguration, CurveConfiguration, DeviceConfiguration, GroupConfiguration, Plan,
    RawControl, RawCurve, RawDevice, RawFloor, RawGroup, RawRoom, RawScope, ScopeConfiguration,
};
use crate::zigbee2mqtt::{ControlBinding, DeviceBinding, GroupBinding, Zigbee2MqttAdapter};
use vstd::prelude::*;

verus! {

/// What a configuration file says.
pub struct RawConfig {
    pub schema_version: u32,
    pub location: Option<RawLocation>,
    pub mqtt: RawMqtt,
    pub input: RawInput,
    pub circadian: RawCircadian,
    pub acknowledgement: RawAcknowledgement,
    pub whole_hour: RawWholeHour,
    pub reconciliation: RawReconciliation,
    pub health: RawHealth,
    pub floors: Vec<RawFloor>,
    pub rooms: Vec<RawRoom>,
    pub curves: Vec<RawCurve>,
    pub scopes: Vec<RawScope>,
    pub devices: Vec<RawDevice>,
    pub groups: Vec<RawGroup>,
    pub controls: Vec<RawControl>,
}

/// Typed values that the service runs on.
pub struct RuntimeConfigParts {
    pub time_zone: TimeZone,
    pub mqtt: MqttSettings,
    pub input: InputSettings,
    pub circadian: CircadianSettings,
    pub acknowledgement: AcknowledgementSettings,
    pub acknowledgement_duration_ms: u64,
    pub whole_hour: WholeHourSettings,
    pub retry_policy: RetryPolicy,
    pub reconciliation_timing: ReconciliationTiming,
    pub health: HealthSettings,
    pub curves: Vec<CurveConfiguration>,
    pub scopes: Vec<ScopeConfiguration>,
    pub devices: Vec<DeviceConfiguration>,
    pub groups: Vec<GroupConfiguration>,
    pub controls: Vec<ControlConfiguration>,
    pub zigbee2mqtt: Zigbee2MqttAdapter,
}

pub open spec fn device_bindings(devices: Seq<RawDevice>) -> Seq<DeviceBinding> {
    Seq::new(devices.len(), |i: int| devices[i].bound())
}

pub open spec fn group_bindings(groups: Seq<RawGroup>) -> Seq<GroupBinding> {
    Seq::new(groups.len(), |i: int| groups[i].bound())
}

pub open spec fn control_bindings(controls: Seq<RawControl>) -> Seq<ControlBinding> {
    Seq::new(
        controls.len(),
        |i: int|
            ControlBinding {
                id: crate::state::ControlId { text: controls[i].id },
                friendly_name: controls[i].friendly_name,
            },
    )
}

/// The bindings share a name or a topic, or the topic above them is malformed.
pub open spec fn clash(
    base: Seq<char>,
    devices: Seq<DeviceBinding>,
    groups: Seq<GroupBinding>,
    controls: Seq<ControlBinding>,
) -> bool {
    ||| !crate::zigbee2mqtt::base(base)
    ||| exists|k: int|
        0 <= k < devices.len() && #[trigger] crate::zigbee2mqtt::device_conflict(base, devices, k)
    ||| exists|k: int|
        0 <= k < controls.len() && #[trigger] crate::zigbee2mqtt::control_conflict(
            base,
            devices,
            controls,
            k,
        )
    ||| exists|k: int|
        0 <= k < groups.len() && #[trigger] crate::zigbee2mqtt::group_conflict(
            base,
            devices,
            controls,
            groups,
            k,
        )
}

impl RawConfig {
    pub open spec fn located(self) -> Option<ValidatedLocation> {
        match self.location {
            Some(location) => Some(location.accepted()),
            None => None,
        }
    }

    pub open spec fn plan(self) -> Plan {
        Plan {
            floors: self.floors@,
            rooms: self.rooms@,
            curves: self.curves@,
            devices: self.devices@,
            scopes: self.scopes@,
            controls: self.controls@,
        }
    }

    /// The first problem of the settings that stand by themselves.
    pub open spec fn settings_fault(self) -> Option<Problem> {
        let first = crate::topology::first_of(
            if self.schema_version == 1 {
                None
            } else {
                Some(("schema_version"@, "only schema version 1 is supported"@))
            },
            match self.location {
                Some(location) => location.fault(),
                None => None,
            },
        );
        let second = crate::topology::first_of(first, self.mqtt.fault());
        let third = crate::topology::first_of(second, self.input.fault());
        let fourth = crate::topology::first_of(third, self.circadian.fault());
        let fifth = crate::topology::first_of(fourth, self.acknowledgement.fault());
        let sixth = crate::topology::first_of(fifth, self.whole_hour.fault());
        let seventh = crate::topology::first_of(sixth, self.reconciliation.fault());
        crate::topology::first_of(seventh, self.health.fault())
    }

    /// The first problem of the house itself.
    pub open spec fn house_fault(self) -> Option<Problem> {
        let first = crate::topology::first_of(
            crate::topology::floors_fault(self.floors@),
            crate::topology::rooms_fault(self.rooms@, self.floors@),
        );
        let second = crate::topology::first_of(
            first,
            crate::topology::curves_fault(self.curves@, self.located()),
        );
        let third = crate::topology::first_of(
            second,
            crate::topology::devices_fault(self.devices@, self.rooms@),
        );
        let fourth = crate::topology::first_of(
            third,
            crate::topology::groups_fault(self.groups@, self.devices@),
        );
        let fifth = crate::topology::first_of(fourth, crate::topology::scopes_fault(self.plan()));
        crate::topology::first_of(fifth, crate::topology::controls_fault(self.plan()))
    }

    /// The first problem of the configuration.
    pub open spec fn fault(self) -> Option<Problem> {
        crate::topology::first_of(
            crate::topology::first_of(self.settings_fault(), self.house_fault()),
            if clash(
                self.mqtt.zigbee2mqtt_base_topic@,
                device_bindings(self.devices@),
                group_bindings(self.groups@),
                control_bindings(self.controls@),
            ) {
                Some(
                    (
                        "zigbee2mqtt bindings"@,
                        "names or topics are duplicate, reserved, or malformed"@,
                    ),
                )
            } else {
                None
            },
        )
    }

    /// `parts` are what the configuration says.
    pub open spec fn describes(self, parts: RuntimeConfigParts) -> bool {
        &&& match self.location {
            Some(location) => parts.time_zone.name == location.time_zone,
            None => parts.time_zone.name@ == "Europe/Stockholm"@,
        }
        &&& parts.mqtt == self.mqtt.accepted()
        &&& parts.input == self.input.accepted()
        &&& parts.circadian == self.circadian.accepted()
        &&& Ok::<AcknowledgementSettings, crate::overlay::OverlayError>(parts.acknowledgement)
            == self.acknowledgement.settings()
        &&& parts.acknowledgement_duration_ms == self.acknowledgement.duration_ms
        &&& parts.whole_hour == self.whole_hour.accepted()
        &&& parts.retry_policy == self.reconciliation.accepted()
        &&& parts.reconciliation_timing == self.reconciliation.timing_of()
        &&& parts.health.bind == self.health.bind
        &&& Some(parts.health.address) == self.health.address
        &&& crate::topology::curves_follow(
            self.curves@,
            self.located(),
            parts.curves@,
            self.curves@.len() as int,
        )
        &&& crate::topology::scopes_follow(
            self.scopes@,
            parts.scopes@,
            self.scopes@.len() as int,
        )
        &&& crate::topology::devices_follow(
            self.devices@,
            self.rooms@,
            parts.devices@,
            self.devices@.len() as int,
        )
        &&& crate::topology::groups_follow(
            self.groups@,
            parts.groups@,
            self.groups@.len() as int,
        )
        &&& crate::topology::controls_follow(
            self.controls@,
            self.scopes@,
            parts.controls@,
            self.controls@.len() as int,
        )
        &&& parts.zigbee2mqtt.base_topic == self.mqtt.zigbee2mqtt_base_topic
        &&& parts.zigbee2mqtt.devices@ == device_bindings(self.devices@)
        &&& parts.zigbee2mqtt.groups@ == group_bindings(self.groups@)
        &&& parts.zigbee2mqtt.controls@ == control_bindings(self.controls@)
    }

    pub fn validate(self) -> (result: Result<RuntimeConfigParts, ConfigError>)
        ensures
            crate::config::answers(result, self.fault()),
            result matches Ok(parts) ==> self.describes(parts) && parts.wf(),
    {
        if self.schema_version != 1 {
            return Err(
                ConfigError::validation("schema_version", "only schema version 1 is supported"),
            );
        }
        let ghost plan = self.plan();
        let location = match self.location {
            Some(location) => match location.validate() {
                Ok(location) => Some(location),
                Err(error) => return Err(error),
            },
            None => None,
        };
        let time_zone = match &location {
            Some(location) => location.time_zone.clone(),
            None => TimeZone::stockholm(),
        };
        let base_topic = self.mqtt.zigbee2mqtt_base_topic.clone();
        let mqtt = match self.mqtt.validate() {
            Ok(mqtt) => mqtt,
            Err(error) => return Err(error),
        };
        let input = match self.input.validate() {
            Ok(input) => input,
            Err(error) => return Err(error),
        };
        let circadian = match self.circadian.validate() {
            Ok(circadian) => circadian,
            Err(error) => return Err(error),
        };
        let acknowledgement_duration_ms: u64 = self.acknowledgement.duration_ms;
        let acknowledgement = match self.acknowledgement.validate() {
            Ok(acknowledgement) => acknowledgement,
            Err(error) => return Err(error),
        };
        let whole_hour = match self.whole_hour.validate() {
            Ok(whole_hour) => whole_hour,
            Err(error) => return Err(error),
        };
        let reconciliation_timing = self.reconciliation.timing();
        let retry_policy = match self.reconciliation.validate() {
            Ok(policy) => policy,
            Err(error) => return Err(error),
        };
        let health = match self.health.validate() {
            Ok(health) => health,
            Err(error) => return Err(error),
        };
        assert(self.settings_fault() is None);
        match crate::topology::validate_floors(&self.floors) {
            Ok(()) => {},
            Err(error) => return Err(error),
        }
        match crate::topology::validate_rooms(&self.rooms, &self.floors) {
            Ok(()) => {},
            Err(error) => return Err(error),
        }
        let curves = match crate::topology::validate_curves(&self.curves, &location) {
            Ok(curves) => curves,
            Err(error) => return Err(error),
        };
        let devices = match crate::topology::validate_devices(&self.devices, &self.rooms) {
            Ok(devices) => devices,
            Err(error) => return Err(error),
        };
        proof {
            crate::topology::lemma_devices_are_equipped(self.devices@, self.rooms@);
        }
        let groups = match crate::topology::validate_groups(&self.groups, &self.devices) {
            Ok(groups) => groups,
            Err(error) => return Err(error),
        };
        let scopes = match crate::topology::validate_scopes(
            &self.scopes,
            &self.floors,
            &self.rooms,
            &self.curves,
            &devices,
            Ghost(plan),
        ) {
            Ok(scopes) => scopes,
            Err(error) => return Err(error),
        };
        let controls = match crate::topology::validate_controls(
            &self.controls,
            &self.scopes,
            &self.devices,
            &devices,
            Ghost(plan),
        ) {
            Ok(controls) => controls,
            Err(error) => return Err(error),
        };
        assert(self.house_fault() is None);
        let bound_devices = bind_devices(&devices, Ghost(self.devices@), Ghost(self.rooms@));
        let bound_groups = bind_groups(&groups, Ghost(self.groups@));
        let bound_controls = bind_controls(&controls, Ghost(self.controls@), Ghost(self.scopes@));
        let zigbee2mqtt = match Zigbee2MqttAdapter::new(
            base_topic,
            bound_devices,
            bound_groups,
            bound_controls,
        ) {
            Ok(adapter) => {
                proof {
                    let base = adapter.base_topic@;
                    assert forall|k: int| 0 <= k < adapter.devices@.len() implies
                        !#[trigger] crate::zigbee2mqtt::device_conflict(
                        base,
                        adapter.devices@,
                        k,
                    ) by {
                        let binding = adapter.devices@[k];
                    }
                    assert forall|k: int| 0 <= k < adapter.controls@.len() implies
                        !#[trigger] crate::zigbee2mqtt::control_conflict(
                        base,
                        adapter.devices@,
                        adapter.controls@,
                        k,
                    ) by {
                        let binding = adapter.controls@[k];
                    }
                    assert forall|k: int| 0 <= k < adapter.groups@.len() implies
                        !#[trigger] crate::zigbee2mqtt::group_conflict(
                        base,
                        adapter.devices@,
                        adapter.controls@,
                        adapter.groups@,
                        k,
                    ) by {
                        let binding = adapter.groups@[k];
                    }
                }
                adapter
            },
            Err(_) => return Err(
                ConfigError::validation(
                    "zigbee2mqtt bindings",
                    "names or topics are duplicate, reserved, or malformed",
                ),
            ),
        };
        Ok(
            RuntimeConfigParts {
                time_zone,
                mqtt,
                input,
                circadian,
                acknowledgement,
                acknowledgement_duration_ms,
                whole_hour,
                retry_policy,
                reconciliation_timing,
                health,
                curves,
                scopes,
                devices,
                groups,
                controls,
                zigbee2mqtt,
            },
        )
    }
}

fn bind_devices(
    configurations: &Vec<DeviceConfiguration>,
    Ghost(devices): Ghost<Seq<RawDevice>>,
    Ghost(rooms): Ghost<Seq<RawRoom>>,
) -> (bindings: Vec<DeviceBinding>)
    requires
        crate::topology::devices_follow(
            devices,
            rooms,
            configurations@,
            devices.len() as int,
        ),
    ensures
        bindings@ == device_bindings(devices),
{
    let mut bindings: Vec<DeviceBinding> = Vec::new();
    let mut i: usize = 0;
    while i < configurations.len()
        invariant
            i <= configurations@.len(),
            crate::topology::devices_follow(
                devices,
                rooms,
                configurations@,
                devices.len() as int,
            ),
            bindings@ == device_bindings(devices).take(i as int),
        decreases configurations@.len() - i,
    {
        assert(devices[i as int].configures(rooms, configurations@[i as int]));
        bindings.push(configurations[i].binding.clone());
        i = i + 1;
        assert(bindings@ =~= device_bindings(devices).take(i as int));
    }
    assert(bindings@ =~= device_bindings(devices));
    bindings
}

fn bind_groups(
    configurations: &Vec<GroupConfiguration>,
    Ghost(groups): Ghost<Seq<RawGroup>>,
) -> (bindings: Vec<GroupBinding>)
    requires
        crate::topology::groups_follow(groups, configurations@, groups.len() as int),
    ensures
        bindings@ == group_bindings(groups),
{
    let mut bindings: Vec<GroupBinding> = Vec::new();
    let mut i: usize = 0;
    while i < configurations.len()
        invariant
            i <= configurations@.len(),
            crate::topology::groups_follow(groups, configurations@, groups.len() as int),
            bindings@ == group_bindings(groups).take(i as int),
        decreases configurations@.len() - i,
    {
        assert(groups[i as int].configures(configurations@[i as int]));
        bindings.push(configurations[i].binding.clone());
        i = i + 1;
        assert(bindings@ =~= group_bindings(groups).take(i as int));
    }
    assert(bindings@ =~= group_bindings(groups));
    bindings
}

fn bind_controls(
    configurations: &Vec<ControlConfiguration>,
    Ghost(controls): Ghost<Seq<RawControl>>,
    Ghost(scopes): Ghost<Seq<RawScope>>,
) -> (bindings: Vec<ControlBinding>)
    requires
        crate::topology::controls_follow(
            controls,
            scopes,
            configurations@,
            controls.len() as int,
        ),
    ensures
        bindings@ == control_bindings(controls),
{
    let mut bindings: Vec<ControlBinding> = Vec::new();
    let mut i: usize = 0;
    while i < configurations.len()
        invariant
            i <= configurations@.len(),
            crate::topology::controls_follow(
                controls,
                scopes,
                configurations@,
                controls.len() as int,
            ),
            bindings@ == control_bindings(controls).take(i as int),
        decreases configurations@.len() - i,
    {
        assert(controls[i as int].configures(scopes, configurations@[i as int]));
        bindings.push(configurations[i].binding.clone());
        i = i + 1;
        assert(bindings@ =~= control_bindings(controls).take(i as int));
    }
    assert(bindings@ =~= control_bindings(controls));
    bindings
}

impl RuntimeConfigParts {
    /// The parts fit together.
    pub open spec fn wf(self) -> bool {
        &&& self.circadian.daily_reset_time.wf()
        &&& self.acknowledgement.wf()
        &&& self.retry_policy.wf()
        &&& self.zigbee2mqtt.wf()
        &&& forall|i: int| 0 <= i < self.curves@.len() ==> (#[trigger] self.curves@[i]).schedule.wf()
        &&& forall|i: int|
            0 <= i < self.controls@.len() ==> (#[trigger] self.controls@[i]).mapping.wf()
        &&& forall|i: int|
            0 <= i < self.groups@.len() ==> (#[trigger] self.groups@[i]).definition.wf()
    }
}

/// A configuration that has been accepted.
pub struct ValidatedConfig {
    pub parts: RuntimeConfigParts,
}

impl ValidatedConfig {
    /// Accepts a configuration text of at most one mebibyte; `parsed` is what the
    /// text reads as, or the first byte that was not understood.
    pub fn parse(input: &str, parsed: Result<RawConfig, Option<usize>>) -> (result: Result<
        Self,
        ConfigError,
    >)
        ensures
            if crate::text::bytes_of(input@).len() > crate::config::MAX_CONFIG_BYTES {
                result matches Err(error) && error == (ConfigError::TooLarge {
                    maximum_bytes: crate::config::MAX_CONFIG_BYTES,
                })
            } else {
                match parsed {
                    Ok(raw) => {
                        &&& crate::config::answers(result, raw.fault())
                        &&& result matches Ok(config) ==> raw.describes(config.parts)
                            && config.parts.wf()
                    },
                    Err(offset) => result matches Err(ConfigError::Parse { line, column })
                        && match offset {
                        Some(offset) => {
                            let before = crate::config::bytes_before(input@, offset);
                            line == crate::config::line_ends(before) + 1 && column
                                == crate::config::last_line(before) + 1
                        },
                        None => line == 0 && column == 0,
                    },
                }
            },
    {
        match crate::config::accept_size(input) {
            Ok(()) => {},
            Err(error) => return Err(error),
        }
        match parsed {
            Ok(raw) => match raw.validate() {
                Ok(parts) => Ok(ValidatedConfig { parts }),
                Err(error) => Err(error),
            },
            Err(offset) => Err(crate::config::parse_failure(input, offset)),
        }
    }

    pub fn application_namespace(&self) -> (namespace: &str)
        ensures
            namespace@ == self.parts.mqtt.application_namespace@,
    {
        self.parts.mqtt.application_namespace.as_str()
    }

    pub fn double_click_window(&self) -> (window: ClickWindow)
        ensures
            window == self.parts.input.double_click_window,
    {
        self.parts.input.double_click_window
    }

    pub fn ambiguous_hold_window(&self) -> (window: AmbiguousHoldWindow)
        ensures
            window == self.parts.input.ambiguous_hold_window,
    {
        self.parts.input.ambiguous_hold_window
    }

    pub fn daily_reset_time(&self) -> (time: TimeOfDay)
        ensures
            time == self.parts.circadian.daily_reset_time,
    {
        self.parts.circadian.daily_reset_time
    }

    pub fn convergence_duration_seconds(&self) -> (seconds: Double)
        ensures
            seconds == self.parts.circadian.convergence_duration_seconds,
    {
        self.parts.circadian.convergence_duration_seconds
    }

    pub fn whole_hour_duration_ms(&self) -> (milliseconds: u64)
        ensures
            milliseconds == self.parts.whole_hour.duration_ms,
    {
        self.parts.whole_hour.duration_ms
    }

    pub fn device_count(&self) -> (count: usize)
        ensures
            count == self.parts.devices@.len(),
    {
        self.parts.devices.len()
    }

    pub fn control_count(&self) -> (count: usize)
        ensures
            count == self.parts.controls@.len(),
    {
        self.parts.controls.len()
    }

    pub fn into_runtime_parts(self) -> (parts: RuntimeConfigParts)
        ensures
            parts == self.parts,
    {
        self.parts
    }
}

impl RawConfig {
    proof fn lemma_sections(self)
        requires
            self.fault() is None,
        ensures
            self.input.fault() is None,
            self.circadian.fault() is None,
            self.acknowledgement.fault() is None,
            self.whole_hour.fault() is None,
            self.reconciliation.fault() is None,
    {
    }

    /// Every timer of a configuration without a problem is practical: it lasts some
    /// time, and no longer than its ceiling.
    pub proof fn accepted_timers_are_practical(self)
        requires
            self.fault() is None,
        ensures
            crate::config::between(
                self.circadian.unfreeze_convergence_seconds,
                crate::config::MIN_OPERATIONAL_DURATION_SECONDS,
                crate::config::MAX_UNFREEZE_CONVERGENCE_SECONDS,
            ),
            crate::config::between(
                self.circadian.tick_seconds,
                crate::config::MIN_OPERATIONAL_DURATION_SECONDS,
                crate::config::MAX_SPARSE_TICK_SECONDS,
            ),
            crate::config::between(
                self.circadian.maximum_refresh_seconds,
                crate::config::MIN_OPERATIONAL_DURATION_SECONDS,
                crate::config::MAX_SPARSE_REFRESH_SECONDS,
            ),
            crate::config::between(
                self.reconciliation.retry_interval_seconds,
                crate::config::MIN_OPERATIONAL_DURATION_SECONDS,
                crate::config::MAX_RECONCILE_RETRY_INTERVAL_SECONDS,
            ),
            crate::config::between(
                self.reconciliation.dispatch_acceptance_margin_seconds,
                crate::config::MIN_OPERATIONAL_DURATION_SECONDS,
                crate::config::MAX_DISPATCH_ACCEPTANCE_MARGIN_SECONDS,
            ),
            crate::config::between(
                self.reconciliation.dispatch_failure_backoff_seconds,
                crate::config::MIN_OPERATIONAL_DURATION_SECONDS,
                crate::config::MAX_DISPATCH_FAILURE_BACKOFF_SECONDS,
            ),
            0 < self.input.double_click_window_ms <= crate::config::MAX_DOUBLE_CLICK_WINDOW_MS,
            0 < self.input.ambiguous_center_hold_window_ms
                <= crate::config::MAX_AMBIGUOUS_HOLD_WINDOW_MS,
            0 < self.acknowledgement.duration_ms
                <= crate::config::MAX_ACKNOWLEDGEMENT_DURATION_MS,
            0 < self.whole_hour.duration_ms <= crate::config::MAX_WHOLE_HOUR_DURATION_MS,
    {
        self.lemma_sections();
        self.circadian.timers_are_practical();
        self.reconciliation.timers_are_practical();
    }

    /// In a configuration without a problem no device belongs to two groups, or to
    /// one group twice.
    pub proof fn groups_share_no_device(self, g: int, m: int, h: int, n: int)
        requires
            self.fault() is None,
            0 <= g <= h < self.groups@.len(),
            0 <= m < self.groups@[g].members@.len(),
            0 <= n < self.groups@[h].members@.len(),
            g < h || m < n,
        ensures
            self.groups@[g].members@[m]@ != self.groups@[h].members@[n]@,
    {
        let groups = self.groups@;
        let devices = self.devices@;
        let faults = crate::topology::group_faults(groups, devices);
        crate::topology::lemma_no_problem(groups.len() as int, h, faults);
        assert(faults(h) == crate::topology::group_fault(groups, devices, h));
        let members = crate::topology::member_faults(groups, devices, h);
        crate::topology::lemma_no_problem(groups[h].members@.len() as int, n, members);
        assert(members(n) == crate::topology::member_fault(groups, devices, h, n));
        let name = groups[g].members@[m]@;
        if name == groups[h].members@[n]@ {
            if g < h {
                assert(crate::text::among(groups[g].members@, name));
                assert(crate::topology::assigned(groups, h, name));
            } else {
                assert(crate::topology::among_first(groups[h].members@, n, name));
            }
        }
    }

    /// In a configuration without a problem no two devices have the same name, nor
    /// does one have the alias of another before it.
    pub proof fn devices_are_named_apart(self, i: int, j: int)
        requires
            self.fault() is None,
            0 <= i < j < self.devices@.len(),
        ensures
            self.devices@[i].id@ != self.devices@[j].id@,
            !crate::text::among(self.devices@[i].aliases@, self.devices@[j].id@),
    {
        let devices = self.devices@;
        let faults = crate::topology::device_faults(devices, self.rooms@);
        crate::topology::lemma_no_problem(devices.len() as int, j, faults);
        assert(faults(j) == crate::topology::device_fault(devices, self.rooms@, j));
        assert(!crate::topology::device_named(devices, j, devices[j].id@));
    }

    /// In a configuration without a problem every scope has a light.
    pub proof fn scopes_are_lit(self, k: int)
        requires
            self.fault() is None,
            0 <= k < self.scopes@.len(),
        ensures
            crate::topology::lit(self.devices@, self.rooms@, self.scopes@[k].resolved()),
            crate::topology::has_curve(
                self.curves@,
                self.curves@.len() as int,
                self.scopes@[k].curve()@,
            ),
    {
        let plan = self.plan();
        let faults = crate::topology::scope_faults(plan);
        crate::topology::lemma_no_problem(plan.scopes.len() as int, k, faults);
        assert(faults(k) == crate::topology::scope_fault(plan, k));
    }

    /// In a configuration without a problem the service and the lights talk below
    /// different topics.
    pub proof fn namespaces_are_apart(self)
        requires
            self.fault() is None,
        ensures
            !crate::config::overlapping(
                self.mqtt.application_namespace@,
                self.mqtt.zigbee2mqtt_base_topic@,
            ),
    {
        assert(self.mqtt.fault() is None);
    }
}

} // verus!
