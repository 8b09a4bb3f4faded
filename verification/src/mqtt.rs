//! The broker's side: credentials, status topic, delivery tracking and
//! reconnection.
use crate::config::{MqttCredentialSource, MqttSettings};
use crate::text;
use crate::zigbee2mqtt::{InboundMessage, Qos};
use vstd::prelude::*;
use vstd::string::*;

verus! {

/// A path segment that names something.
pub open spec fn names_something(segment: Seq<char>) -> bool {
    segment.len() > 0 && segment != "."@
}

/// The segments of a path that name something.
pub open spec fn meaningful(segments: Seq<Seq<char>>) -> Seq<Seq<char>>
    decreases segments.len(),
{
    if segments.len() == 0 {
        Seq::empty()
    } else {
        let before = meaningful(segments.drop_last());
        if names_something(segments.last()) {
            before.push(segments.last())
        } else {
            before
        }
    }
}

pub open spec fn absolute(path: Seq<char>) -> bool {
    path.len() > 0 && path[0] == '/'
}

/// The path leads into `/nix/store`, read segment by segment.
pub open spec fn in_nix_store(path: Seq<char>) -> bool {
    let components = meaningful(text::pieces(path, '/'));
    absolute(path) && components.len() >= 2 && components[0] == "nix"@ && components[1] == "store"@
}

pub fn is_absolute(path: &str) -> (result: bool)
    ensures
        result == absolute(path@),
{
    let chars = text::characters(path);
    chars.len() > 0 && chars[0] == '/'
}

pub fn is_in_nix_store(path: &str) -> (result: bool)
    ensures
        result == in_nix_store(path@),
{
    let segments = text::split(path, '/');
    let ghost views = text::views(segments@);
    let mut components: Vec<String> = Vec::new();
    let mut i: usize = 0;
    assert(views.take(0) =~= Seq::<Seq<char>>::empty());
    assert(text::views(components@) =~= Seq::<Seq<char>>::empty());
    while i < segments.len()
        invariant
            i <= segments@.len(),
            views == text::views(segments@),
            text::views(components@) == meaningful(views.take(i as int)),
        decreases segments@.len() - i,
    {
        let segment = segments[i].as_str();
        let ghost before = text::views(components@);
        proof {
            assert(views.take(i + 1).drop_last() =~= views.take(i as int));
            assert(views.take(i + 1).last() == segment@);
        }
        if segment.as_bytes().len() > 0 && !text::text_equals(segment, ".") {
            proof {
                lemma_empty_bytes(segment@);
            }
            components.push(segments[i].clone());
            assert(text::views(components@) =~= before.push(segment@));
        } else {
            proof {
                lemma_empty_bytes(segment@);
            }
        }
        i = i + 1;
    }
    assert(views.take(i as int) =~= views);
    if !is_absolute(path) || components.len() < 2 {
        return false;
    }
    assert(text::views(components@)[0] == components@[0]@);
    assert(text::views(components@)[1] == components@[1]@);
    text::text_equals(components[0].as_str(), "nix") && text::text_equals(
        components[1].as_str(),
        "store",
    )
}

proof fn lemma_empty_bytes(segment: Seq<char>)
    ensures
        (text::bytes_of(segment).len() > 0) == (segment.len() > 0),
{
    if segment.len() > 0 {
        if text::bytes_of(segment).len() == 0 {
            assert(text::bytes_of(segment) =~= text::bytes_of(Seq::empty()));
            text::bytes_injective(segment, Seq::empty());
        }
    } else {
        assert(segment =~= Seq::empty());
    }
}

/// Credentials never come from the world-readable store.
pub fn path_is_outside_nix_store(path: &str) -> (result: bool)
    ensures
        result == (absolute(path@) && !in_nix_store(path@)),
{
    is_absolute(path) && !is_in_nix_store(path)
}

/// What went wrong with the broker.
#[derive(Debug, Clone, Copy, PartialEq, Eq, Structural)]
pub enum MqttErrorKind {
    Credential,
    Transport,
    Fatal,
}

#[derive(Debug, Clone, PartialEq, Eq)]
pub struct MqttError {
    pub kind: MqttErrorKind,
    pub message: &'static str,
}

impl MqttError {
    pub fn credential(message: &'static str) -> (error: Self)
        ensures
            error.kind is Credential,
            error.message@ == message@,
    {
        MqttError { kind: MqttErrorKind::Credential, message }
    }

    pub fn transport(message: &'static str) -> (error: Self)
        ensures
            error.kind is Transport,
            error.message@ == message@,
    {
        MqttError { kind: MqttErrorKind::Transport, message }
    }

    pub fn fatal(message: &'static str) -> (error: Self)
        ensures
            error.kind is Fatal,
            error.message@ == message@,
    {
        MqttError { kind: MqttErrorKind::Fatal, message }
    }

    /// The connection may come back.
    pub fn is_transient(&self) -> (transient: bool)
        ensures
            transient == (self.kind is Transport),
    {
        self.kind == MqttErrorKind::Transport
    }

    pub fn message(&self) -> (text: &'static str)
        ensures
            text@ == self.message@,
    {
        self.message
    }
}

/// `result` is a credential error with these words.
pub open spec fn rejects<T>(result: Result<T, MqttError>, reason: Seq<char>) -> bool {
    result matches Err(error) && error.kind is Credential && error.message@ == reason
}

/// Where the service announces whether it is there.
pub fn status_topic(namespace: &str) -> (topic: String)
    ensures
        topic@ == namespace@ + "/status"@,
{
    let mut topic = String::from_str(namespace);
    topic.append("/status");
    topic
}

/// A message as it came from the broker.
#[derive(PartialEq, Eq)]
pub struct OwnedInboundMessage {
    pub topic: String,
    pub payload: Vec<u8>,
    pub retain: bool,
    pub duplicate: bool,
    pub qos: Qos,
}

impl OwnedInboundMessage {
    pub fn as_inbound(&self) -> (message: InboundMessage<'_>)
        ensures
            message.topic@ == self.topic@,
            message.payload@ == self.payload@,
            message.retain == self.retain,
            message.duplicate == self.duplicate,
            message.qos == self.qos,
    {
        InboundMessage::new(
            self.topic.as_str(),
            self.payload.as_slice(),
            self.retain,
            self.duplicate,
            self.qos,
        )
    }
}

/// What the broker's side reports.
#[derive(PartialEq, Eq)]
pub enum TransportEvent {
    Connected,
    Disconnected,
    Publish(OwnedInboundMessage),
}

// Credentials.

/// Longest credential file in bytes.
pub const MAX_CREDENTIAL_FILE_BYTES: u64 = 65_536;

/// Longest credential in bytes.
pub const MAX_CREDENTIAL_VALUE_BYTES: usize = 16_384;

/// Permissions of a file for others than its owner.
pub const SHARED_PERMISSIONS: u32 = 63;

/// A user name and a password for the broker.
pub struct MqttCredentials {
    pub username: String,
    pub password: String,
}

impl MqttCredentials {
    pub fn username(&self) -> (text: &str)
        ensures
            text@ == self.username@,
    {
        self.username.as_str()
    }

    pub fn password(&self) -> (text: &str)
        ensures
            text@ == self.password@,
    {
        self.password.as_str()
    }
}

// Connecting.

/// Seconds after which a silent connection is tried.
pub const KEEP_ALIVE_SECONDS: u64 = 30;

/// What the broker announces when the service is lost.
pub struct LastWill {
    pub topic: String,
    pub message: &'static str,
    pub qos: Qos,
    pub retain: bool,
}

/// How the service connects to the broker.
pub struct MqttOptions {
    pub client_id: String,
    pub host: String,
    pub port: u16,
    pub keep_alive_seconds: u64,
    pub clean_session: bool,
    pub last_will: LastWill,
    pub credentials: Option<MqttCredentials>,
}

impl MqttOptions {
    /// Nothing of an earlier session is kept.
    pub fn clean_session(&self) -> (clean: bool)
        ensures
            clean == self.clean_session,
    {
        self.clean_session
    }
}

/// How to connect. Commands are computed anew from what is desired after every
/// connection; a clean session keeps the broker from replaying commands of the
/// connection before, which are no longer wanted.
pub fn build_mqtt_options(settings: &MqttSettings, credentials: Option<MqttCredentials>) -> (options:
    MqttOptions)
    ensures
        options.client_id@ == settings.client_id@,
        options.host@ == settings.host@,
        options.port == settings.port,
        options.keep_alive_seconds == KEEP_ALIVE_SECONDS,
        options.clean_session,
        options.last_will.topic@ == settings.application_namespace@ + "/status"@,
        options.last_will.message@ == "offline"@,
        options.last_will.qos == Qos::AtLeastOnce,
        options.last_will.retain,
        options.credentials == credentials,
{
    MqttOptions {
        client_id: settings.client_id.clone(),
        host: settings.host.clone(),
        port: settings.port,
        keep_alive_seconds: KEEP_ALIVE_SECONDS,
        clean_session: true,
        last_will: LastWill {
            topic: status_topic(settings.application_namespace.as_str()),
            message: "offline",
            qos: Qos::AtLeastOnce,
            retain: true,
        },
        credentials,
    }
}

/// What the file system says of a credential file.
#[derive(Debug, Clone, Copy, PartialEq, Eq)]
pub struct FileFacts {
    pub symlink: bool,
    pub regular: bool,
    pub permissions: u32,
    pub length: u64,
}

impl FileFacts {
    /// Only the owner may use the file.
    pub open spec fn private(self) -> bool {
        self.permissions & SHARED_PERMISSIONS == 0
    }

    fn check_permissions(&self) -> (result: Result<(), MqttError>)
        ensures
            if self.private() {
                result is Ok
            } else {
                rejects(result, "credential file permissions must deny group and other access"@)
            },
    {
        if self.permissions & SHARED_PERMISSIONS != 0 {
            return Err(
                MqttError::credential(
                    "credential file permissions must deny group and other access",
                ),
            );
        }
        Ok(())
    }

    /// Accepts the file that a path names.
    pub fn accept_named(&self) -> (result: Result<(), MqttError>)
        ensures
            if self.symlink || !self.regular {
                rejects(result, "credential file must be a regular non-symlink file"@)
            } else if !self.private() {
                rejects(result, "credential file permissions must deny group and other access"@)
            } else {
                result is Ok
            },
    {
        if self.symlink || !self.regular {
            return Err(
                MqttError::credential("credential file must be a regular non-symlink file"),
            );
        }
        self.check_permissions()
    }

    /// Accepts the file that was opened; `same` tells whether it is the one that
    /// the path named.
    pub fn accept_opened(&self, same: bool) -> (result: Result<(), MqttError>)
        ensures
            if !same || !self.regular || self.length > MAX_CREDENTIAL_FILE_BYTES {
                rejects(result, "credential file must be a bounded regular file"@)
            } else if !self.private() {
                rejects(result, "credential file permissions must deny group and other access"@)
            } else {
                result is Ok
            },
    {
        if !same || !self.regular || self.length > MAX_CREDENTIAL_FILE_BYTES {
            return Err(MqttError::credential("credential file must be a bounded regular file"));
        }
        self.check_permissions()
    }
}

/// Accepts the place that a credential path resolves to.
pub fn accept_resolved(path: &str) -> (result: Result<(), MqttError>)
    ensures
        if absolute(path@) && !in_nix_store(path@) {
            result is Ok
        } else {
            rejects(result, "credential file must resolve outside the Nix store"@)
        },
{
    if !path_is_outside_nix_store(path) {
        return Err(MqttError::credential("credential file must resolve outside the Nix store"));
    }
    Ok(())
}

/// A line without the carriage returns at its end.
pub open spec fn trimmed(line: Seq<char>) -> Seq<char>
    decreases line.len(),
{
    if line.len() > 0 && line.last() == '\r' {
        trimmed(line.drop_last())
    } else {
        line
    }
}

/// First place of a character, from `i` on.
pub open spec fn place_of(text: Seq<char>, wanted: char, i: int) -> Option<int>
    decreases text.len() - i,
{
    if i >= text.len() {
        None
    } else if text[i] == wanted {
        Some(i)
    } else {
        place_of(text, wanted, i + 1)
    }
}

pub open spec fn letter(c: char) -> bool {
    'a' <= c <= 'z' || 'A' <= c <= 'Z'
}

pub open spec fn name_char(c: char) -> bool {
    c == '_' || letter(c) || '0' <= c <= '9'
}

/// A name that a variable can have.
pub open spec fn variable_name(name: Seq<char>) -> bool {
    &&& name.len() > 0
    &&& name[0] == '_' || letter(name[0])
    &&& forall|i: int| 1 <= i < name.len() ==> name_char(#[trigger] name[i])
}

/// A value that a credential can have.
pub open spec fn credential_value(value: Seq<char>) -> bool {
    &&& value.len() > 0
    &&& text::bytes_of(value).len() <= MAX_CREDENTIAL_VALUE_BYTES
    &&& forall|i: int| 0 <= i < value.len() ==> #[trigger] value[i] != '\0'
}

pub open spec fn assigned(values: Seq<(String, String)>, name: Seq<char>) -> bool {
    exists|i: int| 0 <= i < values.len() && (#[trigger] values[i]).0@ == name
}

/// What one line of a credential file says.
pub enum Line {
    Nothing,
    Entry { name: Seq<char>, value: Seq<char> },
    Wrong { reason: Seq<char> },
}

/// What a line says, read by itself.
pub open spec fn line_says(raw: Seq<char>) -> Line {
    let line = trimmed(raw);
    if line.len() == 0 || line[0] == '#' {
        Line::Nothing
    } else {
        match place_of(line, '=', 0) {
            None => Line::Wrong { reason: "credential line must be KEY=value"@ },
            Some(i) => {
                let name = line.take(i);
                let value = line.skip(i + 1);
                if variable_name(name) && credential_value(value) {
                    Line::Entry { name, value }
                } else {
                    Line::Wrong { reason: "credential entry is invalid"@ }
                }
            },
        }
    }
}

/// What the first `n` lines assign, in order.
pub open spec fn lines_say(lines: Seq<Seq<char>>, n: int) -> Result<
    Seq<(Seq<char>, Seq<char>)>,
    Seq<char>,
>
    decreases n,
{
    if n <= 0 {
        Ok(Seq::empty())
    } else {
        match lines_say(lines, n - 1) {
            Err(reason) => Err(reason),
            Ok(entries) => match line_says(lines[n - 1]) {
                Line::Nothing => Ok(entries),
                Line::Wrong { reason } => Err(reason),
                Line::Entry { name, value } => if exists|i: int|
                    0 <= i < entries.len() && (#[trigger] entries[i]).0 == name {
                    Err("credential variable is duplicated"@)
                } else {
                    Ok(entries.push((name, value)))
                },
            },
        }
    }
}

proof fn lemma_lines_fault(lines: Seq<Seq<char>>, m: int, n: int)
    requires
        0 <= m <= n,
        lines_say(lines, m) is Err,
    ensures
        lines_say(lines, n) == lines_say(lines, m),
    decreases n,
{
    if m < n {
        lemma_lines_fault(lines, m, n - 1);
    }
}

/// What a credential file assigns.
pub open spec fn environment(text: Seq<char>) -> Result<Seq<(Seq<char>, Seq<char>)>, Seq<char>> {
    let lines = text::pieces(text, '\n');
    lines_say(lines, lines.len() as int)
}

/// Names and values by their characters.
pub open spec fn entry_views(values: Seq<(String, String)>) -> Seq<(Seq<char>, Seq<char>)> {
    Seq::new(values.len(), |i: int| (values[i].0@, values[i].1@))
}

fn trim_end(line: &str) -> (chars: Vec<char>)
    ensures
        chars@ == trimmed(line@),
        chars@.len() <= line@.len(),
        chars@ == line@.take(chars@.len() as int),
{
    let mut chars = text::characters(line);
    assert(chars@ =~= line@.take(chars@.len() as int));
    while chars.len() > 0 && chars[chars.len() - 1] == '\r'
        invariant
            trimmed(line@) == trimmed(chars@),
            chars@.len() <= line@.len(),
            chars@ == line@.take(chars@.len() as int),
        decreases chars@.len(),
    {
        let _ = chars.pop();
        assert(chars@ =~= line@.take(chars@.len() as int));
    }
    chars
}

fn is_letter(c: char) -> (result: bool)
    ensures
        result == letter(c),
{
    ('a' <= c && c <= 'z') || ('A' <= c && c <= 'Z')
}

/// The first `end` characters are a name that a variable can have.
fn is_variable_name(chars: &Vec<char>, end: usize) -> (result: bool)
    requires
        end <= chars@.len(),
    ensures
        result == variable_name(chars@.take(end as int)),
{
    let ghost name = chars@.take(end as int);
    if end == 0 || !(chars[0] == '_' || is_letter(chars[0])) {
        return false;
    }
    let mut i: usize = 1;
    while i < end
        invariant
            1 <= i <= end,
            end <= chars@.len(),
            name == chars@.take(end as int),
            forall|j: int| 1 <= j < i ==> name_char(#[trigger] name[j]),
        decreases end - i,
    {
        let c = chars[i];
        assert(name[i as int] == c);
        if !(c == '_' || is_letter(c) || ('0' <= c && c <= '9')) {
            return false;
        }
        i = i + 1;
    }
    true
}

fn has_nul(chars: &Vec<char>, from: usize) -> (result: bool)
    requires
        from <= chars@.len(),
    ensures
        result == (exists|i: int| from <= i < chars@.len() && #[trigger] chars@[i] == '\0'),
{
    let mut i: usize = from;
    while i < chars.len()
        invariant
            from <= i <= chars@.len(),
            forall|j: int| from <= j < i ==> #[trigger] chars@[j] != '\0',
        decreases chars@.len() - i,
    {
        if chars[i] == '\0' {
            return true;
        }
        i = i + 1;
    }
    false
}

fn find_char(chars: &Vec<char>, wanted: char) -> (result: Option<usize>)
    ensures
        match result {
            Some(i) => i < chars@.len() && place_of(chars@, wanted, 0) == Some(i as int),
            None => place_of(chars@, wanted, 0) is None,
        },
{
    let mut i: usize = 0;
    while i < chars.len()
        invariant
            i <= chars@.len(),
            place_of(chars@, wanted, 0) == place_of(chars@, wanted, i as int),
        decreases chars@.len() - i,
    {
        if chars[i] == wanted {
            return Some(i);
        }
        i = i + 1;
    }
    None
}

/// Reads one line of a credential file.
fn read_line(line: &str) -> (result: Result<Option<(String, String)>, MqttError>)
    ensures
        match line_says(line@) {
            Line::Nothing => result matches Ok(None),
            Line::Entry { name, value } => result matches Ok(Some((key, text))) && key@ == name
                && text@ == value,
            Line::Wrong { reason } => rejects(result, reason),
        },
{
    let chars = trim_end(line);
    if chars.len() == 0 || chars[0] == '#' {
        return Ok(None);
    }
    let place: usize = match find_char(&chars, '=') {
        Some(place) => place,
        None => return Err(MqttError::credential("credential line must be KEY=value")),
    };
    let length: usize = chars.len();
    let value = line.substring_char(place + 1, length);
    let ghost after = chars@.skip(place + 1);
    assert(value@ =~= after);
    let bytes: usize = value.as_bytes().len();
    let nul = has_nul(&chars, place + 1);
    let named = is_variable_name(&chars, place);
    proof {
        if nul {
            let i = choose|i: int|
                place + 1 <= i < chars@.len() && #[trigger] chars@[i] == '\0';
            assert(after[i - place - 1] == '\0');
        } else {
            assert forall|i: int| 0 <= i < after.len() implies #[trigger] after[i] != '\0' by {
                assert(after[i] == chars@[i + place + 1]);
            }
        }
    }
    if !named || place + 1 == length || bytes > MAX_CREDENTIAL_VALUE_BYTES || nul {
        return Err(MqttError::credential("credential entry is invalid"));
    }
    let name = line.substring_char(0, place);
    assert(name@ =~= chars@.take(place as int));
    Ok(Some((String::from_str(name), String::from_str(value))))
}

fn is_assigned(values: &Vec<(String, String)>, name: &str) -> (result: bool)
    ensures
        result == assigned(values@, name@),
{
    let mut i: usize = 0;
    while i < values.len()
        invariant
            i <= values@.len(),
            forall|j: int| 0 <= j < i ==> (#[trigger] values@[j]).0@ != name@,
        decreases values@.len() - i,
    {
        if text::text_equals(values[i].0.as_str(), name) {
            return true;
        }
        i = i + 1;
    }
    false
}

/// Reads lines of the form `NAME=value`; empty lines and those that start with
/// `#` say nothing.
pub fn parse_environment_file(input: &str) -> (result: Result<Vec<(String, String)>, MqttError>)
    ensures
        match environment(input@) {
            Ok(entries) => result matches Ok(values) && entry_views(values@) == entries,
            Err(reason) => rejects(result, reason),
        },
{
    let lines = text::split(input, '\n');
    let ghost views = text::views(lines@);
    let mut values: Vec<(String, String)> = Vec::new();
    let mut i: usize = 0;
    assert(entry_views(values@) =~= Seq::<(Seq<char>, Seq<char>)>::empty());
    while i < lines.len()
        invariant
            i <= lines@.len(),
            views == text::views(lines@),
            views == text::pieces(input@, '\n'),
            lines_say(views, i as int) == Ok::<Seq<(Seq<char>, Seq<char>)>, Seq<char>>(
                entry_views(values@),
            ),
        decreases lines@.len() - i,
    {
        assert(views[i as int] == lines@[i as int]@);
        match read_line(lines[i].as_str()) {
            Ok(None) => {},
            Ok(Some((name, value))) => {
                let ghost entries = entry_views(values@);
                let taken = is_assigned(&values, name.as_str());
                proof {
                    if taken {
                        let j = choose|j: int|
                            0 <= j < values@.len() && (#[trigger] values@[j]).0@ == name@;
                        assert(entries[j].0 == name@);
                    } else {
                        assert forall|j: int| 0 <= j < entries.len() implies (
                        #[trigger] entries[j]).0 != name@ by {
                            assert(values@[j].0@ == entries[j].0);
                        }
                    }
                }
                if taken {
                    proof {
                        lemma_lines_fault(views, i + 1, views.len() as int);
                    }
                    return Err(MqttError::credential("credential variable is duplicated"));
                }
                let ghost pair = (name@, value@);
                values.push((name, value));
                assert(entry_views(values@) =~= entries.push(pair));
            },
            Err(error) => {
                proof {
                    lemma_lines_fault(views, i + 1, views.len() as int);
                }
                return Err(error);
            },
        }
        i = i + 1;
    }
    Ok(values)
}

/// The value of the first entry, from `i` on, with this name.
pub open spec fn looked_up(
    entries: Seq<(Seq<char>, Seq<char>)>,
    name: Seq<char>,
    i: int,
) -> Option<Seq<char>>
    decreases entries.len() - i,
{
    if i >= entries.len() {
        None
    } else if entries[i].0 == name {
        Some(entries[i].1)
    } else {
        looked_up(entries, name, i + 1)
    }
}

/// The value of a variable that has to be there.
pub fn required_credential(values: &Vec<(String, String)>, variable: &str) -> (result: Result<
    String,
    MqttError,
>)
    ensures
        match looked_up(entry_views(values@), variable@, 0) {
            Some(value) => result matches Ok(text) && text@ == value,
            None => rejects(result, "required credential variable is missing"@),
        },
{
    let ghost entries = entry_views(values@);
    let mut i: usize = 0;
    while i < values.len()
        invariant
            i <= values@.len(),
            entries == entry_views(values@),
            looked_up(entries, variable@, 0) == looked_up(entries, variable@, i as int),
        decreases values@.len() - i,
    {
        assert(entries[i as int] == (values@[i as int].0@, values@[i as int].1@));
        if text::text_equals(values[i].0.as_str(), variable) {
            return Ok(values[i].1.clone());
        }
        i = i + 1;
    }
    Err(MqttError::credential("required credential variable is missing"))
}

/// What the content of a credential file gives, or why it is refused.
pub open spec fn content_says(bytes: Seq<u8>, source: MqttCredentialSource) -> Result<
    (Seq<char>, Seq<char>),
    Seq<char>,
> {
    if bytes.len() > MAX_CREDENTIAL_FILE_BYTES {
        Err("credential file is too large"@)
    } else if !vstd::utf8::valid_utf8(bytes) {
        Err("credential file must be UTF-8"@)
    } else {
        match environment(vstd::utf8::decode_utf8(bytes)) {
            Err(reason) => Err(reason),
            Ok(entries) => match (
                looked_up(entries, source.username_variable@, 0),
                looked_up(entries, source.password_variable@, 0),
            ) {
                (Some(username), Some(password)) => Ok((username, password)),
                _ => Err("required credential variable is missing"@),
            },
        }
    }
}

/// Reads user name and password from the content of a credential file.
pub fn read_credentials(bytes: &Vec<u8>, source: &MqttCredentialSource) -> (result: Result<
    MqttCredentials,
    MqttError,
>)
    ensures
        match content_says(bytes@, *source) {
            Ok((username, password)) => result matches Ok(credentials) && credentials.username@
                == username && credentials.password@ == password,
            Err(reason) => rejects(result, reason),
        },
{
    if bytes.len() > 65_536 {
        return Err(MqttError::credential("credential file is too large"));
    }
    let text = match crate::zigbee2mqtt::decode(bytes.as_slice()) {
        Some(text) => text,
        None => return Err(MqttError::credential("credential file must be UTF-8")),
    };
    let values = match parse_environment_file(text.as_str()) {
        Ok(values) => values,
        Err(error) => return Err(error),
    };
    let username = match required_credential(&values, source.username_variable.as_str()) {
        Ok(username) => username,
        Err(error) => return Err(error),
    };
    let password = match required_credential(&values, source.password_variable.as_str()) {
        Ok(password) => password,
        Err(error) => return Err(error),
    };
    Ok(MqttCredentials { username, password })
}

} // verus!
