//! One update, from request to response, as a state machine. The caller performs
//! each action it is handed (taking the lock of the resolver file, reading and
//! writing that file, running the reload command) and hands back what came of it.
//! The file is only read and written between the lock being taken and the
//! response, and only after the request has been authenticated.

use vstd::prelude::*;
use vstd::string::StringExecFns;
use vstd::utf8::encode_utf8;
use crate::auth::{AuthError, auth_error_text, authorize, is_authorized};
use crate::config::Config;
use crate::directive::{RecordError, update_record, updated_text};
use crate::request::{UpdateRequest, ParseError, ClientAddress, chosen_address, effective_ip, normalize_domain};
use crate::text::strip_trailing_dots;

verus! {

/// The answer to an update request.
pub struct UpdateResponse {
    pub success: bool,
    pub message: String,
}

impl UpdateResponse {
    /// The HTTP status of the response: 200 on success, 400 for every failure.
    pub fn status_code(&self) -> (r: u16)
        ensures
            r == (if self.success { 200u16 } else { 400u16 }),
    {
        if self.success {
            200
        } else {
            400
        }
    }
}

/// How a run of the resolver's reload command ended.
pub enum ReloadOutcome {
    /// The command ran to its end; `success` tells whether its exit status was zero.
    Exited { success: bool, stderr: String },
    /// The command could not be started.
    NotLaunched { reason: String },
    /// The command did not finish within the time allowed.
    TimedOut,
}

/// Where an update stands.
#[derive(Clone, Copy, Debug, PartialEq, Eq, Structural)]
pub enum Stage {
    AwaitingLock,
    AwaitingRead,
    AwaitingWrite,
    AwaitingReload,
    Done,
}

/// What the caller is to do next.
pub enum UpdateAction {
    /// Take the lock of the resolver's configuration file.
    AcquireLock,
    /// Read the whole resolver configuration file.
    ReadConfig,
    /// Write these bytes as the whole resolver configuration file.
    WriteConfig(Vec<u8>),
    /// Run the resolver's reload command.
    Reload,
    /// Release the lock, if it was taken, and answer the client.
    Respond(UpdateResponse),
}

/// What came of the last action.
pub enum UpdateEvent {
    Locked,
    ConfigRead(Result<Vec<u8>, String>),
    ConfigWritten(Result<(), String>),
    Reloaded(ReloadOutcome),
}

/// An update in progress: the authenticated, canonical domain and its new address.
pub struct UpdateSession {
    pub domain: String,
    pub ip: String,
    pub stage: Stage,
}

pub open spec fn parse_failure_text(e: ParseError) -> Seq<char> {
    "Failed to parse request: "@ + e.cause@
}

pub open spec fn unauthorized_text() -> Seq<char> {
    "Unauthorized"@
}

pub open spec fn config_failure_text(cause: Seq<char>) -> Seq<char> {
    "Failed to update configuration: "@ + cause
}

pub open spec fn read_failure_text(e: Seq<char>) -> Seq<char> {
    config_failure_text("Failed to read Unbound config: "@ + e)
}

pub open spec fn write_failure_text(e: Seq<char>) -> Seq<char> {
    config_failure_text("Failed to write Unbound config: "@ + e)
}

pub open spec fn record_error_text(e: RecordError, domain: Seq<char>, ip: Seq<char>) -> Seq<char> {
    match e {
        RecordError::InvalidValue => "Address '"@ + ip + "' cannot be written into a record"@,
        RecordError::Missing => "Domain '"@ + domain
            + "' not found in Unbound config. Cannot update non-existent domain."@,
        RecordError::Duplicate => "Domain '"@ + domain + "' has more than one record in Unbound config"@,
    }
}

/// What a reload outcome means: `None` for success, else the error's text.
pub open spec fn reload_error(o: ReloadOutcome) -> Option<Seq<char>> {
    match o {
        ReloadOutcome::Exited { success, stderr } => if success {
            None
        } else {
            Some("unbound-control failed: "@ + stderr@)
        },
        ReloadOutcome::NotLaunched { reason } => Some("Failed to execute unbound-control: "@ + reason@),
        ReloadOutcome::TimedOut => Some("unbound-control did not finish in time"@),
    }
}

pub open spec fn reload_failure_text(e: Seq<char>) -> Seq<char> {
    "Failed to reload Unbound: "@ + e
}

pub open spec fn success_text(domain: Seq<char>, ip: Seq<char>) -> Seq<char> {
    "Updated "@ + domain + " to "@ + ip
}

/// Whether `a` answers the client with `success` and message `m`.
pub open spec fn responds(a: UpdateAction, success: bool, m: Seq<char>) -> bool {
    a matches UpdateAction::Respond(resp) && resp.success == success && resp.message@ == m
}

fn failure(message: String) -> (r: UpdateAction)
    ensures
        responds(r, false, message@),
{
    UpdateAction::Respond(UpdateResponse { success: false, message })
}

fn prefixed(prefix: &str, rest: &str) -> (r: String)
    ensures
        r@ == prefix@ + rest@,
{
    let mut m = prefix.to_owned();
    m.append(rest);
    m
}

/// The error a reload outcome stands for, if any.
pub fn reload_result(outcome: &ReloadOutcome) -> (r: Result<(), String>)
    ensures
        r is Ok <==> reload_error(*outcome) is None,
        r matches Err(m) ==> reload_error(*outcome) == Some(m@),
{
    match outcome {
        ReloadOutcome::Exited { success, stderr } => {
            if *success {
                Ok(())
            } else {
                Err(prefixed("unbound-control failed: ", stderr.as_str()))
            }
        },
        ReloadOutcome::NotLaunched { reason } => Err(
            prefixed("Failed to execute unbound-control: ", reason.as_str()),
        ),
        ReloadOutcome::TimedOut => Err("unbound-control did not finish in time".to_owned()),
    }
}

/// The text that a failed record update reports.
pub fn record_error_message(e: RecordError, domain: &str, ip: &str) -> (r: String)
    ensures
        r@ == record_error_text(e, domain@, ip@),
{
    match e {
        RecordError::InvalidValue => {
            let mut m = prefixed("Address '", ip);
            m.append("' cannot be written into a record");
            m
        },
        RecordError::Missing => {
            let mut m = prefixed("Domain '", domain);
            m.append("' not found in Unbound config. Cannot update non-existent domain.");
            m
        },
        RecordError::Duplicate => {
            let mut m = prefixed("Domain '", domain);
            m.append("' has more than one record in Unbound config");
            m
        },
    }
}

impl UpdateSession {
    /// Whether `event` answers the action this session handed out last.
    pub open spec fn expects(&self, event: UpdateEvent) -> bool {
        match event {
            UpdateEvent::Locked => self.stage == Stage::AwaitingLock,
            UpdateEvent::ConfigRead(_) => self.stage == Stage::AwaitingRead,
            UpdateEvent::ConfigWritten(_) => self.stage == Stage::AwaitingWrite,
            UpdateEvent::Reloaded(_) => self.stage == Stage::AwaitingReload,
        }
    }

    /// Whether `event` answers the action this session handed out last.
    pub fn accepts(&self, event: &UpdateEvent) -> (r: bool)
        ensures
            r == self.expects(*event),
    {
        match event {
            UpdateEvent::Locked => self.stage == Stage::AwaitingLock,
            UpdateEvent::ConfigRead(_) => self.stage == Stage::AwaitingRead,
            UpdateEvent::ConfigWritten(_) => self.stage == Stage::AwaitingWrite,
            UpdateEvent::Reloaded(_) => self.stage == Stage::AwaitingReload,
        }
    }

    /// Starts an update. The credential is checked first, then the decoding of the
    /// body, then the domain and key together; any failure is answered at once. A
    /// domain that is not authorized and a wrong key are answered alike, with
    /// `Unauthorized` and nothing more. Otherwise the session holds the canonical
    /// domain and the address to write, and asks for the lock.
    pub fn begin(
        config: &Config,
        credential: Result<String, AuthError>,
        request: Result<UpdateRequest, ParseError>,
        client: &ClientAddress,
    ) -> (r: (UpdateSession, UpdateAction))
        ensures
            credential matches Err(e) ==> r.0.stage == Stage::Done && responds(
                r.1,
                false,
                auth_error_text(e),
            ),
            (credential is Ok && request is Err) ==> r.0.stage == Stage::Done && responds(
                r.1,
                false,
                parse_failure_text(request->Err_0),
            ),
            credential matches Ok(key) ==> (request matches Ok(req) ==> {
                let d = strip_trailing_dots(req.domain@);
                &&& !is_authorized(config.domains@, d, key@) ==> r.0.stage == Stage::Done
                    && responds(r.1, false, unauthorized_text())
                &&& is_authorized(config.domains@, d, key@) ==> {
                    &&& r.0.stage == Stage::AwaitingLock
                    &&& r.1 is AcquireLock
                    &&& r.0.domain@ == d
                    &&& r.0.ip@ == chosen_address(req.ip, *client)
                    &&& (req.ip matches Some(v) ==> r.0.ip@ == v@)
                }
            }),
    {
        let done = UpdateSession { domain: String::new(), ip: String::new(), stage: Stage::Done };
        let key = match credential {
            Err(e) => {
                let m = e.message();
                return (done, failure(m));
            },
            Ok(k) => k,
        };
        let req = match request {
            Err(p) => {
                let m = prefixed("Failed to parse request: ", p.cause.as_str());
                return (done, failure(m));
            },
            Ok(q) => q,
        };
        let domain = normalize_domain(req.domain.as_str());
        if !authorize(config, domain.as_str(), key.as_str()) {
            return (done, failure("Unauthorized".to_owned()));
        }
        let ip = effective_ip(&req.ip, client);
        (UpdateSession { domain, ip, stage: Stage::AwaitingLock }, UpdateAction::AcquireLock)
    }

    /// Takes in what came of the last action and says what to do next. The new text
    /// of the resolver file is the one that `updated_text` gives for this session's
    /// domain and address; where that update fails, nothing is written.
    pub fn advance(&mut self, event: UpdateEvent) -> (r: UpdateAction)
        requires
            old(self).expects(event),
        ensures
            final(self).domain == old(self).domain,
            final(self).ip == old(self).ip,
            event is Locked ==> final(self).stage == Stage::AwaitingRead && r is ReadConfig,
            event matches UpdateEvent::ConfigRead(Err(e)) ==> final(self).stage == Stage::Done
                && responds(r, false, read_failure_text(e@)),
            event matches UpdateEvent::ConfigRead(Ok(text)) ==> {
                let u = updated_text(text@, encode_utf8(old(self).domain@), encode_utf8(old(self).ip@));
                &&& u matches Ok(out) ==> final(self).stage == Stage::AwaitingWrite
                    && (r matches UpdateAction::WriteConfig(bytes) && bytes@ == out)
                &&& u matches Err(e) ==> final(self).stage == Stage::Done && responds(
                    r,
                    false,
                    config_failure_text(record_error_text(e, old(self).domain@, old(self).ip@)),
                )
            },
            event matches UpdateEvent::ConfigWritten(Err(e)) ==> final(self).stage == Stage::Done
                && responds(r, false, write_failure_text(e@)),
            event matches UpdateEvent::ConfigWritten(Ok(_)) ==> final(self).stage == Stage::AwaitingReload
                && r is Reload,
            event matches UpdateEvent::Reloaded(o) ==> {
                &&& final(self).stage == Stage::Done
                &&& reload_error(o) is None ==> responds(r, true, success_text(old(self).domain@, old(self).ip@))
                &&& reload_error(o) matches Some(m) ==> responds(r, false, reload_failure_text(m))
            },
    {
        match event {
            UpdateEvent::Locked => {
                self.stage = Stage::AwaitingRead;
                UpdateAction::ReadConfig
            },
            UpdateEvent::ConfigRead(Err(e)) => {
                self.stage = Stage::Done;
                let cause = prefixed("Failed to read Unbound config: ", e.as_str());
                failure(prefixed("Failed to update configuration: ", cause.as_str()))
            },
            UpdateEvent::ConfigRead(Ok(text)) => {
                match update_record(text.as_slice(), self.domain.as_str(), self.ip.as_str()) {
                    Ok(out) => {
                        self.stage = Stage::AwaitingWrite;
                        UpdateAction::WriteConfig(out)
                    },
                    Err(e) => {
                        self.stage = Stage::Done;
                        let cause = record_error_message(e, self.domain.as_str(), self.ip.as_str());
                        failure(prefixed("Failed to update configuration: ", cause.as_str()))
                    },
                }
            },
            UpdateEvent::ConfigWritten(Err(e)) => {
                self.stage = Stage::Done;
                let cause = prefixed("Failed to write Unbound config: ", e.as_str());
                failure(prefixed("Failed to update configuration: ", cause.as_str()))
            },
            UpdateEvent::ConfigWritten(Ok(())) => {
                self.stage = Stage::AwaitingReload;
                UpdateAction::Reload
            },
            UpdateEvent::Reloaded(o) => {
                self.stage = Stage::Done;
                match reload_result(&o) {
                    Ok(()) => {
                        let mut m = prefixed("Updated ", self.domain.as_str());
                        m.append(" to ");
                        m.append(self.ip.as_str());
                        UpdateAction::Respond(UpdateResponse { success: true, message: m })
                    },
                    Err(e) => failure(prefixed("Failed to reload Unbound: ", e.as_str())),
                }
            },
        }
    }
}

} // verus!
