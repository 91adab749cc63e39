use vstd::prelude::*;
use vstd::string::StringSliceAdditionalSpecFns;
use crate::text::{blank, byte_len, is_blank, str_eq, text_len};

verus! {

/// Whether a presented token equals the expected one, compared byte by byte without stopping
/// at the first difference.
pub fn match_token(provided: &str, expected: &str) -> (b: bool)
    ensures
        b == (provided@ == expected@),
{
    let left = provided.as_bytes();
    let right = expected.as_bytes();
    proof {
        vstd::utf8::encode_utf8_decode_utf8(provided@);
        vstd::utf8::encode_utf8_decode_utf8(expected@);
    }
    if left.len() != right.len() {
        return false;
    }
    let mut different: u8 = 0;
    let mut i: usize = 0;
    while i < left.len()
        invariant
            left@ == provided.spec_bytes(),
            right@ == expected.spec_bytes(),
            left@.len() == right@.len(),
            i <= left@.len(),
            (different == 0) == (forall|k: int| 0 <= k < i ==> left@[k] == right@[k]),
        decreases left@.len() - i,
    {
        let a = left[i];
        let b = right[i];
        let x = a ^ b;
        proof {
            assert((x == 0) == (a == b)) by (bit_vector)
                requires
                    x == a ^ b,
            ;
            assert(((different | x) == 0) == (different == 0 && x == 0)) by (bit_vector);
        }
        different = different | x;
        i = i + 1;
    }
    proof {
        if different == 0 {
            assert(left@ =~= right@);
        }
    }
    different == 0
}

/// A browser is let in only when its `Origin` header is exactly the frontend's origin.
pub fn origin_allowed(header: Option<&str>, expected: &str) -> (b: bool)
    ensures
        b == (header matches Some(h) && h@ == expected@),
{
    match header {
        Some(h) => str_eq(h, expected),
        None => false,
    }
}

/// Why the server settings were refused.
#[derive(Debug, Clone, Copy, PartialEq, Eq)]
pub enum SettingsError {
    InvalidToken,
    InvalidOrigin,
    InvalidApproveReads,
}

impl SettingsError {
    pub fn message(&self) -> (text: &'static str)
        ensures
            text@ == match self {
                SettingsError::InvalidToken => "Jeton d'authentification invalide"@,
                SettingsError::InvalidOrigin => "Origine frontend invalide"@,
                SettingsError::InvalidApproveReads => "AI_PLATFORM_APPROVE_READS doit valoir 0 ou 1"@,
            },
    {
        match self {
            SettingsError::InvalidToken => "Jeton d'authentification invalide",
            SettingsError::InvalidOrigin => "Origine frontend invalide",
            SettingsError::InvalidApproveReads => "AI_PLATFORM_APPROVE_READS doit valoir 0 ou 1",
        }
    }
}

/// The authentication token has 32 to 512 bytes.
pub fn check_token(token: &str) -> (r: Result<(), SettingsError>)
    ensures
        r is Ok <==> 32 <= byte_len(token@) <= 512,
        r is Err ==> r == Err::<(), SettingsError>(SettingsError::InvalidToken),
{
    let n = text_len(token);
    if n < 32 || n > 512 {
        Err(SettingsError::InvalidToken)
    } else {
        Ok(())
    }
}

/// The frontend origin is neither blank nor the wildcard `*`.
pub fn check_origin(origin: &str) -> (r: Result<(), SettingsError>)
    ensures
        r is Ok <==> !(blank(origin@) || origin@ == "*"@),
        r is Err ==> r == Err::<(), SettingsError>(SettingsError::InvalidOrigin),
{
    if is_blank(origin) || str_eq(origin, "*") {
        Err(SettingsError::InvalidOrigin)
    } else {
        Ok(())
    }
}

/// Whether reads need approval: `1` yes; `0` or no setting, no; anything else is refused.
pub fn approve_reads(value: Option<&str>) -> (r: Result<bool, SettingsError>)
    ensures
        r == match value {
            None => Ok(false),
            Some(v) => if v@ == "1"@ {
                Ok(true)
            } else if v@ == "0"@ {
                Ok(false)
            } else {
                Err::<bool, SettingsError>(SettingsError::InvalidApproveReads)
            },
        },
{
    match value {
        None => Ok(false),
        Some(v) => {
            if str_eq(v, "1") {
                Ok(true)
            } else if str_eq(v, "0") {
                Ok(false)
            } else {
                Err(SettingsError::InvalidApproveReads)
            }
        },
    }
}

/// Largest text frame accepted from the client, in bytes.
pub const MAX_FRAME_BYTES: usize = 262144;

/// Whether a text frame of this many bytes is handled.
pub fn frame_fits(size: usize) -> (b: bool)
    ensures
        b == (size <= MAX_FRAME_BYTES),
{
    size <= MAX_FRAME_BYTES
}

/// The run of a connection, as seen when a command arrives.
pub struct ActiveRun {
    pub request_id: String,
    pub finished: bool,
}

/// A command from the client, once decoded.
pub enum ClientCommand {
    RunStart,
    ModelsList { request_id: String },
    RunCancel { request_id: String },
    ApprovalResolve { request_id: String, call_id: String, approved: bool },
    Unknown,
}

/// Errors reported to the client.
#[derive(Debug, Clone, Copy, PartialEq, Eq)]
pub enum SessionNotice {
    FrameTooLarge,
    InvalidJson,
    RunInProgress,
    NoMatchingRun,
    UnknownCommand,
}

impl SessionNotice {
    pub fn message(&self) -> (text: &'static str)
        ensures
            text@ == match self {
                SessionNotice::FrameTooLarge => "Message trop volumineux"@,
                SessionNotice::InvalidJson => "JSON invalide"@,
                SessionNotice::RunInProgress => "Exécution déjà en cours"@,
                SessionNotice::NoMatchingRun => "Aucune exécution active correspondante"@,
                SessionNotice::UnknownCommand => "Commande inconnue"@,
            },
    {
        match self {
            SessionNotice::FrameTooLarge => "Message trop volumineux",
            SessionNotice::InvalidJson => "JSON invalide",
            SessionNotice::RunInProgress => "Exécution déjà en cours",
            SessionNotice::NoMatchingRun => "Aucune exécution active correspondante",
            SessionNotice::UnknownCommand => "Commande inconnue",
        }
    }
}

/// What the connection does with a command.
#[derive(Debug, Clone, Copy, PartialEq, Eq)]
pub enum SessionAction {
    /// Tell the client about an error and go on.
    Reject(SessionNotice),
    /// Check the request and start it.
    StartRun,
    /// List the installed models.
    ListModels,
    /// Cancel the active run.
    CancelRun,
    /// Answer an approval; `accepted` says whether it concerns the active run.
    ResolveApproval { accepted: bool },
}

/// Whether a run with this identifier is active and not finished.
pub open spec fn running(active: Option<ActiveRun>, request_id: Seq<char>) -> bool {
    active matches Some(a) && !a.finished && a.request_id@ == request_id
}

/// The connection's decision: one run at a time; a cancel or an approval concerns the active
/// run only when it names it and it is still going.
pub open spec fn session_action(active: Option<ActiveRun>, command: ClientCommand) -> SessionAction {
    match command {
        ClientCommand::RunStart => if active matches Some(a) && !a.finished {
            SessionAction::Reject(SessionNotice::RunInProgress)
        } else {
            SessionAction::StartRun
        },
        ClientCommand::ModelsList { .. } => SessionAction::ListModels,
        ClientCommand::RunCancel { request_id } => if running(active, request_id@) {
            SessionAction::CancelRun
        } else {
            SessionAction::Reject(SessionNotice::NoMatchingRun)
        },
        ClientCommand::ApprovalResolve { request_id, .. } => SessionAction::ResolveApproval {
            accepted: running(active, request_id@),
        },
        ClientCommand::Unknown => SessionAction::Reject(SessionNotice::UnknownCommand),
    }
}

fn is_running(active: &Option<ActiveRun>, request_id: &str) -> (b: bool)
    ensures
        b == running(*active, request_id@),
{
    match active {
        Some(a) => !a.finished && str_eq(a.request_id.as_str(), request_id),
        None => false,
    }
}

pub fn decide(active: &Option<ActiveRun>, command: &ClientCommand) -> (action: SessionAction)
    ensures
        action == session_action(*active, *command),
{
    match command {
        ClientCommand::RunStart => {
            let busy = match active {
                Some(a) => !a.finished,
                None => false,
            };
            if busy {
                SessionAction::Reject(SessionNotice::RunInProgress)
            } else {
                SessionAction::StartRun
            }
        },
        ClientCommand::ModelsList { .. } => SessionAction::ListModels,
        ClientCommand::RunCancel { request_id } => {
            if is_running(active, request_id.as_str()) {
                SessionAction::CancelRun
            } else {
                SessionAction::Reject(SessionNotice::NoMatchingRun)
            }
        },
        ClientCommand::ApprovalResolve { request_id, .. } => SessionAction::ResolveApproval {
            accepted: is_running(active, request_id.as_str()),
        },
        ClientCommand::Unknown => SessionAction::Reject(SessionNotice::UnknownCommand),
    }
}

/// The event that reports a failed run: cancelled when cancellation was asked, failed otherwise.
pub fn failure_kind(cancelled: bool) -> (kind: &'static str)
    ensures
        kind@ == if cancelled {
            "run.cancelled"@
        } else {
            "run.failed"@
        },
{
    if cancelled {
        "run.cancelled"
    } else {
        "run.failed"
    }
}

/// How the connection answers each command, whatever run is active: listing models is always
/// answered; a new run starts only when no run is going; a cancel takes effect only on the run
/// it names while that run is going; an approval is accepted under the same condition; and an
/// unknown command is refused.
pub proof fn lemma_session_rules(active: Option<ActiveRun>, request_id: String, call_id: String, approved: bool)
    ensures
        ({
            let busy = (active matches Some(a) && !a.finished);
            let named = (active matches Some(a) && !a.finished && a.request_id@ == request_id@);
            let list = (ClientCommand::ModelsList { request_id: request_id });
            let cancel = (ClientCommand::RunCancel { request_id: request_id });
            let approval = (ClientCommand::ApprovalResolve {
                request_id: request_id,
                call_id: call_id,
                approved: approved,
            });
            &&& session_action(active, list) == SessionAction::ListModels
            &&& session_action(active, ClientCommand::RunStart) == (if busy {
                SessionAction::Reject(SessionNotice::RunInProgress)
            } else {
                SessionAction::StartRun
            })
            &&& session_action(active, cancel) == (if named {
                SessionAction::CancelRun
            } else {
                SessionAction::Reject(SessionNotice::NoMatchingRun)
            })
            &&& session_action(active, approval) == (SessionAction::ResolveApproval { accepted: named })
            &&& session_action(active, ClientCommand::Unknown) == SessionAction::Reject(
                SessionNotice::UnknownCommand,
            )
        }),
{
}

} // verus!
