//! The host-plugin interface model: the event, call and response records
//! exchanged with the host, the error taxonomy at that boundary, and the
//! decisions of the event-handling entry point, with the transport (the
//! host ABI itself) left to the surrounding program.

use vstd::prelude::*;
use crate::event::{DispatchError, Effect, EventContext, visit_list};
use crate::tree::FlowTree;

verus! {

/// A failure this module reports to the host.
#[derive(Debug, Clone)]
pub struct ModuleError {
    pub code: String,
    pub message: String,
}

/// A failure the host reports back to this module.
#[derive(Debug, Clone)]
pub struct HostError {
    pub code: String,
    pub message: String,
}

impl HostError {
    pub fn new(code: &str, message: &str) -> (r: HostError)
        ensures
            r.code@ == code@,
            r.message@ == message@,
    {
        HostError { code: String::from_str(code), message: String::from_str(message) }
    }
}

impl From<HostError> for ModuleError {
    fn from(err: HostError) -> (r: ModuleError) {
        ModuleError { code: err.code, message: err.message }
    }
}

impl vstd::std_specs::convert::FromSpecImpl<HostError> for ModuleError {
    open spec fn obeys_from_spec() -> bool {
        true
    }

    open spec fn from_spec(err: HostError) -> ModuleError {
        ModuleError { code: err.code, message: err.message }
    }
}

/// An incoming event as the host delivers it.
#[derive(Debug)]
pub struct Event {
    pub app_id: String,
    pub guild_id: String,
    pub data: EventData,
}

/// The payload of an incoming event, tagged by kind.
#[derive(Debug)]
pub enum EventData {
    Initiate,
}

impl EventData {
    /// The kind string of this payload.
    pub open spec fn spec_kind(&self) -> Seq<char> {
        match self {
            EventData::Initiate => "INITIATE"@,
        }
    }

    pub fn kind(&self) -> (r: &'static str)
        ensures
            r@ == self.spec_kind(),
    {
        match self {
            EventData::Initiate => "INITIATE",
        }
    }
}

impl Event {
    pub fn kind(&self) -> (r: &'static str)
        ensures
            r@ == self.data.spec_kind(),
    {
        self.data.kind()
    }
}

/// The per-event response reported to the host: success, or a failure
/// record.
#[derive(Debug)]
pub struct EventResponse {
    pub success: bool,
    pub error: Option<ModuleError>,
}

/// An outgoing call to the host.
#[derive(Debug)]
pub struct Call {
    pub config: CallConfig,
    pub data: CallData,
}

impl Call {
    pub fn kind(&self) -> (r: &'static str)
        ensures
            r@ == self.data.spec_kind(),
    {
        self.data.kind()
    }
}

/// The payload of an outgoing call, tagged by kind.
#[derive(Debug)]
pub enum CallData {
    Sleep { duration: u32 },
}

impl CallData {
    /// The kind string of this payload.
    pub open spec fn spec_kind(&self) -> Seq<char> {
        match self {
            CallData::Sleep { .. } => "SLEEP"@,
        }
    }

    pub fn kind(&self) -> (r: &'static str)
        ensures
            r@ == self.spec_kind(),
    {
        match self {
            CallData::Sleep { .. } => "SLEEP",
        }
    }
}

/// How an outgoing call is performed.
#[derive(Debug)]
pub struct CallConfig {
    pub reason: String,
    pub timeout: u32,
    pub wait: bool,
}

impl Default for CallConfig {
    fn default() -> (r: CallConfig)
        ensures
            r.reason@ == Seq::<char>::empty(),
            r.timeout == 0,
            !r.wait,
    {
        CallConfig { reason: String::new(), timeout: 0, wait: false }
    }
}

/// The host's answer to an outgoing call.
#[derive(Debug)]
pub struct CallResponse {
    pub success: bool,
    pub error: Option<HostError>,
}

/// What a call response means: a successful response passes through, a
/// failed one carries its error out, and a failed one without an error
/// record becomes a `no_error` failure.
pub fn call_response_outcome(resp: CallResponse) -> (r: Result<CallResponse, HostError>)
    ensures
        resp.success ==> (r matches Ok(v) && v == resp),
        !resp.success ==> match resp.error {
            Some(err) => r matches Err(e) && e == err,
            None => {
                &&& r matches Err(e)
                &&& e.code@ == "no_error"@
                &&& e.message@ == "No error message from host"@
            },
        },
{
    if !resp.success {
        return match resp.error {
            Option::Some(err) => Err(err),
            Option::None => Err(HostError::new("no_error", "No error message from host")),
        };
    }
    Ok(resp)
}

/// What this module declares to the host at startup.
#[derive(Debug)]
pub struct Manifest {
    pub events: Vec<String>,
    pub discord_commands: Vec<DiscordCommand>,
    pub config_schema: ConfigSchema,
}

#[derive(Debug)]
pub struct DiscordCommand {}

#[derive(Debug)]
pub struct ConfigSchema {}

impl Default for ConfigSchema {
    fn default() -> (r: ConfigSchema)
        ensures
            r == (ConfigSchema {}),
    {
        ConfigSchema {}
    }
}

impl Default for Manifest {
    fn default() -> (r: Manifest)
        ensures
            r.events@ == Seq::<String>::empty(),
            r.discord_commands@ == Seq::<DiscordCommand>::empty(),
    {
        Manifest { events: Vec::new(), discord_commands: Vec::new(), config_schema: ConfigSchema {} }
    }
}

/// How many handlers are registered for an event kind.
pub open spec fn spec_handler_count(kinds: Seq<String>, kind: Seq<char>) -> nat
    decreases kinds.len(),
{
    if kinds.len() == 0 {
        0
    } else {
        spec_handler_count(kinds.drop_last(), kind)
            + if kinds.last()@ == kind { 1nat } else { 0nat }
    }
}

/// The event-handler registrations of one session, one entry per
/// registration, in registration order. The handlers themselves live with
/// the surrounding program; the registry records which kinds they serve.
pub struct HandlerRegistry {
    pub kinds: Vec<String>,
}

impl HandlerRegistry {
    pub fn new() -> (r: HandlerRegistry)
        ensures
            r.kinds@ == Seq::<String>::empty(),
    {
        HandlerRegistry { kinds: Vec::new() }
    }

    /// How many handlers serve `kind`.
    pub fn handler_count(&self, kind: &String) -> (n: usize)
        ensures
            n as nat == spec_handler_count(self.kinds@, kind@),
    {
        let mut n: usize = 0;
        let mut i: usize = 0;
        proof {
            assert(self.kinds@.take(0) =~= Seq::<String>::empty());
        }
        while i < self.kinds.len()
            invariant
                i <= self.kinds@.len(),
                n <= i,
                n as nat == spec_handler_count(self.kinds@.take(i as int), kind@),
            decreases self.kinds@.len() - i,
        {
            proof {
                assert(self.kinds@.take(i + 1).drop_last() =~= self.kinds@.take(i as int));
                assert(self.kinds@.take(i + 1).last() == self.kinds@[i as int]);
            }
            if self.kinds[i] == *kind {
                n = n + 1;
            }
            i = i + 1;
        }
        proof {
            assert(self.kinds@.take(self.kinds@.len() as int) =~= self.kinds@);
        }
        n
    }
}

/// Registers an event handler for `kind`: the registry gains the
/// registration and the manifest declares the kind to the host.
pub fn add_event_handler(registry: &mut HandlerRegistry, manifest: &mut Manifest, kind: &String)
    ensures
        final(registry).kinds@.len() == old(registry).kinds@.len() + 1,
        forall|i: int| 0 <= i < old(registry).kinds@.len()
            ==> final(registry).kinds@[i] == old(registry).kinds@[i],
        final(registry).kinds@.last()@ == kind@,
        final(manifest).events@.len() == old(manifest).events@.len() + 1,
        forall|i: int| 0 <= i < old(manifest).events@.len()
            ==> final(manifest).events@[i] == old(manifest).events@[i],
        final(manifest).events@.last()@ == kind@,
        final(manifest).discord_commands == old(manifest).discord_commands,
        final(manifest).config_schema == old(manifest).config_schema,
{
    registry.kinds.push(kind.clone());
    manifest.events.push(kind.clone());
}

/// The failure record reported when an event cannot be handled.
pub fn set_event_error_message(message: String) -> (r: EventResponse)
    ensures
        !r.success,
        r.error matches Some(e) && e.code@ == "unknown"@ && e.message == message,
{
    EventResponse {
        success: false,
        error: Some(ModuleError { code: String::from_str("unknown"), message }),
    }
}

/// The response reported to the host for one handler outcome.
pub fn event_response_for(outcome: Result<(), ModuleError>) -> (r: EventResponse)
    ensures
        match outcome {
            Ok(()) => r.success && r.error is None,
            Err(e) => !r.success && (r.error matches Some(e2) && e2 == e),
        },
{
    match outcome {
        Result::Ok(()) => EventResponse { success: true, error: None },
        Result::Err(e) => EventResponse { success: false, error: Some(e) },
    }
}

/// The failure code a dispatch error is reported under.
pub open spec fn spec_dispatch_code(e: DispatchError) -> Seq<char> {
    match e {
        DispatchError::DepthExceeded => "recursion_limit"@,
        DispatchError::UnimplementedMode => "unimplemented_mode"@,
    }
}

/// The failure message a dispatch error is reported with.
pub open spec fn spec_dispatch_message(e: DispatchError) -> Seq<char> {
    match e {
        DispatchError::DepthExceeded => "Recursion limit reached"@,
        DispatchError::UnimplementedMode => "Condition compare mode not implemented"@,
    }
}

/// A dispatch error as the failure record it is reported under.
pub fn dispatch_module_error(e: DispatchError) -> (r: ModuleError)
    ensures
        r.code@ == spec_dispatch_code(e),
        r.message@ == spec_dispatch_message(e),
{
    match e {
        DispatchError::DepthExceeded => ModuleError {
            code: String::from_str("recursion_limit"),
            message: String::from_str("Recursion limit reached"),
        },
        DispatchError::UnimplementedMode => ModuleError {
            code: String::from_str("unimplemented_mode"),
            message: String::from_str("Condition compare mode not implemented"),
        },
    }
}

/// Handles one incoming event against the tree with a fresh per-event
/// context: the effects of the walk on success, or the failure record of
/// the abort. An abort halts this dispatch only; later events see the same
/// immutable tree.
pub fn handle_event(tree: &FlowTree, event: &Event) -> (r: Result<Vec<Effect>, ModuleError>)
    requires
        tree.wf(),
    ensures
        ({
            let (effs, err) = visit_list(tree.nodes@, tree.entries@, event.data.spec_kind(), 0);
            match err {
                Option::None => r matches Ok(v) && v@ == effs,
                Option::Some(e) => {
                    &&& r matches Err(me)
                    &&& me.code@ == spec_dispatch_code(e)
                    &&& me.message@ == spec_dispatch_message(e)
                },
            }
        }),
{
    let mut ctx = EventContext::new();
    let kind = String::from_str(event.kind());
    match tree.handle_event(&mut ctx, &kind) {
        Result::Ok(v) => Result::Ok(v),
        Result::Err(e) => Result::Err(dispatch_module_error(e)),
    }
}

} // verus!
