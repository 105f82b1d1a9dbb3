use kiteflow::host::{
    add_event_handler, call_response_outcome, event_response_for, set_event_error_message,
    Call, CallConfig, CallData, CallResponse, ConfigSchema, Event, EventData, EventResponse,
    HandlerRegistry, HostError, Manifest, ModuleError,
};

#[test]
fn event_kind_is_initiate() {
    let event = Event {
        app_id: "app".to_string(),
        guild_id: "guild".to_string(),
        data: EventData::Initiate,
    };
    assert_eq!(event.kind(), "INITIATE");
    assert_eq!(EventData::Initiate.kind(), "INITIATE");
}

#[test]
fn call_kind_is_sleep() {
    let call = Call { config: CallConfig::default(), data: CallData::Sleep { duration: 100 } };
    assert_eq!(call.kind(), "SLEEP");
    assert_eq!(CallData::Sleep { duration: 1 }.kind(), "SLEEP");
}

#[test]
fn call_config_default_is_empty() {
    let c = CallConfig::default();
    assert_eq!(c.reason, "");
    assert_eq!(c.timeout, 0);
    assert!(!c.wait);
}

#[test]
fn host_error_new_keeps_fields() {
    let e = HostError::new("no_response", "No call response from host");
    assert_eq!(e.code, "no_response");
    assert_eq!(e.message, "No call response from host");
}

#[test]
fn module_error_from_host_error() {
    let e = HostError::new("some_code", "some message");
    let m = ModuleError::from(e);
    assert_eq!(m.code, "some_code");
    assert_eq!(m.message, "some message");
}

#[test]
fn call_outcome_success_passes_through() {
    let r = call_response_outcome(CallResponse { success: true, error: None });
    let resp = r.unwrap();
    assert!(resp.success);
    assert!(resp.error.is_none());
}

#[test]
fn call_outcome_failure_carries_error() {
    let r = call_response_outcome(CallResponse {
        success: false,
        error: Some(HostError::new("denied", "not allowed")),
    });
    let err = r.unwrap_err();
    assert_eq!(err.code, "denied");
    assert_eq!(err.message, "not allowed");
}

#[test]
fn call_outcome_failure_without_error() {
    let r = call_response_outcome(CallResponse { success: false, error: None });
    let err = r.unwrap_err();
    assert_eq!(err.code, "no_error");
    assert_eq!(err.message, "No error message from host");
}

#[test]
fn registry_counts_registrations_per_kind() {
    let mut registry = HandlerRegistry::new();
    let mut manifest = Manifest::default();
    add_event_handler(&mut registry, &mut manifest, &"A".to_string());
    add_event_handler(&mut registry, &mut manifest, &"B".to_string());
    add_event_handler(&mut registry, &mut manifest, &"A".to_string());
    assert_eq!(registry.handler_count(&"A".to_string()), 2);
    assert_eq!(registry.handler_count(&"B".to_string()), 1);
    assert_eq!(registry.handler_count(&"C".to_string()), 0);
    assert_eq!(manifest.events, vec!["A".to_string(), "B".to_string(), "A".to_string()]);
}

#[test]
fn error_message_response_shape() {
    let r = set_event_error_message("No handlers for event kind: FOO".to_string());
    assert!(!r.success);
    let e = r.error.unwrap();
    assert_eq!(e.code, "unknown");
    assert_eq!(e.message, "No handlers for event kind: FOO");
}

#[test]
fn responses_for_handler_outcomes() {
    let ok: EventResponse = event_response_for(Ok(()));
    assert!(ok.success);
    assert!(ok.error.is_none());
    let failed = event_response_for(Err(ModuleError {
        code: "c".to_string(),
        message: "m".to_string(),
    }));
    assert!(!failed.success);
    let e = failed.error.unwrap();
    assert_eq!(e.code, "c");
    assert_eq!(e.message, "m");
}

#[test]
fn manifest_default_is_empty() {
    let m = Manifest::default();
    assert!(m.events.is_empty());
    assert!(m.discord_commands.is_empty());
    let _schema: ConfigSchema = m.config_schema;
}
