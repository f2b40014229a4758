use deribit::rpc::{
    ApiError, CallRegistry, InboundKind, ResponseEnvelope, Routed, RpcError, resolve_envelope,
};

#[test]
fn test_registry_ids_increase() {
    let mut reg = CallRegistry::new();
    assert_eq!(0, reg.allocate_id());
    assert_eq!(1, reg.allocate_id());
    assert_eq!(2, reg.allocate_id());
}

#[test]
fn test_registry_take_pending_once() {
    let mut reg = CallRegistry::new();
    let id = reg.allocate_id();
    reg.register(id);
    // The matching response clears the entry exactly once; a duplicate
    // response finds nothing.
    assert_eq!(true, reg.take_pending(id));
    assert_eq!(false, reg.take_pending(id));
}

#[test]
fn test_registry_routes_by_id_in_any_order() {
    let mut reg = CallRegistry::new();
    let a = reg.allocate_id();
    reg.register(a);
    let b = reg.allocate_id();
    reg.register(b);

    // Responses may arrive in any order; matching is strictly by identifier.
    assert_eq!(Routed::CompletedCall, reg.route(InboundKind::Response(b)));
    assert_eq!(Routed::CompletedCall, reg.route(InboundKind::Response(a)));
    // Late or unexpected identifiers are dropped, not fatal.
    assert_eq!(Routed::UnknownId, reg.route(InboundKind::Response(a)));
    assert_eq!(Routed::UnknownId, reg.route(InboundKind::Response(99)));
    // Frames without an identifier go to the notification stream.
    assert_eq!(Routed::Notification, reg.route(InboundKind::Notification));
}

#[test]
fn test_resolve_envelope_result() {
    let env: ResponseEnvelope<u32> = ResponseEnvelope {
        id: 7,
        result: Some(42),
        error: None,
    };
    assert_eq!(42, resolve_envelope(env).unwrap());
}

#[test]
fn test_resolve_envelope_rpc_error() {
    let env: ResponseEnvelope<u32> = ResponseEnvelope {
        id: 7,
        result: None,
        error: Some(RpcError {
            code: 10009,
            message: String::from("not_enough_funds"),
        }),
    };
    match resolve_envelope(env) {
        Err(ApiError::Rpc(e)) => {
            assert_eq!(10009, e.code);
            assert_eq!("not_enough_funds", e.message);
        }
        other => panic!("expected the venue's error, got {:?}", other),
    }
}

#[test]
fn test_resolve_envelope_protocol_violation() {
    // A response carrying neither result nor error fails the call.
    let env: ResponseEnvelope<u32> = ResponseEnvelope {
        id: 7,
        result: None,
        error: None,
    };
    assert!(matches!(resolve_envelope(env), Err(ApiError::Protocol)));
}
