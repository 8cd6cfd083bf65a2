use turnhammer::client::{
    is_worth_showing, Client, ClientError, Endpoint, Event, Notice, Request,
};

const PROBE: Endpoint = Endpoint::V4 { ip4: 0x0a00_0001, port: 4000 };
const RELAY: Endpoint = Endpoint::V4 { ip4: 0xc000_0201, port: 50000 };
const OTHER: Endpoint = Endpoint::V6 { ip6: 1, port: 4000, flowinfo: 0, scope_id: 0 };

#[test]
fn client_becomes_ready() {
    let mut client = Client::new(PROBE);
    let reaction = client.on_event(Event::AllocationGranted(RELAY)).unwrap();
    assert!(matches!(reaction.request, Request::AddPermission(p) if p == PROBE));
    assert_eq!(reaction.notice, None);
    assert_eq!(reaction.ready, None);

    let reaction = client.on_event(Event::PermissionCreated(PROBE)).unwrap();
    assert!(matches!(reaction.request, Request::Noop));
    assert_eq!(reaction.notice, None);
    assert_eq!(reaction.ready, Some(RELAY));

    // only once
    let reaction = client.on_event(Event::PermissionCreated(PROBE)).unwrap();
    assert!(matches!(reaction.request, Request::Noop));
    assert_eq!(reaction.notice, None);
    assert_eq!(reaction.ready, None);
}

#[test]
fn first_allocation_stays() {
    let mut client = Client::new(PROBE);
    client.on_event(Event::AllocationGranted(RELAY)).unwrap();
    let reaction = client.on_event(Event::AllocationGranted(OTHER)).unwrap();
    assert!(matches!(reaction.request, Request::AddPermission(p) if p == PROBE));
    assert_eq!(reaction.notice, Some(Notice::GrantedAgain));
    let reaction = client.on_event(Event::PermissionCreated(PROBE)).unwrap();
    assert_eq!(reaction.ready, Some(RELAY));
}

#[test]
fn permission_for_somebody_else() {
    let mut client = Client::new(PROBE);
    client.on_event(Event::AllocationGranted(RELAY)).unwrap();
    let reaction = client.on_event(Event::PermissionCreated(OTHER)).unwrap();
    assert!(matches!(reaction.request, Request::Noop));
    assert_eq!(reaction.notice, Some(Notice::WrongPermission));
    assert_eq!(reaction.ready, None);
    let reaction = client.on_event(Event::PermissionCreated(PROBE)).unwrap();
    assert_eq!(reaction.ready, Some(RELAY));
}

#[test]
fn permission_before_allocation() {
    for peer in [PROBE, OTHER] {
        let mut client = Client::new(PROBE);
        let error = client.on_event(Event::PermissionCreated(peer)).unwrap_err();
        assert_eq!(error, ClientError::PermissionBeforeAllocation);
        assert_eq!(
            error.message(),
            "Strangely, a permission was granted even before the allocation"
        );
    }
}

#[test]
fn datagrams_are_echoed() {
    let mut client = Client::new(PROBE);
    for from in [PROBE, OTHER] {
        let reaction = client.on_event(Event::RecvFrom(from, vec![1, 2, 3])).unwrap();
        match reaction.request {
            Request::SendTo(to, data) => {
                assert_eq!(to, from);
                assert_eq!(data, vec![1, 2, 3]);
            }
            _ => panic!("not an echo"),
        }
        assert_eq!(reaction.notice, None);
        assert_eq!(reaction.ready, None);
    }
}

#[test]
fn other_events() {
    let mut client = Client::new(PROBE);
    let reaction = client.on_event(Event::Other).unwrap();
    assert!(matches!(reaction.request, Request::Noop));
    assert_eq!(reaction.notice, None);
    let reaction = client.on_event(Event::Failed).unwrap();
    assert!(matches!(reaction.request, Request::Noop));
    assert_eq!(reaction.notice, Some(Notice::Failure));
    let reaction = client.on_event(Event::Shutdown).unwrap();
    assert!(matches!(reaction.request, Request::Disconnect));
    assert_eq!(reaction.notice, None);
}

#[test]
fn notices_in_words() {
    assert_eq!(
        Notice::GrantedAgain.message(),
        Some("AllocationGranted happened one more time?")
    );
    assert_eq!(
        Notice::WrongPermission.message(),
        Some("Strangely, granted permission is not the same as we requested it")
    );
    assert_eq!(Notice::Failure.message(), None);
}

#[test]
fn shutdown_is_not_worth_showing() {
    assert!(!is_worth_showing(&"TURN client received a shutdown request".to_string()));
    assert!(is_worth_showing(&"TURN client received a shutdown request.".to_string()));
    assert!(is_worth_showing(&String::new()));
}
