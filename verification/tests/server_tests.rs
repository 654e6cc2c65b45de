use esp32_nimble::server::{
    BLEServer, ChrRef, EventActions, GapEvent, StackReply, StartAction, StartPhase,
    Subscription, CONN_HANDLE_NONE, MAX_CONNECTIONS, PROP_INDICATE, PROP_NOTIFY,
};

/// Drives a whole successful activation, handing out handles 100, 101, ...
/// for the services in order.
fn run_start(server: &mut BLEServer) -> StartAction {
    let mut action = server.start();
    let mut next_handle: u16 = 100;
    loop {
        match action {
            StartAction::Complete | StartAction::Failed { .. } => return action,
            StartAction::CommitService { .. } => {
                action = server.start_continue(StackReply::Done);
            }
            StartAction::BeginServing => {
                action = server.start_continue(StackReply::Done);
            }
            StartAction::ResolveService { .. } => {
                action = server.start_continue(StackReply::Handle { handle: next_handle });
                next_handle += 1;
            }
        }
    }
}

fn no_actions() -> EventActions {
    EventActions { lookup_connect: None, notify_disconnect: None, restart_advertising: false }
}

#[test]
fn new_server_defaults() {
    let s = BLEServer::new();
    assert!(!s.started);
    assert!(s.advertise_on_disconnect);
    assert_eq!(s.connected_count(), 0);
    assert_eq!(s.services.len(), 0);
    assert_eq!(s.notify_characteristics.len(), 0);
    assert_eq!(s.indicate_wait, vec![CONN_HANDLE_NONE; MAX_CONNECTIONS]);
    assert_eq!(s.start_phase, StartPhase::Idle);
}

#[test]
fn start_with_no_services_completes() {
    let mut s = BLEServer::new();
    assert_eq!(s.start(), StartAction::BeginServing);
    assert_eq!(s.start_continue(StackReply::Done), StartAction::Complete);
    assert!(s.started);
    assert_eq!(s.notify_characteristics.len(), 0);
}

#[test]
fn start_walks_commit_serve_resolve_in_order() {
    let mut s = BLEServer::new();
    s.create_service(0x180F);
    s.create_service(0x181A);
    assert_eq!(s.start(), StartAction::CommitService { index: 0, uuid: 0x180F });
    assert_eq!(
        s.start_continue(StackReply::Done),
        StartAction::CommitService { index: 1, uuid: 0x181A }
    );
    assert_eq!(s.start_continue(StackReply::Done), StartAction::BeginServing);
    assert_eq!(
        s.start_continue(StackReply::Done),
        StartAction::ResolveService { index: 0, uuid: 0x180F }
    );
    assert_eq!(
        s.start_continue(StackReply::Handle { handle: 40 }),
        StartAction::ResolveService { index: 1, uuid: 0x181A }
    );
    assert_eq!(s.start_continue(StackReply::Handle { handle: 60 }), StartAction::Complete);
    assert!(s.started);
    assert_eq!(s.services[0].handle, 40);
    assert_eq!(s.services[1].handle, 60);
}

#[test]
fn index_holds_each_subscribable_characteristic_exactly_once() {
    let mut s = BLEServer::new();
    let first = s.create_service(0x180F);
    let second = s.create_service(0x181A);
    s.add_characteristic(first, 10, PROP_NOTIFY);
    s.add_characteristic(first, 11, 0x0002); // read-only: never indexed
    s.add_characteristic(first, 12, PROP_INDICATE);
    s.add_characteristic(second, 20, PROP_NOTIFY | PROP_INDICATE);
    assert_eq!(run_start(&mut s), StartAction::Complete);
    assert_eq!(
        s.notify_characteristics,
        vec![
            ChrRef { svc: 0, chr: 0 },
            ChrRef { svc: 0, chr: 2 },
            ChrRef { svc: 1, chr: 0 },
        ]
    );
}

#[test]
fn second_start_is_a_no_op() {
    let mut s = BLEServer::new();
    let svc = s.create_service(0x180F);
    s.add_characteristic(svc, 10, PROP_NOTIFY);
    assert_eq!(run_start(&mut s), StartAction::Complete);
    let index_before = s.notify_characteristics.clone();
    let handle_before = s.services[0].handle;
    // Complete straight away: no commit, serve, or resolve action is asked for.
    assert_eq!(s.start(), StartAction::Complete);
    assert!(s.started);
    assert_eq!(s.notify_characteristics, index_before);
    assert_eq!(s.services[0].handle, handle_before);
}

#[test]
fn failed_commit_of_second_service_aborts_activation() {
    let mut s = BLEServer::new();
    s.create_service(0x180F);
    s.create_service(0x181A);
    assert_eq!(s.start(), StartAction::CommitService { index: 0, uuid: 0x180F });
    assert_eq!(
        s.start_continue(StackReply::Done),
        StartAction::CommitService { index: 1, uuid: 0x181A }
    );
    assert_eq!(
        s.start_continue(StackReply::Error { code: 0x0103 }),
        StartAction::Failed { code: 0x0103 }
    );
    assert!(!s.started);
    assert_eq!(s.notify_characteristics.len(), 0);
    assert_eq!(s.start_phase, StartPhase::Idle);
}

#[test]
fn failed_begin_serving_aborts_activation() {
    let mut s = BLEServer::new();
    s.create_service(0x180F);
    assert_eq!(s.start(), StartAction::CommitService { index: 0, uuid: 0x180F });
    assert_eq!(s.start_continue(StackReply::Done), StartAction::BeginServing);
    assert_eq!(s.start_continue(StackReply::Error { code: 7 }), StartAction::Failed { code: 7 });
    assert!(!s.started);
}

#[test]
fn failed_resolve_aborts_activation_and_allows_retry() {
    let mut s = BLEServer::new();
    s.create_service(0x180F);
    s.start();
    s.start_continue(StackReply::Done);
    assert_eq!(
        s.start_continue(StackReply::Done),
        StartAction::ResolveService { index: 0, uuid: 0x180F }
    );
    assert_eq!(s.start_continue(StackReply::Error { code: 1 }), StartAction::Failed { code: 1 });
    assert!(!s.started);
    // activation may be retried from scratch
    assert_eq!(run_start(&mut s), StartAction::Complete);
    assert!(s.started);
}

#[test]
fn successful_connect_is_recorded_and_descriptor_lookup_requested() {
    let mut s = BLEServer::new();
    let actions = s.handle_gap_event(&GapEvent::Connect { conn_handle: 5, status: 0 });
    assert_eq!(s.connections, vec![5]);
    assert_eq!(s.connected_count(), 1);
    assert_eq!(
        actions,
        EventActions {
            lookup_connect: Some(5),
            notify_disconnect: None,
            restart_advertising: false
        }
    );
}

#[test]
fn failed_connect_changes_nothing() {
    let mut s = BLEServer::new();
    let actions = s.handle_gap_event(&GapEvent::Connect { conn_handle: 5, status: 574 });
    assert_eq!(s.connections.len(), 0);
    assert_eq!(actions, no_actions());
}

#[test]
fn connection_count_tracks_connects_minus_disconnects() {
    let mut s = BLEServer::new();
    for h in [1u16, 2, 3] {
        s.handle_gap_event(&GapEvent::Connect { conn_handle: h, status: 0 });
    }
    s.handle_gap_event(&GapEvent::Connect { conn_handle: 4, status: 8 }); // failed: not counted
    assert_eq!(s.connected_count(), 3);
    s.handle_gap_event(&GapEvent::Disconnect { conn_handle: 2, reason: 0 });
    assert_eq!(s.connected_count(), 2);
    assert!(s.connections.contains(&1));
    assert!(s.connections.contains(&3));
    assert!(!s.connections.contains(&2));
}

#[test]
fn disconnect_always_asks_for_the_callback_even_for_unknown_handles() {
    let mut s = BLEServer::new();
    let actions = s.handle_gap_event(&GapEvent::Disconnect { conn_handle: 99, reason: 19 });
    assert_eq!(s.connections.len(), 0);
    assert_eq!(actions.notify_disconnect, Some(99));
    assert_eq!(actions.lookup_connect, None);
}

#[test]
fn disconnect_respects_advertise_policy() {
    let mut s = BLEServer::new();
    let actions = s.handle_gap_event(&GapEvent::Disconnect { conn_handle: 1, reason: 0 });
    assert!(actions.restart_advertising);
    s.advertise_on_disconnect = false;
    let actions = s.handle_gap_event(&GapEvent::Disconnect { conn_handle: 1, reason: 0 });
    assert!(!actions.restart_advertising);
}

#[test]
fn full_lifecycle_scenario() {
    let mut s = BLEServer::new();
    let svc = s.create_service(0x180F);
    s.add_characteristic(svc, 42, PROP_NOTIFY);
    assert_eq!(run_start(&mut s), StartAction::Complete);
    assert_eq!(s.notify_characteristics.len(), 1);

    let actions = s.handle_gap_event(&GapEvent::Connect { conn_handle: 5, status: 0 });
    assert_eq!(s.connections, vec![5]);
    assert_eq!(actions.lookup_connect, Some(5));

    let actions = s.handle_gap_event(&GapEvent::Subscribe {
        conn_handle: 5,
        attr_handle: 42,
        cur_notify: true,
        cur_indicate: false,
    });
    assert_eq!(actions, no_actions());
    assert_eq!(
        s.services[0].characteristics[0].subscriptions,
        vec![Subscription { conn_handle: 5, notify: true, indicate: false }]
    );

    let actions = s.handle_gap_event(&GapEvent::Disconnect { conn_handle: 5, reason: 0 });
    assert_eq!(s.connections.len(), 0);
    assert_eq!(actions.notify_disconnect, Some(5));
}

#[test]
fn subscribe_for_unknown_attribute_handle_is_ignored() {
    let mut s = BLEServer::new();
    let svc = s.create_service(0x180F);
    s.add_characteristic(svc, 42, PROP_NOTIFY);
    run_start(&mut s);
    let actions = s.handle_gap_event(&GapEvent::Subscribe {
        conn_handle: 5,
        attr_handle: 77,
        cur_notify: true,
        cur_indicate: false,
    });
    assert_eq!(actions, no_actions());
    assert_eq!(s.services[0].characteristics[0].subscriptions.len(), 0);
}

#[test]
fn subscribe_replaces_the_peers_entry_and_unsubscribe_removes_it() {
    let mut s = BLEServer::new();
    let svc = s.create_service(0x180F);
    s.add_characteristic(svc, 42, PROP_NOTIFY | PROP_INDICATE);
    run_start(&mut s);
    s.handle_gap_event(&GapEvent::Subscribe {
        conn_handle: 5,
        attr_handle: 42,
        cur_notify: true,
        cur_indicate: false,
    });
    s.handle_gap_event(&GapEvent::Subscribe {
        conn_handle: 5,
        attr_handle: 42,
        cur_notify: false,
        cur_indicate: true,
    });
    assert_eq!(
        s.services[0].characteristics[0].subscriptions,
        vec![Subscription { conn_handle: 5, notify: false, indicate: true }]
    );
    s.handle_gap_event(&GapEvent::Subscribe {
        conn_handle: 5,
        attr_handle: 42,
        cur_notify: false,
        cur_indicate: false,
    });
    assert_eq!(s.services[0].characteristics[0].subscriptions.len(), 0);
}

#[test]
fn indicate_permission_round_trip_through_failed_indication() {
    let mut s = BLEServer::new();
    let svc = s.create_service(0x180F);
    s.add_characteristic(svc, 42, PROP_INDICATE);
    run_start(&mut s);

    assert!(s.try_begin_indicate(7));
    assert!(s.record_indicate_wait(7));
    assert!(!s.try_begin_indicate(7));

    let actions = s.handle_gap_event(&GapEvent::NotifyTx {
        conn_handle: 7,
        attr_handle: 42,
        indication: true,
        status: 14,
    });
    assert_eq!(actions, no_actions());
    assert!(s.try_begin_indicate(7));
}

#[test]
fn successful_indication_result_also_frees_the_wait_flag() {
    // An acknowledged indication is as terminal as a failed one: both free
    // the slot, so the next indication to the peer is never blocked.
    let mut s = BLEServer::new();
    let svc = s.create_service(0x180F);
    s.add_characteristic(svc, 42, PROP_INDICATE);
    run_start(&mut s);
    s.record_indicate_wait(7);
    assert!(!s.try_begin_indicate(7));
    s.handle_gap_event(&GapEvent::NotifyTx {
        conn_handle: 7,
        attr_handle: 42,
        indication: true,
        status: 0,
    });
    assert!(s.try_begin_indicate(7));
}

#[test]
fn non_indication_transmission_result_never_clears_the_flag() {
    let mut s = BLEServer::new();
    let svc = s.create_service(0x180F);
    s.add_characteristic(svc, 42, PROP_NOTIFY | PROP_INDICATE);
    run_start(&mut s);
    s.record_indicate_wait(7);
    s.handle_gap_event(&GapEvent::NotifyTx {
        conn_handle: 7,
        attr_handle: 42,
        indication: false,
        status: 14,
    });
    assert!(!s.try_begin_indicate(7));
}

#[test]
fn transmission_result_for_unknown_attribute_handle_is_ignored() {
    let mut s = BLEServer::new();
    let svc = s.create_service(0x180F);
    s.add_characteristic(svc, 42, PROP_INDICATE);
    run_start(&mut s);
    s.record_indicate_wait(7);
    s.handle_gap_event(&GapEvent::NotifyTx {
        conn_handle: 7,
        attr_handle: 77,
        indication: true,
        status: 14,
    });
    assert!(!s.try_begin_indicate(7));
}

#[test]
fn record_indicate_wait_fails_when_every_slot_is_taken() {
    let mut s = BLEServer::new();
    assert!(s.record_indicate_wait(1));
    assert!(s.record_indicate_wait(2));
    assert!(s.record_indicate_wait(3));
    assert!(!s.record_indicate_wait(4));
    assert!(s.try_begin_indicate(4));
    assert!(!s.try_begin_indicate(2));
}

#[test]
fn clear_indicate_wait_for_absent_handle_is_a_no_op() {
    let mut s = BLEServer::new();
    s.record_indicate_wait(1);
    let table_before = s.indicate_wait.clone();
    s.clear_indicate_wait(9);
    assert_eq!(s.indicate_wait, table_before);
}

#[test]
fn clear_indicate_wait_frees_the_slot() {
    let mut s = BLEServer::new();
    s.record_indicate_wait(7);
    assert!(!s.try_begin_indicate(7));
    s.clear_indicate_wait(7);
    assert!(s.try_begin_indicate(7));
    assert_eq!(s.indicate_wait, vec![CONN_HANDLE_NONE; MAX_CONNECTIONS]);
}

#[test]
fn other_events_change_nothing() {
    let mut s = BLEServer::new();
    s.handle_gap_event(&GapEvent::Connect { conn_handle: 5, status: 0 });
    let conns_before = s.connections.clone();
    let actions = s.handle_gap_event(&GapEvent::Other);
    assert_eq!(actions, no_actions());
    assert_eq!(s.connections, conns_before);
}
