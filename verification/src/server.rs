//! The GATT server core: service registry, two-phase activation sequencer,
//! event router, connection list, and indicate-wait tracker.
//!
//! The underlying host stack is an external collaborator. Activation and
//! event delivery are therefore phrased as a state machine over plain
//! values: the caller performs each stack call that a returned action asks
//! for and feeds the outcome back in.

use vstd::prelude::*;

verus! {

/// Sentinel for an indicate-wait slot with no confirmation pending.
pub const CONN_HANDLE_NONE: u16 = 0xFFFF;

/// Capacity of the indicate-wait table: the platform's maximum number of
/// concurrent connections.
pub const MAX_CONNECTIONS: usize = 3;

/// Capability bit: the characteristic supports unacknowledged value pushes.
pub const PROP_NOTIFY: u16 = 0x0010;

/// Capability bit: the characteristic supports acknowledged value pushes.
pub const PROP_INDICATE: u16 = 0x0020;

/// Whether a capability bitmask includes notify or indicate support.
pub open spec fn subscribable(properties: u16) -> bool {
    properties & (PROP_NOTIFY | PROP_INDICATE) != 0
}

/// Which delivery modes one peer has enabled on one characteristic.
#[derive(Clone, Copy, Debug, PartialEq, Eq, Structural)]
pub struct Subscription {
    pub conn_handle: u16,
    pub notify: bool,
    pub indicate: bool,
}

/// One characteristic: capability bitmask, stack-assigned attribute handle,
/// and per-connection subscription state.
pub struct BLECharacteristic {
    pub handle: u16,
    pub properties: u16,
    pub subscriptions: Vec<Subscription>,
}

/// Mathematical value of a characteristic.
#[verifier::ext_equal]
pub struct CharView {
    pub handle: u16,
    pub properties: u16,
    pub subscriptions: Seq<Subscription>,
}

impl View for BLECharacteristic {
    type V = CharView;

    open spec fn view(&self) -> CharView {
        CharView {
            handle: self.handle,
            properties: self.properties,
            subscriptions: self.subscriptions@,
        }
    }
}

/// One service: identifier, stack-assigned handle (valid only after
/// activation), and its ordered characteristics.
pub struct BLEService {
    pub uuid: u32,
    pub handle: u16,
    pub characteristics: Vec<BLECharacteristic>,
}

/// Mathematical value of a service.
#[verifier::ext_equal]
pub struct ServiceView {
    pub uuid: u32,
    pub handle: u16,
    pub characteristics: Seq<CharView>,
}

impl View for BLEService {
    type V = ServiceView;

    open spec fn view(&self) -> ServiceView {
        ServiceView {
            uuid: self.uuid,
            handle: self.handle,
            characteristics: self.characteristics@.map_values(|c: BLECharacteristic| c@),
        }
    }
}

/// Position of a characteristic in the registry: service index and
/// characteristic index within that service.
#[derive(Clone, Copy, Debug, PartialEq, Eq, Structural)]
pub struct ChrRef {
    pub svc: usize,
    pub chr: usize,
}

/// Where the activation sequence stands between two stack calls.
#[derive(Clone, Copy, Debug, PartialEq, Eq, Structural)]
pub enum StartPhase {
    /// No activation in progress.
    Idle,
    /// Waiting for the attribute table of service `next` to be committed.
    Commit { next: usize },
    /// Waiting for the global begin-serving call.
    Serve,
    /// Waiting for the handle of service `next` to be resolved.
    Resolve { next: usize },
}

/// The next stack call the caller must perform, or the outcome of the
/// whole activation sequence.
#[derive(Clone, Copy, Debug, PartialEq, Eq, Structural)]
pub enum StartAction {
    /// Commit the attribute table of the service at `index` (identifier
    /// `uuid`) and report the outcome.
    CommitService { index: usize, uuid: u32 },
    /// Ask the stack to begin serving GATT requests and report the outcome.
    BeginServing,
    /// Look up the stack-assigned handle of the service at `index`
    /// (identifier `uuid`) and report the outcome.
    ResolveService { index: usize, uuid: u32 },
    /// Activation finished: the server is started.
    Complete,
    /// A stack call failed with `code`; activation was abandoned and may be
    /// retried from scratch.
    Failed { code: u32 },
}

/// Outcome of one stack call, reported back to the sequencer.
#[derive(Clone, Copy, Debug, PartialEq, Eq, Structural)]
pub enum StackReply {
    /// The commit or begin-serving call succeeded.
    Done,
    /// The handle lookup succeeded with this handle.
    Handle { handle: u16 },
    /// The call failed with this stack error code.
    Error { code: u32 },
}

/// One multiplexed stack event, already decoded into plain values.
#[derive(Clone, Copy, Debug, PartialEq, Eq, Structural)]
pub enum GapEvent {
    /// A link came up (status 0) or failed to establish (status nonzero).
    Connect { conn_handle: u16, status: i32 },
    /// A link went down.
    Disconnect { conn_handle: u16, reason: i32 },
    /// A peer changed its subscription on the characteristic at
    /// `attr_handle`.
    Subscribe { conn_handle: u16, attr_handle: u16, cur_notify: bool, cur_indicate: bool },
    /// Outcome of a value push from the characteristic at `attr_handle`;
    /// `indication` tells an acknowledged push from an unacknowledged one.
    NotifyTx { conn_handle: u16, attr_handle: u16, indication: bool, status: i32 },
    /// Any event kind the server does not route.
    Other,
}

/// What the caller must do after the router has handled one event.
#[derive(Clone, Copy, Debug, PartialEq, Eq, Structural)]
pub struct EventActions {
    /// Fetch the connection descriptor for this handle from the stack and,
    /// if found, invoke the user connect callback with it.
    pub lookup_connect: Option<u16>,
    /// Invoke the user disconnect callback with the event's descriptor.
    pub notify_disconnect: Option<u16>,
    /// Ask the stack to resume advertising; a failure is logged, never
    /// escalated.
    pub restart_advertising: bool,
}

/// The actions value for an event that asks nothing of the caller.
pub open spec fn no_actions() -> EventActions {
    EventActions { lookup_connect: None, notify_disconnect: None, restart_advertising: false }
}

/// The GATT server: registry, activation state, connection list,
/// subscribable-characteristic index, and indicate-wait table.
pub struct BLEServer {
    /// One-way latch: set only when activation has fully succeeded.
    pub started: bool,
    /// Policy: resume advertising when a link goes down.
    pub advertise_on_disconnect: bool,
    /// Ordered registry of services.
    pub services: Vec<BLEService>,
    /// Flat index of every notify- or indicate-capable characteristic,
    /// built once at activation.
    pub notify_characteristics: Vec<ChrRef>,
    /// Handles of the links that are currently up.
    pub connections: Vec<u16>,
    /// Slot `k` holds the handle of a connection awaiting an indication
    /// acknowledgement, or `CONN_HANDLE_NONE`.
    pub indicate_wait: Vec<u16>,
    /// Where the activation sequence stands.
    pub start_phase: StartPhase,
}

/// Mathematical value of the whole server.
#[verifier::ext_equal]
pub struct ServerView {
    pub started: bool,
    pub advertise_on_disconnect: bool,
    pub services: Seq<ServiceView>,
    pub notify_characteristics: Seq<ChrRef>,
    pub connections: Seq<u16>,
    pub indicate_wait: Seq<u16>,
    pub start_phase: StartPhase,
}

impl View for BLEServer {
    type V = ServerView;

    open spec fn view(&self) -> ServerView {
        ServerView {
            started: self.started,
            advertise_on_disconnect: self.advertise_on_disconnect,
            services: self.services@.map_values(|s: BLEService| s@),
            notify_characteristics: self.notify_characteristics@,
            connections: self.connections@,
            indicate_wait: self.indicate_wait@,
            start_phase: self.start_phase,
        }
    }
}

/// An index entry points at an existing characteristic.
pub open spec fn entry_valid(s: ServerView, e: ChrRef) -> bool {
    e.svc < s.services.len() && e.chr < s.services[e.svc as int].characteristics.len()
}

/// The characteristic an index entry points at.
pub open spec fn entry_char(s: ServerView, e: ChrRef) -> CharView {
    s.services[e.svc as int].characteristics[e.chr as int]
}

/// No two entries of a subscription list concern the same connection.
pub open spec fn subs_unique(subs: Seq<Subscription>) -> bool {
    forall|i: int, j: int|
        0 <= i < subs.len() && 0 <= j < subs.len() && i != j
            ==> subs[i].conn_handle != subs[j].conn_handle
}

/// Well-formedness of the server state.
pub open spec fn server_wf(s: ServerView) -> bool {
    &&& s.indicate_wait.len() == MAX_CONNECTIONS
    &&& forall|k: int|
        0 <= k < s.notify_characteristics.len() ==> entry_valid(
            s,
            #[trigger] s.notify_characteristics[k],
        )
    &&& (!s.started ==> s.notify_characteristics.len() == 0)
    &&& forall|i: int, j: int|
        0 <= i < s.services.len() && 0 <= j < s.services[i].characteristics.len()
            ==> subs_unique(#[trigger] s.services[i].characteristics[j].subscriptions)
    &&& match s.start_phase {
        StartPhase::Idle => true,
        StartPhase::Commit { next } => next < s.services.len() && !s.started,
        StartPhase::Serve => !s.started,
        StartPhase::Resolve { next } => next < s.services.len() && !s.started,
    }
}

/// Index of the first entry at or after `k` whose connection handle is
/// `conn`, or -1 when there is none.
pub open spec fn find_sub(subs: Seq<Subscription>, conn: u16, k: int) -> int
    decreases subs.len() - k,
{
    if k < 0 || k >= subs.len() {
        -1
    } else if subs[k].conn_handle == conn {
        k
    } else {
        find_sub(subs, conn, k + 1)
    }
}

/// A subscription list after one peer request: the peer's entry is
/// created, replaced, or removed according to the delivery modes it now
/// has enabled.
pub open spec fn subs_after(
    subs: Seq<Subscription>,
    conn: u16,
    notify: bool,
    indicate: bool,
) -> Seq<Subscription> {
    let k = find_sub(subs, conn, 0);
    if notify || indicate {
        let sub = Subscription { conn_handle: conn, notify, indicate };
        if k == -1 {
            subs.push(sub)
        } else {
            subs.update(k, sub)
        }
    } else {
        if k == -1 {
            subs
        } else {
            subs.update(k, subs.last()).drop_last()
        }
    }
}

impl BLECharacteristic {
    /// Position of the peer's entry in the subscription list, if any.
    fn find_subscription(&self, conn_handle: u16) -> (r: Option<usize>)
        ensures
            match r {
                Option::Some(k) => {
                    &&& k < self@.subscriptions.len()
                    &&& self@.subscriptions[k as int].conn_handle == conn_handle
                    &&& find_sub(self@.subscriptions, conn_handle, 0) == k as int
                },
                Option::None => {
                    &&& find_sub(self@.subscriptions, conn_handle, 0) == -1
                    &&& forall|j: int|
                        0 <= j < self@.subscriptions.len()
                            ==> self@.subscriptions[j].conn_handle != conn_handle
                },
            },
    {
        let n = self.subscriptions.len();
        let mut k: usize = 0;
        while k < n
            invariant
                n == self@.subscriptions.len(),
                k <= n,
                forall|j: int| 0 <= j < k ==> self@.subscriptions[j].conn_handle != conn_handle,
                find_sub(self@.subscriptions, conn_handle, 0) == find_sub(
                    self@.subscriptions,
                    conn_handle,
                    k as int,
                ),
            decreases n - k,
        {
            if self.subscriptions[k].conn_handle == conn_handle {
                return Some(k);
            }
            proof {
                assert(find_sub(self@.subscriptions, conn_handle, k as int) == find_sub(
                    self@.subscriptions,
                    conn_handle,
                    k as int + 1,
                ));
            }
            k += 1;
        }
        None
    }

    /// Records which delivery modes the peer on `conn_handle` has enabled:
    /// its entry is created or replaced, or removed when it enabled
    /// neither mode.
    pub fn subscribe(&mut self, conn_handle: u16, cur_notify: bool, cur_indicate: bool)
        ensures
            final(self)@ == (CharView {
                subscriptions: subs_after(
                    old(self)@.subscriptions,
                    conn_handle,
                    cur_notify,
                    cur_indicate,
                ),
                ..old(self)@
            }),
            subs_unique(old(self)@.subscriptions) ==> subs_unique(final(self)@.subscriptions),
    {
        let found = self.find_subscription(conn_handle);
        if cur_notify || cur_indicate {
            let sub = Subscription { conn_handle, notify: cur_notify, indicate: cur_indicate };
            match found {
                Some(idx) => {
                    self.subscriptions[idx] = sub;
                    proof {
                        if subs_unique(old(self)@.subscriptions) {
                            assert forall|i: int, j: int|
                                0 <= i < self@.subscriptions.len() && 0 <= j
                                    < self@.subscriptions.len() && i != j implies self@
                                .subscriptions[i].conn_handle != self@.subscriptions[j].conn_handle by {
                                assert(old(self)@.subscriptions[idx as int].conn_handle
                                    == conn_handle);
                            }
                        }
                    }
                },
                None => {
                    self.subscriptions.push(sub);
                },
            }
        } else {
            match found {
                Some(idx) => {
                    self.subscriptions.swap_remove(idx);
                    proof {
                        if subs_unique(old(self)@.subscriptions) {
                            assert forall|i: int, j: int|
                                0 <= i < self@.subscriptions.len() && 0 <= j
                                    < self@.subscriptions.len() && i != j implies self@
                                .subscriptions[i].conn_handle != self@.subscriptions[j].conn_handle by {}
                        }
                    }
                },
                None => {},
            }
        }
    }
}

/// Strict lexicographic order on index entries: by service, then by
/// characteristic.
pub open spec fn lex_lt(a: ChrRef, b: ChrRef) -> bool {
    a.svc < b.svc || (a.svc == b.svc && a.chr < b.chr)
}

/// The index entries are strictly increasing, so no entry repeats.
pub open spec fn index_lex_sorted(index: Seq<ChrRef>) -> bool {
    forall|k1: int, k2: int|
        0 <= k1 < k2 < index.len() ==> lex_lt(#[trigger] index[k1], #[trigger] index[k2])
}

/// The subscribable-characteristic index is sound and complete: every
/// entry points at an existing notify- or indicate-capable characteristic,
/// and every such characteristic of the registry appears in the index.
pub open spec fn index_exact(s: ServerView) -> bool {
    &&& forall|k: int|
        0 <= k < s.notify_characteristics.len() ==> entry_valid(
            s,
            #[trigger] s.notify_characteristics[k],
        ) && subscribable(entry_char(s, s.notify_characteristics[k]).properties)
    &&& forall|i: int, j: int|
        0 <= i < s.services.len() && 0 <= j < s.services[i].characteristics.len()
            && subscribable((#[trigger] s.services[i].characteristics[j]).properties)
            ==> s.notify_characteristics.contains(ChrRef { svc: i as usize, chr: j as usize })
}

/// A registry after activation has resolved the handle of service `next`.
pub open spec fn services_with_handle(
    services: Seq<ServiceView>,
    next: int,
    handle: u16,
) -> Seq<ServiceView> {
    services.update(next, ServiceView { handle, ..services[next] })
}

/// Some slot of the table holds `conn`: an indication to that connection is
/// still awaiting its acknowledgement.
pub open spec fn slot_pending(table: Seq<u16>, conn: u16) -> bool {
    exists|k: int| 0 <= k < table.len() && table[k] == conn
}

/// `after` is `before` with one slot holding `conn` reset to the free
/// sentinel, or `before` itself when no slot holds `conn`.
pub open spec fn cleared_one(before: Seq<u16>, conn: u16, after: Seq<u16>) -> bool {
    if slot_pending(before, conn) {
        exists|k: int|
            0 <= k < before.len() && before[k] == conn && after == before.update(
                k,
                CONN_HANDLE_NONE,
            )
    } else {
        after == before
    }
}

/// The active-connection list after a connect event: the handle is
/// appended on success, nothing changes on a failed link establishment.
pub open spec fn conns_after_connect(conns: Seq<u16>, conn: u16, status: i32) -> Seq<u16> {
    if status == 0 {
        conns.push(conn)
    } else {
        conns
    }
}

/// Index of the first entry at or after `k` equal to `conn`, or -1.
pub open spec fn find_conn(conns: Seq<u16>, conn: u16, k: int) -> int
    decreases conns.len() - k,
{
    if k < 0 || k >= conns.len() {
        -1
    } else if conns[k] == conn {
        k
    } else {
        find_conn(conns, conn, k + 1)
    }
}

/// The active-connection list after a disconnect event: the first
/// occurrence of the handle is removed by swapping the last element into
/// its place (connection order carries no meaning); nothing changes when
/// the handle is not present.
pub open spec fn conns_after_disconnect(conns: Seq<u16>, conn: u16) -> Seq<u16> {
    let k = find_conn(conns, conn, 0);
    if k == -1 {
        conns
    } else {
        conns.update(k, conns.last()).drop_last()
    }
}

/// How one event changes the active-connection list; every event kind but
/// connect and disconnect leaves it alone.
pub open spec fn step_connections(conns: Seq<u16>, ev: GapEvent) -> Seq<u16> {
    match ev {
        GapEvent::Connect { conn_handle, status } => conns_after_connect(conns, conn_handle, status),
        GapEvent::Disconnect { conn_handle, .. } => conns_after_disconnect(conns, conn_handle),
        _ => conns,
    }
}

/// Index of the first subscribable-index entry at or after `k` whose
/// characteristic has attribute handle `attr_handle`, or -1.
pub open spec fn find_chr(s: ServerView, attr_handle: u16, k: int) -> int
    decreases s.notify_characteristics.len() - k,
{
    if k < 0 || k >= s.notify_characteristics.len() {
        -1
    } else if entry_char(s, s.notify_characteristics[k]).handle == attr_handle {
        k
    } else {
        find_chr(s, attr_handle, k + 1)
    }
}

/// The registry after the characteristic at `e` has taken one peer
/// subscription request.
pub open spec fn subscribe_update(
    services: Seq<ServiceView>,
    e: ChrRef,
    conn: u16,
    notify: bool,
    indicate: bool,
) -> Seq<ServiceView> {
    let svc = services[e.svc as int];
    let chr = svc.characteristics[e.chr as int];
    services.update(
        e.svc as int,
        ServiceView {
            characteristics: svc.characteristics.update(
                e.chr as int,
                CharView {
                    subscriptions: subs_after(chr.subscriptions, conn, notify, indicate),
                    ..chr
                },
            ),
            ..svc
        },
    )
}

/// The active-connection list after a whole sequence of events, applied in
/// order.
pub open spec fn connections_after_events(conns: Seq<u16>, events: Seq<GapEvent>) -> Seq<u16>
    decreases events.len(),
{
    if events.len() == 0 {
        conns
    } else {
        connections_after_events(step_connections(conns, events[0]), events.drop_first())
    }
}

/// One successful connect event per handle, in order.
pub open spec fn connect_events(handles: Seq<u16>) -> Seq<GapEvent> {
    handles.map_values(|h: u16| GapEvent::Connect { conn_handle: h, status: 0 })
}

/// One disconnect event per handle, in order.
pub open spec fn disconnect_events(handles: Seq<u16>) -> Seq<GapEvent> {
    handles.map_values(|h: u16| GapEvent::Disconnect { conn_handle: h, reason: 0 })
}

/// Whether a reply is of the kind the pending stack call can produce.
pub open spec fn reply_fits(phase: StartPhase, reply: StackReply) -> bool {
    match phase {
        StartPhase::Idle => false,
        StartPhase::Commit { .. } => reply is Done || reply is Error,
        StartPhase::Serve => reply is Done || reply is Error,
        StartPhase::Resolve { .. } => reply is Handle || reply is Error,
    }
}

/// Transfers index validity to a state with the same index and the same
/// characteristic lists.
proof fn lemma_entry_valid_transfer(a: ServerView, b: ServerView)
    requires
        server_wf(a),
        b.notify_characteristics == a.notify_characteristics,
        b.services.len() == a.services.len(),
        forall|i: int|
            0 <= i < a.services.len() ==> (#[trigger] b.services[i]).characteristics
                == a.services[i].characteristics,
    ensures
        forall|k: int|
            0 <= k < b.notify_characteristics.len() ==> entry_valid(
                b,
                #[trigger] b.notify_characteristics[k],
            ),
{
    assert forall|k: int| 0 <= k < b.notify_characteristics.len() implies entry_valid(
        b,
        #[trigger] b.notify_characteristics[k],
    ) by {
        let e = a.notify_characteristics[k];
        assert(entry_valid(a, e));
        assert(b.services[e.svc as int].characteristics == a.services[e.svc as int].characteristics);
    }
}

/// Transfers per-characteristic subscription uniqueness to a state with
/// the same characteristic lists.
proof fn lemma_subs_unique_transfer(a: ServerView, b: ServerView)
    requires
        server_wf(a),
        b.services.len() == a.services.len(),
        forall|i: int|
            0 <= i < a.services.len() ==> (#[trigger] b.services[i]).characteristics
                == a.services[i].characteristics,
    ensures
        forall|i: int, j: int|
            0 <= i < b.services.len() && 0 <= j < b.services[i].characteristics.len()
                ==> subs_unique(#[trigger] b.services[i].characteristics[j].subscriptions),
{
    assert forall|i: int, j: int|
        0 <= i < b.services.len() && 0 <= j < b.services[i].characteristics.len() implies subs_unique(
        #[trigger] b.services[i].characteristics[j].subscriptions,
    ) by {
        assert(b.services[i].characteristics == a.services[i].characteristics);
        assert(subs_unique(a.services[i].characteristics[j].subscriptions));
    }
}

/// Transfers index soundness and completeness to a state with the same
/// registry and the same index.
proof fn lemma_index_exact_transfer(a: ServerView, b: ServerView)
    requires
        index_exact(a),
        b.services == a.services,
        b.notify_characteristics == a.notify_characteristics,
    ensures
        index_exact(b),
{
    assert forall|k: int| 0 <= k < b.notify_characteristics.len() implies entry_valid(
        b,
        #[trigger] b.notify_characteristics[k],
    ) && subscribable(entry_char(b, b.notify_characteristics[k]).properties) by {
        assert(entry_valid(a, a.notify_characteristics[k]));
        assert(subscribable(entry_char(a, a.notify_characteristics[k]).properties));
    }
    assert forall|i: int, j: int|
        0 <= i < b.services.len() && 0 <= j < b.services[i].characteristics.len() && subscribable(
            (#[trigger] b.services[i].characteristics[j]).properties,
        ) implies b.notify_characteristics.contains(
        ChrRef { svc: i as usize, chr: j as usize },
    ) by {
        assert(subscribable(a.services[i].characteristics[j].properties));
        assert(a.notify_characteristics.contains(ChrRef { svc: i as usize, chr: j as usize }));
    }
}

impl BLEServer {
    /// A fresh, un-started server with no services, no connections, an
    /// all-free indicate-wait table, and advertising resumed on disconnect.
    pub fn new() -> (s: Self)
        ensures
            server_wf(s@),
            !s@.started,
            s@.advertise_on_disconnect,
            s@.services.len() == 0,
            s@.notify_characteristics.len() == 0,
            s@.connections.len() == 0,
            s@.indicate_wait.len() == MAX_CONNECTIONS,
            forall|k: int| 0 <= k < s@.indicate_wait.len() ==> s@.indicate_wait[k] == CONN_HANDLE_NONE,
            s@.start_phase == StartPhase::Idle,
    {
        let mut table: Vec<u16> = Vec::new();
        while table.len() < MAX_CONNECTIONS
            invariant
                table@.len() <= MAX_CONNECTIONS,
                forall|k: int| 0 <= k < table@.len() ==> table@[k] == CONN_HANDLE_NONE,
            decreases MAX_CONNECTIONS - table.len(),
        {
            table.push(CONN_HANDLE_NONE);
        }
        BLEServer {
            started: false,
            advertise_on_disconnect: true,
            services: Vec::new(),
            notify_characteristics: Vec::new(),
            connections: Vec::new(),
            indicate_wait: table,
            start_phase: StartPhase::Idle,
        }
    }

    /// Appends a new, empty service with identifier `uuid` to the registry
    /// and returns its index. Callable only before activation.
    pub fn create_service(&mut self, uuid: u32) -> (r: usize)
        requires
            !old(self)@.started,
            old(self)@.start_phase == StartPhase::Idle,
        ensures
            final(self)@ == (ServerView {
                services: old(self)@.services.push(
                    ServiceView { uuid, handle: 0, characteristics: Seq::empty() },
                ),
                ..old(self)@
            }),
            r == old(self)@.services.len(),
            server_wf(old(self)@) ==> server_wf(final(self)@),
    {
        let r = self.services.len();
        self.services.push(BLEService { uuid, handle: 0, characteristics: Vec::new() });
        proof {
            assert(self@.services =~~= old(self)@.services.push(
                ServiceView { uuid, handle: 0, characteristics: Seq::empty() },
            ));
            assert(self@ =~~= (ServerView {
                services: old(self)@.services.push(
                    ServiceView { uuid, handle: 0, characteristics: Seq::empty() },
                ),
                ..old(self)@
            }));
        }
        r
    }

    /// Appends a characteristic with the given attribute handle and
    /// capability bitmask to the service at `service_index`. Callable only
    /// before activation.
    pub fn add_characteristic(&mut self, service_index: usize, handle: u16, properties: u16)
        requires
            !old(self)@.started,
            old(self)@.start_phase == StartPhase::Idle,
            service_index < old(self)@.services.len(),
        ensures
            final(self)@ == (ServerView {
                services: old(self)@.services.update(
                    service_index as int,
                    ServiceView {
                        characteristics: old(self)@.services[service_index as int].characteristics
                            .push(CharView { handle, properties, subscriptions: Seq::empty() }),
                        ..old(self)@.services[service_index as int]
                    },
                ),
                ..old(self)@
            }),
            server_wf(old(self)@) ==> server_wf(final(self)@),
    {
        self.services[service_index].characteristics.push(
            BLECharacteristic { handle, properties, subscriptions: Vec::new() },
        );
        proof {
            let target = ServiceView {
                characteristics: old(self)@.services[service_index as int].characteristics.push(
                    CharView { handle, properties, subscriptions: Seq::empty() },
                ),
                ..old(self)@.services[service_index as int]
            };
            assert(self@.services =~~= old(self)@.services.update(service_index as int, target));
            assert(self@ =~~= (ServerView {
                services: old(self)@.services.update(service_index as int, target),
                ..old(self)@
            }));
            if server_wf(old(self)@) {
                assert forall|i: int, j: int|
                    0 <= i < self@.services.len() && 0 <= j
                        < self@.services[i].characteristics.len() implies subs_unique(
                    #[trigger] self@.services[i].characteristics[j].subscriptions,
                ) by {
                    if i == service_index as int && j == self@.services[i].characteristics.len()
                        - 1 {
                    } else {
                        assert(self@.services[i].characteristics[j] == old(
                            self,
                        )@.services[i].characteristics[j]);
                    }
                }
            }
        }
    }

    /// How many links are currently up.
    pub fn connected_count(&self) -> (r: usize)
        ensures
            r == self@.connections.len(),
    {
        self.connections.len()
    }

    /// Begins the two-phase activation sequence. Idempotent: on a server
    /// that is already started it changes nothing and reports `Complete`,
    /// asking for no stack call. Otherwise it returns the first stack call
    /// to perform; the caller feeds each outcome to `start_continue` until
    /// it reports `Complete` or `Failed`.
    pub fn start(&mut self) -> (r: StartAction)
        requires
            server_wf(old(self)@),
            old(self)@.start_phase == StartPhase::Idle,
        ensures
            server_wf(final(self)@),
            final(self)@.started == old(self)@.started,
            old(self)@.started ==> r == StartAction::Complete && final(self)@ == old(self)@,
            !old(self)@.started ==> final(self)@ == (ServerView {
                start_phase: final(self)@.start_phase,
                ..old(self)@
            }) && (if old(self)@.services.len() == 0 {
                r == StartAction::BeginServing && final(self)@.start_phase == StartPhase::Serve
            } else {
                r == (StartAction::CommitService { index: 0, uuid: old(self)@.services[0].uuid })
                    && final(self)@.start_phase == (StartPhase::Commit { next: 0 })
            }),
    {
        if self.started {
            return StartAction::Complete;
        }
        if self.services.len() == 0 {
            self.start_phase = StartPhase::Serve;
            StartAction::BeginServing
        } else {
            self.start_phase = StartPhase::Commit { next: 0 };
            StartAction::CommitService { index: 0, uuid: self.services[0].uuid }
        }
    }

    /// Feeds the outcome of the stack call that the previous action asked
    /// for back into the activation sequence and returns the next action.
    /// A failure reply abandons the whole sequence: the server stays
    /// un-started with an empty index, and may be started again from
    /// scratch. When the last handle is resolved, the subscribable index
    /// is built, `started` latches, and `Complete` is reported.
    pub fn start_continue(&mut self, reply: StackReply) -> (r: StartAction)
        requires
            server_wf(old(self)@),
            old(self)@.start_phase != StartPhase::Idle,
            reply_fits(old(self)@.start_phase, reply),
        ensures
            server_wf(final(self)@),
            match (old(self)@.start_phase, reply) {
                (StartPhase::Idle, _) => false,
                (_, StackReply::Error { code }) => {
                    &&& r == (StartAction::Failed { code })
                    &&& final(self)@ == (ServerView {
                        start_phase: StartPhase::Idle,
                        ..old(self)@
                    })
                    &&& !final(self)@.started
                    &&& final(self)@.notify_characteristics.len() == 0
                },
                (StartPhase::Commit { next }, StackReply::Done) => {
                    if next + 1 < old(self)@.services.len() {
                        &&& r == (StartAction::CommitService {
                            index: (next + 1) as usize,
                            uuid: old(self)@.services[next + 1].uuid,
                        })
                        &&& final(self)@ == (ServerView {
                            start_phase: StartPhase::Commit { next: (next + 1) as usize },
                            ..old(self)@
                        })
                    } else {
                        &&& r == StartAction::BeginServing
                        &&& final(self)@ == (ServerView {
                            start_phase: StartPhase::Serve,
                            ..old(self)@
                        })
                    }
                },
                (StartPhase::Serve, StackReply::Done) => {
                    if old(self)@.services.len() == 0 {
                        &&& r == StartAction::Complete
                        &&& final(self)@ == (ServerView {
                            started: true,
                            start_phase: StartPhase::Idle,
                            ..old(self)@
                        })
                        &&& index_exact(final(self)@)
                    } else {
                        &&& r == (StartAction::ResolveService {
                            index: 0,
                            uuid: old(self)@.services[0].uuid,
                        })
                        &&& final(self)@ == (ServerView {
                            start_phase: StartPhase::Resolve { next: 0 },
                            ..old(self)@
                        })
                    }
                },
                (StartPhase::Resolve { next }, StackReply::Handle { handle }) => {
                    let resolved = services_with_handle(old(self)@.services, next as int, handle);
                    if next + 1 < old(self)@.services.len() {
                        &&& r == (StartAction::ResolveService {
                            index: (next + 1) as usize,
                            uuid: old(self)@.services[next + 1].uuid,
                        })
                        &&& final(self)@ == (ServerView {
                            services: resolved,
                            start_phase: StartPhase::Resolve { next: (next + 1) as usize },
                            ..old(self)@
                        })
                    } else {
                        &&& r == StartAction::Complete
                        &&& final(self)@ == (ServerView {
                            services: resolved,
                            started: true,
                            start_phase: StartPhase::Idle,
                            notify_characteristics: final(self)@.notify_characteristics,
                            ..old(self)@
                        })
                        &&& index_exact(final(self)@)
                        &&& index_lex_sorted(final(self)@.notify_characteristics)
                    }
                },
                _ => false,
            },
    {
        let phase = self.start_phase;
        match (phase, reply) {
            (StartPhase::Idle, _) => {
                proof {
                    assert(false);
                }
                StartAction::Failed { code: 0 }
            },
            (_, StackReply::Error { code }) => {
                self.start_phase = StartPhase::Idle;
                StartAction::Failed { code }
            },
            (StartPhase::Commit { next }, StackReply::Done) => {
                let n = self.services.len();
                proof {
                    assert(old(self)@.start_phase == (StartPhase::Commit { next }));
                    assert(next < n);
                }
                if next + 1 < n {
                    self.start_phase = StartPhase::Commit { next: next + 1 };
                    StartAction::CommitService {
                        index: next + 1,
                        uuid: self.services[next + 1].uuid,
                    }
                } else {
                    self.start_phase = StartPhase::Serve;
                    StartAction::BeginServing
                }
            },
            (StartPhase::Serve, StackReply::Done) => {
                if self.services.len() == 0 {
                    self.started = true;
                    self.start_phase = StartPhase::Idle;
                    StartAction::Complete
                } else {
                    self.start_phase = StartPhase::Resolve { next: 0 };
                    StartAction::ResolveService { index: 0, uuid: self.services[0].uuid }
                }
            },
            (StartPhase::Resolve { next }, StackReply::Handle { handle }) => {
                let n = self.services.len();
                proof {
                    assert(old(self)@.start_phase == (StartPhase::Resolve { next }));
                    assert(next < n);
                }
                self.services[next].handle = handle;
                proof {
                    assert(self@.services =~~= services_with_handle(
                        old(self)@.services,
                        next as int,
                        handle,
                    ));
                    assert forall|i: int| 0 <= i < old(self)@.services.len() implies (
                    #[trigger] self@.services[i]).characteristics
                        == old(self)@.services[i].characteristics by {}
                    lemma_entry_valid_transfer(old(self)@, self@);
                    lemma_subs_unique_transfer(old(self)@, self@);
                }
                if next + 1 < n {
                    self.start_phase = StartPhase::Resolve { next: next + 1 };
                    StartAction::ResolveService {
                        index: next + 1,
                        uuid: self.services[next + 1].uuid,
                    }
                } else {
                    self.build_index();
                    let ghost built_view = self@;
                    self.started = true;
                    self.start_phase = StartPhase::Idle;
                    proof {
                        assert(self@ =~~= (ServerView {
                            started: true,
                            start_phase: StartPhase::Idle,
                            ..built_view
                        }));
                        assert(self@ =~~= (ServerView {
                            services: services_with_handle(old(self)@.services, next as int, handle),
                            started: true,
                            start_phase: StartPhase::Idle,
                            notify_characteristics: self@.notify_characteristics,
                            ..old(self)@
                        }));
                        assert forall|i: int| 0 <= i < old(self)@.services.len() implies (
                        #[trigger] self@.services[i]).characteristics
                            == old(self)@.services[i].characteristics by {
                            if i != next as int {
                                assert(self@.services[i] == old(self)@.services[i]);
                            }
                        }
                        lemma_index_exact_transfer(built_view, self@);
                        lemma_subs_unique_transfer(old(self)@, self@);
                    }
                    StartAction::Complete
                }
            },
            _ => {
                proof {
                    assert(false);
                }
                StartAction::Failed { code: 0 }
            },
        }
    }

    /// Permission check for sending an indication to `conn_handle`: granted
    /// iff no slot of the indicate-wait table holds that handle. The caller
    /// records the handle itself (`record_indicate_wait`) before
    /// transmitting, keeping check-then-set under its own discipline.
    pub fn try_begin_indicate(&self, conn_handle: u16) -> (r: bool)
        ensures
            r == !slot_pending(self@.indicate_wait, conn_handle),
    {
        let n = self.indicate_wait.len();
        let mut k: usize = 0;
        while k < n
            invariant
                n == self@.indicate_wait.len(),
                k <= n,
                forall|j: int| 0 <= j < k ==> self@.indicate_wait[j] != conn_handle,
            decreases n - k,
        {
            if self.indicate_wait[k] == conn_handle {
                return false;
            }
            k += 1;
        }
        true
    }

    /// Records `conn_handle` into a free slot of the indicate-wait table.
    /// Returns false, changing nothing, when every slot is occupied.
    pub fn record_indicate_wait(&mut self, conn_handle: u16) -> (r: bool)
        ensures
            final(self)@ == (ServerView { indicate_wait: final(self)@.indicate_wait, ..old(self)@ }),
            r == slot_pending(old(self)@.indicate_wait, CONN_HANDLE_NONE),
            r ==> exists|k: int|
                0 <= k < old(self)@.indicate_wait.len() && old(self)@.indicate_wait[k]
                    == CONN_HANDLE_NONE && final(self)@.indicate_wait == old(
                    self,
                )@.indicate_wait.update(k, conn_handle),
            !r ==> final(self)@.indicate_wait == old(self)@.indicate_wait,
    {
        let n = self.indicate_wait.len();
        let mut k: usize = 0;
        while k < n
            invariant
                n == self@.indicate_wait.len(),
                k <= n,
                self@ == (ServerView { indicate_wait: self@.indicate_wait, ..old(self)@ }),
                self@.indicate_wait == old(self)@.indicate_wait,
                forall|j: int| 0 <= j < k ==> self@.indicate_wait[j] != CONN_HANDLE_NONE,
            decreases n - k,
        {
            if self.indicate_wait[k] == CONN_HANDLE_NONE {
                self.indicate_wait[k] = conn_handle;
                return true;
            }
            k += 1;
        }
        false
    }

    /// Walks the registry in order and appends every notify- or
    /// indicate-capable characteristic to the subscribable index.
    fn build_index(&mut self)
        requires
            server_wf(old(self)@),
            !old(self)@.started,
        ensures
            final(self)@ == (ServerView {
                notify_characteristics: final(self)@.notify_characteristics,
                ..old(self)@
            }),
            index_exact(final(self)@),
            index_lex_sorted(final(self)@.notify_characteristics),
    {
        let svc_count = self.services.len();
        let mut i: usize = 0;
        while i < svc_count
            invariant
                server_wf(old(self)@),
                svc_count == self@.services.len(),
                i <= svc_count,
                self@ == (ServerView {
                    notify_characteristics: self@.notify_characteristics,
                    ..old(self)@
                }),
                forall|k: int|
                    0 <= k < self@.notify_characteristics.len() ==> entry_valid(
                        self@,
                        #[trigger] self@.notify_characteristics[k],
                    ) && subscribable(
                        entry_char(self@, self@.notify_characteristics[k]).properties,
                    ) && self@.notify_characteristics[k].svc < i,
                forall|a: int, b: int|
                    0 <= a < i && 0 <= b < self@.services[a].characteristics.len()
                        && subscribable((#[trigger] self@.services[a].characteristics[b]).properties)
                        ==> self@.notify_characteristics.contains(
                        ChrRef { svc: a as usize, chr: b as usize },
                    ),
                index_lex_sorted(self@.notify_characteristics),
            decreases svc_count - i,
        {
            let chr_count = self.services[i].characteristics.len();
            let mut j: usize = 0;
            while j < chr_count
                invariant
                    server_wf(old(self)@),
                    svc_count == self@.services.len(),
                    i < svc_count,
                    chr_count == self@.services[i as int].characteristics.len(),
                    j <= chr_count,
                    self@ == (ServerView {
                        notify_characteristics: self@.notify_characteristics,
                        ..old(self)@
                    }),
                    forall|k: int|
                        0 <= k < self@.notify_characteristics.len() ==> entry_valid(
                            self@,
                            #[trigger] self@.notify_characteristics[k],
                        ) && subscribable(
                            entry_char(self@, self@.notify_characteristics[k]).properties,
                        ) && (self@.notify_characteristics[k].svc < i
                            || (self@.notify_characteristics[k].svc == i
                                && self@.notify_characteristics[k].chr < j)),
                    forall|a: int, b: int|
                        0 <= a < i && 0 <= b < self@.services[a].characteristics.len()
                            && subscribable(
                            (#[trigger] self@.services[a].characteristics[b]).properties,
                        ) ==> self@.notify_characteristics.contains(
                            ChrRef { svc: a as usize, chr: b as usize },
                        ),
                    forall|b: int|
                        0 <= b < j && subscribable(
                            (#[trigger] self@.services[i as int].characteristics[b]).properties,
                        ) ==> self@.notify_characteristics.contains(
                            ChrRef { svc: i, chr: b as usize },
                        ),
                    index_lex_sorted(self@.notify_characteristics),
                decreases chr_count - j,
            {
                let properties = self.services[i].characteristics[j].properties;
                if properties & (PROP_NOTIFY | PROP_INDICATE) != 0 {
                    let ghost prev = self@.notify_characteristics;
                    self.notify_characteristics.push(ChrRef { svc: i, chr: j });
                    proof {
                        assert forall|x: ChrRef| prev.contains(x) implies self@
                            .notify_characteristics.contains(x) by {
                            let k = choose|k: int| 0 <= k < prev.len() && prev[k] == x;
                            assert(self@.notify_characteristics[k] == x);
                        }
                        assert(self@.notify_characteristics[prev.len() as int] == (ChrRef {
                            svc: i,
                            chr: j,
                        }));
                        assert(self@.notify_characteristics.contains(ChrRef { svc: i, chr: j }));
                    }
                }
                j += 1;
            }
            i += 1;
        }
    }

    /// Resets one slot holding `conn_handle` to the free sentinel; a no-op
    /// when no slot holds it.
    pub fn clear_indicate_wait(&mut self, conn_handle: u16)
        ensures
            final(self)@ == (ServerView { indicate_wait: final(self)@.indicate_wait, ..old(self)@ }),
            cleared_one(old(self)@.indicate_wait, conn_handle, final(self)@.indicate_wait),
            final(self)@.indicate_wait.len() == old(self)@.indicate_wait.len(),
    {
        let n = self.indicate_wait.len();
        let mut k: usize = 0;
        while k < n
            invariant
                n == self@.indicate_wait.len(),
                k <= n,
                self@ == (ServerView { indicate_wait: self@.indicate_wait, ..old(self)@ }),
                self@.indicate_wait == old(self)@.indicate_wait,
                forall|j: int| 0 <= j < k ==> self@.indicate_wait[j] != conn_handle,
            decreases n - k,
        {
            if self.indicate_wait[k] == conn_handle {
                self.indicate_wait[k] = CONN_HANDLE_NONE;
                return ;
            }
            k += 1;
        }
    }
    /// Position of the first subscribable-index entry whose characteristic
    /// has the given attribute handle, if any.
    fn find_notify_char(&self, attr_handle: u16) -> (r: Option<usize>)
        requires
            server_wf(self@),
        ensures
            match r {
                Option::Some(k) => k < self@.notify_characteristics.len() && find_chr(
                    self@,
                    attr_handle,
                    0,
                ) == k as int,
                Option::None => find_chr(self@, attr_handle, 0) == -1,
            },
    {
        let n = self.notify_characteristics.len();
        let mut k: usize = 0;
        while k < n
            invariant
                server_wf(self@),
                n == self@.notify_characteristics.len(),
                k <= n,
                find_chr(self@, attr_handle, 0) == find_chr(self@, attr_handle, k as int),
            decreases n - k,
        {
            let e = self.notify_characteristics[k];
            proof {
                assert(entry_valid(self@, self@.notify_characteristics[k as int]));
            }
            let h = self.services[e.svc].characteristics[e.chr].handle;
            if h == attr_handle {
                return Some(k);
            }
            proof {
                assert(find_chr(self@, attr_handle, k as int) == find_chr(
                    self@,
                    attr_handle,
                    k as int + 1,
                ));
            }
            k += 1;
        }
        None
    }

    /// Position of the first occurrence of `conn` in the active-connection
    /// list, if any.
    fn position_conn(&self, conn: u16) -> (r: Option<usize>)
        ensures
            match r {
                Option::Some(k) => k < self@.connections.len() && find_conn(
                    self@.connections,
                    conn,
                    0,
                ) == k as int,
                Option::None => find_conn(self@.connections, conn, 0) == -1,
            },
    {
        let n = self.connections.len();
        let mut k: usize = 0;
        while k < n
            invariant
                n == self@.connections.len(),
                k <= n,
                find_conn(self@.connections, conn, 0) == find_conn(
                    self@.connections,
                    conn,
                    k as int,
                ),
            decreases n - k,
        {
            if self.connections[k] == conn {
                return Some(k);
            }
            proof {
                assert(find_conn(self@.connections, conn, k as int) == find_conn(
                    self@.connections,
                    conn,
                    k as int + 1,
                ));
            }
            k += 1;
        }
        None
    }

    /// The single entry point for every asynchronous stack event. The event
    /// is demultiplexed by kind, the server state is updated, and the
    /// returned actions tell the caller which callbacks to invoke and which
    /// stack calls to make; a disconnect event always asks for the user
    /// disconnect callback exactly once, whether or not the handle was
    /// tracked. An indication result for a tracked characteristic is a
    /// terminal outcome whatever its status, so it frees the connection's
    /// indicate-wait slot on success and on failure alike: a slot must
    /// never stay occupied once the exchange has ended, or every later
    /// indication to that peer would be blocked. Events naming unknown
    /// handles change nothing and are not errors.
    pub fn handle_gap_event(&mut self, event: &GapEvent) -> (r: EventActions)
        requires
            server_wf(old(self)@),
        ensures
            server_wf(final(self)@),
            final(self)@.started == old(self)@.started,
            final(self)@.advertise_on_disconnect == old(self)@.advertise_on_disconnect,
            final(self)@.start_phase == old(self)@.start_phase,
            final(self)@.notify_characteristics == old(self)@.notify_characteristics,
            final(self)@.connections == step_connections(old(self)@.connections, *event),
            match *event {
                GapEvent::Connect { conn_handle, status } => {
                    &&& final(self)@.services == old(self)@.services
                    &&& final(self)@.indicate_wait == old(self)@.indicate_wait
                    &&& r == (EventActions {
                        lookup_connect: if status == 0 {
                            Some(conn_handle)
                        } else {
                            None
                        },
                        notify_disconnect: None,
                        restart_advertising: false,
                    })
                },
                GapEvent::Disconnect { conn_handle, .. } => {
                    &&& final(self)@.services == old(self)@.services
                    &&& final(self)@.indicate_wait == old(self)@.indicate_wait
                    &&& r == (EventActions {
                        lookup_connect: None,
                        notify_disconnect: Some(conn_handle),
                        restart_advertising: old(self)@.advertise_on_disconnect,
                    })
                },
                GapEvent::Subscribe { conn_handle, attr_handle, cur_notify, cur_indicate } => {
                    &&& final(self)@.indicate_wait == old(self)@.indicate_wait
                    &&& ({
                        let k = find_chr(old(self)@, attr_handle, 0);
                        if k == -1 {
                            final(self)@.services == old(self)@.services
                        } else {
                            final(self)@.services == subscribe_update(
                                old(self)@.services,
                                old(self)@.notify_characteristics[k],
                                conn_handle,
                                cur_notify,
                                cur_indicate,
                            )
                        }
                    })
                    &&& r == no_actions()
                },
                GapEvent::NotifyTx { conn_handle, attr_handle, indication, .. } => {
                    &&& final(self)@.services == old(self)@.services
                    &&& ({
                        let k = find_chr(old(self)@, attr_handle, 0);
                        if k != -1 && indication {
                            cleared_one(
                                old(self)@.indicate_wait,
                                conn_handle,
                                final(self)@.indicate_wait,
                            )
                        } else {
                            final(self)@.indicate_wait == old(self)@.indicate_wait
                        }
                    })
                    &&& r == no_actions()
                },
                GapEvent::Other => {
                    &&& final(self)@ == old(self)@
                    &&& r == no_actions()
                },
            },
    {
        let ev = *event;
        match ev {
            GapEvent::Connect { conn_handle, status } => {
                if status == 0 {
                    self.connections.push(conn_handle);
                    proof {
                        assert(self@ =~~= (ServerView {
                            connections: old(self)@.connections.push(conn_handle),
                            ..old(self)@
                        }));
                        lemma_entry_valid_transfer(old(self)@, self@);
                        lemma_subs_unique_transfer(old(self)@, self@);
                    }
                    EventActions {
                        lookup_connect: Some(conn_handle),
                        notify_disconnect: None,
                        restart_advertising: false,
                    }
                } else {
                    EventActions {
                        lookup_connect: None,
                        notify_disconnect: None,
                        restart_advertising: false,
                    }
                }
            },
            GapEvent::Disconnect { conn_handle, .. } => {
                match self.position_conn(conn_handle) {
                    Some(idx) => {
                        self.connections.swap_remove(idx);
                    },
                    None => {},
                }
                proof {
                    assert(self@.connections == conns_after_disconnect(
                        old(self)@.connections,
                        conn_handle,
                    ));
                    assert(self@ =~~= (ServerView {
                        connections: self@.connections,
                        ..old(self)@
                    }));
                    lemma_entry_valid_transfer(old(self)@, self@);
                    lemma_subs_unique_transfer(old(self)@, self@);
                }
                EventActions {
                    lookup_connect: None,
                    notify_disconnect: Some(conn_handle),
                    restart_advertising: self.advertise_on_disconnect,
                }
            },
            GapEvent::Subscribe { conn_handle, attr_handle, cur_notify, cur_indicate } => {
                match self.find_notify_char(attr_handle) {
                    Some(k) => {
                        let e = self.notify_characteristics[k];
                        proof {
                            assert(entry_valid(self@, self@.notify_characteristics[k as int]));
                        }
                        let si = e.svc;
                        let ci = e.chr;
                        self.services[si].characteristics[ci].subscribe(
                            conn_handle,
                            cur_notify,
                            cur_indicate,
                        );
                        proof {
                            assert(self@.services =~~= subscribe_update(
                                old(self)@.services,
                                e,
                                conn_handle,
                                cur_notify,
                                cur_indicate,
                            ));
                            assert(self@ =~~= (ServerView {
                                services: self@.services,
                                ..old(self)@
                            }));
                            assert forall|kk: int|
                                0 <= kk < self@.notify_characteristics.len() implies entry_valid(
                                self@,
                                #[trigger] self@.notify_characteristics[kk],
                            ) by {
                                let e2 = old(self)@.notify_characteristics[kk];
                                assert(entry_valid(old(self)@, e2));
                                assert(self@.services[e2.svc as int].characteristics.len() == old(
                                    self,
                                )@.services[e2.svc as int].characteristics.len());
                            }
                            assert forall|i: int, j: int|
                                0 <= i < self@.services.len() && 0 <= j
                                    < self@.services[i].characteristics.len() implies subs_unique(
                                #[trigger] self@.services[i].characteristics[j].subscriptions,
                            ) by {
                                assert(subs_unique(
                                    old(self)@.services[i].characteristics[j].subscriptions,
                                ));
                                if !(i == si as int && j == ci as int) {
                                    assert(self@.services[i].characteristics[j] == old(
                                        self,
                                    )@.services[i].characteristics[j]);
                                }
                            }
                        }
                    },
                    None => {},
                }
                EventActions {
                    lookup_connect: None,
                    notify_disconnect: None,
                    restart_advertising: false,
                }
            },
            GapEvent::NotifyTx { conn_handle, attr_handle, indication, .. } => {
                match self.find_notify_char(attr_handle) {
                    Some(k) => {
                        if indication {
                            self.clear_indicate_wait(conn_handle);
                            proof {
                                lemma_entry_valid_transfer(old(self)@, self@);
                                lemma_subs_unique_transfer(old(self)@, self@);
                            }
                        }
                    },
                    None => {},
                }
                EventActions {
                    lookup_connect: None,
                    notify_disconnect: None,
                    restart_advertising: false,
                }
            },
            GapEvent::Other => {
                EventActions {
                    lookup_connect: None,
                    notify_disconnect: None,
                    restart_advertising: false,
                }
            },
        }
    }
}

/// Running a concatenation of event sequences is running one after the
/// other.
proof fn lemma_run_append(conns: Seq<u16>, e1: Seq<GapEvent>, e2: Seq<GapEvent>)
    ensures
        connections_after_events(conns, e1 + e2) == connections_after_events(
            connections_after_events(conns, e1),
            e2,
        ),
    decreases e1.len(),
{
    if e1.len() == 0 {
        assert(e1 + e2 =~= e2);
    } else {
        assert((e1 + e2)[0] == e1[0]);
        assert((e1 + e2).drop_first() =~= e1.drop_first() + e2);
        lemma_run_append(step_connections(conns, e1[0]), e1.drop_first(), e2);
    }
}

/// Successful connects append their handles in order.
proof fn lemma_run_connects(conns: Seq<u16>, handles: Seq<u16>)
    ensures
        connections_after_events(conns, connect_events(handles)) == conns + handles,
    decreases handles.len(),
{
    let evs = connect_events(handles);
    if handles.len() == 0 {
        assert(conns + handles =~= conns);
    } else {
        assert(evs[0] == (GapEvent::Connect { conn_handle: handles[0], status: 0 }));
        assert(step_connections(conns, evs[0]) == conns.push(handles[0]));
        assert(evs.drop_first() =~= connect_events(handles.drop_first()));
        lemma_run_connects(conns.push(handles[0]), handles.drop_first());
        assert(conns.push(handles[0]) + handles.drop_first() =~= conns + handles);
    }
}

/// What `find_conn` returns: a position holding `conn`, or -1 when no
/// position at or after `k` holds it.
proof fn lemma_find_conn_props(conns: Seq<u16>, conn: u16, k: int)
    requires
        0 <= k <= conns.len(),
    ensures
        ({
            let r = find_conn(conns, conn, k);
            &&& (r == -1 ==> forall|j: int| k <= j < conns.len() ==> conns[j] != conn)
            &&& (r != -1 ==> k <= r < conns.len() && conns[r] == conn)
        }),
    decreases conns.len() - k,
{
    if k < conns.len() {
        if conns[k] == conn {
        } else {
            lemma_find_conn_props(conns, conn, k + 1);
        }
    }
}

/// Removing a present handle from a duplicate-free list shortens it by
/// one, keeps it duplicate-free, and removes exactly that handle.
proof fn lemma_remove_one(conns: Seq<u16>, conn: u16)
    requires
        conns.no_duplicates(),
        conns.contains(conn),
    ensures
        ({
            let after = conns_after_disconnect(conns, conn);
            &&& after.len() == conns.len() - 1
            &&& after.no_duplicates()
            &&& forall|x: u16| x != conn ==> (after.contains(x) == conns.contains(x))
            &&& !after.contains(conn)
        }),
{
    lemma_find_conn_props(conns, conn, 0);
    let k = find_conn(conns, conn, 0);
    assert(k != -1);
    let after = conns_after_disconnect(conns, conn);
    let n = conns.len() as int;
    assert(after == conns.update(k, conns.last()).drop_last());
    assert forall|i: int, j: int|
        0 <= i < after.len() && 0 <= j < after.len() && i != j implies after[i] != after[j] by {
        assert(after[i] == if i == k {
            conns[n - 1]
        } else {
            conns[i]
        });
        assert(after[j] == if j == k {
            conns[n - 1]
        } else {
            conns[j]
        });
    }
    assert forall|x: u16| x != conn implies (after.contains(x) == conns.contains(x)) by {
        if conns.contains(x) {
            let w = choose|w: int| 0 <= w < conns.len() && conns[w] == x;
            assert(w != k);
            if w == n - 1 {
                assert(k < n - 1);
                assert(after[k] == x);
            } else {
                assert(after[w] == x);
            }
            assert(after.contains(x));
        }
        if after.contains(x) {
            let w = choose|w: int| 0 <= w < after.len() && after[w] == x;
            if w == k {
                assert(conns[n - 1] == x);
            } else {
                assert(conns[w] == x);
            }
            assert(conns.contains(x));
        }
    }
    assert forall|w: int| 0 <= w < after.len() implies after[w] != conn by {
        if w == k {
            assert(after[w] == conns[n - 1]);
            if conns[n - 1] == conn {
                assert(n - 1 == k);
            }
        } else {
            assert(after[w] == conns[w]);
            if conns[w] == conn {
                assert(w == k);
            }
        }
    }
}

/// Disconnects of distinct, present handles each remove exactly one
/// connection.
proof fn lemma_run_disconnects(conns: Seq<u16>, handles: Seq<u16>)
    requires
        conns.no_duplicates(),
        handles.no_duplicates(),
        forall|k: int| 0 <= k < handles.len() ==> conns.contains(#[trigger] handles[k]),
    ensures
        connections_after_events(conns, disconnect_events(handles)).len() == conns.len()
            - handles.len(),
    decreases handles.len(),
{
    let evs = disconnect_events(handles);
    if handles.len() == 0 {
    } else {
        let h = handles[0];
        assert(evs[0] == (GapEvent::Disconnect { conn_handle: h, reason: 0 }));
        let conns2 = conns_after_disconnect(conns, h);
        assert(step_connections(conns, evs[0]) == conns2);
        lemma_remove_one(conns, h);
        let rest = handles.drop_first();
        assert forall|i: int, j: int|
            0 <= i < rest.len() && 0 <= j < rest.len() && i != j implies rest[i] != rest[j] by {
            assert(rest[i] == handles[i + 1]);
            assert(rest[j] == handles[j + 1]);
        }
        assert forall|k: int| 0 <= k < rest.len() implies conns2.contains(#[trigger] rest[k]) by {
            assert(rest[k] == handles[k + 1]);
            assert(handles[k + 1] != h);
            assert(conns.contains(handles[k + 1]));
        }
        assert(evs.drop_first() =~= disconnect_events(rest));
        lemma_run_disconnects(conns2, rest);
    }
}

/// For every sequence of successful connect events with distinct handles,
/// followed by disconnect events naming distinct handles among them, the
/// active-connection list's length ends as the number of connects minus
/// the number of disconnects.
pub proof fn lemma_connection_count(connects: Seq<u16>, disconnects: Seq<u16>)
    requires
        connects.no_duplicates(),
        disconnects.no_duplicates(),
        forall|k: int| 0 <= k < disconnects.len() ==> connects.contains(#[trigger] disconnects[k]),
    ensures
        connections_after_events(
            Seq::empty(),
            connect_events(connects) + disconnect_events(disconnects),
        ).len() == connects.len() - disconnects.len(),
{
    lemma_run_append(
        Seq::empty(),
        connect_events(connects),
        disconnect_events(disconnects),
    );
    lemma_run_connects(Seq::empty(), connects);
    assert(Seq::<u16>::empty() + connects =~= connects);
    lemma_run_disconnects(connects, disconnects);
}

/// How many events of a sequence are connects with success status.
pub open spec fn successful_connect_count(events: Seq<GapEvent>) -> int
    decreases events.len(),
{
    if events.len() == 0 {
        0
    } else {
        (if events[0] matches GapEvent::Connect { status, .. } && status == 0 {
            1int
        } else {
            0int
        }) + successful_connect_count(events.drop_first())
    }
}

/// How many disconnect events of a run remove a handle: those whose handle
/// stands in the active-connection list at the moment they are delivered.
pub open spec fn effective_disconnect_count(conns: Seq<u16>, events: Seq<GapEvent>) -> int
    decreases events.len(),
{
    if events.len() == 0 {
        0
    } else {
        (if events[0] matches GapEvent::Disconnect { conn_handle, .. } && find_conn(
            conns,
            conn_handle,
            0,
        ) != -1 {
            1int
        } else {
            0int
        }) + effective_disconnect_count(step_connections(conns, events[0]), events.drop_first())
    }
}

/// For every sequence of events delivered in order, however connects and
/// disconnects are interleaved, the active-connection list's length grows
/// by the number of successful connects and shrinks by the number of
/// disconnects whose handle was tracked when they arrived.
pub proof fn lemma_connection_count_any_order(conns: Seq<u16>, events: Seq<GapEvent>)
    ensures
        connections_after_events(conns, events).len() == conns.len() + successful_connect_count(
            events,
        ) - effective_disconnect_count(conns, events),
    decreases events.len(),
{
    if events.len() > 0 {
        let ev = events[0];
        match ev {
            GapEvent::Disconnect { conn_handle, .. } => {
                lemma_find_conn_props(conns, conn_handle, 0);
            },
            _ => {},
        }
        lemma_connection_count_any_order(step_connections(conns, ev), events.drop_first());
    }
}

/// Once an indication reservation for `conn` is recorded in a free slot,
/// permission for another indication to `conn` is denied; after that slot
/// is cleared again, permission is granted again.
pub proof fn lemma_indicate_roundtrip(table: Seq<u16>, conn: u16, k: int, cleared: Seq<u16>)
    requires
        conn != CONN_HANDLE_NONE,
        !slot_pending(table, conn),
        0 <= k < table.len(),
        table[k] == CONN_HANDLE_NONE,
        cleared_one(table.update(k, conn), conn, cleared),
    ensures
        slot_pending(table.update(k, conn), conn),
        !slot_pending(cleared, conn),
{
    let recorded = table.update(k, conn);
    assert(recorded[k] == conn);
    assert(slot_pending(recorded, conn));
    assert forall|j: int| 0 <= j < recorded.len() && recorded[j] == conn implies j == k by {
        if j != k {
            assert(table[j] == conn);
            assert(slot_pending(table, conn));
        }
    }
    let k2 = choose|k2: int|
        0 <= k2 < recorded.len() && recorded[k2] == conn && cleared == recorded.update(
            k2,
            CONN_HANDLE_NONE,
        );
    assert(k2 == k);
    assert forall|j: int| 0 <= j < cleared.len() implies cleared[j] != conn by {
        if j == k {
            assert(cleared[j] == CONN_HANDLE_NONE);
        } else {
            assert(cleared[j] == table[j]);
            if table[j] == conn {
                assert(slot_pending(table, conn));
            }
        }
    }
}

} // verus!
