//! The commands of the program: what may be started when, what they fall back
//! on, and what the program does when it starts and ends.

use vstd::prelude::*;

use crate::error::OpenBoltError;
use crate::error::OpenBoltResult;
use crate::network::mdns;
use crate::network::mdns::DiscoveredPeer;
use crate::sync_engine::SyncDirection;
use crate::text;

verus! {

/// What is shown of the whole system.
#[derive(Debug)]
pub struct SystemOverview {
    pub app_version: String,
    pub platform: String,
    pub local_ip: Option<String>,
    pub discovered: Vec<DiscoveredPeer>,
    pub sync_running: bool,
    pub api_auth_enabled: bool,
}

/// What is shown of the whole system. Requests need a token exactly where one
/// is set.
pub fn get_system_overview(
    app_version: String,
    platform: String,
    local_ip: Option<String>,
    discovered: Vec<DiscoveredPeer>,
    sync_running: bool,
    api_token: &Option<String>,
) -> (r: SystemOverview)
    ensures
        r.app_version == app_version,
        r.platform == platform,
        r.local_ip == local_ip,
        r.discovered == discovered,
        r.sync_running == sync_running,
        r.api_auth_enabled == (api_token is Some),
{
    SystemOverview {
        app_version,
        platform,
        local_ip,
        discovered,
        sync_running,
        api_auth_enabled: api_token.is_some(),
    }
}

// --------------------------------------------------------------------- services

/// The services that the program runs.
#[derive(Clone, Copy, Debug, PartialEq, Eq, Structural)]
pub enum Service {
    Discovery,
    Sync,
    Kvm,
    Sunshine,
    Moonlight,
    FileApi,
    ClipboardWatcher,
}

impl Service {
    /// The name of a service in an error.
    pub open spec fn label(self) -> Seq<char> {
        match self {
            Service::Discovery => "mdns"@,
            Service::Sync => "file_sync"@,
            Service::Kvm => "kvm"@,
            Service::Sunshine => "sunshine"@,
            Service::Moonlight => "moonlight"@,
            Service::FileApi => "file_api"@,
            Service::ClipboardWatcher => "clipboard_watcher"@,
        }
    }

    /// A second start replaces what runs; the other services refuse it.
    pub open spec fn is_replaced(self) -> bool {
        self is Kvm
    }
}

/// Whether a service may start while it runs or not: a service runs once, but
/// the one for keyboard and mouse is replaced.
pub fn check_start(service: Service, running: bool) -> (r: OpenBoltResult<()>)
    ensures
        match r {
            Ok(_) => !running || service.is_replaced(),
            Err(e) => running && !service.is_replaced() && (e matches OpenBoltError::AlreadyRunning(
                s,
            ) && s@ == service.label()),
        },
{
    if !running {
        return Ok(());
    }
    let name: &'static str = match service {
        Service::Kvm => {
            return Ok(());
        },
        Service::Discovery => "mdns",
        Service::Sync => "file_sync",
        Service::Sunshine => "sunshine",
        Service::Moonlight => "moonlight",
        Service::FileApi => "file_api",
        Service::ClipboardWatcher => "clipboard_watcher",
    };
    Err(OpenBoltError::AlreadyRunning(name))
}

/// The order in which all services are stopped by a command.
pub open spec fn stop_order() -> Seq<Service> {
    seq![
        Service::Discovery,
        Service::Sync,
        Service::Kvm,
        Service::Sunshine,
        Service::Moonlight,
        Service::FileApi,
        Service::ClipboardWatcher,
    ]
}

/// The order in which all services are stopped when the program ends.
pub open spec fn exit_order() -> Seq<Service> {
    seq![
        Service::FileApi,
        Service::Kvm,
        Service::Sunshine,
        Service::Moonlight,
        Service::Discovery,
        Service::Sync,
        Service::ClipboardWatcher,
    ]
}

/// What holds the services that run: the task of the file API, the programs,
/// and the tasks of discovery, synchronisation and the clipboard.
pub struct Running<A, P, D, S, W> {
    pub api_server: Option<A>,
    pub kvm_child: Option<P>,
    pub sunshine_child: Option<P>,
    pub moonlight_child: Option<P>,
    pub discovery: Option<D>,
    pub sync_runtime: Option<S>,
    pub clipboard_watcher: Option<W>,
}

/// A service that no longer counts as running, and is to be ended.
#[derive(Debug)]
pub enum Stopping<A, P, D, S, W> {
    /// Abort the task.
    FileApi(A),
    /// Kill the program.
    Kvm(P),
    /// Kill the program.
    Sunshine(P),
    /// Kill the program.
    Moonlight(P),
    /// Shut the task down.
    Discovery(D),
    /// Shut the task down.
    Sync(S),
    /// Shut the task down.
    ClipboardWatcher(W),
}

impl<A, P, D, S, W> Stopping<A, P, D, S, W> {
    /// Which service it is.
    pub open spec fn service(self) -> Service {
        match self {
            Stopping::FileApi(_) => Service::FileApi,
            Stopping::Kvm(_) => Service::Kvm,
            Stopping::Sunshine(_) => Service::Sunshine,
            Stopping::Moonlight(_) => Service::Moonlight,
            Stopping::Discovery(_) => Service::Discovery,
            Stopping::Sync(_) => Service::Sync,
            Stopping::ClipboardWatcher(_) => Service::ClipboardWatcher,
        }
    }
}

impl<A, P, D, S, W> Running<A, P, D, S, W> {
    /// The service, if it runs.
    pub open spec fn held(self, service: Service) -> Option<Stopping<A, P, D, S, W>> {
        match service {
            Service::FileApi => match self.api_server {
                Some(x) => Some(Stopping::FileApi(x)),
                None => None,
            },
            Service::Kvm => match self.kvm_child {
                Some(x) => Some(Stopping::Kvm(x)),
                None => None,
            },
            Service::Sunshine => match self.sunshine_child {
                Some(x) => Some(Stopping::Sunshine(x)),
                None => None,
            },
            Service::Moonlight => match self.moonlight_child {
                Some(x) => Some(Stopping::Moonlight(x)),
                None => None,
            },
            Service::Discovery => match self.discovery {
                Some(x) => Some(Stopping::Discovery(x)),
                None => None,
            },
            Service::Sync => match self.sync_runtime {
                Some(x) => Some(Stopping::Sync(x)),
                None => None,
            },
            Service::ClipboardWatcher => match self.clipboard_watcher {
                Some(x) => Some(Stopping::ClipboardWatcher(x)),
                None => None,
            },
        }
    }

    /// Nothing runs.
    pub open spec fn is_idle(self) -> bool {
        forall|service: Service| #[trigger] self.held(service) is None
    }

    /// Nothing runs yet.
    pub fn new() -> (r: Self)
        ensures
            r.is_idle(),
    {
        Running {
            api_server: None,
            kvm_child: None,
            sunshine_child: None,
            moonlight_child: None,
            discovery: None,
            sync_runtime: None,
            clipboard_watcher: None,
        }
    }

    /// Whether a service runs.
    pub fn is_running(&self, service: Service) -> (r: bool)
        ensures
            r == (self.held(service) is Some),
    {
        match service {
            Service::FileApi => self.api_server.is_some(),
            Service::Kvm => self.kvm_child.is_some(),
            Service::Sunshine => self.sunshine_child.is_some(),
            Service::Moonlight => self.moonlight_child.is_some(),
            Service::Discovery => self.discovery.is_some(),
            Service::Sync => self.sync_runtime.is_some(),
            Service::ClipboardWatcher => self.clipboard_watcher.is_some(),
        }
    }

    /// Takes a service out, if it runs; the others go on.
    pub fn take(&mut self, service: Service) -> (r: Option<Stopping<A, P, D, S, W>>)
        ensures
            r == old(self).held(service),
            final(self).held(service) is None,
            forall|other: Service|
                other != service ==> #[trigger] final(self).held(other) == old(self).held(other),
    {
        match service {
            Service::FileApi => match self.api_server.take() {
                Some(x) => Some(Stopping::FileApi(x)),
                None => None,
            },
            Service::Kvm => match self.kvm_child.take() {
                Some(x) => Some(Stopping::Kvm(x)),
                None => None,
            },
            Service::Sunshine => match self.sunshine_child.take() {
                Some(x) => Some(Stopping::Sunshine(x)),
                None => None,
            },
            Service::Moonlight => match self.moonlight_child.take() {
                Some(x) => Some(Stopping::Moonlight(x)),
                None => None,
            },
            Service::Discovery => match self.discovery.take() {
                Some(x) => Some(Stopping::Discovery(x)),
                None => None,
            },
            Service::Sync => match self.sync_runtime.take() {
                Some(x) => Some(Stopping::Sync(x)),
                None => None,
            },
            Service::ClipboardWatcher => match self.clipboard_watcher.take() {
                Some(x) => Some(Stopping::ClipboardWatcher(x)),
                None => None,
            },
        }
    }

    fn take_all(&mut self, order: &Vec<Service>) -> (r: Vec<Stopping<A, P, D, S, W>>)
        requires
            order@.no_duplicates(),
        ensures
            r@ == stopped(*old(self), order@),
            forall|service: Service|
                #![trigger final(self).held(service)]
                order@.contains(service) ==> final(self).held(service) is None,
    {
        let ghost before = *self;
        let mut out: Vec<Stopping<A, P, D, S, W>> = Vec::new();
        let mut i: usize = 0;
        assert(out@ =~= stopped(before, order@.take(0)));
        while i < order.len()
            invariant
                i <= order@.len(),
                order@.no_duplicates(),
                before == *old(self),
                out@ == stopped(before, order@.take(i as int)),
                forall|service: Service|
                    #![trigger self.held(service)]
                    self.held(service) == if order@.take(i as int).contains(service) {
                        None
                    } else {
                        before.held(service)
                    },
            decreases order@.len() - i,
        {
            let service: Service = order[i];
            let ghost some = order@.take(i as int);
            let ghost more = order@.take(i + 1);
            proof {
                assert(more.drop_last() =~= some);
                assert(more.last() == service);
                if some.contains(service) {
                    let k = choose|k: int| 0 <= k < some.len() && some[k] == service;
                    assert(order@[k] == order@[i as int]);
                }
                assert forall|other: Service| #[trigger]
                    more.contains(other) == (other == service || some.contains(other)) by {
                    assert(more[i as int] == service);
                    if more.contains(other) {
                        let k = choose|k: int| 0 <= k < more.len() && more[k] == other;
                        if k < i {
                            assert(some[k] == other);
                        }
                    }
                    if some.contains(other) {
                        let k = choose|k: int| 0 <= k < some.len() && some[k] == other;
                        assert(more[k] == other);
                    }
                }
            }
            if let Some(taken) = self.take(service) {
                out.push(taken);
            }
            i = i + 1;
        }
        assert(order@.take(i as int) =~= order@);
        out
    }
}

/// The services that run, in the given order.
pub open spec fn stopped<A, P, D, S, W>(
    running: Running<A, P, D, S, W>,
    order: Seq<Service>,
) -> Seq<Stopping<A, P, D, S, W>>
    decreases order.len(),
{
    if order.len() == 0 {
        Seq::empty()
    } else {
        let before = stopped(running, order.drop_last());
        match running.held(order.last()) {
            Some(s) => before.push(s),
            None => before,
        }
    }
}

/// Takes all services out, in the order in which a command stops them.
pub fn shutdown_all_services<A, P, D, S, W>(running: &mut Running<A, P, D, S, W>) -> (r: Vec<
    Stopping<A, P, D, S, W>,
>)
    ensures
        r@ == stopped(*old(running), stop_order()),
        final(running).is_idle(),
{
    let mut order: Vec<Service> = Vec::new();
    order.push(Service::Discovery);
    order.push(Service::Sync);
    order.push(Service::Kvm);
    order.push(Service::Sunshine);
    order.push(Service::Moonlight);
    order.push(Service::FileApi);
    order.push(Service::ClipboardWatcher);
    proof {
        assert(order@ =~= stop_order());
        assert forall|service: Service| stop_order().contains(service) by {
            law_every_service_is_stopped_once(service);
        }
        law_every_service_is_stopped_once(Service::Kvm);
    }
    running.take_all(&order)
}

/// Takes all services out, in the order in which the end of the program stops
/// them.
pub fn cleanup_before_exit<A, P, D, S, W>(running: &mut Running<A, P, D, S, W>) -> (r: Vec<
    Stopping<A, P, D, S, W>,
>)
    ensures
        r@ == stopped(*old(running), exit_order()),
        final(running).is_idle(),
{
    let mut order: Vec<Service> = Vec::new();
    order.push(Service::FileApi);
    order.push(Service::Kvm);
    order.push(Service::Sunshine);
    order.push(Service::Moonlight);
    order.push(Service::Discovery);
    order.push(Service::Sync);
    order.push(Service::ClipboardWatcher);
    proof {
        assert(order@ =~= exit_order());
        assert forall|service: Service| exit_order().contains(service) by {
            law_every_service_is_stopped_once(service);
        }
        law_every_service_is_stopped_once(Service::Kvm);
    }
    running.take_all(&order)
}

// --------------------------------------------------------------------- fallbacks

/// The address of this machine, or the one that it has by default.
pub open spec fn address_or_default(local_ip: Option<Seq<char>>) -> Seq<char> {
    match local_ip {
        Some(ip) => ip,
        None => "10.99.99.2"@,
    }
}

/// The address of this machine, or the one that it has by default.
pub fn own_address(local_ip: Option<String>) -> (r: String)
    ensures
        r@ == address_or_default(text::optional(local_ip)),
{
    match local_ip {
        Some(ip) => ip,
        None => "10.99.99.2".to_string(),
    }
}

/// The address that the streaming host binds to: the one that is asked for, or
/// this machine's where none is.
pub fn host_address(asked: String, local_ip: Option<String>) -> (r: String)
    ensures
        r@ == if asked@.len() == 0 {
            address_or_default(text::optional(local_ip))
        } else {
            asked@
        },
{
    if asked.as_str().is_empty() {
        own_address(local_ip)
    } else {
        asked
    }
}

/// The direction that a word names: both where it says so, else outbound.
pub fn parse_direction(direction: Option<&str>) -> (r: SyncDirection)
    ensures
        r == if direction matches Some(d) && d@ == "bidirectional"@ {
            SyncDirection::Bidirectional
        } else {
            SyncDirection::Outbound
        },
{
    match direction {
        Some(d) => {
            if text::same_text(d, "bidirectional") {
                SyncDirection::Bidirectional
            } else {
                SyncDirection::Outbound
            }
        },
        None => SyncDirection::Outbound,
    }
}

/// The number of retry items that are listed: 50 unless asked otherwise.
pub fn item_limit(limit: Option<usize>) -> (r: usize)
    ensures
        r == match limit {
            Some(n) => n,
            None => 50,
        },
{
    match limit {
        Some(n) => n,
        None => 50,
    }
}

// --------------------------------------------------------------------- the start

/// What the environment asks for at the start.
#[derive(Debug)]
pub struct Bootstrap {
    pub local_ip: Option<String>,
    pub api_token: Option<String>,
    /// A machine that is known without being found.
    pub peer: Option<DiscoveredPeer>,
    /// The address on which the file API starts by itself.
    pub file_api_on: Option<String>,
}

/// A setting of the environment is switched on.
pub open spec fn switched_on(value: Option<Seq<char>>) -> bool {
    value matches Some(v) && (v == "1"@ || text::same_ignoring_case(v, "true"@))
}

/// Whether a setting of the environment is switched on.
pub fn env_flag(value: Option<&str>) -> (r: bool)
    ensures
        r == switched_on(text::optional_str(value)),
{
    match value {
        Some(v) => text::same_text(v, "1") || text::equals_ignoring_case(v, "true"),
        None => false,
    }
}

/// A machine that is known by its address alone.
pub open spec fn manual_peer(ip: Seq<char>) -> mdns::PeerView {
    mdns::PeerView {
        hostname: "peer-manual"@,
        os: "unknown"@,
        ip,
        api_port: mdns::API_PORT,
        kvm_port: mdns::KVM_PORT,
    }
}

/// What the environment asks for at the start, by the values of its settings.
pub fn bootstrap_from_env(
    local_ip: Option<String>,
    peer_ip: Option<String>,
    api_token: Option<String>,
    autostart: Option<&str>,
) -> (r: Bootstrap)
    ensures
        r.local_ip == local_ip,
        r.api_token == api_token,
        mdns::peer_view(r.peer) == match peer_ip {
            Some(ip) => Some(manual_peer(ip@)),
            None => None,
        },
        text::optional(r.file_api_on) == if switched_on(text::optional_str(autostart)) {
            Some(address_or_default(text::optional(local_ip)))
        } else {
            None
        },
{
    let peer: Option<DiscoveredPeer> = match peer_ip {
        Some(ip) => Some(
            DiscoveredPeer {
                hostname: "peer-manual".to_string(),
                os: "unknown".to_string(),
                ip,
                api_port: mdns::API_PORT,
                kvm_port: mdns::KVM_PORT,
            },
        ),
        None => None,
    };
    let file_api_on: Option<String> = if env_flag(autostart) {
        Some(own_address(local_ip.clone()))
    } else {
        None
    };
    Bootstrap { local_ip, api_token, peer, file_api_on }
}

// ------------------------------------------------------------------------- laws

/// Both ways to stop everything stop every service, and none twice.
pub proof fn law_every_service_is_stopped_once(service: Service)
    ensures
        stop_order().contains(service),
        exit_order().contains(service),
        stop_order().no_duplicates(),
        exit_order().no_duplicates(),
        stop_order().len() == exit_order().len(),
{
    let s = stop_order();
    let e = exit_order();
    match service {
        Service::Discovery => {
            assert(s[0] == service && e[4] == service);
        },
        Service::Sync => {
            assert(s[1] == service && e[5] == service);
        },
        Service::Kvm => {
            assert(s[2] == service && e[1] == service);
        },
        Service::Sunshine => {
            assert(s[3] == service && e[2] == service);
        },
        Service::Moonlight => {
            assert(s[4] == service && e[3] == service);
        },
        Service::FileApi => {
            assert(s[5] == service && e[0] == service);
        },
        Service::ClipboardWatcher => {
            assert(s[6] == service && e[6] == service);
        },
    }
}

proof fn lemma_stopped<A, P, D, S, W>(
    running: Running<A, P, D, S, W>,
    order: Seq<Service>,
    service: Service,
)
    requires
        order.no_duplicates(),
    ensures
        stopped(running, order).len() <= order.len(),
        forall|i: int|
            0 <= i < stopped(running, order).len() ==> {
                let s = #[trigger] stopped(running, order)[i];
                order.contains(s.service()) && running.held(s.service()) == Some(s)
            },
        order.contains(service) && running.held(service) is Some ==> stopped(
            running,
            order,
        ).contains(running.held(service)->0),
        forall|i: int, j: int|
            0 <= i < j < stopped(running, order).len() ==> (#[trigger] stopped(
                running,
                order,
            )[i]).service() != (#[trigger] stopped(running, order)[j]).service(),
    decreases order.len(),
{
    if order.len() > 0 {
        let some = order.drop_last();
        let last = order.last();
        let before = stopped(running, some);
        let all = stopped(running, order);
        lemma_stopped(running, some, service);
        assert(order[order.len() - 1] == last);
        assert(!some.contains(last)) by {
            if some.contains(last) {
                let k = choose|k: int| 0 <= k < some.len() && some[k] == last;
                assert(order[k] == order[order.len() - 1]);
            }
        }
        assert forall|s: Service| #[trigger] some.contains(s) implies order.contains(s) by {
            let k = choose|k: int| 0 <= k < some.len() && some[k] == s;
            assert(order[k] == s);
        }
        assert forall|i: int| 0 <= i < before.len() implies #[trigger] all[i] == before[i] by {}
        assert forall|i: int| 0 <= i < all.len() implies {
            let s = #[trigger] all[i];
            order.contains(s.service()) && running.held(s.service()) == Some(s)
        } by {
            if i < before.len() {
                assert(all[i] == before[i]);
            }
        }
        assert forall|i: int, j: int| 0 <= i < j < all.len() implies (#[trigger] all[i]).service()
            != (#[trigger] all[j]).service() by {
            assert(all[i] == before[i]);
            if j < before.len() {
                assert(all[j] == before[j]);
            }
        }
        if order.contains(service) && running.held(service) is Some {
            let s = running.held(service)->0;
            if service == last {
                assert(all[all.len() - 1] == s);
            } else {
                let k = choose|k: int| 0 <= k < order.len() && order[k] == service;
                assert(some[k] == service);
                let i = choose|i: int| 0 <= i < before.len() && before[i] == s;
                assert(all[i] == s);
            }
        }
    }
}

/// When everything is stopped, each service that runs is ended, exactly once,
/// and no other is.
pub proof fn law_every_running_service_is_ended_once<A, P, D, S, W>(
    running: Running<A, P, D, S, W>,
    service: Service,
)
    ensures
        ({
            let s = stopped(running, stop_order());
            let e = stopped(running, exit_order());
            &&& running.held(service) matches Some(x) ==> s.contains(x) && e.contains(x)
            &&& forall|i: int|
                0 <= i < s.len() ==> running.held((#[trigger] s[i]).service()) == Some(s[i])
            &&& forall|i: int|
                0 <= i < e.len() ==> running.held((#[trigger] e[i]).service()) == Some(e[i])
            &&& forall|i: int, j: int|
                0 <= i < j < s.len() ==> (#[trigger] s[i]).service() != (
                #[trigger] s[j]).service()
            &&& forall|i: int, j: int|
                0 <= i < j < e.len() ==> (#[trigger] e[i]).service() != (
                #[trigger] e[j]).service()
        }),
{
    law_every_service_is_stopped_once(service);
    lemma_stopped(running, stop_order(), service);
    lemma_stopped(running, exit_order(), service);
}

/// To stop everything a second time does nothing.
pub proof fn law_stopping_twice_does_nothing<A, P, D, S, W>(running: Running<A, P, D, S, W>)
    requires
        running.is_idle(),
    ensures
        stopped(running, stop_order()).len() == 0,
        stopped(running, exit_order()).len() == 0,
{
    law_every_running_service_is_ended_once(running, Service::Kvm);
    let s = stopped(running, stop_order());
    let e = stopped(running, exit_order());
    if s.len() > 0 {
        assert(running.held(s[0].service()) == Some(s[0]));
    }
    if e.len() > 0 {
        assert(running.held(e[0].service()) == Some(e[0]));
    }
}

/// The address that a machine has by default lies on the link.
pub proof fn law_default_address_lies_on_the_link()
    ensures
        text::begins(address_or_default(None), "10.99.99."@),
{
    reveal_strlit("10.99.99.2");
    reveal_strlit("10.99.99.");
    let a = "10.99.99.2"@;
    let p = "10.99.99."@;
    assert(a.take(p.len() as int) =~= p);
}

/// A service counts as running exactly if there is something that runs it, and
/// that is what is ended.
pub proof fn law_running_service_is_what_is_held<A, P, D, S, W>(running: Running<A, P, D, S, W>)
    ensures
        running.held(Service::FileApi) is Some <==> running.api_server is Some,
        running.held(Service::Kvm) is Some <==> running.kvm_child is Some,
        running.held(Service::Sunshine) is Some <==> running.sunshine_child is Some,
        running.held(Service::Moonlight) is Some <==> running.moonlight_child is Some,
        running.held(Service::Discovery) is Some <==> running.discovery is Some,
        running.held(Service::Sync) is Some <==> running.sync_runtime is Some,
        running.held(Service::ClipboardWatcher) is Some <==> running.clipboard_watcher is Some,
        running.api_server matches Some(x) ==> running.held(Service::FileApi) == Some(
            Stopping::<A, P, D, S, W>::FileApi(x),
        ),
        running.kvm_child matches Some(x) ==> running.held(Service::Kvm) == Some(
            Stopping::<A, P, D, S, W>::Kvm(x),
        ),
        running.sunshine_child matches Some(x) ==> running.held(Service::Sunshine) == Some(
            Stopping::<A, P, D, S, W>::Sunshine(x),
        ),
        running.moonlight_child matches Some(x) ==> running.held(Service::Moonlight) == Some(
            Stopping::<A, P, D, S, W>::Moonlight(x),
        ),
        running.discovery matches Some(x) ==> running.held(Service::Discovery) == Some(
            Stopping::<A, P, D, S, W>::Discovery(x),
        ),
        running.sync_runtime matches Some(x) ==> running.held(Service::Sync) == Some(
            Stopping::<A, P, D, S, W>::Sync(x),
        ),
        running.clipboard_watcher matches Some(x) ==> running.held(Service::ClipboardWatcher)
            == Some(Stopping::<A, P, D, S, W>::ClipboardWatcher(x)),
{
}

/// Only the service for keyboard and mouse is replaced by a second start, and
/// the services have different names in an error.
pub proof fn law_services_are_told_apart(a: Service, b: Service)
    ensures
        a.is_replaced() <==> a == Service::Kvm,
        a.label() == b.label() ==> a == b,
{
    reveal_strlit("mdns");
    reveal_strlit("file_sync");
    reveal_strlit("kvm");
    reveal_strlit("sunshine");
    reveal_strlit("moonlight");
    reveal_strlit("file_api");
    reveal_strlit("clipboard_watcher");
    assert("mdns"@.len() == 4 && "kvm"@.len() == 3 && "clipboard_watcher"@.len() == 17);
    assert("sunshine"@.len() == 8 && "file_api"@.len() == 8);
    assert("sunshine"@[0] == 's' && "file_api"@[0] == 'f');
    assert("moonlight"@.len() == 9 && "file_sync"@.len() == 9);
    assert("moonlight"@[0] == 'm' && "file_sync"@[0] == 'f');
}

/// The address that a machine has is the one that is used, and the usual one
/// only where it has none.
pub proof fn law_own_address_is_used(ip: Seq<char>)
    ensures
        address_or_default(Some(ip)) == ip,
        address_or_default(None) == "10.99.99.2"@,
{
}

/// A setting is switched on by a one, or by the word for it in letters of either
/// case, and by nothing else.
pub proof fn law_settings_are_switched_on(value: Seq<char>)
    ensures
        !switched_on(None),
        switched_on(Some("1"@)),
        switched_on(Some(value)) <==> value == "1"@ || text::same_ignoring_case(value, "true"@),
        switched_on(Some(value)) ==> value.len() == 1 || value.len() == 4,
{
    reveal_strlit("1");
    reveal_strlit("true");
    if text::same_ignoring_case(value, "true"@) {
        text::law_same_but_for_case(value, "true"@);
    }
}

/// A machine that is known by its address alone has that address and the usual
/// ports.
pub proof fn law_machine_known_by_its_address(ip: Seq<char>)
    ensures
        manual_peer(ip).ip == ip,
        manual_peer(ip).api_port == 7733,
        manual_peer(ip).kvm_port == 4242,
        manual_peer(ip).hostname == "peer-manual"@,
        manual_peer(ip).os == "unknown"@,
{
}

} // verus!
