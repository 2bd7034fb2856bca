//! Finding peers: what a machine announces of itself, and what it takes from
//! the announcements of others.

use vstd::prelude::*;

use crate::parse;
use crate::text;

verus! {

/// The type of the announced service.
pub const SERVICE_TYPE: &'static str = "_openbolt._tcp.local.";

/// The name of the announced service.
pub const INSTANCE_NAME: &'static str = "openbolt-node";

/// The port of the file API.
pub const API_PORT: u16 = 7733;

/// The port for keyboard and mouse.
pub const KVM_PORT: u16 = 4242;

/// A machine on the link.
#[derive(Debug)]
pub struct DiscoveredPeer {
    pub hostname: String,
    pub os: String,
    pub ip: String,
    pub api_port: u16,
    pub kvm_port: u16,
}

impl Clone for DiscoveredPeer {
    fn clone(&self) -> (r: Self)
        ensures
            r == *self,
    {
        DiscoveredPeer {
            hostname: self.hostname.clone(),
            os: self.os.clone(),
            ip: self.ip.clone(),
            api_port: self.api_port,
            kvm_port: self.kvm_port,
        }
    }
}

/// What is known of a machine.
pub struct PeerView {
    pub hostname: Seq<char>,
    pub os: Seq<char>,
    pub ip: Seq<char>,
    pub api_port: u16,
    pub kvm_port: u16,
}

impl View for DiscoveredPeer {
    type V = PeerView;

    open spec fn view(&self) -> PeerView {
        PeerView {
            hostname: self.hostname@,
            os: self.os@,
            ip: self.ip@,
            api_port: self.api_port,
            kvm_port: self.kvm_port,
        }
    }
}

/// The properties of an announcement, as far as they are given.
#[derive(Debug)]
pub struct TxtRecord {
    pub os: Option<String>,
    pub hostname: Option<String>,
    pub kvm_port: Option<String>,
    pub api_port: Option<String>,
}

// --------------------------------------------------------------- announcements

/// The properties that a machine announces.
pub open spec fn announced(os: Seq<char>, hostname: Seq<char>) -> Seq<(Seq<char>, Seq<char>)> {
    seq![
        ("os"@, os),
        ("hostname"@, hostname),
        ("kvm_port"@, "4242"@),
        ("api_port"@, "7733"@),
    ]
}

/// What pairs of names and values say.
pub open spec fn pair_views(pairs: Seq<(&'static str, String)>) -> Seq<(Seq<char>, Seq<char>)> {
    Seq::new(pairs.len(), |i: int| (pairs[i].0@, pairs[i].1@))
}

/// The properties that a machine announces.
pub fn announcement(os: &str, hostname: &str) -> (r: Vec<(&'static str, String)>)
    ensures
        pair_views(r@) == announced(os@, hostname@),
{
    let mut out: Vec<(&'static str, String)> = Vec::new();
    out.push(("os", os.to_string()));
    out.push(("hostname", hostname.to_string()));
    out.push(("kvm_port", "4242".to_string()));
    out.push(("api_port", "7733".to_string()));
    assert(pair_views(out@) =~= announced(os@, hostname@));
    out
}

/// The name under which a machine is looked up.
pub fn mdns_host(hostname: &str) -> (r: String)
    ensures
        r@ == hostname@ + ".local."@,
{
    text::concat(hostname, ".local.")
}

/// The name of this machine: that of Windows, else that of Unix, else a name
/// that any machine may have.
pub fn hostname(computer_name: Option<String>, host_name: Option<String>) -> (r: String)
    ensures
        r@ == match (computer_name, host_name) {
            (Some(c), _) => c@,
            (None, Some(h)) => h@,
            (None, None) => "openbolt-device"@,
        },
{
    match computer_name {
        Some(c) => c,
        None => match host_name {
            Some(h) => h,
            None => "openbolt-device".to_string(),
        },
    }
}

// ------------------------------------------------------------------------ peers

/// The port that is announced, or the usual one where none is or none can be
/// read.
pub open spec fn port_or(value: Option<Seq<char>>, usual: u16) -> u16 {
    match value {
        Some(v) => match parse::port(v) {
            Some(p) => p,
            None => usual,
        },
        None => usual,
    }
}

/// The text that is announced, or another.
pub open spec fn text_or(value: Option<Seq<char>>, other: Seq<char>) -> Seq<char> {
    match value {
        Some(v) => v,
        None => other,
    }
}

/// The machine behind an announcement; machines that are not on the link are
/// passed over.
pub open spec fn peer(ip: Seq<char>, record: TxtRecord) -> Option<PeerView> {
    if text::begins(ip, "10.99.99."@) {
        Some(
            PeerView {
                hostname: text_or(text::optional(record.hostname), "openbolt-peer"@),
                os: text_or(text::optional(record.os), "unknown"@),
                ip,
                api_port: port_or(text::optional(record.api_port), API_PORT),
                kvm_port: port_or(text::optional(record.kvm_port), KVM_PORT),
            },
        )
    } else {
        None
    }
}

/// What is known of an optional machine.
pub open spec fn peer_view(p: Option<DiscoveredPeer>) -> Option<PeerView> {
    match p {
        Some(x) => Some(x@),
        None => None,
    }
}

fn read_port(value: &Option<String>, usual: u16) -> (r: u16)
    ensures
        r == port_or(text::optional(*value), usual),
{
    match value {
        Some(v) => match parse::parse_port(v.as_str()) {
            Some(p) => p,
            None => usual,
        },
        None => usual,
    }
}

/// The machine behind an announcement with the address `ip`, which is empty
/// where none was announced.
pub fn resolve_peer(ip: String, record: TxtRecord) -> (r: Option<DiscoveredPeer>)
    ensures
        peer_view(r) == peer(ip@, record),
{
    if !text::begins_with(ip.as_str(), "10.99.99.") {
        return None;
    }
    let api_port: u16 = read_port(&record.api_port, API_PORT);
    let kvm_port: u16 = read_port(&record.kvm_port, KVM_PORT);
    let os: String = match record.os {
        Some(s) => s,
        None => "unknown".to_string(),
    };
    let hostname: String = match record.hostname {
        Some(s) => s,
        None => "openbolt-peer".to_string(),
    };
    Some(DiscoveredPeer { hostname, os, ip, api_port, kvm_port })
}

/// A machine with the address `ip` is known.
pub open spec fn known(peers: Seq<DiscoveredPeer>, ip: Seq<char>) -> bool {
    exists|i: int| 0 <= i < peers.len() && (#[trigger] peers[i]).ip@ == ip
}

/// No two machines have one address.
pub open spec fn addresses_differ(peers: Seq<DiscoveredPeer>) -> bool {
    forall|i: int, j: int|
        0 <= i < peers.len() && 0 <= j < peers.len() && (#[trigger] peers[i]).ip@ == (
        #[trigger] peers[j]).ip@ ==> i == j
}

/// Adds a machine unless its address is known; gives whether it is new.
pub fn note_peer(peers: &mut Vec<DiscoveredPeer>, new_peer: DiscoveredPeer) -> (added: bool)
    ensures
        added == !known(old(peers)@, new_peer.ip@),
        final(peers)@ == if known(old(peers)@, new_peer.ip@) {
            old(peers)@
        } else {
            old(peers)@.push(new_peer)
        },
        (forall|i: int| 0 <= i < old(peers)@.len() ==> (#[trigger] old(peers)@[i]).ip@ != new_peer.ip@)
            ==> added && final(peers)@ == old(peers)@.push(new_peer),
        (exists|i: int| 0 <= i < old(peers)@.len() && (#[trigger] old(peers)@[i]).ip@ == new_peer.ip@)
            ==> !added && final(peers)@ == old(peers)@,
{
    let mut i: usize = 0;
    while i < peers.len()
        invariant
            i <= peers@.len(),
            peers@ == old(peers)@,
            forall|k: int| 0 <= k < i ==> (#[trigger] peers@[k]).ip@ != new_peer.ip@,
        decreases peers@.len() - i,
    {
        if text::same_text(peers[i].ip.as_str(), new_peer.ip.as_str()) {
            assert(peers@[i as int].ip@ == new_peer.ip@);
            return false;
        }
        i = i + 1;
    }
    peers.push(new_peer);
    true
}

// ------------------------------------------------------------------------- laws

/// The list of machines never holds an address twice.
pub proof fn law_addresses_stay_apart(peers: Seq<DiscoveredPeer>, new_peer: DiscoveredPeer)
    requires
        addresses_differ(peers),
    ensures
        addresses_differ(
            if known(peers, new_peer.ip@) {
                peers
            } else {
                peers.push(new_peer)
            },
        ),
{
    if !known(peers, new_peer.ip@) {
        let all = peers.push(new_peer);
        assert forall|i: int, j: int|
            0 <= i < all.len() && 0 <= j < all.len() && (#[trigger] all[i]).ip@ == (
            #[trigger] all[j]).ip@ implies i == j by {
            if i < peers.len() {
                assert(all[i] == peers[i]);
            }
            if j < peers.len() {
                assert(all[j] == peers[j]);
            }
        }
    }
}

/// What a machine announces is understood by another: it is found under its
/// name, its system and its ports.
pub proof fn law_announcement_is_understood(
    os: Seq<char>,
    hostname: Seq<char>,
    ip: Seq<char>,
    record: TxtRecord,
)
    requires
        text::begins(ip, "10.99.99."@),
        text::optional(record.os) == Some(announced(os, hostname)[0].1),
        text::optional(record.hostname) == Some(announced(os, hostname)[1].1),
        text::optional(record.kvm_port) == Some(announced(os, hostname)[2].1),
        text::optional(record.api_port) == Some(announced(os, hostname)[3].1),
    ensures
        peer(ip, record) == Some(
            PeerView { hostname, os, ip, api_port: API_PORT, kvm_port: KVM_PORT },
        ),
{
    reveal_strlit("4242");
    reveal_strlit("7733");
    lemma_four_digits("4242"@, 4, 2, 4, 2);
    lemma_four_digits("7733"@, 7, 7, 3, 3);
}

proof fn lemma_four_digits(s: Seq<char>, a: nat, b: nat, c: nat, d: nat)
    requires
        s.len() == 4,
        s[0] != '+',
        parse::digit_value(s[0]) == Some(a),
        parse::digit_value(s[1]) == Some(b),
        parse::digit_value(s[2]) == Some(c),
        parse::digit_value(s[3]) == Some(d),
    ensures
        parse::number(s) == Some(((a * 10 + b) * 10 + c) * 10 + d),
{
    let s3 = s.drop_last();
    let s2 = s3.drop_last();
    let s1 = s2.drop_last();
    let s0 = s1.drop_last();
    assert(s0.len() == 0);
    assert(parse::number(s0) == Some(0nat));
    assert(parse::number(s1) == Some(a));
    assert(parse::number(s2) == Some(a * 10 + b));
    assert(parse::number(s3) == Some((a * 10 + b) * 10 + c));
}

/// A machine is known exactly if one of the list has its address: whatever its
/// name or its ports, a machine with a new address is added, and one with an
/// address of the list is not.
pub proof fn law_new_address_is_new(peers: Seq<DiscoveredPeer>, ip: Seq<char>, i: int)
    ensures
        0 <= i < peers.len() ==> known(peers, peers[i].ip@),
        (forall|k: int| 0 <= k < peers.len() ==> (#[trigger] peers[k]).ip@ != ip) ==> !known(
            peers,
            ip,
        ),
        !known(Seq::<DiscoveredPeer>::empty(), ip),
{
}

/// A machine is taken for a peer exactly if its address begins as those of the
/// link do, whatever else it announces; what it announces is kept as it is.
pub proof fn law_machines_on_the_link_are_peers(tail: Seq<char>, ip: Seq<char>, record: TxtRecord)
    ensures
        peer("10.99.99."@ + tail, record) is Some,
        peer(ip, record) is Some ==> ip == "10.99.99."@ + ip.skip(9),
        peer(ip, record) matches Some(p) ==> {
            &&& p.ip == ip
            &&& record.hostname matches Some(h) ==> p.hostname == h@
            &&& record.os matches Some(o) ==> p.os == o@
            &&& record.hostname is None ==> p.hostname == "openbolt-peer"@
            &&& record.os is None ==> p.os == "unknown"@
            &&& record.api_port is None ==> p.api_port == 7733
            &&& record.kvm_port is None ==> p.kvm_port == 4242
            &&& record.api_port matches Some(v) ==> p.api_port == port_or(Some(v@), 7733)
            &&& record.kvm_port matches Some(v) ==> p.kvm_port == port_or(Some(v@), 4242)
        },
{
    reveal_strlit("10.99.99.");
    text::law_beginning("10.99.99."@, tail, ip);
}

/// A port that is announced in decimal is the one that is used; where what is
/// announced is no port, the usual one is.
pub proof fn law_announced_port_is_used(port: u16, words: Seq<char>, usual: u16)
    ensures
        port_or(Some(text::decimal(port as nat)), usual) == port,
        (exists|i: int|
            1 <= i < words.len() && !('0' <= #[trigger] words[i] <= '9')) || words.len() == 0
            ==> port_or(Some(words), usual) == usual,
        port_or(None, usual) == usual,
{
    parse::law_ports_are_read(port as nat, words);
    parse::law_ports_are_read(0, Seq::empty());
    if words.len() == 0 {
        assert(words =~= Seq::empty());
    }
}

/// What a machine announces has a name for each thing that others look for.
pub proof fn law_announcement_names(os: Seq<char>, hostname: Seq<char>)
    ensures
        announced(os, hostname).len() == 4,
        announced(os, hostname).contains(("os"@, os)),
        announced(os, hostname).contains(("hostname"@, hostname)),
        announced(os, hostname).contains(("kvm_port"@, text::decimal(4242))),
        announced(os, hostname).contains(("api_port"@, text::decimal(7733))),
{
    reveal_strlit("4242");
    reveal_strlit("7733");
    let a = announced(os, hostname);
    lemma_decimal_four(4, 2, 4, 2);
    lemma_decimal_four(7, 7, 3, 3);
    assert("4242"@ =~= text::decimal(4242));
    assert("7733"@ =~= text::decimal(7733));
    assert(a[0] == ("os"@, os));
    assert(a[1] == ("hostname"@, hostname));
    assert(a[2] == ("kvm_port"@, text::decimal(4242)));
    assert(a[3] == ("api_port"@, text::decimal(7733)));
}

proof fn lemma_decimal_four(a: nat, b: nat, c: nat, d: nat)
    requires
        0 < a < 10,
        b < 10,
        c < 10,
        d < 10,
    ensures
        text::decimal(((a * 10 + b) * 10 + c) * 10 + d) == seq![
            text::digit(a),
            text::digit(b),
            text::digit(c),
            text::digit(d),
        ],
{
    let n2 = a * 10 + b;
    let n3 = n2 * 10 + c;
    let n4 = n3 * 10 + d;
    assert(text::decimal(a) =~= seq![text::digit(a)]);
    assert(n2 / 10 == a && n2 % 10 == b);
    assert(text::decimal(n2) =~= seq![text::digit(a), text::digit(b)]);
    assert(n3 / 10 == n2 && n3 % 10 == c);
    assert(text::decimal(n3) =~= seq![text::digit(a), text::digit(b), text::digit(c)]);
    assert(n4 / 10 == n3 && n4 % 10 == d);
    assert(text::decimal(n4) =~= seq![
        text::digit(a),
        text::digit(b),
        text::digit(c),
        text::digit(d),
    ]);
}

/// What is said of a machine is what is known of it, and what is said of
/// announced pairs is what they hold.
pub proof fn law_machine_is_seen_as_it_is(
    p: DiscoveredPeer,
    pairs: Seq<(&'static str, String)>,
    i: int,
)
    ensures
        p@.hostname == p.hostname@,
        p@.os == p.os@,
        p@.ip == p.ip@,
        p@.api_port == p.api_port,
        p@.kvm_port == p.kvm_port,
        peer_view(Some(p)) == Some(p@),
        peer_view(None) is None,
        pair_views(pairs).len() == pairs.len(),
        0 <= i < pairs.len() ==> pair_views(pairs)[i] == (pairs[i].0@, pairs[i].1@),
{
}

/// Machines find each other by one service, at one pair of ports.
pub proof fn law_service_is_one()
    ensures
        SERVICE_TYPE@ == "_openbolt._tcp.local."@,
        INSTANCE_NAME@ == "openbolt-node"@,
        API_PORT == 7733,
        KVM_PORT == 4242,
{
}

} // verus!
