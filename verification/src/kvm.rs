//! Sharing keyboard and mouse: how the daemon for it is started.

use vstd::prelude::*;

use crate::error::OpenBoltError;
use crate::error::OpenBoltResult;
use crate::sync_engine::request;
use crate::text;

verus! {

/// Which machine lends its keyboard and mouse.
#[derive(Clone, Copy, Debug, PartialEq, Eq, Structural)]
pub enum KvmMode {
    Server,
    Client,
}

/// The mode that a word names.
pub fn parse_mode(mode: &str) -> (r: Result<KvmMode, String>)
    ensures
        match r {
            Ok(KvmMode::Server) => mode@ == "server"@,
            Ok(KvmMode::Client) => mode@ == "client"@,
            Err(e) => mode@ != "server"@ && mode@ != "client"@ && e@
                == "mode must be server|client"@,
        },
{
    if text::same_text(mode, "server") {
        Ok(KvmMode::Server)
    } else if text::same_text(mode, "client") {
        Ok(KvmMode::Client)
    } else {
        Err("mode must be server|client".to_string())
    }
}

/// The arguments of the daemon: the server listens on this machine's address,
/// the client connects to the peer's.
pub open spec fn daemon_args(mode: KvmMode, local_ip: Seq<char>, peer_ip: Seq<char>) -> Seq<
    Seq<char>,
> {
    match mode {
        KvmMode::Server => seq!["--daemon"@, "--server"@, "--bind"@, local_ip + ":4242"@],
        KvmMode::Client => seq!["--daemon"@, "--client"@, "--connect"@, peer_ip + ":4242"@],
    }
}

/// The arguments of the daemon.
pub fn lan_mouse_args(mode: KvmMode, local_ip: &str, peer_ip: &str) -> (r: Vec<String>)
    ensures
        text::views(r@) == daemon_args(mode, local_ip@, peer_ip@),
{
    let mut out: Vec<String> = Vec::new();
    out.push("--daemon".to_string());
    match mode {
        KvmMode::Server => {
            out.push("--server".to_string());
            out.push("--bind".to_string());
            out.push(text::concat(local_ip, ":4242"));
        },
        KvmMode::Client => {
            out.push("--client".to_string());
            out.push("--connect".to_string());
            out.push(text::concat(peer_ip, ":4242"));
        },
    }
    assert(text::views(out@) =~= daemon_args(mode, local_ip@, peer_ip@));
    out
}

/// A daemon without a process number did not start.
pub fn check_launched(has_id: bool) -> (r: OpenBoltResult<()>)
    ensures
        match r {
            Ok(_) => has_id,
            Err(e) => !has_id && request::failed_with(e, "failed to launch lan-mouse"@),
        },
{
    if has_id {
        Ok(())
    } else {
        Err(OpenBoltError::CommandFailed("failed to launch lan-mouse".to_string()))
    }
}

/// The daemons of the two machines meet: where one machine serves and the other
/// is told its address, the client connects to the address that the server
/// listens on.
pub proof fn law_client_connects_to_the_server(
    server_ip: Seq<char>,
    client_ip: Seq<char>,
    server_peer: Seq<char>,
)
    ensures
        daemon_args(KvmMode::Server, server_ip, server_peer)[3] == daemon_args(
            KvmMode::Client,
            client_ip,
            server_ip,
        )[3],
{
}

/// The machine that lends its keyboard listens on its own address, whatever the
/// peer's; the other connects to the peer's, whatever its own.
pub proof fn law_daemon_is_told_one_address(own: Seq<char>, peer: Seq<char>, other: Seq<char>)
    ensures
        daemon_args(KvmMode::Server, own, peer) == daemon_args(KvmMode::Server, own, other),
        daemon_args(KvmMode::Client, own, peer) == daemon_args(KvmMode::Client, other, peer),
        daemon_args(KvmMode::Server, own, peer).last() == own + ":4242"@,
        daemon_args(KvmMode::Client, own, peer).last() == peer + ":4242"@,
        daemon_args(KvmMode::Server, own, peer).contains("--server"@),
        daemon_args(KvmMode::Client, own, peer).contains("--client"@),
        daemon_args(KvmMode::Server, own, peer)[2] == "--bind"@,
        daemon_args(KvmMode::Client, own, peer)[2] == "--connect"@,
        daemon_args(KvmMode::Server, own, peer)[0] == "--daemon"@,
        daemon_args(KvmMode::Client, own, peer)[0] == "--daemon"@,
{
    assert(daemon_args(KvmMode::Server, own, peer)[1] == "--server"@);
    assert(daemon_args(KvmMode::Client, own, peer)[1] == "--client"@);
}

} // verus!
