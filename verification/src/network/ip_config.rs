//! The address of this machine on the link, and the commands that set it.

use vstd::prelude::*;

use crate::clock;
use crate::clock::Elapsed;
use crate::error::OpenBoltError;
use crate::error::OpenBoltResult;
use crate::network::nic::ThunderboltNic;
use crate::parse;
use crate::sync_engine::request;
use crate::text;

verus! {

// ------------------------------------------------------------------ the address

/// The last number of the address that is picked at the time of `reading`.
pub open spec fn octet(reading: Option<Elapsed>) -> u8 {
    (2 + (match reading {
        Some(e) => e.nanos,
        None => 128,
    }) % 253) as u8
}

/// The last number of the address that is picked at the time of `reading`.
pub fn host_octet(reading: Option<Elapsed>) -> (r: u8)
    ensures
        r == octet(reading),
        2 <= r <= 254,
{
    let nanos: u32 = match reading {
        Some(e) => e.nanos,
        None => 128,
    };
    2 + (nanos % 253) as u8
}

/// A last number for this machine's address, picked by the clock.
pub fn pick_host_octet() -> (r: u8)
    ensures
        2 <= r <= 254,
        exists|reading: Option<Elapsed>| clock::reading_wf(reading) && r == #[trigger] octet(reading),
{
    let reading = clock::read_clock();
    host_octet(reading)
}

/// The address on the link with the last number `host`.
pub open spec fn link_address(host: nat) -> Seq<char> {
    "10.99.99."@ + text::decimal(host)
}

/// The address on the link with the last number `host`.
pub fn link_ip(host: u8) -> (r: String)
    ensures
        r@ == link_address(host as nat),
{
    text::concat("10.99.99.", text::decimal_text(host as u64).as_str())
}

/// The adapter that was found; it is an error that there is none.
pub fn require_nic(nic: Option<ThunderboltNic>) -> (r: OpenBoltResult<ThunderboltNic>)
    ensures
        match nic {
            Some(n) => r == Ok::<ThunderboltNic, OpenBoltError>(n),
            None => r is Err && request::failed_with(r->Err_0, "No Thunderbolt NIC found"@),
        },
{
    match nic {
        Some(n) => Ok(n),
        None => Err(OpenBoltError::CommandFailed("No Thunderbolt NIC found".to_string())),
    }
}

// ---------------------------------------------------------------------- Windows

/// The program that a command is handed to.
#[derive(Clone, Copy, Debug, PartialEq, Eq, Structural)]
pub enum Program {
    /// `cmd /c`
    Cmd,
    /// `powershell -NoProfile -ExecutionPolicy Bypass -Command`
    PowerShell,
}

/// One way to set the address.
#[derive(Debug)]
pub struct Strategy {
    /// How the way is called in an error.
    pub label: &'static str,
    pub program: Program,
    pub command: String,
}

/// What a strategy says.
pub struct StrategyView {
    pub label: Seq<char>,
    pub program: Program,
    pub command: Seq<char>,
}

impl View for Strategy {
    type V = StrategyView;

    open spec fn view(&self) -> StrategyView {
        StrategyView { label: self.label@, program: self.program, command: self.command@ }
    }
}

/// What came of a command.
#[derive(Debug)]
pub enum CommandOutcome {
    /// The program could not be run.
    NotRun,
    Succeeded,
    /// The program ran and failed, with what it wrote.
    Failed { stderr: String, stdout: String },
}

/// The shell's own command.
pub open spec fn netsh_ipv4(name: Seq<char>, ip: Seq<char>) -> Seq<char> {
    "netsh interface ipv4 set address \""@ + name + "\" static "@ + ip + " 255.255.255.0 none"@
}

/// The shell's command in its older form.
pub open spec fn netsh_ip(name: Seq<char>, ip: Seq<char>) -> Seq<char> {
    "netsh interface ip set address \""@ + name + "\" static "@ + ip + " 255.255.255.0"@
}

/// The script that sets the address by the adapter's number.
pub open spec fn power_shell(index: nat, ip: Seq<char>) -> Seq<char> {
    "Remove-NetIPAddress -InterfaceIndex "@ + text::decimal(index)
        + " -AddressFamily IPv4 -Confirm:$false -ErrorAction SilentlyContinue;New-NetIPAddress -InterfaceIndex "@
        + text::decimal(index) + " -IPAddress '"@ + ip
        + "' -PrefixLength 24 -ErrorAction Stop | Out-Null"@
}

/// The ways to set the address, in the order in which they are tried. The last
/// one needs the adapter's number.
pub open spec fn strategies(name: Seq<char>, ip: Seq<char>, index: Option<u32>) -> Seq<
    StrategyView,
> {
    let two = seq![
        StrategyView {
            label: "[netsh ipv4]"@,
            program: Program::Cmd,
            command: netsh_ipv4(name, ip),
        },
        StrategyView { label: "[netsh ip]"@, program: Program::Cmd, command: netsh_ip(name, ip) },
    ];
    match index {
        Some(i) => two.push(
            StrategyView {
                label: "[PowerShell]"@,
                program: Program::PowerShell,
                command: power_shell(i as nat, ip),
            },
        ),
        None => two,
    }
}

/// What is remembered of a command: its output where it ran and failed, else
/// what was remembered before.
pub open spec fn remembered(before: Seq<char>, label: Seq<char>, outcome: CommandOutcome) -> Seq<
    char,
> {
    match outcome {
        CommandOutcome::Failed { stderr, stdout } => label + " stderr="@ + text::trim(stderr@)
            + ", stdout="@ + text::trim(stdout@),
        _ => before,
    }
}

/// What is said when every way has failed.
pub open spec fn give_up_message(name: Seq<char>, ip: Seq<char>, last_error: Seq<char>) -> Seq<
    char,
> {
    "all strategies failed to set static ip. adapter="@ + name + ", ip="@ + ip + ", last_error="@
        + last_error + ". Ensure OpenBolt is running as Administrator"@
}

/// The setting of an address on Windows: the ways are tried one after the
/// other.
#[derive(Debug)]
pub struct WindowsIpSetting {
    pub safe_name: String,
    pub ip: String,
    pub ways: Vec<Strategy>,
    /// The number of ways that were tried.
    pub tried: usize,
    pub last_error: String,
}

/// What the ways of a list say.
pub open spec fn strategy_views(ways: Seq<Strategy>) -> Seq<StrategyView> {
    Seq::new(ways.len(), |i: int| ways[i]@)
}

impl WindowsIpSetting {
    /// No more ways were tried than there are.
    pub open spec fn wf(self) -> bool {
        self.tried <= self.ways@.len()
    }

    /// The setting of the address `ip` on an adapter, at its start. Quotation
    /// marks are taken out of the adapter's name.
    pub fn begin(adapter_name: &str, ip: &str, interface_index: Option<u32>) -> (r: Self)
        ensures
            r.wf(),
            r.safe_name@ == parse::without(adapter_name@, '"'),
            !r.safe_name@.contains('"'),
            r.ip@ == ip@,
            r.tried == 0,
            r.last_error@.len() == 0,
            strategy_views(r.ways@) == strategies(r.safe_name@, ip@, interface_index),
    {
        let safe_name: String = parse::remove_char(adapter_name, '"');
        proof {
            parse::lemma_without(adapter_name@, '"');
        }
        let mut ipv4: String = "netsh interface ipv4 set address \"".to_string();
        ipv4.append(safe_name.as_str());
        ipv4.append("\" static ");
        ipv4.append(ip);
        ipv4.append(" 255.255.255.0 none");
        let mut older: String = "netsh interface ip set address \"".to_string();
        older.append(safe_name.as_str());
        older.append("\" static ");
        older.append(ip);
        older.append(" 255.255.255.0");
        let mut ways: Vec<Strategy> = Vec::new();
        ways.push(Strategy { label: "[netsh ipv4]", program: Program::Cmd, command: ipv4 });
        ways.push(Strategy { label: "[netsh ip]", program: Program::Cmd, command: older });
        if let Some(index) = interface_index {
            let number: String = text::decimal_text(index as u64);
            let mut script: String = "Remove-NetIPAddress -InterfaceIndex ".to_string();
            script.append(number.as_str());
            script.append(
                " -AddressFamily IPv4 -Confirm:$false -ErrorAction SilentlyContinue;New-NetIPAddress -InterfaceIndex ",
            );
            script.append(number.as_str());
            script.append(" -IPAddress '");
            script.append(ip);
            script.append("' -PrefixLength 24 -ErrorAction Stop | Out-Null");
            ways.push(
                Strategy { label: "[PowerShell]", program: Program::PowerShell, command: script },
            );
        }
        proof {
            assert(strategy_views(ways@) =~= strategies(safe_name@, ip@, interface_index));
        }
        WindowsIpSetting {
            safe_name,
            ip: ip.to_string(),
            ways,
            tried: 0,
            last_error: String::new(),
        }
    }

    /// The way that is tried next, if one is left.
    pub fn current(&self) -> (r: Option<&Strategy>)
        requires
            self.wf(),
        ensures
            match r {
                Some(s) => self.tried < self.ways@.len() && *s == self.ways@[self.tried as int],
                None => self.tried == self.ways@.len(),
            },
    {
        if self.tried < self.ways.len() {
            Some(&self.ways[self.tried])
        } else {
            None
        }
    }

    /// Takes note of what came of the current way; gives whether the address is
    /// set.
    pub fn report(&mut self, outcome: CommandOutcome) -> (set: bool)
        requires
            old(self).wf(),
            old(self).tried < old(self).ways@.len(),
        ensures
            final(self).wf(),
            final(self).tried == old(self).tried + 1,
            final(self).ways == old(self).ways,
            final(self).safe_name == old(self).safe_name,
            final(self).ip == old(self).ip,
            set == (outcome is Succeeded),
            final(self).last_error@ == remembered(
                old(self).last_error@,
                old(self).ways@[old(self).tried as int].label@,
                outcome,
            ),
    {
        let label: &'static str = self.ways[self.tried].label;
        let all: usize = self.ways.len();
        assert(self.tried < all);
        self.tried = self.tried + 1;
        match outcome {
            CommandOutcome::NotRun => false,
            CommandOutcome::Succeeded => true,
            CommandOutcome::Failed { stderr, stdout } => {
                let mut words: String = label.to_string();
                words.append(" stderr=");
                words.append(text::trim_text(stderr.as_str()).as_str());
                words.append(", stdout=");
                words.append(text::trim_text(stdout.as_str()).as_str());
                self.last_error = words;
                false
            },
        }
    }

    /// The error when every way has failed.
    pub fn give_up(self) -> (r: OpenBoltError)
        ensures
            request::failed_with(
                r,
                give_up_message(self.safe_name@, self.ip@, self.last_error@),
            ),
    {
        let mut words: String = "all strategies failed to set static ip. adapter=".to_string();
        words.append(self.safe_name.as_str());
        words.append(", ip=");
        words.append(self.ip.as_str());
        words.append(", last_error=");
        words.append(self.last_error.as_str());
        words.append(". Ensure OpenBolt is running as Administrator");
        OpenBoltError::CommandFailed(words)
    }
}

// ------------------------------------------------------------------------ macOS

/// The arguments with which `networksetup` sets the address.
pub fn networksetup_args(interface_name: &str, ip: &str) -> (r: Vec<String>)
    ensures
        text::views(r@) == seq!["-setmanual"@, interface_name@, ip@, "255.255.255.0"@],
{
    let mut out: Vec<String> = Vec::new();
    out.push("-setmanual".to_string());
    out.push(interface_name.to_string());
    out.push(ip.to_string());
    out.push("255.255.255.0".to_string());
    assert(text::views(out@) =~= seq!["-setmanual"@, interface_name@, ip@, "255.255.255.0"@]);
    out
}

/// What comes of a run of `networksetup`: its complaint where it failed.
pub fn networksetup_result(success: bool, stderr: String) -> (r: OpenBoltResult<()>)
    ensures
        match r {
            Ok(_) => success,
            Err(e) => !success && request::failed_with(e, stderr@),
        },
{
    if success {
        Ok(())
    } else {
        Err(OpenBoltError::CommandFailed(stderr))
    }
}

// ------------------------------------------------------------------------- laws

/// Every address that is picked lies in the subnet of the link, with a last
/// number between 2 and 254.
pub proof fn law_address_lies_on_the_link(reading: Option<Elapsed>)
    ensures
        2 <= octet(reading) <= 254,
        text::begins(link_address(octet(reading) as nat), "10.99.99."@),
{
    let a = link_address(octet(reading) as nat);
    assert(a.take("10.99.99."@.len() as int) =~= "10.99.99."@);
}

/// Every last number from 2 to 254 is picked at some time.
pub proof fn law_every_host_number_can_be_picked(host: u8) -> (reading: Option<Elapsed>)
    requires
        2 <= host <= 254,
    ensures
        clock::reading_wf(reading),
        octet(reading) == host,
{
    Some(Elapsed { secs: 0, nanos: (host - 2) as u32 })
}

/// What is remembered after the outcomes of the ways from the first on.
pub open spec fn remembered_of(ways: Seq<StrategyView>, outcomes: Seq<CommandOutcome>) -> Seq<char>
    decreases outcomes.len(),
{
    if outcomes.len() == 0 {
        Seq::empty()
    } else {
        remembered(
            remembered_of(ways, outcomes.drop_last()),
            ways[outcomes.len() - 1].label,
            outcomes.last(),
        )
    }
}

/// When every way has failed, the error tells what the last command wrote that
/// ran at all.
pub proof fn law_last_output_is_reported(
    ways: Seq<StrategyView>,
    outcomes: Seq<CommandOutcome>,
    i: int,
)
    requires
        0 <= i < outcomes.len(),
        outcomes[i] is Failed,
        forall|k: int| i < k < outcomes.len() ==> #[trigger] outcomes[k] is NotRun,
    ensures
        remembered_of(ways, outcomes) == remembered(Seq::empty(), ways[i].label, outcomes[i]),
    decreases outcomes.len(),
{
    if i < outcomes.len() - 1 {
        let before = outcomes.drop_last();
        assert forall|k: int| i < k < before.len() implies #[trigger] before[k] is NotRun by {
            assert(before[k] == outcomes[k]);
        }
        law_last_output_is_reported(ways, before, i);
        assert(outcomes[outcomes.len() - 1] is NotRun);
    }
}

/// Machines with different last numbers have different addresses, and each
/// address ends in its number.
pub proof fn law_addresses_differ(a: nat, b: nat)
    ensures
        link_address(a) == "10.99.99."@ + text::decimal(a),
        link_address(a) == link_address(b) ==> a == b,
{
    if link_address(a) == link_address(b) {
        let n = "10.99.99."@.len() as int;
        assert(link_address(a).skip(n) =~= text::decimal(a));
        assert(link_address(b).skip(n) =~= text::decimal(b));
        parse::law_decimal_is_read_back(a, Seq::empty());
        parse::law_decimal_is_read_back(b, Seq::empty());
    }
}

/// The ways to set an address: two commands for the adapter by its name, and,
/// where its number is known, a script by the number; all set the one address.
pub proof fn law_ways_to_set_the_address(name: Seq<char>, ip: Seq<char>, index: u32)
    ensures
        strategies(name, ip, None).len() == 2,
        strategies(name, ip, Some(index)).len() == 3,
        strategies(name, ip, Some(index)).take(2) == strategies(name, ip, None),
        strategies(name, ip, None)[0].command == "netsh interface ipv4 set address \""@ + name
            + "\" static "@ + ip + " 255.255.255.0 none"@,
        strategies(name, ip, None)[1].command == "netsh interface ip set address \""@ + name
            + "\" static "@ + ip + " 255.255.255.0"@,
        strategies(name, ip, None)[0].program is Cmd,
        strategies(name, ip, None)[1].program is Cmd,
        strategies(name, ip, Some(index))[2].program is PowerShell,
        text::occurs(
            strategies(name, ip, Some(index))[2].command,
            "New-NetIPAddress -InterfaceIndex "@ + text::decimal(index as nat) + " -IPAddress '"@
                + ip + "' -PrefixLength 24"@,
        ),
{
    assert(strategies(name, ip, Some(index)).take(2) =~= strategies(name, ip, None));
    let d = text::decimal(index as nat);
    let c = power_shell(index as nat, ip);
    let middle =
        " -AddressFamily IPv4 -Confirm:$false -ErrorAction SilentlyContinue;New-NetIPAddress -InterfaceIndex "@;
    let end = "' -PrefixLength 24 -ErrorAction Stop | Out-Null"@;
    let p = "New-NetIPAddress -InterfaceIndex "@ + d + " -IPAddress '"@ + ip
        + "' -PrefixLength 24"@;
    reveal_strlit("New-NetIPAddress -InterfaceIndex ");
    reveal_strlit(
        " -AddressFamily IPv4 -Confirm:$false -ErrorAction SilentlyContinue;New-NetIPAddress -InterfaceIndex ",
    );
    reveal_strlit("' -PrefixLength 24 -ErrorAction Stop | Out-Null");
    reveal_strlit("' -PrefixLength 24");
    let k = "New-NetIPAddress -InterfaceIndex "@.len() as int;
    let m = "' -PrefixLength 24"@.len() as int;
    let cut = middle.len() - k;
    assert(middle.skip(cut) =~= "New-NetIPAddress -InterfaceIndex "@);
    assert(end.take(m) =~= "' -PrefixLength 24"@);
    let before = "Remove-NetIPAddress -InterfaceIndex "@ + d + middle.take(cut);
    let after = end.skip(m);
    assert(c =~= before + p + after);
    text::law_inner_text_occurs(before, p, after);
}

/// A command that ran and failed is remembered with its name and what it wrote;
/// one that succeeded, or did not run, changes nothing.
pub proof fn law_failed_command_is_remembered(
    before: Seq<char>,
    label: Seq<char>,
    err: String,
    out: String,
)
    ensures
        remembered(before, label, CommandOutcome::Failed { stderr: err, stdout: out }) == label
            + " stderr="@ + text::trim(err@) + ", stdout="@ + text::trim(out@),
        remembered(before, label, CommandOutcome::NotRun) == before,
        remembered(before, label, CommandOutcome::Succeeded) == before,
{
}

/// What is said of a way to set the address is its name, its program and its
/// command, one for each way.
pub proof fn law_way_is_seen_as_it_is(ways: Seq<Strategy>, i: int)
    requires
        0 <= i < ways.len(),
    ensures
        strategy_views(ways).len() == ways.len(),
        strategy_views(ways)[i].label == ways[i].label@,
        strategy_views(ways)[i].program == ways[i].program,
        strategy_views(ways)[i].command == ways[i].command@,
{
}

/// When every way has failed, the adapter, the address and what was remembered
/// last are told.
pub proof fn law_giving_up_tells_all(name: Seq<char>, ip: Seq<char>, last: Seq<char>)
    ensures
        give_up_message(name, ip, last) == "all strategies failed to set static ip. adapter="@
            + name + ", ip="@ + ip + ", last_error="@ + last
            + ". Ensure OpenBolt is running as Administrator"@,
{
}

} // verus!
