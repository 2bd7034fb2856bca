use openbolt::clipboard;
use openbolt::clipboard::ClipboardWatch;
use openbolt::clipboard::Sending;
use openbolt::clock::Elapsed;
use openbolt::commands;
use openbolt::commands::Running;
use openbolt::commands::Service;
use openbolt::commands::Stopping;
use openbolt::error::to_err;
use openbolt::file_api;
use openbolt::file_api::ApiAuthConfig;
use openbolt::file_api::AppHttpError;
use openbolt::file_api::DeleteStep;
use openbolt::file_api::Metadata;
use openbolt::file_api::MoveQuery;
use openbolt::file_api::MoveStep;
use openbolt::file_api::PathQuery;
use openbolt::kvm;
use openbolt::kvm::KvmMode;
use openbolt::network::ip_config;
use openbolt::network::ip_config::CommandOutcome;
use openbolt::network::ip_config::Program;
use openbolt::network::ip_config::WindowsIpSetting;
use openbolt::network::mdns;
use openbolt::network::mdns::TxtRecord;
use openbolt::network::nic;
use openbolt::network::nic::Adapter;
use openbolt::screen_share;
use openbolt::sync_engine::request::Verb;
use openbolt::sync_engine::SyncDirection;

fn adapter(if_type: u32, friendly: &str, description: &str) -> Adapter {
    Adapter {
        if_type,
        index: 3 + friendly.len() as u32,
        friendly: friendly.to_string(),
        description: description.to_string(),
    }
}

#[test]
fn the_host_number_stays_in_range() {
    assert_eq!(ip_config::host_octet(Some(Elapsed { secs: 1, nanos: 0 })), 2);
    assert_eq!(ip_config::host_octet(Some(Elapsed { secs: 1, nanos: 252 })), 254);
    assert_eq!(ip_config::host_octet(Some(Elapsed { secs: 1, nanos: 253 })), 2);
    assert_eq!(ip_config::host_octet(None), 130);
    let picked = ip_config::pick_host_octet();
    assert!((2..=254).contains(&picked));
    assert_eq!(ip_config::link_ip(17), "10.99.99.17");
}

#[test]
fn an_adapter_is_needed() {
    let err = ip_config::require_nic(None).err().unwrap();
    assert_eq!(to_err(err), "external command failed: No Thunderbolt NIC found");
}

#[test]
fn the_cable_is_found_among_adapters() {
    let adapters = vec![
        adapter(71, "Thunderbolt WLAN", ""),
        adapter(6, "Ethernet", "Realtek"),
        adapter(6, "", "Intel(R) Thunderbolt(TM) Networking"),
        adapter(6, "雷电 2", ""),
    ];
    let found = nic::detect_windows_native(&adapters).unwrap();
    assert_eq!(found.name, "Intel(R) Thunderbolt(TM) Networking");
    assert_eq!(found.friendly_name, "");
    assert_eq!(found.interface_index, Some(3));
    assert_eq!(nic::detect_windows_native(&adapters[3..].iter().map(|a| adapter(a.if_type, &a.friendly, &a.description)).collect()).unwrap().name, "雷电 2");
    assert!(nic::detect_windows_native(&vec![adapter(6, "Ethernet", "Realtek")]).is_none());
    assert!(nic::detect_windows_native(&vec![adapter(6, "USB4 P2P Network", "usb4")]).is_none());
    assert!(nic::detect_windows_native(&vec![adapter(6, "Ethernet", "P2P Network")]).is_none());
    assert!(nic::detect_windows_native(&vec![adapter(6, "Ethernet", "Thunderbolt dock")]).is_none());
}

#[test]
fn the_cable_is_found_in_a_listing() {
    let listing = "Ethernet|Realtek\r\n USB4|P2P\r\n Ethernet 3 | Intel(R) THUNDERBOLT(TM) Networking | x\r\nWi-Fi|Intel\r\n";
    let found = nic::detect_windows(listing).unwrap();
    assert_eq!(found.name, "Ethernet 3");
    assert_eq!(found.friendly_name, "Ethernet 3");
    assert_eq!(found.interface_index, None);
    let adapters = vec![adapter(71, "Wi-Fi", ""), adapter(71, "Ethernet 3", "")];
    let numbered = nic::with_index(found, &adapters);
    assert_eq!(numbered.name, "Ethernet 3");
    assert_eq!(numbered.interface_index, Some(13));
    assert_eq!(nic::with_index(numbered, &vec![adapter(6, "x", "")]).interface_index, None);
    assert_eq!(nic::detect_windows("MY THUNDERBOLT").unwrap().name, "MY THUNDERBOLT");
    assert!(nic::detect_windows("Ethernet|Realtek\n").is_none());
    assert!(nic::detect_windows("").is_none());
}

#[test]
fn the_bridge_is_found_on_macos() {
    let listing = "\nHardware Port: Wi-Fi\nDevice: en0\nEthernet Address: aa\n\nHardware Port: Thunderbolt Bridge\nDevice: bridge0\nEthernet Address: bb\n";
    let found = nic::detect_macos(listing).unwrap();
    assert_eq!(found.name, "bridge0");
    assert_eq!(found.friendly_name, "Thunderbolt Bridge");
    assert!(nic::detect_macos("Hardware Port: Thunderbolt Bridge\nDevice: bridge1\n").is_none());
    assert!(nic::detect_macos("Hardware Port: Thunderbolt Bridge\n\nDevice: bridge0\n").is_none());
}

#[test]
fn windows_tries_three_ways() {
    let mut run = WindowsIpSetting::begin("Ether\"net 3", "10.99.99.7", Some(12));
    let way = run.current().unwrap();
    assert_eq!(way.program, Program::Cmd);
    assert_eq!(
        way.command,
        "netsh interface ipv4 set address \"Ethernet 3\" static 10.99.99.7 255.255.255.0 none"
    );
    assert!(!run.report(CommandOutcome::NotRun));
    assert_eq!(
        run.current().unwrap().command,
        "netsh interface ip set address \"Ethernet 3\" static 10.99.99.7 255.255.255.0"
    );
    assert!(!run.report(CommandOutcome::Failed {
        stderr: " denied \n".to_string(),
        stdout: "".to_string()
    }));
    let way = run.current().unwrap();
    assert_eq!(way.program, Program::PowerShell);
    assert_eq!(
        way.command,
        concat_script("12", "10.99.99.7")
    );
    assert!(!run.report(CommandOutcome::NotRun));
    assert!(run.current().is_none());
    assert_eq!(
        to_err(run.give_up()),
        "external command failed: all strategies failed to set static ip. adapter=Ethernet 3, ip=10.99.99.7, last_error=[netsh ip] stderr=denied, stdout=. Ensure OpenBolt is running as Administrator"
    );
    let mut run = WindowsIpSetting::begin("Ethernet 3", "10.99.99.7", None);
    assert!(run.report(CommandOutcome::Succeeded));
    assert!(!run.report(CommandOutcome::NotRun));
    assert!(run.current().is_none());
}

fn concat_script(index: &str, ip: &str) -> String {
    format!(
        "Remove-NetIPAddress -InterfaceIndex {index} -AddressFamily IPv4 -Confirm:$false -ErrorAction SilentlyContinue;New-NetIPAddress -InterfaceIndex {index} -IPAddress '{ip}' -PrefixLength 24 -ErrorAction Stop | Out-Null"
    )
}

#[test]
fn macos_sets_its_address() {
    assert_eq!(
        ip_config::networksetup_args("Thunderbolt Bridge", "10.99.99.7"),
        vec!["-setmanual", "Thunderbolt Bridge", "10.99.99.7", "255.255.255.0"]
    );
    assert!(ip_config::networksetup_result(true, "x".to_string()).is_ok());
    assert_eq!(
        to_err(ip_config::networksetup_result(false, "x".to_string()).err().unwrap()),
        "external command failed: x"
    );
}

#[test]
fn announcements_are_understood() {
    let props = mdns::announcement("macos", "mac-1");
    let value = |k: &str| props.iter().find(|p| p.0 == k).map(|p| p.1.clone());
    let record = TxtRecord {
        os: value("os"),
        hostname: value("hostname"),
        kvm_port: value("kvm_port"),
        api_port: value("api_port"),
    };
    let peer = mdns::resolve_peer("10.99.99.9".to_string(), record).unwrap();
    assert_eq!(peer.os, "macos");
    assert_eq!(peer.hostname, "mac-1");
    assert_eq!(peer.api_port, 7733);
    assert_eq!(peer.kvm_port, 4242);
    assert_eq!(mdns::mdns_host("mac-1"), "mac-1.local.");
}

#[test]
fn peers_fall_back_and_stay_on_the_link() {
    let empty = || TxtRecord { os: None, hostname: None, kvm_port: None, api_port: None };
    let peer = mdns::resolve_peer("10.99.99.9".to_string(), empty()).unwrap();
    assert_eq!(peer.os, "unknown");
    assert_eq!(peer.hostname, "openbolt-peer");
    assert!(mdns::resolve_peer("192.168.0.2".to_string(), empty()).is_none());
    assert!(mdns::resolve_peer("".to_string(), empty()).is_none());
    let odd = TxtRecord {
        os: None,
        hostname: None,
        kvm_port: Some("x".to_string()),
        api_port: Some("8000".to_string()),
    };
    let peer = mdns::resolve_peer("10.99.99.9".to_string(), odd).unwrap();
    assert_eq!(peer.api_port, 8000);
    assert_eq!(peer.kvm_port, 4242);
    let mut peers = Vec::new();
    assert!(mdns::note_peer(&mut peers, peer.clone()));
    assert!(!mdns::note_peer(&mut peers, peer));
    assert_eq!(peers.len(), 1);
}

#[test]
fn the_machine_has_a_name() {
    assert_eq!(mdns::hostname(Some("A".to_string()), Some("b".to_string())), "A");
    assert_eq!(mdns::hostname(None, Some("b".to_string())), "b");
    assert_eq!(mdns::hostname(None, None), "openbolt-device");
}

#[test]
fn the_daemon_is_started() {
    assert_eq!(kvm::parse_mode("server"), Ok(KvmMode::Server));
    assert_eq!(kvm::parse_mode("client"), Ok(KvmMode::Client));
    assert_eq!(kvm::parse_mode("Server"), Err("mode must be server|client".to_string()));
    assert_eq!(
        kvm::lan_mouse_args(KvmMode::Server, "10.99.99.2", "10.99.99.3"),
        vec!["--daemon", "--server", "--bind", "10.99.99.2:4242"]
    );
    assert_eq!(
        kvm::lan_mouse_args(KvmMode::Client, "10.99.99.2", "10.99.99.3"),
        vec!["--daemon", "--client", "--connect", "10.99.99.3:4242"]
    );
    assert!(kvm::check_launched(true).is_ok());
    assert_eq!(
        to_err(kvm::check_launched(false).err().unwrap()),
        "external command failed: failed to launch lan-mouse"
    );
}

#[test]
fn a_configuration_is_patched() {
    let patched = screen_share::patch_config(
        "# host\n  Port=1\nname = x\nport = 2\n",
        &[("address", "10.99.99.2"), ("port", "47989")],
    );
    assert_eq!(patched, "# host\nport = 47989\nname = x\nport = 2\naddress = 10.99.99.2");
    assert_eq!(screen_share::patch_config("", &[("a", "b")]), "a = b");
    assert_eq!(screen_share::patch_config("a  = 1\r\n", &[("a", "b")]), "a = b");
    assert_eq!(screen_share::patch_config("port  = 1", &[("port", "2")]), "port = 2");
    assert_eq!(screen_share::patch_config("port\t=1\nx", &[("PORT", "2")]), "PORT = 2\nx");
    assert_eq!(screen_share::patch_config("ports = 1", &[("port", "2")]), "ports = 1\nport = 2");
    let twice = [("a", "1"), ("A", "2")];
    assert_eq!(screen_share::patch_config("a=0", &twice), "A = 2");
    assert_eq!(screen_share::patch_config("A = 2", &twice), "A = 2");
    assert_eq!(screen_share::patch_config("x\n", &[]), "x");
    let once = screen_share::configure_sunshine("address = 0.0.0.0\n", "10.99.99.2");
    assert_eq!(once, "address = 10.99.99.2\nport = 47989\nmin_log_level = 1");
    assert_eq!(screen_share::configure_sunshine(&once, "10.99.99.2"), once);
}

#[test]
fn the_host_is_looked_for() {
    let windows = screen_share::windows_config_candidates(Some("/appdata"));
    assert_eq!(
        std::path::Path::new(&windows[0]),
        std::path::Path::new("/appdata").join("Sunshine").join("sunshine.conf")
    );
    assert_eq!(windows[1], r"C:\Program Files\Sunshine\config\sunshine.conf");
    assert_eq!(windows[2], r"C:\Program Files (x86)\Sunshine\config\sunshine.conf");
    assert_eq!(screen_share::windows_config_candidates(None)[0], "");
    let mac = screen_share::macos_config_candidates("/Users/me");
    assert_eq!(
        std::path::Path::new(&mac[0]),
        std::path::Path::new("/Users/me/.config/sunshine/sunshine.conf")
    );
    assert_eq!(screen_share::pick_present(&mac, &vec![false, true]).as_deref(), Some("/opt/homebrew/etc/sunshine/sunshine.conf"));
    assert_eq!(screen_share::pick_present(&mac, &vec![true, true]), Some(mac[0].clone()));
    assert_eq!(screen_share::pick_present(&mac, &vec![false, false]), None);
    assert_eq!(
        to_err(screen_share::require_config(None).err().unwrap()),
        "external command failed: sunshine.conf not found; verify Sunshine is installed"
    );
    assert_eq!(
        screen_share::sunshine_executables()[0],
        r"C:\Program Files\Sunshine\sunshine.exe"
    );
    assert_eq!(
        to_err(screen_share::require_sunshine(None).err().unwrap()),
        r"external command failed: sunshine.exe not found; expected at C:\Program Files\Sunshine\sunshine.exe"
    );
    assert_eq!(screen_share::require_sunshine(Some("x".to_string())).ok().unwrap(), "x");
    assert_eq!(
        screen_share::moonlight_args("10.99.99.3"),
        vec!["stream", "10.99.99.3", "--audio-on-host", "--display-mode", "windowed"]
    );
    assert_eq!(
        to_err(screen_share::moonlight_error("no")),
        "external command failed: moonlight not found or failed to start: no"
    );
}

#[test]
fn the_clipboard_is_watched() {
    let mut watch = ClipboardWatch::new();
    let none: Vec<String> = vec![];
    let some = vec!["/a".to_string()];
    let step = watch.tick(&none, true);
    assert!(!step.announce && !step.upload);
    let step = watch.tick(&some, true);
    assert!(step.announce && step.upload);
    let step = watch.tick(&some, true);
    assert!(!step.announce && !step.upload);
    let step = watch.tick(&none, true);
    assert!(step.announce && !step.upload);
    let step = watch.tick(&some, false);
    assert!(step.announce && !step.upload);
}

#[test]
fn clipboard_files_have_a_place() {
    let dir = clipboard::default_clipboard_temp_dir(Some("/home/me".to_string()), None);
    assert_eq!(
        std::path::Path::new(&dir),
        std::path::Path::new("/home/me").join(".openbolt").join("temp")
    );
    let here = clipboard::default_clipboard_temp_dir(None, None);
    assert_eq!(std::path::Path::new(&here), std::path::Path::new("./.openbolt/temp"));
    let profile = clipboard::default_clipboard_temp_dir(None, Some("/p/".to_string()));
    assert_eq!(std::path::Path::new(&profile), std::path::Path::new("/p/.openbolt/temp"));
    let empty = clipboard::default_clipboard_temp_dir(Some("".to_string()), None);
    assert_eq!(std::path::Path::new(&empty), std::path::Path::new(".openbolt/temp"));
    assert_eq!(clipboard::target_dir(Some(" /x ")), " /x ");
    assert_eq!(clipboard::target_dir(Some("  ")), "~/.openbolt/temp");
    assert_eq!(clipboard::target_dir(None), "~/.openbolt/temp");
    let own = clipboard::received_dir(clipboard::target_dir(None), Some("/home/me".to_string()), None);
    assert_eq!(own, dir);
    let other = clipboard::received_dir("/x".to_string(), Some("/home/me".to_string()), None);
    assert_eq!(other, "/x");
    assert_eq!(clipboard::peer_or_none(" ".to_string()), None);
    assert_eq!(clipboard::peer_or_none("p".to_string()).as_deref(), Some("p"));
}

#[test]
fn dropped_lists_are_read() {
    let mut units: Vec<u16> = "C:\\a.txt".encode_utf16().collect();
    units.push(0);
    units.extend("😀".encode_utf16());
    units.push(0);
    units.push(0);
    units.extend([65, 0]);
    assert!(clipboard::is_drop_list(&units));
    assert_eq!(clipboard::drop_list_paths(&units), vec!["C:\\a.txt", "😀"]);
    assert!(clipboard::is_drop_list(&vec![0]));
    assert!(clipboard::drop_list_paths(&vec![0]).is_empty());
    assert!(!clipboard::is_drop_list(&vec![]));
    assert!(!clipboard::is_drop_list(&vec![65]));
    assert!(!clipboard::is_drop_list(&vec![65, 0]));
    assert_eq!(clipboard::drop_list_paths(&vec![0xd800, 0, 0]), vec!["\u{fffd}"]);
}

#[test]
fn scripts_speak_of_paths() {
    assert_eq!(clipboard::script_paths(" /a b \n\nx\n/c\n"), vec!["/a b", "/c"]);
    assert!(clipboard::script_paths("").is_empty());
    assert_eq!(
        clipboard::copy_script("/a b"),
        "set the clipboard to (POSIX file \"/a b\" as alias)"
    );
    assert!(clipboard::copy_result(true).is_ok());
    assert_eq!(
        to_err(clipboard::copy_result(false).err().unwrap()),
        "external command failed: the clipboard was not set"
    );
}

#[test]
fn clipboard_files_are_sent() {
    let r = clipboard::plan_clipboard_upload("10.99.99.3", "/t", Some("k"), "/a/b.txt");
    assert_eq!(r.verb, Verb::Upload);
    assert_eq!(r.url, "http://10.99.99.3:7733/api/fs/upload?path=%2Ft");
    assert_eq!(r.file.unwrap().file_name, "b.txt");
    let r = clipboard::plan_clipboard_upload("10.99.99.3", "/t", None, "..");
    assert_eq!(r.file.unwrap().file_name, "clipboard_file");
    let name = Some("c.txt".to_string());
    let r = clipboard::plan_upload_as("10.99.99.3", "/t", None, "C:\\b\\c.txt", name);
    let file = r.file.unwrap();
    assert_eq!((file.file_name.as_str(), file.local_path.as_str()), ("c.txt", "C:\\b\\c.txt"));
    assert_eq!(
        clipboard::upload_clipboard_files(&vec![
            Sending::Taken,
            Sending::PassedOver,
            Sending::NotTaken,
            Sending::Taken
        ]),
        2
    );
}

#[test]
fn tokens_are_asked_for() {
    let open = ApiAuthConfig { token: None };
    let shut = ApiAuthConfig { token: Some("k".to_string()) };
    assert!(file_api::require_token(&open, None).is_ok());
    assert!(file_api::require_token(&open, Some("x")).is_ok());
    assert!(file_api::require_token(&shut, Some("k")).is_ok());
    for given in [None, Some(""), Some("K"), Some("kk")] {
        let e = file_api::require_token(&shut, given).err().unwrap();
        assert_eq!(e.status, 401);
        assert_eq!(e.message, "invalid token");
    }
    let empty = ApiAuthConfig { token: Some("".to_string()) };
    assert!(file_api::require_token(&empty, None).is_ok());
}

#[test]
fn paths_are_decoded() {
    assert_eq!(file_api::decode_path("%2Fa%20b").ok().unwrap(), "/a b");
    assert_eq!(file_api::decode_path("/a%zz+").ok().unwrap(), "/a%zz+");
    let query = PathQuery { path: "%2Fa".to_string() };
    assert_eq!(file_api::read_path(&query).ok().unwrap(), "/a");
    let e = file_api::decode_path("").err().unwrap();
    assert_eq!((e.status, e.message.as_str()), (400, "path is empty"));
    let e = file_api::decode_path("%ff").err().unwrap();
    assert_eq!(e.status, 400);
    assert!(!e.message.is_empty());
    let moved = file_api::read_move(&MoveQuery { from: "%41".to_string(), to: "b".to_string() });
    assert_eq!(moved.ok().unwrap(), ("A".to_string(), "b".to_string()));
    let e = file_api::read_move(&MoveQuery { from: "a".to_string(), to: "".to_string() });
    assert_eq!(e.err().unwrap().message, "path is empty");
    let e = file_api::read_move(&MoveQuery { from: "%ff".to_string(), to: "".to_string() });
    assert_ne!(e.err().unwrap().message, "path is empty");
}

#[test]
fn queries_are_read() {
    let read = |query: &str| file_api::path_of_query(query);
    assert_eq!(read("path=%2Fr%2Fa%2520b.txt").ok().unwrap(), "/r/a%20b.txt");
    assert_eq!(read("x=1&path=a+b&path2=c").ok().unwrap(), "a b");
    assert_eq!(read("path=a=b").ok().unwrap(), "a=b");
    assert_eq!(read("%70ath=x&%ff=y").ok().unwrap(), "x");
    for query in ["", "paths=/a", "path=/a&path=/b"] {
        let e = read(query).err().unwrap();
        assert_eq!((e.status, e.message.as_str()), (400, "expected one field: path"));
    }
    assert_eq!(read("path").err().unwrap().message, "path is empty");
    assert_eq!(read("path=%ff").err().unwrap().status, 400);
    let read = |query: &str| file_api::move_of_query(query);
    assert_eq!(
        read("to=b%26c&from=%2525").ok().unwrap(),
        ("%25".to_string(), "b&c".to_string())
    );
    assert_eq!(read("to=b").err().unwrap().message, "expected one field: from");
    assert_eq!(read("from=b").err().unwrap().message, "expected one field: to");
    assert_eq!(read("from=a&to=").err().unwrap().message, "path is empty");
}

#[test]
fn requests_are_answered() {
    assert!(matches!(
        file_api::move_path("/a".to_string(), "/b/c".to_string(), false),
        MoveStep::Nothing
    ));
    match file_api::move_path("/a".to_string(), "/b/c".to_string(), true) {
        MoveStep::Rename { folder, from, to } => {
            assert_eq!(folder.as_deref(), Some("/b"));
            assert_eq!(from, "/a");
            assert_eq!(to, "/b/c");
        }
        MoveStep::Nothing => panic!("a renaming"),
    }
    assert_eq!(file_api::delete_path(false, true), DeleteStep::Nothing);
    assert_eq!(file_api::delete_path(true, true), DeleteStep::RemoveFolder);
    assert_eq!(file_api::delete_path(true, false), DeleteStep::RemoveFile);
    let gone = file_api::stat_path(None);
    assert!(!gone.exists && !gone.is_dir && gone.size.is_none() && gone.mtime.is_none());
    let there = file_api::stat_path(Some(Metadata { is_dir: false, len: 4, mtime: Some(9) }));
    assert!(there.exists && there.size == Some(4) && there.mtime == Some(9));
    let listed = file_api::list_entry("n".to_string(), Metadata { is_dir: true, len: 0, mtime: None });
    assert_eq!((listed.name.as_str(), listed.is_dir, listed.mtime), ("n", true, 0));
    for (dir, name, place) in [
        ("/t", Some("a.txt"), "/t/a.txt"),
        ("/t/", Some("12:30.txt"), "/t/12:30.txt"),
        ("/t", Some("1:1 notes.txt"), "/t/1:1 notes.txt"),
        ("/t", Some("..."), "/t/..."),
        ("", Some("a"), "a"),
        ("/t", None, "/t/unnamed.bin"),
    ] {
        let stored = file_api::upload_file(dir, name).ok().unwrap();
        assert_eq!(std::path::Path::new(&stored), std::path::Path::new(place));
        let stored = file_api::upload_place(dir, name, '\\').ok().unwrap();
        assert_eq!(std::path::Path::new(&stored), std::path::Path::new(place));
    }
    for name in ["a\\b.txt", "\\x", "..\\x", "C:x", "a:b.txt"] {
        let stored = file_api::upload_place("/t", Some(name), '/').ok().unwrap();
        assert_eq!(std::path::Path::new(&stored), std::path::Path::new(&format!("/t/./{name}")));
        let e = file_api::upload_place("/t", Some(name), '\\').err().unwrap();
        assert_eq!((e.status, e.message.as_str()), (400, "invalid file name"));
        let here = file_api::upload_file("/t", Some(name));
        assert_eq!(here.is_ok(), std::path::MAIN_SEPARATOR == '/');
    }
    for name in ["", ".", "..", "../x", "a/b", "/x"] {
        for sep in ['/', '\\'] {
            let e = file_api::upload_place("/t", Some(name), sep).err().unwrap();
            assert_eq!((e.status, e.message.as_str()), (400, "invalid file name"));
        }
        assert!(file_api::upload_file("/t", Some(name)).is_err());
    }
    assert_eq!(file_api::bind_address("10.99.99.2", 7733), "10.99.99.2:7733");
    assert_eq!(AppHttpError::bad_request("x".to_string()).status, 400);
    assert_eq!(AppHttpError::from_io("x".to_string()).status, 500);
    assert_eq!(AppHttpError::from_multipart("x".to_string()).status, 400);
}

#[test]
fn every_verb_has_a_route() {
    let routes = file_api::router();
    let paths: Vec<(&str, bool)> =
        routes.iter().map(|r| (r.path.as_str(), r.verb.is_post())).collect();
    assert_eq!(
        paths,
        vec![
            ("/api/fs/list", false),
            ("/api/fs/stat", false),
            ("/api/fs/download", false),
            ("/api/fs/delete", true),
            ("/api/fs/move", true),
            ("/api/fs/upload", true),
        ]
    );
}

#[test]
fn services_run_once() {
    assert!(commands::check_start(Service::Sync, false).is_ok());
    assert!(commands::check_start(Service::Kvm, true).is_ok());
    let names = [
        (Service::Discovery, "mdns"),
        (Service::Sync, "file_sync"),
        (Service::Sunshine, "sunshine"),
        (Service::Moonlight, "moonlight"),
        (Service::FileApi, "file_api"),
        (Service::ClipboardWatcher, "clipboard_watcher"),
    ];
    for (service, name) in names {
        assert_eq!(
            to_err(commands::check_start(service, true).err().unwrap()),
            format!("service already running: {name}")
        );
    }
}

#[test]
fn services_are_stopped_once() {
    let mut running: Running<u8, u16, u32, u64, bool> = Running::new();
    assert!(commands::cleanup_before_exit(&mut running).is_empty());
    running.kvm_child = Some(1);
    running.discovery = Some(2);
    running.api_server = Some(3);
    assert!(running.is_running(Service::Kvm));
    assert!(!running.is_running(Service::Sync));
    assert!(matches!(running.take(Service::Kvm), Some(Stopping::Kvm(1))));
    assert!(running.take(Service::Kvm).is_none());
    running.moonlight_child = Some(4);
    let stop = commands::shutdown_all_services(&mut running);
    assert_eq!(stop.len(), 3);
    assert!(matches!(stop[0], Stopping::Discovery(2)));
    assert!(matches!(stop[1], Stopping::Moonlight(4)));
    assert!(matches!(stop[2], Stopping::FileApi(3)));
    assert!(commands::shutdown_all_services(&mut running).is_empty());
    running.api_server = Some(5);
    running.sunshine_child = Some(6);
    running.sync_runtime = Some(7);
    running.clipboard_watcher = Some(true);
    running.discovery = Some(8);
    let exit = commands::cleanup_before_exit(&mut running);
    assert_eq!(exit.len(), 5);
    assert!(matches!(exit[0], Stopping::FileApi(5)));
    assert!(matches!(exit[1], Stopping::Sunshine(6)));
    assert!(matches!(exit[2], Stopping::Discovery(8)));
    assert!(matches!(exit[3], Stopping::Sync(7)));
    assert!(matches!(exit[4], Stopping::ClipboardWatcher(true)));
    assert!(running.api_server.is_none() && running.sync_runtime.is_none());
    assert!(commands::cleanup_before_exit(&mut running).is_empty());
}

#[test]
fn commands_fall_back() {
    assert_eq!(commands::own_address(None), "10.99.99.2");
    assert_eq!(commands::own_address(Some("x".to_string())), "x");
    assert_eq!(commands::host_address("".to_string(), None), "10.99.99.2");
    assert_eq!(commands::host_address("".to_string(), Some("y".to_string())), "y");
    assert_eq!(commands::host_address("z".to_string(), Some("y".to_string())), "z");
    assert_eq!(commands::parse_direction(Some("bidirectional")), SyncDirection::Bidirectional);
    assert_eq!(commands::parse_direction(Some("Bidirectional")), SyncDirection::Outbound);
    assert_eq!(commands::parse_direction(None), SyncDirection::Outbound);
    assert_eq!(commands::item_limit(None), 50);
    assert_eq!(commands::item_limit(Some(3)), 3);
    let view = commands::get_system_overview(
        "0.1.0".to_string(),
        "linux".to_string(),
        None,
        vec![],
        true,
        &Some("k".to_string()),
    );
    assert!(view.sync_running && view.api_auth_enabled && view.local_ip.is_none());
    assert_eq!(view.platform, "linux");
}

#[test]
fn the_environment_is_obeyed() {
    assert!(commands::env_flag(Some("1")));
    assert!(commands::env_flag(Some("TRUE")));
    assert!(!commands::env_flag(Some("yes")));
    assert!(!commands::env_flag(None));
    let b = commands::bootstrap_from_env(
        None,
        Some("10.99.99.8".to_string()),
        Some("k".to_string()),
        Some("true"),
    );
    assert_eq!(b.file_api_on.as_deref(), Some("10.99.99.2"));
    let peer = b.peer.unwrap();
    assert_eq!(peer.hostname, "peer-manual");
    assert_eq!(peer.os, "unknown");
    assert_eq!(peer.ip, "10.99.99.8");
    assert_eq!((peer.api_port, peer.kvm_port), (7733, 4242));
    let b = commands::bootstrap_from_env(Some("10.99.99.5".to_string()), None, None, Some("1"));
    assert_eq!(b.file_api_on.as_deref(), Some("10.99.99.5"));
    assert!(b.peer.is_none());
    let b = commands::bootstrap_from_env(None, None, None, None);
    assert!(b.file_api_on.is_none());
}
