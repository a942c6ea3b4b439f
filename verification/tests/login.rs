//! The decisions of the login client.
use corplink_tunnel::client::{
    on_wake, socks5_auth, to_tunnel_conf, Attempt, Done, Duty, Event, LoginConf, Retry, Stage, Wake, REPORT_INTERVAL,
};

#[test]
fn tunnel_conf_is_a_copy() {
    let wg = LoginConf {
        address: "10.0.0.2/24".to_string(),
        peer_address: "192.0.2.1:443".to_string(),
        mtu: 1400,
        private_key: "private".to_string(),
        peer_key: "peer".to_string(),
        dns: "10.0.0.1".to_string(),
        protocol: 1,
        allowed_ips: vec!["10.0.0.0/8".to_string(), "192.168.0.0/16".to_string()],
    };
    let c = to_tunnel_conf(&wg);
    assert_eq!(c.address, wg.address);
    assert_eq!(c.peer_address, wg.peer_address);
    assert_eq!(c.mtu, 1400);
    assert_eq!(c.private_key, "private");
    assert_eq!(c.peer_key, "peer");
    assert_eq!(c.dns, "10.0.0.1");
    assert_eq!(c.protocol, 1);
    assert_eq!(c.allowed_ips, wg.allowed_ips);
}

#[test]
fn proxy_credentials() {
    let s = |t: &str| Some(t.to_string());
    assert_eq!(socks5_auth(None, s("p")), None);
    assert_eq!(socks5_auth(s(""), s("p")), None);
    assert_eq!(socks5_auth(s("u"), s("p")), Some(("u".to_string(), "p".to_string())));
    assert_eq!(socks5_auth(s("u"), None), Some(("u".to_string(), String::new())));
}

fn stages(server_known: bool, need_login: bool) -> Vec<Stage> {
    let mut all = vec![Stage::Prepare];
    loop {
        let stage = all[all.len() - 1];
        let flag = match stage {
            Stage::Prepare => server_known,
            Stage::Init => need_login,
            _ => false,
        };
        match stage.next(Done::Fine(flag)) {
            Some(Stage::Up) => return all,
            Some(next) => all.push(next),
            None => panic!("failed"),
        }
    }
}

#[test]
fn steps_to_a_session() {
    assert_eq!(stages(true, false), vec![Stage::Prepare, Stage::Init, Stage::ConnectVpn, Stage::StartTunnel]);
    assert_eq!(stages(false, true), vec![Stage::Prepare, Stage::Lookup, Stage::Init, Stage::Login, Stage::ConnectVpn, Stage::StartTunnel]);
    assert_eq!(stages(true, true), vec![Stage::Prepare, Stage::Init, Stage::Login, Stage::ConnectVpn, Stage::StartTunnel]);
    assert_eq!(stages(false, false), vec![Stage::Prepare, Stage::Lookup, Stage::Init, Stage::ConnectVpn, Stage::StartTunnel]);
    assert_eq!(Stage::Login.next(Done::Failed), None);
    assert_eq!(Stage::Up.next(Done::Fine(true)), Some(Stage::Up));
}

#[test]
fn waiting_doubles_up_to_five_minutes() {
    let mut retry = Retry::new();
    let mut waits = Vec::new();
    for _ in 0..8 {
        assert_eq!(retry.after(Event::Begin(true)), Attempt::Login);
        match retry.after(Event::LoginFailed) {
            Attempt::AgainAfter(s) => waits.push(s),
            _ => panic!("no wait"),
        }
    }
    assert_eq!(waits, vec![5, 10, 20, 40, 80, 160, 300, 300]);
    assert_eq!(retry.after(Event::LoggedIn), Attempt::Connect);
    assert_eq!(retry.after(Event::ConnectFailed("timeout".to_string())), Attempt::AgainAfter(5));
    assert_eq!(retry.after(Event::ConnectFailed("timeout".to_string())), Attempt::AgainAfter(10));
    assert_eq!(retry.after(Event::Begin(false)), Attempt::Connect);
}

#[test]
fn logout_is_tried_again_at_once_only_once() {
    let mut retry = Retry::new();
    let message = || Event::ConnectFailed("terminal was logout by peer".to_string());
    assert_eq!(retry.after(message()), Attempt::Again);
    assert!(retry.backoff == 5);
    assert_eq!(retry.after(message()), Attempt::AgainAfter(5));
    assert_eq!(retry.after(Event::LoggedIn), Attempt::Connect);
    assert_eq!(retry.after(message()), Attempt::AgainAfter(5));
}

#[test]
fn session_duties() {
    assert_eq!(REPORT_INTERVAL, 60);
    assert_eq!(on_wake(Wake::Tick), Duty::Report);
    assert_eq!(on_wake(Wake::Shutdown), Duty::DisconnectAndLogout);
}
