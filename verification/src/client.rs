//! The decisions of the login client: how it gets from a configuration to a session, when
//! it tries again, and how it takes leave.
use crate::conf::WgConf;
use crate::text::{contains, has_part, law_has_part};
use vstd::prelude::*;
use vstd::string::StrSliceExecFns;

verus! {

/// What a login hands out for the tunnel.
pub struct LoginConf {
    pub address: String,
    pub peer_address: String,
    pub mtu: u32,
    pub private_key: String,
    pub peer_key: String,
    pub dns: String,
    pub protocol: i32,
    pub allowed_ips: Vec<String>,
}

/// The configuration of the tunnel that goes with a login.
pub fn to_tunnel_conf(wg: &LoginConf) -> (conf: WgConf)
    ensures
        conf.address@ == wg.address@,
        conf.peer_address@ == wg.peer_address@,
        conf.mtu == wg.mtu,
        conf.private_key@ == wg.private_key@,
        conf.peer_key@ == wg.peer_key@,
        conf.dns@ == wg.dns@,
        conf.protocol == wg.protocol,
        conf.allowed_ips@.len() == wg.allowed_ips@.len(),
        forall|i: int|
            0 <= i < wg.allowed_ips@.len() ==> #[trigger] conf.allowed_ips@[i]@
                == wg.allowed_ips@[i]@,
{
    let allowed_ips = wg.allowed_ips.clone();
    assert forall|i: int| 0 <= i < wg.allowed_ips@.len() implies #[trigger] allowed_ips@[i]@
        == wg.allowed_ips@[i]@ by {
        assert(cloned::<String>(wg.allowed_ips@[i], allowed_ips@[i]));
    }
    WgConf {
        address: wg.address.clone(),
        peer_address: wg.peer_address.clone(),
        mtu: wg.mtu,
        private_key: wg.private_key.clone(),
        peer_key: wg.peer_key.clone(),
        dns: wg.dns.clone(),
        protocol: wg.protocol,
        allowed_ips,
    }
}

/// The user name and the password that the proxy asks for: none without a user name, and
/// an empty password where there is none.
pub fn socks5_auth(username: Option<String>, password: Option<String>) -> (r: Option<
    (String, String),
>)
    ensures
        match r {
            Some((user, pass)) => {
                &&& username matches Some(u) && u@.len() > 0 && user@ == u@
                &&& pass@ == (match password {
                    Some(p) => p@,
                    None => Seq::empty(),
                })
            },
            None => username matches Some(u) ==> u@.len() == 0,
        },
{
    match username {
        None => None,
        Some(user) => if user.as_str().unicode_len() == 0 {
            None
        } else {
            let pass = match password {
                Some(pass) => pass,
                None => String::new(),
            };
            Some((user, pass))
        },
    }
}

/// The steps from a configuration to a session.
#[derive(Clone, Copy, Debug, PartialEq, Eq, Structural)]
pub enum Stage {
    /// Complete the configuration.
    Prepare,
    /// Ask for the server of the company.
    Lookup,
    /// Make the client.
    Init,
    Login,
    ConnectVpn,
    StartTunnel,
    /// The session is up.
    Up,
}

/// How a step went.
#[derive(Clone, Copy, Debug, PartialEq, Eq, Structural)]
pub enum Done {
    Failed,
    /// It is done. After [`Stage::Prepare`]: whether the server is known. After
    /// [`Stage::Init`]: whether a login is needed. Elsewhere of no meaning.
    Fine(bool),
}

/// What to do after a step. There is nothing to do after one that failed.
pub open spec fn next_stage(stage: Stage, done: Done) -> Option<Stage> {
    match (stage, done) {
        (_, Done::Failed) => None,
        (Stage::Prepare, Done::Fine(server_known)) => Some(
            if server_known {
                Stage::Init
            } else {
                Stage::Lookup
            },
        ),
        (Stage::Lookup, _) => Some(Stage::Init),
        (Stage::Init, Done::Fine(need_login)) => Some(
            if need_login {
                Stage::Login
            } else {
                Stage::ConnectVpn
            },
        ),
        (Stage::Login, _) => Some(Stage::ConnectVpn),
        (Stage::ConnectVpn, _) => Some(Stage::StartTunnel),
        (Stage::StartTunnel, _) => Some(Stage::Up),
        (Stage::Up, _) => Some(Stage::Up),
    }
}

impl Stage {
    /// What to do after a step, or nothing where it failed.
    pub fn next(self, done: Done) -> (r: Option<Stage>)
        ensures
            r == next_stage(self, done),
            r is None <==> done == Done::Failed,
            done matches Done::Fine(flag) ==> {
                &&& self == Stage::Prepare ==> (r == Some(Stage::Lookup) <==> !flag)
                &&& self == Stage::Prepare ==> (r == Some(Stage::Init) <==> flag)
                &&& self == Stage::Lookup ==> r == Some(Stage::Init)
                &&& self == Stage::Init ==> (r == Some(Stage::Login) <==> flag)
                &&& self == Stage::Init ==> (r == Some(Stage::ConnectVpn) <==> !flag)
                &&& self == Stage::Login ==> r == Some(Stage::ConnectVpn)
                &&& self == Stage::ConnectVpn ==> r == Some(Stage::StartTunnel)
                &&& self == Stage::StartTunnel || self == Stage::Up ==> r == Some(Stage::Up)
            },
    {
        match done {
            Done::Failed => None,
            Done::Fine(flag) => Some(
                match self {
                    Stage::Prepare => if flag {
                        Stage::Init
                    } else {
                        Stage::Lookup
                    },
                    Stage::Lookup => Stage::Init,
                    Stage::Init => if flag {
                        Stage::Login
                    } else {
                        Stage::ConnectVpn
                    },
                    Stage::Login => Stage::ConnectVpn,
                    Stage::ConnectVpn => Stage::StartTunnel,
                    Stage::StartTunnel => Stage::Up,
                    Stage::Up => Stage::Up,
                },
            ),
        }
    }
}

/// The steps that are taken where every one of them succeeds.
pub open spec fn steps(server_known: bool, need_login: bool) -> Seq<Stage> {
    seq![Stage::Prepare] + (if server_known {
        Seq::empty()
    } else {
        seq![Stage::Lookup]
    }) + seq![Stage::Init] + (if need_login {
        seq![Stage::Login]
    } else {
        Seq::empty()
    }) + seq![Stage::ConnectVpn, Stage::StartTunnel]
}

/// What a step that succeeds reports.
pub open spec fn report(stage: Stage, server_known: bool, need_login: bool) -> Done {
    match stage {
        Stage::Prepare => Done::Fine(server_known),
        Stage::Init => Done::Fine(need_login),
        _ => Done::Fine(true),
    }
}

/// The company is looked up exactly where the server is not known, the client logs in
/// exactly where that is needed, and in any case the steps come in their order: each
/// leads to the one behind it, and the last one to the session.
pub proof fn law_steps_in_order(server_known: bool, need_login: bool)
    ensures
        ({
            let all = steps(server_known, need_login);
            &&& all[0] == Stage::Prepare
            &&& all.contains(Stage::Lookup) == !server_known
            &&& all.contains(Stage::Login) == need_login
            &&& forall|i: int|
                0 <= i < all.len() ==> next_stage(
                    #[trigger] all[i],
                    report(all[i], server_known, need_login),
                ) == Some(
                    if i + 1 < all.len() {
                        all[i + 1]
                    } else {
                        Stage::Up
                    },
                )
        }),
{
    let all = steps(server_known, need_login);
    if !server_known {
        assert(all[1] == Stage::Lookup);
        if need_login {
            assert(all[3] == Stage::Login);
        }
    } else if need_login {
        assert(all[2] == Stage::Login);
    }
}

/// The shortest and the longest time between two attempts, in seconds.
pub const BACKOFF_MIN: u64 = 5;

pub const BACKOFF_MAX: u64 = 300;

/// What happened while the client tried to log in and to connect.
pub enum Event {
    /// An attempt begins. Whether a login is needed.
    Begin(bool),
    LoggedIn,
    LoginFailed,
    /// The connection failed, with this message.
    ConnectFailed(String),
}

/// The view of an [`Event`]. Of a message only its UTF-8 form matters.
pub enum EventView {
    Begin(bool),
    LoggedIn,
    LoginFailed,
    ConnectFailed(Seq<u8>),
}

impl View for Event {
    type V = EventView;

    open spec fn view(&self) -> EventView {
        match self {
            Event::Begin(need_login) => EventView::Begin(*need_login),
            Event::LoggedIn => EventView::LoggedIn,
            Event::LoginFailed => EventView::LoginFailed,
            Event::ConnectFailed(message) => EventView::ConnectFailed(
                vstd::utf8::encode_utf8(message@),
            ),
        }
    }
}

/// What to do next.
#[derive(Clone, Copy, Debug, PartialEq, Eq, Structural)]
pub enum Attempt {
    Login,
    Connect,
    /// Begin another attempt at once.
    Again,
    /// Begin another attempt after that many seconds.
    AgainAfter(u64),
}

/// When to try again.
#[derive(Clone, Copy, PartialEq, Eq, Structural)]
pub struct Retry {
    /// How long to wait after the next failure, in seconds.
    pub backoff: u64,
    /// Whether a failure that speaks of a logout may still be tried again at once.
    pub logout_retry: bool,
}

/// The word that a failure speaks of when another login ended the session.
pub open spec fn logout_word() -> Seq<u8> {
    seq![108u8, 111, 103, 111, 117, 116]
}

/// Twice the waiting time, up to the longest.
pub open spec fn longer(backoff: u64) -> u64 {
    if backoff * 2 <= BACKOFF_MAX {
        (backoff * 2) as u64
    } else {
        BACKOFF_MAX
    }
}

/// What an event leads to: when to try again from now on, and what to do.
pub open spec fn retried(retry: Retry, event: EventView) -> (Retry, Attempt) {
    match event {
        EventView::Begin(need_login) => (
            retry,
            if need_login {
                Attempt::Login
            } else {
                Attempt::Connect
            },
        ),
        EventView::LoggedIn => (Retry { backoff: BACKOFF_MIN, ..retry }, Attempt::Connect),
        EventView::LoginFailed => (
            Retry { backoff: longer(retry.backoff), ..retry },
            Attempt::AgainAfter(retry.backoff),
        ),
        EventView::ConnectFailed(message) => if retry.logout_retry && has_part(
            message,
            logout_word(),
        ) {
            (Retry { logout_retry: false, ..retry }, Attempt::Again)
        } else {
            (
                Retry { backoff: longer(retry.backoff), ..retry },
                Attempt::AgainAfter(retry.backoff),
            )
        },
    }
}

impl Retry {
    /// Whether the waiting time is within its bounds.
    pub open spec fn is_valid(self) -> bool {
        BACKOFF_MIN <= self.backoff <= BACKOFF_MAX
    }

    pub fn new() -> (retry: Self)
        ensures
            retry == (Retry { backoff: BACKOFF_MIN, logout_retry: true }),
            retry.is_valid(),
            retry.backoff == 5,
    {
        Retry { backoff: BACKOFF_MIN, logout_retry: true }
    }

    /// The waiting time after the next failure grows.
    fn wait(&mut self) -> (attempt: Attempt)
        requires
            old(self).is_valid(),
        ensures
            *final(self) == (Retry { backoff: longer(old(self).backoff), ..*old(self) }),
            attempt == Attempt::AgainAfter(old(self).backoff),
    {
        let now = self.backoff;
        let twice: u64 = self.backoff * 2;
        self.backoff = if twice <= BACKOFF_MAX {
            twice
        } else {
            BACKOFF_MAX
        };
        Attempt::AgainAfter(now)
    }

    /// What to do after an event.
    pub fn after(&mut self, event: Event) -> (attempt: Attempt)
        requires
            old(self).is_valid(),
        ensures
            final(self).is_valid(),
            (*final(self), attempt) == retried(*old(self), event@),
            5 <= final(self).backoff <= 300,
            ({
                let twice = if old(self).backoff <= 150 {
                    old(self).backoff * 2
                } else {
                    300
                };
                match event {
                    Event::Begin(need_login) => *final(self) == *old(self) && attempt == (
                    if need_login {
                        Attempt::Login
                    } else {
                        Attempt::Connect
                    }),
                    Event::LoggedIn => final(self).backoff == 5 && final(self).logout_retry
                        == old(self).logout_retry && attempt == Attempt::Connect,
                    Event::LoginFailed => final(self).backoff == twice && final(self).logout_retry
                        == old(self).logout_retry && attempt == Attempt::AgainAfter(
                        old(self).backoff,
                    ),
                    Event::ConnectFailed(message) => {
                        let m = vstd::utf8::encode_utf8(message@);
                        if old(self).logout_retry && exists|i: int|
                            0 <= i <= m.len() - 6 && #[trigger] m.subrange(i, i + 6) == seq![
                                108u8,
                                111,
                                103,
                                111,
                                117,
                                116,
                            ] {
                            &&& final(self).backoff == old(self).backoff
                            &&& !final(self).logout_retry
                            &&& attempt == Attempt::Again
                        } else {
                            &&& final(self).backoff == twice
                            &&& final(self).logout_retry == old(self).logout_retry
                            &&& attempt == Attempt::AgainAfter(old(self).backoff)
                        }
                    },
                }
            }),
    {
        match event {
            Event::Begin(need_login) => if need_login {
                Attempt::Login
            } else {
                Attempt::Connect
            },
            Event::LoggedIn => {
                self.backoff = BACKOFF_MIN;
                Attempt::Connect
            },
            Event::LoginFailed => self.wait(),
            Event::ConnectFailed(message) => {
                let word: Vec<u8> = vec![108, 111, 103, 111, 117, 116];
                assert(word@ =~= logout_word());
                assert(word@ =~= seq![108u8, 111, 103, 111, 117, 116]);
                if self.logout_retry && contains(message.as_str().as_bytes(), word.as_slice()) {
                    self.logout_retry = false;
                    Attempt::Again
                } else {
                    self.wait()
                }
            },
        }
    }
}

/// When to try again after several events.
pub open spec fn after_all(retry: Retry, events: Seq<EventView>) -> Retry
    decreases events.len(),
{
    if events.len() == 0 {
        retry
    } else {
        retried(after_all(retry, events.drop_last()), events.last()).0
    }
}

/// How often several events lead to another attempt at once.
pub open spec fn at_once(retry: Retry, events: Seq<EventView>) -> nat
    decreases events.len(),
{
    if events.len() == 0 {
        0
    } else {
        at_once(retry, events.drop_last()) + (if retried(
            after_all(retry, events.drop_last()),
            events.last(),
        ).1 == Attempt::Again {
            1nat
        } else {
            0nat
        })
    }
}

/// Whatever happens, the waiting time stays within its bounds.
pub proof fn law_backoff_bounded(retry: Retry, events: Seq<EventView>)
    requires
        retry.is_valid(),
    ensures
        after_all(retry, events).is_valid(),
    decreases events.len(),
{
    if events.len() > 0 {
        law_backoff_bounded(retry, events.drop_last());
    }
}

/// Whatever happens, at most one attempt follows another at once.
pub proof fn law_one_attempt_at_once(retry: Retry, events: Seq<EventView>)
    ensures
        at_once(retry, events) <= 1,
        at_once(retry, events) == 1 ==> !after_all(retry, events).logout_retry,
        !retry.logout_retry ==> at_once(retry, events) == 0 && !after_all(
            retry,
            events,
        ).logout_retry,
    decreases events.len(),
{
    if events.len() > 0 {
        law_one_attempt_at_once(retry, events.drop_last());
    }
}

/// The waiting time after `n` failures in a row, and no success.
pub open spec fn waiting_time(n: nat) -> nat
    decreases n,
{
    if n == 0 {
        BACKOFF_MIN as nat
    } else {
        let twice = 2 * waiting_time((n - 1) as nat);
        if twice <= BACKOFF_MAX {
            twice
        } else {
            BACKOFF_MAX as nat
        }
    }
}

/// Failed logins in a row are tried again after 5, 10, 20, 40, 80, 160 and 300 seconds,
/// and after 300 seconds from then on.
pub proof fn law_waiting_doubles(events: Seq<EventView>)
    requires
        forall|i: int| 0 <= i < events.len() ==> #[trigger] events[i] == EventView::LoginFailed,
    ensures
        after_all(Retry { backoff: BACKOFF_MIN, logout_retry: true }, events).backoff
            == waiting_time(events.len()),
        events.len() <= 5 ==> waiting_time(events.len()) == 5 * vstd::arithmetic::power2::pow2(
            events.len(),
        ),
        events.len() >= 6 ==> waiting_time(events.len()) == 300,
    decreases events.len(),
{
    vstd::arithmetic::power2::lemma2_to64();
    if events.len() > 0 {
        let before = events.drop_last();
        assert forall|i: int| 0 <= i < before.len() implies #[trigger] before[i]
            == EventView::LoginFailed by {
            assert(before[i] == events[i]);
        }
        law_waiting_doubles(before);
        assert(events.last() == EventView::LoginFailed);
    }
}

/// A login resets the waiting time.
pub proof fn law_login_resets(retry: Retry, events: Seq<EventView>)
    ensures
        after_all(retry, events.push(EventView::LoggedIn)).backoff == BACKOFF_MIN,
{
    assert(events.push(EventView::LoggedIn).drop_last() =~= events);
}

/// What wakes the task that keeps a session alive.
#[derive(Clone, Copy, Debug, PartialEq, Eq, Structural)]
pub enum Wake {
    /// A minute went by.
    Tick,
    /// The session is to end.
    Shutdown,
}

/// What that task does.
#[derive(Clone, Copy, Debug, PartialEq, Eq, Structural)]
pub enum Duty {
    /// Report the status, and go on waiting.
    Report,
    /// Disconnect, log out, and end.
    DisconnectAndLogout,
}

/// The seconds between two reports.
pub const REPORT_INTERVAL: u64 = 60;

/// What to do when the task wakes. A session that ends is disconnected and its terminal
/// logged out, which frees the terminal's slot on the server.
pub fn on_wake(wake: Wake) -> (duty: Duty)
    ensures
        duty == (match wake {
            Wake::Tick => Duty::Report,
            Wake::Shutdown => Duty::DisconnectAndLogout,
        }),
{
    match wake {
        Wake::Tick => Duty::Report,
        Wake::Shutdown => Duty::DisconnectAndLogout,
    }
}

/// A step leads nowhere exactly where it failed, and where it is fine, what it reports
/// matters only after the configuration is complete and after the client is made.
pub proof fn law_step_reports(stage: Stage, flag: bool)
    ensures
        next_stage(stage, Done::Failed) is None,
        next_stage(stage, Done::Fine(flag)) is Some,
        next_stage(stage, Done::Fine(flag)) != next_stage(stage, Done::Fine(!flag)) <==> stage
            == Stage::Prepare || stage == Stage::Init,
        next_stage(Stage::Prepare, Done::Fine(false)) == Some(Stage::Lookup),
        next_stage(Stage::Lookup, Done::Fine(flag)) == next_stage(Stage::Prepare, Done::Fine(true)),
        next_stage(Stage::Init, Done::Fine(true)) == Some(Stage::Login),
        next_stage(Stage::Login, Done::Fine(flag)) == next_stage(Stage::Init, Done::Fine(false)),
{
}

/// After a failure that is not tried again at once, the client waits as long as it is to
/// wait now, and after the next one twice as long, but never longer than 300 seconds.
pub proof fn law_failure_waits(retry: Retry, event: EventView)
    requires
        5 <= retry.backoff <= 300,
        retried(retry, event).1 is AgainAfter,
    ensures
        ({
            let (retry2, attempt) = retried(retry, event);
            &&& attempt == Attempt::AgainAfter(retry.backoff)
            &&& retry2.backoff == 300 || retry2.backoff == 2 * retry.backoff
            &&& retry2.backoff == 300 ==> 2 * retry.backoff >= 300
            &&& retry2.backoff <= 300
            &&& retry2.logout_retry == retry.logout_retry
            &&& event == EventView::LoginFailed || event is ConnectFailed
        }),
{
}

/// Only a failure leads to another attempt, and it always does. It does so at once exactly
/// where a connection failed, the message holds the word, `logout`, with anything around it,
/// and that did not happen before; then the waiting time stays as it is.
pub proof fn law_tried_again(retry: Retry, event: EventView, word: Seq<u8>)
    requires
        word == seq![108u8, 111, 103, 111, 117, 116],
    ensures
        ({
            let (retry2, attempt) = retried(retry, event);
            &&& attempt is Again || attempt is AgainAfter <==> event is LoginFailed || event
                is ConnectFailed
            &&& attempt is Again <==> retry.logout_retry && (event matches EventView::ConnectFailed(m)
                && exists|a: Seq<u8>, b: Seq<u8>| #[trigger]
                (a + word + b) == m)
            &&& attempt is Again ==> retry2.backoff == retry.backoff && !retry2.logout_retry
            &&& !(attempt is Again) ==> retry2.logout_retry == retry.logout_retry
            &&& attempt == Attempt::Login <==> event == EventView::Begin(true)
            &&& attempt == Attempt::Connect <==> event == EventView::Begin(false) || event
                == EventView::LoggedIn
        }),
{
    if let EventView::ConnectFailed(m) = event {
        assert(word =~= logout_word());
        law_has_part(m, word);
    }
}

/// A login sets the waiting time to 5 seconds, and the beginning of an attempt leaves
/// everything as it is.
pub proof fn law_no_failure(retry: Retry, need_login: bool)
    ensures
        retried(retry, EventView::LoggedIn).0.backoff == 5,
        retried(retry, EventView::LoggedIn).0.logout_retry == retry.logout_retry,
        retried(retry, EventView::Begin(need_login)).0 == retry,
{
}

} // verus!
