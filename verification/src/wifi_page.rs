//! The network page: the state of its dialogs and lists, and what each
//! interaction asks of the network manager.
use vstd::prelude::*;

use secure_string::SecureString;

use vstd::utf8::{decode_utf8, valid_utf8};

use crate::text::{self, opt_view, text_le, views};

verus! {

/// A secret text that is wiped when it is dropped.
#[verifier::external_type_specification]
#[verifier::external_body]
pub struct ExSecureString(secure_string::SecureString);

#[derive(Debug, Clone, Copy, PartialEq, Eq, Structural)]
pub enum NetworkType {
    Open,
    /// Enterprise networks, which ask for an identity too.
    Eap,
    Psk,
}

#[derive(Debug)]
pub struct AccessPoint {
    pub ssid: String,
    pub network_type: NetworkType,
    pub strength: u8,
}

/// What the network manager reports.
#[derive(Debug)]
pub struct NetworkState {
    pub wireless_access_points: Vec<AccessPoint>,
    pub known_access_points: Vec<AccessPoint>,
    /// The names of the active wireless connections.
    pub active: Vec<String>,
    pub wifi_enabled: bool,
    pub airplane_mode: bool,
}

/// The connection to the network manager.
#[derive(Debug)]
pub struct NmState {
    pub state: NetworkState,
    /// The interfaces of the wireless devices.
    pub devices: Vec<String>,
}

pub struct NmView {
    pub state: NetworkState,
    pub devices: Seq<String>,
}

impl View for NmState {
    type V = NmView;

    open spec fn view(&self) -> NmView {
        NmView { state: self.state, devices: self.devices@ }
    }
}

#[derive(Debug)]
pub enum WifiDialog {
    Forget(String),
    Password {
        ssid: String,
        /// Only enterprise networks have one.
        identity: Option<String>,
        /// `None` while nothing was typed.
        password: Option<SecureString>,
        password_hidden: bool,
        /// The secret agent's request that the password answers, if it
        /// answers one.
        ticket: Option<u64>,
    },
}

pub enum DialogView {
    Forget(Seq<char>),
    Password {
        ssid: Seq<char>,
        identity: Option<Seq<char>>,
        password: Option<SecureString>,
        password_hidden: bool,
        ticket: Option<u64>,
    },
}

impl View for WifiDialog {
    type V = DialogView;

    open spec fn view(&self) -> DialogView {
        match *self {
            WifiDialog::Forget(s) => DialogView::Forget(s@),
            WifiDialog::Password { ssid, identity, password, password_hidden, ticket } =>
                DialogView::Password {
                ssid: ssid@,
                identity: opt_view(identity),
                password,
                password_hidden,
                ticket,
            },
        }
    }
}

/// All state of the network page.
#[derive(Debug)]
pub struct WifiUiState {
    pub nm: Option<NmState>,
    /// The interface that connections are made through, when one is chosen.
    pub active_device: Option<String>,
    pub dialog: Option<WifiDialog>,
    pub view_more_popup: Option<String>,
    pub connecting: Vec<String>,
    /// The connection UUID of each known network, in the order of names.
    pub ssid_to_uuid: Vec<(String, String)>,
    /// Updates that wait until the popup is closed.
    pub withheld_devices: Option<Vec<String>>,
    pub withheld_state: Option<NetworkState>,
    pub initialized: bool,
}

#[verifier::ext_equal]
pub struct WifiView {
    pub nm: Option<NmView>,
    pub active_device: Option<Seq<char>>,
    pub dialog: Option<DialogView>,
    pub view_more_popup: Option<Seq<char>>,
    pub connecting: Set<Seq<char>>,
    pub ssid_to_uuid: Seq<(String, String)>,
    pub withheld_devices: Option<Seq<String>>,
    pub withheld_state: Option<NetworkState>,
    pub initialized: bool,
}

impl View for WifiUiState {
    type V = WifiView;

    open spec fn view(&self) -> WifiView {
        WifiView {
            nm: opt_view(self.nm),
            active_device: opt_view(self.active_device),
            dialog: opt_view(self.dialog),
            view_more_popup: opt_view(self.view_more_popup),
            connecting: views(self.connecting@).to_set(),
            ssid_to_uuid: self.ssid_to_uuid@,
            withheld_devices: opt_view(self.withheld_devices),
            withheld_state: self.withheld_state,
            initialized: self.initialized,
        }
    }
}

pub open spec fn initial_wifi() -> WifiView {
    WifiView {
        nm: None,
        active_device: None,
        dialog: None,
        view_more_popup: None,
        connecting: Set::empty(),
        ssid_to_uuid: Seq::empty(),
        withheld_devices: None,
        withheld_state: None,
        initialized: false,
    }
}

impl Default for WifiUiState {
    fn default() -> (r: Self)
        ensures
            r@ == initial_wifi(),
            r.names_once(),
    {
        let r = WifiUiState {
            nm: None,
            active_device: None,
            dialog: None,
            view_more_popup: None,
            connecting: Vec::new(),
            ssid_to_uuid: Vec::new(),
            withheld_devices: None,
            withheld_state: None,
            initialized: false,
        };
        assert(views(r.connecting@).to_set() =~= Set::empty());
        assert(r@ =~= initial_wifi());
        r
    }
}

/// A request that the network manager has answered.
#[derive(Debug)]
pub enum NmRequest {
    Authenticate { ssid: String, identity: Option<String> },
    SelectAccessPoint { ssid: String, network_type: NetworkType },
    Other,
}

#[derive(Debug)]
pub enum WifiMsg {
    /// Cancels a dialog.
    CancelDialog,
    /// Connect to an access point.
    Connect(String),
    /// Connect with the password of the dialog.
    ConnectWithPassword,
    /// The known networks and their connection UUIDs.
    ConnectionSettings(Vec<(String, String)>),
    Disconnect(String),
    Error(String),
    IdentityUpdate(String),
    FocusSecureInput,
    /// Ask before forgetting a network.
    ForgetRequest(String),
    Forget(String),
    /// The connection to the network manager is up.
    Init(NetworkState),
    /// Something changed at the network manager.
    Changed,
    /// Credentials passed by; nothing to do.
    Credentials,
    /// The network manager has answered a request.
    Response { request: NmRequest, state: NetworkState, success: bool },
    /// Ask for a password.
    PasswordRequest(String),
    PasswordUpdate(SecureString),
    /// The secret agent asks for a secret.
    SecretRequested { name: String, previous: SecureString, ticket: u64 },
    SecretCancelled,
    SecretFailed(String),
    /// Choose the interface to connect through.
    SelectDevice(String),
    SubmitIdentity,
    TogglePasswordVisibility,
    UpdateState(NetworkState),
    UpdateDevices(Vec<String>),
    /// Show or close the options of a network.
    ViewMore(Option<String>),
    WiFiEnable(bool),
}

/// What an interaction asks for.
#[derive(Debug)]
pub enum WifiEffect {
    RefreshDevices,
    RefreshState,
    /// Read the known networks, and start the secret agent.
    LoadSettings,
    /// Send [`WifiMsg::FocusSecureInput`] once the dialog is up.
    AskFocus,
    FocusPassword,
    FocusNext,
    /// Answer the secret agent's request.
    AnswerAgent { ticket: u64, password: Option<SecureString> },
    Select { ssid: String, network_type: NetworkType, interface: Option<String> },
    Authenticate {
        ssid: String,
        identity: Option<String>,
        password: Option<SecureString>,
        interface: Option<String>,
    },
    Disconnect(String),
    Forget(String),
    SetWifi(bool),
    Reload,
}

pub enum WifiEffectView {
    RefreshDevices,
    RefreshState,
    LoadSettings,
    AskFocus,
    FocusPassword,
    FocusNext,
    AnswerAgent { ticket: u64, password: Option<SecureString> },
    Select { ssid: Seq<char>, network_type: NetworkType, interface: Option<Seq<char>> },
    Authenticate {
        ssid: Seq<char>,
        identity: Option<Seq<char>>,
        password: Option<SecureString>,
        interface: Option<Seq<char>>,
    },
    Disconnect(Seq<char>),
    Forget(Seq<char>),
    SetWifi(bool),
    Reload,
}

impl View for WifiEffect {
    type V = WifiEffectView;

    open spec fn view(&self) -> WifiEffectView {
        match *self {
            WifiEffect::RefreshDevices => WifiEffectView::RefreshDevices,
            WifiEffect::RefreshState => WifiEffectView::RefreshState,
            WifiEffect::LoadSettings => WifiEffectView::LoadSettings,
            WifiEffect::AskFocus => WifiEffectView::AskFocus,
            WifiEffect::FocusPassword => WifiEffectView::FocusPassword,
            WifiEffect::FocusNext => WifiEffectView::FocusNext,
            WifiEffect::AnswerAgent { ticket, password } => WifiEffectView::AnswerAgent {
                ticket,
                password,
            },
            WifiEffect::Select { ssid, network_type, interface } => WifiEffectView::Select {
                ssid: ssid@,
                network_type,
                interface: opt_view(interface),
            },
            WifiEffect::Authenticate { ssid, identity, password, interface } =>
                WifiEffectView::Authenticate {
                ssid: ssid@,
                identity: opt_view(identity),
                password,
                interface: opt_view(interface),
            },
            WifiEffect::Disconnect(s) => WifiEffectView::Disconnect(s@),
            WifiEffect::Forget(s) => WifiEffectView::Forget(s@),
            WifiEffect::SetWifi(b) => WifiEffectView::SetWifi(b),
            WifiEffect::Reload => WifiEffectView::Reload,
        }
    }
}

// ---------- lookups ----------

/// The type of the first access point with this name, at or behind `i`.
pub open spec fn type_from(aps: Seq<AccessPoint>, ssid: Seq<char>, i: int) -> Option<NetworkType>
    decreases aps.len() - i,
{
    if i < 0 || i >= aps.len() {
        None
    } else if aps[i].ssid@ == ssid {
        Some(aps[i].network_type)
    } else {
        type_from(aps, ssid, i + 1)
    }
}

/// The type of a network: visible ones are looked at first.
pub open spec fn network_type_of(s: NetworkState, ssid: Seq<char>) -> Option<NetworkType> {
    match type_from(s.wireless_access_points@, ssid, 0) {
        Some(t) => Some(t),
        None => type_from(s.known_access_points@, ssid, 0),
    }
}

/// The first network at or behind `i` whose connection has this UUID.
pub open spec fn ssid_from(map: Seq<(String, String)>, uuid: Seq<char>, i: int) -> Option<Seq<char>>
    decreases map.len() - i,
{
    if i < 0 || i >= map.len() {
        None
    } else if map[i].1@ == uuid {
        Some(map[i].0@)
    } else {
        ssid_from(map, uuid, i + 1)
    }
}

pub open spec fn identity_for(t: NetworkType) -> Option<Seq<char>> {
    if t is Eap {
        Some(Seq::empty())
    } else {
        None
    }
}

fn find_type(aps: &Vec<AccessPoint>, ssid: &str) -> (r: Option<NetworkType>)
    ensures
        r == type_from(aps@, ssid@, 0),
{
    let mut i: usize = 0;
    while i < aps.len()
        invariant
            i <= aps@.len(),
            type_from(aps@, ssid@, 0) == type_from(aps@, ssid@, i as int),
        decreases aps@.len() - i,
    {
        if text::same(aps[i].ssid.as_str(), ssid) {
            return Some(aps[i].network_type);
        }
        i += 1;
    }
    None
}

fn find_network(s: &NetworkState, ssid: &str) -> (r: Option<NetworkType>)
    ensures
        r == network_type_of(*s, ssid@),
{
    match find_type(&s.wireless_access_points, ssid) {
        Some(t) => Some(t),
        None => find_type(&s.known_access_points, ssid),
    }
}

fn find_ssid(map: &Vec<(String, String)>, uuid: &str) -> (r: Option<String>)
    ensures
        opt_view(r) == ssid_from(map@, uuid@, 0),
{
    let mut i: usize = 0;
    while i < map.len()
        invariant
            i <= map@.len(),
            ssid_from(map@, uuid@, 0) == ssid_from(map@, uuid@, i as int),
        decreases map@.len() - i,
    {
        if text::same(map[i].1.as_str(), uuid) {
            return Some(map[i].0.clone());
        }
        i += 1;
    }
    None
}

fn blank_identity(t: NetworkType) -> (r: Option<String>)
    ensures
        opt_view(r) == identity_for(t),
{
    if matches!(t, NetworkType::Eap) {
        let s = String::new();
        assert(s@ =~= Seq::empty());
        Some(s)
    } else {
        None
    }
}

fn holds(list: &Vec<String>, s: &str) -> (r: bool)
    ensures
        r == views(list@).to_set().contains(s@),
{
    let mut i: usize = 0;
    while i < list.len()
        invariant
            i <= list@.len(),
            forall|j: int| 0 <= j < i ==> list@[j]@ != s@,
        decreases list@.len() - i,
    {
        if text::same(list[i].as_str(), s) {
            assert(views(list@)[i as int] == s@);
            return true;
        }
        i += 1;
    }
    assert(!views(list@).contains(s@)) by {
        if views(list@).contains(s@) {
            let j = choose|j: int| 0 <= j < views(list@).len() && views(list@)[j] == s@;
            assert(list@[j]@ == s@);
        }
    }
    false
}

fn add_name(list: &mut Vec<String>, s: String)
    ensures
        views(final(list)@).to_set() == views(old(list)@).to_set().insert(s@),
        views(old(list)@).no_duplicates() ==> views(final(list)@).no_duplicates(),
{
    let ghost before = views(list@);
    if holds(list, s.as_str()) {
        assert(before.to_set() =~= before.to_set().insert(s@));
        return;
    }
    list.push(s);
    let ghost after = views(list@);
    assert(after =~= before.push(s@));
    proof {
        lemma_push_set(before, s@);
    }
}

proof fn lemma_push_set(list: Seq<Seq<char>>, s: Seq<char>)
    ensures
        list.push(s).to_set() =~= list.to_set().insert(s),
{
    let more = list.push(s);
    assert forall|x: Seq<char>| more.to_set().contains(x) == list.to_set().insert(s).contains(x) by {
        if more.contains(x) {
            let j = choose|j: int| 0 <= j < more.len() && more[j] == x;
            if j < list.len() {
                assert(list[j] == x);
            }
        }
        if list.contains(x) {
            let j = choose|j: int| 0 <= j < list.len() && list[j] == x;
            assert(more[j] == x);
        }
        assert(more[list.len() as int] == s);
    }
}

fn drop_name(list: &Vec<String>, s: &str) -> (r: Vec<String>)
    ensures
        views(r@).to_set() == views(list@).to_set().remove(s@),
        views(list@).no_duplicates() ==> views(r@).no_duplicates(),
{
    let ghost all = views(list@);
    let mut out: Vec<String> = Vec::new();
    let mut i: usize = 0;
    assert(views(out@).to_set() =~= all.take(0).to_set().remove(s@));
    while i < list.len()
        invariant
            i <= list@.len(),
            all == views(list@),
            views(out@).to_set() == all.take(i as int).to_set().remove(s@),
            all.no_duplicates() ==> views(out@).no_duplicates(),
        decreases list@.len() - i,
    {
        let ghost before = views(out@);
        let ghost x = all[i as int];
        assert(all.take(i + 1) =~= all.take(i as int).push(x));
        proof {
            lemma_push_set(all.take(i as int), x);
        }
        if !text::same(list[i].as_str(), s) {
            out.push(list[i].clone());
            assert(views(out@) =~= before.push(x));
            proof {
                lemma_push_set(before, x);
                if all.no_duplicates() && before.contains(x) {
                    assert(before.to_set().contains(x));
                    assert(all.take(i as int).contains(x));
                    let j = choose|j: int| 0 <= j < i && all.take(i as int)[j] == x;
                    assert(all[j] == all[i as int]);
                }
            }
        }
        assert(views(out@).to_set() =~= all.take(i + 1).to_set().remove(s@));
        i += 1;
    }
    assert(all.take(all.len() as int) =~= all);
    out
}

// ---------- transitions ----------

/// A fresh password dialog.
pub open spec fn ask_password(
    ssid: Seq<char>,
    identity: Option<Seq<char>>,
    password: Option<SecureString>,
    ticket: Option<u64>,
) -> Option<DialogView> {
    Some(DialogView::Password { ssid, identity, password, password_hidden: true, ticket })
}

/// A new state is shown at once, or kept back while the popup is open.
pub open spec fn with_state(v: WifiView, state: NetworkState) -> WifiView {
    match v.nm {
        Some(nm) => if v.view_more_popup is Some {
            WifiView { withheld_state: Some(state), ..v }
        } else {
            WifiView { nm: Some(NmView { state, ..nm }), ..v }
        },
        None => v,
    }
}

pub open spec fn with_devices(v: WifiView, devices: Seq<String>) -> WifiView {
    match v.nm {
        Some(nm) => if v.view_more_popup is Some {
            WifiView { withheld_devices: Some(devices), ..v }
        } else {
            WifiView { nm: Some(NmView { devices, ..nm }), ..v }
        },
        None => v,
    }
}

/// The popup closes, and what was kept back takes effect.
pub open spec fn closed_popup(v: WifiView) -> WifiView {
    match v.nm {
        Some(nm) => WifiView {
            view_more_popup: None,
            nm: Some(
                NmView {
                    state: match v.withheld_state {
                        Some(s) => s,
                        None => nm.state,
                    },
                    devices: match v.withheld_devices {
                        Some(d) => d,
                        None => nm.devices,
                    },
                },
            ),
            withheld_state: None,
            withheld_devices: None,
            ..v
        },
        None => WifiView { view_more_popup: None, ..v },
    }
}

pub open spec fn quiet(v: WifiView) -> (WifiView, Seq<WifiEffectView>) {
    (v, Seq::empty())
}

/// An answered request: a failed one asks for the password again.
pub open spec fn answered(
    v: WifiView,
    request: NmRequest,
    state: NetworkState,
    success: bool,
) -> (WifiView, Seq<WifiEffectView>) {
    let refresh = if v.nm is Some {
        seq![WifiEffectView::RefreshDevices]
    } else {
        Seq::empty()
    };
    match request {
        NmRequest::Authenticate { ssid, identity } => {
            let w = if success {
                WifiView { connecting: v.connecting.remove(ssid@), ..v }
            } else {
                WifiView { dialog: ask_password(ssid@, opt_view(identity), None, None), ..v }
            };
            (with_state(w, state), refresh)
        },
        NmRequest::SelectAccessPoint { ssid, network_type } => if success || network_type is Open {
            (
                with_state(WifiView { connecting: v.connecting.remove(ssid@), ..v }, state),
                refresh,
            )
        } else {
            (
                WifiView {
                    dialog: ask_password(ssid@, identity_for(network_type), None, None),
                    ..v
                },
                seq![WifiEffectView::AskFocus],
            )
        },
        NmRequest::Other => (with_state(v, state), refresh),
    }
}

/// Connecting with the dialog's password closes the dialog. The password
/// goes to the secret agent's request where it answers one, else to the
/// network manager.
pub open spec fn submitted(v: WifiView) -> (WifiView, Seq<WifiEffectView>) {
    match v.dialog {
        Some(DialogView::Password { ssid, identity, password, ticket, .. }) => if v.nm is Some {
            (
                WifiView { dialog: None, connecting: v.connecting.insert(ssid), ..v },
                seq![
                    match ticket {
                        Some(ticket) => WifiEffectView::AnswerAgent { ticket, password },
                        None => WifiEffectView::Authenticate {
                            ssid,
                            identity,
                            password,
                            interface: v.active_device,
                        },
                    },
                ],
            )
        } else {
            quiet(WifiView { dialog: None, ..v })
        },
        _ => quiet(WifiView { dialog: None, ..v }),
    }
}

/// A secret that the agent asks for, for a network that is known here.
pub open spec fn secret_asked(
    v: WifiView,
    name: Seq<char>,
    previous: SecureString,
    ticket: u64,
) -> (WifiView, Seq<WifiEffectView>) {
    let ssid = match ssid_from(v.ssid_to_uuid, name, 0) {
        Some(s) => s,
        None => Seq::empty(),
    };
    match v.nm {
        Some(nm) => match network_type_of(nm.state, ssid) {
            Some(t) => (
                WifiView {
                    dialog: ask_password(ssid, identity_for(t), Some(previous), Some(ticket)),
                    ..v
                },
                seq![WifiEffectView::AskFocus],
            ),
            None => quiet(v),
        },
        None => quiet(v),
    }
}

/// The state and the effects that follow an interaction.
pub open spec fn wifi_step(v: WifiView, msg: WifiMsg) -> (WifiView, Seq<WifiEffectView>) {
    match msg {
        WifiMsg::CancelDialog => quiet(WifiView { dialog: None, ..v }),
        WifiMsg::Connect(ssid) => match v.nm {
            Some(nm) => match network_type_of(nm.state, ssid@) {
                Some(t) => (
                    WifiView { connecting: v.connecting.insert(ssid@), ..v },
                    seq![
                        WifiEffectView::Select {
                            ssid: ssid@,
                            network_type: t,
                            interface: v.active_device,
                        },
                    ],
                ),
                None => quiet(v),
            },
            None => quiet(v),
        },
        WifiMsg::ConnectWithPassword => submitted(v),
        WifiMsg::ConnectionSettings(map) => quiet(WifiView { ssid_to_uuid: map@, ..v }),
        WifiMsg::Disconnect(ssid) => (
            closed_popup(v),
            if v.nm is Some {
                seq![WifiEffectView::Disconnect(ssid@)]
            } else {
                Seq::empty()
            },
        ),
        WifiMsg::Error(_) => quiet(v),
        WifiMsg::IdentityUpdate(text) => quiet(
            match v.dialog {
                Some(DialogView::Password { ssid, password, password_hidden, ticket, .. }) =>
                    WifiView {
                    dialog: Some(
                        DialogView::Password {
                            ssid,
                            identity: Some(text@),
                            password,
                            password_hidden,
                            ticket,
                        },
                    ),
                    ..v
                },
                _ => v,
            },
        ),
        WifiMsg::FocusSecureInput => (
            v,
            if v.dialog is Some && v.dialog->0 is Password {
                seq![WifiEffectView::FocusPassword]
            } else {
                Seq::empty()
            },
        ),
        WifiMsg::ForgetRequest(ssid) => quiet(
            WifiView { dialog: Some(DialogView::Forget(ssid@)), view_more_popup: None, ..v },
        ),
        WifiMsg::Forget(ssid) => (
            closed_popup(WifiView { dialog: None, ..v }),
            if v.nm is Some {
                seq![WifiEffectView::Forget(ssid@)]
            } else {
                Seq::empty()
            },
        ),
        WifiMsg::Init(state) => (
            WifiView { nm: Some(NmView { state, devices: Seq::empty() }), ..v },
            seq![WifiEffectView::RefreshDevices],
        ),
        WifiMsg::Changed => (
            v,
            if v.nm is Some {
                seq![WifiEffectView::RefreshState, WifiEffectView::RefreshDevices]
            } else {
                Seq::empty()
            },
        ),
        WifiMsg::Credentials => quiet(v),
        WifiMsg::Response { request, state, success } => answered(v, request, state, success),
        WifiMsg::PasswordRequest(ssid) => match v.nm {
            Some(nm) => match network_type_of(nm.state, ssid@) {
                Some(t) => (
                    WifiView { dialog: ask_password(ssid@, identity_for(t), None, None), ..v },
                    seq![WifiEffectView::AskFocus],
                ),
                None => quiet(v),
            },
            None => quiet(v),
        },
        WifiMsg::PasswordUpdate(p) => quiet(
            match v.dialog {
                Some(DialogView::Password { ssid, identity, password_hidden, ticket, .. }) =>
                    WifiView {
                    dialog: Some(
                        DialogView::Password {
                            ssid,
                            identity,
                            password: Some(p),
                            password_hidden,
                            ticket,
                        },
                    ),
                    ..v
                },
                _ => v,
            },
        ),
        WifiMsg::SecretRequested { name, previous, ticket } => secret_asked(
            v,
            name@,
            previous,
            ticket,
        ),
        WifiMsg::SecretCancelled => quiet(
            if v.dialog is Some && v.dialog->0 is Password {
                WifiView { dialog: None, ..v }
            } else {
                v
            },
        ),
        WifiMsg::SecretFailed(_) => match v.dialog {
            Some(DialogView::Password { ssid, identity, password, .. }) => (
                WifiView { dialog: ask_password(ssid, identity, password, None), ..v },
                seq![WifiEffectView::AskFocus],
            ),
            _ => quiet(WifiView { dialog: None, ..v }),
        },
        WifiMsg::SelectDevice(interface) => quiet(
            WifiView { active_device: Some(interface@), ..v },
        ),
        WifiMsg::SubmitIdentity => (
            v,
            if v.dialog is Some {
                seq![WifiEffectView::FocusNext]
            } else {
                Seq::empty()
            },
        ),
        WifiMsg::TogglePasswordVisibility => quiet(
            match v.dialog {
                Some(DialogView::Password { ssid, identity, password, password_hidden, ticket }) =>
                    WifiView {
                    dialog: Some(
                        DialogView::Password {
                            ssid,
                            identity,
                            password,
                            password_hidden: !password_hidden,
                            ticket,
                        },
                    ),
                    ..v
                },
                _ => v,
            },
        ),
        WifiMsg::UpdateState(state) => (with_state(v, state), seq![WifiEffectView::LoadSettings]),
        WifiMsg::UpdateDevices(devices) => quiet(with_devices(v, devices@)),
        WifiMsg::ViewMore(ssid) => quiet(
            match ssid {
                Some(s) => WifiView { view_more_popup: Some(s@), ..v },
                None => closed_popup(v),
            },
        ),
        WifiMsg::WiFiEnable(enable) => (
            v,
            if v.nm is Some {
                seq![WifiEffectView::SetWifi(enable), WifiEffectView::Reload]
            } else {
                Seq::empty()
            },
        ),
    }
}

fn no_effects() -> (r: Vec<WifiEffect>)
    ensures
        views(r@) == Seq::<WifiEffectView>::empty(),
{
    let r: Vec<WifiEffect> = Vec::new();
    assert(views(r@) =~= Seq::empty());
    r
}

fn one_effect(e: WifiEffect) -> (r: Vec<WifiEffect>)
    ensures
        views(r@) == seq![e@],
{
    let mut r: Vec<WifiEffect> = Vec::new();
    r.push(e);
    assert(views(r@) =~= seq![e@]);
    r
}

fn two_effects(a: WifiEffect, b: WifiEffect) -> (r: Vec<WifiEffect>)
    ensures
        views(r@) == seq![a@, b@],
{
    let mut r: Vec<WifiEffect> = Vec::new();
    r.push(a);
    r.push(b);
    assert(views(r@) =~= seq![a@, b@]);
    r
}

impl WifiUiState {
    /// No network is listed twice among those that are being connected to.
    pub open spec fn names_once(self) -> bool {
        views(self.connecting@).no_duplicates()
    }

    /// The first visit to the page reads the known networks.
    pub fn on_first_enter(&mut self) -> (r: Vec<WifiEffect>)
        ensures
            final(self)@ == (WifiView { initialized: true, ..old(self)@ }),
            old(self).names_once() ==> final(self).names_once(),
            views(r@) == (if old(self).initialized {
                Seq::empty()
            } else {
                seq![WifiEffectView::LoadSettings]
            }),
    {
        if self.initialized {
            assert(self@ =~= (WifiView { initialized: true, ..old(self)@ }));
            return no_effects();
        }
        self.initialized = true;
        assert(self@ =~= (WifiView { initialized: true, ..old(self)@ }));
        one_effect(WifiEffect::LoadSettings)
    }

    fn close_popup_and_apply_updates(&mut self)
        ensures
            final(self)@ == closed_popup(old(self)@),
            old(self).names_once() ==> final(self).names_once(),
    {
        self.view_more_popup = None;
        if let Some(nm) = self.nm.take() {
            let mut nm = nm;
            if let Some(state) = self.withheld_state.take() {
                nm.state = state;
            }
            if let Some(devices) = self.withheld_devices.take() {
                nm.devices = devices;
            }
            self.nm = Some(nm);
        }
        assert(self@ =~= closed_popup(old(self)@));
    }

    fn update_devices(&mut self, devices: Vec<String>)
        ensures
            final(self)@ == with_devices(old(self)@, devices@),
            old(self).names_once() ==> final(self).names_once(),
    {
        if let Some(nm) = self.nm.take() {
            let mut nm = nm;
            if self.view_more_popup.is_some() {
                self.withheld_devices = Some(devices);
            } else {
                nm.devices = devices;
            }
            self.nm = Some(nm);
        }
        assert(self@ =~= with_devices(old(self)@, devices@));
    }

    fn update_state(&mut self, state: NetworkState)
        ensures
            final(self)@ == with_state(old(self)@, state),
            old(self).names_once() ==> final(self).names_once(),
    {
        if let Some(nm) = self.nm.take() {
            let mut nm = nm;
            if self.view_more_popup.is_some() {
                self.withheld_state = Some(state);
            } else {
                nm.state = state;
            }
            self.nm = Some(nm);
        }
        assert(self@ =~= with_state(old(self)@, state));
    }

    fn network_type(&self, ssid: &str) -> (r: Option<NetworkType>)
        ensures
            r == (match self@.nm {
                Some(nm) => network_type_of(nm.state, ssid@),
                None => None,
            }),
    {
        match &self.nm {
            Some(nm) => find_network(&nm.state, ssid),
            None => None,
        }
    }

    fn on_response(&mut self, request: NmRequest, state: NetworkState, success: bool) -> (r: Vec<
        WifiEffect,
    >)
        ensures
            (final(self)@, views(r@)) == answered(old(self)@, request, state, success),
            old(self).names_once() ==> final(self).names_once(),
    {
        let ghost goal = answered(old(self)@, request, state, success);
        match request {
            NmRequest::Authenticate { ssid, identity } => {
                if success {
                    self.connecting = drop_name(&self.connecting, ssid.as_str());
                    assert(self@ =~= (WifiView {
                        connecting: old(self)@.connecting.remove(ssid@),
                        ..old(self)@
                    }));
                } else {
                    self.dialog = Some(
                        WifiDialog::Password {
                            ssid,
                            identity,
                            password: None,
                            password_hidden: true,
                            ticket: None,
                        },
                    );
                    assert(self@ =~= (WifiView {
                        dialog: ask_password(ssid@, opt_view(identity), None, None),
                        ..old(self)@
                    }));
                }
            },
            NmRequest::SelectAccessPoint { ssid, network_type } => {
                if success || matches!(network_type, NetworkType::Open) {
                    self.connecting = drop_name(&self.connecting, ssid.as_str());
                    assert(self@ =~= (WifiView {
                        connecting: old(self)@.connecting.remove(ssid@),
                        ..old(self)@
                    }));
                } else {
                    self.dialog = Some(
                        WifiDialog::Password {
                            ssid,
                            identity: blank_identity(network_type),
                            password: None,
                            password_hidden: true,
                            ticket: None,
                        },
                    );
                    assert(self@ =~= goal.0);
                    return one_effect(WifiEffect::AskFocus);
                }
            },
            NmRequest::Other => {},
        }
        self.update_state(state);
        if self.nm.is_some() {
            one_effect(WifiEffect::RefreshDevices)
        } else {
            no_effects()
        }
    }

    fn on_submit(&mut self) -> (r: Vec<WifiEffect>)
        ensures
            (final(self)@, views(r@)) == submitted(old(self)@),
            old(self).names_once() ==> final(self).names_once(),
    {
        let ghost goal = submitted(old(self)@);
        let dialog = self.dialog.take();
        if let Some(WifiDialog::Password { ssid, identity, password, ticket, .. }) = dialog {
            if self.nm.is_some() {
                add_name(&mut self.connecting, ssid.clone());
                assert(self@ =~= goal.0);
                return match ticket {
                    Some(ticket) => one_effect(WifiEffect::AnswerAgent { ticket, password }),
                    None => one_effect(
                        WifiEffect::Authenticate {
                            ssid,
                            identity,
                            password,
                            interface: text::clone_opt(&self.active_device),
                        },
                    ),
                };
            }
        }
        assert(self@ =~= goal.0);
        no_effects()
    }

    fn on_secret_request(&mut self, name: String, previous: SecureString, ticket: u64) -> (r: Vec<
        WifiEffect,
    >)
        ensures
            (final(self)@, views(r@)) == secret_asked(old(self)@, name@, previous, ticket),
            old(self).names_once() ==> final(self).names_once(),
    {
        let ghost goal = secret_asked(old(self)@, name@, previous, ticket);
        let ssid = match find_ssid(&self.ssid_to_uuid, name.as_str()) {
            Some(s) => s,
            None => String::new(),
        };
        assert(ssid@ =~= (match ssid_from(self@.ssid_to_uuid, name@, 0) {
            Some(s) => s,
            None => Seq::empty(),
        }));
        match self.network_type(ssid.as_str()) {
            Some(t) => {
                self.dialog = Some(
                    WifiDialog::Password {
                        ssid,
                        identity: blank_identity(t),
                        password: Some(previous),
                        password_hidden: true,
                        ticket: Some(ticket),
                    },
                );
                assert(self@ =~= goal.0);
                one_effect(WifiEffect::AskFocus)
            },
            None => no_effects(),
        }
    }

    /// Interactions with an open dialog.
    fn on_dialog(&mut self, msg: WifiMsg) -> (r: Vec<WifiEffect>)
        requires
            msg is IdentityUpdate || msg is PasswordUpdate || msg is TogglePasswordVisibility || msg
                is SecretCancelled || msg is SecretFailed,
        ensures
            (final(self)@, views(r@)) == wifi_step(old(self)@, msg),
            old(self).names_once() ==> final(self).names_once(),
    {
        let ghost goal = wifi_step(old(self)@, msg);
        match self.dialog.take() {
            Some(
                WifiDialog::Password { ssid, identity, password, password_hidden, ticket },
            ) => {
                match msg {
                    WifiMsg::IdentityUpdate(text) => {
                        self.dialog = Some(
                            WifiDialog::Password {
                                ssid,
                                identity: Some(text),
                                password,
                                password_hidden,
                                ticket,
                            },
                        );
                    },
                    WifiMsg::PasswordUpdate(p) => {
                        self.dialog = Some(
                            WifiDialog::Password {
                                ssid,
                                identity,
                                password: Some(p),
                                password_hidden,
                                ticket,
                            },
                        );
                    },
                    WifiMsg::TogglePasswordVisibility => {
                        self.dialog = Some(
                            WifiDialog::Password {
                                ssid,
                                identity,
                                password,
                                password_hidden: !password_hidden,
                                ticket,
                            },
                        );
                    },
                    WifiMsg::SecretFailed(_) => {
                        self.dialog = Some(
                            WifiDialog::Password {
                                ssid,
                                identity,
                                password,
                                password_hidden: true,
                                ticket: None,
                            },
                        );
                        assert(self@ =~= goal.0);
                        return one_effect(WifiEffect::AskFocus);
                    },
                    _ => {},
                }
            },
            Some(other) => {
                // A failed agent closes the dialog whatever it is about.
                if !matches!(msg, WifiMsg::SecretFailed(_)) {
                    self.dialog = Some(other);
                }
            },
            None => {},
        }
        assert(self@ =~= goal.0);
        no_effects()
    }

    /// One interaction with the page, or one report of the network manager.
    pub fn update(&mut self, msg: WifiMsg) -> (r: Vec<WifiEffect>)
        ensures
            (final(self)@, views(r@)) == wifi_step(old(self)@, msg),
            old(self).names_once() ==> final(self).names_once(),
    {
        let ghost goal = wifi_step(old(self)@, msg);
        match msg {
            WifiMsg::CancelDialog => {
                self.dialog = None;
                assert(self@ =~= goal.0);
                no_effects()
            },
            WifiMsg::Connect(ssid) => {
                match self.network_type(ssid.as_str()) {
                    Some(t) => {
                        add_name(&mut self.connecting, ssid.clone());
                        assert(self@ =~= goal.0);
                        one_effect(
                            WifiEffect::Select {
                                ssid,
                                network_type: t,
                                interface: text::clone_opt(&self.active_device),
                            },
                        )
                    },
                    None => no_effects(),
                }
            },
            WifiMsg::ConnectWithPassword => self.on_submit(),
            WifiMsg::ConnectionSettings(map) => {
                self.ssid_to_uuid = map;
                assert(self@ =~= goal.0);
                no_effects()
            },
            WifiMsg::Disconnect(ssid) => {
                self.close_popup_and_apply_updates();
                if self.nm.is_some() {
                    one_effect(WifiEffect::Disconnect(ssid))
                } else {
                    no_effects()
                }
            },
            WifiMsg::Error(_) => no_effects(),
            WifiMsg::IdentityUpdate(_) => self.on_dialog(msg),
            WifiMsg::FocusSecureInput => {
                if matches!(self.dialog, Some(WifiDialog::Password { .. })) {
                    one_effect(WifiEffect::FocusPassword)
                } else {
                    no_effects()
                }
            },
            WifiMsg::ForgetRequest(ssid) => {
                self.dialog = Some(WifiDialog::Forget(ssid));
                self.view_more_popup = None;
                assert(self@ =~= goal.0);
                no_effects()
            },
            WifiMsg::Forget(ssid) => {
                self.dialog = None;
                assert(self@ =~= (WifiView { dialog: None, ..old(self)@ }));
                self.close_popup_and_apply_updates();
                if self.nm.is_some() {
                    one_effect(WifiEffect::Forget(ssid))
                } else {
                    no_effects()
                }
            },
            WifiMsg::Init(state) => {
                self.nm = Some(NmState { state, devices: Vec::new() });
                assert(self@ =~= goal.0);
                one_effect(WifiEffect::RefreshDevices)
            },
            WifiMsg::Changed => {
                if self.nm.is_some() {
                    two_effects(WifiEffect::RefreshState, WifiEffect::RefreshDevices)
                } else {
                    no_effects()
                }
            },
            WifiMsg::Credentials => no_effects(),
            WifiMsg::Response { request, state, success } => self.on_response(
                request,
                state,
                success,
            ),
            WifiMsg::PasswordRequest(ssid) => {
                match self.network_type(ssid.as_str()) {
                    Some(t) => {
                        self.dialog = Some(
                            WifiDialog::Password {
                                ssid,
                                identity: blank_identity(t),
                                password: None,
                                password_hidden: true,
                                ticket: None,
                            },
                        );
                        assert(self@ =~= goal.0);
                        one_effect(WifiEffect::AskFocus)
                    },
                    None => no_effects(),
                }
            },
            WifiMsg::PasswordUpdate(_) => self.on_dialog(msg),
            WifiMsg::SecretRequested { name, previous, ticket } => self.on_secret_request(
                name,
                previous,
                ticket,
            ),
            WifiMsg::SecretCancelled => self.on_dialog(msg),
            WifiMsg::SecretFailed(_) => self.on_dialog(msg),
            WifiMsg::SelectDevice(interface) => {
                self.active_device = Some(interface);
                assert(self@ =~= goal.0);
                no_effects()
            },
            WifiMsg::SubmitIdentity => {
                if self.dialog.is_some() {
                    one_effect(WifiEffect::FocusNext)
                } else {
                    no_effects()
                }
            },
            WifiMsg::TogglePasswordVisibility => self.on_dialog(msg),
            WifiMsg::UpdateState(state) => {
                self.update_state(state);
                one_effect(WifiEffect::LoadSettings)
            },
            WifiMsg::UpdateDevices(devices) => {
                self.update_devices(devices);
                no_effects()
            },
            WifiMsg::ViewMore(ssid) => {
                match ssid {
                    Some(s) => {
                        self.view_more_popup = Some(s);
                        assert(self@ =~= goal.0);
                    },
                    None => self.close_popup_and_apply_updates(),
                }
                no_effects()
            },
            WifiMsg::WiFiEnable(enable) => {
                if self.nm.is_some() {
                    two_effects(WifiEffect::SetWifi(enable), WifiEffect::Reload)
                } else {
                    no_effects()
                }
            },
        }
    }
}

// ---------- rows ----------

/// What the button of a network does.
#[derive(Debug, Clone, Copy, PartialEq, Eq, Structural)]
pub enum RowAction {
    Connected,
    Connecting,
    /// Connect with the known credentials.
    Connect,
    /// Ask for a password first.
    AskPassword,
}

/// How one visible network is shown.
#[derive(Debug, Clone, Copy, PartialEq, Eq, Structural)]
pub struct NetworkRow {
    pub connected: bool,
    pub known: bool,
    pub action: RowAction,
}

pub open spec fn is_active(s: NetworkState, ssid: Seq<char>) -> bool {
    views(s.active@).to_set().contains(ssid)
}

pub open spec fn is_known(s: NetworkState, ssid: Seq<char>) -> bool {
    type_from(s.known_access_points@, ssid, 0) is Some || is_active(s, ssid)
}

/// How a network of the list is shown: connected, being connected to, or
/// with a button that connects, which asks for a password where the
/// network is not known yet.
pub fn network_row(ui: &WifiUiState, state: &NetworkState, ssid: &str) -> (r: NetworkRow)
    ensures
        r.connected == is_active(*state, ssid@),
        r.known == is_known(*state, ssid@),
        r.action == if is_active(*state, ssid@) {
            RowAction::Connected
        } else if ui@.connecting.contains(ssid@) {
            RowAction::Connecting
        } else if is_known(*state, ssid@) {
            RowAction::Connect
        } else {
            RowAction::AskPassword
        },
{
    let connected = holds(&state.active, ssid);
    let known = find_type(&state.known_access_points, ssid).is_some() || connected;
    let action = if connected {
        RowAction::Connected
    } else if holds(&ui.connecting, ssid) {
        RowAction::Connecting
    } else if known {
        RowAction::Connect
    } else {
        RowAction::AskPassword
    };
    NetworkRow { connected, known, action }
}

/// The signal icon of a network.
pub fn wifi_icon(strength: u8) -> (r: &'static str)
    ensures
        r@ == (if strength < 25 {
            "network-wireless-signal-weak-symbolic"@
        } else if strength < 50 {
            "network-wireless-signal-ok-symbolic"@
        } else if strength < 75 {
            "network-wireless-signal-good-symbolic"@
        } else {
            "network-wireless-signal-excellent-symbolic"@
        }),
{
    if strength < 25 {
        "network-wireless-signal-weak-symbolic"
    } else if strength < 50 {
        "network-wireless-signal-ok-symbolic"
    } else if strength < 75 {
        "network-wireless-signal-good-symbolic"
    } else {
        "network-wireless-signal-excellent-symbolic"
    }
}

// ---------- sections ----------

/// The places of the first `n` networks that are known, or that are not.
pub open spec fn section(s: NetworkState, known: bool, n: nat) -> Seq<usize>
    decreases n,
{
    if n == 0 {
        Seq::empty()
    } else {
        let front = section(s, known, (n - 1) as nat);
        if is_known(s, s.wireless_access_points@[n - 1].ssid@) == known {
            front.push((n - 1) as usize)
        } else {
            front
        }
    }
}

/// The visible networks by place: those that are known, then the others.
pub fn network_sections(state: &NetworkState) -> (r: (Vec<usize>, Vec<usize>))
    ensures
        r.0@ == section(*state, true, state.wireless_access_points@.len()),
        r.1@ == section(*state, false, state.wireless_access_points@.len()),
{
    let mut known: Vec<usize> = Vec::new();
    let mut other: Vec<usize> = Vec::new();
    let mut i: usize = 0;
    while i < state.wireless_access_points.len()
        invariant
            i <= state.wireless_access_points@.len(),
            known@ == section(*state, true, i as nat),
            other@ == section(*state, false, i as nat),
        decreases state.wireless_access_points@.len() - i,
    {
        let ssid = state.wireless_access_points[i].ssid.as_str();
        if find_type(&state.known_access_points, ssid).is_some() || holds(&state.active, ssid) {
            known.push(i);
        } else {
            other.push(i);
        }
        i += 1;
    }
    (known, other)
}

/// Whether there is nothing to list, though the radio is on.
pub fn nothing_visible(state: &NetworkState) -> (r: bool)
    ensures
        r == (!state.airplane_mode && state.known_access_points@.len() == 0
            && state.wireless_access_points@.len() == 0),
{
    !state.airplane_mode && state.known_access_points.len() == 0
        && state.wireless_access_points.len() == 0
}

// ---------- stored connections ----------

/// A stored connection: the bytes of its network's name, and its UUID,
/// where it has them.
#[derive(Debug, PartialEq, Eq)]
pub struct StoredConnection {
    pub ssid: Option<Vec<u8>>,
    pub uuid: Option<String>,
}

/// `String::from_utf8`: the text that valid UTF-8 encodes, and nothing for
/// other bytes.
#[verifier::external_body]
fn utf8_text(bytes: Vec<u8>) -> (r: Option<String>)
    ensures
        match r {
            Some(s) => valid_utf8(bytes@) && s@ == decode_utf8(bytes@),
            None => !valid_utf8(bytes@),
        },
{
    String::from_utf8(bytes).ok()
}

/// Texts by key, as pairs.
pub open spec fn pairs(s: Seq<(String, String)>) -> Seq<(Seq<char>, Seq<char>)> {
    s.map_values(|p: (String, String)| (p.0@, p.1@))
}

/// The pairs, ordered by key, with one more: it replaces the one with the
/// same key.
pub open spec fn with_setting(
    s: Seq<(Seq<char>, Seq<char>)>,
    key: Seq<char>,
    value: Seq<char>,
) -> Seq<(Seq<char>, Seq<char>)>
    decreases s.len(),
{
    if s.len() == 0 {
        seq![(key, value)]
    } else if s.last().0 == key {
        s.drop_last().push((key, value))
    } else if text_le(s.last().0, key) {
        s.push((key, value))
    } else {
        with_setting(s.drop_last(), key, value).push(s.last())
    }
}

/// The UUIDs by network name, of the connections that have both.
pub open spec fn settings_of(list: Seq<StoredConnection>) -> Seq<(Seq<char>, Seq<char>)>
    decreases list.len(),
{
    if list.len() == 0 {
        Seq::empty()
    } else {
        let front = settings_of(list.drop_last());
        match (list.last().ssid, list.last().uuid) {
            (Some(ssid), Some(uuid)) => if valid_utf8(ssid@) {
                with_setting(front, decode_utf8(ssid@), uuid@)
            } else {
                front
            },
            _ => front,
        }
    }
}

proof fn lemma_with_setting_at(
    s: Seq<(Seq<char>, Seq<char>)>,
    key: Seq<char>,
    value: Seq<char>,
    pos: int,
)
    requires
        0 <= pos <= s.len(),
        forall|j: int| pos <= j < s.len() ==> (#[trigger] s[j]).0 != key && !text_le(s[j].0, key),
    ensures
        pos > 0 && s[pos - 1].0 == key ==> with_setting(s, key, value) == s.update(
            pos - 1,
            (key, value),
        ),
        (pos == 0 || (s[pos - 1].0 != key && text_le(s[pos - 1].0, key))) ==> with_setting(
            s,
            key,
            value,
        ) == s.insert(pos, (key, value)),
    decreases s.len(),
{
    if pos < s.len() {
        let front = s.drop_last();
        lemma_with_setting_at(front, key, value, pos);
        if pos > 0 {
            assert(s.update(pos - 1, (key, value)) =~= front.update(pos - 1, (key, value)).push(
                s.last(),
            ));
        }
        assert(s.insert(pos, (key, value)) =~= front.insert(pos, (key, value)).push(s.last()));
    } else if s.len() > 0 {
        assert(s.update(pos - 1, (key, value)) =~= s.drop_last().push((key, value)));
        assert(s.insert(pos, (key, value)) =~= s.push((key, value)));
    } else {
        assert(s.insert(pos, (key, value)) =~= seq![(key, value)]);
    }
}

fn add_setting(list: &mut Vec<(String, String)>, key: String, value: String)
    ensures
        pairs(final(list)@) == with_setting(pairs(old(list)@), key@, value@),
{
    let ghost before = list@;
    let ghost all = pairs(before);
    let mut pos: usize = list.len();
    while pos > 0
        invariant
            pos <= list@.len(),
            list@ == before,
            *list == *old(list),
            all == pairs(before),
            before == old(list)@,
            forall|j: int|
                pos <= j < all.len() ==> (#[trigger] all[j]).0 != key@ && !text_le(all[j].0, key@),
        decreases pos,
    {
        assert(all[pos - 1].0 == list@[pos - 1].0@);
        if text::same(list[pos - 1].0.as_str(), key.as_str()) {
            list.set(pos - 1, (key, value));
            proof {
                lemma_with_setting_at(all, key@, value@, pos as int);
            }
            assert(pairs(list@) =~= all.update(pos - 1, (key@, value@)));
            return;
        }
        if text::text_before(list[pos - 1].0.as_str(), key.as_str()) {
            list.insert(pos, (key, value));
            proof {
                lemma_with_setting_at(all, key@, value@, pos as int);
            }
            assert(pairs(list@) =~= all.insert(pos as int, (key@, value@)));
            return;
        }
        pos -= 1;
    }
    list.insert(0, (key, value));
    proof {
        lemma_with_setting_at(all, key@, value@, 0);
    }
    assert(pairs(list@) =~= all.insert(0, (key@, value@)));
}

/// The UUIDs of the stored connections by network name.
pub fn connection_settings(list: Vec<StoredConnection>) -> (r: Vec<(String, String)>)
    ensures
        pairs(r@) == settings_of(list@),
{
    let ghost all = list@;
    let ghost mut n: int = 0;
    let mut rest = list;
    let mut out: Vec<(String, String)> = Vec::new();
    assert(all.skip(0) =~= all);
    assert(all.take(0) =~= Seq::empty());
    assert(pairs(out@) =~= Seq::empty());
    while rest.len() > 0
        invariant
            0 <= n <= all.len(),
            rest@ == all.skip(n),
            pairs(out@) == settings_of(all.take(n)),
        decreases rest@.len(),
    {
        let c = rest.remove(0);
        assert(c == all[n]);
        assert(rest@ =~= all.skip(n + 1));
        assert(all.take(n + 1).drop_last() =~= all.take(n));
        assert(all.take(n + 1).last() == c);
        if let (Some(ssid), Some(uuid)) = (c.ssid, c.uuid) {
            if let Some(name) = utf8_text(ssid) {
                add_setting(&mut out, name, uuid);
            }
        }
        proof {
            n = n + 1;
        }
    }
    assert(all.take(n) =~= all);
    out
}

// ---------- laws ----------

/// A setting that was just stored is there, and storing one adds at most
/// one.
pub proof fn law_stored_settings_are_kept(
    s: Seq<(Seq<char>, Seq<char>)>,
    key: Seq<char>,
    value: Seq<char>,
)
    ensures
        with_setting(s, key, value).contains((key, value)),
        with_setting(s, key, value).len() <= s.len() + 1,
    decreases s.len(),
{
    let r = with_setting(s, key, value);
    if s.len() == 0 {
        assert(r[0] == (key, value));
    } else if s.last().0 == key {
        assert(r.last() == (key, value));
    } else if text_le(s.last().0, key) {
        assert(r.last() == (key, value));
    } else {
        law_stored_settings_are_kept(s.drop_last(), key, value);
        let front = with_setting(s.drop_last(), key, value);
        let i = choose|i: int| 0 <= i < front.len() && front[i] == (key, value);
        assert(r[i] == (key, value));
    }
}

/// The keys, in order, with none twice.
pub open spec fn keys_ascend(s: Seq<(Seq<char>, Seq<char>)>) -> bool {
    forall|i: int, j: int|
        0 <= i < j < s.len() ==> (#[trigger] s[i]).0 != (#[trigger] s[j]).0 && text_le(
            s[i].0,
            s[j].0,
        )
}

/// A key of a list with one more setting is the new one or an old one.
proof fn lemma_setting_keys(
    s: Seq<(Seq<char>, Seq<char>)>,
    key: Seq<char>,
    value: Seq<char>,
    i: int,
)
    requires
        0 <= i < with_setting(s, key, value).len(),
    ensures
        with_setting(s, key, value)[i].0 == key || exists|j: int|
            0 <= j < s.len() && (#[trigger] s[j]).0 == with_setting(s, key, value)[i].0,
    decreases s.len(),
{
    let r = with_setting(s, key, value);
    if s.len() == 0 || s.last().0 == key || text_le(s.last().0, key) {
        if r[i].0 != key {
            assert(s[i] == r[i]);
        }
    } else if i == r.len() - 1 {
        assert(s[s.len() - 1] == r[i]);
    } else {
        let front = s.drop_last();
        lemma_setting_keys(front, key, value, i);
        if r[i].0 != key {
            let j = choose|j: int|
                0 <= j < front.len() && (#[trigger] front[j]).0 == with_setting(
                    front,
                    key,
                    value,
                )[i].0;
            assert(s[j] == front[j]);
        }
    }
}

/// Storing a setting keeps the keys in order, with none twice.
pub proof fn law_stored_keys_ascend(
    s: Seq<(Seq<char>, Seq<char>)>,
    key: Seq<char>,
    value: Seq<char>,
)
    requires
        keys_ascend(s),
    ensures
        keys_ascend(with_setting(s, key, value)),
    decreases s.len(),
{
    let r = with_setting(s, key, value);
    if s.len() > 0 {
        let front = s.drop_last();
        let last = s.last().0;
        if last != key && !text_le(last, key) {
            law_stored_keys_ascend(front, key, value);
            let shorter = with_setting(front, key, value);
            text::lemma_text_total(last, key);
            assert forall|i: int, j: int| 0 <= i < j < r.len() implies (#[trigger] r[i]).0 != (
            #[trigger] r[j]).0 && text_le(r[i].0, r[j].0) by {
                assert(r[i] == shorter[i]);
                if j < shorter.len() {
                    assert(r[j] == shorter[j]);
                } else {
                    lemma_setting_keys(front, key, value, i);
                    if shorter[i].0 != key {
                        let k = choose|k: int|
                            0 <= k < front.len() && (#[trigger] front[k]).0 == shorter[i].0;
                        assert(s[k] == front[k]);
                        assert(s[s.len() - 1].0 == last);
                    }
                }
            }
        } else {
            assert forall|i: int, j: int| 0 <= i < j < r.len() implies (#[trigger] r[i]).0 != (
            #[trigger] r[j]).0 && text_le(r[i].0, r[j].0) by {
                assert(r[i] == s[i]);
                if last == key {
                    assert(s[j].0 == r[j].0);
                } else if j < s.len() {
                    assert(r[j] == s[j]);
                } else {
                    let end = s[s.len() - 1].0;
                    if i < s.len() - 1 {
                        text::lemma_text_transitive(s[i].0, end, key);
                        if s[i].0 == key {
                            text::lemma_text_antisymmetric(end, key);
                        }
                    }
                }
            }
        }
    }
}

/// The settings of stored connections are in the order of their names, and
/// no name occurs twice.
pub proof fn law_settings_ascend(list: Seq<StoredConnection>)
    ensures
        keys_ascend(settings_of(list)),
    decreases list.len(),
{
    if list.len() > 0 {
        law_settings_ascend(list.drop_last());
        if let (Some(ssid), Some(uuid)) = (list.last().ssid, list.last().uuid) {
            law_stored_keys_ascend(
                settings_of(list.drop_last()),
                decode_utf8(ssid@),
                uuid@,
            );
        }
    }
}

/// While the popup is open, updates do not move what is shown under it;
/// closing it brings the last ones in.
pub proof fn law_updates_wait_for_the_popup(
    v: WifiView,
    state: NetworkState,
    devices: Seq<String>,
)
    requires
        v.nm is Some,
        v.view_more_popup is Some,
    ensures
        ({
            let w = with_devices(with_state(v, state), devices);
            &&& w.nm == v.nm
            &&& w.view_more_popup == v.view_more_popup
            &&& closed_popup(w).nm == Some(NmView { state, devices })
            &&& closed_popup(w).view_more_popup is None
        }),
{
}

/// A password is sent only from a password dialog, and sending it closes
/// the dialog.
pub proof fn law_passwords_come_from_the_dialog(v: WifiView, msg: WifiMsg, k: int)
    requires
        0 <= k < wifi_step(v, msg).1.len(),
        wifi_step(v, msg).1[k] is Authenticate || wifi_step(v, msg).1[k] is AnswerAgent,
    ensures
        msg is ConnectWithPassword,
        v.dialog is Some && v.dialog->0 is Password,
        wifi_step(v, msg).0.dialog is None,
{
}

// ---------- what a request comes to ----------

proof fn lemma_type_from(aps: Seq<AccessPoint>, ssid: Seq<char>, from: int, k: int)
    requires
        0 <= from,
    ensures
        type_from(aps, ssid, from) is None <==> forall|j: int|
            from <= j < aps.len() ==> (#[trigger] aps[j]).ssid@ != ssid,
        from <= k < aps.len() && aps[k].ssid@ == ssid && (forall|j: int|
            from <= j < k ==> (#[trigger] aps[j]).ssid@ != ssid) ==> type_from(aps, ssid, from)
            == Some(aps[k].network_type),
    decreases aps.len() - from,
{
    if from < aps.len() {
        lemma_type_from(aps, ssid, from + 1, k);
    }
}

/// The first access point with this name.
pub open spec fn is_first_named(aps: Seq<AccessPoint>, ssid: Seq<char>, k: int) -> bool {
    &&& 0 <= k < aps.len() && aps[k].ssid@ == ssid
    &&& forall|j: int| 0 <= j < k ==> (#[trigger] aps[j]).ssid@ != ssid
}

/// The network is among the visible or the known ones.
pub open spec fn is_listed(s: NetworkState, ssid: Seq<char>) -> bool {
    ||| exists|k: int|
        0 <= k < s.wireless_access_points@.len() && (
        #[trigger] s.wireless_access_points@[k]).ssid@ == ssid
    ||| exists|k: int|
        0 <= k < s.known_access_points@.len() && (#[trigger] s.known_access_points@[k]).ssid@ == ssid
}

/// The kind of a network is that of the first access point with its name, of
/// the visible ones if there is one among them, or else of the known ones.
pub proof fn law_network_kinds_are_looked_up(s: NetworkState, ssid: Seq<char>, k: int)
    ensures
        network_type_of(s, ssid) is Some <==> is_listed(s, ssid),
        is_first_named(s.wireless_access_points@, ssid, k) ==> network_type_of(s, ssid) == Some(
            s.wireless_access_points@[k].network_type,
        ),
        is_first_named(s.known_access_points@, ssid, k) && (forall|j: int|
            0 <= j < s.wireless_access_points@.len() ==> (
            #[trigger] s.wireless_access_points@[j]).ssid@ != ssid) ==> network_type_of(s, ssid)
            == Some(s.known_access_points@[k].network_type),
{
    lemma_type_from(s.wireless_access_points@, ssid, 0, k);
    lemma_type_from(s.known_access_points@, ssid, 0, k);
}

/// Connecting asks for the network that was picked, of its kind and through
/// the chosen interface; a network that is not listed is not asked for.
pub proof fn law_the_picked_network_is_asked_for(v: WifiView, ssid: String)
    ensures
        ({
            let next = wifi_step(v, WifiMsg::Connect(ssid));
            let listed = v.nm is Some && is_listed(v.nm->0.state, ssid@);
            &&& listed ==> next.1.len() == 1 && next.1[0] == (WifiEffectView::Select {
                ssid: ssid@,
                network_type: network_type_of(v.nm->0.state, ssid@)->0,
                interface: v.active_device,
            }) && next.0.connecting.contains(ssid@)
            &&& !listed ==> next.1.len() == 0 && next.0 == v
        }),
{
    if v.nm is Some {
        law_network_kinds_are_looked_up(v.nm->0.state, ssid@, 0);
    }
}

/// What is submitted is what the dialog holds: its network with its identity
/// and its password, through the chosen interface, or, where a request of the
/// secret agent waits, its password as the answer to that request.
pub proof fn law_the_dialog_is_submitted(
    v: WifiView,
    ssid: Seq<char>,
    identity: Option<Seq<char>>,
    password: Option<SecureString>,
    hidden: bool,
    ticket: Option<u64>,
)
    requires
        v.nm is Some,
        v.dialog == Some(
            DialogView::Password { ssid, identity, password, password_hidden: hidden, ticket },
        ),
    ensures
        ({
            let next = wifi_step(v, WifiMsg::ConnectWithPassword);
            &&& next.0.dialog is None && next.0.connecting.contains(ssid)
            &&& next.1.len() == 1
            &&& ticket is None ==> next.1[0] == (WifiEffectView::Authenticate {
                ssid,
                identity,
                password,
                interface: v.active_device,
            })
            &&& ticket matches Some(t) ==> next.1[0] == (WifiEffectView::AnswerAgent {
                ticket: t,
                password,
            })
        }),
{
}

/// Typing changes only what is typed into.
pub proof fn law_typing_changes_its_field(
    v: WifiView,
    ssid: Seq<char>,
    identity: Option<Seq<char>>,
    password: Option<SecureString>,
    hidden: bool,
    ticket: Option<u64>,
    p: SecureString,
    i: String,
)
    requires
        v.dialog == Some(
            DialogView::Password { ssid, identity, password, password_hidden: hidden, ticket },
        ),
    ensures
        wifi_step(v, WifiMsg::PasswordUpdate(p)).0.dialog == Some(
            DialogView::Password {
                ssid,
                identity,
                password: Some(p),
                password_hidden: hidden,
                ticket,
            },
        ),
        wifi_step(v, WifiMsg::IdentityUpdate(i)).0.dialog == Some(
            DialogView::Password {
                ssid,
                identity: Some(i@),
                password,
                password_hidden: hidden,
                ticket,
            },
        ),
        wifi_step(v, WifiMsg::TogglePasswordVisibility).0.dialog == Some(
            DialogView::Password { ssid, identity, password, password_hidden: !hidden, ticket },
        ),
        wifi_step(v, WifiMsg::CancelDialog).0.dialog is None,
{
}

/// A network that was asked for is no longer being connected to once the
/// attempt has succeeded; a failed one asks for the password again, for the
/// same network, unless it takes none.
pub proof fn law_answers_are_heeded(
    v: WifiView,
    ssid: String,
    t: NetworkType,
    identity: Option<String>,
    state: NetworkState,
)
    ensures
        ({
            let request = NmRequest::SelectAccessPoint { ssid, network_type: t };
            let good = wifi_step(v, WifiMsg::Response { request, state, success: true }).0;
            let bad = wifi_step(v, WifiMsg::Response { request, state, success: false });
            &&& !good.connecting.contains(ssid@) && good.dialog == v.dialog
            &&& t is Open ==> !bad.0.connecting.contains(ssid@) && bad.0.dialog == v.dialog
            &&& !(t is Open) ==> bad.0.dialog is Some && bad.0.dialog->0 is Password
                && bad.0.dialog->0->Password_ssid == ssid@ && (bad.0.dialog->0->Password_identity
                is Some <==> t is Eap) && bad.0.dialog->0->Password_password is None
        }),
        ({
            let request = NmRequest::Authenticate { ssid, identity };
            let good = wifi_step(v, WifiMsg::Response { request, state, success: true }).0;
            let bad = wifi_step(v, WifiMsg::Response { request, state, success: false }).0;
            &&& !good.connecting.contains(ssid@) && good.dialog == v.dialog
            &&& bad.dialog is Some && bad.dialog->0 is Password && bad.dialog->0->Password_ssid
                == ssid@ && bad.dialog->0->Password_identity == opt_view(identity)
        }),
{
}

/// Disconnecting, forgetting and switching act on what they name.
pub proof fn law_requests_name_their_network(v: WifiView, ssid: String, enable: bool)
    requires
        v.nm is Some,
    ensures
        wifi_step(v, WifiMsg::Disconnect(ssid)).1 == seq![WifiEffectView::Disconnect(ssid@)],
        wifi_step(v, WifiMsg::Forget(ssid)).1 == seq![WifiEffectView::Forget(ssid@)],
        wifi_step(v, WifiMsg::Forget(ssid)).0.dialog is None,
        wifi_step(v, WifiMsg::ForgetRequest(ssid)).1.len() == 0,
        wifi_step(v, WifiMsg::ForgetRequest(ssid)).0.dialog == Some(DialogView::Forget(ssid@)),
        wifi_step(v, WifiMsg::WiFiEnable(enable)).1[0] == WifiEffectView::SetWifi(enable),
        wifi_step(v, WifiMsg::SelectDevice(ssid)).0.active_device == Some(ssid@),
{
}

/// The secret agent is asked back about the network that its request is for,
/// with the password that it knew and under its own ticket.
pub proof fn law_secrets_are_asked_for_their_network(
    v: WifiView,
    name: String,
    previous: SecureString,
    ticket: u64,
    k: int,
)
    requires
        v.nm is Some,
        0 <= k < v.ssid_to_uuid.len(),
        v.ssid_to_uuid[k].1@ == name@,
        forall|j: int| 0 <= j < k ==> (#[trigger] v.ssid_to_uuid[j]).1@ != name@,
        is_listed(v.nm->0.state, v.ssid_to_uuid[k].0@),
    ensures
        ({
            let next = wifi_step(v, WifiMsg::SecretRequested { name, previous, ticket });
            let d = next.0.dialog->0;
            &&& next.0.dialog is Some && d is Password
            &&& d->Password_ssid == v.ssid_to_uuid[k].0@ && d->Password_ticket == Some(ticket)
            &&& d->Password_password == Some(previous) && d->Password_password_hidden
        }),
{
    lemma_ssid_from(v.ssid_to_uuid, name@, 0, k);
    law_network_kinds_are_looked_up(v.nm->0.state, v.ssid_to_uuid[k].0@, 0);
}

proof fn lemma_ssid_from(map: Seq<(String, String)>, uuid: Seq<char>, from: int, k: int)
    requires
        0 <= from <= k < map.len(),
        map[k].1@ == uuid,
        forall|j: int| from <= j < k ==> (#[trigger] map[j]).1@ != uuid,
    ensures
        ssid_from(map, uuid, from) == Some(map[k].0@),
    decreases k - from,
{
    if from < k {
        lemma_ssid_from(map, uuid, from + 1, k);
    }
}

/// The visible networks fall into the known ones and the others: each is in
/// exactly one of the two lists, and both keep the order.
pub proof fn law_networks_are_in_their_section(s: NetworkState, known: bool, n: nat, i: int)
    requires
        n <= s.wireless_access_points@.len() <= usize::MAX,
        0 <= i < n,
    ensures
        section(s, known, n).contains(i as usize) <==> is_known(
            s,
            s.wireless_access_points@[i].ssid@,
        ) == known,
        forall|a: int, b: int|
            0 <= a < b < section(s, known, n).len() ==> (#[trigger] section(s, known, n)[a])
                < (#[trigger] section(s, known, n)[b]),
        forall|a: int|
            0 <= a < section(s, known, n).len() ==> (#[trigger] section(s, known, n)[a]) < n,
    decreases n,
{
    let all = section(s, known, n);
    let front = section(s, known, (n - 1) as nat);
    if n > 1 {
        law_networks_are_in_their_section(
            s,
            known,
            (n - 1) as nat,
            if i < n - 1 {
                i
            } else {
                0
            },
        );
    } else {
        assert(front.len() == 0);
    }
    if front.contains(i as usize) {
        let m = front.index_of(i as usize);
        assert(all[m] == i);
    }
    if all.contains(i as usize) {
        let m = all.index_of(i as usize);
        if m < front.len() {
            assert(front[m] == i);
        }
    }
    if all.len() > front.len() {
        assert(all[all.len() - 1] == n - 1);
    }
}

/// A network is known if it is among the known ones or connected.
pub proof fn law_connected_networks_are_known(s: NetworkState, ssid: Seq<char>)
    ensures
        is_known(s, ssid) <==> (exists|k: int|
            0 <= k < s.known_access_points@.len() && (
            #[trigger] s.known_access_points@[k]).ssid@ == ssid) || (exists|k: int|
            0 <= k < s.active@.len() && (#[trigger] s.active@[k])@ == ssid),
{
    lemma_type_from(s.known_access_points@, ssid, 0, 0);
    let names = views(s.active@);
    if is_active(s, ssid) {
        let k = names.index_of(ssid);
        assert(names.contains(ssid));
        assert(names[k] == s.active@[k]@);
    }
    if exists|k: int| 0 <= k < s.active@.len() && (#[trigger] s.active@[k])@ == ssid {
        let k = choose|k: int| 0 <= k < s.active@.len() && (#[trigger] s.active@[k])@ == ssid;
        assert(names[k] == ssid);
        assert(names.contains(ssid));
    }
}

/// The options of a network are shown until they are closed; then the state
/// is up to date again.
pub proof fn law_options_are_shown_and_closed(v: WifiView, ssid: String)
    ensures
        wifi_step(v, WifiMsg::ViewMore(Some(ssid))).0 == (WifiView {
            view_more_popup: Some(ssid@),
            ..v
        }),
        ({
            let closed = wifi_step(v, WifiMsg::ViewMore(None)).0;
            &&& closed.view_more_popup is None
            &&& closed.nm is Some <==> v.nm is Some
            &&& v.nm is Some && v.withheld_state is Some ==> closed.nm->0.state
                == v.withheld_state->0
            &&& v.nm is Some && v.withheld_state is None ==> closed.nm->0.state == v.nm->0.state
            &&& v.nm is Some && v.withheld_devices is Some ==> closed.nm->0.devices
                == v.withheld_devices->0
            &&& v.nm is Some && v.withheld_devices is None ==> closed.nm->0.devices
                == v.nm->0.devices
        }),
{
}

/// News of the network manager is taken over at once while no options are
/// shown, and each change is asked about.
pub proof fn law_news_is_taken_over(v: WifiView, state: NetworkState, devices: Vec<String>)
    requires
        v.view_more_popup is None,
    ensures
        wifi_step(v, WifiMsg::Init(state)).0.nm is Some,
        wifi_step(v, WifiMsg::Init(state)).0.nm->0.state == state,
        wifi_step(v, WifiMsg::Init(state)).1 == seq![WifiEffectView::RefreshDevices],
        v.nm is Some ==> {
            &&& wifi_step(v, WifiMsg::UpdateState(state)).0.nm == Some(
                NmView { state, devices: v.nm->0.devices },
            )
            &&& wifi_step(v, WifiMsg::UpdateDevices(devices)).0.nm == Some(
                NmView { state: v.nm->0.state, devices: devices@ },
            )
            &&& wifi_step(v, WifiMsg::Changed).1 == seq![
                WifiEffectView::RefreshState,
                WifiEffectView::RefreshDevices,
            ]
        },
        wifi_step(v, WifiMsg::UpdateState(state)).1 == seq![WifiEffectView::LoadSettings],
{
}

/// The known networks are those that were read, and a password dialog that
/// the secret agent gave up on is closed.
pub proof fn law_settings_and_cancellations_are_taken(
    v: WifiView,
    map: Vec<(String, String)>,
    ssid: String,
)
    ensures
        wifi_step(v, WifiMsg::ConnectionSettings(map)).0 == (WifiView {
            ssid_to_uuid: map@,
            ..v
        }),
        v.dialog is Some && v.dialog->0 is Password ==> wifi_step(
            v,
            WifiMsg::SecretCancelled,
        ).0.dialog is None,
        v.dialog is Some && v.dialog->0 is Forget ==> wifi_step(v, WifiMsg::SecretCancelled).0 == v,
        v.dialog is Some && v.dialog->0 is Password ==> wifi_step(
            v,
            WifiMsg::FocusSecureInput,
        ).1 == seq![WifiEffectView::FocusPassword],
        v.nm is Some && is_listed(v.nm->0.state, ssid@) ==> {
            let next = wifi_step(v, WifiMsg::PasswordRequest(ssid));
            let d = next.0.dialog->0;
            &&& next.0.dialog is Some && d is Password && d->Password_ssid == ssid@
            &&& d->Password_password is None && d->Password_ticket is None
            &&& next.1 == seq![WifiEffectView::AskFocus]
        },
{
    if v.nm is Some {
        law_network_kinds_are_looked_up(v.nm->0.state, ssid@, 0);
    }
}

} // verus!
