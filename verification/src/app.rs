//! The wizard: what each message changes, and what it asks for.
use vstd::prelude::*;

use crate::branding::{Branding, Slide};
use crate::choices::{EncryptionChoice, PartitionModeChoice};
use crate::images_json::{all_leaves, find_image, image_from, Catalog, ImageOption, ImageView};
use crate::install::{
    InstallSpec, PartitionPlan, PlanView, SpecView, Step, DEFAULT_HOSTNAME,
};
use crate::layout::{
    empty_layout, layout_after, layout_error, lemma_reset, planned_actions, reset_layout, LayoutMsg,
    LayoutUiState, LayoutView,
};
use crate::logbuf::{logged, push_log};
use crate::pages::Page;
use crate::path::{self, same_path};
use crate::probe::{is_last_largest, largest_index, lemma_last_largest_unique, DiskInfo, Gap};
use crate::text::{self, opt_view, views};
use crate::wifi_page::{wifi_step, WifiEffect, WifiEffectView, WifiMsg, WifiUiState, WifiView};

verus! {

pub const APP_ID: &'static str = "dev.cosmonaut.Installer";

/// Seconds until the machine restarts by itself after an install.
pub const REBOOT_COUNTDOWN_SECS: u8 = 30;

/// What the daemon reports while an install runs.
#[derive(Debug, PartialEq, Eq)]
pub enum DaemonEvent {
    Step { step: String, detail: String },
    Log { stream: String, line: String },
    Progress { percent: u8 },
    Completed { success: bool, error: String },
    /// The daemon could not be reached, or went away.
    ConnectionError(String),
}

/// The end of an install as the client sees it: the daemon's answer, or the
/// failure of the task that waited for it.
pub fn install_outcome(answer: Result<Result<(), String>, String>) -> (r: DaemonEvent)
    ensures
        match answer {
            Ok(Ok(_)) => r matches DaemonEvent::Completed { success, error } && success
                && error@.len() == 0,
            Ok(Err(e)) => r == (DaemonEvent::Completed { success: false, error: e }),
            Err(e) => r matches DaemonEvent::Completed { success, error } && !success && error@
                == "install task join: "@ + e@,
        },
{
    match answer {
        Ok(Ok(_)) => DaemonEvent::Completed { success: true, error: String::new() },
        Ok(Err(e)) => DaemonEvent::Completed { success: false, error: e },
        Err(e) => DaemonEvent::Completed {
            success: false,
            error: text::cat2("install task join: ", e.as_str()),
        },
    }
}

/// Where the way to the daemon can break before an install starts.
#[derive(Debug, Clone, Copy, PartialEq, Eq, Structural)]
pub enum LinkStage {
    Spec,
    Bus,
    Proxy,
    Steps,
    Log,
    Progress,
}

impl LinkStage {
    pub open spec fn text(self) -> Seq<char> {
        match self {
            LinkStage::Spec => "serializing spec: "@,
            LinkStage::Bus => "connecting to system bus: "@,
            LinkStage::Proxy => "creating proxy: "@,
            LinkStage::Steps => "subscribing to StepChanged: "@,
            LinkStage::Log => "subscribing to LogLine: "@,
            LinkStage::Progress => "subscribing to Progress: "@,
        }
    }

    /// The event of a way that broke here.
    pub fn failure(self, error: &str) -> (r: DaemonEvent)
        ensures
            r matches DaemonEvent::ConnectionError(m) && m@ == self.text() + error@,
    {
        let what: &str = match self {
            LinkStage::Spec => "serializing spec: ",
            LinkStage::Bus => "connecting to system bus: ",
            LinkStage::Proxy => "creating proxy: ",
            LinkStage::Steps => "subscribing to StepChanged: ",
            LinkStage::Log => "subscribing to LogLine: ",
            LinkStage::Progress => "subscribing to Progress: ",
        };
        DaemonEvent::ConnectionError(text::cat2(what, error))
    }
}

pub enum Message {
    Next,
    Back,
    // Loaders
    CatalogLoaded(Result<Option<Catalog>, String>),
    DisksLoaded(Result<Vec<DiskInfo>, String>),
    RefreshDisks,
    // Selections
    ImageSelected(usize),
    DiskSelected(usize),
    PartitionModeSelected(PartitionModeChoice),
    Layout(LayoutMsg),
    EncryptionSelected(EncryptionChoice),
    PassphraseChanged(String),
    // Hardware probes
    Tpm2Probed(Result<bool, String>),
    WifiOnlineProbed(Result<bool, String>),
    // Network page
    WifiSkip,
    Wifi(WifiMsg),
    // Confirm page
    StartInstall,
    // Progress page
    DaemonEvent(DaemonEvent),
    CancelInstall,
    ToggleLogView,
    SlideTick,
    // Done page
    RebootTick,
    RebootNow,
    Quit,
    // Failure page
    RetryInstall,
    CopyLogs,
    SaveLogs,
    LogsSaved(Result<String, String>),
}

/// What a message asks for.
#[derive(Debug)]
pub enum Effect {
    ProbeDisks,
    Wifi(WifiEffect),
    /// Install the stored spec and report its events.
    BeginInstall,
    /// Send [`Message::SlideTick`] in a while.
    SlideTimer,
    /// Send [`Message::RebootTick`] in a second.
    RebootTimer,
    SendCancel,
    CopyText(String),
    SaveText(String),
    Reboot,
    Exit,
}

pub enum EffectView {
    ProbeDisks,
    Wifi(WifiEffectView),
    BeginInstall,
    SlideTimer,
    RebootTimer,
    SendCancel,
    CopyText(Seq<char>),
    SaveText(Seq<char>),
    Reboot,
    Exit,
}

impl View for Effect {
    type V = EffectView;

    open spec fn view(&self) -> EffectView {
        match *self {
            Effect::ProbeDisks => EffectView::ProbeDisks,
            Effect::Wifi(e) => EffectView::Wifi(e@),
            Effect::BeginInstall => EffectView::BeginInstall,
            Effect::SlideTimer => EffectView::SlideTimer,
            Effect::RebootTimer => EffectView::RebootTimer,
            Effect::SendCancel => EffectView::SendCancel,
            Effect::CopyText(t) => EffectView::CopyText(t@),
            Effect::SaveText(t) => EffectView::SaveText(t@),
            Effect::Reboot => EffectView::Reboot,
            Effect::Exit => EffectView::Exit,
        }
    }
}

/// The state of the wizard.
pub struct App {
    pub page: Page,
    pub branding: Branding,
    pub images: Vec<ImageOption>,
    pub image_idx: Option<usize>,
    pub catalog_loaded: bool,
    pub disks: Vec<DiskInfo>,
    pub disk_idx: Option<usize>,
    pub partition_mode: PartitionModeChoice,
    /// The modes besides erasing are offered.
    pub experimental_layout: bool,
    pub layout: LayoutUiState,
    pub encryption_choice: EncryptionChoice,
    pub passphrase: String,
    pub hostname: String,
    pub wifi: WifiUiState,
    /// Whether the machine was online at the start; `None` while unknown.
    pub wifi_online: Option<bool>,
    /// Whether there is a TPM; `None` while unknown.
    pub tpm2_available: Option<bool>,
    pub install_step: Option<String>,
    pub install_step_detail: String,
    pub install_log: String,
    pub install_in_flight: bool,
    /// A cancel request can still be sent.
    pub cancel_ready: bool,
    pub install_percent: Option<u8>,
    pub show_log: bool,
    pub slide_idx: usize,
    pub install_success: bool,
    pub install_error: String,
    pub reboot_countdown: Option<u8>,
    /// The step that was active when an install failed.
    pub failed_step: Option<String>,
    /// The last attempted install, for another try.
    pub last_spec: Option<InstallSpec>,
    pub logs_saved: Option<Result<String, String>>,
    /// A page to jump to once the disks are known, for development.
    pub dev_page: Option<String>,
}

#[verifier::ext_equal]
pub struct AppView {
    pub page: Page,
    pub branding: Branding,
    pub images: Seq<ImageView>,
    pub image_idx: Option<usize>,
    pub catalog_loaded: bool,
    pub disks: Seq<DiskInfo>,
    pub disk_idx: Option<usize>,
    pub partition_mode: PartitionModeChoice,
    pub experimental_layout: bool,
    pub layout: LayoutView,
    pub encryption_choice: EncryptionChoice,
    pub passphrase: Seq<char>,
    pub hostname: Seq<char>,
    pub wifi: WifiView,
    pub wifi_online: Option<bool>,
    pub tpm2_available: Option<bool>,
    pub install_step: Option<Seq<char>>,
    pub install_step_detail: Seq<char>,
    pub install_log: Seq<char>,
    pub install_in_flight: bool,
    pub cancel_ready: bool,
    pub install_percent: Option<u8>,
    pub show_log: bool,
    pub slide_idx: usize,
    pub install_success: bool,
    pub install_error: Seq<char>,
    pub reboot_countdown: Option<u8>,
    pub failed_step: Option<Seq<char>>,
    pub last_spec: Option<SpecView>,
    pub logs_saved: Option<Result<String, String>>,
    pub dev_page: Option<Seq<char>>,
}

impl View for App {
    type V = AppView;

    open spec fn view(&self) -> AppView {
        AppView {
            page: self.page,
            branding: self.branding,
            images: views(self.images@),
            image_idx: self.image_idx,
            catalog_loaded: self.catalog_loaded,
            disks: self.disks@,
            disk_idx: self.disk_idx,
            partition_mode: self.partition_mode,
            experimental_layout: self.experimental_layout,
            layout: self.layout@,
            encryption_choice: self.encryption_choice,
            passphrase: self.passphrase@,
            hostname: self.hostname@,
            wifi: self.wifi@,
            wifi_online: self.wifi_online,
            tpm2_available: self.tpm2_available,
            install_step: opt_view(self.install_step),
            install_step_detail: self.install_step_detail@,
            install_log: self.install_log@,
            install_in_flight: self.install_in_flight,
            cancel_ready: self.cancel_ready,
            install_percent: self.install_percent,
            show_log: self.show_log,
            slide_idx: self.slide_idx,
            install_success: self.install_success,
            install_error: self.install_error@,
            reboot_countdown: self.reboot_countdown,
            failed_step: opt_view(self.failed_step),
            last_spec: opt_view(self.last_spec),
            logs_saved: self.logs_saved,
            dev_page: opt_view(self.dev_page),
        }
    }
}

// ---------- pages ----------

pub open spec fn after_image(v: AppView) -> Page {
    if v.wifi_online == Some(true) {
        Page::Disk
    } else {
        Page::Wifi
    }
}

/// The page that follows. The image page is skipped when there is exactly
/// one image, since the choice is made then, and the network page when the
/// machine is online.
pub open spec fn page_after(v: AppView) -> Page {
    match v.page {
        Page::Welcome => if v.images.len() == 1 {
            after_image(v)
        } else {
            Page::Image
        },
        Page::Image => after_image(v),
        Page::Wifi => Page::Disk,
        Page::Disk => if v.partition_mode is Custom {
            Page::CustomLayout
        } else {
            Page::Encryption
        },
        Page::CustomLayout => Page::Encryption,
        Page::Encryption => Page::Confirm,
        Page::Confirm => Page::Progress,
        Page::Progress => Page::Progress,
        Page::Done => Page::Done,
    }
}

pub open spec fn page_before(v: AppView) -> Page {
    match v.page {
        Page::Welcome => Page::Welcome,
        Page::Progress => Page::Progress,
        Page::Done => Page::Done,
        Page::Image => Page::Welcome,
        Page::Wifi => Page::Image,
        Page::Disk => Page::Wifi,
        Page::CustomLayout => Page::Disk,
        Page::Encryption => if v.partition_mode is Custom {
            Page::CustomLayout
        } else {
            Page::Disk
        },
        Page::Confirm => Page::Encryption,
    }
}

pub open spec fn chosen_disk(v: AppView) -> Option<DiskInfo> {
    match v.disk_idx {
        Some(i) => if i < v.disks.len() {
            Some(v.disks[i as int])
        } else {
            None
        },
        None => None,
    }
}

/// The layout on entering its page: built anew for another disk.
pub open spec fn fresh_layout(v: AppView) -> LayoutView {
    match chosen_disk(v) {
        Some(d) => if v.layout.disk is None || !same_path(v.layout.disk->0.path, d.path@) {
            reset_layout(d)
        } else {
            v.layout
        },
        None => v.layout,
    }
}

pub open spec fn quiet(v: AppView) -> (AppView, Seq<EffectView>) {
    (v, Seq::empty())
}

pub open spec fn wrapped(effects: Seq<WifiEffectView>) -> Seq<EffectView> {
    effects.map_values(|e: WifiEffectView| EffectView::Wifi(e))
}

pub open spec fn gone_on(v: AppView) -> (AppView, Seq<EffectView>) {
    let page = page_after(v);
    match page {
        Page::Wifi => (
            AppView { page, wifi: WifiView { initialized: true, ..v.wifi }, ..v },
            if v.wifi.initialized {
                Seq::empty()
            } else {
                seq![EffectView::Wifi(WifiEffectView::LoadSettings)]
            },
        ),
        Page::CustomLayout => quiet(AppView { page, layout: fresh_layout(v), ..v }),
        _ => quiet(AppView { page, ..v }),
    }
}

// ---------- loaders ----------

/// The images of a loaded catalog: one alone is chosen, else the default
/// where the catalog names one.
pub open spec fn catalog_shown(v: AppView, catalog: Catalog) -> AppView {
    let images = all_leaves(catalog.images@);
    AppView {
        images,
        image_idx: if images.len() == 1 {
            Some(0)
        } else {
            match catalog.default_image {
                Some(d) => first_image(images, d@, 0),
                None => v.image_idx,
            }
        },
        catalog_loaded: true,
        ..v
    }
}

pub open spec fn first_image(images: Seq<ImageView>, imgref: Seq<char>, i: int) -> Option<usize>
    decreases images.len() - i,
{
    if i < 0 || i >= images.len() {
        None
    } else if images[i].imgref == imgref {
        Some(i as usize)
    } else {
        first_image(images, imgref, i + 1)
    }
}

proof fn lemma_first_image(images: Seq<ImageOption>, imgref: Seq<char>, i: int)
    requires
        0 <= i <= images.len() <= usize::MAX,
    ensures
        match image_from(images, imgref, i) {
            Some(k) => first_image(views(images), imgref, i) == Some(k as usize),
            None => first_image(views(images), imgref, i) is None,
        },
    decreases images.len() - i,
{
    if i < images.len() {
        assert(views(images)[i] == images[i]@);
        lemma_first_image(images, imgref, i + 1);
    }
}

/// A long line of the sample log: a blob whose digest is the number.
pub open spec fn sample_line(n: nat) -> Seq<char> {
    "Copying blob sha256:"@ + Seq::new(63, |i: int| '0') + seq![
        if n < 10 {
            text::digit_char(n)
        } else {
            ('a' as u32 + (n - 10)) as char
        },
    ]
}

/// A log of sample lines; every third may come from the error stream.
pub open spec fn sample_log(log: Seq<char>, n: nat, mixed: bool) -> Seq<char>
    decreases n,
{
    if n == 0 {
        log
    } else {
        logged(
            sample_log(log, (n - 1) as nat, mixed),
            if mixed && n % 3 == 0 {
                "stderr"@
            } else {
                "stdout"@
            },
            sample_line(n),
        )
    }
}

/// The first image and the first disk are chosen where none is.
pub open spec fn dev_defaults(v: AppView) -> AppView {
    AppView {
        image_idx: if v.image_idx is None && v.images.len() > 0 {
            Some(0)
        } else {
            v.image_idx
        },
        disk_idx: if v.disk_idx is None && v.disks.len() > 0 {
            Some(0)
        } else {
            v.disk_idx
        },
        ..v
    }
}

/// The progress page in the middle of an install.
pub open spec fn dev_progress(v: AppView) -> AppView {
    AppView {
        page: Page::Progress,
        install_step: Some("bootc"@),
        install_step_detail: "installing oci:/usr/lib/bootc/install-source/main"@,
        install_percent: Some(47),
        install_in_flight: true,
        install_log: sample_log(v.install_log, 14, false),
        ..v
    }
}

/// The last page after a failure.
pub open spec fn dev_failure(v: AppView) -> AppView {
    AppView {
        page: Page::Done,
        install_success: false,
        failed_step: Some("bootc"@),
        install_error: "bootc: skopeo copy: writing blob: no space left on device"@,
        install_log: sample_log(v.install_log, 10, true),
        ..v
    }
}

/// A page for development, with plausible state where an install would
/// provide it. An unknown name stays where it is.
pub open spec fn dev_shown(v: AppView, page: Seq<char>) -> AppView {
    if page == "image"@ {
        AppView { page: Page::Image, ..v }
    } else if page == "disk"@ {
        AppView { page: Page::Disk, ..v }
    } else if page == "layout"@ {
        AppView {
            page: Page::CustomLayout,
            partition_mode: PartitionModeChoice::Custom,
            layout: match chosen_disk(v) {
                Some(d) => reset_layout(d),
                None => v.layout,
            },
            ..v
        }
    } else if page == "encryption"@ {
        AppView { page: Page::Encryption, ..v }
    } else if page == "confirm"@ {
        AppView { page: Page::Confirm, ..v }
    } else if page == "progress"@ {
        dev_progress(v)
    } else if page == "done-ok"@ {
        AppView { page: Page::Done, install_success: true, reboot_countdown: Some(23), ..v }
    } else if page == "done-fail"@ {
        dev_failure(v)
    } else {
        v
    }
}

/// The jump to a page for development.
pub open spec fn dev_jump(v: AppView) -> AppView {
    match v.dev_page {
        None => v,
        Some(page) => dev_shown(dev_defaults(v), page),
    }
}

/// The disks of a finished probe: one alone is chosen, and the layout of an
/// earlier probe no longer holds.
pub open spec fn disks_shown(v: AppView, disks: Seq<DiskInfo>) -> AppView {
    dev_jump(
        AppView {
            disks,
            disk_idx: if disks.len() == 1 {
                Some(0)
            } else {
                v.disk_idx
            },
            layout: empty_layout(),
            ..v
        },
    )
}

// ---------- installs ----------

/// The largest gap of a disk; of several largest the last one.
pub open spec fn widest_gap(gaps: Seq<Gap>) -> Option<Gap> {
    if gaps.len() == 0 {
        None
    } else {
        Some(gaps[choose|i: int| is_last_largest(gaps, i)])
    }
}

/// The plan that the wizard's state describes; `None` when the mode needs
/// input that is not there.
pub open spec fn chosen_plan(a: App) -> Option<PlanView> {
    match a.partition_mode {
        PartitionModeChoice::EraseDisk => Some(PlanView::EraseDisk),
        PartitionModeChoice::FreeSpace => match chosen_disk(a@) {
            Some(d) => match widest_gap(d.gaps@) {
                Some(g) => Some(
                    PlanView::FreeSpace {
                        gap_start_bytes: g.start_bytes,
                        gap_size_bytes: g.size_bytes,
                    },
                ),
                None => None,
            },
            None => None,
        },
        PartitionModeChoice::Custom => if layout_error(a.layout) is None {
            Some(PlanView::Custom(planned_actions(a.layout)))
        } else {
            None
        },
    }
}

/// The install that the wizard's state describes, when it is complete.
pub open spec fn chosen_spec(a: App) -> Option<SpecView> {
    let image = match a.image_idx {
        Some(i) => if i < a.images@.len() {
            Some(a.images@[i as int].imgref@)
        } else {
            None
        },
        None => None,
    };
    match (image, chosen_disk(a@), chosen_plan(a)) {
        (Some(image), Some(d), Some(plan)) => Some(
            SpecView {
                disk: d.path@,
                image,
                hostname: a.hostname@,
                encryption: a.encryption_choice.meaning(a.passphrase),
                plan,
            },
        ),
        _ => None,
    }
}

/// An install starts: the progress page comes up with nothing reported yet.
pub open spec fn started(v: AppView, spec: SpecView) -> (AppView, Seq<EffectView>) {
    (
        AppView {
            last_spec: Some(spec),
            cancel_ready: true,
            install_in_flight: true,
            install_log: Seq::empty(),
            install_step: None,
            install_step_detail: Seq::empty(),
            failed_step: None,
            logs_saved: None,
            install_percent: None,
            show_log: false,
            slide_idx: 0,
            page: Page::Progress,
            ..v
        },
        if v.branding.slides@.len() == 0 {
            seq![EffectView::BeginInstall]
        } else {
            seq![EffectView::BeginInstall, EffectView::SlideTimer]
        },
    )
}

/// What an event of the running install changes.
pub open spec fn reported(v: AppView, e: DaemonEvent) -> (AppView, Seq<EffectView>) {
    match e {
        DaemonEvent::Step { step, detail } => quiet(
            AppView { install_step: Some(step@), install_step_detail: detail@, ..v },
        ),
        DaemonEvent::Log { stream, line } => quiet(
            AppView { install_log: logged(v.install_log, stream@, line@), ..v },
        ),
        DaemonEvent::Progress { percent } => quiet(
            if v.install_percent is None || percent > v.install_percent->0 {
                AppView { install_percent: Some(percent), ..v }
            } else {
                v
            },
        ),
        DaemonEvent::Completed { success, error } => if success {
            (
                AppView {
                    install_in_flight: false,
                    install_success: true,
                    install_error: error@,
                    install_percent: Some(100),
                    page: Page::Done,
                    reboot_countdown: Some(REBOOT_COUNTDOWN_SECS),
                    ..v
                },
                seq![EffectView::RebootTimer],
            )
        } else {
            quiet(
                AppView {
                    install_in_flight: false,
                    install_success: false,
                    install_error: error@,
                    failed_step: v.install_step,
                    page: Page::Done,
                    ..v
                },
            )
        },
        DaemonEvent::ConnectionError(m) => quiet(
            AppView {
                install_in_flight: false,
                install_success: false,
                install_error: "DBus: "@ + m@,
                failed_step: v.install_step,
                page: Page::Done,
                ..v
            },
        ),
    }
}

/// One second of the countdown: the seconds left, and what is asked for.
pub open spec fn ticked(seconds: u8) -> (u8, EffectView) {
    if seconds <= 1 {
        (0, EffectView::Reboot)
    } else {
        ((seconds - 1) as u8, EffectView::RebootTimer)
    }
}

/// The failure report: what was to be installed and where, how it failed,
/// and the log. No passphrase is in it.
pub open spec fn report_text(v: AppView) -> Seq<char> {
    "cosmonaut-installer failure report\n"@ + (match v.last_spec {
        Some(s) => "image: "@ + s.image + "\n"@ + "disk: "@ + s.disk + "\n"@ + "hostname: "@
            + s.hostname + "\n"@,
        None => Seq::empty(),
    }) + "encryption: "@ + v.encryption_choice.text() + "\n"@ + "failed step: "@ + (
    match v.failed_step {
        Some(s) => s,
        None => "(before first step)"@,
    }) + "\n"@ + "error: "@ + v.install_error + "\n"@ + "\n--- log (tail) ---\n"@ + v.install_log
}

/// Whether cancelling is still clean: from the image copy on it is not.
pub open spec fn is_cancellable(step: Option<Seq<char>>) -> bool {
    step != Some("bootc"@) && step != Some("hostname"@) && step != Some("bls"@) && step != Some(
        "finalize"@,
    )
}

// ---------- the whole ----------

/// The state and the effects that follow a message.
pub open spec fn app_step(a: App, msg: Message) -> (AppView, Seq<EffectView>) {
    let v = a@;
    match msg {
        Message::Next => gone_on(v),
        Message::Back => quiet(AppView { page: page_before(v), ..v }),
        Message::CatalogLoaded(Ok(Some(catalog))) => quiet(catalog_shown(v, catalog)),
        Message::CatalogLoaded(_) => quiet(AppView { catalog_loaded: true, ..v }),
        Message::DisksLoaded(Ok(disks)) => quiet(disks_shown(v, disks@)),
        Message::DisksLoaded(Err(_)) => quiet(v),
        Message::RefreshDisks => (v, seq![EffectView::ProbeDisks]),
        Message::ImageSelected(i) => quiet(AppView { image_idx: Some(i), ..v }),
        Message::DiskSelected(i) => quiet(
            AppView {
                disk_idx: Some(i),
                layout: if v.disk_idx == Some(i) {
                    v.layout
                } else {
                    empty_layout()
                },
                ..v
            },
        ),
        Message::PartitionModeSelected(mode) => quiet(AppView { partition_mode: mode, ..v }),
        Message::Layout(m) => quiet(AppView { layout: layout_after(v.layout, m), ..v }),
        Message::EncryptionSelected(c) => quiet(
            AppView {
                encryption_choice: c,
                passphrase: if c.wants_passphrase() {
                    v.passphrase
                } else {
                    Seq::empty()
                },
                ..v
            },
        ),
        Message::PassphraseChanged(p) => quiet(AppView { passphrase: p@, ..v }),
        Message::Tpm2Probed(r) => quiet(
            AppView {
                tpm2_available: Some(
                    match r {
                        Ok(b) => b,
                        Err(_) => false,
                    },
                ),
                ..v
            },
        ),
        Message::WifiOnlineProbed(r) => quiet(
            AppView {
                wifi_online: Some(
                    match r {
                        Ok(b) => b,
                        Err(_) => false,
                    },
                ),
                ..v
            },
        ),
        Message::WifiSkip => quiet(AppView { page: Page::Disk, ..v }),
        Message::Wifi(m) => {
            let (wifi, effects) = wifi_step(v.wifi, m);
            (AppView { wifi, ..v }, wrapped(effects))
        },
        Message::StartInstall => match chosen_spec(a) {
            Some(spec) => started(v, spec),
            None => quiet(v),
        },
        Message::RetryInstall => match v.last_spec {
            Some(spec) => started(v, spec),
            None => quiet(v),
        },
        Message::CopyLogs => (v, seq![EffectView::CopyText(report_text(v))]),
        Message::SaveLogs => (v, seq![EffectView::SaveText(report_text(v))]),
        Message::LogsSaved(r) => quiet(AppView { logs_saved: Some(r), ..v }),
        Message::DaemonEvent(e) => reported(v, e),
        Message::CancelInstall => (
            AppView { cancel_ready: false, ..v },
            if v.cancel_ready {
                seq![EffectView::SendCancel]
            } else {
                Seq::empty()
            },
        ),
        Message::ToggleLogView => quiet(AppView { show_log: !v.show_log, ..v }),
        Message::SlideTick => if !(v.page is Progress) || v.branding.slides@.len() == 0 {
            quiet(v)
        } else {
            (
                AppView {
                    slide_idx: ((v.slide_idx + 1) % (v.branding.slides@.len() as int)) as usize,
                    ..v
                },
                seq![EffectView::SlideTimer],
            )
        },
        Message::RebootTick => match v.reboot_countdown {
            None => quiet(v),
            Some(c) => (AppView { reboot_countdown: Some(ticked(c).0), ..v }, seq![ticked(c).1]),
        },
        Message::RebootNow => (
            AppView { reboot_countdown: Some(0), ..v },
            seq![EffectView::Reboot],
        ),
        Message::Quit => (v, seq![EffectView::Exit]),
    }
}

/// Messages bring well-formed disks.
pub open spec fn message_wf(msg: Message) -> bool {
    match msg {
        Message::DisksLoaded(Ok(disks)) => forall|i: int|
            0 <= i < disks@.len() ==> (#[trigger] disks@[i]).wf(),
        _ => true,
    }
}

fn no_effects() -> (r: Vec<Effect>)
    ensures
        views(r@) == Seq::<EffectView>::empty(),
{
    let r: Vec<Effect> = Vec::new();
    assert(views(r@) =~= Seq::empty());
    r
}

fn one_effect(e: Effect) -> (r: Vec<Effect>)
    ensures
        views(r@) == seq![e@],
{
    let mut r: Vec<Effect> = Vec::new();
    r.push(e);
    assert(views(r@) =~= seq![e@]);
    r
}

fn wrap_effects(effects: Vec<WifiEffect>) -> (r: Vec<Effect>)
    ensures
        views(r@) == wrapped(views(effects@)),
{
    let ghost all = effects@;
    let ghost goal = wrapped(views(all));
    let mut rest = effects;
    let ghost mut n: int = 0;
    let mut out: Vec<Effect> = Vec::new();
    assert(all.skip(0) =~= all);
    assert(views(out@) =~= goal.take(0));
    while rest.len() > 0
        invariant
            0 <= n <= all.len(),
            rest@ == all.skip(n),
            goal == wrapped(views(all)),
            views(out@) == goal.take(n),
        decreases rest@.len(),
    {
        let ghost before = out@;
        let e = rest.remove(0);
        assert(e == all[n]);
        assert(rest@ =~= all.skip(n + 1));
        out.push(Effect::Wifi(e));
        assert(views(out@) =~= views(before).push(EffectView::Wifi(e@)));
        assert(goal.take(n + 1) =~= goal.take(n).push(goal[n]));
        proof {
            n = n + 1;
        }
    }
    assert(n == all.len());
    assert(goal.take(n) =~= goal);
    out
}

fn make_sample_line(n: u64) -> (r: String)
    requires
        1 <= n <= 14,
    ensures
        r@ == sample_line(n as nat),
{
    let mut s = "Copying blob sha256:".to_owned();
    let ghost lead = s@;
    let mut i: usize = 0;
    assert(s@ =~= lead + Seq::new(0, |i: int| '0'));
    while i < 63
        invariant
            i <= 63,
            s@ == lead + Seq::new(i as nat, |i: int| '0'),
        decreases 63 - i,
    {
        s.push('0');
        i += 1;
        assert(s@ =~= lead + Seq::new(i as nat, |i: int| '0'));
    }
    let last = if n == 10 {
        'a'
    } else if n == 11 {
        'b'
    } else if n == 12 {
        'c'
    } else if n == 13 {
        'd'
    } else if n == 14 {
        'e'
    } else {
        text::digit_of(n)
    };
    s.push(last);
    assert(s@ =~= sample_line(n as nat));
    s
}

fn push_samples(log: &mut String, n: u64, mixed: bool)
    requires
        n <= 14,
    ensures
        final(log)@ == sample_log(old(log)@, n as nat, mixed),
{
    let ghost before = log@;
    let mut i: u64 = 0;
    while i < n
        invariant
            i <= n <= 14,
            log@ == sample_log(before, i as nat, mixed),
        decreases n - i,
    {
        i += 1;
        let line = make_sample_line(i);
        if mixed && i % 3 == 0 {
            push_log(log, "stderr", line.as_str());
        } else {
            push_log(log, "stdout", line.as_str());
        }
    }
}

impl App {
    /// The layout and the disks are well formed, no network is being
    /// connected to twice, and the slide is one of those that there are.
    pub open spec fn wf(self) -> bool {
        &&& self.layout.wf()
        &&& self.wifi.names_once()
        &&& forall|i: int| 0 <= i < self.disks@.len() ==> (#[trigger] self.disks@[i]).wf()
        &&& self.slide_idx == 0 || self.slide_idx < self.branding.slides@.len()
    }

    /// The wizard at its start.
    pub fn new(branding: Branding, experimental_layout: bool, dev_page: Option<String>) -> (r: App)
        ensures
            r.wf(),
            r@ == (AppView {
                page: Page::Welcome,
                branding,
                images: Seq::empty(),
                image_idx: None,
                catalog_loaded: false,
                disks: Seq::empty(),
                disk_idx: None,
                partition_mode: PartitionModeChoice::EraseDisk,
                experimental_layout,
                layout: empty_layout(),
                encryption_choice: EncryptionChoice::Unencrypted,
                passphrase: Seq::empty(),
                hostname: DEFAULT_HOSTNAME@,
                wifi: crate::wifi_page::initial_wifi(),
                wifi_online: None,
                tpm2_available: None,
                install_step: None,
                install_step_detail: Seq::empty(),
                install_log: Seq::empty(),
                install_in_flight: false,
                cancel_ready: false,
                install_percent: None,
                show_log: false,
                slide_idx: 0,
                install_success: false,
                install_error: Seq::empty(),
                reboot_countdown: None,
                failed_step: None,
                last_spec: None,
                logs_saved: None,
                dev_page: opt_view(dev_page),
            }),
    {
        let layout = LayoutUiState::default();
        assert(layout@ =~= empty_layout());
        let r = App {
            page: Page::Welcome,
            branding,
            images: Vec::new(),
            image_idx: None,
            catalog_loaded: false,
            disks: Vec::new(),
            disk_idx: None,
            partition_mode: PartitionModeChoice::EraseDisk,
            experimental_layout,
            layout,
            encryption_choice: EncryptionChoice::Unencrypted,
            passphrase: String::new(),
            hostname: DEFAULT_HOSTNAME.to_owned(),
            wifi: WifiUiState::default(),
            wifi_online: None,
            tpm2_available: None,
            install_step: None,
            install_step_detail: String::new(),
            install_log: String::new(),
            install_in_flight: false,
            cancel_ready: false,
            install_percent: None,
            show_log: false,
            slide_idx: 0,
            install_success: false,
            install_error: String::new(),
            reboot_countdown: None,
            failed_step: None,
            last_spec: None,
            logs_saved: None,
            dev_page,
        };
        assert(views(r.images@) =~= Seq::empty());
        r
    }

    fn next_page(&self) -> (r: Page)
        ensures
            r == page_after(self@),
    {
        let online = match self.wifi_online {
            Some(b) => b,
            None => false,
        };
        let beyond = if online {
            Page::Disk
        } else {
            Page::Wifi
        };
        assert(views(self.images@).len() == self.images@.len());
        match self.page {
            Page::Welcome => if self.images.len() == 1 {
                beyond
            } else {
                Page::Image
            },
            Page::Image => beyond,
            Page::Wifi => Page::Disk,
            Page::Disk => if matches!(self.partition_mode, PartitionModeChoice::Custom) {
                Page::CustomLayout
            } else {
                Page::Encryption
            },
            Page::CustomLayout => Page::Encryption,
            Page::Encryption => Page::Confirm,
            Page::Confirm => Page::Progress,
            Page::Progress => Page::Progress,
            Page::Done => Page::Done,
        }
    }

    fn back_page(&self) -> (r: Page)
        ensures
            r == page_before(self@),
    {
        match self.page {
            Page::Welcome => Page::Welcome,
            Page::Progress => Page::Progress,
            Page::Done => Page::Done,
            Page::Image => Page::Welcome,
            Page::Wifi => Page::Image,
            Page::Disk => Page::Wifi,
            Page::CustomLayout => Page::Disk,
            Page::Encryption => if matches!(self.partition_mode, PartitionModeChoice::Custom) {
                Page::CustomLayout
            } else {
                Page::Disk
            },
            Page::Confirm => Page::Encryption,
        }
    }

    fn disk_index(&self) -> (r: Option<usize>)
        ensures
            match r {
                Some(i) => i < self.disks@.len() && chosen_disk(self@) == Some(
                    self.disks@[i as int],
                ),
                None => chosen_disk(self@) is None,
            },
    {
        match self.disk_idx {
            Some(i) => if i < self.disks.len() {
                Some(i)
            } else {
                None
            },
            None => None,
        }
    }

    fn rebuild_layout(&mut self, i: usize)
        requires
            old(self).wf(),
            i < old(self).disks@.len(),
        ensures
            final(self).wf(),
            final(self)@ == (AppView {
                layout: reset_layout(old(self).disks@[i as int]),
                ..old(self)@
            }),
    {
        let ghost d = self.disks@[i as int];
        self.layout.reset_for(&self.disks[i]);
        proof {
            lemma_reset(self.layout, d);
        }
        assert(self@ =~= (AppView { layout: reset_layout(d), ..old(self)@ }));
    }

    fn on_next(&mut self) -> (r: Vec<Effect>)
        requires
            old(self).wf(),
        ensures
            final(self).wf(),
            (final(self)@, views(r@)) == gone_on(old(self)@),
    {
        let ghost goal = gone_on(old(self)@);
        let page = self.next_page();
        self.page = page;
        match page {
            Page::Wifi => {
                let effects = self.wifi.on_first_enter();
                let r = wrap_effects(effects);
                assert(views(r@) =~= goal.1);
                assert(self@ =~= goal.0);
                r
            },
            Page::CustomLayout => {
                if let Some(i) = self.disk_index() {
                    let stale = match &self.layout.disk {
                        Some(d) => !path::paths_equal(d.path.as_str(), self.disks[i].path.as_str()),
                        None => true,
                    };
                    if stale {
                        self.rebuild_layout(i);
                    }
                }
                assert(self@ =~= goal.0);
                no_effects()
            },
            _ => {
                assert(self@ =~= goal.0);
                no_effects()
            },
        }
    }

    fn on_catalog(&mut self, catalog: Catalog)
        requires
            old(self).wf(),
        ensures
            final(self).wf(),
            final(self)@ == catalog_shown(old(self)@, catalog),
    {
        let ghost goal = catalog_shown(old(self)@, catalog);
        self.images = catalog.leaves();
        assert(views(self.images@).len() == self.images@.len());
        if self.images.len() == 1 {
            self.image_idx = Some(0);
        } else if let Some(d) = &catalog.default_image {
            self.image_idx = find_image(&self.images, d.as_str());
            proof {
                lemma_first_image(self.images@, d@, 0);
            }
        }
        self.catalog_loaded = true;
        assert(self@ =~= goal);
    }

    fn show_dev_progress(&mut self)
        requires
            old(self).wf(),
        ensures
            final(self).wf(),
            final(self)@ == dev_progress(old(self)@),
    {
        self.install_step = Some("bootc".to_owned());
        self.install_step_detail = "installing oci:/usr/lib/bootc/install-source/main".to_owned();
        self.install_percent = Some(47);
        self.install_in_flight = true;
        push_samples(&mut self.install_log, 14, false);
        self.page = Page::Progress;
        assert(self@ =~= dev_progress(old(self)@));
    }

    fn show_dev_failure(&mut self)
        requires
            old(self).wf(),
        ensures
            final(self).wf(),
            final(self)@ == dev_failure(old(self)@),
    {
        self.install_success = false;
        self.failed_step = Some("bootc".to_owned());
        self.install_error = "bootc: skopeo copy: writing blob: no space left on device".to_owned();
        push_samples(&mut self.install_log, 10, true);
        self.page = Page::Done;
        assert(self@ =~= dev_failure(old(self)@));
    }

    fn show_dev_page(&mut self, page: &str)
        requires
            old(self).wf(),
        ensures
            final(self).wf(),
            final(self)@ == dev_shown(old(self)@, page@),
    {
        let ghost v = self@;
        if text::same(page, "image") {
            self.page = Page::Image;
            assert(self@ =~= (AppView { page: Page::Image, ..v }));
        } else if text::same(page, "disk") {
            self.page = Page::Disk;
            assert(self@ =~= (AppView { page: Page::Disk, ..v }));
        } else if text::same(page, "layout") {
            if let Some(i) = self.disk_index() {
                self.rebuild_layout(i);
            }
            self.partition_mode = PartitionModeChoice::Custom;
            self.page = Page::CustomLayout;
            assert(self@ =~= dev_shown(v, page@));
        } else if text::same(page, "encryption") {
            self.page = Page::Encryption;
            assert(self@ =~= (AppView { page: Page::Encryption, ..v }));
        } else if text::same(page, "confirm") {
            self.page = Page::Confirm;
            assert(self@ =~= (AppView { page: Page::Confirm, ..v }));
        } else if text::same(page, "progress") {
            self.show_dev_progress();
        } else if text::same(page, "done-ok") {
            self.install_success = true;
            self.reboot_countdown = Some(23);
            self.page = Page::Done;
            assert(self@ =~= dev_shown(v, page@));
        } else if text::same(page, "done-fail") {
            self.show_dev_failure();
        }
    }

    fn apply_dev_page(&mut self)
        requires
            old(self).wf(),
        ensures
            final(self).wf(),
            final(self)@ == dev_jump(old(self)@),
    {
        let page = match &self.dev_page {
            Some(p) => p.clone(),
            None => return,
        };
        assert(views(self.images@).len() == self.images@.len());
        if self.image_idx.is_none() && self.images.len() > 0 {
            self.image_idx = Some(0);
        }
        if self.disk_idx.is_none() && self.disks.len() > 0 {
            self.disk_idx = Some(0);
        }
        assert(self@ =~= dev_defaults(old(self)@));
        self.show_dev_page(page.as_str());
    }

    fn on_disks(&mut self, disks: Vec<DiskInfo>)
        requires
            old(self).wf(),
            forall|i: int| 0 <= i < disks@.len() ==> (#[trigger] disks@[i]).wf(),
        ensures
            final(self).wf(),
            final(self)@ == disks_shown(old(self)@, disks@),
    {
        self.disks = disks;
        if self.disks.len() == 1 {
            self.disk_idx = Some(0);
        }
        self.layout = LayoutUiState::default();
        assert(self.layout@ =~= empty_layout());
        assert(self@ =~= (AppView {
            disks: disks@,
            disk_idx: if disks@.len() == 1 {
                Some(0)
            } else {
                old(self)@.disk_idx
            },
            layout: empty_layout(),
            ..old(self)@
        }));
        self.apply_dev_page();
    }

    /// The plan that the wizard's state describes.
    pub fn build_plan(&self) -> (r: Option<PartitionPlan>)
        requires
            self.wf(),
        ensures
            opt_view(r) == chosen_plan(*self),
    {
        match self.partition_mode {
            PartitionModeChoice::EraseDisk => Some(PartitionPlan::EraseDisk),
            PartitionModeChoice::FreeSpace => {
                let i = match self.disk_index() {
                    Some(i) => i,
                    None => return None,
                };
                match largest_index(&self.disks[i].gaps) {
                    Some(k) => {
                        let gap = self.disks[i].gaps[k];
                        proof {
                            let gaps = self.disks@[i as int].gaps@;
                            let j = choose|j: int| is_last_largest(gaps, j);
                            assert(is_last_largest(gaps, k as int));
                            lemma_last_largest_unique(gaps, k as int, j);
                        }
                        Some(
                            PartitionPlan::FreeSpace {
                                gap_start_bytes: gap.start_bytes,
                                gap_size_bytes: gap.size_bytes,
                            },
                        )
                    },
                    None => None,
                }
            },
            PartitionModeChoice::Custom => {
                match self.layout.validate() {
                    Ok(_) => Some(PartitionPlan::Custom { actions: self.layout.to_actions() }),
                    Err(_) => None,
                }
            },
        }
    }

    /// The install that the wizard's state describes.
    pub fn build_install_spec(&self) -> (r: Option<InstallSpec>)
        requires
            self.wf(),
        ensures
            opt_view(r) == chosen_spec(*self),
    {
        let image = match self.image_idx {
            Some(i) => if i < self.images.len() {
                self.images[i].imgref.clone()
            } else {
                return None;
            },
            None => return None,
        };
        let i = match self.disk_index() {
            Some(i) => i,
            None => return None,
        };
        let disk = self.disks[i].path.clone();
        let encryption = self.encryption_choice.encryption(&self.passphrase);
        match self.build_plan() {
            Some(plan) => Some(
                InstallSpec { disk, image, hostname: self.hostname.clone(), encryption, plan },
            ),
            None => None,
        }
    }

    fn start_install(&mut self, spec: InstallSpec) -> (r: Vec<Effect>)
        requires
            old(self).wf(),
        ensures
            final(self).wf(),
            (final(self)@, views(r@)) == started(old(self)@, spec@),
    {
        let ghost goal = started(old(self)@, spec@);
        self.last_spec = Some(spec);
        self.cancel_ready = true;
        self.install_in_flight = true;
        self.install_log = String::new();
        self.install_step = None;
        self.install_step_detail = String::new();
        self.failed_step = None;
        self.logs_saved = None;
        self.install_percent = None;
        self.show_log = false;
        self.slide_idx = 0;
        self.page = Page::Progress;
        assert(self@ =~= goal.0);
        let mut r = one_effect(Effect::BeginInstall);
        if self.branding.slides.len() > 0 {
            let ghost before = r@;
            r.push(Effect::SlideTimer);
            assert(views(r@) =~= views(before).push(EffectView::SlideTimer));
        }
        assert(views(r@) =~= goal.1);
        r
    }

    fn on_daemon_event(&mut self, event: DaemonEvent) -> (r: Vec<Effect>)
        requires
            old(self).wf(),
        ensures
            final(self).wf(),
            (final(self)@, views(r@)) == reported(old(self)@, event),
    {
        let ghost goal = reported(old(self)@, event);
        match event {
            DaemonEvent::Step { step, detail } => {
                self.install_step = Some(step);
                self.install_step_detail = detail;
            },
            DaemonEvent::Log { stream, line } => {
                push_log(&mut self.install_log, stream.as_str(), line.as_str());
            },
            DaemonEvent::Progress { percent } => {
                // Signals may be delivered out of order.
                let rises = match self.install_percent {
                    Some(p) => percent > p,
                    None => true,
                };
                if rises {
                    self.install_percent = Some(percent);
                }
            },
            DaemonEvent::Completed { success, error } => {
                self.install_in_flight = false;
                self.install_success = success;
                self.install_error = error;
                self.page = Page::Done;
                if success {
                    self.install_percent = Some(100);
                    self.reboot_countdown = Some(REBOOT_COUNTDOWN_SECS);
                    assert(self@ =~= goal.0);
                    return one_effect(Effect::RebootTimer);
                }
                self.failed_step = text::clone_opt(&self.install_step);
            },
            DaemonEvent::ConnectionError(m) => {
                self.install_in_flight = false;
                self.install_success = false;
                self.install_error = text::cat2("DBus: ", m.as_str());
                self.failed_step = text::clone_opt(&self.install_step);
                self.page = Page::Done;
            },
        }
        assert(self@ =~= goal.0);
        no_effects()
    }

    /// The failure report for the clipboard or a file.
    pub fn failure_report(&self) -> (r: String)
        ensures
            r@ == report_text(self@),
    {
        let mut r = "cosmonaut-installer failure report\n".to_owned();
        let ghost head = r@;
        if let Some(s) = &self.last_spec {
            let mut about = text::cat3("image: ", s.image.as_str(), "\n");
            about.append("disk: ");
            about.append(s.disk.as_str());
            about.append("\n");
            about.append("hostname: ");
            about.append(s.hostname.as_str());
            about.append("\n");
            r.append(about.as_str());
        } else {
            assert(r@ =~= head + Seq::empty());
        }
        r.append("encryption: ");
        r.append(self.encryption_choice.label());
        r.append("\n");
        r.append("failed step: ");
        match &self.failed_step {
            Some(s) => r.append(s.as_str()),
            None => r.append("(before first step)"),
        }
        r.append("\n");
        r.append("error: ");
        r.append(self.install_error.as_str());
        r.append("\n");
        r.append("\n--- log (tail) ---\n");
        r.append(self.install_log.as_str());
        assert(r@ =~= report_text(self@));
        r
    }

    /// Whether the cancel button is active.
    pub fn cancel_enabled(&self) -> (r: bool)
        ensures
            r == (self.install_in_flight && is_cancellable(self@.install_step)),
    {
        let late = text::same_opt(&self.install_step, "bootc") || text::same_opt(
            &self.install_step,
            "hostname",
        ) || text::same_opt(&self.install_step, "bls") || text::same_opt(
            &self.install_step,
            "finalize",
        );
        self.install_in_flight && !late
    }

    /// The slide that the progress page shows.
    pub fn current_slide(&self) -> (r: Option<&Slide>)
        ensures
            r == (if self.slide_idx < self.branding.slides@.len() {
                Some(&self.branding.slides@[self.slide_idx as int])
            } else {
                None
            }),
    {
        if self.slide_idx < self.branding.slides.len() {
            Some(&self.branding.slides[self.slide_idx])
        } else {
            None
        }
    }

    fn on_slide_tick(&mut self) -> (r: Vec<Effect>)
        requires
            old(self).wf(),
        ensures
            final(self).wf(),
            (final(self)@, views(r@)) == app_step(*old(self), Message::SlideTick),
    {
        let n = self.branding.slides.len();
        if !matches!(self.page, Page::Progress) || n == 0 {
            return no_effects();
        }
        self.slide_idx = (self.slide_idx + 1) % n;
        assert(self@ =~= app_step(*old(self), Message::SlideTick).0);
        one_effect(Effect::SlideTimer)
    }

    fn on_reboot_tick(&mut self) -> (r: Vec<Effect>)
        requires
            old(self).wf(),
        ensures
            final(self).wf(),
            (final(self)@, views(r@)) == app_step(*old(self), Message::RebootTick),
    {
        let ghost goal = app_step(*old(self), Message::RebootTick);
        match self.reboot_countdown {
            None => no_effects(),
            Some(c) => {
                if c <= 1 {
                    self.reboot_countdown = Some(0);
                    assert(self@ =~= goal.0);
                    one_effect(Effect::Reboot)
                } else {
                    self.reboot_countdown = Some(c - 1);
                    assert(self@ =~= goal.0);
                    one_effect(Effect::RebootTimer)
                }
            },
        }
    }

    /// Selections and probes: messages that only set something.
    fn on_choice(&mut self, msg: Message) -> (r: Vec<Effect>)
        requires
            old(self).wf(),
            msg is ImageSelected || msg is DiskSelected || msg is PartitionModeSelected || msg
                is Layout || msg is EncryptionSelected || msg is PassphraseChanged || msg
                is Tpm2Probed || msg is WifiOnlineProbed || msg is WifiSkip || msg is LogsSaved
                || msg is ToggleLogView || msg is Back,
        ensures
            final(self).wf(),
            (final(self)@, views(r@)) == app_step(*old(self), msg),
    {
        let ghost goal = app_step(*old(self), msg);
        match msg {
            Message::Back => {
                self.page = self.back_page();
            },
            Message::ImageSelected(i) => {
                self.image_idx = Some(i);
            },
            Message::DiskSelected(i) => {
                let same = match self.disk_idx {
                    Some(k) => k == i,
                    None => false,
                };
                if !same {
                    self.layout = LayoutUiState::default();
                    assert(self.layout@ =~= empty_layout());
                }
                self.disk_idx = Some(i);
            },
            Message::PartitionModeSelected(mode) => {
                self.partition_mode = mode;
            },
            Message::Layout(m) => {
                let ghost before = self.layout@;
                self.layout.update(m);
                assert(self.layout@ =~= layout_after(before, m));
            },
            Message::EncryptionSelected(c) => {
                if !c.needs_passphrase() {
                    self.passphrase = String::new();
                    assert(self.passphrase@ =~= Seq::empty());
                }
                self.encryption_choice = c;
            },
            Message::PassphraseChanged(p) => {
                self.passphrase = p;
            },
            Message::Tpm2Probed(r) => {
                self.tpm2_available = Some(
                    match r {
                        Ok(b) => b,
                        Err(_) => false,
                    },
                );
            },
            Message::WifiOnlineProbed(r) => {
                self.wifi_online = Some(
                    match r {
                        Ok(b) => b,
                        Err(_) => false,
                    },
                );
            },
            Message::WifiSkip => {
                self.page = Page::Disk;
            },
            Message::LogsSaved(r) => {
                self.logs_saved = Some(r);
            },
            _ => {
                self.show_log = !self.show_log;
            },
        }
        assert(self@ =~= goal.0);
        no_effects()
    }

    /// One message: what it changes, and what it asks for.
    pub fn update(&mut self, msg: Message) -> (r: Vec<Effect>)
        requires
            old(self).wf(),
            message_wf(msg),
        ensures
            final(self).wf(),
            (final(self)@, views(r@)) == app_step(*old(self), msg),
    {
        let ghost goal = app_step(*old(self), msg);
        match msg {
            Message::Next => self.on_next(),
            Message::CatalogLoaded(r) => {
                match r {
                    Ok(Some(catalog)) => self.on_catalog(catalog),
                    _ => {
                        self.catalog_loaded = true;
                        assert(self@ =~= goal.0);
                    },
                }
                no_effects()
            },
            Message::DisksLoaded(r) => {
                match r {
                    Ok(disks) => self.on_disks(disks),
                    Err(_) => {},
                }
                no_effects()
            },
            Message::RefreshDisks => one_effect(Effect::ProbeDisks),
            Message::Wifi(m) => {
                let effects = self.wifi.update(m);
                assert(self@ =~= goal.0);
                wrap_effects(effects)
            },
            Message::StartInstall => {
                match self.build_install_spec() {
                    Some(spec) => self.start_install(spec),
                    None => no_effects(),
                }
            },
            Message::RetryInstall => {
                match self.last_spec.take() {
                    Some(spec) => {
                        let r = self.start_install(spec);
                        assert(self@ =~= goal.0);
                        r
                    },
                    None => {
                        assert(self@ =~= goal.0);
                        no_effects()
                    },
                }
            },
            Message::CopyLogs => one_effect(Effect::CopyText(self.failure_report())),
            Message::SaveLogs => one_effect(Effect::SaveText(self.failure_report())),
            Message::DaemonEvent(e) => self.on_daemon_event(e),
            Message::CancelInstall => {
                let ready = self.cancel_ready;
                self.cancel_ready = false;
                assert(self@ =~= goal.0);
                if ready {
                    one_effect(Effect::SendCancel)
                } else {
                    no_effects()
                }
            },
            Message::SlideTick => self.on_slide_tick(),
            Message::RebootTick => self.on_reboot_tick(),
            Message::RebootNow => {
                self.reboot_countdown = Some(0);
                assert(self@ =~= goal.0);
                one_effect(Effect::Reboot)
            },
            Message::Quit => one_effect(Effect::Exit),
            other => self.on_choice(other),
        }
    }
}

// ---------- laws ----------

/// While an install is reported on, its percentage never falls.
pub proof fn law_shown_progress_never_falls(v: AppView, e: DaemonEvent)
    requires
        v.install_percent is Some ==> v.install_percent->0 <= 100,
        e matches DaemonEvent::Progress { percent } ==> percent <= 100,
    ensures
        v.install_percent matches Some(p) ==> reported(v, e).0.install_percent matches Some(q)
            && p <= q <= 100,
{
}

/// The failure report is the same whatever the passphrase: neither the one
/// in the wizard nor the one in the stored spec shows.
pub proof fn law_report_hides_the_passphrase(
    v: AppView,
    passphrase: Seq<char>,
    encryption: crate::install::Encryption,
)
    ensures
        report_text(v) == report_text(
            (AppView {
                passphrase,
                last_spec: match v.last_spec {
                    Some(s) => Some((SpecView { encryption, ..s })),
                    None => None,
                },
                ..v
            }),
        ),
{
}

/// A choice without a passphrase forgets the one that was typed.
pub proof fn law_unneeded_passphrase_is_forgotten(a: App, c: EncryptionChoice)
    requires
        !c.wants_passphrase(),
    ensures
        app_step(a, Message::EncryptionSelected(c)).0.passphrase.len() == 0,
{
}

/// Another try installs the same spec as before.
pub proof fn law_retry_repeats_the_install(a: App)
    requires
        a.last_spec is Some,
    ensures
        app_step(a, Message::RetryInstall).0.last_spec == a@.last_spec,
        app_step(a, Message::RetryInstall).0.page is Progress,
        app_step(a, Message::RetryInstall).1[0] is BeginInstall,
{
}

/// Going back from the page that follows a decision leads to that decision
/// again.
pub proof fn law_back_undoes_next(v: AppView)
    requires
        v.page is Disk || v.page is CustomLayout || v.page is Encryption,
        v.page is CustomLayout ==> v.partition_mode is Custom,
    ensures
        page_before(AppView { page: page_after(v), ..v }) == v.page,
{
}

/// Nothing starts an install but a complete set of choices, or another try
/// of one.
pub proof fn law_installs_start_on_request(a: App, msg: Message, k: int)
    requires
        0 <= k < app_step(a, msg).1.len(),
        app_step(a, msg).1[k] is BeginInstall,
    ensures
        msg is StartInstall || msg is RetryInstall,
        app_step(a, msg).0.last_spec is Some,
        msg is StartInstall ==> app_step(a, msg).0.last_spec == chosen_spec(a),
{
}

/// The seconds that are left after `n` ticks.
pub open spec fn after_ticks(seconds: u8, n: nat) -> u8
    decreases n,
{
    if n == 0 {
        seconds
    } else {
        ticked(after_ticks(seconds, (n - 1) as nat)).0
    }
}

/// A countdown of some seconds asks for the timer at each tick, and for the
/// restart at the last one.
pub proof fn law_countdown_ends_in_a_restart(seconds: u8, n: nat)
    requires
        1 <= n <= seconds,
    ensures
        after_ticks(seconds, n) == seconds - n,
        ticked(after_ticks(seconds, (n - 1) as nat)).1 == (if n == seconds {
            EffectView::Reboot
        } else {
            EffectView::RebootTimer
        }),
    decreases n,
{
    if n > 1 {
        law_countdown_ends_in_a_restart(seconds, (n - 1) as nat);
    }
}

/// Cancelling is offered for exactly the steps in front of the image
/// install.
pub proof fn law_no_cancel_from_the_image_on(step: Step)
    ensures
        is_cancellable(Some(step.name())) <==> step.position() < Step::Bootc.position(),
        is_cancellable(None),
{
    reveal_strlit("partition");
    reveal_strlit("format");
    reveal_strlit("luks");
    reveal_strlit("mkfs");
    reveal_strlit("mount");
    reveal_strlit("bootc");
    reveal_strlit("hostname");
    reveal_strlit("bls");
    reveal_strlit("finalize");
    assert("partition"@.len() == 9 && "format"@.len() == 6 && "luks"@.len() == 4);
    assert("mkfs"@.len() == 4 && "mount"@.len() == 5 && "bootc"@.len() == 5);
    assert("hostname"@.len() == 8 && "bls"@.len() == 3 && "finalize"@.len() == 8);
    assert("mount"@[0] != "bootc"@[0]);
}

/// An install that is started is the one that was chosen: the chosen image
/// goes on the chosen disk, under the hostname and with the encryption that
/// were chosen, with the typed passphrase where it takes one. The plan is the
/// chosen mode: all of the disk, its largest gap, or the layout.
pub proof fn law_installs_are_what_was_chosen(a: App)
    requires
        app_step(a, Message::StartInstall).1.len() > 0,
        forall|i: int| 0 <= i < a.disks@.len() ==> (#[trigger] a.disks@[i]).wf(),
    ensures
        ({
            let after = app_step(a, Message::StartInstall).0;
            let spec = after.last_spec->0;
            let disk = a.disks@[a.disk_idx->0 as int];
            &&& app_step(a, Message::StartInstall).1[0] is BeginInstall
            &&& after.last_spec is Some && after.page is Progress && after.install_in_flight
            &&& a.image_idx is Some && a.image_idx->0 < a.images@.len()
            &&& spec.image == a.images@[a.image_idx->0 as int].imgref@
            &&& a.disk_idx is Some && a.disk_idx->0 < a.disks@.len()
            &&& spec.disk == disk.path@
            &&& spec.hostname == a.hostname@
            &&& match a.encryption_choice {
                EncryptionChoice::Unencrypted => spec.encryption is Unencrypted,
                EncryptionChoice::LuksPassphrase => spec.encryption is LuksPassphrase
                    && spec.encryption->LuksPassphrase_passphrase == a.passphrase,
                EncryptionChoice::Tpm2Luks => spec.encryption is Tpm2Luks,
                EncryptionChoice::Tpm2LuksPassphrase => spec.encryption is Tpm2LuksPassphrase
                    && spec.encryption->Tpm2LuksPassphrase_passphrase == a.passphrase,
            }
            &&& match a.partition_mode {
                PartitionModeChoice::EraseDisk => spec.plan is EraseDisk,
                PartitionModeChoice::FreeSpace => exists|k: int|
                    0 <= k < disk.gaps@.len() && spec.plan == (PlanView::FreeSpace {
                        gap_start_bytes: (#[trigger] disk.gaps@[k]).start_bytes,
                        gap_size_bytes: disk.gaps@[k].size_bytes,
                    }) && forall|j: int|
                        0 <= j < disk.gaps@.len() ==> (#[trigger] disk.gaps@[j]).size_bytes
                            <= disk.gaps@[k].size_bytes,
                PartitionModeChoice::Custom => layout_error(a.layout) is None && spec.plan
                    == PlanView::Custom(planned_actions(a.layout)),
            }
        }),
{
    if a.partition_mode is FreeSpace {
        let disk = a.disks@[a.disk_idx->0 as int];
        let k = crate::layout::lemma_largest(disk.gaps@);
        let m = choose|m: int| is_last_largest(disk.gaps@, m);
        assert(is_last_largest(disk.gaps@, m));
        assert(disk.gaps@[m].size_bytes <= disk.gaps@[m].size_bytes);
    }
}

/// A complete set of choices is enough: with an image and a disk chosen, an
/// install starts unless the mode has nothing to go on, no gap on the disk or
/// a layout with an error. Without them nothing happens.
pub proof fn law_complete_choices_start_an_install(a: App)
    ensures
        ({
            let image = a.image_idx is Some && a.image_idx->0 < a.images@.len();
            let disk = a.disk_idx is Some && a.disk_idx->0 < a.disks@.len();
            let plan = match a.partition_mode {
                PartitionModeChoice::EraseDisk => true,
                PartitionModeChoice::FreeSpace => a.disks@[a.disk_idx->0 as int].gaps@.len() > 0,
                PartitionModeChoice::Custom => layout_error(a.layout) is None,
            };
            let next = app_step(a, Message::StartInstall);
            &&& image && disk && plan <==> next.1.len() > 0
            &&& !(image && disk && plan) ==> next.0 == a@
        }),
{
}

/// The pages come in their order: the choice of image is left out where there
/// is only one, the network where there is one already, and the layout unless
/// it is wanted.
pub proof fn law_pages_come_in_order(a: App)
    ensures
        ({
            let next = app_step(a, Message::Next).0;
            let online = a.wifi_online == Some(true);
            &&& a.page is Welcome && a.images@.len() != 1 ==> next.page is Image
            &&& a.page is Image || (a.page is Welcome && a.images@.len() == 1) ==> (if online {
                next.page is Disk
            } else {
                next.page is Wifi
            })
            &&& a.page is Wifi ==> next.page is Disk
            &&& a.page is Disk ==> (if a.partition_mode is Custom {
                next.page is CustomLayout
            } else {
                next.page is Encryption
            })
            &&& a.page is CustomLayout ==> next.page is Encryption
            &&& a.page is Encryption ==> next.page is Confirm
            &&& a.page is Confirm || a.page is Progress ==> next.page is Progress
            &&& a.page is Done ==> next.page is Done
        }),
{
}

/// Going back leads to the page before, and never leaves a running or a
/// finished install.
pub proof fn law_back_leads_to_the_page_before(a: App)
    ensures
        ({
            let back = app_step(a, Message::Back).0;
            &&& app_step(a, Message::Back).1.len() == 0
            &&& a.page is Welcome || a.page is Progress || a.page is Done ==> back.page == a.page
            &&& a.page is Image ==> back.page is Welcome
            &&& a.page is Wifi ==> back.page is Image
            &&& a.page is Disk ==> back.page is Wifi
            &&& a.page is CustomLayout ==> back.page is Disk
            &&& a.page is Encryption ==> (if a.partition_mode is Custom {
                back.page is CustomLayout
            } else {
                back.page is Disk
            })
            &&& a.page is Confirm ==> back.page is Encryption
        }),
{
}

/// Moving between pages changes no choice.
pub proof fn law_moving_keeps_the_choices(a: App, msg: Message)
    requires
        msg is Next || msg is Back || msg is WifiSkip,
    ensures
        ({
            let after = app_step(a, msg).0;
            &&& after.image_idx == a.image_idx && after.disk_idx == a.disk_idx
            &&& after.partition_mode == a.partition_mode
            &&& after.encryption_choice == a.encryption_choice && after.passphrase == a.passphrase@
            &&& after.hostname == a.hostname@
            &&& after.images == views(a.images@) && after.disks == a.disks@
            &&& after.last_spec == a@.last_spec
        }),
{
}

/// Each choice is taken as it was made and leaves the others alone; another
/// disk drops the layout of the one before.
pub proof fn law_choices_are_taken(
    a: App,
    i: usize,
    mode: PartitionModeChoice,
    c: EncryptionChoice,
    p: String,
)
    ensures
        app_step(a, Message::ImageSelected(i)).0 == (AppView { image_idx: Some(i), ..a@ }),
        app_step(a, Message::PartitionModeSelected(mode)).0 == (AppView {
            partition_mode: mode,
            ..a@
        }),
        app_step(a, Message::PassphraseChanged(p)).0 == (AppView { passphrase: p@, ..a@ }),
        ({
            let after = app_step(a, Message::DiskSelected(i)).0;
            &&& after.disk_idx == Some(i) && after.image_idx == a.image_idx
            &&& a.disk_idx == Some(i) ==> after.layout == a.layout@
            &&& a.disk_idx != Some(i) ==> after.layout.disk is None && after.layout.roles.len() == 0
                && after.layout.gap_idx is None
        }),
        ({
            let after = app_step(a, Message::EncryptionSelected(c)).0;
            &&& after.encryption_choice == c
            &&& c is LuksPassphrase || c is Tpm2LuksPassphrase ==> after.passphrase == a.passphrase@
            &&& c is Unencrypted || c is Tpm2Luks ==> after.passphrase.len() == 0
        }),
{
}

/// A probe of the disks shows all of them; a single one is chosen by itself,
/// and no layout is kept. A failed probe changes nothing.
pub proof fn law_probed_disks_are_shown(a: App, disks: Vec<DiskInfo>, m: String)
    requires
        a.dev_page is None,
    ensures
        ({
            let after = app_step(a, Message::DisksLoaded(Ok(disks))).0;
            &&& after.disks == disks@
            &&& after.disk_idx == (if disks@.len() == 1 {
                Some(0usize)
            } else {
                a.disk_idx
            })
            &&& after.layout.disk is None && after.page == a.page
        }),
        app_step(a, Message::DisksLoaded(Err(m))).0 == a@,
{
}

/// A catalog shows its images, and chooses one by itself if it is the only
/// one, or else the first that is the default.
pub proof fn law_catalogs_are_shown(a: App, catalog: Catalog, k: int)
    ensures
        ({
            let after = app_step(a, Message::CatalogLoaded(Ok(Some(catalog)))).0;
            let images = all_leaves(catalog.images@);
            &&& after.images == images && after.catalog_loaded
            &&& images.len() == 1 ==> after.image_idx == Some(0usize)
            &&& images.len() != 1 && catalog.default_image is None ==> after.image_idx
                == a.image_idx
            &&& images.len() != 1 && images.len() <= usize::MAX && catalog.default_image is Some
                && 0 <= k < images.len() && images[k].imgref == catalog.default_image->0@ && (
            forall|j: int|
                0 <= j < k ==> (#[trigger] images[j]).imgref != catalog.default_image->0@)
                ==> after.image_idx == Some(k as usize)
            &&& images.len() != 1 && catalog.default_image is Some && (forall|j: int|
                0 <= j < images.len() ==> (#[trigger] images[j]).imgref
                    != catalog.default_image->0@) ==> after.image_idx is None
        }),
{
    let images = all_leaves(catalog.images@);
    if catalog.default_image is Some {
        lemma_default_image(images, catalog.default_image->0@, 0, k);
    }
}

proof fn lemma_default_image(images: Seq<ImageView>, imgref: Seq<char>, from: int, k: int)
    requires
        0 <= from,
    ensures
        from <= k < images.len() && images[k].imgref == imgref && (forall|j: int|
            from <= j < k ==> (#[trigger] images[j]).imgref != imgref) ==> first_image(
            images,
            imgref,
            from,
        ) == Some(k as usize),
        (forall|j: int| from <= j < images.len() ==> (#[trigger] images[j]).imgref != imgref)
            ==> first_image(images, imgref, from) is None,
    decreases images.len() - from,
{
    if from < images.len() {
        lemma_default_image(images, imgref, from + 1, k);
    }
}

/// An install that ends is told as it ended: a success with the countdown to
/// the restart, a failure with its reason and the step that it was in.
pub proof fn law_ends_are_told(a: App, error: String)
    ensures
        ({
            let end = app_step(
                a,
                Message::DaemonEvent(DaemonEvent::Completed { success: true, error }),
            );
            &&& end.0.page is Done && end.0.install_success && !end.0.install_in_flight
            &&& end.0.install_percent == Some(100u8) && end.0.reboot_countdown == Some(30u8)
            &&& end.1.len() == 1 && end.1[0] is RebootTimer
        }),
        ({
            let end = app_step(
                a,
                Message::DaemonEvent(DaemonEvent::Completed { success: false, error }),
            );
            &&& end.0.page is Done && !end.0.install_success && !end.0.install_in_flight
            &&& end.0.install_error == error@ && end.0.failed_step == a@.install_step
            &&& end.0.reboot_countdown == a.reboot_countdown && end.1.len() == 0
            &&& end.0.install_log == a.install_log@ && end.0.last_spec == a@.last_spec
        }),
        ({
            let end = app_step(a, Message::DaemonEvent(DaemonEvent::ConnectionError(error)));
            &&& end.0.page is Done && !end.0.install_success && !end.0.install_in_flight
            &&& end.0.install_error == "DBus: "@ + error@ && end.0.failed_step == a@.install_step
            &&& end.1.len() == 0
        }),
{
}

/// What an install reports is shown: the step with its detail, the line in
/// the log, the percentage if it is higher than the one shown.
pub proof fn law_reports_are_shown(a: App, x: String, y: String, percent: u8)
    ensures
        ({
            let after = app_step(
                a,
                Message::DaemonEvent(DaemonEvent::Step { step: x, detail: y }),
            ).0;
            &&& after.install_step == Some(x@) && after.install_step_detail == y@
            &&& after.page == a.page && after.install_log == a.install_log@
        }),
        ({
            let after = app_step(
                a,
                Message::DaemonEvent(DaemonEvent::Log { stream: x, line: y }),
            ).0;
            &&& after.install_log == logged(a.install_log@, x@, y@)
            &&& after.page == a.page && after.install_step == a@.install_step
        }),
        ({
            let after = app_step(a, Message::DaemonEvent(DaemonEvent::Progress { percent })).0;
            &&& after.install_percent is Some && after.install_percent->0 >= percent
            &&& after.install_percent->0 == percent || after.install_percent == a.install_percent
            &&& after.page == a.page
        }),
{
}

/// A new install starts with an empty record: nothing of the one before is
/// shown, and it can be cancelled once.
pub proof fn law_installs_start_with_an_empty_record(a: App, msg: Message)
    requires
        msg is StartInstall || msg is RetryInstall,
        app_step(a, msg).1.len() > 0,
    ensures
        ({
            let after = app_step(a, msg).0;
            &&& after.install_log.len() == 0 && after.install_step is None
            &&& after.failed_step is None && after.install_percent is None
            &&& after.cancel_ready && after.logs_saved is None
        }),
{
}

/// A cancel request is sent once for an install.
pub proof fn law_cancel_is_sent_once(a: App)
    ensures
        a.cancel_ready <==> app_step(a, Message::CancelInstall).1.len() > 0,
        a.cancel_ready ==> app_step(a, Message::CancelInstall).1 == seq![EffectView::SendCancel],
        !app_step(a, Message::CancelInstall).0.cancel_ready,
{
}

/// The machine restarts only when it is asked to or when the countdown ends.
pub proof fn law_restarts_are_asked_for(a: App, msg: Message, k: int)
    requires
        0 <= k < app_step(a, msg).1.len(),
        app_step(a, msg).1[k] is Reboot,
    ensures
        msg is RebootNow || (msg is RebootTick && a.reboot_countdown is Some
            && a.reboot_countdown->0 <= 1),
{
}

/// The report tells what was installed, where it failed and why, and ends
/// with the log.
pub proof fn law_reports_tell_what_failed(v: AppView)
    ensures
        ({
            let r = report_text(v);
            let told = "failed step: "@ + (match v.failed_step {
                Some(s) => s,
                None => "(before first step)"@,
            }) + "\n"@ + "error: "@ + v.install_error + "\n"@ + "\n--- log (tail) ---\n"@
                + v.install_log;
            &&& told.len() <= r.len() && r.skip(r.len() - told.len()) == told
            &&& v.last_spec matches Some(s) ==> text::has_prefix(
                r,
                "cosmonaut-installer failure report\n"@ + "image: "@ + s.image + "\n"@ + "disk: "@
                    + s.disk + "\n"@ + "hostname: "@ + s.hostname + "\n"@,
            )
        }),
{
    let r = report_text(v);
    let step = match v.failed_step {
        Some(s) => s,
        None => "(before first step)"@,
    };
    let told = "failed step: "@ + step + "\n"@ + "error: "@ + v.install_error + "\n"@
        + "\n--- log (tail) ---\n"@ + v.install_log;
    assert(r.skip(r.len() - told.len()) =~= told);
    if v.last_spec is Some {
        let s = v.last_spec->0;
        let head = "cosmonaut-installer failure report\n"@ + "image: "@ + s.image + "\n"@
            + "disk: "@ + s.disk + "\n"@ + "hostname: "@ + s.hostname + "\n"@;
        assert(r.take(head.len() as int) =~= head);
    }
}

/// Entering the layout page shows the layout of the chosen disk: a fresh one
/// if the one at hand is of another disk, and the one at hand otherwise.
pub proof fn law_layouts_are_of_the_chosen_disk(a: App)
    requires
        a.page is Disk,
        a.partition_mode is Custom,
        a.disk_idx is Some,
        a.disk_idx->0 < a.disks@.len(),
    ensures
        ({
            let d = a.disks@[a.disk_idx->0 as int];
            let after = app_step(a, Message::Next).0;
            let at_hand = a.layout.disk is Some && same_path(a.layout.disk->0.path@, d.path@);
            &&& at_hand ==> after.layout == a.layout@
            &&& !at_hand ==> after.layout == reset_layout(d) && after.layout.disk == Some(d@)
        }),
{
}

/// Skipping the network leads to the disk; probes of it and of the TPM are
/// taken as they came, a failed one as a no.
pub proof fn law_probes_are_taken(a: App, found: bool, m: String)
    ensures
        app_step(a, Message::WifiSkip).0 == (AppView { page: Page::Disk, ..a@ }),
        app_step(a, Message::WifiOnlineProbed(Ok(found))).0.wifi_online == Some(found),
        app_step(a, Message::WifiOnlineProbed(Err(m))).0.wifi_online == Some(false),
        app_step(a, Message::Tpm2Probed(Ok(found))).0.tpm2_available == Some(found),
        app_step(a, Message::Tpm2Probed(Err(m))).0.tpm2_available == Some(false),
        app_step(a, Message::RefreshDisks).1 == seq![EffectView::ProbeDisks],
        app_step(a, Message::RefreshDisks).0 == a@,
        app_step(a, Message::Quit).1 == seq![EffectView::Exit],
{
}

/// The slides go round while an install is shown, one at each tick, and stop
/// with it.
pub proof fn law_slides_go_round(a: App)
    requires
        a.branding.slides@.len() <= usize::MAX,
    ensures
        ({
            let n = a.branding.slides@.len();
            let next = app_step(a, Message::SlideTick);
            let shown = a.page is Progress && n > 0;
            &&& shown && a.slide_idx + 1 < n ==> next.0.slide_idx == a.slide_idx + 1
            &&& shown && a.slide_idx + 1 == n ==> next.0.slide_idx == 0
            &&& shown ==> next.1 == seq![EffectView::SlideTimer]
            &&& !shown ==> next.0 == a@ && next.1.len() == 0
        }),
{
    let n = a.branding.slides@.len() as int;
    if a.slide_idx + 1 < n {
        vstd::arithmetic::div_mod::lemma_small_mod((a.slide_idx + 1) as nat, n as nat);
    } else if a.slide_idx + 1 == n {
        vstd::arithmetic::div_mod::lemma_mod_self_0(n);
    }
}

/// The log is shown or hidden, copied and saved as the whole report, and
/// how saving went is remembered.
pub proof fn law_the_report_is_handed_out(a: App)
    ensures
        app_step(a, Message::ToggleLogView).0 == (AppView { show_log: !a.show_log, ..a@ }),
        app_step(a, Message::CopyLogs).1 == seq![EffectView::CopyText(report_text(a@))],
        app_step(a, Message::SaveLogs).1 == seq![EffectView::SaveText(report_text(a@))],
        app_step(a, Message::CopyLogs).0 == a@ && app_step(a, Message::SaveLogs).0 == a@,
        app_step(a, Message::RebootNow).1 == seq![EffectView::Reboot],
{
}

/// What the network page asks for is passed on, and changes nothing else.
pub proof fn law_the_network_page_is_passed_on(a: App, m: WifiMsg, k: int)
    ensures
        ({
            let next = app_step(a, Message::Wifi(m));
            let own = wifi_step(a.wifi@, m);
            &&& next.0 == (AppView { wifi: own.0, ..a@ })
            &&& next.1.len() == own.1.len()
            &&& 0 <= k < own.1.len() ==> next.1[k] == EffectView::Wifi(own.1[k])
        }),
        a.page is Image && a.wifi_online != Some(true) && !a.wifi.initialized ==> app_step(
            a,
            Message::Next,
        ).1 == seq![EffectView::Wifi(WifiEffectView::LoadSettings)],
        a.page is Image && a.wifi.initialized ==> app_step(a, Message::Next).1.len() == 0,
{
}

} // verus!
