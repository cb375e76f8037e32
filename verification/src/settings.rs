//! The settings window: what it says and what its buttons do.
use vstd::arithmetic::power2::{lemma2_to64, pow2};
use vstd::prelude::*;

use crate::defs::AppConfig;
use crate::single::{lemma_px_truncated, lemma_px_whole_number, px_infinite, px_nan, px_negative, px_product, px_truncated, px_value, Px};
use crate::text::{chars_of, decimal, decimal_chars, push_chars, push_text, text_of};

verus! {

/// The tabs of the window.
#[derive(Clone, Copy, Debug, PartialEq, Eq, Structural)]
pub enum SettingsTab {
    Main,
    Settings,
}

/// The release of the flight-model database, and the update of it.
pub struct FmStatus {
    /// The release, or nothing.
    pub tag: String,
    /// The tag and the address of an update.
    pub pending: Option<(String, String)>,
    /// How far an installation is, while one runs.
    pub progress: Option<Px>,
}

/// What is shown of an update.
pub enum UpdateLine {
    Nothing,
    /// A bar and its text.
    Installing(Px, String),
    /// A text and a button.
    Available(String),
}

/// 100 in single precision
pub const PERCENT: u32 = 0x42c8_0000;

/// The line that names the release.
pub open spec fn fm_line(tag: Seq<char>) -> Seq<char> {
    if tag.len() > 0 {
        "FM database: "@ + tag
    } else {
        "FM database: Unknown"@
    }
}

/// The text of an installation that is as far as `p`.
pub open spec fn installing_text(p: u32) -> Seq<char> {
    "Installing FM update... "@ + decimal(px_truncated(px_product(p, PERCENT))) + "%"@
}

/// The text of an update from `tag` to `remote`.
pub open spec fn available_text(tag: Seq<char>, remote: Seq<char>) -> Seq<char> {
    if tag.len() == 0 {
        "FM update available: "@ + remote
    } else {
        "FM update available: "@ + tag + " \u{2192} "@ + remote
    }
}

/// `a` and `b`, one after the other.
fn joined(a: &str, b: &str) -> (r: String)
    ensures
        r@ == a@ + b@,
{
    let mut out = chars_of(a);
    push_text(&mut out, b);
    text_of(out.as_slice())
}

impl FmStatus {
    /// Whether an update is offered: there is one, and none is being installed.
    pub open spec fn offers_update(self) -> bool {
        self.progress is None && self.pending is Some
    }

    /// The line that names the release.
    pub fn line(&self) -> (r: String)
        ensures
            r@ == fm_line(self.tag@),
    {
        if !self.tag.as_str().is_empty() {
            joined("FM database: ", self.tag.as_str())
        } else {
            "FM database: Unknown".to_string()
        }
    }

    /// What is shown of an update: the installation while one runs, else the
    /// update where there is one.
    pub fn update_line(&self) -> (r: UpdateLine)
        ensures
            match self.progress {
                Some(p) => r matches UpdateLine::Installing(q, t) && q == p && t@
                    == installing_text(p.bits),
                None => match self.pending {
                    Some((remote, _)) => r matches UpdateLine::Available(t) && t@ == available_text(
                        self.tag@,
                        remote@,
                    ),
                    None => r is Nothing,
                },
            },
    {
        if let Some(p) = self.progress {
            let pct: u32 = p.times(Px { bits: PERCENT }).truncated();
            let mut out = chars_of("Installing FM update... ");
            let digits = decimal_chars(pct as u64);
            push_chars(&mut out, digits.as_slice());
            push_text(&mut out, "%");
            return UpdateLine::Installing(p, text_of(out.as_slice()));
        }
        match &self.pending {
            None => UpdateLine::Nothing,
            Some((remote, _)) => {
                let mut out = chars_of("FM update available: ");
                if !self.tag.as_str().is_empty() {
                    push_text(&mut out, self.tag.as_str());
                    push_text(&mut out, " \u{2192} ");
                }
                push_text(&mut out, remote.as_str());
                UpdateLine::Available(text_of(out.as_slice()))
            },
        }
    }

    /// Takes in how far the installation is.
    pub fn note_progress(&mut self, p: Px)
        ensures
            final(self).progress == Some(p),
            final(self).tag == old(self).tag,
            final(self).pending == old(self).pending,
    {
        self.progress = Some(p);
    }

    /// Takes in how the installation ended: a new release is no longer an
    /// update; after a failure the update stays.
    pub fn finish_install(&mut self, result: Result<String, String>)
        ensures
            final(self).progress is None,
            match result {
                Ok(tag) => final(self).tag == tag && final(self).pending is None,
                Err(_) => final(self).tag == old(self).tag && final(self).pending == old(
                    self,
                ).pending,
            },
    {
        match result {
            Ok(tag) => {
                self.tag = tag;
                self.pending = None;
            },
            Err(_) => {},
        }
        self.progress = None;
    }
}

/// The line that names the directory of the configuration.
pub fn config_dir_line(dir: &str) -> (r: String)
    ensures
        r@ == "Config dir:  "@ + dir@,
{
    joined("Config dir:  ", dir)
}

/// The line that names the directory of the database.
pub fn fm_dir_line(dir: &str) -> (r: String)
    ensures
        r@ == "FM data dir: "@ + dir@,
{
    joined("FM data dir: ", dir)
}

/// What the user does in the window.
#[derive(Clone, Copy, Debug, PartialEq, Eq, Structural)]
pub enum SettingsClick {
    Exit,
    About,
    CloseAbout,
    Tab(SettingsTab),
    Install,
    AlwaysShow(bool),
    ShowWhenFocused(bool),
    Reload,
    OpenConfigFolder,
    OpenFmFolder,
    DismissError,
}

/// What is done about it outside of the window.
#[derive(Clone, Copy, Debug, PartialEq, Eq, Structural)]
pub enum SettingsEffect {
    Nothing,
    /// Start to install the update.
    Install,
    /// Save the settings.
    Save(AppConfig),
    /// Read the indicators and the settings again.
    Reload,
    OpenConfigFolder,
    OpenFmFolder,
}

/// The state of the window.
pub struct SettingsState {
    pub show_about: bool,
    pub exit_requested: bool,
    pub active_tab: SettingsTab,
    pub config: AppConfig,
    /// The error that is shown until it is dismissed.
    pub displayed_error: Option<String>,
}

impl SettingsState {
    /// The window as it opens.
    pub fn new(config: AppConfig) -> (r: Self)
        ensures
            !r.show_about,
            !r.exit_requested,
            r.active_tab == SettingsTab::Main,
            r.config == config,
            r.displayed_error is None,
    {
        SettingsState {
            show_about: false,
            exit_requested: false,
            active_tab: SettingsTab::Main,
            config,
            displayed_error: None,
        }
    }

    /// Takes in an error of the last reload, where there is a new one.
    pub fn latch_error(&mut self, new_error: Option<String>)
        ensures
            final(self).show_about == old(self).show_about,
            final(self).exit_requested == old(self).exit_requested,
            final(self).active_tab == old(self).active_tab,
            final(self).config == old(self).config,
            final(self).displayed_error == (match new_error {
                Some(e) => Some(e),
                None => old(self).displayed_error,
            }),
    {
        if new_error.is_some() {
            self.displayed_error = new_error;
        }
    }

    /// Takes in what the user does. An update is installed only where one is
    /// offered: there is one, and none is being installed.
    pub fn click(&mut self, c: SettingsClick, fm: &FmStatus) -> (e: SettingsEffect)
        ensures
            final(self).show_about == (match c {
                SettingsClick::About => true,
                SettingsClick::CloseAbout => false,
                _ => old(self).show_about,
            }),
            final(self).exit_requested == (old(self).exit_requested || c == SettingsClick::Exit),
            final(self).active_tab == (match c {
                SettingsClick::Tab(t) => t,
                _ => old(self).active_tab,
            }),
            final(self).displayed_error == (match c {
                SettingsClick::DismissError => None,
                _ => old(self).displayed_error,
            }),
            final(self).config == (match c {
                SettingsClick::AlwaysShow(v) => AppConfig { always_show: v, ..old(self).config },
                SettingsClick::ShowWhenFocused(v) => AppConfig {
                    show_when_byoh_foreground: v,
                    ..old(self).config
                },
                _ => old(self).config,
            }),
            e == (match c {
                SettingsClick::Install => if fm.offers_update() {
                    SettingsEffect::Install
                } else {
                    SettingsEffect::Nothing
                },
                SettingsClick::AlwaysShow(_) | SettingsClick::ShowWhenFocused(_) =>
                    SettingsEffect::Save(final(self).config),
                SettingsClick::Reload => SettingsEffect::Reload,
                SettingsClick::OpenConfigFolder => SettingsEffect::OpenConfigFolder,
                SettingsClick::OpenFmFolder => SettingsEffect::OpenFmFolder,
                _ => SettingsEffect::Nothing,
            }),
            clicked(*old(self), c, *fm, *final(self), e),
    {
        match c {
            SettingsClick::Exit => {
                self.exit_requested = true;
                SettingsEffect::Nothing
            },
            SettingsClick::About => {
                self.show_about = true;
                SettingsEffect::Nothing
            },
            SettingsClick::CloseAbout => {
                self.show_about = false;
                SettingsEffect::Nothing
            },
            SettingsClick::Tab(t) => {
                self.active_tab = t;
                SettingsEffect::Nothing
            },
            SettingsClick::Install => {
                if fm.progress.is_none() && fm.pending.is_some() {
                    SettingsEffect::Install
                } else {
                    SettingsEffect::Nothing
                }
            },
            SettingsClick::AlwaysShow(v) => {
                self.config.always_show = v;
                SettingsEffect::Save(self.config)
            },
            SettingsClick::ShowWhenFocused(v) => {
                self.config.show_when_byoh_foreground = v;
                SettingsEffect::Save(self.config)
            },
            SettingsClick::Reload => SettingsEffect::Reload,
            SettingsClick::OpenConfigFolder => SettingsEffect::OpenConfigFolder,
            SettingsClick::OpenFmFolder => SettingsEffect::OpenFmFolder,
            SettingsClick::DismissError => {
                self.displayed_error = None;
                SettingsEffect::Nothing
            },
        }
    }
}

/// What a click does to the settings window: `before` becomes `after`, and `e` is
/// done.
pub open spec fn clicked(
    before: SettingsState,
    c: SettingsClick,
    fm: FmStatus,
    after: SettingsState,
    e: SettingsEffect,
) -> bool {
    &&& after.exit_requested == (before.exit_requested || c == SettingsClick::Exit)
    &&& after.show_about == (if c == SettingsClick::About {
        true
    } else if c == SettingsClick::CloseAbout {
        false
    } else {
        before.show_about
    })
    &&& after.config.only_during_mission == before.config.only_during_mission
    &&& !(c is AlwaysShow) ==> after.config.always_show == before.config.always_show
    &&& !(c is ShowWhenFocused) ==> after.config.show_when_byoh_foreground
        == before.config.show_when_byoh_foreground
    &&& e == SettingsEffect::Install <==> c == SettingsClick::Install && fm.pending is Some
        && fm.progress is None
    &&& e is Save <==> c is AlwaysShow || c is ShowWhenFocused
    &&& e is Reload <==> c is Reload
}

/// An update is installed only on the click for it, while there is one and none
/// is being installed; the settings are saved exactly where one was changed, and
/// the window asks to exit only where the user does.
pub proof fn lemma_clicks(
    before: SettingsState,
    c: SettingsClick,
    fm: FmStatus,
    after: SettingsState,
    e: SettingsEffect,
)
    requires
        clicked(before, c, fm, after, e),
    ensures
        e == SettingsEffect::Install ==> c == SettingsClick::Install && fm.pending is Some
            && fm.progress is None,
        c == SettingsClick::Install && fm.pending is Some && fm.progress is None ==> e
            == SettingsEffect::Install,
        after.config != before.config ==> e is Save,
        after.exit_requested && !before.exit_requested ==> c == SettingsClick::Exit,
        e is Reload <==> c is Reload,
{
}

/// The window names the release, or says that there is none; it names the update
/// with the release that it replaces.
pub proof fn lemma_lines_name_releases(tag: Seq<char>, remote: Seq<char>)
    ensures
        tag.len() > 0 ==> fm_line(tag) == "FM database: "@ + tag,
        tag.len() == 0 ==> fm_line(tag) == "FM database: Unknown"@,
        tag.len() > 0 ==> available_text(tag, remote) == "FM update available: "@ + tag
            + " \u{2192} "@ + remote,
        tag.len() == 0 ==> available_text(tag, remote) == "FM update available: "@ + remote,
{
}

/// An installation shows the whole part of a hundred times its progress.
pub proof fn lemma_progress_in_percent(p: u32)
    requires
        ({
            let h: u32 = px_product(p, PERCENT);
            !px_negative(h) && !px_nan(h) && !px_infinite(h) && px_value(h) < 0x1_0000_0000 * pow2(149)
        }),
    ensures
        px_value(PERCENT) == 100 * pow2(149),
        exists|n: nat| #[trigger]
            decimal(n).len() >= 0 && n * pow2(149) <= px_value(px_product(p, PERCENT)) < (n + 1)
                * pow2(149) && installing_text(p) == "Installing FM update... "@ + decimal(n) + "%"@,
{
    lemma2_to64();
    lemma_px_whole_number(PERCENT, 100, 17);
    let h: u32 = px_product(p, PERCENT);
    lemma_px_truncated(h);
    assert(decimal(px_truncated(h)).len() >= 0);
}

} // verus!
