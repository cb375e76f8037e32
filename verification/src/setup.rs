//! The first-run setup: what is missing, and what the user does about it.
use vstd::prelude::*;

use crate::paths::SetupNeeds;

verus! {

/// The download of the flight-model database.
#[derive(Debug)]
pub enum DownloadStatus {
    Idle,
    InProgress,
    Done,
    Failed(String),
}

/// What is shown of the database.
#[derive(Debug)]
pub enum FmSection {
    /// Nothing: it was never missing.
    Hidden,
    Ready,
    /// That it is missing, and a way to download it.
    Offer,
    Busy,
    /// Why the download failed, and a way to try again.
    Failed(String),
}

/// What is shown of the configuration.
#[derive(Debug, Clone, Copy, PartialEq, Eq, Structural)]
pub enum ConfigSection {
    /// Nothing: it was never missing.
    Hidden,
    Ready,
    /// That it is missing, and a way to use the example.
    Offer,
    /// That it is missing and that there is no example.
    Missing,
}

/// What the user asks for.
#[derive(Debug, Clone, Copy, PartialEq, Eq, Structural)]
pub enum SetupClick {
    Download,
    Retry,
    UseExample,
    Start,
    Exit,
}

/// What is done about it outside of the setup.
#[derive(Debug, Clone, Copy, PartialEq, Eq, Structural)]
pub enum SetupEffect {
    Nothing,
    StartDownload,
    SeedConfig,
}

/// The state of the setup.
pub struct SetupWizard {
    /// The database was missing.
    pub needs_fm: bool,
    /// The configuration was missing.
    pub needs_config: bool,
    /// There is an example for the configuration.
    pub has_example: bool,
    pub fm_done: bool,
    pub config_done: bool,
    pub download: DownloadStatus,
    /// The overlay is to start.
    pub done: bool,
    pub exit_requested: bool,
}

impl SetupWizard {
    /// A setup for what is missing. A configuration that is missing without an
    /// example to make it of keeps nobody waiting.
    pub fn new(needs: SetupNeeds) -> (r: Self)
        ensures
            r.needs_fm == needs.needs_fm,
            r.needs_config == needs.needs_config,
            r.has_example == needs.has_example,
            r.fm_done == !needs.needs_fm,
            r.config_done == (!needs.needs_config || !needs.has_example),
            r.download is Idle,
            !r.done,
            !r.exit_requested,
    {
        SetupWizard {
            needs_fm: needs.needs_fm,
            needs_config: needs.needs_config,
            has_example: needs.has_example,
            fm_done: !needs.needs_fm,
            config_done: !needs.needs_config || (!needs.has_example && needs.needs_config),
            download: DownloadStatus::Idle,
            done: false,
            exit_requested: false,
        }
    }

    /// Whether nothing but the download and the database differs.
    pub open spec fn same_but_fm(self, other: Self) -> bool {
        &&& self.needs_fm == other.needs_fm
        &&& self.needs_config == other.needs_config
        &&& self.has_example == other.has_example
        &&& self.config_done == other.config_done
        &&& self.done == other.done
        &&& self.exit_requested == other.exit_requested
    }

    /// Takes in how the download stands; one that is done supplies the
    /// database.
    pub fn poll(&mut self, status: DownloadStatus)
        ensures
            final(self).same_but_fm(*old(self)),
            final(self).download == status,
            final(self).fm_done == (old(self).fm_done || status is Done),
    {
        let finished: bool = match &status {
            DownloadStatus::Done => true,
            _ => false,
        };
        self.download = status;
        if finished {
            self.fm_done = true;
        }
    }

    /// Whether the overlay can start.
    pub fn all_done(&self) -> (r: bool)
        ensures
            r == (self.fm_done && self.config_done),
    {
        self.fm_done && self.config_done
    }

    /// What is shown of the database.
    pub fn fm_section(&self) -> (r: FmSection)
        ensures
            if !self.needs_fm {
                r is Hidden
            } else if self.fm_done {
                r is Ready
            } else {
                match self.download {
                    DownloadStatus::Idle => r is Offer,
                    DownloadStatus::InProgress => r is Busy,
                    DownloadStatus::Done => r is Ready,
                    DownloadStatus::Failed(m) => r matches FmSection::Failed(t) && t@ == m@,
                }
            },
    {
        if !self.needs_fm {
            return FmSection::Hidden;
        }
        if self.fm_done {
            return FmSection::Ready;
        }
        match &self.download {
            DownloadStatus::Idle => FmSection::Offer,
            DownloadStatus::InProgress => FmSection::Busy,
            DownloadStatus::Done => FmSection::Ready,
            DownloadStatus::Failed(m) => FmSection::Failed(m.clone()),
        }
    }

    /// What is shown of the configuration.
    pub fn config_section(&self) -> (r: ConfigSection)
        ensures
            r == (if !self.needs_config {
                ConfigSection::Hidden
            } else if self.config_done {
                ConfigSection::Ready
            } else if self.has_example {
                ConfigSection::Offer
            } else {
                ConfigSection::Missing
            }),
    {
        if !self.needs_config {
            ConfigSection::Hidden
        } else if self.config_done {
            ConfigSection::Ready
        } else if self.has_example {
            ConfigSection::Offer
        } else {
            ConfigSection::Missing
        }
    }

    /// Takes in what the user asks for. A download that runs is not started
    /// again.
    pub fn click(&mut self, c: SetupClick) -> (e: SetupEffect)
        ensures
            final(self).needs_fm == old(self).needs_fm,
            final(self).needs_config == old(self).needs_config,
            final(self).has_example == old(self).has_example,
            final(self).fm_done == old(self).fm_done,
            final(self).config_done == old(self).config_done,
            final(self).done == (old(self).done || c == SetupClick::Start),
            final(self).exit_requested == (old(self).exit_requested || c == SetupClick::Exit),
            match c {
                SetupClick::Download | SetupClick::Retry => if old(self).download is InProgress {
                    e == SetupEffect::Nothing && final(self).download is InProgress
                } else {
                    e == SetupEffect::StartDownload && final(self).download is InProgress
                },
                SetupClick::UseExample => e == SetupEffect::SeedConfig && final(self).download
                    == old(self).download,
                _ => e == SetupEffect::Nothing && final(self).download == old(self).download,
            },
            stepped(*old(self), c, *final(self), e),
    {
        match c {
            SetupClick::Download => self.start_download(),
            SetupClick::Retry => self.start_download(),
            SetupClick::UseExample => SetupEffect::SeedConfig,
            SetupClick::Start => {
                self.done = true;
                SetupEffect::Nothing
            },
            SetupClick::Exit => {
                self.exit_requested = true;
                SetupEffect::Nothing
            },
        }
    }

    /// Starts the download unless it runs.
    fn start_download(&mut self) -> (e: SetupEffect)
        ensures
            final(self).same_but_fm(*old(self)),
            final(self).fm_done == old(self).fm_done,
            final(self).download is InProgress,
            e == (if old(self).download is InProgress {
                SetupEffect::Nothing
            } else {
                SetupEffect::StartDownload
            }),
    {
        match &self.download {
            DownloadStatus::InProgress => SetupEffect::Nothing,
            _ => {
                self.download = DownloadStatus::InProgress;
                SetupEffect::StartDownload
            },
        }
    }

    /// Takes in whether the configuration was made of the example.
    pub fn seeded(&mut self, ok: bool)
        ensures
            final(self).needs_fm == old(self).needs_fm,
            final(self).needs_config == old(self).needs_config,
            final(self).has_example == old(self).has_example,
            final(self).fm_done == old(self).fm_done,
            final(self).download == old(self).download,
            final(self).done == old(self).done,
            final(self).exit_requested == old(self).exit_requested,
            final(self).config_done == (old(self).config_done || ok),
    {
        if ok {
            self.config_done = true;
        }
    }
}

/// A setup without anything missing can start at once, and one where the only
/// thing missing is a configuration without an example can, too.
pub proof fn lemma_setup_never_stuck(w: SetupWizard, needs: SetupNeeds)
    requires
        w.fm_done == !needs.needs_fm,
        w.config_done == (!needs.needs_config || !needs.has_example),
    ensures
        !needs.needs_fm && !needs.needs_config ==> w.fm_done && w.config_done,
        !needs.needs_fm && !needs.has_example ==> w.fm_done && w.config_done,
{
}

/// Whether a click takes the setup from `before` to `after` with the effect `e`.
pub open spec fn stepped(
    before: SetupWizard,
    c: SetupClick,
    after: SetupWizard,
    e: SetupEffect,
) -> bool {
    &&& after.done == (before.done || c == SetupClick::Start)
    &&& after.exit_requested == (before.exit_requested || c == SetupClick::Exit)
    &&& after.fm_done == before.fm_done
    &&& after.config_done == before.config_done
    &&& e == SetupEffect::StartDownload <==> (c == SetupClick::Download || c
        == SetupClick::Retry) && !(before.download is InProgress)
    &&& e == SetupEffect::SeedConfig <==> c == SetupClick::UseExample
}

/// A download is started only by a click for it, and never beside one that runs;
/// no click alone completes the setup, and only the one to start ends it.
pub proof fn lemma_setup_clicks(
    before: SetupWizard,
    c: SetupClick,
    after: SetupWizard,
    e: SetupEffect,
)
    requires
        stepped(before, c, after, e),
    ensures
        e == SetupEffect::StartDownload ==> !(before.download is InProgress) && (c
            == SetupClick::Download || c == SetupClick::Retry),
        (c == SetupClick::Download || c == SetupClick::Retry) && !(before.download is InProgress)
            ==> e == SetupEffect::StartDownload,
        after.fm_done == before.fm_done,
        after.config_done == before.config_done,
        after.done && !before.done ==> c == SetupClick::Start,
        after.exit_requested && !before.exit_requested ==> c == SetupClick::Exit,
{
}

} // verus!
