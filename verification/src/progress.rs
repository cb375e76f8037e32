//! The course of an installation: what it reports of its progress, and what it
//! comes to.
use vstd::prelude::*;

use crate::install::{download_progress, download_share, extract_progress, extract_share, install_result, lemma_download_progress, lemma_extract_progress, outcome, EXTRACT_START, ONE_WHOLE};
use crate::single::{px_less, px_nan, Px};

verus! {

/// Where an installation is.
#[derive(Clone, Copy, PartialEq, Eq, Structural)]
pub enum Stage {
    Downloading,
    Extracting,
}

/// An installation that runs.
pub struct InstallRun {
    /// The release that is installed.
    pub tag: String,
    pub stage: Stage,
    /// The length of the download, or zero where it is not known.
    pub length: u64,
    /// How much of it has come in.
    pub got: u64,
    /// The number of entries of the archive.
    pub total: u64,
    /// The entry that was last written.
    pub latest: Option<u64>,
    /// What went wrong with each thing that was tried.
    pub faults: Vec<Option<String>>,
    /// The progress that was reported.
    pub reported: Ghost<Seq<u32>>,
    /// How much of it while downloading.
    pub early: Ghost<nat>,
}

/// Whether `ps` is the progress of one installation: it begins with 0, stays
/// between 0 and 1 and never goes back; the first `early` are below 0.9, the
/// others are not.
pub open spec fn orderly(ps: Seq<u32>, early: nat) -> bool {
    &&& 0 < early <= ps.len()
    &&& ps[0] == 0
    &&& forall|i: int|
        0 <= i < ps.len() ==> !px_nan(#[trigger] ps[i]) && !px_less(ps[i], 0) && !px_less(
            ONE_WHOLE,
            ps[i],
        )
    &&& forall|i: int, j: int|
        0 <= i <= j < ps.len() ==> !px_less(#[trigger] ps[j], #[trigger] ps[i])
    &&& forall|i: int| 0 <= i < early ==> px_less(#[trigger] ps[i], EXTRACT_START)
    &&& forall|i: int| early <= i < ps.len() ==> !px_less(#[trigger] ps[i], EXTRACT_START)
}

/// The same of the patterns, which are ordered as the numbers are.
spec fn counted(ps: Seq<u32>, early: nat) -> bool {
    &&& 0 < early <= ps.len()
    &&& ps[0] == 0
    &&& forall|i: int| 0 <= i < ps.len() ==> #[trigger] ps[i] <= ONE_WHOLE
    &&& forall|i: int, j: int| 0 <= i <= j < ps.len() ==> #[trigger] ps[i] <= #[trigger] ps[j]
    &&& forall|i: int| 0 <= i < early ==> #[trigger] ps[i] < EXTRACT_START
    &&& forall|i: int| early <= i < ps.len() ==> #[trigger] ps[i] >= EXTRACT_START
}

/// `ps` with one more report, where there is one.
pub open spec fn with_report(ps: Seq<u32>, p: Option<Px>) -> Seq<u32> {
    match p {
        Some(p) => ps.push(p.bits),
        None => ps,
    }
}

/// `a + b`, as far as it fits.
pub open spec fn sum_within(a: u64, b: u64) -> u64 {
    if a + b > u64::MAX {
        u64::MAX
    } else {
        (a + b) as u64
    }
}

impl InstallRun {
    /// Whether the progress so far is that of an installation at this stage.
    pub closed spec fn in_order(self) -> bool {
        let ps = self.reported@;
        &&& counted(ps, self.early@)
        &&& match self.stage {
            Stage::Downloading => {
                &&& self.early@ == ps.len()
                &&& ps.last() <= if self.length == 0 {
                    0
                } else {
                    download_share(self.got as nat, self.length as nat)
                }
                &&& self.latest is None
            },
            Stage::Extracting => ps.last() == match self.latest {
                Some(i) => extract_share(i as nat, self.total as nat),
                None => EXTRACT_START,
            },
        }
    }

    /// Whether nothing but the progress differs.
    pub open spec fn same_course(self, other: InstallRun) -> bool {
        self.tag == other.tag && self.faults == other.faults
    }

    /// An installation of the release `tag`, and its first report.
    pub fn begin(tag: String) -> (r: (InstallRun, Px))
        ensures
            r.0.in_order(),
            r.0.tag == tag,
            r.0.stage == Stage::Downloading,
            r.0.length == 0,
            r.0.got == 0,
            r.0.faults@.len() == 0,
            r.0.reported@ == seq![0u32],
            r.1.bits == 0,
    {
        let ghost first: Seq<u32> = seq![0u32];
        let run = InstallRun {
            tag,
            stage: Stage::Downloading,
            length: 0,
            got: 0,
            total: 0,
            latest: None,
            faults: Vec::new(),
            reported: Ghost(first),
            early: Ghost(1),
        };
        (run, Px { bits: 0 })
    }

    /// Takes in the length of the download, while nothing has come in.
    pub fn set_length(&mut self, length: u64)
        requires
            old(self).in_order(),
        ensures
            final(self).in_order(),
            final(self).same_course(*old(self)),
            final(self).stage == old(self).stage,
            final(self).got == old(self).got,
            final(self).total == old(self).total,
            final(self).latest == old(self).latest,
            final(self).reported == old(self).reported,
            final(self).length == if old(self).got == 0 && old(self).length == 0 {
                length
            } else {
                old(self).length
            },
    {
        if self.got == 0 && self.length == 0 {
            self.length = length;
        }
    }

    /// Takes in that `n` more bytes have come in, and reports how far the
    /// download is, where its length is known.
    pub fn received(&mut self, n: u64) -> (p: Option<Px>)
        requires
            old(self).in_order(),
        ensures
            final(self).in_order(),
            final(self).same_course(*old(self)),
            final(self).stage == old(self).stage,
            final(self).length == old(self).length,
            final(self).total == old(self).total,
            final(self).latest == old(self).latest,
            final(self).reported@ == with_report(old(self).reported@, p),
            match old(self).stage {
                Stage::Downloading => {
                    let got = sum_within(old(self).got, n);
                    &&& final(self).got == got
                    &&& p is Some == (old(self).length > 0)
                    &&& p matches Some(x) ==> x.bits == download_share(
                        got as nat,
                        old(self).length as nat,
                    )
                },
                Stage::Extracting => p is None && final(self).got == old(self).got,
            },
    {
        if self.stage == Stage::Extracting {
            return None;
        }
        let before: u64 = self.got;
        let got: u64 = if before > u64::MAX - n {
            u64::MAX
        } else {
            before + n
        };
        let p = download_progress(got, self.length);
        proof {
            if self.length > 0 {
                lemma_download_progress(before, got, self.length);
                lemma_download_progress(got, got, self.length);
                lemma_download_bits(before, self.length);
                lemma_download_bits(got, self.length);
                lemma_counted(self.reported@, self.early@, (p->0).bits);
            }
        }
        self.got = got;
        if let Some(x) = p {
            self.reported = Ghost(self.reported@.push(x.bits));
            self.early = Ghost(self.early@ + 1);
        }
        p
    }

    /// Takes in that the download is complete, and reports it.
    pub fn downloaded(&mut self) -> (p: Option<Px>)
        requires
            old(self).in_order(),
        ensures
            final(self).in_order(),
            final(self).same_course(*old(self)),
            final(self).stage == Stage::Extracting,
            final(self).reported@ == with_report(old(self).reported@, p),
            match old(self).stage {
                Stage::Downloading => p == Some(Px { bits: EXTRACT_START }) && final(self).total == 0
                    && final(self).latest is None,
                Stage::Extracting => p is None && *final(self) == *old(self),
            },
    {
        if self.stage == Stage::Extracting {
            return None;
        }
        proof {
            if self.length > 0 {
                lemma_download_progress(self.got, self.got, self.length);
                lemma_download_bits(self.got, self.length);
            }
            lemma_counted(self.reported@, self.early@, EXTRACT_START);
        }
        self.stage = Stage::Extracting;
        self.total = 0;
        self.latest = None;
        self.reported = Ghost(self.reported@.push(EXTRACT_START));
        Some(Px { bits: EXTRACT_START })
    }

    /// Takes in the number of entries of the archive, while none is written.
    pub fn set_total(&mut self, total: u64)
        requires
            old(self).in_order(),
        ensures
            final(self).in_order(),
            final(self).same_course(*old(self)),
            final(self).stage == old(self).stage,
            final(self).length == old(self).length,
            final(self).got == old(self).got,
            final(self).latest == old(self).latest,
            final(self).reported == old(self).reported,
            final(self).total == if old(self).latest is None {
                total
            } else {
                old(self).total
            },
    {
        if self.latest.is_none() {
            self.total = total;
        }
    }

    /// Takes in that the entry `index` was written, and reports how far the
    /// extraction is. Nothing is reported of an entry before one that was.
    pub fn written(&mut self, index: u64) -> (p: Option<Px>)
        requires
            old(self).in_order(),
        ensures
            final(self).in_order(),
            final(self).same_course(*old(self)),
            final(self).stage == old(self).stage,
            final(self).length == old(self).length,
            final(self).got == old(self).got,
            final(self).total == old(self).total,
            final(self).reported@ == with_report(old(self).reported@, p),
            p is Some == (old(self).stage == Stage::Extracting && (old(self).latest is None || old(self).latest->0 <= index)),
            match p {
                Some(x) => x.bits == extract_share(index as nat, old(self).total as nat) && final(self).latest == Some(index),
                None => final(self).latest == old(self).latest,
            },
    {
        if self.stage == Stage::Downloading {
            return None;
        }
        let from: u64 = match self.latest {
            Some(i) => {
                if index < i {
                    return None;
                }
                i
            },
            None => index,
        };
        let p = extract_progress(index, self.total);
        proof {
            lemma_extract_progress(from, index, self.total);
            lemma_extract_progress(index, index, self.total);
            lemma_extract_bits(from, self.total);
            lemma_extract_bits(index, self.total);
            lemma_counted(self.reported@, self.early@, p.bits);
        }
        self.latest = Some(index);
        self.reported = Ghost(self.reported@.push(p.bits));
        Some(p)
    }

    /// Takes in what went wrong with one thing that was tried, if anything.
    pub fn note(&mut self, fault: Option<String>)
        requires
            old(self).in_order(),
        ensures
            final(self).in_order(),
            final(self).tag == old(self).tag,
            final(self).stage == old(self).stage,
            final(self).length == old(self).length,
            final(self).got == old(self).got,
            final(self).total == old(self).total,
            final(self).latest == old(self).latest,
            final(self).reported == old(self).reported,
            final(self).faults@ == old(self).faults@.push(fault),
    {
        self.faults.push(fault);
    }

    /// The last report and what the installation comes to. The whole is
    /// reported exactly where nothing went wrong.
    pub fn finish(self) -> (r: (Option<Px>, Result<String, String>))
        requires
            self.in_order(),
        ensures
            match outcome(self.tag@, self.faults@) {
                Ok(t) => r.1 matches Ok(tag) && tag@ == t && t == self.tag@,
                Err(m) => r.1 matches Err(e) && e@ == m,
            },
            r.1 is Ok <==> forall|i: int|
                0 <= i < self.faults@.len() ==> (#[trigger] self.faults@[i]) is None,
            r.0 == if r.1 is Ok {
                Some(Px { bits: ONE_WHOLE })
            } else {
                None
            },
            ({
                let ps = with_report(self.reported@, r.0);
                &&& orderly(ps, self.early@)
                &&& r.1 is Ok ==> ps.last() == ONE_WHOLE
                &&& ps.contains(ONE_WHOLE) <==> r.1 is Ok
            }),
    {
        let result = install_result(self.tag.as_str(), &self.faults);
        proof {
            self.lemma_reports();
        }
        if result.is_ok() {
            proof {
                let ps = self.reported@;
                lemma_counted(ps, self.early@, ONE_WHOLE);
                lemma_orderly(ps.push(ONE_WHOLE), self.early@);
                assert(ps.push(ONE_WHOLE)[ps.len() as int] == ONE_WHOLE);
            }
            (Some(Px { bits: ONE_WHOLE }), result)
        } else {
            (None, result)
        }
    }

    /// What an installation has reported before it is finished, or where it is
    /// given up, is orderly, and the whole is not among it.
    pub proof fn lemma_reports(self)
        requires
            self.in_order(),
        ensures
            orderly(self.reported@, self.early@),
            !self.reported@.contains(ONE_WHOLE),
    {
        let ps = self.reported@;
        lemma_orderly(ps, self.early@);
        match self.stage {
            Stage::Downloading => {
                assert(ps.last() < EXTRACT_START);
            },
            Stage::Extracting => {
                if self.latest is Some {
                    lemma_extract_progress(self.latest->0, self.latest->0, self.total);
                    lemma_extract_bits(self.latest->0, self.total);
                }
            },
        }
        assert forall|i: int| 0 <= i < ps.len() implies #[trigger] ps[i] != ONE_WHOLE by {
            assert(ps[i] <= ps[ps.len() - 1]);
        }
    }
}

/// Patterns between those of 0 and 1 are ordered as the numbers are.
proof fn lemma_orderly(ps: Seq<u32>, early: nat)
    requires
        counted(ps, early),
    ensures
        orderly(ps, early),
{
    assert forall|i: int, j: int| 0 <= i <= j < ps.len() implies !px_less(
        #[trigger] ps[j],
        #[trigger] ps[i],
    ) by {
        assert(ps[i] <= ps[j]);
        assert(ps[j] <= ONE_WHOLE);
    }
    assert forall|i: int| 0 <= i < early implies px_less(#[trigger] ps[i], EXTRACT_START) by {
        assert(ps[i] <= ONE_WHOLE);
    }
    assert forall|i: int| early <= i < ps.len() implies !px_less(
        #[trigger] ps[i],
        EXTRACT_START,
    ) by {
        assert(ps[i] <= ONE_WHOLE);
    }
}

/// A report that does not go back keeps the count.
proof fn lemma_counted(ps: Seq<u32>, early: nat, p: u32)
    requires
        counted(ps, early),
        ps.last() <= p <= ONE_WHOLE,
        p < EXTRACT_START ==> early == ps.len(),
    ensures
        counted(
            ps.push(p),
            if p < EXTRACT_START {
                early + 1
            } else {
                early
            },
        ),
{
    let qs = ps.push(p);
    let n = ps.len() - 1;
    assert forall|i: int, j: int| 0 <= i <= j < qs.len() implies #[trigger] qs[i]
        <= #[trigger] qs[j] by {
        if j < ps.len() {
            assert(ps[i] <= ps[j]);
        } else if i < ps.len() {
            assert(ps[i] <= ps[n]);
        }
    }
}

/// The pattern of the progress of a download.
proof fn lemma_download_bits(got: u64, length: u64)
    requires
        length > 0,
    ensures
        download_share(got as nat, length as nat) < EXTRACT_START,
{
    lemma_download_progress(got, got, length);
}

/// The pattern of the progress of an extraction.
proof fn lemma_extract_bits(i: u64, n: u64)
    ensures
        EXTRACT_START <= extract_share(i as nat, n as nat) < ONE_WHOLE,
{
    lemma_extract_progress(i, i, n);
}

} // verus!
