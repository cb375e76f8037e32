//! Installing the flight-model database from its archive.
//!
//! The archive is read by the `zip` crate; what of it is written where is
//! decided here.
use vstd::prelude::*;
use vstd::slice::slice_subrange;

use crate::arith::{product, quotient, whole};
use crate::fm_update::{parse_quad, quad_of};
use crate::num::Num;
use crate::rounding::{lemma_narrowed_grows, lemma_product_grows, lemma_px_added_grows, lemma_px_product_grows, lemma_px_quotient_grows, lemma_px_sum_grows, lemma_px_whole_grows, lemma_quotient_grows, lemma_whole_grows};
use crate::single::{narrowed, px_less, px_nan, px_product, px_quotient, px_rank, px_smaller, px_sum, px_whole, Px};
use crate::text::{begins, chars_of, contains, copy_text, occurs, pieces, stands_at, starts_with, text_of};

verus! {

/// The number of entries of an archive, where the bytes are one.
pub uninterp spec fn archive_count(bytes: Seq<u8>) -> Option<usize>;

/// The name of an entry, where the entry can be opened.
pub uninterp spec fn archive_name(bytes: Seq<u8>, i: nat) -> Option<Seq<char>>;

/// The contents of an entry, where they can be read.
pub uninterp spec fn archive_data(bytes: Seq<u8>, i: nat) -> Option<Seq<u8>>;

/// `ZipArchive::new` opens an archive, and `ZipArchive::len` counts its entries.
/// What an error says is not stated.
#[verifier::external_body]
fn count_entries(bytes: &Vec<u8>) -> (r: Result<usize, String>)
    ensures
        match r {
            Ok(n) => archive_count(bytes@) == Some(n),
            Err(_) => archive_count(bytes@) is None,
        },
{
    match zip::ZipArchive::new(std::io::Cursor::new(bytes.as_slice())) {
        Ok(archive) => Ok(archive.len()),
        Err(e) => Err(e.to_string()),
    }
}

/// How deep a path leads below the directory that it starts from, part by part;
/// nothing where it leads out of it.
pub open spec fn depth(parts: Seq<Seq<char>>) -> Option<nat>
    decreases parts.len(),
{
    if parts.len() == 0 {
        Some(0)
    } else {
        match depth(parts.drop_last()) {
            None => None,
            Some(d) => if parts.last() == ".."@ {
                if d == 0 {
                    None
                } else {
                    Some((d - 1) as nat)
                }
            } else if parts.last() == ""@ || parts.last() == "."@ {
                Some(d)
            } else {
                Some(d + 1)
            },
        }
    }
}

/// Whether a name never leads out of the directory that it is joined to.
pub open spec fn encloses(name: Seq<char>) -> bool {
    &&& !name.contains('\0')
    &&& !begins(name, "/"@)
    &&& depth(pieces(name, '/')) is Some
}

/// Whether a name means the same path on every machine: slashes alone separate
/// its parts, and no drive is named.
pub open spec fn plain_path(name: Seq<char>) -> bool {
    !name.contains('\\') && !name.contains(':')
}

/// `ZipArchive::by_index` opens an entry and `ZipFile::name` gives its name.
/// `ZipFile::enclosed_name` says whether the name stays within a directory; of a
/// name with backslashes or colons, which depends on how paths are written on
/// the machine, nothing is stated.
#[verifier::external_body]
fn open_entry(bytes: &Vec<u8>, i: usize) -> (r: Option<(String, bool)>)
    ensures
        match r {
            Some((name, inside)) => archive_name(bytes@, i as nat) == Some(name@) && (plain_path(
                name@,
            ) ==> inside == encloses(name@)),
            None => archive_name(bytes@, i as nat) is None,
        },
{
    let mut archive = zip::ZipArchive::new(std::io::Cursor::new(bytes.as_slice())).ok()?;
    let entry = archive.by_index(i).ok()?;
    Some((entry.name().to_string(), entry.enclosed_name().is_some()))
}

/// Reading a `ZipFile` to its end gives the contents of the entry.
#[verifier::external_body]
fn read_entry(bytes: &Vec<u8>, i: usize) -> (r: Option<Vec<u8>>)
    ensures
        match r {
            Some(data) => archive_data(bytes@, i as nat) == Some(data@),
            None => archive_data(bytes@, i as nat) is None,
        },
{
    let mut archive = zip::ZipArchive::new(std::io::Cursor::new(bytes.as_slice())).ok()?;
    let mut entry = archive.by_index(i).ok()?;
    let mut out = Vec::new();
    std::io::Read::read_to_end(&mut entry, &mut out).ok()?;
    Some(out)
}

/// Whether the name of an entry is that of a directory.
pub open spec fn names_directory(name: Seq<char>) -> bool {
    name.len() > 0 && (name.last() == '/' || name.last() == '\\')
}

/// `s` without every `./` at its front.
pub open spec fn without_here(s: Seq<char>) -> Seq<char>
    decreases s.len(),
{
    if begins(s, "./"@) && s.len() >= 2 {
        without_here(s.skip(2))
    } else {
        s
    }
}

/// Whether a path stays within the directory that it is joined to.
pub open spec fn stays_inside(path: Seq<char>) -> bool {
    path.len() > 0 && !begins(path, "/"@) && !occurs(path, ".."@)
}

/// One thing to write.
pub struct Step {
    /// The place of the entry in the archive.
    pub index: usize,
    pub path: String,
    pub directory: bool,
    /// The contents of a file, where they can be read.
    pub data: Option<Vec<u8>>,
}

/// The contents of a step.
pub struct StepView {
    pub index: nat,
    pub path: Seq<char>,
    pub directory: bool,
    pub data: Option<Seq<u8>>,
}

impl View for Step {
    type V = StepView;

    open spec fn view(&self) -> StepView {
        StepView {
            index: self.index as nat,
            path: self.path@,
            directory: self.directory,
            data: match self.data {
                Some(d) => Some(d@),
                None => None,
            },
        }
    }
}

/// The contents of steps.
pub open spec fn step_views(v: Seq<Step>) -> Seq<StepView> {
    v.map_values(|s: Step| s@)
}

/// The step that writes entry `i`, named `name`, to `path`.
pub open spec fn step_of(bytes: Seq<u8>, i: nat, name: Seq<char>, path: Seq<char>) -> StepView {
    StepView {
        index: i,
        path,
        directory: names_directory(name),
        data: if names_directory(name) {
            None
        } else {
            archive_data(bytes, i)
        },
    }
}

/// The steps of an installation from the first `n` entries: entries that cannot
/// be opened and those whose path leaves the directory are passed over.
pub open spec fn install_steps(bytes: Seq<u8>, n: nat) -> Seq<StepView>
    decreases n,
{
    if n == 0 {
        seq![]
    } else {
        let front: Seq<StepView> = install_steps(bytes, (n - 1) as nat);
        match archive_name(bytes, (n - 1) as nat) {
            None => front,
            Some(name) => if stays_inside(without_here(name)) {
                front.push(step_of(bytes, (n - 1) as nat, name, without_here(name)))
            } else {
                front
            },
        }
    }
}

/// `name` without every `./` at its front.
fn strip_here(name: &str) -> (r: Vec<char>)
    ensures
        r@ == without_here(name@),
{
    let cs = chars_of(name);
    let s: &[char] = cs.as_slice();
    let dot = chars_of("./");
    proof {
        reveal_strlit("./");
        assert("./"@.len() == 2);
        assert(s@.skip(0) =~= s@);
    }
    let mut i: usize = 0;
    while stands_at(s, dot.as_slice(), i)
        invariant
            i <= s.len(),
            dot@ == "./"@,
            "./"@.len() == 2,
            without_here(s@) == without_here(s@.skip(i as int)),
        decreases s.len() - i,
    {
        proof {
            let rest = s@.skip(i as int);
            assert(rest.subrange(0, 2) =~= s@.subrange(i as int, i + 2));
            assert(rest.skip(2) =~= s@.skip(i + 2));
            assert(begins(rest, "./"@));
        }
        i = i + 2;
    }
    proof {
        let rest = s@.skip(i as int);
        if begins(rest, "./"@) && rest.len() >= 2 {
            assert(rest.subrange(0, 2) =~= s@.subrange(i as int, i + 2));
        }
    }
    let kept: &[char] = slice_subrange(s, i, s.len());
    proof {
        assert(kept@ =~= s@.skip(i as int));
    }
    crate::text::copy_chars(kept)
}

/// Whether the name of an entry is that of a directory.
fn is_directory_name(name: &str) -> (r: bool)
    ensures
        r == names_directory(name@),
{
    let cs = chars_of(name);
    let n: usize = cs.len();
    n > 0 && (cs[n - 1] == '/' || cs[n - 1] == '\\')
}

/// The step that writes entry `i` to `path`.
fn make_step(bytes: &Vec<u8>, i: usize, name: &str, path: String) -> (r: Step)
    ensures
        r@ == step_of(bytes@, i as nat, name@, path@),
{
    if is_directory_name(name) {
        Step { index: i, path, directory: true, data: None }
    } else {
        let data = read_entry(bytes, i);
        Step { index: i, path, directory: false, data }
    }
}

/// The steps of an installation.
pub struct InstallPlan {
    pub steps: Vec<Step>,
    /// The number of entries of the archive.
    pub total: usize,
    /// The entries that could not be opened; the others are installed.
    pub unopened: Vec<usize>,
}

/// Which of the first `n` entries cannot be opened.
pub open spec fn unopened_entries(bytes: Seq<u8>, n: nat) -> Seq<usize>
    decreases n,
{
    if n == 0 {
        seq![]
    } else {
        let front: Seq<usize> = unopened_entries(bytes, (n - 1) as nat);
        if archive_name(bytes, (n - 1) as nat) is None {
            front.push((n - 1) as usize)
        } else {
            front
        }
    }
}

/// What of an archive is written where, below the directory of the database.
pub fn install_fm_update(bytes: &Vec<u8>) -> (r: Result<InstallPlan, String>)
    ensures
        match archive_count(bytes@) {
            Some(n) => r matches Ok(plan) && plan.total == n && step_views(plan.steps@)
                == install_steps(bytes@, n as nat) && plan.unopened@ == unopened_entries(
                bytes@,
                n as nat,
            ),
            None => r is Err,
        },
{
    let n: usize = match count_entries(bytes) {
        Ok(n) => n,
        Err(e) => {
            return Err(e);
        },
    };
    let mut steps: Vec<Step> = Vec::new();
    let mut unopened: Vec<usize> = Vec::new();
    let mut i: usize = 0;
    proof {
        assert(step_views(steps@) =~= seq![]);
    }
    while i < n
        invariant
            i <= n,
            step_views(steps@) == install_steps(bytes@, i as nat),
            unopened@ == unopened_entries(bytes@, i as nat),
        decreases n - i,
    {
        if let Some((name, _)) = open_entry(bytes, i) {
            let rel = strip_here(name.as_str());
            let s: &[char] = rel.as_slice();
            if s.len() > 0 && !starts_with(s, "/") && !contains(s, "..") {
                let ghost before = step_views(steps@);
                let step = make_step(bytes, i, name.as_str(), text_of(s));
                steps.push(step);
                proof {
                    assert(step_views(steps@) =~= before.push(step@));
                }
            }
        } else {
            unopened.push(i);
        }
        i = i + 1;
    }
    Ok(InstallPlan { steps, total: n, unopened })
}

/// Nothing is ever written outside of the directory of the database.
pub proof fn lemma_install_stays_inside(bytes: Seq<u8>, n: nat)
    ensures
        forall|k: int|
            0 <= k < install_steps(bytes, n).len() ==> stays_inside(
                (#[trigger] install_steps(bytes, n)[k]).path,
            ),
    decreases n,
{
    if n > 0 {
        lemma_install_stays_inside(bytes, (n - 1) as nat);
    }
}

/// The entries are written in the order of the archive, each at most once.
pub proof fn lemma_install_in_order(bytes: Seq<u8>, n: nat)
    ensures
        forall|a: int, b: int|
            0 <= a < b < install_steps(bytes, n).len() ==> (#[trigger] install_steps(
                bytes,
                n,
            )[a]).index < (#[trigger] install_steps(bytes, n)[b]).index,
        forall|a: int|
            0 <= a < install_steps(bytes, n).len() ==> (#[trigger] install_steps(
                bytes,
                n,
            )[a]).index < n,
    decreases n,
{
    if n > 0 {
        lemma_install_in_order(bytes, (n - 1) as nat);
    }
}

/// The steps of a first download: what is written, and whether an entry behind
/// it could not be opened.
pub struct DownloadPlan {
    pub steps: Vec<Step>,
    /// The first entry that could not be opened; nothing behind it is written.
    pub failed: Option<usize>,
}

/// The steps of a first download from the first `n` entries, where `inside`
/// says which names stay within the directory.
pub open spec fn download_steps(bytes: Seq<u8>, inside: Seq<bool>, n: nat) -> Seq<StepView>
    decreases n,
{
    if n == 0 {
        seq![]
    } else {
        let front: Seq<StepView> = download_steps(bytes, inside, (n - 1) as nat);
        match archive_name(bytes, (n - 1) as nat) {
            None => front,
            Some(name) => if inside[n - 1] {
                front.push(step_of(bytes, (n - 1) as nat, name, name))
            } else {
                front
            },
        }
    }
}

/// Whether `inside` says of the names of the first entries whether they stay
/// within the directory, as far as that is the same on every machine.
pub open spec fn says_inside(bytes: Seq<u8>, inside: Seq<bool>) -> bool {
    forall|k: int|
        0 <= k < inside.len() && archive_name(bytes, k as nat) is Some && plain_path(
            archive_name(bytes, k as nat)->0,
        ) ==> #[trigger] inside[k] == encloses(archive_name(bytes, k as nat)->0)
}

/// Whether `steps` are the steps of a first download from the first `end`
/// entries, all of which can be opened.
pub open spec fn downloads(bytes: Seq<u8>, steps: Seq<StepView>, end: nat) -> bool {
    &&& forall|k: nat| k < end ==> #[trigger] archive_name(bytes, k) is Some
    &&& exists|inside: Seq<bool>|
        inside.len() == end && says_inside(bytes, inside) && steps == #[trigger] download_steps(
            bytes,
            inside,
            end,
        )
}

/// What of the archive of a first download is written where: the entries up to
/// the first that cannot be opened, as far as their names stay within the
/// directory.
pub fn download_fm_data(bytes: &Vec<u8>) -> (r: Result<DownloadPlan, String>)
    ensures
        match archive_count(bytes@) {
            None => r is Err,
            Some(n) => match r {
                Err(_) => false,
                Ok(plan) => match plan.failed {
                    Some(i) => i < n && archive_name(bytes@, i as nat) is None && downloads(
                        bytes@,
                        step_views(plan.steps@),
                        i as nat,
                    ),
                    None => downloads(bytes@, step_views(plan.steps@), n as nat),
                },
            },
        },
{
    let n: usize = match count_entries(bytes) {
        Ok(n) => n,
        Err(e) => {
            return Err(e);
        },
    };
    let mut steps: Vec<Step> = Vec::new();
    let ghost mut inside: Seq<bool> = seq![];
    let mut i: usize = 0;
    proof {
        assert(step_views(steps@) =~= seq![]);
    }
    while i < n
        invariant
            i <= n,
            archive_count(bytes@) == Some(n),
            inside.len() == i,
            says_inside(bytes@, inside),
            step_views(steps@) == download_steps(bytes@, inside, i as nat),
            forall|k: nat| k < i ==> #[trigger] archive_name(bytes@, k) is Some,
        decreases n - i,
    {
        match open_entry(bytes, i) {
            None => {
                proof {
                    assert(downloads(bytes@, step_views(steps@), i as nat));
                }
                return Ok(DownloadPlan { steps, failed: Some(i) });
            },
            Some((name, within)) => {
                proof {
                    lemma_download_prefix(bytes@, inside, inside.push(within), i as nat);
                    inside = inside.push(within);
                }
                if within {
                    let ghost before = step_views(steps@);
                    let step = make_step(bytes, i, name.as_str(), name.clone());
                    steps.push(step);
                    proof {
                        assert(step_views(steps@) =~= before.push(step@));
                    }
                }
            },
        }
        i = i + 1;
    }
    proof {
        assert(downloads(bytes@, step_views(steps@), n as nat));
    }
    Ok(DownloadPlan { steps, failed: None })
}

/// An entry with a plain name that stays within the directory is written, under
/// its name; one with a plain name that leads out of it is not.
pub proof fn lemma_download_writes(bytes: Seq<u8>, steps: Seq<StepView>, end: nat, i: nat)
    requires
        downloads(bytes, steps, end),
        i < end,
        plain_path(archive_name(bytes, i)->0),
    ensures
        (exists|k: int| 0 <= k < steps.len() && (#[trigger] steps[k]).index == i) <==> encloses(
            archive_name(bytes, i)->0,
        ),
        forall|k: int|
            0 <= k < steps.len() && (#[trigger] steps[k]).index == i ==> steps[k].path
                == archive_name(bytes, i)->0,
{
    let inside = choose|inside: Seq<bool>|
        inside.len() == end && says_inside(bytes, inside) && steps == #[trigger] download_steps(
            bytes,
            inside,
            end,
        );
    assert(archive_name(bytes, i) is Some);
    assert(inside[i as int] == encloses(archive_name(bytes, i)->0));
    lemma_download_has(bytes, inside, end, i);
}

/// Which entries are among the steps of a first download.
proof fn lemma_download_has(bytes: Seq<u8>, inside: Seq<bool>, n: nat, i: nat)
    requires
        n <= inside.len(),
    ensures
        ({
            let steps = download_steps(bytes, inside, n);
            &&& forall|k: int| 0 <= k < steps.len() ==> (#[trigger] steps[k]).index < n
            &&& (exists|k: int| 0 <= k < steps.len() && (#[trigger] steps[k]).index == i) <==> i
                < n && archive_name(bytes, i) is Some && inside[i as int]
            &&& forall|k: int|
                0 <= k < steps.len() && (#[trigger] steps[k]).index == i ==> archive_name(
                    bytes,
                    i,
                ) == Some(steps[k].path)
        }),
    decreases n,
{
    if n > 0 {
        let m = (n - 1) as nat;
        lemma_download_has(bytes, inside, m, i);
        let front = download_steps(bytes, inside, m);
        let steps = download_steps(bytes, inside, n);
        if archive_name(bytes, m) is Some && inside[m as int] {
            let name = archive_name(bytes, m)->0;
            assert(steps == front.push(step_of(bytes, m, name, name)));
            assert(steps[steps.len() - 1].index == m);
            assert forall|k: int| 0 <= k < front.len() implies #[trigger] steps[k] == front[k] by {}
            if exists|k: int| 0 <= k < front.len() && (#[trigger] front[k]).index == i {
                let k = choose|k: int| 0 <= k < front.len() && (#[trigger] front[k]).index == i;
                assert(steps[k].index == i);
            }
            if exists|k: int| 0 <= k < steps.len() && (#[trigger] steps[k]).index == i {
                let k = choose|k: int| 0 <= k < steps.len() && (#[trigger] steps[k]).index == i;
                if k < front.len() {
                    assert(front[k].index == i);
                }
            }
        }
    }
}

/// Later answers do not change earlier steps.
proof fn lemma_download_prefix(bytes: Seq<u8>, a: Seq<bool>, b: Seq<bool>, n: nat)
    requires
        n <= a.len(),
        n <= b.len(),
        forall|k: int| 0 <= k < n ==> a[k] == b[k],
    ensures
        download_steps(bytes, a, n) == download_steps(bytes, b, n),
    decreases n,
{
    if n > 0 {
        lemma_download_prefix(bytes, a, b, (n - 1) as nat);
    }
}

/// 0.9 in double precision
pub const DOWNLOAD_SHARE: u64 = 0x3fec_cccc_cccc_cccd;

/// 0.89
pub const DOWNLOAD_END: u32 = 0x3f63_d70a;

/// 0.9
pub const EXTRACT_START: u32 = 0x3f66_6666;

/// 0.1
pub const EXTRACT_SHARE: u32 = 0x3dcc_cccd;

/// 0.99
pub const EXTRACT_END: u32 = 0x3f7d_70a4;

/// 1
pub const ONE_WHOLE: u32 = 0x3f80_0000;

/// How far an installation is while it downloads: nine tenths for the whole
/// download, as far as its length is known.
pub open spec fn download_share(got: nat, length: nat) -> u32 {
    px_smaller(
        narrowed(product(quotient(whole(got as int), whole(length as int)), DOWNLOAD_SHARE)),
        DOWNLOAD_END,
    )
}

/// How far an installation is while it downloads.
pub fn download_progress(got: u64, length: u64) -> (p: Option<Px>)
    ensures
        length == 0 ==> p is None,
        length > 0 ==> p is Some && (p->0).bits == download_share(got as nat, length as nat),
{
    if length == 0 {
        return None;
    }
    let share = Num::of_u64(got).over(Num::of_u64(length)).times(Num { bits: DOWNLOAD_SHARE });
    Some(Px::of_num(share).min(Px { bits: DOWNLOAD_END }))
}

/// How far an installation is once entry `i` of `n` is written.
pub open spec fn extract_share(i: nat, n: nat) -> u32 {
    let total: nat = if n == 0 {
        1
    } else {
        n
    };
    px_smaller(
        px_sum(
            EXTRACT_START,
            px_product(
                px_quotient(px_sum(px_whole(i), ONE_WHOLE), px_whole(total)),
                EXTRACT_SHARE,
            ),
        ),
        EXTRACT_END,
    )
}

/// How far an installation is once entry `i` of `n` is written.
pub fn extract_progress(i: u64, n: u64) -> (p: Px)
    ensures
        p.bits == extract_share(i as nat, n as nat),
{
    let total: u64 = if n == 0 {
        1
    } else {
        n
    };
    let part = Px::of_u64(i).plus(Px { bits: ONE_WHOLE }).over(Px::of_u64(total));
    (Px { bits: EXTRACT_START }).plus(part.times(Px { bits: EXTRACT_SHARE })).min(
        Px { bits: EXTRACT_END },
    )
}

/// The download counts from 0 to less than 0.9, and never goes back as more of
/// it has come in.
pub proof fn lemma_download_progress(got: u64, more: u64, length: u64)
    requires
        got <= more,
        length > 0,
    ensures
        0 <= px_rank(download_share(got as nat, length as nat)),
        !px_nan(download_share(got as nat, length as nat)),
        px_less(download_share(got as nat, length as nat), EXTRACT_START),
        !px_less(
            download_share(more as nat, length as nat),
            download_share(got as nat, length as nat),
        ),
{
    let a = whole(got as int);
    let b = whole(more as int);
    let d = whole(length as int);
    lemma_whole_grows(got, more);
    lemma_whole_grows(length, length);
    lemma_quotient_grows(a, b, d);
    lemma_product_grows(quotient(a, d), quotient(b, d), DOWNLOAD_SHARE);
    lemma_narrowed_grows(
        product(quotient(a, d), DOWNLOAD_SHARE),
        product(quotient(b, d), DOWNLOAD_SHARE),
    );
}

/// The extraction counts from 0.9 to less than 1, and never goes back from one
/// entry to a later one.
pub proof fn lemma_extract_progress(i: u64, j: u64, n: u64)
    requires
        i <= j,
    ensures
        !px_nan(extract_share(i as nat, n as nat)),
        !px_less(extract_share(i as nat, n as nat), EXTRACT_START),
        px_less(extract_share(i as nat, n as nat), ONE_WHOLE),
        !px_less(extract_share(j as nat, n as nat), extract_share(i as nat, n as nat)),
{
    let total: u64 = if n == 0 {
        1
    } else {
        n
    };
    let a = px_sum(px_whole(i as nat), ONE_WHOLE);
    let b = px_sum(px_whole(j as nat), ONE_WHOLE);
    let d = px_whole(total as nat);
    lemma_px_whole_grows(i, j);
    lemma_px_whole_grows(total, total);
    lemma_px_added_grows(px_whole(i as nat), px_whole(j as nat), ONE_WHOLE);
    lemma_px_quotient_grows(a, b, d);
    lemma_px_product_grows(px_quotient(a, d), px_quotient(b, d), EXTRACT_SHARE);
    lemma_px_sum_grows(
        px_product(px_quotient(a, d), EXTRACT_SHARE),
        px_product(px_quotient(b, d), EXTRACT_SHARE),
        EXTRACT_START,
    );
}

/// Whether the local release is moved aside before a new one is installed: it
/// has a name and its version file is there.
pub fn wants_backup(local_tag: &str, version_file: bool) -> (r: bool)
    ensures
        r == (local_tag@.len() > 0 && version_file),
{
    !local_tag.is_empty() && version_file
}

/// Whether a directory of this name is an old release that is removed after an
/// installation.
pub fn is_stale_backup(name: &str) -> (r: bool)
    ensures
        r == (quad_of(name@) is Some),
{
    parse_quad(name).is_some()
}

/// What an installation of `tag` comes to, given what went wrong with each of
/// its parts: the tag where nothing did, and else the first thing that did.
pub open spec fn outcome(tag: Seq<char>, faults: Seq<Option<String>>) -> Result<Seq<char>, Seq<char>>
    decreases faults.len(),
{
    if faults.len() == 0 {
        Ok(tag)
    } else {
        match (outcome(tag, faults.drop_last()), faults.last()) {
            (Err(m), _) => Err(m),
            (Ok(_), Some(m)) => Err(m@),
            (Ok(t), None) => Ok(t),
        }
    }
}

/// What an installation of `remote_tag` comes to.
pub fn install_result(remote_tag: &str, faults: &Vec<Option<String>>) -> (r: Result<String, String>)
    ensures
        match outcome(remote_tag@, faults@) {
            Ok(t) => r matches Ok(tag) && tag@ == t,
            Err(m) => r matches Err(e) && e@ == m,
        },
        r is Ok <==> forall|i: int| 0 <= i < faults@.len() ==> (#[trigger] faults@[i]) is None,
        r matches Ok(tag) ==> tag@ == remote_tag@,
{
    let mut i: usize = 0;
    while i < faults.len()
        invariant
            i <= faults.len(),
            outcome(remote_tag@, faults@.take(i as int)) == Ok::<Seq<char>, Seq<char>>(remote_tag@),
            forall|j: int| 0 <= j < i ==> (#[trigger] faults@[j]) is None,
        decreases faults.len() - i,
    {
        proof {
            assert(faults@.take(i as int + 1).drop_last() =~= faults@.take(i as int));
        }
        if let Some(m) = &faults[i] {
            proof {
                lemma_first_fault(remote_tag@, faults@, i as int + 1);
                assert(faults@[i as int] is Some);
            }
            return Err(m.clone());
        }
        i = i + 1;
    }
    proof {
        assert(faults@.take(i as int) =~= faults@);
    }
    Ok(copy_text(remote_tag))
}

/// The first fault is the one that counts.
proof fn lemma_first_fault(tag: Seq<char>, faults: Seq<Option<String>>, n: int)
    requires
        0 <= n <= faults.len(),
        outcome(tag, faults.take(n)) is Err,
    ensures
        outcome(tag, faults) == outcome(tag, faults.take(n)),
    decreases faults.len(),
{
    if n < faults.len() {
        assert(faults.drop_last().take(n) =~= faults.take(n));
        lemma_first_fault(tag, faults.drop_last(), n);
    } else {
        assert(faults.take(n) =~= faults);
    }
}

/// Every entry that can be opened and stays inside is installed, under its name
/// without the dots in front and with its own contents; a name that ends in a slash
/// is a directory.
pub proof fn lemma_install_writes(bytes: Seq<u8>, n: nat, i: nat)
    requires
        i < n,
        archive_name(bytes, i) is Some,
        ({
            let path: Seq<char> = without_here(archive_name(bytes, i)->0);
            path.len() > 0 && !begins(path, "/"@) && !occurs(path, ".."@)
        }),
    ensures
        exists|k: int|
            0 <= k < install_steps(bytes, n).len() && {
                let s: StepView = #[trigger] install_steps(bytes, n)[k];
                let name: Seq<char> = archive_name(bytes, i)->0;
                let directory: bool = name.last() == '/' || name.last() == '\\';
                &&& s.index == i
                &&& s.path == without_here(name)
                &&& s.directory == directory
                &&& s.data == if directory {
                    None
                } else {
                    archive_data(bytes, i)
                }
            },
    decreases n,
{
    let h: nat = (n - 1) as nat;
    let all = install_steps(bytes, n);
    let name: Seq<char> = archive_name(bytes, i)->0;
    lemma_without_here(name);
    if i == h {
        let k = all.len() - 1;
        assert(all[k].index == i);
    } else {
        lemma_install_writes(bytes, h, i);
        let front = install_steps(bytes, h);
        let k = choose|k: int|
            0 <= k < front.len() && {
                let s: StepView = #[trigger] front[k];
                let directory: bool = name.last() == '/' || name.last() == '\\';
                &&& s.index == i
                &&& s.path == without_here(name)
                &&& s.directory == directory
                &&& s.data == if directory {
                    None
                } else {
                    archive_data(bytes, i)
                }
            };
        assert(all[k] == front[k]);
    }
}

/// Only dots with slashes are taken from the front of a name.
#[verifier::rlimit(60)]
pub proof fn lemma_without_here(s: Seq<char>)
    ensures
        without_here(s).len() <= s.len(),
        without_here(s) == s.skip(s.len() - without_here(s).len()),
        (s.len() - without_here(s).len()) % 2 == 0,
        forall|k: int|
            0 <= k < s.len() - without_here(s).len() ==> #[trigger] s[k] == if k % 2 == 0 {
                '.'
            } else {
                '/'
            },
        !(without_here(s).len() >= 2 && without_here(s)[0] == '.' && without_here(s)[1] == '/'),
    decreases s.len(),
{
    reveal_strlit("./");
    assert("./"@.len() == 2 && "./"@[0] == '.' && "./"@[1] == '/');
    if begins(s, "./"@) && s.len() >= 2 {
        assert(s.subrange(0, 2)[0] == s[0] && s.subrange(0, 2)[1] == s[1]);
        let t = s.skip(2);
        lemma_without_here(t);
        let r = without_here(s);
        assert(t.skip(t.len() - r.len()) =~= s.skip(s.len() - r.len()));
        assert forall|k: int| 0 <= k < s.len() - r.len() implies #[trigger] s[k] == if k % 2 == 0 {
            '.'
        } else {
            '/'
        } by {
            if k >= 2 {
                assert(t[k - 2] == s[k]);
                assert((k - 2) % 2 == k % 2);
            }
        }
    } else {
        assert(s.skip(0) =~= s);
        if s.len() >= 2 && s[0] == '.' && s[1] == '/' {
            assert(s.subrange(0, 2) =~= "./"@);
        }
    }
}

/// The first thing that went wrong is what an installation fails with, and it
/// fails only where something did.
pub proof fn lemma_first_fault_counts(tag: Seq<char>, faults: Seq<Option<String>>, i: int)
    requires
        0 <= i < faults.len(),
        faults[i] is Some,
        forall|j: int| 0 <= j < i ==> (#[trigger] faults[j]) is None,
    ensures
        outcome(tag, faults) == Err::<Seq<char>, Seq<char>>((faults[i]->0)@),
    decreases faults.len(),
{
    let front = faults.drop_last();
    if i < faults.len() - 1 {
        assert(front[i] == faults[i]);
        assert forall|j: int| 0 <= j < i implies (#[trigger] front[j]) is None by {
            assert(front[j] == faults[j]);
        }
        lemma_first_fault_counts(tag, front, i);
    } else {
        assert forall|j: int| 0 <= j < front.len() implies (#[trigger] front[j]) is None by {
            assert(front[j] == faults[j]);
        }
        lemma_no_fault(tag, front);
    }
}

/// Where nothing went wrong an installation comes to its tag.
pub proof fn lemma_no_fault(tag: Seq<char>, faults: Seq<Option<String>>)
    requires
        forall|j: int| 0 <= j < faults.len() ==> (#[trigger] faults[j]) is None,
    ensures
        outcome(tag, faults) == Ok::<Seq<char>, Seq<char>>(tag),
    decreases faults.len(),
{
    if faults.len() > 0 {
        let front = faults.drop_last();
        assert forall|j: int| 0 <= j < front.len() implies (#[trigger] front[j]) is None by {
            assert(front[j] == faults[j]);
        }
        lemma_no_fault(tag, front);
        assert(faults[faults.len() - 1] is None);
    }
}

/// The entries that could not be opened are exactly those without a name.
pub proof fn lemma_unopened(bytes: Seq<u8>, n: nat, i: nat)
    requires
        i < n,
        n <= usize::MAX,
    ensures
        unopened_entries(bytes, n).contains(i as usize) <==> archive_name(bytes, i) is None,
    decreases n,
{
    let h: nat = (n - 1) as nat;
    let all = unopened_entries(bytes, n);
    let front = unopened_entries(bytes, h);
    lemma_unopened_below(bytes, h);
    if i == h {
        if archive_name(bytes, i) is None {
            assert(all[all.len() - 1] == i as usize);
        }
    } else {
        lemma_unopened(bytes, h, i);
        if front.contains(i as usize) {
            let k = front.index_of(i as usize);
            assert(all[k] == i as usize);
        }
        if all.contains(i as usize) {
            let k = all.index_of(i as usize);
            if k < front.len() {
                assert(front[k] == i as usize);
            }
        }
    }
}

/// They are among the first entries.
proof fn lemma_unopened_below(bytes: Seq<u8>, n: nat)
    requires
        n <= usize::MAX,
    ensures
        forall|k: int| 0 <= k < unopened_entries(bytes, n).len() ==> #[trigger] unopened_entries(
            bytes,
            n,
        )[k] < n,
    decreases n,
{
    if n > 0 {
        let front = unopened_entries(bytes, (n - 1) as nat);
        let all = unopened_entries(bytes, n);
        lemma_unopened_below(bytes, (n - 1) as nat);
        assert forall|k: int| 0 <= k < all.len() implies #[trigger] all[k] < n by {
            if k < front.len() {
                assert(all[k] == front[k]);
            }
        }
    }
}

} // verus!
