//! Where the files of the application are.
//!
//! A place is a directory that the surroundings give, if any, and names below
//! it; putting them together is left to whoever knows the machine's paths.
use vstd::prelude::*;

use crate::text::copy_text;

verus! {

/// The families of machines that keep their files in different places.
#[derive(Clone, Copy, Debug, PartialEq, Eq, Structural)]
pub enum Platform {
    Windows,
    Linux,
    MacOs,
    Other,
}

/// What is known of the program's own file.
pub struct Exe<P> {
    /// The directory that holds it.
    pub dir: Option<P>,
    /// Whether a part of its path is named `target`.
    pub in_target: bool,
}

/// What the surroundings say of directories.
pub struct Surroundings<P> {
    pub platform: Platform,
    /// The directory for configuration that the desktop names.
    pub xdg_config_home: Option<P>,
    pub home: Option<P>,
    /// The program's own file, where it is known.
    pub exe: Option<Exe<P>>,
}

/// The directories that were given on the command line.
pub struct Overrides<P> {
    pub config_dir: Option<P>,
    pub fm_root: Option<P>,
}

/// A directory or a file.
pub struct Place<'a, P> {
    /// Where it begins; absent for a place below the current directory.
    pub base: Option<&'a P>,
    /// The names that lead to it.
    pub names: Vec<String>,
    /// Whether the directory is created.
    pub create: bool,
}

/// The contents of texts.
pub open spec fn name_views(v: Seq<String>) -> Seq<Seq<char>> {
    v.map_values(|t: String| t@)
}

/// Whether a place is this one.
pub open spec fn is_place<P>(
    p: Place<P>,
    base: Option<&P>,
    names: Seq<Seq<char>>,
    create: bool,
) -> bool {
    p.base == base && name_views(p.names@) =~= names && p.create == create
}

impl<P> Overrides<P> {
    /// No directory was given.
    pub fn new() -> (r: Self)
        ensures
            r.config_dir is None,
            r.fm_root is None,
    {
        Overrides { config_dir: None, fm_root: None }
    }
}

/// Gives the directory of the configuration; the first one given counts.
pub fn set_config_dir<P>(o: &mut Overrides<P>, p: P)
    ensures
        final(o).fm_root == old(o).fm_root,
        final(o).config_dir == (match old(o).config_dir {
            Some(first) => Some(first),
            None => Some(p),
        }),
{
    if o.config_dir.is_none() {
        o.config_dir = Some(p);
    }
}

/// Gives the root directory of the flight-model database; the first one given
/// counts.
pub fn set_fm_root<P>(o: &mut Overrides<P>, p: P)
    ensures
        final(o).config_dir == old(o).config_dir,
        final(o).fm_root == (match old(o).fm_root {
            Some(first) => Some(first),
            None => Some(p),
        }),
{
    if o.fm_root.is_none() {
        o.fm_root = Some(p);
    }
}

/// A place below the current directory or a base, with no names yet.
fn place_at<'a, P>(base: Option<&'a P>, create: bool) -> (r: Place<'a, P>)
    ensures
        is_place(r, base, seq![], create),
{
    let names: Vec<String> = Vec::new();
    proof {
        assert(name_views(names@) =~= seq![]);
    }
    Place { base, names, create }
}

impl<'a, P> Place<'a, P> {
    /// The place `name` below this one.
    pub fn join(self, name: &str) -> (r: Place<'a, P>)
        ensures
            is_place(r, self.base, name_views(self.names@).push(name@), self.create),
    {
        let mut names = self.names;
        let ghost before = name_views(names@);
        names.push(copy_text(name));
        proof {
            assert(name_views(names@) =~= before.push(name@));
        }
        Place { base: self.base, names, create: self.create }
    }
}

/// The directory of the program's file, or the current one where it is unknown.
pub open spec fn is_exe_dir<P>(p: Place<P>, exe: Option<Exe<P>>) -> bool {
    match exe {
        Some(e) => match e.dir {
            Some(d) => is_place(p, Some(&d), seq![], false),
            None => is_place(p, None, seq!["."@], false),
        },
        None => is_place(p, None, seq!["."@], false),
    }
}

/// Whether a place is the directory of the configuration where none was given.
pub open spec fn is_platform_config_dir<P>(p: Place<P>, s: Surroundings<P>) -> bool {
    match s.platform {
        Platform::Linux => match s.xdg_config_home {
            Some(x) => is_place(p, Some(&x), seq!["warthunder-byoh"@], true),
            None => match s.home {
                Some(h) => is_place(p, Some(&h), seq![".config"@, "warthunder-byoh"@], true),
                None => is_exe_dir(p, s.exe),
            },
        },
        Platform::MacOs => match s.home {
            Some(h) => is_place(
                p,
                Some(&h),
                seq!["Library"@, "Application Support"@, "warthunder-byoh"@],
                true,
            ),
            None => is_exe_dir(p, s.exe),
        },
        _ => is_exe_dir(p, s.exe),
    }
}

/// The directory of the program's file.
fn exe_dir<'a, P>(exe: &'a Option<Exe<P>>) -> (r: Place<'a, P>)
    ensures
        is_exe_dir(r, *exe),
{
    match exe {
        Some(e) => match &e.dir {
            Some(d) => place_at(Some(d), false),
            None => place_at(None, false).join("."),
        },
        None => place_at(None, false).join("."),
    }
}

/// The directory of the configuration where none was given.
fn platform_config_dir<'a, P>(s: &'a Surroundings<P>) -> (r: Place<'a, P>)
    ensures
        is_platform_config_dir(r, *s),
{
    match s.platform {
        Platform::Linux => {
            if let Some(x) = &s.xdg_config_home {
                return place_at(Some(x), true).join("warthunder-byoh");
            }
            if let Some(h) = &s.home {
                return place_at(Some(h), true).join(".config").join("warthunder-byoh");
            }
            exe_dir(&s.exe)
        },
        Platform::MacOs => {
            if let Some(h) = &s.home {
                return place_at(Some(h), true).join("Library").join("Application Support").join(
                    "warthunder-byoh",
                );
            }
            exe_dir(&s.exe)
        },
        _ => exe_dir(&s.exe),
    }
}

/// Whether a place is the directory of the configuration.
pub open spec fn is_config_dir<P>(p: Place<P>, o: Overrides<P>, s: Surroundings<P>) -> bool {
    match o.config_dir {
        Some(given) => is_place(p, Some(&given), seq![], false),
        None => is_platform_config_dir(p, s),
    }
}

/// The directory of the configuration: the one given, or that of the platform.
pub fn config_dir<'a, P>(o: &'a Overrides<P>, s: &'a Surroundings<P>) -> (r: Place<'a, P>)
    ensures
        is_config_dir(r, *o, *s),
{
    match &o.config_dir {
        Some(given) => place_at(Some(given), false),
        None => platform_config_dir(s),
    }
}

/// Whether a place is the root of the database next to the program: below its
/// directory, or in the sources while the program is being developed.
pub open spec fn is_fm_base_dir<P>(p: Place<P>, exe: Option<Exe<P>>) -> bool {
    match exe {
        Some(e) => if e.in_target {
            is_place(p, None, seq!["data"@, "fm"@], false)
        } else {
            match e.dir {
                Some(d) => is_place(p, Some(&d), seq!["fm"@], false),
                None => is_place(p, None, seq!["."@, "fm"@], false),
            }
        },
        None => is_place(p, None, seq!["data"@, "fm"@], false),
    }
}

/// The root of the database next to the program.
pub fn fm_base_dir<'a, P>(exe: &'a Option<Exe<P>>) -> (r: Place<'a, P>)
    ensures
        is_fm_base_dir(r, *exe),
{
    match exe {
        Some(e) => {
            if e.in_target {
                place_at(None, false).join("data").join("fm")
            } else {
                match &e.dir {
                    Some(d) => place_at(Some(d), false).join("fm"),
                    None => place_at(None, false).join(".").join("fm"),
                }
            }
        },
        None => place_at(None, false).join("data").join("fm"),
    }
}

/// The root of the database next to the program.
pub fn default_fm_root_dir<'a, P>(s: &'a Surroundings<P>) -> (r: Place<'a, P>)
    ensures
        is_fm_base_dir(r, s.exe),
{
    fm_base_dir(&s.exe)
}

/// Whether a place is the root of the database where none was given.
pub open spec fn is_platform_fm_root<P>(p: Place<P>, s: Surroundings<P>) -> bool {
    if s.platform == Platform::MacOs && s.home is Some {
        is_place(
            p,
            Some(&s.home->0),
            seq!["Library"@, "Application Support"@, "warthunder-byoh"@],
            true,
        )
    } else {
        is_fm_base_dir(p, s.exe)
    }
}

/// The root of the database where none was given.
pub fn platform_fm_root_dir<'a, P>(s: &'a Surroundings<P>) -> (r: Place<'a, P>)
    ensures
        is_platform_fm_root(r, *s),
{
    match s.platform {
        Platform::MacOs => {
            if let Some(h) = &s.home {
                return place_at(Some(h), true).join("Library").join("Application Support").join(
                    "warthunder-byoh",
                );
            }
            default_fm_root_dir(s)
        },
        _ => default_fm_root_dir(s),
    }
}

/// Whether a place is the root of the database.
pub open spec fn is_fm_root<P>(p: Place<P>, o: Overrides<P>, s: Surroundings<P>) -> bool {
    match o.fm_root {
        Some(given) => is_place(p, Some(&given), seq![], false),
        None => is_platform_fm_root(p, s),
    }
}

/// The root of the database: the one given, or that of the platform.
pub fn fm_root_dir<'a, P>(o: &'a Overrides<P>, s: &'a Surroundings<P>) -> (r: Place<'a, P>)
    ensures
        is_fm_root(r, *o, *s),
{
    match &o.fm_root {
        Some(given) => place_at(Some(given), false),
        None => platform_fm_root_dir(s),
    }
}

/// Whether `p` is `name` below `q`.
pub open spec fn is_below<P>(p: Place<P>, q: Place<P>, name: Seq<char>) -> bool {
    is_place(p, q.base, name_views(q.names@).push(name), q.create)
}

/// The directory of the tables of the database, below its root.
pub fn fm_dir<'a, P>(o: &'a Overrides<P>, s: &'a Surroundings<P>) -> (r: Place<'a, P>)
    ensures
        exists|root: Place<P>| #[trigger] is_fm_root(root, *o, *s) && is_below(r, root, "fm"@),
{
    let root = fm_root_dir(o, s);
    let ghost kept = root;
    let r = root.join("fm");
    proof {
        assert(is_fm_root(kept, *o, *s) && is_below(r, kept, "fm"@));
    }
    r
}

/// Where a file of the configuration is looked for besides the directory of the
/// configuration, in this order: below the program's directory in `data`, in
/// the program's directory, and in `data` below the current directory.
pub open spec fn are_fallbacks<P>(v: Seq<Place<P>>, exe: Option<Exe<P>>, name: Seq<char>) -> bool {
    match exe {
        Some(e) => {
            let base: Option<&P> = match e.dir {
                Some(d) => Some(&d),
                None => None,
            };
            let lead: Seq<Seq<char>> = match e.dir {
                Some(_) => seq![],
                None => seq!["."@],
            };
            &&& v.len() == 3
            &&& is_place(v[0], base, lead.push("data"@).push(name), false)
            &&& is_place(v[1], base, lead.push(name), false)
            &&& is_place(v[2], None, seq!["data"@, name], false)
        },
        None => v.len() == 1 && is_place(v[0], None, seq!["data"@, name], false),
    }
}

/// Where a file of the configuration is looked for besides the directory of the
/// configuration.
fn fallbacks<'a, P>(exe: &'a Option<Exe<P>>, name: &str) -> (v: Vec<Place<'a, P>>)
    ensures
        are_fallbacks(v@, *exe, name@),
{
    let mut v: Vec<Place<'a, P>> = Vec::new();
    if exe.is_some() {
        v.push(exe_dir(exe).join("data").join(name));
        v.push(exe_dir(exe).join(name));
    }
    v.push(place_at(None, false).join("data").join(name));
    v
}

/// The places where a file of the configuration is looked for, first to last.
pub fn config_candidates<'a, P>(
    o: &'a Overrides<P>,
    s: &'a Surroundings<P>,
    name: &str,
) -> (v: Vec<Place<'a, P>>)
    ensures
        v@.len() >= 1,
        exists|dir: Place<P>| #[trigger] is_config_dir(dir, *o, *s) && is_below(v@[0], dir, name@),
        are_fallbacks(v@.skip(1), s.exe, name@),
{
    let mut v: Vec<Place<'a, P>> = Vec::new();
    let dir = config_dir(o, s);
    let ghost kept = dir;
    v.push(dir.join(name));
    let mut rest = fallbacks(&s.exe, name);
    let ghost tail = rest@;
    v.append(&mut rest);
    proof {
        assert(v@.skip(1) =~= tail);
        assert(is_config_dir(kept, *o, *s) && is_below(v@[0], kept, name@));
    }
    v
}

/// The place of the first file that is there.
pub fn find_config(exists_at: &Vec<bool>) -> (r: Option<usize>)
    ensures
        match r {
            Some(i) => i < exists_at@.len() && exists_at@[i as int] && forall|j: int|
                0 <= j < i ==> !exists_at@[j],
            None => forall|j: int| 0 <= j < exists_at@.len() ==> !exists_at@[j],
        },
{
    let mut i: usize = 0;
    while i < exists_at.len()
        invariant
            i <= exists_at.len(),
            forall|j: int| 0 <= j < i ==> !exists_at@[j],
        decreases exists_at.len() - i,
    {
        if exists_at[i] {
            return Some(i);
        }
        i = i + 1;
    }
    None
}

/// What has to be set up before the application can start.
#[derive(Debug, Clone, Copy, PartialEq, Eq, Structural)]
pub struct SetupNeeds {
    /// The flight-model database is missing.
    pub needs_fm: bool,
    /// `indicators.json` is missing.
    pub needs_config: bool,
    /// There is an example to make `indicators.json` of.
    pub has_example: bool,
}

impl SetupNeeds {
    /// Whether anything has to be set up.
    pub fn any(&self) -> (r: bool)
        ensures
            r == (self.needs_fm || self.needs_config),
    {
        self.needs_fm || self.needs_config
    }
}

/// What has to be set up, given which files were found.
pub fn check_setup_needs(fm_data: bool, indicators: bool, example: bool) -> (r: SetupNeeds)
    ensures
        r == (SetupNeeds {
            needs_fm: !fm_data,
            needs_config: !indicators,
            has_example: example,
        }),
{
    SetupNeeds { needs_fm: !fm_data, needs_config: !indicators, has_example: example }
}

/// Whether `indicators.json` is made of the example before it is read: no path
/// was given, it is missing, and there is an example.
pub fn seeds_from_example(path_given: bool, indicators: bool, example: bool) -> (r: bool)
    ensures
        r == (!path_given && !indicators && example),
{
    !path_given && !indicators && example
}

/// A directory that was given is the directory, and a second one changes
/// nothing.
pub proof fn lemma_first_override_counts<P>(
    before: Overrides<P>,
    after: Overrides<P>,
    p: P,
    place: Place<P>,
    s: Surroundings<P>,
)
    requires
        before.config_dir is Some,
        after.config_dir == (match before.config_dir {
            Some(first) => Some(first),
            None => Some(p),
        }),
        is_config_dir(place, after, s),
    ensures
        is_place(place, Some(&before.config_dir->0), seq![], false),
{
}

/// A directory that was given is taken as it is. Else the configuration stands
/// on Linux below `XDG_CONFIG_HOME`, or `.config` of the home, on macOS in the
/// application support of the home, and elsewhere beside the program.
pub proof fn lemma_where_the_configuration_is<P>(
    p: Place<P>,
    o: Overrides<P>,
    s: Surroundings<P>,
)
    requires
        is_config_dir(p, o, s),
    ensures
        o.config_dir is Some ==> p.base == Some(&o.config_dir->0) && p.names@.len() == 0,
        o.config_dir is None && s.platform == Platform::Linux && s.xdg_config_home is Some ==> p.base
            == Some(&s.xdg_config_home->0) && name_views(p.names@) =~= seq!["warthunder-byoh"@]
            && p.create,
        o.config_dir is None && s.platform == Platform::Linux && s.xdg_config_home is None
            && s.home is Some ==> p.base == Some(&s.home->0) && name_views(p.names@) =~= seq![
            ".config"@,
            "warthunder-byoh"@,
        ] && p.create,
        o.config_dir is None && s.platform == Platform::MacOs && s.home is Some ==> p.base == Some(
            &s.home->0,
        ) && name_views(p.names@) =~= seq![
            "Library"@,
            "Application Support"@,
            "warthunder-byoh"@,
        ] && p.create,
        o.config_dir is None && s.platform != Platform::Linux && s.platform != Platform::MacOs
            && s.exe is Some && (s.exe->0).dir is Some ==> p.base == Some(&(s.exe->0).dir->0)
            && p.names@.len() == 0,
{
    if o.config_dir is Some {
        assert(name_views(p.names@).len() == 0);
    }
    if o.config_dir is None && s.platform != Platform::Linux && s.platform != Platform::MacOs
        && s.exe is Some && (s.exe->0).dir is Some {
        assert(name_views(p.names@).len() == 0);
    }
}

/// The database stands below the program's directory in `fm`, or in the sources
/// while the program is being developed; on macOS beside the configuration.
pub proof fn lemma_where_the_database_is<P>(p: Place<P>, o: Overrides<P>, s: Surroundings<P>)
    requires
        is_fm_root(p, o, s),
    ensures
        o.fm_root is Some ==> p.base == Some(&o.fm_root->0) && p.names@.len() == 0,
        o.fm_root is None && !(s.platform == Platform::MacOs && s.home is Some) && s.exe is Some
            && !(s.exe->0).in_target && (s.exe->0).dir is Some ==> p.base == Some(
            &(s.exe->0).dir->0,
        ) && name_views(p.names@) =~= seq!["fm"@],
        o.fm_root is None && !(s.platform == Platform::MacOs && s.home is Some) && (s.exe is None || (
        s.exe->0).in_target) ==> p.base is None && name_views(p.names@) =~= seq!["data"@, "fm"@],
        o.fm_root is None && s.platform == Platform::MacOs && s.home is Some ==> p.base == Some(
            &s.home->0,
        ) && name_views(p.names@) =~= seq![
            "Library"@,
            "Application Support"@,
            "warthunder-byoh"@,
        ],
{
    if o.fm_root is Some {
        assert(name_views(p.names@).len() == 0);
    }
}

} // verus!
