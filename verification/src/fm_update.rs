//! Releases of the flight-model database: which one is newer, and what of its
//! archive is installed.
use vstd::prelude::*;
use vstd::slice::slice_subrange;

use crate::json::{field, json_text, parse_json, text_value, Json, JsonView};
use crate::text::{chars_of, ends, ends_with, integer_in, option_text, parse_integer, pieces, split, text_of, trim, trimmed, views};

verus! {

/// The release in the text of a version file, where it names one.
pub open spec fn tag_in(text: Option<Seq<char>>) -> Option<Seq<char>> {
    match text {
        Some(t) => if trimmed(t).len() > 0 {
            Some(trimmed(t))
        } else {
            None
        },
        None => None,
    }
}

/// The release in the text of the version file, absent where it could not be
/// read.
pub fn read_fm_version_tag(text: Option<&str>) -> (r: Option<String>)
    ensures
        match tag_in(
            match text {
                Some(t) => Some(t@),
                None => None,
            },
        ) {
            Some(t) => r is Some && (r->0)@ == t,
            None => r is None,
        },
{
    match text {
        None => None,
        Some(t) => {
            let cs = chars_of(t);
            let kept = trim(cs.as_slice());
            if kept.len() > 0 {
                Some(text_of(kept))
            } else {
                None
            }
        },
    }
}

/// `s` without every `c` at its front.
pub open spec fn without_front(s: Seq<char>, c: char) -> Seq<char>
    decreases s.len(),
{
    if s.len() > 0 && s[0] == c {
        without_front(s.skip(1), c)
    } else {
        s
    }
}

/// The numbers among `parts`, in their order.
pub open spec fn numbers_in(parts: Seq<Seq<char>>) -> Seq<u32>
    decreases parts.len(),
{
    if parts.len() == 0 {
        seq![]
    } else {
        let front: Seq<u32> = numbers_in(parts.drop_last());
        match integer_in(parts.last(), 10, u32::MAX as nat) {
            Some(v) => front.push(v as u32),
            None => front,
        }
    }
}

/// The version that a tag names: two to four numbers between points, with zeros
/// for the missing ones.
pub open spec fn quad_of(tag: Seq<char>) -> Option<(u32, u32, u32, u32)> {
    let p: Seq<u32> = numbers_in(pieces(without_front(trimmed(tag), 'v'), '.'));
    if p.len() == 4 {
        Some((p[0], p[1], p[2], p[3]))
    } else if p.len() == 3 {
        Some((p[0], p[1], p[2], 0))
    } else if p.len() == 2 {
        Some((p[0], p[1], 0, 0))
    } else {
        None
    }
}

/// The version that a tag like `v2.55.1.88` names.
pub fn parse_quad(tag: &str) -> (r: Option<(u32, u32, u32, u32)>)
    ensures
        r == quad_of(tag@),
{
    let cs = chars_of(tag);
    let s: &[char] = trim(cs.as_slice());
    let mut i: usize = 0;
    proof {
        assert(s@.skip(0) =~= s@);
    }
    while i < s.len() && s[i] == 'v'
        invariant
            i <= s.len(),
            without_front(s@, 'v') == without_front(s@.skip(i as int), 'v'),
        decreases s.len() - i,
    {
        proof {
            assert(s@.skip(i as int).skip(1) =~= s@.skip(i as int + 1));
        }
        i = i + 1;
    }
    let body: &[char] = slice_subrange(s, i, s.len());
    proof {
        assert(body@ =~= s@.skip(i as int));
        assert(body@ == without_front(trimmed(tag@), 'v'));
    }
    let parts = split(body, '.');
    let ghost cut = pieces(body@, '.');
    let mut p: Vec<u32> = Vec::new();
    let mut k: usize = 0;
    while k < parts.len()
        invariant
            k <= parts.len(),
            views(parts@) == cut,
            parts@.len() == cut.len(),
            p@ == numbers_in(cut.take(k as int)),
        decreases parts.len() - k,
    {
        proof {
            assert(cut.take(k as int + 1).drop_last() =~= cut.take(k as int));
            assert(views(parts@)[k as int] == parts@[k as int]@);
        }
        if let Some(v) = parse_integer(parts[k].as_slice(), 10, u32::MAX as u64) {
            p.push(v as u32);
        }
        k = k + 1;
    }
    proof {
        assert(cut.take(k as int) =~= cut);
    }
    if p.len() == 4 {
        Some((p[0], p[1], p[2], p[3]))
    } else if p.len() == 3 {
        Some((p[0], p[1], p[2], 0))
    } else if p.len() == 2 {
        Some((p[0], p[1], 0, 0))
    } else {
        None
    }
}

/// Whether the version `a` is no later than `b`.
pub open spec fn no_later(a: (u32, u32, u32, u32), b: (u32, u32, u32, u32)) -> bool {
    a.0 < b.0 || (a.0 == b.0 && (a.1 < b.1 || (a.1 == b.1 && (a.2 < b.2 || (a.2 == b.2 && a.3
        <= b.3)))))
}

/// Whether the version `a` is no later than `b`.
pub fn is_no_later(a: (u32, u32, u32, u32), b: (u32, u32, u32, u32)) -> (r: bool)
    ensures
        r == no_later(a, b),
{
    a.0 < b.0 || (a.0 == b.0 && (a.1 < b.1 || (a.1 == b.1 && (a.2 < b.2 || (a.2 == b.2 && a.3
        <= b.3)))))
}

/// The versions are in one order.
pub proof fn lemma_versions_ordered(
    a: (u32, u32, u32, u32),
    b: (u32, u32, u32, u32),
    c: (u32, u32, u32, u32),
)
    ensures
        no_later(a, a),
        no_later(a, b) || no_later(b, a),
        no_later(a, b) && no_later(b, a) ==> a == b,
        no_later(a, b) && no_later(b, c) ==> no_later(a, c),
{
}

/// What the release service says of the latest release.
pub struct Release {
    pub tag: Option<String>,
    /// The name and the address of each file, each where it is a text; nothing
    /// where the files are no list.
    pub assets: Option<Vec<(Option<String>, Option<String>)>>,
}

/// The contents of the files of a release.
pub open spec fn asset_views(v: Seq<(Option<String>, Option<String>)>) -> Seq<
    (Option<Seq<char>>, Option<Seq<char>>),
> {
    v.map_values(|a: (Option<String>, Option<String>)| (option_text(a.0), option_text(a.1)))
}

/// The contents of the list of files, where there is one.
pub open spec fn assets_view(v: Option<Vec<(Option<String>, Option<String>)>>) -> Option<
    Seq<(Option<Seq<char>>, Option<Seq<char>>)>,
> {
    match v {
        Some(a) => Some(asset_views(a@)),
        None => None,
    }
}

/// What a value says of a file: its name and its address, each where it is a
/// text.
pub open spec fn asset_in(v: JsonView) -> (Option<Seq<char>>, Option<Seq<char>>) {
    (text_value(field(v, "name"@)), text_value(field(v, "browser_download_url"@)))
}

/// What a value says of a release: the tag, where it is a text, and the files,
/// where they are a list.
pub open spec fn release_view(v: JsonView) -> (
    Option<Seq<char>>,
    Option<Seq<(Option<Seq<char>>, Option<Seq<char>>)>>,
) {
    (
        text_value(field(v, "tag_name"@)),
        match field(v, "assets"@) {
            JsonView::List(a) => Some(a.map_values(|x: JsonView| asset_in(x))),
            _ => None,
        },
    )
}

/// What a text says of a release: nothing where it is no JSON.
pub open spec fn release_in(text: Seq<char>) -> Option<
    (Option<Seq<char>>, Option<Seq<(Option<Seq<char>>, Option<Seq<char>>)>>),
> {
    match json_text(text) {
        Some(v) => Some(release_view(v)),
        None => None,
    }
}

/// What a value says of a release.
pub fn release_of(j: &Json) -> (r: Release)
    ensures
        (option_text(r.tag), assets_view(r.assets)) == release_view(j@),
{
    let assets: Option<Vec<(Option<String>, Option<String>)>> = match j.field("assets") {
        Some(list) => match list {
            Json::List(v) => {
                let ghost all = list@->List_0;
                let ghost made = all.map_values(|x: JsonView| asset_in(x));
                let mut out: Vec<(Option<String>, Option<String>)> = Vec::new();
                let mut i: usize = 0;
                proof {
                    assert(asset_views(out@) =~= made.take(0));
                }
                while i < v.len()
                    invariant
                        i <= v.len(),
                        *list == Json::List(*v),
                        list@ == JsonView::List(all),
                        all.len() == v@.len(),
                        made == all.map_values(|x: JsonView| asset_in(x)),
                        asset_views(out@) == made.take(i as int),
                    decreases v.len() - i,
                {
                    let ghost before = asset_views(out@);
                    let name = v[i].text_at("name");
                    let url = v[i].text_at("browser_download_url");
                    out.push((name, url));
                    proof {
                        assert(all[i as int] == v@[i as int]@);
                        assert(asset_views(out@) =~= before.push((option_text(name), option_text(url))));
                        assert(made.take(i as int + 1) =~= made.take(i as int).push(made[i as int]));
                    }
                    i = i + 1;
                }
                proof {
                    assert(made.take(i as int) =~= made);
                }
                Some(out)
            },
            _ => None,
        },
        None => None,
    };
    Release { tag: j.text_at("tag_name"), assets }
}

/// The place of the first file whose name ends in `.zip`.
pub open spec fn first_zip(v: Seq<(Option<Seq<char>>, Option<Seq<char>>)>) -> Option<int>
    decreases v.len(),
{
    if v.len() == 0 {
        None
    } else {
        match first_zip(v.drop_last()) {
            Some(i) => Some(i),
            None => if v.last().0 is Some && ends(v.last().0->0, ".zip"@) {
                Some(v.len() - 1)
            } else {
                None
            },
        }
    }
}

/// The address of the archive of a release.
pub open spec fn archive_url(
    assets: Option<Seq<(Option<Seq<char>>, Option<Seq<char>>)>>,
) -> Option<Seq<char>> {
    match assets {
        None => None,
        Some(v) => match first_zip(v) {
            Some(i) => v[i].1,
            None => None,
        },
    }
}

/// The update that a release is: its tag and its archive, unless the local
/// release is no earlier. Versions that cannot be read do not prevent one.
pub open spec fn update_in(
    local: Seq<char>,
    tag: Option<Seq<char>>,
    assets: Option<Seq<(Option<Seq<char>>, Option<Seq<char>>)>>,
) -> Option<(Seq<char>, Seq<char>)> {
    match tag {
        None => None,
        Some(t) => if quad_of(local) is Some && quad_of(t) is Some && no_later(
            quad_of(t)->0,
            quad_of(local)->0,
        ) {
            None
        } else {
            match archive_url(assets) {
                Some(url) => Some((t, url)),
                None => None,
            }
        },
    }
}

/// A first place stays the first.
proof fn lemma_first_zip(v: Seq<(Option<Seq<char>>, Option<Seq<char>>)>, n: int)
    requires
        0 <= n <= v.len(),
        first_zip(v.take(n)) is Some,
    ensures
        first_zip(v) == first_zip(v.take(n)),
    decreases v.len(),
{
    if n < v.len() {
        assert(v.drop_last().take(n) =~= v.take(n));
        lemma_first_zip(v.drop_last(), n);
    } else {
        assert(v.take(n) =~= v);
    }
}

/// The address of the archive of a release.
fn find_archive(assets: &Vec<(Option<String>, Option<String>)>) -> (r: Option<String>)
    ensures
        option_text(r) == archive_url(Some(asset_views(assets@))),
{
    let ghost all = asset_views(assets@);
    let mut i: usize = 0;
    while i < assets.len()
        invariant
            i <= assets.len(),
            all == asset_views(assets@),
            first_zip(all.take(i as int)) is None,
        decreases assets.len() - i,
    {
        proof {
            assert(all.take(i as int + 1).drop_last() =~= all.take(i as int));
            assert(all[i as int] == (option_text(assets@[i as int].0), option_text(
                assets@[i as int].1,
            )));
        }
        if let Some(name) = &assets[i].0 {
            if ends_with(chars_of(name.as_str()).as_slice(), ".zip") {
                proof {
                    assert(first_zip(all.take(i as int + 1)) == Some(i as int));
                    lemma_first_zip(all, i as int + 1);
                }
                return match &assets[i].1 {
                    Some(url) => Some(url.clone()),
                    None => None,
                };
            }
        }
        i = i + 1;
    }
    proof {
        assert(all.take(i as int) =~= all);
    }
    None
}

/// The contents of an update.
pub open spec fn update_view(u: Option<(String, String)>) -> Option<(Seq<char>, Seq<char>)> {
    match u {
        Some((t, url)) => Some((t@, url@)),
        None => None,
    }
}

/// The update that a release is, given the local release.
pub fn update_of_release(local_tag: &str, release: &Release) -> (r: Option<(String, String)>)
    ensures
        update_view(r) == update_in(
            local_tag@,
            option_text(release.tag),
            assets_view(release.assets),
        ),
{
    let tag: &String = match &release.tag {
        Some(t) => t,
        None => {
            return None;
        },
    };
    if let (Some(l), Some(t)) = (parse_quad(local_tag), parse_quad(tag.as_str())) {
        if is_no_later(t, l) {
            return None;
        }
    }
    match &release.assets {
        None => None,
        Some(list) => match find_archive(list) {
            Some(url) => Some((tag.clone(), url)),
            None => None,
        },
    }
}

/// The update that the reply of the release service announces: its tag and the
/// address of its archive. `version_tag` is the text of the local version file,
/// and either text is absent where it could not be had.
pub fn check_fm_update_available(version_tag: Option<&str>, reply: Option<&str>) -> (r: Option<
    (String, String),
>)
    ensures
        update_view(r) == (match reply {
            None => None,
            Some(text) => match release_in(text@) {
                None => None,
                Some((tag, assets)) => update_in(
                    match tag_in(
                        match version_tag {
                            Some(t) => Some(t@),
                            None => None,
                        },
                    ) {
                        Some(t) => t,
                        None => ""@,
                    },
                    tag,
                    assets,
                ),
            },
        }),
{
    let local: String = match read_fm_version_tag(version_tag) {
        Some(t) => t,
        None => "".to_string(),
    };
    match reply {
        None => None,
        Some(text) => match parse_json(text) {
            Err(_) => None,
            Ok(j) => update_of_release(local.as_str(), &release_of(&j)),
        },
    }
}

/// The release after an update: the installed one, or the local one where there
/// was nothing to install or the installation failed.
pub fn check_and_update_fm(local_tag: String, installed: Option<Result<String, String>>) -> (r:
    String)
    ensures
        r == (match installed {
            Some(Ok(tag)) => tag,
            _ => local_tag,
        }),
{
    match installed {
        Some(Ok(tag)) => tag,
        _ => local_tag,
    }
}

/// An update is a later release than the local one.
pub proof fn lemma_updates_go_forward(
    local: Seq<char>,
    tag: Seq<char>,
    assets: Option<Seq<(Option<Seq<char>>, Option<Seq<char>>)>>,
)
    requires
        quad_of(local) is Some,
        quad_of(tag) is Some,
        update_in(local, Some(tag), assets) is Some,
    ensures
        !no_later(quad_of(tag)->0, quad_of(local)->0),
{
}

/// Versions are compared number by number from the front: the first that differs
/// decides.
pub proof fn lemma_first_difference_decides(a: (u32, u32, u32, u32), b: (u32, u32, u32, u32))
    ensures
        a.0 < b.0 ==> no_later(a, b) && !no_later(b, a),
        a.0 == b.0 && a.1 < b.1 ==> no_later(a, b) && !no_later(b, a),
        a.0 == b.0 && a.1 == b.1 && a.2 < b.2 ==> no_later(a, b) && !no_later(b, a),
        a.0 == b.0 && a.1 == b.1 && a.2 == b.2 && a.3 < b.3 ==> no_later(a, b) && !no_later(b, a),
{
}

/// An update is offered exactly for a tag that is not known to be no later than
/// the local one, and with the archive of that release.
pub proof fn lemma_update_is_offered(
    local: Seq<char>,
    tag: Option<Seq<char>>,
    assets: Option<Seq<(Option<Seq<char>>, Option<Seq<char>>)>>,
)
    ensures
        tag is None ==> update_in(local, tag, assets) is None,
        tag is Some && quad_of(local) is Some && quad_of(tag->0) is Some && no_later(
            quad_of(tag->0)->0,
            quad_of(local)->0,
        ) ==> update_in(local, tag, assets) is None,
        tag is Some && !(quad_of(local) is Some && quad_of(tag->0) is Some && no_later(
            quad_of(tag->0)->0,
            quad_of(local)->0,
        )) ==> match archive_url(assets) {
            Some(url) => update_in(local, tag, assets) == Some((tag->0, url)),
            None => update_in(local, tag, assets) is None,
        },
{
}

/// The archive of a release is the first of its files whose name ends in `.zip`.
pub proof fn lemma_archive_is_the_first_zip(
    v: Seq<(Option<Seq<char>>, Option<Seq<char>>)>,
    i: int,
)
    requires
        0 <= i < v.len(),
        v[i].0 is Some,
        ends(v[i].0->0, ".zip"@),
        forall|j: int|
            0 <= j < i ==> (#[trigger] v[j]).0 is None || !ends(v[j].0->0, ".zip"@),
    ensures
        archive_url(Some(v)) == v[i].1,
    decreases v.len(),
{
    lemma_first_zip_at(v, i);
}

/// The place of the first archive.
proof fn lemma_first_zip_at(v: Seq<(Option<Seq<char>>, Option<Seq<char>>)>, i: int)
    requires
        0 <= i < v.len(),
        v[i].0 is Some,
        ends(v[i].0->0, ".zip"@),
        forall|j: int|
            0 <= j < i ==> (#[trigger] v[j]).0 is None || !ends(v[j].0->0, ".zip"@),
    ensures
        first_zip(v) == Some(i),
    decreases v.len(),
{
    let front = v.drop_last();
    if i < v.len() - 1 {
        assert(front[i] == v[i]);
        assert forall|j: int| 0 <= j < i implies (#[trigger] front[j]).0 is None || !ends(
            front[j].0->0,
            ".zip"@,
        ) by {
            assert(front[j] == v[j]);
        }
        lemma_first_zip_at(front, i);
    } else {
        assert forall|j: int| 0 <= j < front.len() implies (#[trigger] front[j]).0 is None || !ends(
            front[j].0->0,
            ".zip"@,
        ) by {
            assert(front[j] == v[j]);
        }
        lemma_no_zip(front);
    }
}

/// Where no file is an archive there is none.
pub proof fn lemma_no_zip(v: Seq<(Option<Seq<char>>, Option<Seq<char>>)>)
    requires
        forall|j: int|
            0 <= j < v.len() ==> (#[trigger] v[j]).0 is None || !ends(v[j].0->0, ".zip"@),
    ensures
        first_zip(v) is None,
        archive_url(Some(v)) is None,
        archive_url(None) is None,
    decreases v.len(),
{
    if v.len() > 0 {
        let front = v.drop_last();
        assert forall|j: int| 0 <= j < front.len() implies (#[trigger] front[j]).0 is None || !ends(
            front[j].0->0,
            ".zip"@,
        ) by {
            assert(front[j] == v[j]);
        }
        lemma_no_zip(front);
        assert(v[v.len() - 1] == v.last());
    }
}

/// A version has two to four numbers; those that are missing are zero.
pub proof fn lemma_quad_of_numbers(tag: Seq<char>)
    ensures
        ({
            let p: Seq<u32> = numbers_in(pieces(without_front(trimmed(tag), 'v'), '.'));
            &&& quad_of(tag) is Some <==> 2 <= p.len() <= 4
            &&& quad_of(tag) is Some ==> (quad_of(tag)->0).0 == p[0] && (quad_of(tag)->0).1 == p[1]
                && (quad_of(tag)->0).2 == (if p.len() > 2 {
                p[2]
            } else {
                0
            }) && (quad_of(tag)->0).3 == (if p.len() > 3 {
                p[3]
            } else {
                0
            })
        }),
{
}

/// The numbers of a version are those of its parts, in order; a part that is no
/// number is passed over.
pub proof fn lemma_numbers_of_parts(parts: Seq<Seq<char>>, one: Seq<char>)
    ensures
        numbers_in(Seq::<Seq<char>>::empty()).len() == 0,
        numbers_in(parts.push(one)) == match integer_in(one, 10, 0xffff_ffff) {
            Some(v) => numbers_in(parts).push(v as u32),
            None => numbers_in(parts),
        },
{
    assert(parts.push(one).drop_last() =~= parts);
}

/// What is taken from the front is the letter, every time it stands there.
pub proof fn lemma_without_front(s: Seq<char>, c: char)
    ensures
        without_front(s, c).len() <= s.len(),
        without_front(s, c) == s.skip(s.len() - without_front(s, c).len()),
        without_front(s, c).len() > 0 ==> without_front(s, c)[0] != c,
        forall|k: int| 0 <= k < s.len() - without_front(s, c).len() ==> #[trigger] s[k] == c,
    decreases s.len(),
{
    if s.len() > 0 && s[0] == c {
        let t = s.skip(1);
        lemma_without_front(t, c);
        let r = without_front(s, c);
        assert(t.skip(t.len() - r.len()) =~= s.skip(s.len() - r.len()));
        assert forall|k: int| 0 <= k < s.len() - r.len() implies #[trigger] s[k] == c by {
            if k > 0 {
                assert(t[k - 1] == s[k]);
            }
        }
    } else {
        assert(s.skip(0) =~= s);
    }
}

/// The release of a version file is its text without the white space around it,
/// and there is none in an empty file or where there is no file.
pub proof fn lemma_tag_of_file(text: Seq<char>)
    ensures
        tag_in(None) is None,
        trimmed(text).len() == 0 ==> tag_in(Some(text)) is None,
        trimmed(text).len() > 0 ==> tag_in(Some(text)) == Some(trimmed(text)),
{
}

/// A release is what its members say: the tag under `tag_name`, and of each file
/// the name under `name` and the address under `browser_download_url`.
pub proof fn lemma_release_of_members(m: Seq<(Seq<char>, JsonView)>, files: Seq<JsonView>, i: int)
    requires
        field(JsonView::Object(m), "assets"@) == JsonView::List(files),
        0 <= i < files.len(),
    ensures
        ({
            let r = release_view(JsonView::Object(m));
            &&& r.0 == text_value(field(JsonView::Object(m), "tag_name"@))
            &&& r.1 is Some
            &&& (r.1->0).len() == files.len()
            &&& (r.1->0)[i].0 == text_value(field(files[i], "name"@))
            &&& (r.1->0)[i].1 == text_value(field(files[i], "browser_download_url"@))
        }),
{
}

} // verus!
