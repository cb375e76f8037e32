//! What a frame holds and what is shown of it, traced back to the documents of
//! the game.
use vstd::prelude::*;

use crate::calculator::{rows_can_be, Calculator, RowView};
use crate::client::{all_rows, all_shown_can_be, answered, count_of, endpoint_url, endpoints_of, extracted, first_at, framed, gave, gave_all, gave_indicators, has_record, holds_document, lemma_first_at, ok_view, reading, requested, shown_can_be, sourced, url_path, vehicle_in, window_rows_can_be, with_mark, with_vehicle, without_end_slashes, Client, Error, FetchMode, FixtureHttpClient, HttpClient, SyncState, WindowRows};
use crate::defs::{row_height, FieldDef, IndicatorDef, WindowDef};
use crate::derived::{derived, DerivedState};
use crate::fm::{field_of, flaps_limit, with_record, FmRecord};
use crate::json::{leaves, member, says_running, JsonDoc, JsonView, LeafView};
use crate::laws::{conversation, failures, in_order, last_failure, lemma_endpoints_once, lemma_refused_after_failures, Question};
use crate::num::Num;
use crate::text::{begins, occurs_at};

verus! {

/// Whether the member at `i` of a document is the only one of its name.
pub open spec fn only_member(v: Seq<(Seq<char>, LeafView)>, i: int) -> bool {
    0 <= i < v.len() && forall|j: int| 0 <= j < v.len() && j != i ==> (#[trigger] v[j]).0 != v[i].0
}

/// A member that is the only one of its name is found under it, and a name that
/// no member has finds nothing.
pub proof fn lemma_member_by_name(v: Seq<(Seq<char>, LeafView)>, i: int, key: Seq<char>)
    ensures
        only_member(v, i) ==> member(Some(v), v[i].0) == Some(v[i].1),
        (forall|j: int| 0 <= j < v.len() ==> (#[trigger] v[j]).0 != key) ==> member(Some(v), key) is None,
        member(None, key) is None,
    decreases v.len(),
{
    if v.len() > 0 {
        let t = v.skip(1);
        if only_member(v, i) && i > 0 {
            assert(v[0].0 != v[i].0);
            assert forall|j: int| 0 <= j < t.len() && j != i - 1 implies (#[trigger] t[j]).0 != t[i
                - 1].0 by {
                assert(t[j] == v[j + 1]);
                assert(t[i - 1] == v[i]);
            }
            assert(only_member(t, i - 1));
            assert(t[i - 1] == v[i]);
        }
        if forall|j: int| 0 <= j < v.len() ==> (#[trigger] v[j]).0 != key {
            assert(v[0].0 != key);
            assert forall|j: int| 0 <= j < t.len() implies (#[trigger] t[j]).0 != key by {
                assert(t[j] == v[j + 1]);
            }
        }
        lemma_member_by_name(t, i - 1, key);
    }
}

/// The types of fields differ.
proof fn lemma_field_types()
    ensures
        "bool"@ != "f64"@,
        "string"@ != "f64"@,
        "string"@ != "bool"@,
{
    reveal_strlit("bool");
    reveal_strlit("f64");
    reveal_strlit("string");
    assert("bool"@.len() == 4 && "f64"@.len() == 3 && "string"@.len() == 6);
}

/// A field is read from the member of its own key: a number as it is, true as
/// one and false as zero. A member of another type gives nothing, and neither does
/// a field that is a text.
pub proof fn lemma_reading_of_member(v: Seq<(Seq<char>, LeafView)>, i: int, f: FieldDef)
    requires
        only_member(v, i),
        f.api_key@ == v[i].0,
    ensures
        f.field_type@ == "f64"@ ==> reading(Some(v), f) == match v[i].1 {
            LeafView::Number(bits) => Some(Num { bits }),
            _ => None,
        },
        f.field_type@ == "bool"@ ==> reading(Some(v), f) == match v[i].1 {
            LeafView::Truth(true) => Some(Num { bits: 0x3ff0_0000_0000_0000 }),
            LeafView::Truth(false) => Some(Num { bits: 0 }),
            _ => None,
        },
        f.field_type@ != "f64"@ && f.field_type@ != "bool"@ ==> reading(Some(v), f) is None,
{
    lemma_field_types();
    lemma_member_by_name(v, i, f.api_key@);
}

/// A field whose key is not in the document is not read.
pub proof fn lemma_no_reading(doc: Option<Seq<(Seq<char>, LeafView)>>, f: FieldDef)
    requires
        doc is None || forall|j: int|
            0 <= j < (doc->0).len() ==> (#[trigger] (doc->0)[j]).0 != f.api_key@,
    ensures
        reading(doc, f) is None,
{
    if doc is Some {
        lemma_member_by_name(doc->0, 0, f.api_key@);
    }
}

/// A member of a document is the value of JSON under its name: numbers, truth
/// values and texts as they are, and nothing of anything else.
pub proof fn lemma_leaves_of_object(m: Seq<(Seq<char>, JsonView)>, i: int)
    requires
        0 <= i < m.len(),
    ensures
        leaves(JsonView::Object(m)) is Some,
        (leaves(JsonView::Object(m))->0).len() == m.len(),
        (leaves(JsonView::Object(m))->0)[i].0 == m[i].0,
        (leaves(JsonView::Object(m))->0)[i].1 == match m[i].1 {
            JsonView::Number(Some(bits)) => LeafView::Number(crate::num::settled(bits)),
            JsonView::Truth(b) => LeafView::Truth(b),
            JsonView::Text(t) => LeafView::Text(t),
            _ => LeafView::Other,
        },
{
}

/// What is no object has no members.
pub proof fn lemma_leaves_of_others(v: JsonView)
    requires
        !(v is Object),
    ensures
        leaves(v) is None,
{
}

/// The vehicle is the text under `type` in the document of the indicators.
pub proof fn lemma_vehicle_is_the_type(v: Seq<(Seq<char>, LeafView)>, i: int)
    requires
        only_member(v, i),
        v[i].0 == "type"@,
    ensures
        vehicle_in(Some(Some(v))) == match v[i].1 {
            LeafView::Text(t) => Some(t),
            _ => None,
        },
        vehicle_in(None) is None,
{
    lemma_member_by_name(v, i, "type"@);
}

/// Whether `key` is a field that neither the derived fields nor the marks of the
/// flight-model database touch.
pub open spec fn kept(key: Seq<char>) -> bool {
    &&& key != "fuel_consume_calc"@
    &&& key != "fuel_flow"@
    &&& key != "sep"@
    &&& key != "sep_thrust"@
    &&& key != "crit_g_pos"@
    &&& key != "fm_crit_flaps_current"@
    &&& key != "fm_loaded"@
}

/// A frame that holds anything holds the limits of its own vehicle, as they are
/// in the record of that vehicle, and else what was read.
pub proof fn lemma_frame_holds_limits(
    read: Map<Seq<char>, Num>,
    db: Map<Seq<char>, FmRecord>,
    vehicle: Option<Seq<char>>,
    before: DerivedState,
    after: DerivedState,
    now: u64,
    frame: Map<Seq<char>, Num>,
    key: Seq<char>,
)
    requires
        framed(
            with_vehicle(read, db, vehicle),
            before,
            after,
            now,
            has_record(db, vehicle),
            frame,
        ),
        kept(key),
    ensures
        vehicle is Some && db.contains_key(vehicle->0) ==> field_of(frame, key) == field_of(
            with_record(read, db[vehicle->0]),
            key,
        ),
        vehicle is None || !db.contains_key(vehicle->0) ==> field_of(frame, key) == field_of(
            read,
            key,
        ),
{
    let limited = with_vehicle(read, db, vehicle);
    crate::derived::lemma_other_fields_stay(limited, after.fuel, after.tas_history@, now, key);
}

/// The limit of the flaps in a frame is that of the vehicle's record at the
/// extension that was read.
pub proof fn lemma_frame_holds_flap_limit(
    read: Map<Seq<char>, Num>,
    db: Map<Seq<char>, FmRecord>,
    vehicle: Seq<char>,
    before: DerivedState,
    after: DerivedState,
    now: u64,
    frame: Map<Seq<char>, Num>,
)
    requires
        framed(with_vehicle(read, db, Some(vehicle)), before, after, now, true, frame),
        db.contains_key(vehicle),
        read.contains_key("flaps_pct"@),
        !read.contains_key("fm_crit_flaps_current"@),
    ensures
        field_of(frame, "fm_crit_flaps_current"@) == flaps_limit(
            read["flaps_pct"@].bits,
            db[vehicle],
        ),
{
    let rec = db[vehicle];
    reveal_strlit("flaps_pct");
    reveal_strlit("fm_");
    reveal_strlit("fm_crit_flaps_current");
    reveal_strlit("fm_loaded");
    reveal_strlit("fuel_consume_calc");
    reveal_strlit("fuel_flow");
    reveal_strlit("sep");
    reveal_strlit("sep_thrust");
    reveal_strlit("crit_g_pos");
    assert("flaps_pct"@[1] == 'l' && "fm_"@[1] == 'm' && "flaps_pct"@.take(3)[1] == 'l');
    assert(!begins("flaps_pct"@, "fm_"@)) by {
        if begins("flaps_pct"@, "fm_"@) {
            assert("flaps_pct"@[1] == "fm_"@[1]);
        }
    }
    assert("fm_crit_flaps_current"@.len() == 21 && "fm_loaded"@.len() == 9
        && "fuel_consume_calc"@.len() == 17 && "fuel_flow"@.len() == 9 && "sep"@.len() == 3
        && "sep_thrust"@.len() == 10 && "crit_g_pos"@.len() == 10);
    crate::fm::lemma_limits_are_named(read, rec, "flaps_pct"@);
    crate::fm::lemma_current_is_no_limit(read, rec);
    let limited = with_vehicle(read, db, Some(vehicle));
    crate::derived::lemma_other_fields_stay(
        limited,
        after.fuel,
        after.tas_history@,
        now,
        "fm_crit_flaps_current"@,
    );
}

/// A frame says one where the vehicle has a record and zero where it has none.
pub proof fn lemma_mark(frame: Map<Seq<char>, Num>, found: bool)
    requires
        frame != Map::<Seq<char>, Num>::empty(),
    ensures
        with_mark(frame, found).contains_key("fm_loaded"@),
        with_mark(frame, true)["fm_loaded"@].bits == 0x3ff0_0000_0000_0000,
        with_mark(frame, false)["fm_loaded"@].bits == 0,
        with_mark(Map::<Seq<char>, Num>::empty(), found) == Map::<Seq<char>, Num>::empty(),
{
}

/// A window is shown where it is defined, as wide and as high as it says, or 240
/// wide and 26 for every row and 30 more high, in its own style.
pub proof fn lemma_window_is_shown_as_defined(
    w: WindowDef,
    frame: Map<Seq<char>, Num>,
    t: Map<Seq<char>, String>,
    r: WindowRows,
)
    requires
        shown_can_be(w, frame, t, r),
    ensures
        r.id@ == w.id@,
        r.x == w.x,
        r.y == w.y,
        r.style == w.style,
        w.width is Some ==> r.width == w.width->0,
        w.width is None ==> r.width == 240,
        w.height is Some ==> r.height == w.height->0,
        w.height is None && w.indicators@.len() > 0 ==> r.height == 26 * w.indicators@.len() + 30,
        w.height is None && w.indicators@.len() == 0 ==> r.height == 56,
{
}

/// Each more row makes a window 26 higher.
pub proof fn lemma_height_grows_by_rows(n: nat)
    ensures
        row_height(0) == 56,
        row_height(1) == 56,
        n >= 1 ==> row_height(n + 1) == row_height(n) + 26,
{
}

/// A window over a frame that holds nothing shows that the game is offline; one
/// over a frame that holds anything shows the rows of its indicators, or that it
/// waits where they have none.
pub proof fn lemma_what_a_window_shows(
    inds: Seq<IndicatorDef>,
    frame: Map<Seq<char>, Num>,
    t: Map<Seq<char>, String>,
    rows: Seq<RowView>,
)
    requires
        window_rows_can_be(inds, frame, t, rows),
    ensures
        rows.len() > 0,
        frame == Map::<Seq<char>, Num>::empty() ==> rows.len() == 1 && rows[0].label == "WT"@
            && rows[0].value == "offline"@,
        frame != Map::<Seq<char>, Num>::empty() ==> rows_can_be(inds, frame, t, rows) || (
        rows_can_be(inds, frame, t, Seq::<RowView>::empty()) && rows.len() == 1 && rows[0].label
            == "WT"@ && rows[0].value == "waiting"@),
{
}

/// What is taken from the end of a base url is slashes, and all of them.
pub proof fn lemma_no_slash_at_end(s: Seq<char>)
    ensures
        without_end_slashes(s).len() <= s.len(),
        without_end_slashes(s) == s.take(without_end_slashes(s).len() as int),
        without_end_slashes(s).len() > 0 ==> without_end_slashes(s).last() != '/',
        forall|i: int| without_end_slashes(s).len() <= i < s.len() ==> #[trigger] s[i] == '/',
    decreases s.len(),
{
    if s.len() > 0 && s.last() == '/' {
        lemma_no_slash_at_end(s.drop_last());
        let r = without_end_slashes(s);
        assert(s.drop_last().take(r.len() as int) =~= s.take(r.len() as int));
        assert forall|i: int| r.len() <= i < s.len() implies #[trigger] s[i] == '/' by {
            if i < s.len() - 1 {
                assert(s.drop_last()[i] == s[i]);
            }
        }
    } else {
        assert(s.take(s.len() as int) =~= s);
    }
}

/// A url is the base without the slashes at its end, one slash, and the endpoint.
pub proof fn lemma_url_of_endpoint(base: Seq<char>, name: Seq<char>)
    requires
        name.len() > 0,
        name[0] != '/',
    ensures
        endpoint_url(base, name) == without_end_slashes(base) + seq!['/'] + name,
        endpoint_url(base, seq!['/'] + name) == without_end_slashes(base) + seq!['/'] + name,
{
    reveal_strlit("/");
    assert("/"@ =~= seq!['/']);
    let with = seq!['/'] + name;
    assert(with.take(1) =~= seq!['/']);
    assert(!begins(name, "/"@)) by {
        if begins(name, "/"@) {
            assert(name[0] == "/"@[0]);
        }
    }
    assert(begins(with, "/"@));
    assert(without_end_slashes(base) + with =~= without_end_slashes(base) + seq!['/'] + name);
}

/// A new client that asks on demand refuses every question for five seconds
/// after the tenth request in a row that failed, without a request, and refuses
/// none before.
pub proof fn lemma_new_client_gives_up_after_ten<H: HttpClient>(
    c: Client<H>,
    http: H,
    base: Seq<char>,
    fields: Vec<FieldDef>,
    config_dir: String,
    fm_dir: String,
    run: Seq<Question<H>>,
    next: Question<H>,
)
    requires
        c.starts_sync(http, base, fields, config_dir, fm_dir),
        run.len() > 0,
        run.len() <= usize::MAX,
        conversation(run),
        c.mode matches FetchMode::Sync { state } && run[0].before.0 == state,
        next.before == run.last().after,
        in_order(next),
        last_failure(run) < 0x7fff_ffff_ffff_ffff,
    ensures
        failures(run) >= 10 && next.checked < last_failure(run) + 5_000_000_000 ==> (next.answer
            matches Err(Error::CircuitOpen)) && next.after == next.before,
        failures(run) < 10 ==> !next.before.0.closed_at(next.checked),
        failures(run) >= 10 && next.checked >= last_failure(run) + 5_000_000_000
            ==> !next.before.0.closed_at(next.checked),
{
    lemma_refused_after_failures(run, next);
}

/// A new client that asks on demand takes a document for fresh for 16
/// milliseconds, and repeats no request.
pub proof fn lemma_new_client_is_patient<H: HttpClient>(
    c: Client<H>,
    http: H,
    base: Seq<char>,
    fields: Vec<FieldDef>,
    config_dir: String,
    fm_dir: String,
)
    requires
        c.starts_sync(http, base, fields, config_dir, fm_dir),
    ensures
        c.mode matches FetchMode::Sync { state } && state.min_interval == 16_000_000
            && state.retry_limit == 0 && state.cache@ == Map::<Seq<char>, crate::json::JsonDoc>::empty()
            && state.base_url@ == base,
        c.fm_version_tag@.len() == 0,
        c.config_dir == config_dir,
        c.fm_dir == fm_dir,
        c.fields == fields,
{
    reveal_strlit("");
}

/// A document of an endpoint fills in the fields of that endpoint and leaves the
/// others.
pub proof fn lemma_other_endpoints_untouched(
    frame: Map<Seq<char>, Num>,
    doc: Option<Seq<(Seq<char>, LeafView)>>,
    fields: Seq<FieldDef>,
    endpoint: Seq<char>,
    key: Seq<char>,
)
    requires
        forall|i: int|
            0 <= i < fields.len() && (#[trigger] fields[i]).id@ == key ==> fields[i].endpoint@
                != endpoint,
    ensures
        field_of(extracted(frame, doc, fields, endpoint), key) == field_of(frame, key),
    decreases fields.len(),
{
    if fields.len() > 0 {
        let front = fields.drop_last();
        assert forall|i: int|
            0 <= i < front.len() && (#[trigger] front[i]).id@ == key implies front[i].endpoint@
            != endpoint by {
            assert(front[i] == fields[i]);
        }
        lemma_other_endpoints_untouched(frame, doc, front, endpoint, key);
        assert(fields[fields.len() - 1] == fields.last());
    }
}

/// A client that works on stored documents gives each endpoint the document that
/// is stored under its own name, and none where none is stored. The document of
/// the indicators is the one stored as "indicators", or else as "/indicators".
pub proof fn lemma_stored_documents<H: HttpClient>(
    before: (FetchMode, H),
    after: (FetchMode, H),
    endpoints: Seq<Seq<char>>,
    docs: Seq<Option<Option<Seq<(Seq<char>, LeafView)>>>>,
    indicators: Option<Option<Seq<(Seq<char>, LeafView)>>>,
)
    requires
        before.0 is Background,
        sourced(before, after, endpoints, docs, indicators),
    ensures
        ({
            let cache: Map<Seq<char>, JsonDoc> = before.0->cache@;
            &&& after == before
            &&& docs.len() == endpoints.len()
            &&& forall|i: int|
                0 <= i < endpoints.len() ==> {
                    &&& (#[trigger] docs[i] is Some) == cache.contains_key(endpoints[i])
                    &&& docs[i] is Some ==> docs[i]->0 == cache[endpoints[i]]@
                }
            &&& cache.contains_key("indicators"@) ==> indicators == Some(cache["indicators"@]@)
            &&& !cache.contains_key("indicators"@) && cache.contains_key("/indicators"@)
                ==> indicators == Some(cache["/indicators"@]@)
            &&& !cache.contains_key("indicators"@) && !cache.contains_key("/indicators"@)
                ==> indicators is None
        }),
{
}

/// A client that asks for its documents asks for the endpoints in their order, and
/// then for the indicators, in the second spelling only where the first gave
/// nothing.
pub proof fn lemma_documents_are_asked_for<H: HttpClient>(
    before: (FetchMode, H),
    after: (FetchMode, H),
    endpoints: Seq<Seq<char>>,
    docs: Seq<Option<Option<Seq<(Seq<char>, LeafView)>>>>,
    indicators: Option<Option<Seq<(Seq<char>, LeafView)>>>,
)
    requires
        before.0 is Sync,
        sourced(before, after, endpoints, docs, indicators),
    ensures
        docs.len() == endpoints.len(),
        after.0 is Sync,
        exists|trail: Seq<(SyncState, H)>|
            {
                let last: (SyncState, H) = (after.0->state, after.1);
                &&& trail.len() == endpoints.len() + 1
                &&& #[trigger] trail[0] == (before.0->state, before.1)
                &&& forall|i: int|
                    0 <= i < endpoints.len() ==> gave(
                        trail[i],
                        trail[i + 1],
                        endpoints[i],
                        #[trigger] docs[i],
                    )
                &&& (indicators is Some && gave(trail.last(), last, "indicators"@, indicators)) || (
                exists|mid: (SyncState, H)|
                    #[trigger] gave(trail.last(), mid, "indicators"@, None) && gave(
                        mid,
                        last,
                        "/indicators"@,
                        indicators,
                    ))
            },
{
    let trail = choose|trail: Seq<(SyncState, H)>| #[trigger]
        gave_all(trail, endpoints, docs) && trail[0] == (before.0->state, before.1)
            && gave_indicators(trail.last(), (after.0->state, after.1), indicators);
    assert(trail[0] == (before.0->state, before.1));
}

/// The rows of windows stand one window after the other, each window's rows in
/// their order.
pub proof fn lemma_rows_of_windows(a: Seq<WindowRows>, b: Seq<WindowRows>, w: WindowRows)
    ensures
        all_rows(Seq::<WindowRows>::empty()).len() == 0,
        all_rows(seq![w]) == w.rows@,
        all_rows(a + b) == all_rows(a) + all_rows(b),
    decreases b.len(),
{
    assert(seq![w].drop_last() =~= Seq::<WindowRows>::empty());
    assert(all_rows(Seq::<WindowRows>::empty()) =~= Seq::empty());
    assert(all_rows(seq![w]) =~= w.rows@);
    if b.len() == 0 {
        assert(a + b =~= a);
        assert(all_rows(a) + all_rows(b) =~= all_rows(a));
    } else {
        lemma_rows_of_windows(a, b.drop_last(), w);
        assert((a + b).drop_last() =~= a + b.drop_last());
        assert((a + b).last() == b.last());
        assert(all_rows(a) + (all_rows(b.drop_last()) + b.last().rows@) =~= (all_rows(a)
            + all_rows(b.drop_last())) + b.last().rows@);
    }
}

/// A notice is a plain row of the client's own, without a unit or a style.
pub proof fn lemma_notices_are_plain(
    inds: Seq<IndicatorDef>,
    frame: Map<Seq<char>, Num>,
    t: Map<Seq<char>, String>,
    rows: Seq<RowView>,
)
    requires
        window_rows_can_be(inds, frame, t, rows),
        frame == Map::<Seq<char>, Num>::empty() || !rows_can_be(inds, frame, t, rows),
    ensures
        rows.len() == 1,
        rows[0].label == "WT"@,
        rows[0].unit.len() == 0,
        rows[0].color == "unit"@,
        rows[0].style is None,
{
    reveal_strlit("");
}

/// A mission runs where the text under `status` in its document is "running".
pub proof fn lemma_mission_runs(v: Seq<(Seq<char>, LeafView)>, i: int)
    requires
        only_member(v, i),
        v[i].0 == "status"@,
    ensures
        says_running(Some(v)) == (v[i].1 == LeafView::Text("running"@)),
        !says_running(None),
{
    lemma_member_by_name(v, i, "status"@);
}

/// A request is repeated until a reply holds a document, and no more often than the
/// limit allows; it fails only where the first one and all its repetitions gave
/// none. Every one of them is for the same url.
pub proof fn lemma_requests_are_repeated<H: HttpClient>(
    passed: Seq<H>,
    url: Seq<char>,
    limit: usize,
    replies: Seq<Result<String, Error>>,
    r: Result<JsonDoc, Error>,
)
    requires
        requested(passed, url, limit, replies, r),
    ensures
        1 <= replies.len() <= limit + 1,
        r is Ok ==> holds_document(replies.last()),
        r is Err ==> replies.len() == limit + 1 && !holds_document(replies.last()),
        forall|i: int| 0 <= i < replies.len() - 1 ==> !holds_document(#[trigger] replies[i]),
        forall|i: int|
            0 <= i < replies.len() ==> passed[i].answers(url, #[trigger] replies[i], passed[i + 1]),
{
}

/// Fields of the endpoint "__virtual__" are asked for nowhere, and those of any
/// other endpoint at it. More fields leave the endpoints so far in their places.
pub proof fn lemma_endpoints_of_fields(a: Seq<FieldDef>, b: Seq<FieldDef>, i: int)
    requires
        0 <= i < a.len(),
    ensures
        !endpoints_of(a).contains("__virtual__"@),
        a[i].endpoint@ != "__virtual__"@ ==> endpoints_of(a).contains(a[i].endpoint@),
        endpoints_of(a).len() <= endpoints_of(a + b).len(),
        endpoints_of(a + b).take(endpoints_of(a).len() as int) == endpoints_of(a),
    decreases b.len(),
{
    lemma_endpoints_once(a);
    if b.len() == 0 {
        assert(a + b =~= a);
        assert(endpoints_of(a).take(endpoints_of(a).len() as int) =~= endpoints_of(a));
    } else {
        lemma_endpoints_of_fields(a, b.drop_last(), i);
        assert((a + b).drop_last() =~= a + b.drop_last());
        let front = endpoints_of(a + b.drop_last());
        let n: int = endpoints_of(a).len() as int;
        assert(endpoints_of(a + b).take(n) =~= front.take(n));
    }
}

/// Whether `s` holds no slash.
pub open spec fn slash_free(s: Seq<char>) -> bool {
    forall|i: int| 0 <= i < s.len() ==> #[trigger] s[i] != '/'
}

/// What begins with a slash stands first where the text in front holds none.
proof fn lemma_first_slash(front: Seq<char>, p: Seq<char>, rest: Seq<char>)
    requires
        slash_free(front),
        p.len() > 0,
        p[0] == '/',
    ensures
        occurs_at(front + p + rest, p, front.len() as int),
        first_at(front + p + rest, p) == front.len(),
        forall|j: int| 0 <= j < front.len() ==> !occurs_at(front + p + rest, p, j),
        (front + p + rest).skip((front.len() + p.len()) as int) == rest,
        (front + p + rest).skip(front.len() as int) == p + rest,
{
    let x = front + p + rest;
    let n: int = front.len() as int;
    assert(x.subrange(n, n + p.len()) =~= p);
    assert forall|j: int| 0 <= j < n implies !occurs_at(x, p, j) by {
        if occurs_at(x, p, j) {
            assert(x.subrange(j, j + p.len())[0] == x[j]);
            assert(x[j] == front[j]);
        }
    }
    lemma_first_at(x, p, n);
    assert(x.skip(n + p.len()) =~= rest);
    assert(x.skip(n) =~= p + rest);
}

/// Nothing that begins with a slash stands in a text without one.
proof fn lemma_no_slash(s: Seq<char>, p: Seq<char>)
    requires
        slash_free(s),
        p.len() > 0,
        p[0] == '/',
    ensures
        forall|j: int| !occurs_at(s, p, j),
{
    assert forall|j: int| !occurs_at(s, p, j) by {
        if occurs_at(s, p, j) {
            assert(s.subrange(j, j + p.len())[0] == s[j]);
        }
    }
}

/// The two marks of a url begin with a slash.
proof fn lemma_slashes()
    ensures
        "//"@.len() == 2,
        "//"@[0] == '/',
        "/"@.len() == 1,
        "/"@[0] == '/',
{
    reveal_strlit("//");
    reveal_strlit("/");
}

/// Behind the scheme and the host stands the path.
proof fn lemma_behind_host(scheme: Seq<char>, rest: Seq<char>, k: int)
    requires
        slash_free(scheme),
        occurs_at(rest, "/"@, k),
        first_at(rest, "/"@) == k,
        forall|j: int| 0 <= j < k ==> !occurs_at(rest, "/"@, j),
    ensures
        url_path(scheme + "//"@ + rest) == rest.skip(k),
{
    lemma_slashes();
    let url = scheme + "//"@ + rest;
    lemma_first_slash(scheme, "//"@, rest);
    assert(exists|i: int| occurs_at(url, "//"@, i));
    assert(url.skip(first_at(url, "//"@) + 2) == rest);
    assert(exists|i: int| occurs_at(rest, "/"@, i));
}

/// Without a slash behind the scheme there is no path but "/".
proof fn lemma_host_alone(scheme: Seq<char>, host: Seq<char>)
    requires
        slash_free(scheme),
        slash_free(host),
    ensures
        url_path(scheme + "//"@ + host) == "/"@,
{
    lemma_slashes();
    let url = scheme + "//"@ + host;
    lemma_first_slash(scheme, "//"@, host);
    lemma_no_slash(host, "/"@);
    assert(exists|i: int| occurs_at(url, "//"@, i));
    assert(url.skip(first_at(url, "//"@) + 2) == host);
}

/// The path of a url begins behind the host; a url that ends with its host has the
/// path "/", and a text without two slashes is a path itself.
pub proof fn lemma_path_of_url(scheme: Seq<char>, host: Seq<char>, rest: Seq<char>)
    requires
        slash_free(scheme),
        slash_free(host),
    ensures
        url_path(scheme + "//"@ + (host + "/"@ + rest)) == "/"@ + rest,
        url_path(scheme + "//"@ + host) == "/"@,
        url_path(host) == host,
{
    lemma_slashes();
    assert(url_path(scheme + "//"@ + (host + "/"@ + rest)) == "/"@ + rest) by {
        lemma_first_slash(host, "/"@, rest);
        lemma_behind_host(scheme, host + "/"@ + rest, host.len() as int);
    }
    lemma_host_alone(scheme, host);
    assert(url_path(host) == host) by {
        lemma_no_slash(host, "//"@);
    }
}

/// A table of replies counts the requests for each path, and keeps its replies.
pub proof fn lemma_requests_are_counted(
    before: FixtureHttpClient,
    after: FixtureHttpClient,
    url: Seq<char>,
    r: Result<String, Error>,
    other: Seq<char>,
)
    requires
        before.replies(url, r, after),
    ensures
        after.fixtures@ == before.fixtures@,
        count_of(before.calls@, url_path(url)) < usize::MAX ==> count_of(
            after.calls@,
            url_path(url),
        ) == count_of(before.calls@, url_path(url)) + 1,
        other != url_path(url) ==> count_of(after.calls@, other) == count_of(before.calls@, other),
        !before.calls@.contains_key(other) ==> count_of(before.calls@, other) == 0,
{
}

/// What an endpoint gave is the document that it was answered with, and nothing
/// where the answer was an error.
pub proof fn lemma_what_an_endpoint_gave<H: HttpClient>(
    before: (SyncState, H),
    after: (SyncState, H),
    endpoint: Seq<char>,
    doc: Option<Option<Seq<(Seq<char>, LeafView)>>>,
)
    requires
        gave(before, after, endpoint, doc),
    ensures
        exists|r: Result<JsonDoc, Error>| #[trigger]
            answered(before, after, endpoint, r) && (doc is None <==> r is Err) && (r matches Ok(d)
                ==> doc == Some(d@)),
{
    let r = choose|r: Result<JsonDoc, Error>| #[trigger]
        answered(before, after, endpoint, r) && doc == ok_view(r);
    assert(answered(before, after, endpoint, r));
}

/// Every window is shown, in the order of the windows, and as itself.
pub proof fn lemma_every_window_is_shown(
    w: Seq<(WindowDef, Calculator)>,
    frame: Map<Seq<char>, Num>,
    t: Map<Seq<char>, String>,
    r: Seq<WindowRows>,
    i: int,
)
    requires
        all_shown_can_be(w, frame, t, r),
        0 <= i < w.len(),
    ensures
        r.len() == w.len(),
        shown_can_be(w[i].0, frame, t, r[i]),
{
    assert(shown_can_be(w[i].0, frame, t, r[i]));
}

} // verus!
