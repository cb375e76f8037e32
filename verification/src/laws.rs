//! What holds of a client as a whole.
use vstd::prelude::*;

use crate::calculator::RowView;
use crate::client::{answered_at, capped, count_of, doc_views, endpoint_path, endpoint_url, endpoints_of, extracted, framed, has_record, holds_document, notice, reading, readings, real_endpoint, requested, since, text_fields, url_path, window_rows_can_be, with_vehicle, Client, Error, FixtureHttpClient, HttpClient, SyncState};
use crate::defs::{FieldDef, IndicatorDef};
use crate::derived::{lemma_other_fields_stay, DerivedState, ONE};
use crate::fm::{lemma_limits_are_named, FmRecord};
use crate::json::{document, JsonDoc, LeafView};
use crate::num::Num;
use crate::text::begins;

verus! {

/// An endpoint is asked for at the same url with and without the slash in front.
pub proof fn lemma_slash_or_none(base: Seq<char>, endpoint: Seq<char>)
    requires
        !begins(endpoint, "/"@),
    ensures
        begins(endpoint_path(endpoint), "/"@),
        endpoint_url(base, "/"@ + endpoint) == endpoint_url(base, endpoint),
{
    reveal_strlit("/");
    assert(("/"@ + endpoint).take(1) =~= "/"@);
    assert(begins("/"@ + endpoint, "/"@));
}

/// A document that came in at `t` closes the breaker, and is the answer until it
/// is no longer fresh.
pub proof fn lemma_success_is_remembered(
    before: SyncState,
    after: SyncState,
    endpoint: Seq<char>,
    doc: Option<Seq<(Seq<char>, LeafView)>>,
    t: u64,
    now: u64,
)
    requires
        after.after_success(before, endpoint, doc, t),
    ensures
        !after.closed_at(now),
        after.fresh_at(endpoint, now) <==> since(now, t) < before.min_interval,
        after.cache@.contains_key(endpoint),
        after.cache@[endpoint]@ == doc,
{
    let views = doc_views(after.cache@);
    assert(views.contains_key(endpoint));
    assert(views[endpoint] == doc);
}

/// A fresh document is the answer, and nothing is asked.
pub proof fn lemma_fresh_without_request<H: HttpClient>(
    before: (SyncState, H),
    after: (SyncState, H),
    endpoint: Seq<char>,
    r: Result<JsonDoc, Error>,
    checked: u64,
    now: u64,
    noted: u64,
)
    requires
        answered_at(before, after, endpoint, r, checked, now, noted),
        !before.0.closed_at(checked),
        before.0.fresh_at(endpoint, now),
    ensures
        r is Ok,
        r->Ok_0@ == before.0.cache@[endpoint]@,
        after == before,
{
}

/// While the breaker is open every endpoint is refused, and nothing is asked.
pub proof fn lemma_refused_without_request<H: HttpClient>(
    before: (SyncState, H),
    after: (SyncState, H),
    endpoint: Seq<char>,
    r: Result<JsonDoc, Error>,
    checked: u64,
    now: u64,
    noted: u64,
)
    requires
        answered_at(before, after, endpoint, r, checked, now, noted),
        before.0.closed_at(checked),
    ensures
        r matches Err(Error::CircuitOpen),
        after == before,
{
}

/// One question to a client that asks on demand, what it was answered, and the
/// readings of the clock meanwhile.
pub struct Question<H> {
    pub before: (SyncState, H),
    pub after: (SyncState, H),
    pub endpoint: Seq<char>,
    pub answer: Result<JsonDoc, Error>,
    pub checked: u64,
    pub now: u64,
    pub noted: u64,
}

/// Whether a question can be answered so.
pub open spec fn in_order<H: HttpClient>(q: Question<H>) -> bool {
    answered_at(q.before, q.after, q.endpoint, q.answer, q.checked, q.now, q.noted)
}

/// Whether a question leads to a request: the breaker lets it through, and
/// there is no fresh document.
pub open spec fn asks<H: HttpClient>(q: Question<H>) -> bool {
    !q.before.0.closed_at(q.checked) && !q.before.0.fresh_at(q.endpoint, q.now)
}

/// Whether the questions can be answered so, one after the other.
pub open spec fn conversation<H: HttpClient>(run: Seq<Question<H>>) -> bool {
    &&& forall|i: int| 0 <= i < run.len() ==> in_order(#[trigger] run[i])
    &&& forall|i: int| 0 < i < run.len() ==> (#[trigger] run[i]).before == run[i - 1].after
}

/// The number of requests that failed since one last succeeded.
pub open spec fn failures<H: HttpClient>(run: Seq<Question<H>>) -> nat
    decreases run.len(),
{
    if run.len() == 0 {
        0
    } else if !asks(run.last()) {
        failures(run.drop_last())
    } else if run.last().answer is Ok {
        0
    } else {
        failures(run.drop_last()) + 1
    }
}

/// When a request last failed.
pub open spec fn last_failure<H: HttpClient>(run: Seq<Question<H>>) -> u64
    decreases run.len(),
{
    if run.len() == 0 {
        0
    } else if asks(run.last()) && run.last().answer is Err {
        run.last().noted
    } else {
        last_failure(run.drop_last())
    }
}

/// When the breaker lets requests through again, after the last failure.
pub open spec fn reopened<H: HttpClient>(run: Seq<Question<H>>, backoff: u64) -> nat {
    capped(last_failure(run) as nat, backoff as nat, u64::MAX as nat)
}

/// The breaker counts the requests that failed since one last succeeded. It is
/// open once they have reached the threshold, for the backoff from the last
/// failure on, and not before.
pub proof fn lemma_failures_open_breaker<H: HttpClient>(run: Seq<Question<H>>)
    requires
        run.len() > 0,
        conversation(run),
        run[0].before.0.consecutive_failures == 0,
        run[0].before.0.failed_until is None,
        run[0].before.0.failure_threshold > 0,
        run.len() <= usize::MAX,
    ensures
        ({
            let first = run[0].before.0;
            let last = run.last().after.0;
            &&& last.consecutive_failures == failures(run)
            &&& last.same_limits(first)
            &&& failures(run) < first.failure_threshold ==> forall|t: u64| !last.closed_at(t)
            &&& failures(run) >= first.failure_threshold ==> forall|t: u64|
                last.closed_at(t) <==> t < reopened(run, first.failure_backoff)
        }),
{
    lemma_breaker_after(run);
}

/// The state of the breaker after a conversation.
proof fn lemma_breaker_after<H: HttpClient>(run: Seq<Question<H>>)
    requires
        run.len() > 0,
        conversation(run),
        run[0].before.0.consecutive_failures == 0,
        run[0].before.0.failed_until is None,
        run[0].before.0.failure_threshold > 0,
        run.len() <= usize::MAX,
    ensures
        run.last().after.0.consecutive_failures == failures(run),
        failures(run) <= run.len(),
        run.last().after.0.same_limits(run[0].before.0),
        run.last().after.0.failed_until == if failures(run) < run[0].before.0.failure_threshold {
            None
        } else {
            Some(reopened(run, run[0].before.0.failure_backoff) as u64)
        },
    decreases run.len(),
{
    let n = run.len() - 1;
    let front = run.drop_last();
    assert(in_order(run[n]));
    if n > 0 {
        assert forall|i: int| 0 <= i < front.len() implies in_order(#[trigger] front[i]) by {
            assert(front[i] == run[i]);
        }
        assert forall|i: int| 0 < i < front.len() implies (#[trigger] front[i]).before == front[i
            - 1].after by {
            assert(front[i] == run[i]);
            assert(front[i - 1] == run[i - 1]);
        }
        lemma_breaker_after(front);
        assert(run[n].before == run[n - 1].after);
        assert(front.last() == run[n - 1]);
        assert(front[0] == run[0]);
    } else {
        assert(failures(front) == 0);
    }
}

/// Once as many requests have failed in a row as the threshold says, any
/// question is refused until the backoff has passed, and nothing is asked.
/// While fewer have failed since the last success no question is refused.
pub proof fn lemma_refused_after_failures<H: HttpClient>(
    run: Seq<Question<H>>,
    next: Question<H>,
)
    requires
        run.len() > 0,
        conversation(run),
        run[0].before.0.consecutive_failures == 0,
        run[0].before.0.failed_until is None,
        run[0].before.0.failure_threshold > 0,
        run.len() <= usize::MAX,
        next.before == run.last().after,
        in_order(next),
    ensures
        ({
            let first = run[0].before.0;
            if failures(run) >= first.failure_threshold && next.checked < reopened(
                run,
                first.failure_backoff,
            ) {
                &&& next.answer matches Err(Error::CircuitOpen)
                &&& next.after == next.before
            } else {
                !next.before.0.closed_at(next.checked) && (asks(next) || next.answer is Ok)
            }
        }),
{
    lemma_breaker_after(run);
}

/// Every endpoint is asked for once, and all that a field names are, but for
/// the mark of the fields that are computed.
pub proof fn lemma_endpoints_once(fields: Seq<FieldDef>)
    ensures
        endpoints_of(fields).no_duplicates(),
        forall|e: Seq<char>| #[trigger]
            endpoints_of(fields).contains(e) <==> real_endpoint(e) && exists|i: int|
                0 <= i < fields.len() && (#[trigger] fields[i]).endpoint@ == e,
    decreases fields.len(),
{
    if fields.len() > 0 {
        let front = fields.drop_last();
        let known = endpoints_of(front);
        let last = fields.last().endpoint@;
        lemma_endpoints_once(front);
        assert forall|e: Seq<char>| #[trigger]
            endpoints_of(fields).contains(e) <==> real_endpoint(e) && exists|i: int|
                0 <= i < fields.len() && (#[trigger] fields[i]).endpoint@ == e by {
            let all = endpoints_of(fields);
            if all.contains(e) {
                let k = choose|k: int| 0 <= k < all.len() && all[k] == e;
                if k < known.len() {
                    assert(known[k] == e);
                    assert(known.contains(e));
                    let i = choose|i: int| 0 <= i < front.len() && (#[trigger] front[i]).endpoint@ == e;
                    assert(fields[i].endpoint@ == e);
                } else {
                    assert(fields[fields.len() - 1].endpoint@ == e);
                }
            }
            if real_endpoint(e) && exists|i: int|
                0 <= i < fields.len() && (#[trigger] fields[i]).endpoint@ == e {
                let i = choose|i: int| 0 <= i < fields.len() && (#[trigger] fields[i]).endpoint@ == e;
                if i < front.len() {
                    assert(front[i].endpoint@ == e);
                    assert(known.contains(e));
                    let k = choose|k: int| 0 <= k < known.len() && known[k] == e;
                    assert(all[k] == e);
                } else if known.contains(e) {
                    let k = choose|k: int| 0 <= k < known.len() && known[k] == e;
                    assert(all[k] == e);
                } else {
                    assert(all[all.len() - 1] == e);
                }
            }
        }
        if real_endpoint(last) && !known.contains(last) {
            assert(endpoints_of(fields) == known.push(last));
            assert forall|i: int, j: int|
                0 <= i < known.push(last).len() && 0 <= j < known.push(last).len() && i
                    != j implies known.push(last)[i] != known.push(last)[j] by {
                if i < known.len() {
                    assert(known.contains(known[i]));
                }
                if j < known.len() {
                    assert(known.contains(known[j]));
                }
            }
        }
    }
}

/// Whether no two fields have one name.
pub open spec fn named_apart(fields: Seq<FieldDef>) -> bool {
    forall|i: int, j: int|
        0 <= i < j < fields.len() ==> (#[trigger] fields[i]).id@ != (#[trigger] fields[j]).id@
}

/// What a document adds of one field.
proof fn lemma_extracted(
    frame: Map<Seq<char>, Num>,
    doc: Option<Seq<(Seq<char>, LeafView)>>,
    fields: Seq<FieldDef>,
    endpoint: Seq<char>,
    k: int,
)
    requires
        named_apart(fields),
        0 <= k < fields.len(),
    ensures
        ({
            let f = fields[k];
            let after = extracted(frame, doc, fields, endpoint);
            if f.endpoint@ == endpoint && reading(doc, f) is Some {
                after.contains_key(f.id@) && after[f.id@] == reading(doc, f)->0
            } else {
                &&& after.contains_key(f.id@) == frame.contains_key(f.id@)
                &&& frame.contains_key(f.id@) ==> after[f.id@] == frame[f.id@]
            }
        }),
    decreases fields.len(),
{
    let front = fields.drop_last();
    assert(named_apart(front)) by {
        assert forall|i: int, j: int| 0 <= i < j < front.len() implies (#[trigger] front[i]).id@
            != (#[trigger] front[j]).id@ by {
            assert(front[i] == fields[i] && front[j] == fields[j]);
        }
    }
    if k < front.len() {
        lemma_extracted(frame, doc, front, endpoint, k);
        assert(front[k] == fields[k]);
        assert(fields[k].id@ != fields[fields.len() - 1].id@);
    } else {
        lemma_unnamed(frame, doc, front, endpoint, fields[k].id@);
    }
}

/// A document adds nothing under a name that no field has.
proof fn lemma_unnamed(
    frame: Map<Seq<char>, Num>,
    doc: Option<Seq<(Seq<char>, LeafView)>>,
    fields: Seq<FieldDef>,
    endpoint: Seq<char>,
    id: Seq<char>,
)
    requires
        forall|i: int| 0 <= i < fields.len() ==> (#[trigger] fields[i]).id@ != id,
    ensures
        extracted(frame, doc, fields, endpoint).contains_key(id) == frame.contains_key(id),
        frame.contains_key(id) ==> extracted(frame, doc, fields, endpoint)[id] == frame[id],
    decreases fields.len(),
{
    if fields.len() > 0 {
        let front = fields.drop_last();
        assert forall|i: int| 0 <= i < front.len() implies (#[trigger] front[i]).id@ != id by {
            assert(front[i] == fields[i]);
        }
        lemma_unnamed(frame, doc, front, endpoint, id);
        assert(fields[fields.len() - 1].id@ != id);
    }
}

/// The number that the documents of the endpoints give for a field: that of the
/// document of its own endpoint, where there is one.
pub open spec fn own_reading(
    f: FieldDef,
    endpoints: Seq<Seq<char>>,
    docs: Seq<Option<Option<Seq<(Seq<char>, LeafView)>>>>,
) -> Option<Num>
    decreases endpoints.len(),
{
    if endpoints.len() == 0 {
        None
    } else if endpoints.last() == f.endpoint@ {
        match docs.last() {
            Some(doc) => reading(doc, f),
            None => None,
        }
    } else {
        own_reading(f, endpoints.drop_last(), docs.drop_last())
    }
}

/// The own document of a field is that of the place at which its endpoint stands.
pub proof fn lemma_own_reading(
    f: FieldDef,
    endpoints: Seq<Seq<char>>,
    docs: Seq<Option<Option<Seq<(Seq<char>, LeafView)>>>>,
    i: int,
)
    requires
        endpoints.len() == docs.len(),
        endpoints.no_duplicates(),
        0 <= i < endpoints.len(),
        endpoints[i] == f.endpoint@,
    ensures
        own_reading(f, endpoints, docs) == (match docs[i] {
            Some(doc) => reading(doc, f),
            None => None,
        }),
    decreases endpoints.len(),
{
    if i < endpoints.len() - 1 {
        assert(endpoints.last() == endpoints[endpoints.len() - 1]);
        lemma_own_reading(f, endpoints.drop_last(), docs.drop_last(), i);
    }
}

/// Where no two fields have one name, the readings hold of each field what the
/// document of its endpoint gives for it, and nothing where it gives nothing.
pub proof fn lemma_readings(
    fields: Seq<FieldDef>,
    endpoints: Seq<Seq<char>>,
    docs: Seq<Option<Option<Seq<(Seq<char>, LeafView)>>>>,
    k: int,
)
    requires
        named_apart(fields),
        endpoints.no_duplicates(),
        endpoints.len() == docs.len(),
        0 <= k < fields.len(),
    ensures
        ({
            let read = readings(fields, endpoints, docs);
            let id = fields[k].id@;
            match own_reading(fields[k], endpoints, docs) {
                Some(n) => read.contains_key(id) && read[id] == n,
                None => !read.contains_key(id),
            }
        }),
    decreases endpoints.len(),
{
    if endpoints.len() > 0 {
        let front = endpoints.drop_last();
        let earlier = docs.drop_last();
        lemma_readings(fields, front, earlier, k);
        match docs.last() {
            Some(doc) => {
                lemma_extracted(readings(fields, front, earlier), doc, fields, endpoints.last(), k);
            },
            None => {},
        }
        if endpoints.last() == fields[k].endpoint@ {
            assert forall|i: int| 0 <= i < front.len() implies front[i] != fields[k].endpoint@ by {
                assert(endpoints[i] != endpoints[endpoints.len() - 1]);
            }
            lemma_no_own(fields[k], front, earlier);
        }
    }
}

/// A field whose endpoint is not among the endpoints has no reading.
proof fn lemma_no_own(
    f: FieldDef,
    endpoints: Seq<Seq<char>>,
    docs: Seq<Option<Option<Seq<(Seq<char>, LeafView)>>>>,
)
    requires
        forall|i: int| 0 <= i < endpoints.len() ==> endpoints[i] != f.endpoint@,
    ensures
        own_reading(f, endpoints, docs) is None,
    decreases endpoints.len(),
{
    if endpoints.len() > 0 {
        assert(endpoints[endpoints.len() - 1] != f.endpoint@);
        lemma_no_own(f, endpoints.drop_last(), docs.drop_last());
    }
}

/// Whether `id` is none of the names under which a frame holds what is computed
/// or comes from the flight-model database.
pub open spec fn reported(id: Seq<char>) -> bool {
    &&& !begins(id, "fm_"@)
    &&& id != "fuel_consume_calc"@
    &&& id != "fuel_flow"@
    &&& id != "sep"@
    &&& id != "sep_thrust"@
    &&& id != "crit_g_pos"@
}

/// The frame of a client holds of each field that the game reports what the
/// document of its endpoint gives for it, unchanged, and nothing where it gives
/// nothing.
pub proof fn lemma_frame_holds_readings(
    fields: Seq<FieldDef>,
    docs: Seq<Option<Option<Seq<(Seq<char>, LeafView)>>>>,
    db: Map<Seq<char>, FmRecord>,
    vehicle: Option<Seq<char>>,
    before: DerivedState,
    after: DerivedState,
    now: u64,
    frame: Map<Seq<char>, Num>,
    k: int,
)
    requires
        named_apart(fields),
        docs.len() == endpoints_of(fields).len(),
        framed(
            with_vehicle(readings(fields, endpoints_of(fields), docs), db, vehicle),
            before,
            after,
            now,
            has_record(db, vehicle),
            frame,
        ),
        0 <= k < fields.len(),
        reported(fields[k].id@),
    ensures
        match own_reading(fields[k], endpoints_of(fields), docs) {
            Some(n) => frame.contains_key(fields[k].id@) && frame[fields[k].id@] == n,
            None => !frame.contains_key(fields[k].id@),
        },
{
    let endpoints = endpoints_of(fields);
    let id = fields[k].id@;
    let read = readings(fields, endpoints, docs);
    let limited = with_vehicle(read, db, vehicle);
    lemma_endpoints_once(fields);
    lemma_readings(fields, endpoints, docs, k);
    lemma_marks_are_named();
    if has_record(db, vehicle) {
        lemma_limits_are_named(read, db[vehicle->0], id);
    }
    lemma_other_fields_stay(limited, after.fuel, after.tas_history@, now, id);
}

/// The names of the limit of the flaps and of the mark begin as those of the
/// limits do.
proof fn lemma_marks_are_named()
    ensures
        begins("fm_crit_flaps_current"@, "fm_"@),
        begins("fm_loaded"@, "fm_"@),
{
    reveal_strlit("fm_");
    reveal_strlit("fm_crit_flaps_current");
    reveal_strlit("fm_loaded");
    assert("fm_crit_flaps_current"@.take(3) =~= "fm_"@);
    assert("fm_loaded"@.take(3) =~= "fm_"@);
}

/// A frame that holds anything says whether the vehicle has a record.
pub proof fn lemma_mark_says_record(
    read: Map<Seq<char>, Num>,
    before: DerivedState,
    after: DerivedState,
    now: u64,
    found: bool,
    frame: Map<Seq<char>, Num>,
)
    requires
        framed(read, before, after, now, found, frame),
    ensures
        frame == Map::<Seq<char>, Num>::empty() || (frame.contains_key("fm_loaded"@)
            && frame["fm_loaded"@] == Num { bits: if found { ONE } else { 0 } }),
{
}

/// Where no document came in and no consumption was computed before, the frame
/// is empty, and every window says that the game is offline.
pub proof fn lemma_offline(
    fields: Seq<FieldDef>,
    docs: Seq<Option<Option<Seq<(Seq<char>, LeafView)>>>>,
    db: Map<Seq<char>, FmRecord>,
    before: DerivedState,
    after: DerivedState,
    now: u64,
    frame: Map<Seq<char>, Num>,
    inds: Seq<IndicatorDef>,
    t: Map<Seq<char>, String>,
    rows: Seq<RowView>,
)
    requires
        docs.len() == endpoints_of(fields).len(),
        forall|i: int| 0 <= i < docs.len() ==> (#[trigger] docs[i]) is None,
        before.fuel.ema is None,
        framed(
            with_vehicle(readings(fields, endpoints_of(fields), docs), db, None),
            before,
            after,
            now,
            false,
            frame,
        ),
        window_rows_can_be(inds, frame, t, rows),
    ensures
        frame == Map::<Seq<char>, Num>::empty(),
        rows == seq![notice("offline"@)],
{
    lemma_no_readings(fields, endpoints_of(fields), docs);
}

/// Without documents there are no readings.
proof fn lemma_no_readings(
    fields: Seq<FieldDef>,
    endpoints: Seq<Seq<char>>,
    docs: Seq<Option<Option<Seq<(Seq<char>, LeafView)>>>>,
)
    requires
        docs.len() == endpoints.len(),
        forall|i: int| 0 <= i < docs.len() ==> (#[trigger] docs[i]) is None,
    ensures
        readings(fields, endpoints, docs) == Map::<Seq<char>, Num>::empty(),
    decreases endpoints.len(),
{
    if endpoints.len() > 0 {
        let earlier = docs.drop_last();
        assert forall|i: int| 0 <= i < earlier.len() implies (#[trigger] earlier[i]) is None by {
            assert(earlier[i] == docs[i]);
        }
        lemma_no_readings(fields, endpoints.drop_last(), earlier);
        assert(docs[docs.len() - 1] is None);
    }
}

/// The text fields always hold the directories; they name the vehicle where it
/// is known, and its record where it has one.
pub proof fn lemma_text_fields(
    vehicle: Option<Seq<char>>,
    found: bool,
    config_dir: Seq<char>,
    fm_dir: Seq<char>,
)
    ensures
        ({
            let t = text_fields(vehicle, found, config_dir, fm_dir);
            &&& t.contains_key("config_dir"@) && t["config_dir"@] == config_dir
            &&& t.contains_key("fm_dir"@) && t["fm_dir"@] == fm_dir
            &&& t.contains_key("vehicle_name"@) == vehicle is Some
            &&& t.contains_key("fm_name"@) == vehicle is Some
            &&& vehicle is Some ==> t["vehicle_name"@] == vehicle->0
            &&& vehicle is Some ==> t["fm_name"@] == if found {
                vehicle->0
            } else {
                "(none)"@
            }
        }),
{
    reveal_strlit("config_dir");
    reveal_strlit("fm_dir");
    reveal_strlit("vehicle_name");
    reveal_strlit("fm_name");
    assert("config_dir"@.len() == 10 && "fm_dir"@.len() == 6 && "vehicle_name"@.len() == 12
        && "fm_name"@.len() == 7);
}

/// A client that works on stored documents makes no request and keeps what is
/// stored.
pub proof fn lemma_stored_without_request<H: HttpClient>(
    before: Client<H>,
    after: Client<H>,
    frame: Map<Seq<char>, Num>,
    t: Map<Seq<char>, String>,
)
    requires
        before.mode is Background,
        before.can_fetch(after, frame, t),
    ensures
        after.http == before.http,
        after.mode == before.mode,
{
}

/// A client over a table of replies gives the document in the reply for the
/// path of the endpoint's url, after one request, which is counted.
pub proof fn lemma_fixture_is_read(
    before: (SyncState, FixtureHttpClient),
    after: (SyncState, FixtureHttpClient),
    endpoint: Seq<char>,
    r: Result<JsonDoc, Error>,
    checked: u64,
    now: u64,
    noted: u64,
)
    requires
        answered_at(before, after, endpoint, r, checked, now, noted),
        !before.0.closed_at(checked),
        !before.0.fresh_at(endpoint, now),
        ({
            let path = url_path(endpoint_url(before.0.base_url@, endpoint));
            let replies = before.1.fixtures@;
            replies.contains_key(path) && document(replies[path]@) is Some
        }),
    ensures
        ({
            let path = url_path(endpoint_url(before.0.base_url@, endpoint));
            &&& r is Ok
            &&& r->Ok_0@ == document(before.1.fixtures@[path]@)->0
            &&& after.1.fixtures@ == before.1.fixtures@
            &&& count_of(after.1.calls@, path) == capped(
                count_of(before.1.calls@, path),
                1,
                usize::MAX as nat,
            )
            &&& after.0.consecutive_failures == 0
        }),
{
    let state = before.0;
    let url = endpoint_url(state.base_url@, endpoint);
    let (passed, replies) = choose|
        passed: Seq<FixtureHttpClient>,
        replies: Seq<Result<String, Error>>,
    | #[trigger]
        requested(passed, url, state.retry_limit, replies, r) && passed[0] == before.1
            && passed.last() == after.1;
    assert(passed[0].answers(url, replies[0], passed[1]));
    assert(holds_document(replies[0]));
    if replies.len() > 1 {
        assert(!holds_document(replies[0]));
    }
}

} // verus!
