//! The client of the game's local interface: documents per endpoint, the frame
//! made of them, and the rows of the windows.
use vstd::prelude::*;

use crate::calculator::{row_views, rows_can_be, Calculator, DisplayRow, RowView};
use crate::defs::{copy_indicators, row_height, FieldDef, IndicatorDef, RenderStyle, WindowDef, MOST_ROWS};
use crate::derived::{derived, fuel_of_frame, history_of_frame, inject_derived_fields, pushed_of_frame, with_fuel, DerivedState, FuelState, ONE};
use crate::fm::{compute_named_flaps_current, database, flaps_limit, inject_fm_fields, load_fm_db, with_known, with_record, FmDb, FmRecord};
use crate::json::{document, member, number_of, parse_document, text_in, truth_of, JsonDoc, LeafView};
use crate::num::Num;
use crate::number::TEXT_LIMIT;
use crate::syntax::{accept_windows, find_fault, lemma_faultless_ready, windows_fault};
use crate::table::{RawFrame, StringFrame, Table};
use crate::text::{begins, chars_of, copy_text, find_from, occurs_at, push_text, same_text, starts_with, text_of};

verus! {

/// Why there is no document.
#[derive(Debug)]
pub enum Error {
    /// The request failed.
    Http(String),
    /// Reading or writing failed.
    Io(String),
    /// The reply is no JSON.
    Parse(String),
    /// Too many requests have failed; none is made for a while.
    CircuitOpen,
    Other(String),
}

/// Makes requests.
pub trait HttpClient: Sized {
    /// Whether a GET request for `url` can take this client to `after` and be
    /// answered by `reply`. A client that says nothing leaves this open.
    open spec fn answers(self, url: Seq<char>, reply: Result<String, Error>, after: Self) -> bool {
        true
    }

    /// The body of the reply to a GET request for `url`.
    fn get(&mut self, url: &str) -> (reply: Result<String, Error>)
        ensures
            old(self).answers(url@, reply, *final(self)),
    ;
}

/// The path of a url behind its scheme and host; a url without a scheme is a
/// path itself, and one without a path asks for the root.
pub open spec fn url_path(url: Seq<char>) -> Seq<char> {
    if exists|i: int| occurs_at(url, "//"@, i) {
        let host: Seq<char> = url.skip(first_at(url, "//"@) + 2);
        if exists|i: int| occurs_at(host, "/"@, i) {
            host.skip(first_at(host, "/"@))
        } else {
            "/"@
        }
    } else {
        url
    }
}

/// The first place at which `p` stands in `s`.
pub open spec fn first_at(s: Seq<char>, p: Seq<char>) -> int {
    choose|i: int|
        #[trigger] occurs_at(s, p, i) && forall|j: int| 0 <= j < i ==> !occurs_at(s, p, j)
}

/// The first place is the one found.
pub proof fn lemma_first_at(s: Seq<char>, p: Seq<char>, i: int)
    requires
        occurs_at(s, p, i),
        forall|j: int| 0 <= j < i ==> !occurs_at(s, p, j),
    ensures
        first_at(s, p) == i,
{
    let k: int = first_at(s, p);
    assert(occurs_at(s, p, k) && forall|j: int| 0 <= j < k ==> !occurs_at(s, p, j));
    if k < i {
        assert(!occurs_at(s, p, k));
    }
    if i < k {
        assert(!occurs_at(s, p, i));
    }
}

/// The path of a url.
fn path_of(url: &str) -> (r: String)
    ensures
        r@ == url_path(url@),
{
    let cs = chars_of(url);
    proof {
        reveal_strlit("//");
        reveal_strlit("/");
        assert("//"@.len() == 2);
        assert("/"@.len() == 1);
    }
    match find_from(cs.as_slice(), chars_of("//").as_slice(), 0) {
        None => copy_text(url),
        Some(i) => {
            proof {
                lemma_first_at(url@, "//"@, i as int);
            }
            let n: usize = cs.len();
            let host: &[char] = vstd::slice::slice_subrange(cs.as_slice(), i + 2, n);
            proof {
                assert(host@ =~= url@.skip(i + 2));
            }
            match find_from(host, chars_of("/").as_slice(), 0) {
                None => "/".to_string(),
                Some(k) => {
                    proof {
                        lemma_first_at(host@, "/"@, k as int);
                    }
                    let tail: &[char] = vstd::slice::slice_subrange(host, k, host.len());
                    proof {
                        assert(tail@ =~= host@.skip(k as int));
                    }
                    text_of(tail)
                },
            }
        },
    }
}

/// Replies from a table, and counts the requests by their path.
pub struct FixtureHttpClient {
    /// The replies by path or url.
    pub fixtures: StringFrame,
    /// The number of requests by path.
    pub calls: Table<usize>,
}

/// The count of `key`, nothing counting as zero.
pub open spec fn count_of(calls: Map<Seq<char>, usize>, key: Seq<char>) -> nat {
    if calls.contains_key(key) {
        calls[key] as nat
    } else {
        0
    }
}

impl FixtureHttpClient {
    /// A client that replies with `fixtures`.
    pub fn new(fixtures: StringFrame) -> (r: Self)
        ensures
            r.fixtures@ == fixtures@,
            r.calls@ == Map::<Seq<char>, usize>::empty(),
    {
        FixtureHttpClient { fixtures, calls: Table::new() }
    }

    /// Whether a request for `url` is counted and answered by `r`: with the
    /// text for the path of the url, or else with that for the url itself.
    pub open spec fn replies(self, url: Seq<char>, r: Result<String, Error>, after: Self) -> bool {
        let path: Seq<char> = url_path(url);
        let texts: Map<Seq<char>, String> = self.fixtures@;
        &&& after.fixtures@ == self.fixtures@
        &&& after.calls@ == self.calls@.insert(
            path,
            capped(count_of(self.calls@, path), 1, usize::MAX as nat) as usize,
        )
        &&& if texts.contains_key(path) {
            r matches Ok(t) && t@ == texts[path]@
        } else if texts.contains_key(url) {
            r matches Ok(t) && t@ == texts[url]@
        } else {
            r matches Err(Error::Other(m)) && m@ == "fixture not found: "@ + url
        }
    }

    /// Counts a request and replies to it.
    pub fn reply(&mut self, url: &str) -> (r: Result<String, Error>)
        ensures
            old(self).replies(url@, r, *final(self)),
    {
        let key = path_of(url);
        let before: usize = match self.calls.get(key.as_str()) {
            Some(n) => *n,
            None => 0,
        };
        let after: usize = if before < usize::MAX {
            before + 1
        } else {
            before
        };
        self.calls.insert(key.clone(), after);
        if let Some(t) = self.fixtures.get(key.as_str()) {
            return Ok(t.clone());
        }
        if let Some(t) = self.fixtures.get(url) {
            return Ok(t.clone());
        }
        let mut message: Vec<char> = chars_of("fixture not found: ");
        push_text(&mut message, url);
        Err(Error::Other(text_of(message.as_slice())))
    }
}

impl HttpClient for FixtureHttpClient {
    open spec fn answers(self, url: Seq<char>, reply: Result<String, Error>, after: Self) -> bool {
        self.replies(url, reply, after)
    }

    fn get(&mut self, url: &str) -> Result<String, Error> {
        self.reply(url)
    }
}

/// A point in time.
#[verifier::external_type_specification]
#[verifier::external_body]
pub struct ExInstant(std::time::Instant);

/// `Instant::now` reads the clock; nothing is stated of what it says.
#[verifier::external_body]
fn clock_start() -> (t: std::time::Instant) {
    std::time::Instant::now()
}

/// `Instant::elapsed` reads the clock: the nanoseconds since `start`. Nothing is
/// stated of what it says.
#[verifier::external_body]
fn nanos_since(start: &std::time::Instant) -> (ns: u64) {
    start.elapsed().as_nanos() as u64
}

/// `s` without the slashes at its end.
pub open spec fn without_end_slashes(s: Seq<char>) -> Seq<char>
    decreases s.len(),
{
    if s.len() > 0 && s.last() == '/' {
        without_end_slashes(s.drop_last())
    } else {
        s
    }
}

/// An endpoint as a path: with a slash in front.
pub open spec fn endpoint_path(endpoint: Seq<char>) -> Seq<char> {
    if begins(endpoint, "/"@) {
        endpoint
    } else {
        "/"@ + endpoint
    }
}

/// The url of an endpoint.
pub open spec fn endpoint_url(base: Seq<char>, endpoint: Seq<char>) -> Seq<char> {
    without_end_slashes(base) + endpoint_path(endpoint)
}

/// `s` without the slashes at its end.
pub fn trim_end_slashes(s: &str) -> (r: Vec<char>)
    ensures
        r@ == without_end_slashes(s@),
{
    let mut cs = chars_of(s);
    while cs.len() > 0 && cs[cs.len() - 1] == '/'
        invariant
            without_end_slashes(cs@) == without_end_slashes(s@),
        decreases cs.len(),
    {
        let ghost before = cs@;
        let _ = cs.pop();
        proof {
            assert(cs@ =~= before.drop_last());
        }
    }
    cs
}

/// An endpoint as a path.
pub fn path_of_endpoint(endpoint: &str) -> (r: String)
    ensures
        r@ == endpoint_path(endpoint@),
{
    if starts_with(chars_of(endpoint).as_slice(), "/") {
        copy_text(endpoint)
    } else {
        let mut out = chars_of("/");
        push_text(&mut out, endpoint);
        text_of(out.as_slice())
    }
}

/// The url of an endpoint.
pub fn url_of_endpoint(base: &str, endpoint: &str) -> (r: String)
    ensures
        r@ == endpoint_url(base@, endpoint@),
{
    let mut out = trim_end_slashes(base);
    let path = path_of_endpoint(endpoint);
    push_text(&mut out, path.as_str());
    text_of(out.as_slice())
}

/// What a client that asks on demand remembers of its requests. Times are in
/// nanoseconds.
pub struct SyncState {
    pub base_url: String,
    /// The last document of each endpoint.
    pub cache: Table<JsonDoc>,
    /// When each endpoint last gave a document.
    pub last_request: Table<u64>,
    /// For how long a document is fresh.
    pub min_interval: u64,
    pub consecutive_failures: usize,
    /// Until when no request is made.
    pub failed_until: Option<u64>,
    pub failure_threshold: usize,
    pub failure_backoff: u64,
    /// How often a request is repeated.
    pub retry_limit: usize,
}

/// The contents of documents.
pub open spec fn doc_views(m: Map<Seq<char>, JsonDoc>) -> Map<
    Seq<char>,
    Option<Seq<(Seq<char>, LeafView)>>,
> {
    m.map_values(|d: JsonDoc| d@)
}

/// The contents of texts.
pub open spec fn text_views(m: Map<Seq<char>, String>) -> Map<Seq<char>, Seq<char>> {
    m.map_values(|t: String| t@)
}

/// What a client may do about an endpoint.
pub enum Gate {
    /// Refuse: too many requests have failed.
    Closed,
    /// Answer with the fresh document.
    Cached(JsonDoc),
    /// Ask.
    Ask,
}

/// `a - b`, or zero.
pub open spec fn since(a: u64, b: u64) -> nat {
    if a >= b {
        (a - b) as nat
    } else {
        0
    }
}

/// `a + b`, as far as it fits.
pub open spec fn capped(a: nat, b: nat, max: nat) -> nat {
    if a + b > max {
        max
    } else {
        a + b
    }
}

impl SyncState {
    /// Whether requests are refused at `t`.
    pub open spec fn closed_at(self, t: u64) -> bool {
        self.failed_until is Some && t < self.failed_until->0
    }

    /// Whether the document of an endpoint is fresh at `t`.
    pub open spec fn fresh_at(self, endpoint: Seq<char>, t: u64) -> bool {
        &&& self.last_request@.contains_key(endpoint)
        &&& since(t, self.last_request@[endpoint]) < self.min_interval
        &&& self.cache@.contains_key(endpoint)
    }

    /// Whether nothing but the memory of requests differs.
    pub open spec fn same_limits(self, other: SyncState) -> bool {
        &&& self.base_url@ == other.base_url@
        &&& self.min_interval == other.min_interval
        &&& self.failure_threshold == other.failure_threshold
        &&& self.failure_backoff == other.failure_backoff
        &&& self.retry_limit == other.retry_limit
    }

    /// Whether `self` is `before` once `endpoint` gave `doc` at `t`.
    pub open spec fn after_success(
        self,
        before: SyncState,
        endpoint: Seq<char>,
        doc: Option<Seq<(Seq<char>, LeafView)>>,
        t: u64,
    ) -> bool {
        &&& self.same_limits(before)
        &&& doc_views(self.cache@) == doc_views(before.cache@).insert(endpoint, doc)
        &&& self.last_request@ == before.last_request@.insert(endpoint, t)
        &&& self.consecutive_failures == 0
        &&& self.failed_until is None
    }

    /// Whether `self` is `before` once all attempts failed at `t`.
    pub open spec fn after_failure(self, before: SyncState, t: u64) -> bool {
        let n: nat = capped(before.consecutive_failures as nat, 1, usize::MAX as nat);
        &&& self.same_limits(before)
        &&& self.cache@ == before.cache@
        &&& self.last_request@ == before.last_request@
        &&& self.consecutive_failures == n
        &&& self.failed_until == if n >= before.failure_threshold {
            Some(capped(t as nat, before.failure_backoff as nat, u64::MAX as nat) as u64)
        } else {
            before.failed_until
        }
    }

    /// Whether `self` is `before` once asking for `endpoint` gave `r` at `t`.
    pub open spec fn remembers(
        self,
        before: SyncState,
        endpoint: Seq<char>,
        r: Result<JsonDoc, Error>,
        t: u64,
    ) -> bool {
        match r {
            Ok(doc) => self.after_success(before, endpoint, doc@, t),
            Err(_) => self.after_failure(before, t),
        }
    }

    /// What may be done about `endpoint`: the breaker is looked at at
    /// `checked`, the age of the document at `now`.
    pub fn gate(&self, endpoint: &str, checked: u64, now: u64) -> (r: Gate)
        ensures
            match r {
                Gate::Closed => self.closed_at(checked),
                Gate::Cached(doc) => !self.closed_at(checked) && self.fresh_at(endpoint@, now)
                    && doc@ == self.cache@[endpoint@]@,
                Gate::Ask => !self.closed_at(checked) && !self.fresh_at(endpoint@, now),
            },
    {
        if let Some(until) = self.failed_until {
            if checked < until {
                return Gate::Closed;
            }
        }
        if let Some(last) = self.last_request.get(endpoint) {
            let age: u64 = if now >= *last {
                now - *last
            } else {
                0
            };
            if age < self.min_interval {
                if let Some(doc) = self.cache.get(endpoint) {
                    return Gate::Cached(doc.clone());
                }
            }
        }
        Gate::Ask
    }

    /// Remembers that `endpoint` gave `doc` at `t`.
    pub fn note_success(&mut self, endpoint: &str, doc: &JsonDoc, t: u64)
        ensures
            final(self).after_success(*old(self), endpoint@, doc@, t),
    {
        let ghost before = self.cache@;
        let copy = doc.clone();
        self.cache.insert(copy_text(endpoint), copy);
        proof {
            assert(doc_views(self.cache@) =~= doc_views(before).insert(endpoint@, doc@));
        }
        self.last_request.insert(copy_text(endpoint), t);
        self.consecutive_failures = 0;
        self.failed_until = None;
    }

    /// Remembers that all attempts failed at `t`.
    pub fn note_failure(&mut self, t: u64)
        ensures
            final(self).after_failure(*old(self), t),
    {
        let n: usize = if self.consecutive_failures < usize::MAX {
            self.consecutive_failures + 1
        } else {
            usize::MAX
        };
        self.consecutive_failures = n;
        if n >= self.failure_threshold {
            let until: u64 = if t <= u64::MAX - self.failure_backoff {
                t + self.failure_backoff
            } else {
                u64::MAX
            };
            self.failed_until = Some(until);
        }
    }
}

/// Whether `reply` gives `r`: the document in it, or why there is none.
pub open spec fn read_as(reply: Result<String, Error>, r: Result<JsonDoc, Error>) -> bool {
    match reply {
        Err(e) => r matches Err(f) && f == e,
        Ok(body) => match document(body@) {
            Some(d) => r matches Ok(doc) && doc@ == d,
            None => r matches Err(Error::Parse(_)),
        },
    }
}

/// Whether there is a document in `reply`.
pub open spec fn holds_document(reply: Result<String, Error>) -> bool {
    reply matches Ok(body) && document(body@) is Some
}

/// The document in a reply, or why there is none.
pub fn read_reply(reply: Result<String, Error>) -> (r: Result<JsonDoc, Error>)
    ensures
        read_as(reply, r),
        r is Ok == holds_document(reply),
{
    match reply {
        Err(e) => Err(e),
        Ok(body) => match parse_document(body.as_str()) {
            Ok(doc) => Ok(doc),
            Err(m) => Err(Error::Parse(m)),
        },
    }
}

/// Whether an endpoint is asked for at all.
pub open spec fn real_endpoint(endpoint: Seq<char>) -> bool {
    endpoint != "__virtual__"@
}

/// The endpoints of the fields that are asked for, each once, in the order of
/// their first field.
pub open spec fn endpoints_of(fields: Seq<FieldDef>) -> Seq<Seq<char>>
    decreases fields.len(),
{
    if fields.len() == 0 {
        seq![]
    } else {
        let front: Seq<Seq<char>> = endpoints_of(fields.drop_last());
        let e: Seq<char> = fields.last().endpoint@;
        if real_endpoint(e) && !front.contains(e) {
            front.push(e)
        } else {
            front
        }
    }
}

/// The contents of texts.
pub open spec fn texts(v: Seq<String>) -> Seq<Seq<char>> {
    v.map_values(|t: String| t@)
}

/// Whether `t` is among the texts `v`.
fn among(v: &Vec<String>, t: &String) -> (r: bool)
    ensures
        r == texts(v@).contains(t@),
{
    let mut i: usize = 0;
    while i < v.len()
        invariant
            i <= v.len(),
            forall|j: int| 0 <= j < i ==> texts(v@)[j] != t@,
        decreases v.len() - i,
    {
        if v[i] == *t {
            proof {
                assert(texts(v@)[i as int] == t@);
            }
            return true;
        }
        i = i + 1;
    }
    false
}

/// The endpoints of the fields that are asked for.
pub fn unique_endpoints(fields: &Vec<FieldDef>) -> (r: Vec<String>)
    ensures
        texts(r@) == endpoints_of(fields@),
{
    let mut r: Vec<String> = Vec::new();
    let mut i: usize = 0;
    proof {
        assert(texts(r@) =~= seq![]);
    }
    while i < fields.len()
        invariant
            i <= fields.len(),
            texts(r@) == endpoints_of(fields@.take(i as int)),
        decreases fields.len() - i,
    {
        proof {
            assert(fields@.take(i as int + 1).drop_last() =~= fields@.take(i as int));
        }
        let e: &String = &fields[i].endpoint;
        if !same_text(e.as_str(), "__virtual__") && !among(&r, e) {
            let ghost before = texts(r@);
            r.push(e.clone());
            proof {
                assert(texts(r@) =~= before.push(e@));
            }
        }
        i = i + 1;
    }
    proof {
        assert(fields@.take(i as int) =~= fields@);
    }
    r
}

/// The number that a document gives for a field: a number as it is, a truth
/// value as one or zero.
pub open spec fn reading(doc: Option<Seq<(Seq<char>, LeafView)>>, f: FieldDef) -> Option<Num> {
    if f.field_type@ == "f64"@ {
        number_of(member(doc, f.api_key@))
    } else if f.field_type@ == "bool"@ {
        match truth_of(member(doc, f.api_key@)) {
            Some(b) => Some(Num { bits: if b { ONE } else { 0 } }),
            None => None,
        }
    } else {
        None
    }
}

/// `frame` with what `doc` gives for those of `fields` that belong to
/// `endpoint`.
pub open spec fn extracted(
    frame: Map<Seq<char>, Num>,
    doc: Option<Seq<(Seq<char>, LeafView)>>,
    fields: Seq<FieldDef>,
    endpoint: Seq<char>,
) -> Map<Seq<char>, Num>
    decreases fields.len(),
{
    if fields.len() == 0 {
        frame
    } else {
        let front: Map<Seq<char>, Num> = extracted(frame, doc, fields.drop_last(), endpoint);
        let f: FieldDef = fields.last();
        if f.endpoint@ == endpoint {
            with_known(front, f.id@, reading(doc, f))
        } else {
            front
        }
    }
}

/// The number that a document gives for a field.
fn read_field(doc: &JsonDoc, f: &FieldDef) -> (r: Option<Num>)
    ensures
        r == reading(doc@, *f),
{
    if same_text(f.field_type.as_str(), "f64") {
        doc.number(f.api_key.as_str())
    } else if same_text(f.field_type.as_str(), "bool") {
        match doc.truth(f.api_key.as_str()) {
            Some(b) => Some(
                Num {
                    bits: if b {
                        ONE
                    } else {
                        0
                    },
                },
            ),
            None => None,
        }
    } else {
        None
    }
}

/// Adds what `doc` gives for those of `fields` that belong to `endpoint`.
pub fn extract_fields(
    doc: &JsonDoc,
    fields: &Vec<FieldDef>,
    endpoint: &String,
    frame: &mut RawFrame,
)
    ensures
        final(frame)@ == extracted(old(frame)@, doc@, fields@, endpoint@),
{
    let ghost start = frame@;
    let mut i: usize = 0;
    while i < fields.len()
        invariant
            i <= fields.len(),
            frame@ == extracted(start, doc@, fields@.take(i as int), endpoint@),
        decreases fields.len() - i,
    {
        proof {
            assert(fields@.take(i as int + 1).drop_last() =~= fields@.take(i as int));
        }
        let f: &FieldDef = &fields[i];
        if f.endpoint == *endpoint {
            if let Some(n) = read_field(doc, f) {
                frame.insert(f.id.clone(), n);
            }
        }
        i = i + 1;
    }
    proof {
        assert(fields@.take(i as int) =~= fields@);
    }
}

/// The documents of the endpoints, each where there is one.
pub open spec fn option_views(v: Seq<Option<JsonDoc>>) -> Seq<
    Option<Option<Seq<(Seq<char>, LeafView)>>>,
> {
    v.map_values(|d: Option<JsonDoc>| option_view(d))
}

/// The contents of a document, where there is one.
pub open spec fn option_view(d: Option<JsonDoc>) -> Option<Option<Seq<(Seq<char>, LeafView)>>> {
    match d {
        Some(doc) => Some(doc@),
        None => None,
    }
}

/// The readings of the documents, endpoint by endpoint.
pub open spec fn readings(
    fields: Seq<FieldDef>,
    endpoints: Seq<Seq<char>>,
    docs: Seq<Option<Option<Seq<(Seq<char>, LeafView)>>>>,
) -> Map<Seq<char>, Num>
    decreases endpoints.len(),
{
    if endpoints.len() == 0 {
        Map::empty()
    } else {
        let front: Map<Seq<char>, Num> = readings(
            fields,
            endpoints.drop_last(),
            docs.drop_last(),
        );
        match docs.last() {
            Some(doc) => extracted(front, doc, fields, endpoints.last()),
            None => front,
        }
    }
}

/// The name of the vehicle in a document of the indicators, where it has one.
pub open spec fn vehicle_in(doc: Option<Option<Seq<(Seq<char>, LeafView)>>>) -> Option<Seq<char>> {
    match doc {
        Some(d) => text_in(member(d, "type"@)),
        None => None,
    }
}

/// Whether the vehicle has a record.
pub open spec fn has_record(db: Map<Seq<char>, FmRecord>, vehicle: Option<Seq<char>>) -> bool {
    vehicle is Some && db.contains_key(vehicle->0)
}

/// `frame` with the limits of the vehicle, and that of its flaps at their
/// current extension.
pub open spec fn with_vehicle(
    frame: Map<Seq<char>, Num>,
    db: Map<Seq<char>, FmRecord>,
    vehicle: Option<Seq<char>>,
) -> Map<Seq<char>, Num> {
    if has_record(db, vehicle) {
        let rec: FmRecord = db[vehicle->0];
        let limited: Map<Seq<char>, Num> = with_record(frame, rec);
        if limited.contains_key("flaps_pct"@) {
            with_known(
                limited,
                "fm_crit_flaps_current"@,
                flaps_limit(limited["flaps_pct"@].bits, rec),
            )
        } else {
            limited
        }
    } else {
        frame
    }
}

/// `frame`, where it holds anything, with a mark that says whether the vehicle
/// has a record.
pub open spec fn with_mark(frame: Map<Seq<char>, Num>, found: bool) -> Map<Seq<char>, Num> {
    if frame == Map::<Seq<char>, Num>::empty() {
        frame
    } else {
        frame.insert("fm_loaded"@, Num { bits: if found { ONE } else { 0 } })
    }
}

/// The text fields: the vehicle and its record, where the vehicle is known, and
/// the directories.
pub open spec fn text_fields(
    vehicle: Option<Seq<char>>,
    found: bool,
    config_dir: Seq<char>,
    fm_dir: Seq<char>,
) -> Map<Seq<char>, Seq<char>> {
    let named: Map<Seq<char>, Seq<char>> = match vehicle {
        Some(name) => Map::<Seq<char>, Seq<char>>::empty().insert("vehicle_name"@, name).insert(
            "fm_name"@,
            if found {
                name
            } else {
                "(none)"@
            },
        ),
        None => Map::empty(),
    };
    named.insert("config_dir"@, config_dir).insert("fm_dir"@, fm_dir)
}

/// Adds the limits of the vehicle to `frame`, and says whether it has a record.
fn inject_vehicle(frame: &mut RawFrame, db: &FmDb, vehicle: &Option<String>) -> (found: bool)
    ensures
        ({
            let name: Option<Seq<char>> = match *vehicle {
                Some(t) => Some(t@),
                None => None,
            };
            &&& found == has_record(db@, name)
            &&& final(frame)@ == with_vehicle(old(frame)@, db@, name)
        }),
{
    match vehicle {
        None => false,
        Some(name) => match db.get(name.as_str()) {
            None => false,
            Some(rec) => {
                inject_fm_fields(frame, rec);
                if let Some(pct) = frame.number("flaps_pct") {
                    if let Some(speed) = compute_named_flaps_current(pct, rec) {
                        frame.put("fm_crit_flaps_current", speed);
                    }
                }
                true
            },
        },
    }
}

/// Sets a text field.
fn put_text(t: &mut StringFrame, key: &str, value: &str)
    ensures
        text_views(final(t)@) == text_views(old(t)@).insert(key@, value@),
{
    let ghost before = t@;
    t.insert(copy_text(key), copy_text(value));
    proof {
        assert(text_views(t@) =~= text_views(before).insert(key@, value@));
    }
}

/// The text fields.
fn make_texts(vehicle: &Option<String>, found: bool, config_dir: &str, fm_dir: &str) -> (t:
    StringFrame)
    ensures
        text_views(t@) == text_fields(
            match *vehicle {
                Some(name) => Some(name@),
                None => None,
            },
            found,
            config_dir@,
            fm_dir@,
        ),
{
    let mut t: StringFrame = Table::new();
    proof {
        assert(text_views(t@) =~= Map::<Seq<char>, Seq<char>>::empty());
    }
    if let Some(name) = vehicle {
        put_text(&mut t, "vehicle_name", name.as_str());
        if found {
            put_text(&mut t, "fm_name", name.as_str());
        } else {
            put_text(&mut t, "fm_name", "(none)");
        }
    }
    put_text(&mut t, "config_dir", config_dir);
    put_text(&mut t, "fm_dir", fm_dir);
    t
}

/// Whether `frame` follows from the readings `read` at `now`, and the derived
/// state went from `before` to `after`.
pub open spec fn framed(
    read: Map<Seq<char>, Num>,
    before: DerivedState,
    after: DerivedState,
    now: u64,
    found: bool,
    frame: Map<Seq<char>, Num>,
) -> bool {
    &&& after.fuel == fuel_of_frame(before.fuel, read, now)
    &&& after.tas_history@ == history_of_frame(
        before.tas_history@,
        before.last_tas_pushed,
        with_fuel(read, after.fuel),
        now,
    )
    &&& after.last_tas_pushed == pushed_of_frame(
        before.last_tas_pushed,
        with_fuel(read, after.fuel),
    )
    &&& frame == with_mark(derived(read, after.fuel, after.tas_history@, now), found)
}

/// The frame and the text fields made of the documents of the endpoints and of
/// the document of the indicators, at `now`.
pub fn build_frame(
    fields: &Vec<FieldDef>,
    endpoints: &Vec<String>,
    docs: &Vec<Option<JsonDoc>>,
    indicators: &Option<JsonDoc>,
    db: &FmDb,
    state: &mut DerivedState,
    now: u64,
    config_dir: &str,
    fm_dir: &str,
) -> (r: (RawFrame, StringFrame))
    requires
        endpoints@.len() == docs@.len(),
    ensures
        ({
            let vehicle: Option<Seq<char>> = vehicle_in(option_view(*indicators));
            let read: Map<Seq<char>, Num> = readings(
                fields@,
                texts(endpoints@),
                option_views(docs@),
            );
            &&& framed(
                with_vehicle(read, db@, vehicle),
                *old(state),
                *final(state),
                now,
                has_record(db@, vehicle),
                r.0@,
            )
            &&& text_views(r.1@) == text_fields(
                vehicle,
                has_record(db@, vehicle),
                config_dir@,
                fm_dir@,
            )
        }),
{
    let mut frame: RawFrame = Table::new();
    let mut i: usize = 0;
    let ghost ends = texts(endpoints@);
    let ghost all = option_views(docs@);
    while i < endpoints.len()
        invariant
            i <= endpoints.len(),
            endpoints@.len() == docs@.len(),
            ends == texts(endpoints@),
            all == option_views(docs@),
            frame@ == readings(fields@, ends.take(i as int), all.take(i as int)),
        decreases endpoints.len() - i,
    {
        proof {
            assert(ends.take(i as int + 1).drop_last() =~= ends.take(i as int));
            assert(all.take(i as int + 1).drop_last() =~= all.take(i as int));
            assert(all[i as int] == option_view(docs@[i as int]));
            assert(ends[i as int] == endpoints@[i as int]@);
        }
        if let Some(doc) = &docs[i] {
            extract_fields(doc, fields, &endpoints[i], &mut frame);
        }
        i = i + 1;
    }
    proof {
        assert(ends.take(i as int) =~= ends);
        assert(all.take(i as int) =~= all);
    }
    let vehicle: Option<String> = match indicators {
        Some(doc) => doc.text("type"),
        None => None,
    };
    let found: bool = inject_vehicle(&mut frame, db, &vehicle);
    inject_derived_fields(&mut frame, state, now);
    if !frame.is_empty() {
        frame.put(
            "fm_loaded",
            Num {
                bits: if found {
                    ONE
                } else {
                    0
                },
            },
        );
    }
    let t = make_texts(&vehicle, found, config_dir, fm_dir);
    (frame, t)
}

/// One window with its rows.
pub struct WindowRows {
    pub id: String,
    pub x: i32,
    pub y: i32,
    pub width: u32,
    pub height: u32,
    pub rows: Vec<DisplayRow>,
    /// The style of the window.
    pub style: Option<RenderStyle>,
}

/// A row of the client itself.
pub open spec fn notice(value: Seq<char>) -> RowView {
    RowView { label: "WT"@, value, unit: ""@, color: "unit"@, style: None }
}

/// A row of the client itself.
fn notice_row(value: &str) -> (r: DisplayRow)
    ensures
        r@ == notice(value@),
{
    DisplayRow {
        label: "WT".to_string(),
        value_str: copy_text(value),
        unit: "".to_string(),
        color: "unit".to_string(),
        style: None,
    }
}

/// Whether `rows` can be the rows of a window: a notice while the frame is
/// empty, a notice where no indicator has a row, and else the indicators' rows.
pub open spec fn window_rows_can_be(
    inds: Seq<IndicatorDef>,
    frame: Map<Seq<char>, Num>,
    t: Map<Seq<char>, String>,
    rows: Seq<RowView>,
) -> bool {
    if frame == Map::<Seq<char>, Num>::empty() {
        rows == seq![notice("offline"@)]
    } else {
        ||| rows.len() > 0 && rows_can_be(inds, frame, t, rows)
        ||| rows_can_be(inds, frame, t, seq![]) && rows == seq![notice("waiting"@)]
    }
}

/// Whether a window has a height.
pub open spec fn window_ready(w: WindowDef) -> bool {
    w.height is None ==> w.indicators@.len() <= MOST_ROWS
}

/// Whether all windows are ready.
pub open spec fn windows_ready(w: Seq<WindowDef>) -> bool {
    forall|i: int| 0 <= i < w.len() ==> window_ready(#[trigger] w[i])
}

/// Whether all windows are ready.
pub fn are_windows_ready(w: &Vec<WindowDef>) -> (r: bool)
    ensures
        r == windows_ready(w@),
{
    let mut i: usize = 0;
    while i < w.len()
        invariant
            i <= w.len(),
            forall|j: int| 0 <= j < i ==> window_ready(#[trigger] w@[j]),
        decreases w.len() - i,
    {
        let ready: bool = w[i].height.is_some() || w[i].indicators.len() <= MOST_ROWS;
        if !ready {
            proof {
                assert(!window_ready(w@[i as int]));
            }
            return false;
        }
        i = i + 1;
    }
    true
}

/// Whether `r` can be what is shown of the window `w`.
pub open spec fn shown_can_be(
    w: WindowDef,
    frame: Map<Seq<char>, Num>,
    t: Map<Seq<char>, String>,
    r: WindowRows,
) -> bool {
    &&& r.id@ == w.id@
    &&& r.x == w.x
    &&& r.y == w.y
    &&& r.width == (match w.width {
        Some(own) => own,
        None => 240u32,
    })
    &&& r.height == (match w.height {
        Some(own) => own as nat,
        None => row_height(w.indicators@.len()),
    })
    &&& r.style == w.style
    &&& window_rows_can_be(w.indicators@, frame, t, row_views(r.rows@))
}

/// Whether the calculators are those of the windows.
pub open spec fn paired(w: Seq<(WindowDef, Calculator)>) -> bool {
    forall|i: int|
        0 <= i < w.len() ==> window_ready((#[trigger] w[i]).0) && w[i].1@ == w[i].0.indicators@
}

/// Whether `r` can be what is shown of the windows.
pub open spec fn all_shown_can_be(
    w: Seq<(WindowDef, Calculator)>,
    frame: Map<Seq<char>, Num>,
    t: Map<Seq<char>, String>,
    r: Seq<WindowRows>,
) -> bool {
    &&& r.len() == w.len()
    &&& forall|i: int| 0 <= i < w.len() ==> shown_can_be(w[i].0, frame, t, #[trigger] r[i])
}

/// What is shown of one window.
fn show_window(w: &WindowDef, calc: &Calculator, frame: &RawFrame, t: &StringFrame) -> (r:
    WindowRows)
    requires
        window_ready(*w),
        calc@ == w.indicators@,
    ensures
        shown_can_be(*w, frame@, t@, r),
{
    let rows: Vec<DisplayRow> = if frame.is_empty() {
        let mut v: Vec<DisplayRow> = Vec::new();
        v.push(notice_row("offline"));
        proof {
            assert(row_views(v@) =~= seq![notice("offline"@)]);
        }
        v
    } else {
        let mut v = calc.evaluate(frame, t);
        if v.len() == 0 {
            proof {
                assert(row_views(v@) =~= seq![]);
            }
            v.push(notice_row("waiting"));
            proof {
                assert(row_views(v@) =~= seq![notice("waiting"@)]);
            }
        }
        v
    };
    WindowRows {
        id: w.id.clone(),
        x: w.x,
        y: w.y,
        width: w.computed_width(),
        height: w.computed_height(),
        rows,
        style: w.style,
    }
}

/// What is shown of the windows over a frame.
pub fn show_windows(w: &Vec<(WindowDef, Calculator)>, frame: &RawFrame, t: &StringFrame) -> (r: Vec<
    WindowRows,
>)
    requires
        paired(w@),
    ensures
        all_shown_can_be(w@, frame@, t@, r@),
{
    let mut r: Vec<WindowRows> = Vec::new();
    let mut i: usize = 0;
    while i < w.len()
        invariant
            i <= w.len(),
            paired(w@),
            r@.len() == i,
            forall|j: int| 0 <= j < i ==> shown_can_be(w@[j].0, frame@, t@, #[trigger] r@[j]),
        decreases w.len() - i,
    {
        proof {
            assert(window_ready(w@[i as int].0));
        }
        let one = show_window(&w[i].0, &w[i].1, frame, t);
        r.push(one);
        i = i + 1;
    }
    r
}

/// The windows with their calculators.
pub fn pair_windows(defs: Vec<WindowDef>) -> (r: Vec<(WindowDef, Calculator)>)
    requires
        windows_ready(defs@),
    ensures
        r@.len() == defs@.len(),
        forall|i: int| 0 <= i < defs@.len() ==> (#[trigger] r@[i]).0 == defs@[i],
        paired(r@),
{
    let mut defs = defs;
    let ghost all = defs@;
    let n: usize = defs.len();
    let mut r: Vec<(WindowDef, Calculator)> = Vec::new();
    let mut i: usize = 0;
    while i < n
        invariant
            i <= n,
            n == all.len(),
            windows_ready(all),
            defs@ == all.skip(i as int),
            r@.len() == i,
            forall|j: int| 0 <= j < i ==> (#[trigger] r@[j]).0 == all[j],
            paired(r@),
        decreases n - i,
    {
        let w = defs.remove(0);
        proof {
            assert(defs@ =~= all.skip(i as int + 1));
            assert(window_ready(all[i as int]));
        }
        let calc = Calculator::new(copy_indicators(&w.indicators));
        r.push((w, calc));
        i = i + 1;
    }
    r
}

/// How a client gets its documents.
pub enum FetchMode {
    /// From the documents that are stored as they come in.
    Background { cache: Table<JsonDoc> },
    /// By asking on demand.
    Sync { state: SyncState },
}

/// The client.
pub struct Client<H: HttpClient> {
    pub http: H,
    pub fields: Vec<FieldDef>,
    pub windows: Vec<(WindowDef, Calculator)>,
    pub mode: FetchMode,
    pub fm_db: FmDb,
    pub derived: DerivedState,
    /// The release of the flight-model database, or nothing.
    pub fm_version_tag: String,
    /// The directories that are shown as text fields.
    pub config_dir: String,
    pub fm_dir: String,
    /// Where the times of this client count from.
    pub start: std::time::Instant,
}

/// Whether requests for `url`, repeated until one gives a document or `limit`
/// repetitions have failed, can be answered by `replies`, take the client
/// through `passed` and give `r`: what the last reply gives.
pub open spec fn requested<H: HttpClient>(
    passed: Seq<H>,
    url: Seq<char>,
    limit: usize,
    replies: Seq<Result<String, Error>>,
    r: Result<JsonDoc, Error>,
) -> bool {
    &&& 1 <= replies.len() <= limit + 1
    &&& passed.len() == replies.len() + 1
    &&& forall|i: int|
        0 <= i < replies.len() ==> passed[i].answers(url, #[trigger] replies[i], passed[i + 1])
    &&& forall|i: int| 0 <= i < replies.len() - 1 ==> !holds_document(#[trigger] replies[i])
    &&& read_as(replies.last(), r)
    &&& r is Err ==> replies.len() == limit + 1
}

/// Whether asking for `endpoint` can take `before` to `after` and give `r`,
/// where the breaker is looked at at `checked` and the age at `now`: refused
/// while the breaker is open, a fresh document as it is, both without a
/// request, and else what requests for the endpoint's url give, which is noted
/// at `noted`.
pub open spec fn answered_at<H: HttpClient>(
    before: (SyncState, H),
    after: (SyncState, H),
    endpoint: Seq<char>,
    r: Result<JsonDoc, Error>,
    checked: u64,
    now: u64,
    noted: u64,
) -> bool {
    let state: SyncState = before.0;
    if state.closed_at(checked) {
        &&& after == before
        &&& r matches Err(Error::CircuitOpen)
    } else if state.fresh_at(endpoint, now) {
        &&& after == before
        &&& r matches Ok(doc)
        &&& doc@ == state.cache@[endpoint]@
    } else {
        &&& exists|passed: Seq<H>, replies: Seq<Result<String, Error>>| #[trigger]
            requested(
                passed,
                endpoint_url(state.base_url@, endpoint),
                state.retry_limit,
                replies,
                r,
            ) && passed[0] == before.1 && passed.last() == after.1
        &&& after.0.remembers(state, endpoint, r, noted)
    }
}

/// Whether asking for `endpoint` can take `before` to `after` and give `r`.
pub open spec fn answered<H: HttpClient>(
    before: (SyncState, H),
    after: (SyncState, H),
    endpoint: Seq<char>,
    r: Result<JsonDoc, Error>,
) -> bool {
    exists|checked: u64, now: u64, noted: u64|
        #[trigger] answered_at(before, after, endpoint, r, checked, now, noted)
}

/// Asks for the document of `endpoint`, as far as `state` allows.
fn ask<H: HttpClient>(
    http: &mut H,
    state: &mut SyncState,
    start: &std::time::Instant,
    endpoint: &str,
) -> (r: Result<JsonDoc, Error>)
    ensures
        answered((*old(state), *old(http)), (*final(state), *final(http)), endpoint@, r),
{
    let checked: u64 = nanos_since(start);
    let now: u64 = nanos_since(start);
    let ghost before = *state;
    let ghost first = *http;
    match state.gate(endpoint, checked, now) {
        Gate::Closed => {
            let r: Result<JsonDoc, Error> = Err(Error::CircuitOpen);
            proof {
                assert(answered_at((before, first), (*state, *http), endpoint@, r, checked, now, now));
            }
            return r;
        },
        Gate::Cached(doc) => {
            let r: Result<JsonDoc, Error> = Ok(doc);
            proof {
                assert(answered_at((before, first), (*state, *http), endpoint@, r, checked, now, now));
            }
            return r;
        },
        Gate::Ask => {},
    }
    let url = url_of_endpoint(state.base_url.as_str(), endpoint);
    let mut tried: usize = 0;
    let ghost mut passed: Seq<H> = seq![*http];
    let ghost mut replies: Seq<Result<String, Error>> = seq![];
    loop
        invariant
            *state == before,
            before == *old(state),
            first == *old(http),
            !before.closed_at(checked),
            !before.fresh_at(endpoint@, now),
            url@ == endpoint_url(before.base_url@, endpoint@),
            tried <= before.retry_limit,
            replies.len() == tried,
            passed.len() == tried + 1,
            passed[0] == first,
            passed.last() == *http,
            forall|i: int|
                0 <= i < replies.len() ==> passed[i].answers(
                    url@,
                    #[trigger] replies[i],
                    passed[i + 1],
                ),
            forall|i: int| 0 <= i < replies.len() ==> !holds_document(#[trigger] replies[i]),
        decreases before.retry_limit - tried,
    {
        let ghost passed_before = passed;
        let ghost replies_before = replies;
        let reply = http.get(url.as_str());
        proof {
            passed = passed.push(*http);
            replies = replies.push(reply);
            assert forall|i: int| 0 <= i < replies.len() implies passed[i].answers(
                url@,
                #[trigger] replies[i],
                passed[i + 1],
            ) by {
                if i < replies_before.len() {
                    assert(replies[i] == replies_before[i]);
                    assert(passed[i] == passed_before[i]);
                    assert(passed[i + 1] == passed_before[i + 1]);
                }
            }
        }
        let r: Result<JsonDoc, Error> = read_reply(reply);
        if r.is_ok() || tried == state.retry_limit {
            let t: u64 = nanos_since(start);
            proof {
                assert forall|i: int| 0 <= i < replies.len() - 1 implies !holds_document(
                    #[trigger] replies[i],
                ) by {
                    assert(replies[i] == replies_before[i]);
                }
                assert(requested(passed, url@, before.retry_limit, replies, r));
            }
            match &r {
                Ok(doc) => {
                    state.note_success(endpoint, doc, t);
                },
                Err(_) => {
                    state.note_failure(t);
                },
            }
            proof {
                assert(state.remembers(before, endpoint@, r, t));
                assert(passed[0] == first && passed.last() == *http);
                assert(answered_at(
                    (before, first),
                    (*state, *http),
                    endpoint@,
                    r,
                    checked,
                    now,
                    t,
                ));
            }
            return r;
        }
        tried = tried + 1;
    }
}

/// The document of a result, where it has one.
pub open spec fn ok_view(r: Result<JsonDoc, Error>) -> Option<Option<Seq<(Seq<char>, LeafView)>>> {
    match r {
        Ok(doc) => Some(doc@),
        Err(_) => None,
    }
}

/// Whether asking for `endpoint` can take `before` to `after` and give `doc`.
pub open spec fn gave<H: HttpClient>(
    before: (SyncState, H),
    after: (SyncState, H),
    endpoint: Seq<char>,
    doc: Option<Option<Seq<(Seq<char>, LeafView)>>>,
) -> bool {
    exists|r: Result<JsonDoc, Error>|
        #[trigger] answered(before, after, endpoint, r) && doc == ok_view(r)
}

/// Whether asking for the endpoints one after the other can pass through the
/// states `trail` and give `docs`.
pub open spec fn gave_all<H: HttpClient>(
    trail: Seq<(SyncState, H)>,
    endpoints: Seq<Seq<char>>,
    docs: Seq<Option<Option<Seq<(Seq<char>, LeafView)>>>>,
) -> bool {
    &&& trail.len() == endpoints.len() + 1
    &&& docs.len() == endpoints.len()
    &&& forall|i: int|
        0 <= i < endpoints.len() ==> gave(trail[i], trail[i + 1], endpoints[i], #[trigger] docs[i])
}

/// Whether asking for the indicators can take `before` to `after` and give
/// `doc`: the second spelling is tried where the first fails.
pub open spec fn gave_indicators<H: HttpClient>(
    before: (SyncState, H),
    after: (SyncState, H),
    doc: Option<Option<Seq<(Seq<char>, LeafView)>>>,
) -> bool {
    ||| doc is Some && gave(before, after, "indicators"@, doc)
    ||| exists|mid: (SyncState, H)|
        #[trigger] gave(before, mid, "indicators"@, None) && gave(mid, after, "/indicators"@, doc)
}

/// The stored document of an endpoint, where there is one.
pub open spec fn stored(cache: Map<Seq<char>, JsonDoc>, endpoint: Seq<char>) -> Option<
    Option<Seq<(Seq<char>, LeafView)>>,
> {
    if cache.contains_key(endpoint) {
        Some(cache[endpoint]@)
    } else {
        None
    }
}

/// The stored documents of the endpoints.
pub open spec fn stored_all(cache: Map<Seq<char>, JsonDoc>, endpoints: Seq<Seq<char>>) -> Seq<
    Option<Option<Seq<(Seq<char>, LeafView)>>>,
> {
    endpoints.map_values(|e: Seq<char>| stored(cache, e))
}

/// The stored document of the indicators, in either spelling.
pub open spec fn stored_indicators(cache: Map<Seq<char>, JsonDoc>) -> Option<
    Option<Seq<(Seq<char>, LeafView)>>,
> {
    if cache.contains_key("indicators"@) {
        stored(cache, "indicators"@)
    } else {
        stored(cache, "/indicators"@)
    }
}

/// The stored document of an endpoint.
fn stored_document(cache: &Table<JsonDoc>, endpoint: &str) -> (r: Option<JsonDoc>)
    ensures
        option_view(r) == stored(cache@, endpoint@),
{
    match cache.get(endpoint) {
        Some(doc) => Some(doc.clone()),
        None => None,
    }
}

/// Where the documents of a frame come from: the mode and the requests before
/// and after, the documents of the endpoints and the document of the
/// indicators.
pub open spec fn sourced<H: HttpClient>(
    before: (FetchMode, H),
    after: (FetchMode, H),
    endpoints: Seq<Seq<char>>,
    docs: Seq<Option<Option<Seq<(Seq<char>, LeafView)>>>>,
    indicators: Option<Option<Seq<(Seq<char>, LeafView)>>>,
) -> bool {
    match before.0 {
        FetchMode::Background { cache } => {
            &&& after == before
            &&& docs == stored_all(cache@, endpoints)
            &&& indicators == stored_indicators(cache@)
        },
        FetchMode::Sync { state } => {
            &&& after.0 is Sync
            &&& exists|trail: Seq<(SyncState, H)>|
                #[trigger] gave_all(trail, endpoints, docs) && trail[0] == (state, before.1)
                    && gave_indicators(trail.last(), (after.0->state, after.1), indicators)
        },
    }
}

impl<H: HttpClient> Client<H> {
    /// Whether every window has its calculator.
    pub open spec fn ready(self) -> bool {
        paired(self.windows@)
    }

    /// Whether nothing but the requests differs.
    pub open spec fn same_setup(self, other: Self) -> bool {
        &&& self.fields == other.fields
        &&& self.windows == other.windows
        &&& self.fm_db == other.fm_db
        &&& self.fm_version_tag == other.fm_version_tag
        &&& self.config_dir == other.config_dir
        &&& self.fm_dir == other.fm_dir
    }

    /// Whether this is a new client that works on stored documents.
    pub open spec fn starts_background(
        self,
        http: H,
        fields: Vec<FieldDef>,
        fm_db: FmDb,
        fm_version_tag: String,
        config_dir: String,
        fm_dir: String,
    ) -> bool {
        &&& self.ready()
        &&& self.http == http
        &&& self.fields == fields
        &&& self.mode matches FetchMode::Background { cache } && cache@ == Map::<
            Seq<char>,
            JsonDoc,
        >::empty()
        &&& self.fm_db == fm_db
        &&& self.fm_version_tag == fm_version_tag
        &&& self.config_dir == config_dir
        &&& self.fm_dir == fm_dir
        &&& self.derived.tas_history@.len() == 0
        &&& self.derived.last_tas_pushed is None
        &&& self.derived.fuel == (FuelState { kg: None, time: None, ema: None })
    }

    /// A client that works on the documents stored with
    /// [`Client::store_document`]. There is none for a window that has neither
    /// a height nor few enough rows to compute one.
    pub fn new_with_windows(
        http: H,
        fields: Vec<FieldDef>,
        window_defs: Vec<WindowDef>,
        fm_db: FmDb,
        fm_version_tag: String,
        config_dir: String,
        fm_dir: String,
    ) -> (r: Result<Self, Error>)
        ensures
            windows_ready(window_defs@) ==> (r matches Ok(c) && {
                &&& c.starts_background(http, fields, fm_db, fm_version_tag, config_dir, fm_dir)
                &&& c.windows@.len() == window_defs@.len()
                &&& forall|i: int|
                    0 <= i < window_defs@.len() ==> (#[trigger] c.windows@[i]).0 == window_defs@[i]
            }),
            !windows_ready(window_defs@) ==> (r matches Err(Error::Other(m)) && m@
                == "a window has too many rows"@),
    {
        if !are_windows_ready(&window_defs) {
            return Err(
                Error::Other(
                    "a window has too many rows".to_string(),
                ),
            );
        }
        Ok(
            Client {
                http,
                fields,
                windows: pair_windows(window_defs),
                mode: FetchMode::Background { cache: Table::new() },
                fm_db,
                derived: DerivedState::new(),
                fm_version_tag,
                config_dir,
                fm_dir,
                start: clock_start(),
            },
        )
    }

    /// A client that asks on demand and shows the indicators in one window.
    pub fn with_config(
        http: H,
        base_url: String,
        fields: Vec<FieldDef>,
        indicators: Vec<IndicatorDef>,
        config_dir: String,
        fm_dir: String,
    ) -> (r: Self)
        requires
            indicators@.len() <= MOST_ROWS,
        ensures
            r.starts_sync(http, base_url@, fields, config_dir, fm_dir),
            r.windows@.len() == 1,
            r.windows@[0].0.id@ == "default"@,
            r.windows@[0].0.x == 100,
            r.windows@[0].0.y == 100,
            r.windows@[0].0.width is None,
            r.windows@[0].0.height is None,
            r.windows@[0].0.indicators == indicators,
            r.windows@[0].0.style is None,
    {
        let mut defs: Vec<WindowDef> = Vec::new();
        defs.push(
            WindowDef {
                id: "default".to_string(),
                x: 100,
                y: 100,
                width: None,
                height: None,
                indicators,
                style: None,
            },
        );
        Self::with_windows(http, base_url, fields, defs, config_dir, fm_dir)
    }

    /// Whether this is a new client that asks on demand.
    pub open spec fn starts_sync(
        self,
        http: H,
        base_url: Seq<char>,
        fields: Vec<FieldDef>,
        config_dir: String,
        fm_dir: String,
    ) -> bool {
        &&& self.ready()
        &&& self.http == http
        &&& self.fields == fields
        &&& self.mode matches FetchMode::Sync { state } && {
            &&& state.base_url@ == base_url
            &&& state.cache@ == Map::<Seq<char>, JsonDoc>::empty()
            &&& state.last_request@ == Map::<Seq<char>, u64>::empty()
            &&& state.min_interval == 16_000_000
            &&& state.consecutive_failures == 0
            &&& state.failed_until is None
            &&& state.failure_threshold == 10
            &&& state.failure_backoff == 5_000_000_000
            &&& state.retry_limit == 0
        }
        &&& self.fm_db@ == Map::<Seq<char>, FmRecord>::empty()
        &&& self.fm_version_tag@ == ""@
        &&& self.config_dir == config_dir
        &&& self.fm_dir == fm_dir
        &&& self.derived.tas_history@.len() == 0
        &&& self.derived.last_tas_pushed is None
        &&& self.derived.fuel == (FuelState { kg: None, time: None, ema: None })
    }

    /// A client that asks on demand and shows the windows.
    pub fn with_windows(
        http: H,
        base_url: String,
        fields: Vec<FieldDef>,
        window_defs: Vec<WindowDef>,
        config_dir: String,
        fm_dir: String,
    ) -> (r: Self)
        requires
            windows_ready(window_defs@),
        ensures
            r.starts_sync(http, base_url@, fields, config_dir, fm_dir),
            r.windows@.len() == window_defs@.len(),
            forall|i: int| 0 <= i < window_defs@.len() ==> (#[trigger] r.windows@[i]).0 == window_defs@[i],
    {
        Client {
            http,
            fields,
            windows: pair_windows(window_defs),
            mode: FetchMode::Sync {
                state: SyncState {
                    base_url,
                    cache: Table::new(),
                    last_request: Table::new(),
                    min_interval: 16_000_000,
                    consecutive_failures: 0,
                    failed_until: None,
                    failure_threshold: 10,
                    failure_backoff: 5_000_000_000,
                    retry_limit: 0,
                },
            },
            fm_db: Table::new(),
            derived: DerivedState::new(),
            fm_version_tag: "".to_string(),
            config_dir,
            fm_dir,
            start: clock_start(),
        }
    }

    /// Stores the document that an endpoint gave; a client that asks on demand
    /// stores none.
    pub fn store_document(&mut self, endpoint: &str, doc: JsonDoc)
        ensures
            final(self).same_setup(*old(self)),
            final(self).http == old(self).http,
            final(self).derived == old(self).derived,
            match old(self).mode {
                FetchMode::Background { cache } => final(self).mode matches FetchMode::Background {
                    cache: after,
                } && after@ == cache@.insert(endpoint@, doc),
                FetchMode::Sync { .. } => final(self).mode == old(self).mode,
            },
    {
        match &mut self.mode {
            FetchMode::Background { cache } => {
                cache.insert(copy_text(endpoint), doc);
            },
            FetchMode::Sync { .. } => {},
        }
    }

    /// The document of an endpoint: the stored one, or what asking gives.
    pub fn fetch_json(&mut self, endpoint: &str) -> (r: Result<JsonDoc, Error>)
        ensures
            final(self).same_setup(*old(self)),
            final(self).derived == old(self).derived,
            match old(self).mode {
                FetchMode::Background { cache } => {
                    &&& final(self).mode == old(self).mode
                    &&& final(self).http == old(self).http
                    &&& match stored(cache@, endpoint@) {
                        Some(d) => r matches Ok(doc) && doc@ == d,
                        None => r matches Err(Error::Other(m)) && m@
                            == "background mode: no cached value"@,
                    }
                },
                FetchMode::Sync { state } => final(self).mode matches FetchMode::Sync {
                    state: after,
                } && answered(
                    (state, old(self).http),
                    (after, final(self).http),
                    endpoint@,
                    r,
                ),
            },
    {
        match &mut self.mode {
            FetchMode::Background { cache } => match stored_document(cache, endpoint) {
                Some(doc) => Ok(doc),
                None => Err(Error::Other("background mode: no cached value".to_string())),
            },
            FetchMode::Sync { state } => ask(&mut self.http, state, &self.start, endpoint),
        }
    }
}

impl<H: HttpClient> Client<H> {
    /// The documents of the endpoints, as far as asking gives them.
    fn ask_all(
        http: &mut H,
        state: &mut SyncState,
        start: &std::time::Instant,
        endpoints: &Vec<String>,
    ) -> (r: (Vec<Option<JsonDoc>>, Ghost<Seq<(SyncState, H)>>))
        ensures
            gave_all(r.1@, texts(endpoints@), option_views(r.0@)),
            r.1@[0] == (*old(state), *old(http)),
            r.1@.last() == (*final(state), *final(http)),
            r.0@.len() == endpoints@.len(),
    {
        let mut docs: Vec<Option<JsonDoc>> = Vec::new();
        let ghost mut trail: Seq<(SyncState, H)> = seq![(*state, *http)];
        let ghost ends = texts(endpoints@);
        let mut i: usize = 0;
        while i < endpoints.len()
            invariant
                i <= endpoints.len(),
                ends == texts(endpoints@),
                docs@.len() == i,
                trail.len() == i + 1,
                trail[0] == (*old(state), *old(http)),
                trail.last() == (*state, *http),
                forall|j: int|
                    0 <= j < i ==> gave(
                        trail[j],
                        trail[j + 1],
                        ends[j],
                        #[trigger] option_views(docs@)[j],
                    ),
            decreases endpoints.len() - i,
        {
            let ghost before = (*state, *http);
            let r = ask(http, state, start, endpoints[i].as_str());
            let ghost result = r;
            proof {
                assert(ends[i as int] == endpoints@[i as int]@);
                assert(gave(before, (*state, *http), ends[i as int], ok_view(result)));
            }
            let doc: Option<JsonDoc> = match r {
                Ok(doc) => Some(doc),
                Err(_) => None,
            };
            let ghost old_docs = option_views(docs@);
            let ghost old_trail = trail;
            docs.push(doc);
            proof {
                trail = trail.push((*state, *http));
                assert(option_views(docs@) =~= old_docs.push(ok_view(result)));
                assert forall|j: int| 0 <= j < i + 1 implies gave(
                    trail[j],
                    trail[j + 1],
                    ends[j],
                    #[trigger] option_views(docs@)[j],
                ) by {
                    if j < i {
                        assert(option_views(docs@)[j] == old_docs[j]);
                        assert(trail[j] == old_trail[j] && trail[j + 1] == old_trail[j + 1]);
                    }
                }
            }
            i = i + 1;
        }
        (docs, Ghost(trail))
    }

    /// The document of the indicators, in either spelling.
    fn ask_indicators(http: &mut H, state: &mut SyncState, start: &std::time::Instant) -> (r:
        Option<JsonDoc>)
        ensures
            gave_indicators(
                (*old(state), *old(http)),
                (*final(state), *final(http)),
                option_view(r),
            ),
    {
        let ghost before = (*state, *http);
        let first = ask(http, state, start, "indicators");
        proof {
            assert(gave(before, (*state, *http), "indicators"@, ok_view(first)));
        }
        match first {
            Ok(doc) => Some(doc),
            Err(_) => {
                let ghost mid = (*state, *http);
                let second = ask(http, state, start, "/indicators");
                proof {
                    assert(gave(mid, (*state, *http), "/indicators"@, ok_view(second)));
                    assert(gave(before, mid, "indicators"@, None));
                }
                match second {
                    Ok(doc) => Some(doc),
                    Err(_) => None,
                }
            },
        }
    }

    /// The stored documents of the endpoints.
    fn stored_documents(cache: &Table<JsonDoc>, endpoints: &Vec<String>) -> (docs: Vec<
        Option<JsonDoc>,
    >)
        ensures
            option_views(docs@) == stored_all(cache@, texts(endpoints@)),
            docs@.len() == endpoints@.len(),
    {
        let mut docs: Vec<Option<JsonDoc>> = Vec::new();
        let mut i: usize = 0;
        while i < endpoints.len()
            invariant
                i <= endpoints.len(),
                docs@.len() == i,
                forall|j: int|
                    0 <= j < i ==> #[trigger] option_views(docs@)[j] == stored(
                        cache@,
                        endpoints@[j]@,
                    ),
            decreases endpoints.len() - i,
        {
            let ghost before = option_views(docs@);
            let doc = stored_document(cache, endpoints[i].as_str());
            docs.push(doc);
            proof {
                assert(option_views(docs@) =~= before.push(option_view(doc)));
            }
            i = i + 1;
        }
        proof {
            assert(option_views(docs@) =~= stored_all(cache@, texts(endpoints@)));
        }
        docs
    }

    /// Whether `frame` and `t` can be what this client fetches, with `after` the
    /// client afterwards.
    pub open spec fn fetched(
        self,
        after: Self,
        frame: Map<Seq<char>, Num>,
        t: Map<Seq<char>, String>,
        docs: Seq<Option<Option<Seq<(Seq<char>, LeafView)>>>>,
        indicators: Option<Option<Seq<(Seq<char>, LeafView)>>>,
        now: u64,
    ) -> bool {
        let endpoints: Seq<Seq<char>> = endpoints_of(self.fields@);
        let vehicle: Option<Seq<char>> = vehicle_in(indicators);
        let found: bool = has_record(self.fm_db@, vehicle);
        &&& after.same_setup(self)
        &&& sourced(
            (self.mode, self.http),
            (after.mode, after.http),
            endpoints,
            docs,
            indicators,
        )
        &&& framed(
            with_vehicle(readings(self.fields@, endpoints, docs), self.fm_db@, vehicle),
            self.derived,
            after.derived,
            now,
            found,
            frame,
        )
        &&& text_views(t) == text_fields(vehicle, found, self.config_dir@, self.fm_dir@)
    }

    /// Whether `frame` and `t` can be what this client fetches from some
    /// documents at some time.
    pub open spec fn can_fetch(
        self,
        after: Self,
        frame: Map<Seq<char>, Num>,
        t: Map<Seq<char>, String>,
    ) -> bool {
        exists|
            docs: Seq<Option<Option<Seq<(Seq<char>, LeafView)>>>>,
            indicators: Option<Option<Seq<(Seq<char>, LeafView)>>>,
            now: u64,
        | #[trigger] self.fetched(after, frame, t, docs, indicators, now)
    }

    /// The frame and the text fields: the readings of all endpoints, the limits
    /// of the vehicle and the derived fields.
    pub fn fetch_raw(&mut self) -> (r: (RawFrame, StringFrame))
        ensures
            old(self).can_fetch(*final(self), r.0@, r.1@),
    {
        let ghost before = *self;
        let endpoints = unique_endpoints(&self.fields);
        let ghost ends = endpoints_of(self.fields@);
        let ghost mut trail: Seq<(SyncState, H)> = seq![];
        let (docs, indicators) = match &mut self.mode {
            FetchMode::Background { cache } => {
                let docs = Self::stored_documents(cache, &endpoints);
                let indicators = match stored_document(cache, "indicators") {
                    Some(doc) => Some(doc),
                    None => stored_document(cache, "/indicators"),
                };
                (docs, indicators)
            },
            FetchMode::Sync { state } => {
                let (docs, Ghost(passed)) = Self::ask_all(
                    &mut self.http,
                    state,
                    &self.start,
                    &endpoints,
                );
                proof {
                    trail = passed;
                }
                let indicators = Self::ask_indicators(&mut self.http, state, &self.start);
                (docs, indicators)
            },
        };
        proof {
            if before.mode is Sync {
                assert(gave_all(trail, ends, option_views(docs@)));
            }
            assert(sourced(
                (before.mode, before.http),
                (self.mode, self.http),
                ends,
                option_views(docs@),
                option_view(indicators),
            ));
        }
        let now: u64 = nanos_since(&self.start);
        let r = build_frame(
            &self.fields,
            &endpoints,
            &docs,
            &indicators,
            &self.fm_db,
            &mut self.derived,
            now,
            self.config_dir.as_str(),
            self.fm_dir.as_str(),
        );
        proof {
            assert(before.fetched(
                *self,
                r.0@,
                r.1@,
                option_views(docs@),
                option_view(indicators),
                now,
            ));
        }
        r
    }

    /// What is shown of the windows.
    pub fn fetch_display_windows(&mut self) -> (r: Vec<WindowRows>)
        requires
            old(self).ready(),
        ensures
            final(self).ready(),
            exists|frame: Map<Seq<char>, Num>, t: Map<Seq<char>, String>|
                #[trigger] old(self).can_fetch(*final(self), frame, t) && all_shown_can_be(
                    old(self).windows@,
                    frame,
                    t,
                    r@,
                ),
    {
        let (frame, t) = self.fetch_raw();
        show_windows(&self.windows, &frame, &t)
    }

    /// The rows of all windows, one after the other.
    pub fn fetch_display_rows(&mut self) -> (r: Vec<DisplayRow>)
        requires
            old(self).ready(),
        ensures
            final(self).ready(),
            exists|
                frame: Map<Seq<char>, Num>,
                t: Map<Seq<char>, String>,
                shown: Seq<WindowRows>,
            | #[trigger]
                old(self).can_fetch(*final(self), frame, t) && #[trigger] all_shown_can_be(
                    old(self).windows@,
                    frame,
                    t,
                    shown,
                ) && r@ == all_rows(shown),
    {
        let windows = self.fetch_display_windows();
        flatten(windows)
    }

    /// Replaces the windows with those that were loaded. Where loading failed,
    /// or there is a fault in them, the windows stay.
    pub fn reload_window_defs(&mut self, loaded: Result<Vec<WindowDef>, String>) -> (r: Result<
        Vec<WindowDef>,
        String,
    >)
        requires
            old(self).ready(),
        ensures
            final(self).ready(),
            final(self).http == old(self).http,
            final(self).fields == old(self).fields,
            final(self).mode == old(self).mode,
            final(self).fm_db == old(self).fm_db,
            final(self).derived == old(self).derived,
            final(self).fm_version_tag == old(self).fm_version_tag,
            final(self).config_dir == old(self).config_dir,
            final(self).fm_dir == old(self).fm_dir,
            match loaded {
                Err(e) => r matches Err(m) && m == e && final(self).windows == old(self).windows,
                Ok(defs) => match windows_fault(defs@) {
                    Some(m) => r matches Err(e) && e@ == m && final(self).windows == old(self).windows,
                    None => {
                        &&& r matches Ok(back) && back@ == defs@
                        &&& final(self).windows@.len() == defs@.len()
                        &&& forall|i: int|
                            0 <= i < defs@.len() ==> same_window(
                                (#[trigger] final(self).windows@[i]).0,
                                defs@[i],
                            )
                    },
                },
            },
    {
        match loaded {
            Err(e) => Err(e),
            Ok(all) => {
                let fault = find_fault(&all);
                match accept_windows(all, fault) {
                    Err(e) => Err(e),
                    Ok(defs) => {
                        proof {
                            lemma_faultless_ready(defs@);
                        }
                        let copies = copy_windows(&defs);
                        self.windows = pair_windows(copies);
                        Ok(defs)
                    },
                }
            },
        }
    }

    /// Replaces the flight-model database by the one in the texts of its files,
    /// and gives the release in the text of its version file, or nothing.
    pub fn reload_fm_db(
        &mut self,
        data: Option<&str>,
        names: Option<&str>,
        version_tag: Option<&str>,
    ) -> (tag: String)
        requires
            data is Some ==> data->0@.len() < TEXT_LIMIT,
        ensures
            final(self).http == old(self).http,
            final(self).fields == old(self).fields,
            final(self).windows == old(self).windows,
            final(self).mode == old(self).mode,
            final(self).derived == old(self).derived,
            final(self).fm_version_tag == old(self).fm_version_tag,
            final(self).config_dir == old(self).config_dir,
            final(self).fm_dir == old(self).fm_dir,
            final(self).fm_db@ == database(
                match data {
                    Some(d) => Some(d@),
                    None => None,
                },
                match names {
                    Some(n) => Some(n@),
                    None => None,
                },
            ),
            tag@ == (match crate::fm_update::tag_in(
                match version_tag {
                    Some(t) => Some(t@),
                    None => None,
                },
            ) {
                Some(t) => t,
                None => ""@,
            }),
    {
        self.fm_db = load_fm_db(data, names);
        match crate::fm_update::read_fm_version_tag(version_tag) {
            Some(t) => t,
            None => "".to_string(),
        }
    }
}

/// Whether two windows describe the same.
pub open spec fn same_window(a: WindowDef, b: WindowDef) -> bool {
    &&& a.id@ == b.id@
    &&& a.x == b.x
    &&& a.y == b.y
    &&& a.width == b.width
    &&& a.height == b.height
    &&& a.indicators@ == b.indicators@
    &&& a.style == b.style
}

/// Copies of the windows.
fn copy_windows(defs: &Vec<WindowDef>) -> (r: Vec<WindowDef>)
    ensures
        r@.len() == defs@.len(),
        forall|i: int| 0 <= i < defs@.len() ==> same_window(#[trigger] r@[i], defs@[i]),
        windows_ready(defs@) ==> windows_ready(r@),
{
    let mut r: Vec<WindowDef> = Vec::new();
    let mut i: usize = 0;
    while i < defs.len()
        invariant
            i <= defs.len(),
            r@.len() == i,
            forall|j: int| 0 <= j < i ==> same_window(#[trigger] r@[j], defs@[j]),
        decreases defs.len() - i,
    {
        r.push(defs[i].clone());
        i = i + 1;
    }
    proof {
        if windows_ready(defs@) {
            assert forall|j: int| 0 <= j < r@.len() implies window_ready(#[trigger] r@[j]) by {
                assert(same_window(r@[j], defs@[j]));
                assert(window_ready(defs@[j]));
            }
        }
    }
    r
}

/// The rows of all windows, one after the other.
pub open spec fn all_rows(w: Seq<WindowRows>) -> Seq<DisplayRow>
    decreases w.len(),
{
    if w.len() == 0 {
        seq![]
    } else {
        all_rows(w.drop_last()) + w.last().rows@
    }
}

/// The rows of all windows, one after the other.
fn flatten(w: Vec<WindowRows>) -> (r: Vec<DisplayRow>)
    ensures
        r@ == all_rows(w@),
{
    let mut w = w;
    let ghost all = w@;
    let n: usize = w.len();
    let mut r: Vec<DisplayRow> = Vec::new();
    let mut i: usize = 0;
    while i < n
        invariant
            i <= n,
            n == all.len(),
            w@ == all.skip(i as int),
            r@ == all_rows(all.take(i as int)),
        decreases n - i,
    {
        let mut one = w.remove(0);
        proof {
            assert(w@ =~= all.skip(i as int + 1));
            assert(all.take(i as int + 1).drop_last() =~= all.take(i as int));
        }
        r.append(&mut one.rows);
        i = i + 1;
    }
    proof {
        assert(all.take(n as int) =~= all);
    }
    r
}

} // verus!
