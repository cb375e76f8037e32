//! Documents of the game's interface and of the release service.
//!
//! The text is read by the `serde_json` and `json_comments` crates; what the
//! rest of the library reads of it is kept in types of its own.
use vstd::prelude::*;

use crate::num::{settled, Num};
use crate::text::{option_text, same_text};

verus! {

/// A member of an object, as far as it is read.
#[derive(Debug)]
pub enum Leaf {
    Number(Num),
    Truth(bool),
    Text(String),
    /// A list, an object or nothing.
    Other,
}

impl Clone for Leaf {
    fn clone(&self) -> (r: Self)
        ensures
            r == *self,
    {
        match self {
            Leaf::Number(n) => Leaf::Number(*n),
            Leaf::Truth(b) => Leaf::Truth(*b),
            Leaf::Text(t) => Leaf::Text(t.clone()),
            Leaf::Other => Leaf::Other,
        }
    }
}

/// The contents of a member.
pub enum LeafView {
    Number(u64),
    Truth(bool),
    Text(Seq<char>),
    Other,
}

impl View for Leaf {
    type V = LeafView;

    open spec fn view(&self) -> LeafView {
        match self {
            Leaf::Number(n) => LeafView::Number(n.bits),
            Leaf::Truth(b) => LeafView::Truth(*b),
            Leaf::Text(t) => LeafView::Text(t@),
            Leaf::Other => LeafView::Other,
        }
    }
}

/// A document: the members of an object in the order of its keys, or none
/// where the document is no object.
pub struct JsonDoc {
    pub members: Option<Vec<(String, Leaf)>>,
}

/// The contents of members.
pub open spec fn member_views(v: Seq<(String, Leaf)>) -> Seq<(Seq<char>, LeafView)> {
    v.map_values(|m: (String, Leaf)| (m.0@, m.1@))
}

impl View for JsonDoc {
    type V = Option<Seq<(Seq<char>, LeafView)>>;

    open spec fn view(&self) -> Option<Seq<(Seq<char>, LeafView)>> {
        match self.members {
            Some(v) => Some(member_views(v@)),
            None => None,
        }
    }
}

/// A value of JSON.
pub enum Json {
    Nothing,
    Truth(bool),
    /// The bit pattern of a number, where it has one.
    Number(Option<u64>),
    Text(String),
    List(Vec<Json>),
    /// The members, in the order of their keys.
    Object(Vec<(String, Json)>),
}

/// The contents of a value.
pub enum JsonView {
    Nothing,
    Truth(bool),
    Number(Option<u64>),
    Text(Seq<char>),
    List(Seq<JsonView>),
    Object(Seq<(Seq<char>, JsonView)>),
}

/// The contents of a value.
pub open spec fn tree(j: Json) -> JsonView
    decreases j,
{
    match j {
        Json::Nothing => JsonView::Nothing,
        Json::Truth(b) => JsonView::Truth(b),
        Json::Number(n) => JsonView::Number(n),
        Json::Text(t) => JsonView::Text(t@),
        Json::List(v) => JsonView::List(
            Seq::new(
                v@.len(),
                |i: int|
                    if 0 <= i < v@.len() {
                        tree(v@[i])
                    } else {
                        JsonView::Nothing
                    },
            ),
        ),
        Json::Object(v) => JsonView::Object(
            Seq::new(
                v@.len(),
                |i: int|
                    if 0 <= i < v@.len() {
                        (v@[i].0@, tree(v@[i].1))
                    } else {
                        (seq![], JsonView::Nothing)
                    },
            ),
        ),
    }
}

impl View for Json {
    type V = JsonView;

    open spec fn view(&self) -> JsonView {
        tree(*self)
    }
}

/// Whether lists and objects are nested no deeper than `d` in a value.
pub open spec fn within(v: JsonView, d: nat) -> bool
    decreases d,
{
    match v {
        JsonView::List(a) => d > 0 && forall|i: int|
            0 <= i < a.len() ==> within(#[trigger] a[i], (d - 1) as nat),
        JsonView::Object(m) => d > 0 && forall|i: int|
            0 <= i < m.len() ==> within((#[trigger] m[i]).1, (d - 1) as nat),
        _ => true,
    }
}

/// A value as it was read.
#[verifier::external_type_specification]
#[verifier::external_body]
pub struct ExJsonValue(serde_json::Value);

/// What a value that was read holds.
pub uninterp spec fn value_tree(v: serde_json::Value) -> JsonView;

/// The value that a text reads as, where it is JSON.
pub uninterp spec fn json_text(text: Seq<char>) -> Option<JsonView>;

/// `serde_json::from_str` reads a text, and gives up where lists and objects are
/// nested 128 deep. What an error says is not stated.
#[verifier::external_body]
fn parse_value(text: &str) -> (r: Result<serde_json::Value, String>)
    ensures
        match r {
            Ok(v) => json_text(text@) == Some(value_tree(v)) && within(value_tree(v), 128),
            Err(_) => json_text(text@) is None,
        },
{
    serde_json::from_str(text).map_err(|e| e.to_string())
}

/// The outermost level of a value that was read.
enum Level<'a> {
    Nothing,
    Truth(bool),
    Number(Option<u64>),
    Text(&'a String),
    List(&'a Vec<serde_json::Value>),
    Object(Vec<(&'a String, &'a serde_json::Value)>),
}

/// What a level holds.
spec fn level_tree(l: Level) -> JsonView {
    match l {
        Level::Nothing => JsonView::Nothing,
        Level::Truth(b) => JsonView::Truth(b),
        Level::Number(n) => JsonView::Number(n),
        Level::Text(t) => JsonView::Text(t@),
        Level::List(v) => JsonView::List(v@.map_values(|x: serde_json::Value| value_tree(x))),
        Level::Object(v) => JsonView::Object(
            v@.map_values(|m: (&String, &serde_json::Value)| (m.0@, value_tree(*m.1))),
        ),
    }
}

/// The variants of `serde_json::Value`, a number by what `Number::as_f64` gives
/// of it, and an object by its members in the order in which `Map::iter` walks
/// them.
#[verifier::external_body]
fn level_of(v: &serde_json::Value) -> (l: Level<'_>)
    ensures
        level_tree(l) == value_tree(*v),
{
    match v {
        serde_json::Value::Null => Level::Nothing,
        serde_json::Value::Bool(b) => Level::Truth(*b),
        serde_json::Value::Number(n) => Level::Number(n.as_f64().map(|x| x.to_bits())),
        serde_json::Value::String(s) => Level::Text(s),
        serde_json::Value::Array(a) => Level::List(a),
        serde_json::Value::Object(m) => Level::Object(m.iter().collect()),
    }
}

/// A value that was read, level by level.
fn tree_of(v: &serde_json::Value, Ghost(d): Ghost<nat>) -> (j: Json)
    requires
        within(value_tree(*v), d),
    ensures
        j@ == value_tree(*v),
    decreases d,
{
    match level_of(v) {
        Level::Nothing => Json::Nothing,
        Level::Truth(b) => Json::Truth(b),
        Level::Number(n) => Json::Number(n),
        Level::Text(t) => Json::Text(t.clone()),
        Level::List(list) => {
            let ghost all = value_tree(*v)->List_0;
            let mut out: Vec<Json> = Vec::new();
            let mut i: usize = 0;
            while i < list.len()
                invariant
                    i <= list.len(),
                    d > 0,
                    all == list@.map_values(|x: serde_json::Value| value_tree(x)),
                    forall|k: int| 0 <= k < all.len() ==> within(#[trigger] all[k], (d - 1) as nat),
                    out@.len() == i,
                    forall|k: int| 0 <= k < i ==> (#[trigger] out@[k])@ == all[k],
                decreases list.len() - i,
            {
                proof {
                    assert(all[i as int] == value_tree(list@[i as int]));
                }
                out.push(tree_of(&list[i], Ghost((d - 1) as nat)));
                i = i + 1;
            }
            let j = Json::List(out);
            proof {
                assert(j@->List_0 =~= all);
            }
            j
        },
        Level::Object(members) => {
            let ghost all = value_tree(*v)->Object_0;
            let mut out: Vec<(String, Json)> = Vec::new();
            let mut i: usize = 0;
            while i < members.len()
                invariant
                    i <= members.len(),
                    d > 0,
                    all == members@.map_values(
                        |m: (&String, &serde_json::Value)| (m.0@, value_tree(*m.1)),
                    ),
                    forall|k: int|
                        0 <= k < all.len() ==> within((#[trigger] all[k]).1, (d - 1) as nat),
                    out@.len() == i,
                    forall|k: int|
                        0 <= k < i ==> (#[trigger] out@[k]).0@ == all[k].0 && out@[k].1@
                            == all[k].1,
                decreases members.len() - i,
            {
                let (key, x): (&String, &serde_json::Value) = members[i];
                proof {
                    assert(all[i as int] == (key@, value_tree(*x)));
                }
                out.push((key.clone(), tree_of(x, Ghost((d - 1) as nat))));
                i = i + 1;
            }
            let j = Json::Object(out);
            proof {
                assert(j@->Object_0 =~= all);
            }
            j
        },
    }
}

/// Reads a text as JSON, or says what is wrong with it.
pub fn parse_json(text: &str) -> (r: Result<Json, String>)
    ensures
        match json_text(text@) {
            Some(v) => r matches Ok(j) && j@ == v,
            None => r is Err,
        },
{
    match parse_value(text) {
        Ok(v) => Ok(tree_of(&v, Ghost(128))),
        Err(e) => Err(e),
    }
}

/// The member of a value at `key`: nothing where the value is no object or has
/// none.
pub open spec fn field(v: JsonView, key: Seq<char>) -> JsonView {
    match v {
        JsonView::Object(m) => first_field(m, key),
        _ => JsonView::Nothing,
    }
}

/// The first of the members at `key`, or nothing.
pub open spec fn first_field(m: Seq<(Seq<char>, JsonView)>, key: Seq<char>) -> JsonView
    decreases m.len(),
{
    if m.len() == 0 {
        JsonView::Nothing
    } else if m[0].0 == key {
        m[0].1
    } else {
        first_field(m.skip(1), key)
    }
}

/// The text of a value, where it is one.
pub open spec fn text_value(v: JsonView) -> Option<Seq<char>> {
    match v {
        JsonView::Text(t) => Some(t),
        _ => None,
    }
}

impl Json {
    /// The member at `key`, where there is one.
    pub fn field(&self, key: &str) -> (r: Option<&Json>)
        ensures
            match r {
                Some(j) => j@ == field(self@, key@),
                None => field(self@, key@) == JsonView::Nothing,
            },
    {
        match self {
            Json::Object(v) => {
                let ghost all = self@->Object_0;
                let mut i: usize = 0;
                proof {
                    assert(all.skip(0) =~= all);
                }
                while i < v.len()
                    invariant
                        i <= v.len(),
                        *self == Json::Object(*v),
                        self@ == JsonView::Object(all),
                        all.len() == v@.len(),
                        first_field(all, key@) == first_field(all.skip(i as int), key@),
                    decreases v.len() - i,
                {
                    proof {
                        assert(all[i as int] == (v@[i as int].0@, v@[i as int].1@));
                        assert(all.skip(i as int)[0] == all[i as int]);
                        assert(all.skip(i as int).skip(1) =~= all.skip(i as int + 1));
                    }
                    if same_text(v[i].0.as_str(), key) {
                        return Some(&v[i].1);
                    }
                    i = i + 1;
                }
                None
            },
            _ => None,
        }
    }

    /// The text at `key`, where there is one.
    pub fn text_at(&self, key: &str) -> (r: Option<String>)
        ensures
            option_text(r) == text_value(field(self@, key@)),
    {
        match self.field(key) {
            Some(Json::Text(t)) => Some(t.clone()),
            _ => None,
        }
    }
}

/// A value as a member of a document.
pub open spec fn leaf_view(v: JsonView) -> LeafView {
    match v {
        JsonView::Number(Some(bits)) => LeafView::Number(settled(bits)),
        JsonView::Truth(b) => LeafView::Truth(b),
        JsonView::Text(t) => LeafView::Text(t),
        _ => LeafView::Other,
    }
}

/// The members of a value with what is read of them, where it is an object.
pub open spec fn leaves(v: JsonView) -> Option<Seq<(Seq<char>, LeafView)>> {
    match v {
        JsonView::Object(m) => Some(
            m.map_values(|e: (Seq<char>, JsonView)| (e.0, leaf_view(e.1))),
        ),
        _ => None,
    }
}

/// The document that a text reads as, where it is JSON.
pub open spec fn document(text: Seq<char>) -> Option<Option<Seq<(Seq<char>, LeafView)>>> {
    match json_text(text) {
        None => None,
        Some(v) => Some(leaves(v)),
    }
}

/// A value as a member of a document.
fn make_leaf(j: &Json) -> (r: Leaf)
    ensures
        r@ == leaf_view(j@),
{
    match j {
        Json::Number(Some(bits)) => Leaf::Number(Num::of_bits(*bits)),
        Json::Truth(b) => Leaf::Truth(*b),
        Json::Text(t) => Leaf::Text(t.clone()),
        _ => Leaf::Other,
    }
}

/// The document that a value is.
pub fn document_of(j: &Json) -> (r: JsonDoc)
    ensures
        r@ == leaves(j@),
{
    match j {
        Json::Object(v) => {
            let ghost all = j@->Object_0;
            let ghost made = leaves(j@)->0;
            let mut out: Vec<(String, Leaf)> = Vec::new();
            let mut i: usize = 0;
            proof {
                assert(member_views(out@) =~= made.take(0));
            }
            while i < v.len()
                invariant
                    i <= v.len(),
                    *j == Json::Object(*v),
                    j@ == JsonView::Object(all),
                    all.len() == v@.len(),
                    made == all.map_values(|e: (Seq<char>, JsonView)| (e.0, leaf_view(e.1))),
                    member_views(out@) == made.take(i as int),
                decreases v.len() - i,
            {
                let ghost before = member_views(out@);
                let leaf = make_leaf(&v[i].1);
                out.push((v[i].0.clone(), leaf));
                proof {
                    assert(all[i as int] == (v@[i as int].0@, v@[i as int].1@));
                    assert(member_views(out@) =~= before.push((v@[i as int].0@, leaf@)));
                    assert(made.take(i as int + 1) =~= made.take(i as int).push(made[i as int]));
                }
                i = i + 1;
            }
            proof {
                assert(made.take(i as int) =~= made);
            }
            JsonDoc { members: Some(out) }
        },
        _ => JsonDoc { members: None },
    }
}

/// Reads a document, or says what is wrong with it.
pub fn parse_document(text: &str) -> (r: Result<JsonDoc, String>)
    ensures
        match r {
            Ok(doc) => document(text@) == Some(doc@),
            Err(_) => document(text@) is None,
        },
{
    match parse_json(text) {
        Err(e) => Err(e),
        Ok(j) => Ok(document_of(&j)),
    }
}

/// The member at `key`, where the document has one.
pub open spec fn member(doc: Option<Seq<(Seq<char>, LeafView)>>, key: Seq<char>) -> Option<LeafView> {
    match doc {
        None => None,
        Some(v) => first_member(v, key),
    }
}

/// The first member of `v` at `key`.
pub open spec fn first_member(v: Seq<(Seq<char>, LeafView)>, key: Seq<char>) -> Option<LeafView>
    decreases v.len(),
{
    if v.len() == 0 {
        None
    } else if v[0].0 == key {
        Some(v[0].1)
    } else {
        first_member(v.skip(1), key)
    }
}

impl Clone for JsonDoc {
    fn clone(&self) -> (r: Self)
        ensures
            r@ == self@,
    {
        match &self.members {
            None => JsonDoc { members: None },
            Some(v) => {
                let mut out: Vec<(String, Leaf)> = Vec::new();
                let mut i: usize = 0;
                proof {
                    assert(out@ =~= v@.take(0));
                }
                while i < v.len()
                    invariant
                        i <= v.len(),
                        member_views(out@) == member_views(v@.take(i as int)),
                    decreases v.len() - i,
                {
                    let ghost before = member_views(out@);
                    out.push((v[i].0.clone(), v[i].1.clone()));
                    i = i + 1;
                    proof {
                        assert(member_views(out@) =~= before.push((v@[i - 1].0@, v@[i - 1].1@)));
                        assert(member_views(v@.take(i as int)) =~= member_views(
                            v@.take(i - 1),
                        ).push((v@[i - 1].0@, v@[i - 1].1@)));
                    }
                }
                proof {
                    assert(v@.take(i as int) =~= v@);
                }
                JsonDoc { members: Some(out) }
            },
        }
    }
}

impl JsonDoc {
    /// The member at `key`.
    pub fn get(&self, key: &str) -> (r: Option<&Leaf>)
        ensures
            match r {
                Some(leaf) => member(self@, key@) == Some(leaf@),
                None => member(self@, key@) is None,
            },
    {
        match &self.members {
            None => None,
            Some(v) => {
                let name: String = key.to_string();
                let ghost all = member_views(v@);
                let mut i: usize = 0;
                proof {
                    assert(all.skip(0) =~= all);
                }
                while i < v.len()
                    invariant
                        i <= v.len(),
                        all == member_views(v@),
                        self@ == Some(all),
                        name@ == key@,
                        first_member(all, key@) == first_member(all.skip(i as int), key@),
                    decreases v.len() - i,
                {
                    proof {
                        assert(all.skip(i as int)[0] == (v@[i as int].0@, v@[i as int].1@));
                        assert(all.skip(i as int).skip(1) =~= all.skip(i as int + 1));
                    }
                    if v[i].0 == name {
                        return Some(&v[i].1);
                    }
                    i = i + 1;
                }
                None
            },
        }
    }

    /// The number at `key`.
    pub fn number(&self, key: &str) -> (r: Option<Num>)
        ensures
            r == number_of(member(self@, key@)),
    {
        match self.get(key) {
            Some(Leaf::Number(n)) => Some(*n),
            _ => None,
        }
    }

    /// The truth value at `key`.
    pub fn truth(&self, key: &str) -> (r: Option<bool>)
        ensures
            r == truth_of(member(self@, key@)),
    {
        match self.get(key) {
            Some(Leaf::Truth(b)) => Some(*b),
            _ => None,
        }
    }

    /// The text at `key`.
    pub fn text(&self, key: &str) -> (r: Option<String>)
        ensures
            match text_in(member(self@, key@)) {
                Some(t) => r is Some && (r->0)@ == t,
                None => r is None,
            },
    {
        match self.get(key) {
            Some(Leaf::Text(t)) => Some(t.clone()),
            _ => None,
        }
    }
}

/// The number of a member, where it is one.
pub open spec fn number_of(m: Option<LeafView>) -> Option<Num> {
    match m {
        Some(LeafView::Number(bits)) => Some(Num { bits }),
        _ => None,
    }
}

/// The truth value of a member, where it is one.
pub open spec fn truth_of(m: Option<LeafView>) -> Option<bool> {
    match m {
        Some(LeafView::Truth(b)) => Some(b),
        _ => None,
    }
}

/// The text of a member, where it is one.
pub open spec fn text_in(m: Option<LeafView>) -> Option<Seq<char>> {
    match m {
        Some(LeafView::Text(t)) => Some(t),
        _ => None,
    }
}

/// What is left of a text without its comments, where none of its strings and
/// comments is cut short and no other slash stands outside of its strings.
pub uninterp spec fn without_comments(text: Seq<char>) -> Option<Seq<char>>;

/// `json_comments::StripComments` reads a text through and replaces its
/// comments, outside of strings, by blanks. What an error says is not stated.
#[verifier::external_body]
fn blank_comments(text: &str) -> (r: Result<String, String>)
    ensures
        match r {
            Ok(t) => without_comments(text@) == Some(t@),
            Err(_) => without_comments(text@) is None,
        },
{
    let mut out = String::new();
    let mut reader = json_comments::StripComments::new(text.as_bytes());
    match std::io::Read::read_to_string(&mut reader, &mut out) {
        Ok(_) => Ok(out),
        Err(e) => Err(e.to_string()),
    }
}

/// The text without its comments, or what is wrong with them.
pub fn strip_comments(text: &str) -> (r: Result<String, String>)
    ensures
        match without_comments(text@) {
            Some(t) => r matches Ok(s) && s@ == t,
            None => r is Err,
        },
{
    blank_comments(text)
}

/// Whether a document of the mission endpoint says that a mission is running.
pub open spec fn says_running(doc: Option<Seq<(Seq<char>, LeafView)>>) -> bool {
    text_in(member(doc, "status"@)) == Some("running"@)
}

/// Whether a document of the mission endpoint says that a mission is running.
pub fn mission_status_running(doc: &JsonDoc) -> (r: bool)
    ensures
        r == says_running(doc@),
{
    match doc.text("status") {
        Some(t) => same_text(t.as_str(), "running"),
        None => false,
    }
}

/// Whether the reply of the mission endpoint says that a mission is running; no
/// reply and a reply that is no JSON say that none is.
pub fn poll_mission_running(body: Option<&str>) -> (r: bool)
    ensures
        r == (body is Some && document((body->0)@) is Some && says_running(
            document((body->0)@)->0,
        )),
{
    match body {
        None => false,
        Some(text) => match parse_document(text) {
            Ok(doc) => mission_status_running(&doc),
            Err(_) => false,
        },
    }
}

} // verus!
