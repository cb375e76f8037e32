//! The catalogue of fields: identifiers, units and labels made of the keys of
//! the game's documents, and the merging of what was found with what is known.
use vstd::prelude::*;
use vstd::slice::slice_subrange;

use crate::json::{member_views, JsonDoc, Leaf, LeafView};
use crate::number::lowered;
use crate::table::{map_of, Table};
use crate::text::{begins, chars_of, contains, copy_chars, occurs, occurs_at, push_chars, same_chars, stands_at, text_of};

verus! {

/// One entry of the catalogue.
#[derive(Debug)]
pub struct FieldEntry {
    /// The identifier that formulas use.
    pub id: String,
    pub endpoint: String,
    /// The key in the document of the endpoint.
    pub api_key: String,
    /// A short label, which may be edited.
    pub label: String,
    /// The unit, which may be edited.
    pub unit: String,
    /// `f64`, `bool` or `string`.
    pub field_type: String,
}

impl Clone for FieldEntry {
    fn clone(&self) -> (r: Self)
        ensures
            r == *self,
    {
        FieldEntry {
            id: self.id.clone(),
            endpoint: self.endpoint.clone(),
            api_key: self.api_key.clone(),
            label: self.label.clone(),
            unit: self.unit.clone(),
            field_type: self.field_type.clone(),
        }
    }
}

/// A text in lower case.
pub uninterp spec fn lower_text(s: Seq<char>) -> Seq<char>;

/// A text in upper case.
pub uninterp spec fn upper_text(s: Seq<char>) -> Seq<char>;

/// Whether every character is one of the first 128.
pub open spec fn ascii_only(s: Seq<char>) -> bool {
    forall|i: int| 0 <= i < s.len() ==> (#[trigger] s[i] as u32) < 128
}

/// `str::to_lowercase` gives a text in lower case. Of the first 128 characters
/// only the capital letters change, each to its small letter.
#[verifier::external_body]
fn lowercase(s: &str) -> (r: String)
    ensures
        r@ == lower_text(s@),
        ascii_only(s@) ==> r@ == lowered(s@),
{
    s.to_lowercase()
}

/// `c` with a small Latin letter in upper case.
pub open spec fn upper(c: char) -> char {
    if 'a' <= c <= 'z' {
        (c as u32 - 32) as char
    } else {
        c
    }
}

/// `s` with every Latin letter in upper case.
pub open spec fn uppered(s: Seq<char>) -> Seq<char> {
    s.map_values(|c: char| upper(c))
}

/// `str::to_uppercase` gives a text in upper case. Of the first 128 characters
/// only the small letters change, each to its capital letter.
#[verifier::external_body]
fn uppercase(s: &str) -> (r: String)
    ensures
        r@ == upper_text(s@),
        ascii_only(s@) ==> r@ == uppered(s@),
{
    s.to_uppercase()
}

/// `s` with every `p` replaced by `w`, from the left and without overlap.
pub open spec fn replaced(s: Seq<char>, p: Seq<char>, w: Seq<char>) -> Seq<char>
    decreases s.len(),
{
    if s.len() == 0 || p.len() == 0 {
        s
    } else if begins(s, p) {
        w + replaced(s.skip(p.len() as int), p, w)
    } else {
        seq![s[0]] + replaced(s.skip(1), p, w)
    }
}

/// `s` with every `p` replaced by `w`.
fn replace(s: &Vec<char>, p: &str, w: &str) -> (r: Vec<char>)
    requires
        p@.len() > 0,
    ensures
        r@ == replaced(s@, p@, w@),
{
    let pat = chars_of(p);
    let with = chars_of(w);
    let mut r: Vec<char> = Vec::new();
    let mut i: usize = 0;
    proof {
        assert(s@.skip(0) =~= s@);
        assert(r@ + replaced(s@, p@, w@) =~= replaced(s@, p@, w@));
    }
    while i < s.len()
        invariant
            i <= s.len(),
            pat@ == p@,
            with@ == w@,
            p@.len() > 0,
            r@ + replaced(s@.skip(i as int), p@, w@) == replaced(s@, p@, w@),
        decreases s.len() - i,
    {
        let ghost rest = s@.skip(i as int);
        let ghost before = r@;
        if stands_at(s.as_slice(), pat.as_slice(), i) {
            proof {
                assert(rest.subrange(0, p@.len() as int) =~= s@.subrange(
                    i as int,
                    i + p@.len(),
                ));
                assert(begins(rest, p@));
                assert(rest.skip(p@.len() as int) =~= s@.skip(i + p@.len()));
                let tail = replaced(s@.skip(i + p@.len()), p@, w@);
                assert(before + (w@ + tail) =~= (before + w@) + tail);
            }
            push_chars(&mut r, with.as_slice());
            i = i + pat.len();
        } else {
            proof {
                if begins(rest, p@) {
                    assert(rest.subrange(0, p@.len() as int) =~= s@.subrange(
                        i as int,
                        i + p@.len(),
                    ));
                }
                assert(rest.skip(1) =~= s@.skip(i + 1));
                let tail = replaced(s@.skip(i + 1), p@, w@);
                assert(before + (seq![rest[0]] + tail) =~= before.push(s@[i as int]) + tail);
            }
            r.push(s[i]);
            i = i + 1;
        }
    }
    proof {
        assert(s@.skip(i as int) =~= seq![]);
        assert(r@ + replaced(s@.skip(i as int), p@, w@) =~= r@);
    }
    r
}

/// `s` with the endings that stand for units written as words.
pub open spec fn units_as_words(s: Seq<char>) -> Seq<char> {
    let s1: Seq<char> = replaced(s, ", %"@, "_pct"@);
    let s2: Seq<char> = replaced(s1, ", km/h"@, "_kmh"@);
    let s3: Seq<char> = replaced(s2, ", m/s"@, "_ms"@);
    let s4: Seq<char> = replaced(s3, ", m"@, "_m"@);
    let s5: Seq<char> = replaced(s4, ", kg"@, "_kg"@);
    let s6: Seq<char> = replaced(s5, ", hp"@, "_hp"@);
    let s7: Seq<char> = replaced(s6, ", rpm"@, "_rpm"@);
    let s8: Seq<char> = replaced(s7, ", c"@, "_c"@);
    let s9: Seq<char> = replaced(s8, ", g"@, "_g"@);
    replaced(s9, ", deg"@, "_deg"@)
}

/// Whether `c` is written as an underscore in an identifier.
pub open spec fn separates(c: char) -> bool {
    c == ' ' || c == ',' || c == '/' || c == '\\' || c == '-' || c == '(' || c == ')' || c == '.'
}

/// `c` as it is written in an identifier.
pub open spec fn id_char(c: char) -> char {
    if separates(c) {
        '_'
    } else {
        c
    }
}

/// `s` with runs of underscores made one.
pub open spec fn collapsed(s: Seq<char>) -> Seq<char>
    decreases s.len(),
{
    if s.len() == 0 {
        s
    } else {
        let front: Seq<char> = collapsed(s.drop_last());
        if s.last() == '_' && front.len() > 0 && front.last() == '_' {
            front
        } else {
            front.push(s.last())
        }
    }
}

/// `s` without the underscores at its front.
pub open spec fn no_front_underscores(s: Seq<char>) -> Seq<char>
    decreases s.len(),
{
    if s.len() > 0 && s[0] == '_' {
        no_front_underscores(s.skip(1))
    } else {
        s
    }
}

/// `s` without the underscores at its back.
pub open spec fn no_back_underscores(s: Seq<char>) -> Seq<char>
    decreases s.len(),
{
    if s.len() > 0 && s.last() == '_' {
        no_back_underscores(s.drop_last())
    } else {
        s
    }
}

/// The identifier that a key in lower case gives, without that of its endpoint.
pub open spec fn plain_id(low: Seq<char>) -> Seq<char> {
    let written: Seq<char> = units_as_words(low).map_values(|c: char| id_char(c));
    no_back_underscores(no_front_underscores(collapsed(written)))
}

/// `s` without every `.json` at its end.
pub open spec fn without_json(s: Seq<char>) -> Seq<char>
    decreases s.len(),
{
    if s.len() >= 5 && s.skip(s.len() - 5) == ".json"@ {
        without_json(s.take(s.len() - 5))
    } else {
        s
    }
}

/// The name of an endpoint: without slashes in front, without `.json` at its
/// end, and with other slashes as underscores.
pub open spec fn endpoint_name(endpoint: Seq<char>) -> Seq<char> {
    without_json(crate::fm_update::without_front(endpoint, '/')).map_values(
        |c: char|
            if c == '/' {
                '_'
            } else {
                c
            },
    )
}

/// The identifier of a key in lower case: the fields of the mission and of the
/// indicators begin with the name of their endpoint.
pub open spec fn id_of(endpoint: Seq<char>, low: Seq<char>) -> Seq<char> {
    let prefix: Seq<char> = endpoint_name(endpoint);
    if prefix == "mission"@ || prefix == "indicators"@ {
        prefix + seq!['_'] + plain_id(low)
    } else {
        plain_id(low)
    }
}

/// Whether `c` is written as an underscore in an identifier.
fn is_separating(c: char) -> (r: bool)
    ensures
        r == separates(c),
{
    c == ' ' || c == ',' || c == '/' || c == '\\' || c == '-' || c == '(' || c == ')' || c == '.'
}

/// The identifier that a key in lower case gives, without that of its endpoint.
fn make_plain_id(low: &str) -> (r: Vec<char>)
    ensures
        r@ == plain_id(low@),
{
    proof {
        reveal_strlit(", %");
        reveal_strlit(", km/h");
        reveal_strlit(", m/s");
        reveal_strlit(", m");
        reveal_strlit(", kg");
        reveal_strlit(", hp");
        reveal_strlit(", rpm");
        reveal_strlit(", c");
        reveal_strlit(", g");
        reveal_strlit(", deg");
    }
    let s = chars_of(low);
    let s = replace(&s, ", %", "_pct");
    let s = replace(&s, ", km/h", "_kmh");
    let s = replace(&s, ", m/s", "_ms");
    let s = replace(&s, ", m", "_m");
    let s = replace(&s, ", kg", "_kg");
    let s = replace(&s, ", hp", "_hp");
    let s = replace(&s, ", rpm", "_rpm");
    let s = replace(&s, ", c", "_c");
    let s = replace(&s, ", g", "_g");
    let s = replace(&s, ", deg", "_deg");
    let ghost written = s@.map_values(|c: char| id_char(c));
    let mut id: Vec<char> = Vec::new();
    let mut i: usize = 0;
    proof {
        assert(written.take(0) =~= seq![]);
        assert(id@ =~= collapsed(written.take(0)));
    }
    while i < s.len()
        invariant
            i <= s.len(),
            written == s@.map_values(|c: char| id_char(c)),
            id@ == collapsed(written.take(i as int)),
        decreases s.len() - i,
    {
        proof {
            assert(written.take(i as int + 1).drop_last() =~= written.take(i as int));
            assert(written.take(i as int + 1).last() == id_char(s@[i as int]));
        }
        let c: char = if is_separating(s[i]) {
            '_'
        } else {
            s[i]
        };
        let n: usize = id.len();
        if !(c == '_' && n > 0 && id[n - 1] == '_') {
            id.push(c);
        }
        i = i + 1;
    }
    proof {
        assert(written.take(i as int) =~= written);
    }
    trim_underscores(&id)
}

/// `s` without the underscores at either end.
fn trim_underscores(s: &Vec<char>) -> (r: Vec<char>)
    ensures
        r@ == no_back_underscores(no_front_underscores(s@)),
{
    let mut i: usize = 0;
    proof {
        assert(s@.skip(0) =~= s@);
    }
    while i < s.len() && s[i] == '_'
        invariant
            i <= s.len(),
            no_front_underscores(s@) == no_front_underscores(s@.skip(i as int)),
        decreases s.len() - i,
    {
        proof {
            assert(s@.skip(i as int).skip(1) =~= s@.skip(i as int + 1));
        }
        i = i + 1;
    }
    let ghost front = s@.skip(i as int);
    let mut r: Vec<char> = copy_chars(slice_subrange(s.as_slice(), i, s.len()));
    proof {
        assert(r@ =~= front);
    }
    while r.len() > 0 && r[r.len() - 1] == '_'
        invariant
            no_back_underscores(r@) == no_back_underscores(front),
        decreases r.len(),
    {
        let ghost before = r@;
        let _ = r.pop();
        proof {
            assert(r@ =~= before.drop_last());
        }
    }
    r
}

/// The name of an endpoint.
fn make_endpoint_name(endpoint: &str) -> (r: Vec<char>)
    ensures
        r@ == endpoint_name(endpoint@),
{
    let cs = chars_of(endpoint);
    let s: &[char] = cs.as_slice();
    let mut i: usize = 0;
    proof {
        assert(s@.skip(0) =~= s@);
        reveal_strlit(".json");
        assert(".json"@.len() == 5);
    }
    while i < s.len() && s[i] == '/'
        invariant
            i <= s.len(),
            crate::fm_update::without_front(s@, '/') == crate::fm_update::without_front(
                s@.skip(i as int),
                '/',
            ),
        decreases s.len() - i,
    {
        proof {
            assert(s@.skip(i as int).skip(1) =~= s@.skip(i as int + 1));
        }
        i = i + 1;
    }
    let ghost bare = s@.skip(i as int);
    let mut n: usize = s.len();
    let ext = chars_of(".json");
    proof {
        assert(bare.take(n - i) =~= bare);
    }
    while n - i >= 5 && stands_at(slice_subrange(s, i, n), ext.as_slice(), n - i - 5)
        invariant
            i <= n <= s.len(),
            bare == s@.skip(i as int),
            ext@ == ".json"@,
            ".json"@.len() == 5,
            without_json(bare) == without_json(bare.take(n - i)),
        decreases n,
    {
        proof {
            let t = bare.take(n - i);
            assert(s@.subrange(i as int, n as int) =~= t);
            assert(t.subrange(n - i - 5, n - i) =~= t.skip(t.len() - 5));
            assert(t.take(t.len() - 5) =~= bare.take(n - i - 5));
        }
        n = n - 5;
    }
    proof {
        let t = bare.take(n - i);
        assert(s@.subrange(i as int, n as int) =~= t);
        if t.len() >= 5 {
            assert(t.subrange(t.len() - 5, t.len() as int) =~= t.skip(t.len() - 5));
        }
        assert(without_json(t) == t);
    }
    let mut r: Vec<char> = Vec::new();
    let mut k: usize = i;
    let ghost kept = bare.take(n - i);
    let ghost slashed = kept.map_values(
        |c: char|
            if c == '/' {
                '_'
            } else {
                c
            },
    );
    while k < n
        invariant
            i <= k <= n <= s.len(),
            bare == s@.skip(i as int),
            kept == bare.take(n - i),
            slashed == kept.map_values(
                |c: char|
                    if c == '/' {
                        '_'
                    } else {
                        c
                    },
            ),
            r@ == slashed.take(k - i),
        decreases n - k,
    {
        let c: char = if s[k] == '/' {
            '_'
        } else {
            s[k]
        };
        proof {
            assert(kept[k - i] == s@[k as int]);
        }
        r.push(c);
        k = k + 1;
        proof {
            assert(r@ =~= slashed.take(k - i));
        }
    }
    proof {
        assert(slashed.take(n - i) =~= slashed);
    }
    r
}

/// The identifier of a key in lower case.
pub fn id_of_lowered(endpoint: &str, low: &str) -> (r: String)
    ensures
        r@ == id_of(endpoint@, low@),
{
    let prefix = make_endpoint_name(endpoint);
    let id = make_plain_id(low);
    if same_chars(prefix.as_slice(), chars_of("mission").as_slice()) || same_chars(
        prefix.as_slice(),
        chars_of("indicators").as_slice(),
    ) {
        let mut out = prefix;
        let ghost start = out@;
        out.push('_');
        push_chars(&mut out, id.as_slice());
        proof {
            assert(out@ =~= start + seq!['_'] + id@);
        }
        text_of(out.as_slice())
    } else {
        text_of(id.as_slice())
    }
}

/// The identifier of a key: `throttle 1, %` becomes `throttle_1_pct`.
pub fn key_to_id(endpoint: &str, key: &str) -> (r: String)
    ensures
        r@ == id_of(endpoint@, lower_text(key@)),
        ascii_only(key@) ==> r@ == id_of(endpoint@, lowered(key@)),
{
    let low = lowercase(key);
    id_of_lowered(endpoint, low.as_str())
}

/// The unit that a key in lower case names.
pub open spec fn unit_in(k: Seq<char>) -> Seq<char> {
    if occurs(k, ", %"@) {
        "%"@
    } else if occurs(k, ", km/h"@) {
        "km/h"@
    } else if occurs(k, ", m/s"@) {
        "m/s"@
    } else if occurs(k, ", m"@) && !occurs(k, "rpm"@) {
        "m"@
    } else if occurs(k, ", kg"@) {
        "kg"@
    } else if occurs(k, ", hp"@) {
        "hp"@
    } else if occurs(k, ", rpm"@) {
        "rpm"@
    } else if occurs(k, ", c"@) {
        "\u{b0}C"@
    } else if occurs(k, ", g"@) {
        "g"@
    } else if occurs(k, ", deg"@) {
        "\u{b0}"@
    } else {
        ""@
    }
}

/// The unit that a key in lower case names.
pub fn unit_of_lowered(low: &str) -> (r: String)
    ensures
        r@ == unit_in(low@),
{
    let cs = chars_of(low);
    let k: &[char] = cs.as_slice();
    if contains(k, ", %") {
        "%".to_string()
    } else if contains(k, ", km/h") {
        "km/h".to_string()
    } else if contains(k, ", m/s") {
        "m/s".to_string()
    } else if contains(k, ", m") && !contains(k, "rpm") {
        "m".to_string()
    } else if contains(k, ", kg") {
        "kg".to_string()
    } else if contains(k, ", hp") {
        "hp".to_string()
    } else if contains(k, ", rpm") {
        "rpm".to_string()
    } else if contains(k, ", c") {
        "\u{b0}C".to_string()
    } else if contains(k, ", g") {
        "g".to_string()
    } else if contains(k, ", deg") {
        "\u{b0}".to_string()
    } else {
        "".to_string()
    }
}

/// The unit that a key names.
pub fn infer_unit(key: &str) -> (r: String)
    ensures
        r@ == unit_in(lower_text(key@)),
        ascii_only(key@) ==> r@ == unit_in(lowered(key@)),
{
    let low = lowercase(key);
    unit_of_lowered(low.as_str())
}

/// `s` up to its first underscore.
pub open spec fn first_word(s: Seq<char>) -> Seq<char>
    decreases s.len(),
{
    if s.len() == 0 || s[0] == '_' {
        seq![]
    } else {
        seq![s[0]] + first_word(s.skip(1))
    }
}

/// `id` up to its first underscore.
pub fn first_word_of(id: &str) -> (r: String)
    ensures
        r@ == first_word(id@),
{
    let cs = chars_of(id);
    let mut r: Vec<char> = Vec::new();
    let mut i: usize = 0;
    proof {
        assert(cs@.skip(0) =~= cs@);
        assert(r@ + first_word(cs@) =~= first_word(cs@));
    }
    while i < cs.len() && cs[i] != '_'
        invariant
            i <= cs.len(),
            r@ + first_word(cs@.skip(i as int)) == first_word(cs@),
        decreases cs.len() - i,
    {
        proof {
            let rest = cs@.skip(i as int);
            assert(rest.skip(1) =~= cs@.skip(i as int + 1));
            let tail = first_word(rest.skip(1));
            assert(r@ + (seq![rest[0]] + tail) =~= r@.push(cs@[i as int]) + tail);
        }
        r.push(cs[i]);
        i = i + 1;
    }
    proof {
        assert(r@ + first_word(cs@.skip(i as int)) =~= r@);
    }
    text_of(r.as_slice())
}

/// The front of `s`, three characters at most.
pub open spec fn shortened(s: Seq<char>) -> Seq<char> {
    if s.len() > 3 {
        s.take(3)
    } else {
        s
    }
}

/// The label of a field whose identifier is `id`: the front of its first word,
/// three characters at most, in capitals.
pub fn default_label(id: &str) -> (r: String)
    ensures
        r@ == upper_text(shortened(first_word(id@))),
        ascii_only(shortened(first_word(id@))) ==> r@ == uppered(shortened(first_word(id@))),
{
    let word = first_word_of(id);
    let cs = chars_of(word.as_str());
    if cs.len() > 3 {
        let front: &[char] = slice_subrange(cs.as_slice(), 0, 3);
        proof {
            assert(front@ =~= first_word(id@).take(3));
        }
        uppercase(text_of(front).as_str())
    } else {
        uppercase(word.as_str())
    }
}

/// Whether `s` holds no two underscores side by side.
pub open spec fn single_underscores(s: Seq<char>) -> bool {
    forall|i: int| 0 <= i < s.len() - 1 ==> !(#[trigger] s[i] == '_' && s[i + 1] == '_')
}

proof fn lemma_collapsed(s: Seq<char>)
    ensures
        single_underscores(collapsed(s)),
    decreases s.len(),
{
    if s.len() > 0 {
        lemma_collapsed(s.drop_last());
    }
}

proof fn lemma_no_front(s: Seq<char>)
    requires
        single_underscores(s),
    ensures
        single_underscores(no_front_underscores(s)),
        no_front_underscores(s).len() > 0 ==> no_front_underscores(s)[0] != '_',
    decreases s.len(),
{
    if s.len() > 0 && s[0] == '_' {
        let t: Seq<char> = s.skip(1);
        assert forall|i: int| 0 <= i < t.len() - 1 implies !(#[trigger] t[i] == '_' && t[i + 1]
            == '_') by {
            assert(t[i] == s[i + 1] && t[i + 1] == s[i + 2]);
        }
        lemma_no_front(t);
    }
}

proof fn lemma_no_back(s: Seq<char>)
    requires
        single_underscores(s),
        s.len() > 0 ==> s[0] != '_',
    ensures
        single_underscores(no_back_underscores(s)),
        no_back_underscores(s).len() > 0 ==> no_back_underscores(s)[0] != '_'
            && no_back_underscores(s).last() != '_',
    decreases s.len(),
{
    if s.len() > 0 && s.last() == '_' {
        let t: Seq<char> = s.drop_last();
        assert forall|i: int| 0 <= i < t.len() - 1 implies !(#[trigger] t[i] == '_' && t[i + 1]
            == '_') by {
            assert(t[i] == s[i] && t[i + 1] == s[i + 1]);
        }
        lemma_no_back(t);
    }
}

/// An identifier neither begins nor ends with an underscore, nor holds two of
/// them side by side.
pub proof fn lemma_ids_are_tidy(low: Seq<char>)
    ensures
        single_underscores(plain_id(low)),
        plain_id(low).len() > 0 ==> plain_id(low)[0] != '_' && plain_id(low).last() != '_',
{
    let written: Seq<char> = units_as_words(low).map_values(|c: char| id_char(c));
    lemma_collapsed(written);
    lemma_no_front(collapsed(written));
    lemma_no_back(no_front_underscores(collapsed(written)));
}

/// The type of a member that is catalogued.
pub open spec fn kind_of_member(m: LeafView) -> Option<Seq<char>> {
    match m {
        LeafView::Number(_) => Some("f64"@),
        LeafView::Truth(_) => Some("bool"@),
        LeafView::Text(_) => Some("string"@),
        LeafView::Other => None,
    }
}

/// The contents of an entry.
pub struct EntryView {
    pub id: Seq<char>,
    pub endpoint: Seq<char>,
    pub api_key: Seq<char>,
    pub label: Seq<char>,
    pub unit: Seq<char>,
    pub field_type: Seq<char>,
}

impl View for FieldEntry {
    type V = EntryView;

    open spec fn view(&self) -> EntryView {
        EntryView {
            id: self.id@,
            endpoint: self.endpoint@,
            api_key: self.api_key@,
            label: self.label@,
            unit: self.unit@,
            field_type: self.field_type@,
        }
    }
}

/// The contents of entries.
pub open spec fn entry_views(v: Seq<FieldEntry>) -> Seq<EntryView> {
    v.map_values(|e: FieldEntry| e@)
}

/// The entry of a key of the given type.
pub open spec fn entry_for(endpoint: Seq<char>, key: Seq<char>, kind: Seq<char>) -> EntryView {
    let id: Seq<char> = id_of(endpoint, lower_text(key));
    EntryView {
        id,
        endpoint,
        api_key: key,
        label: upper_text(shortened(first_word(id))),
        unit: unit_in(lower_text(key)),
        field_type: kind,
    }
}

/// The entries of the members that are numbers, truth values or texts.
pub open spec fn found(endpoint: Seq<char>, members: Seq<(Seq<char>, LeafView)>) -> Seq<EntryView>
    decreases members.len(),
{
    if members.len() == 0 {
        seq![]
    } else {
        let front: Seq<EntryView> = found(endpoint, members.drop_last());
        match kind_of_member(members.last().1) {
            Some(kind) => front.push(entry_for(endpoint, members.last().0, kind)),
            None => front,
        }
    }
}

/// Appends the entries of the members of a document; one that is no object has
/// none.
pub fn collect_fields(endpoint: &str, doc: &JsonDoc, out: &mut Vec<FieldEntry>)
    ensures
        entry_views(final(out)@) == entry_views(old(out)@) + (match doc@ {
            Some(members) => found(endpoint@, members),
            None => seq![],
        }),
{
    let ghost start = entry_views(out@);
    match &doc.members {
        None => {
            proof {
                assert(start + seq![] =~= start);
            }
        },
        Some(members) => {
            let ghost all = member_views(members@);
            let mut i: usize = 0;
            proof {
                assert(all.take(0) =~= seq![]);
                assert(start + found(endpoint@, all.take(0)) =~= start);
            }
            while i < members.len()
                invariant
                    i <= members.len(),
                    all == member_views(members@),
                    entry_views(out@) == start + found(endpoint@, all.take(i as int)),
                decreases members.len() - i,
            {
                proof {
                    assert(all.take(i as int + 1).drop_last() =~= all.take(i as int));
                    assert(all[i as int] == (members@[i as int].0@, members@[i as int].1@));
                }
                let kind: Option<&str> = match &members[i].1 {
                    Leaf::Number(_) => Some("f64"),
                    Leaf::Truth(_) => Some("bool"),
                    Leaf::Text(_) => Some("string"),
                    Leaf::Other => None,
                };
                if let Some(k) = kind {
                    let key: &String = &members[i].0;
                    let id = key_to_id(endpoint, key.as_str());
                    let unit = infer_unit(key.as_str());
                    let label = default_label(id.as_str());
                    let entry = FieldEntry {
                        id,
                        endpoint: endpoint.to_string(),
                        api_key: key.clone(),
                        label,
                        unit,
                        field_type: k.to_string(),
                    };
                    let ghost before = entry_views(out@);
                    out.push(entry);
                    proof {
                        assert(entry_views(out@) =~= before.push(entry@));
                        let front = found(endpoint@, all.take(i as int));
                        assert((start + front).push(entry@) =~= start + front.push(entry@));
                    }
                }
                i = i + 1;
            }
            proof {
                assert(all.take(i as int) =~= all);
            }
        },
    }
}

/// The catalogue in a list: of two entries with one identifier the last counts.
pub open spec fn by_id(v: Seq<FieldEntry>) -> Map<Seq<char>, FieldEntry>
    decreases v.len(),
{
    if v.len() == 0 {
        Map::empty()
    } else {
        by_id(v.drop_last()).insert(v.last().id@, v.last())
    }
}

/// An entry that is known, once it was found again as `e`: its label and its
/// unit stay.
pub open spec fn refreshed(known: FieldEntry, e: FieldEntry) -> FieldEntry {
    FieldEntry {
        id: known.id,
        endpoint: e.endpoint,
        api_key: e.api_key,
        label: known.label,
        unit: known.unit,
        field_type: e.field_type,
    }
}

/// The catalogue `m` with what was found.
pub open spec fn merged(m: Map<Seq<char>, FieldEntry>, v: Seq<FieldEntry>) -> Map<
    Seq<char>,
    FieldEntry,
>
    decreases v.len(),
{
    if v.len() == 0 {
        m
    } else {
        let front: Map<Seq<char>, FieldEntry> = merged(m, v.drop_last());
        let e: FieldEntry = v.last();
        if front.contains_key(e.id@) {
            front.insert(e.id@, refreshed(front[e.id@], e))
        } else {
            front.insert(e.id@, e)
        }
    }
}

/// Whether every entry stands under its own identifier.
pub open spec fn keyed(m: Map<Seq<char>, FieldEntry>) -> bool {
    forall|k: Seq<char>| #[trigger] m.contains_key(k) ==> m[k].id@ == k
}

proof fn lemma_by_id_keyed(v: Seq<FieldEntry>)
    ensures
        keyed(by_id(v)),
    decreases v.len(),
{
    if v.len() > 0 {
        lemma_by_id_keyed(v.drop_last());
    }
}

proof fn lemma_merged_keyed(m: Map<Seq<char>, FieldEntry>, v: Seq<FieldEntry>)
    requires
        keyed(m),
    ensures
        keyed(merged(m, v)),
    decreases v.len(),
{
    if v.len() > 0 {
        lemma_merged_keyed(m, v.drop_last());
    }
}

/// A label and a unit that are known are never changed, and no entry is lost.
pub proof fn lemma_edits_are_kept(
    m: Map<Seq<char>, FieldEntry>,
    v: Seq<FieldEntry>,
    id: Seq<char>,
)
    requires
        m.contains_key(id),
    ensures
        merged(m, v).contains_key(id),
        merged(m, v)[id].label == m[id].label,
        merged(m, v)[id].unit == m[id].unit,
    decreases v.len(),
{
    if v.len() > 0 {
        lemma_edits_are_kept(m, v.drop_last(), id);
    }
}

/// Every entry that was found is in the catalogue.
pub proof fn lemma_found_is_kept(m: Map<Seq<char>, FieldEntry>, v: Seq<FieldEntry>, i: int)
    requires
        0 <= i < v.len(),
    ensures
        merged(m, v).contains_key(v[i].id@),
    decreases v.len(),
{
    if i < v.len() - 1 {
        assert(v.drop_last()[i] == v[i]);
        lemma_found_is_kept(m, v.drop_last(), i);
    }
}

/// Whether `a` comes no later than `b` in the order of characters.
pub open spec fn text_le(a: Seq<char>, b: Seq<char>) -> bool
    decreases a.len(),
{
    if a.len() == 0 {
        true
    } else if b.len() == 0 {
        false
    } else if a[0] != b[0] {
        a[0] < b[0]
    } else {
        text_le(a.skip(1), b.skip(1))
    }
}

/// Whether the text `a` comes no later than `b`.
fn is_text_le(a: &str, b: &str) -> (r: bool)
    ensures
        r == text_le(a@, b@),
{
    let x = chars_of(a);
    let y = chars_of(b);
    let mut i: usize = 0;
    proof {
        assert(x@.skip(0) =~= x@);
        assert(y@.skip(0) =~= y@);
    }
    while i < x.len() && i < y.len() && x[i] == y[i]
        invariant
            i <= x.len(),
            i <= y.len(),
            text_le(x@, y@) == text_le(x@.skip(i as int), y@.skip(i as int)),
        decreases x.len() - i,
    {
        proof {
            assert(x@.skip(i as int).skip(1) =~= x@.skip(i as int + 1));
            assert(y@.skip(i as int).skip(1) =~= y@.skip(i as int + 1));
        }
        i = i + 1;
    }
    if i == x.len() {
        true
    } else if i == y.len() {
        false
    } else {
        x[i] < y[i]
    }
}

/// Texts are in one order.
proof fn lemma_text_order(a: Seq<char>, b: Seq<char>, c: Seq<char>)
    ensures
        text_le(a, a),
        text_le(a, b) || text_le(b, a),
        text_le(a, b) && text_le(b, a) ==> a == b,
        text_le(a, b) && text_le(b, c) ==> text_le(a, c),
    decreases a.len(),
{
    if a.len() > 0 {
        lemma_text_order(a.skip(1), a.skip(1), a.skip(1));
    }
    if a.len() > 0 && b.len() > 0 {
        lemma_text_order(a.skip(1), b.skip(1), seq![]);
        if a[0] == b[0] && a.skip(1) == b.skip(1) {
            assert(a =~= seq![a[0]] + a.skip(1));
            assert(b =~= seq![b[0]] + b.skip(1));
        }
    }
    if a.len() == 0 && b.len() == 0 {
        assert(a =~= b);
    }
    if a.len() > 0 && b.len() > 0 && c.len() > 0 {
        lemma_text_order(a.skip(1), b.skip(1), c.skip(1));
    }
}

/// Whether `a` comes no later than `b` in the catalogue: by endpoint, then by
/// key.
pub open spec fn entry_le(a: FieldEntry, b: FieldEntry) -> bool {
    if a.endpoint@ == b.endpoint@ {
        text_le(a.api_key@, b.api_key@)
    } else {
        text_le(a.endpoint@, b.endpoint@)
    }
}

/// Whether the entries are in the order of the catalogue.
pub open spec fn in_order(v: Seq<FieldEntry>) -> bool {
    forall|i: int, j: int| 0 <= i < j < v.len() ==> entry_le(#[trigger] v[i], #[trigger] v[j])
}

proof fn lemma_entry_order(a: FieldEntry, b: FieldEntry, c: FieldEntry)
    ensures
        entry_le(a, b) || entry_le(b, a),
        entry_le(a, b) && entry_le(b, c) ==> entry_le(a, c),
{
    lemma_text_order(a.endpoint@, b.endpoint@, c.endpoint@);
    lemma_text_order(a.api_key@, b.api_key@, c.api_key@);
    lemma_text_order(b.endpoint@, c.endpoint@, a.endpoint@);
    lemma_text_order(b.endpoint@, a.endpoint@, c.endpoint@);
    lemma_text_order(c.endpoint@, b.endpoint@, a.endpoint@);
}

fn is_entry_le(a: &FieldEntry, b: &FieldEntry) -> (r: bool)
    ensures
        r == entry_le(*a, *b),
{
    if a.endpoint == b.endpoint {
        is_text_le(a.api_key.as_str(), b.api_key.as_str())
    } else {
        is_text_le(a.endpoint.as_str(), b.endpoint.as_str())
    }
}

/// Puts `e` into entries that are in order.
fn insert_in_order(v: &mut Vec<FieldEntry>, e: FieldEntry)
    requires
        in_order(old(v)@),
    ensures
        in_order(final(v)@),
        exists|k: int|
            0 <= k <= old(v)@.len() && final(v)@ == #[trigger] old(v)@.insert(k, e),
{
    let mut i: usize = v.len();
    while i > 0 && !is_entry_le(&v[i - 1], &e)
        invariant
            i <= v.len(),
            forall|j: int| i <= j < v@.len() ==> !entry_le(#[trigger] v@[j], e),
        decreases i,
    {
        i = i - 1;
    }
    let ghost before = v@;
    v.insert(i, e);
    proof {
        assert(v@ == before.insert(i as int, e));
        assert forall|a: int, b: int| 0 <= a < b < v@.len() implies entry_le(
            #[trigger] v@[a],
            #[trigger] v@[b],
        ) by {
            if b == i {
                // everything in front of e comes no later than its neighbour
                lemma_entry_order(before[a], before[i - 1], e);
                if a < i - 1 {
                    assert(entry_le(before[a], before[i - 1]));
                }
            } else if a == i {
                assert(v@[b] == before[b - 1]);
                lemma_entry_order(e, before[b - 1], e);
                assert(!entry_le(before[b - 1], e));
            } else {
                let x: int = if a < i {
                    a
                } else {
                    a - 1
                };
                let y: int = if b < i {
                    b
                } else {
                    b - 1
                };
                assert(entry_le(before[x], before[y]));
            }
        }
    }
}

/// Whether `v` lists the catalogue `m`: every entry once, under its own
/// identifier.
pub open spec fn lists(v: Seq<FieldEntry>, m: Map<Seq<char>, FieldEntry>) -> bool {
    &&& forall|i: int|
        0 <= i < v.len() ==> m.contains_key((#[trigger] v[i]).id@) && m[v[i].id@] == v[i]
    &&& forall|k: Seq<char>|
        #[trigger] m.contains_key(k) ==> exists|i: int| 0 <= i < v.len() && (#[trigger] v[i]).id@
            == k
    &&& forall|i: int, j: int|
        0 <= i < j < v.len() ==> (#[trigger] v[i]).id@ != (#[trigger] v[j]).id@
}

/// The entries of a table, in the order of the catalogue.
fn list_table(t: &Table<FieldEntry>) -> (r: Vec<FieldEntry>)
    requires
        keyed(t@),
    ensures
        in_order(r@),
        lists(r@, t@),
{
    let mut r: Vec<FieldEntry> = Vec::new();
    let mut seen: Table<bool> = Table::new();
    let ghost list = t.list();
    let n: usize = t.count();
    let mut i: usize = 0;
    proof {
        t.lemma_list();
        assert(list.take(0) =~= seq![]);
    }
    while i < n
        invariant
            i <= n,
            n == list.len(),
            list == t.list(),
            t@ == map_of(list),
            keyed(t@),
            in_order(r@),
            lists(r@, map_of(list.take(i as int))),
            forall|k: Seq<char>| #[trigger] seen@.contains_key(k) == map_of(
                list.take(i as int),
            ).contains_key(k),
        decreases n - i,
    {
        let (key, entry) = t.entry(i);
        let ghost front = map_of(list.take(i as int));
        let ghost next = map_of(list.take(i as int + 1));
        proof {
            assert(list.take(i as int + 1).drop_last() =~= list.take(i as int));
        }
        if !seen.contains_key(key.as_str()) {
            proof {
                crate::table::lemma_map_front(list, i as int + 1, key@);
                assert(t@.contains_key(key@));
                assert(entry.id@ == key@);
            }
            let ghost before = r@;
            let copy = entry.clone();
            insert_in_order(&mut r, copy);
            seen.insert(key.clone(), true);
            proof {
                let k: int = choose|k: int|
                    0 <= k <= before.len() && r@ == #[trigger] before.insert(k, copy);
                lemma_listed(before, front, k, copy);
                assert(next =~= front.insert(copy.id@, copy));
            }
        } else {
            proof {
                assert(next =~= front);
            }
        }
        i = i + 1;
    }
    proof {
        assert(list.take(n as int) =~= list);
    }
    r
}

/// A new entry extends the list as it extends the catalogue.
proof fn lemma_listed(v: Seq<FieldEntry>, m: Map<Seq<char>, FieldEntry>, k: int, e: FieldEntry)
    requires
        lists(v, m),
        0 <= k <= v.len(),
        !m.contains_key(e.id@),
    ensures
        lists(v.insert(k, e), m.insert(e.id@, e)),
{
    let w: Seq<FieldEntry> = v.insert(k, e);
    let n: Map<Seq<char>, FieldEntry> = m.insert(e.id@, e);
    assert forall|i: int| 0 <= i < w.len() implies n.contains_key((#[trigger] w[i]).id@)
        && n[w[i].id@] == w[i] by {
        if i < k {
            assert(w[i] == v[i]);
        } else if i > k {
            assert(w[i] == v[i - 1]);
        }
    }
    assert forall|key: Seq<char>| #[trigger] n.contains_key(key) implies exists|i: int|
        0 <= i < w.len() && (#[trigger] w[i]).id@ == key by {
        if key == e.id@ {
            assert(w[k].id@ == key);
        } else {
            assert(m.contains_key(key));
            let i: int = choose|i: int| 0 <= i < v.len() && (#[trigger] v[i]).id@ == key;
            if i < k {
                assert(w[i] == v[i]);
            } else {
                assert(w[i + 1] == v[i]);
            }
        }
    }
    assert forall|i: int, j: int| 0 <= i < j < w.len() implies (#[trigger] w[i]).id@
        != (#[trigger] w[j]).id@ by {
        let x: int = if i < k {
            i
        } else {
            i - 1
        };
        let y: int = if j < k {
            j
        } else {
            j - 1
        };
        if i != k && j != k {
            assert(w[i] == v[x] && w[j] == v[y]);
        } else if i == k {
            assert(w[j] == v[y]);
            assert(m.contains_key(v[y].id@));
        } else {
            assert(w[i] == v[x]);
            assert(m.contains_key(v[x].id@));
        }
    }
}

/// The catalogue after a search: what was known with what was found, every
/// entry once, by endpoint and key. Labels and units that were known stay.
pub fn merge_fields(existing: &Vec<FieldEntry>, scraped: &Vec<FieldEntry>) -> (r: Vec<FieldEntry>)
    ensures
        in_order(r@),
        lists(r@, merged(by_id(existing@), scraped@)),
{
    let mut t: Table<FieldEntry> = Table::new();
    let mut i: usize = 0;
    proof {
        assert(existing@.take(0) =~= seq![]);
    }
    while i < existing.len()
        invariant
            i <= existing.len(),
            t@ == by_id(existing@.take(i as int)),
        decreases existing.len() - i,
    {
        proof {
            assert(existing@.take(i as int + 1).drop_last() =~= existing@.take(i as int));
        }
        t.insert(existing[i].id.clone(), existing[i].clone());
        i = i + 1;
    }
    proof {
        assert(existing@.take(i as int) =~= existing@);
        lemma_by_id_keyed(existing@);
        lemma_merged_keyed(by_id(existing@), scraped@);
        assert(scraped@.take(0) =~= seq![]);
    }
    let ghost known = by_id(existing@);
    let mut k: usize = 0;
    while k < scraped.len()
        invariant
            k <= scraped.len(),
            t@ == merged(known, scraped@.take(k as int)),
        decreases scraped.len() - k,
    {
        proof {
            assert(scraped@.take(k as int + 1).drop_last() =~= scraped@.take(k as int));
        }
        let e: &FieldEntry = &scraped[k];
        let next: FieldEntry = match t.get(e.id.as_str()) {
            Some(old_entry) => FieldEntry {
                id: old_entry.id.clone(),
                endpoint: e.endpoint.clone(),
                api_key: e.api_key.clone(),
                label: old_entry.label.clone(),
                unit: old_entry.unit.clone(),
                field_type: e.field_type.clone(),
            },
            None => e.clone(),
        };
        t.insert(e.id.clone(), next);
        k = k + 1;
    }
    proof {
        assert(scraped@.take(k as int) =~= scraped@);
    }
    list_table(&t)
}

/// A catalogued field is asked for where it was found: its endpoint, its key and
/// its type are those of the member.
pub proof fn lemma_entry_is_the_member(endpoint: Seq<char>, key: Seq<char>, kind: Seq<char>)
    ensures
        entry_for(endpoint, key, kind).endpoint == endpoint,
        entry_for(endpoint, key, kind).api_key == key,
        entry_for(endpoint, key, kind).field_type == kind,
        entry_for(endpoint, key, kind).id == id_of(endpoint, lower_text(key)),
        entry_for(endpoint, key, kind).unit == unit_in(lower_text(key)),
{
}

/// Each member that is a number, a truth value or a text has an entry of its own
/// type, in the order of the members; any other has none.
pub proof fn lemma_members_are_found(
    endpoint: Seq<char>,
    members: Seq<(Seq<char>, LeafView)>,
    m: (Seq<char>, LeafView),
)
    ensures
        found(endpoint, Seq::<(Seq<char>, LeafView)>::empty()).len() == 0,
        m.1 is Number ==> found(endpoint, members.push(m)) == found(endpoint, members).push(
            entry_for(endpoint, m.0, "f64"@),
        ),
        m.1 is Truth ==> found(endpoint, members.push(m)) == found(endpoint, members).push(
            entry_for(endpoint, m.0, "bool"@),
        ),
        m.1 is Text ==> found(endpoint, members.push(m)) == found(endpoint, members).push(
            entry_for(endpoint, m.0, "string"@),
        ),
        m.1 is Other ==> found(endpoint, members.push(m)) == found(endpoint, members),
{
    assert(members.push(m).drop_last() =~= members);
}

/// A field that is found again keeps the label and the unit that it had, and is
/// asked for where it was found last.
pub proof fn lemma_found_again(
    m: Map<Seq<char>, FieldEntry>,
    v: Seq<FieldEntry>,
    e: FieldEntry,
)
    ensures
        merged(m, v.push(e)).contains_key(e.id@),
        merged(m, v.push(e))[e.id@].endpoint == e.endpoint,
        merged(m, v.push(e))[e.id@].api_key == e.api_key,
        merged(m, v.push(e))[e.id@].field_type == e.field_type,
        merged(m, v).contains_key(e.id@) ==> merged(m, v.push(e))[e.id@].label == merged(
            m,
            v,
        )[e.id@].label && merged(m, v.push(e))[e.id@].unit == merged(m, v)[e.id@].unit,
        !merged(m, v).contains_key(e.id@) ==> merged(m, v.push(e))[e.id@] == e,
        forall|k: Seq<char>|
            k != e.id@ && #[trigger] merged(m, v).contains_key(k) ==> merged(m, v.push(e))[k]
                == merged(m, v)[k],
{
    assert(v.push(e).drop_last() =~= v);
}

/// The catalogue is ordered by endpoint, and by key within an endpoint; texts
/// are ordered by their first character that differs.
pub proof fn lemma_catalogue_order(a: FieldEntry, b: FieldEntry, p: Seq<char>, x: char, y: char)
    requires
        x < y,
    ensures
        a.endpoint@ == b.endpoint@ ==> (entry_le(a, b) <==> text_le(a.api_key@, b.api_key@)),
        a.endpoint@ != b.endpoint@ ==> (entry_le(a, b) <==> text_le(a.endpoint@, b.endpoint@)),
        text_le(p, p + seq![x]),
        !text_le(p + seq![x], p),
        forall|s: Seq<char>, t: Seq<char>| #[trigger] text_le(p + seq![x] + s, p + seq![y] + t),
{
    lemma_common_front(p, seq![], seq![x]);
    lemma_common_front(p, seq![x], seq![]);
    assert(p + Seq::<char>::empty() =~= p);
    assert forall|s: Seq<char>, t: Seq<char>| #[trigger]
        text_le(p + seq![x] + s, p + seq![y] + t) by {
        lemma_common_front(p, seq![x] + s, seq![y] + t);
        assert(p + (seq![x] + s) =~= p + seq![x] + s);
        assert(p + (seq![y] + t) =~= p + seq![y] + t);
    }
}

/// A common front does not decide.
proof fn lemma_common_front(p: Seq<char>, s: Seq<char>, t: Seq<char>)
    ensures
        text_le(p + s, p + t) == text_le(s, t),
    decreases p.len(),
{
    if p.len() == 0 {
        assert(p + s =~= s);
        assert(p + t =~= t);
    } else {
        lemma_common_front(p.skip(1), s, t);
        assert((p + s).skip(1) =~= p.skip(1) + s);
        assert((p + t).skip(1) =~= p.skip(1) + t);
    }
}

/// The label of a field begins with the first word of its identifier, and has no
/// more than three characters of it.
pub proof fn lemma_label_is_the_front(id: Seq<char>)
    ensures
        shortened(first_word(id)).len() <= 3,
        shortened(first_word(id)).len() <= id.len(),
        shortened(first_word(id)) == id.take(shortened(first_word(id)).len() as int),
        forall|i: int|
            0 <= i < shortened(first_word(id)).len() ==> #[trigger] id[i] != '_',
        shortened(first_word(id)).len() < 3 && shortened(first_word(id)).len() < id.len()
            ==> id[shortened(first_word(id)).len() as int] == '_',
{
    lemma_first_word(id);
    let w = first_word(id);
    if w.len() > 3 {
        assert(w.take(3) =~= id.take(3));
    }
}

/// The first word is what stands before the first underscore.
proof fn lemma_first_word(id: Seq<char>)
    ensures
        first_word(id).len() <= id.len(),
        first_word(id) == id.take(first_word(id).len() as int),
        forall|i: int| 0 <= i < first_word(id).len() ==> #[trigger] id[i] != '_',
        first_word(id).len() < id.len() ==> id[first_word(id).len() as int] == '_',
    decreases id.len(),
{
    if id.len() > 0 && id[0] != '_' {
        let t = id.skip(1);
        lemma_first_word(t);
        let w = first_word(id);
        assert(w =~= id.take(w.len() as int));
        assert forall|i: int| 0 <= i < w.len() implies #[trigger] id[i] != '_' by {
            if i > 0 {
                assert(t[i - 1] == id[i]);
            }
        }
        if w.len() < id.len() {
            assert(id[w.len() as int] == t[w.len() - 1]);
        }
    } else {
        assert(id.take(0) =~= Seq::<char>::empty());
    }
}

/// Whether `s` holds no comma.
pub open spec fn comma_free(s: Seq<char>) -> bool {
    forall|i: int| 0 <= i < s.len() ==> #[trigger] s[i] != ','
}

/// What begins with a comma is not replaced in front of the first comma.
proof fn lemma_replaced_behind(f: Seq<char>, s: Seq<char>, p: Seq<char>, w: Seq<char>)
    requires
        comma_free(f),
        p.len() > 0,
        p[0] == ',',
    ensures
        replaced(f + s, p, w) == f + replaced(s, p, w),
    decreases f.len(),
{
    if f.len() == 0 {
        assert(f + s =~= s);
        assert(f + replaced(s, p, w) =~= replaced(s, p, w));
    } else {
        let x = f + s;
        assert(x[0] == f[0]);
        if begins(x, p) {
            assert(x.subrange(0, p.len() as int)[0] == x[0]);
        }
        assert forall|i: int| 0 <= i < f.skip(1).len() implies #[trigger] f.skip(1)[i] != ',' by {
            assert(f.skip(1)[i] == f[i + 1]);
        }
        lemma_replaced_behind(f.skip(1), s, p, w);
        assert(x.skip(1) =~= f.skip(1) + s);
        assert(seq![f[0]] + (f.skip(1) + replaced(s, p, w)) =~= f + replaced(s, p, w));
    }
}

/// A text without a comma stays as it is.
proof fn lemma_nothing_replaced(f: Seq<char>, p: Seq<char>, w: Seq<char>)
    requires
        comma_free(f),
        p.len() > 0,
        p[0] == ',',
    ensures
        replaced(f, p, w) == f,
{
    let none: Seq<char> = seq![];
    lemma_replaced_behind(f, none, p, w);
    assert(f + none =~= f);
    assert(replaced(none, p, w) =~= none);
}

/// An ending that begins otherwise than `p` stays as it is.
proof fn lemma_other_ending(f: Seq<char>, s: Seq<char>, p: Seq<char>, w: Seq<char>, i: int)
    requires
        comma_free(f),
        s.len() > 0,
        comma_free(s.skip(1)),
        p[0] == ',',
        0 <= i < p.len(),
        i < s.len() ==> s[i] != p[i],
    ensures
        replaced(f + s, p, w) == f + s,
{
    lemma_replaced_behind(f, s, p, w);
    if begins(s, p) {
        assert(s.subrange(0, p.len() as int)[i] == s[i]);
    }
    lemma_nothing_replaced(s.skip(1), p, w);
    assert(seq![s[0]] + s.skip(1) =~= s);
}

/// The ending `p` becomes `w`.
proof fn lemma_own_ending(f: Seq<char>, p: Seq<char>, w: Seq<char>)
    requires
        comma_free(f),
        p.len() > 0,
        p[0] == ',',
    ensures
        replaced(f + p, p, w) == f + w,
{
    lemma_replaced_behind(f, p, p, w);
    assert(p.subrange(0, p.len() as int) =~= p);
    let none: Seq<char> = seq![];
    assert(p.skip(p.len() as int) =~= none);
    assert(replaced(none, p, w) =~= none);
    assert(w + none =~= w);
}

/// A comma stands behind the front and nowhere else.
proof fn lemma_not_in(f: Seq<char>, s: Seq<char>, p: Seq<char>, i: int)
    requires
        comma_free(f),
        s.len() > 0,
        comma_free(s.skip(1)),
        p[0] == ',',
        0 <= i < p.len(),
        i < s.len() ==> s[i] != p[i],
    ensures
        !occurs(f + s, p),
{
    let x = f + s;
    assert forall|k: int| !occurs_at(x, p, k) by {
        if occurs_at(x, p, k) {
            assert(x.subrange(k, k + p.len())[0] == x[k]);
            if k < f.len() {
                assert(x[k] == f[k]);
            } else if k > f.len() {
                assert(x[k] == s.skip(1)[k - f.len() - 1]);
            } else {
                assert(x.subrange(k, k + p.len())[i] == x[k + i]);
                assert(x[k + i] == s[i]);
            }
        }
    }
}

/// An ending stands in the text that it ends.
proof fn lemma_in_end(f: Seq<char>, p: Seq<char>)
    ensures
        occurs(f + p, p),
{
    assert((f + p).subrange(f.len() as int, (f.len() + p.len()) as int) =~= p);
    assert(occurs_at(f + p, p, f.len() as int));
}

/// A text without a comma and with a word behind it has none.
proof fn lemma_word_behind(f: Seq<char>, w: Seq<char>)
    requires
        comma_free(f),
        comma_free(w),
    ensures
        comma_free(f + w),
{
    assert forall|i: int| 0 <= i < (f + w).len() implies #[trigger] (f + w)[i] != ',' by {
        if i < f.len() {
            assert((f + w)[i] == f[i]);
        } else {
            assert((f + w)[i] == w[i - f.len()]);
        }
    }
}

/// The endings that stand for units hold a comma in front alone.
proof fn lemma_endings()
    ensures
        ", %"@.len() == 3,
        ", %"@[0] == ',',
        ", %"@[1] == ' ',
        ", %"@[2] == '%',
        comma_free(", %"@.skip(1)),
        comma_free("_pct"@),
        ", km/h"@.len() == 6,
        ", km/h"@[0] == ',',
        ", km/h"@[1] == ' ',
        ", km/h"@[2] == 'k',
        ", km/h"@[3] == 'm',
        ", km/h"@[4] == '/',
        ", km/h"@[5] == 'h',
        comma_free(", km/h"@.skip(1)),
        comma_free("_kmh"@),
        ", m/s"@.len() == 5,
        ", m/s"@[0] == ',',
        ", m/s"@[1] == ' ',
        ", m/s"@[2] == 'm',
        ", m/s"@[3] == '/',
        ", m/s"@[4] == 's',
        comma_free(", m/s"@.skip(1)),
        comma_free("_ms"@),
        ", m"@.len() == 3,
        ", m"@[0] == ',',
        ", m"@[1] == ' ',
        ", m"@[2] == 'm',
        comma_free(", m"@.skip(1)),
        comma_free("_m"@),
        ", kg"@.len() == 4,
        ", kg"@[0] == ',',
        ", kg"@[1] == ' ',
        ", kg"@[2] == 'k',
        ", kg"@[3] == 'g',
        comma_free(", kg"@.skip(1)),
        comma_free("_kg"@),
        ", hp"@.len() == 4,
        ", hp"@[0] == ',',
        ", hp"@[1] == ' ',
        ", hp"@[2] == 'h',
        ", hp"@[3] == 'p',
        comma_free(", hp"@.skip(1)),
        comma_free("_hp"@),
        ", rpm"@.len() == 5,
        ", rpm"@[0] == ',',
        ", rpm"@[1] == ' ',
        ", rpm"@[2] == 'r',
        ", rpm"@[3] == 'p',
        ", rpm"@[4] == 'm',
        comma_free(", rpm"@.skip(1)),
        comma_free("_rpm"@),
        ", c"@.len() == 3,
        ", c"@[0] == ',',
        ", c"@[1] == ' ',
        ", c"@[2] == 'c',
        comma_free(", c"@.skip(1)),
        comma_free("_c"@),
        ", g"@.len() == 3,
        ", g"@[0] == ',',
        ", g"@[1] == ' ',
        ", g"@[2] == 'g',
        comma_free(", g"@.skip(1)),
        comma_free("_g"@),
        ", deg"@.len() == 5,
        ", deg"@[0] == ',',
        ", deg"@[1] == ' ',
        ", deg"@[2] == 'd',
        ", deg"@[3] == 'e',
        ", deg"@[4] == 'g',
        comma_free(", deg"@.skip(1)),
        comma_free("_deg"@),
{
    reveal_strlit(", %");
    reveal_strlit("_pct");
    assert forall|i: int| 0 <= i < ", %"@.skip(1).len() implies #[trigger] ", %"@.skip(1)[i] != ',' by {
        assert(", %"@.skip(1)[i] == ", %"@[i + 1]);
    }
    reveal_strlit(", km/h");
    reveal_strlit("_kmh");
    assert forall|i: int| 0 <= i < ", km/h"@.skip(1).len() implies #[trigger] ", km/h"@.skip(1)[i] != ',' by {
        assert(", km/h"@.skip(1)[i] == ", km/h"@[i + 1]);
    }
    reveal_strlit(", m/s");
    reveal_strlit("_ms");
    assert forall|i: int| 0 <= i < ", m/s"@.skip(1).len() implies #[trigger] ", m/s"@.skip(1)[i] != ',' by {
        assert(", m/s"@.skip(1)[i] == ", m/s"@[i + 1]);
    }
    reveal_strlit(", m");
    reveal_strlit("_m");
    assert forall|i: int| 0 <= i < ", m"@.skip(1).len() implies #[trigger] ", m"@.skip(1)[i] != ',' by {
        assert(", m"@.skip(1)[i] == ", m"@[i + 1]);
    }
    reveal_strlit(", kg");
    reveal_strlit("_kg");
    assert forall|i: int| 0 <= i < ", kg"@.skip(1).len() implies #[trigger] ", kg"@.skip(1)[i] != ',' by {
        assert(", kg"@.skip(1)[i] == ", kg"@[i + 1]);
    }
    reveal_strlit(", hp");
    reveal_strlit("_hp");
    assert forall|i: int| 0 <= i < ", hp"@.skip(1).len() implies #[trigger] ", hp"@.skip(1)[i] != ',' by {
        assert(", hp"@.skip(1)[i] == ", hp"@[i + 1]);
    }
    reveal_strlit(", rpm");
    reveal_strlit("_rpm");
    assert forall|i: int| 0 <= i < ", rpm"@.skip(1).len() implies #[trigger] ", rpm"@.skip(1)[i] != ',' by {
        assert(", rpm"@.skip(1)[i] == ", rpm"@[i + 1]);
    }
    reveal_strlit(", c");
    reveal_strlit("_c");
    assert forall|i: int| 0 <= i < ", c"@.skip(1).len() implies #[trigger] ", c"@.skip(1)[i] != ',' by {
        assert(", c"@.skip(1)[i] == ", c"@[i + 1]);
    }
    reveal_strlit(", g");
    reveal_strlit("_g");
    assert forall|i: int| 0 <= i < ", g"@.skip(1).len() implies #[trigger] ", g"@.skip(1)[i] != ',' by {
        assert(", g"@.skip(1)[i] == ", g"@[i + 1]);
    }
    reveal_strlit(", deg");
    reveal_strlit("_deg");
    assert forall|i: int| 0 <= i < ", deg"@.skip(1).len() implies #[trigger] ", deg"@.skip(1)[i] != ',' by {
        assert(", deg"@.skip(1)[i] == ", deg"@[i + 1]);
    }
}

/// The ending ", %" names its unit and is written as a word.
proof fn lemma_ending_pct(f: Seq<char>)
    requires
        comma_free(f),
    ensures
        units_as_words(f + ", %"@) == f + "_pct"@,
        unit_in(f + ", %"@) == "%"@,
{
    lemma_endings();
    lemma_word_behind(f, "_pct"@);
    let x = f + ", %"@;
    let y = f + "_pct"@;
    lemma_own_ending(f, ", %"@, "_pct"@);
    lemma_in_end(f, ", %"@);
    lemma_nothing_replaced(y, ", km/h"@, "_kmh"@);
    lemma_nothing_replaced(y, ", m/s"@, "_ms"@);
    lemma_nothing_replaced(y, ", m"@, "_m"@);
    lemma_nothing_replaced(y, ", kg"@, "_kg"@);
    lemma_nothing_replaced(y, ", hp"@, "_hp"@);
    lemma_nothing_replaced(y, ", rpm"@, "_rpm"@);
    lemma_nothing_replaced(y, ", c"@, "_c"@);
    lemma_nothing_replaced(y, ", g"@, "_g"@);
    lemma_nothing_replaced(y, ", deg"@, "_deg"@);
}

/// The ending ", km/h" names its unit and is written as a word.
proof fn lemma_ending_kmh(f: Seq<char>)
    requires
        comma_free(f),
    ensures
        units_as_words(f + ", km/h"@) == f + "_kmh"@,
        unit_in(f + ", km/h"@) == "km/h"@,
{
    lemma_endings();
    lemma_word_behind(f, "_kmh"@);
    let x = f + ", km/h"@;
    let y = f + "_kmh"@;
    lemma_other_ending(f, ", km/h"@, ", %"@, "_pct"@, 2);
    lemma_not_in(f, ", km/h"@, ", %"@, 2);
    lemma_own_ending(f, ", km/h"@, "_kmh"@);
    lemma_in_end(f, ", km/h"@);
    lemma_nothing_replaced(y, ", m/s"@, "_ms"@);
    lemma_nothing_replaced(y, ", m"@, "_m"@);
    lemma_nothing_replaced(y, ", kg"@, "_kg"@);
    lemma_nothing_replaced(y, ", hp"@, "_hp"@);
    lemma_nothing_replaced(y, ", rpm"@, "_rpm"@);
    lemma_nothing_replaced(y, ", c"@, "_c"@);
    lemma_nothing_replaced(y, ", g"@, "_g"@);
    lemma_nothing_replaced(y, ", deg"@, "_deg"@);
}

/// The ending ", m/s" names its unit and is written as a word.
proof fn lemma_ending_ms(f: Seq<char>)
    requires
        comma_free(f),
    ensures
        units_as_words(f + ", m/s"@) == f + "_ms"@,
        unit_in(f + ", m/s"@) == "m/s"@,
{
    lemma_endings();
    lemma_word_behind(f, "_ms"@);
    let x = f + ", m/s"@;
    let y = f + "_ms"@;
    lemma_other_ending(f, ", m/s"@, ", %"@, "_pct"@, 2);
    lemma_not_in(f, ", m/s"@, ", %"@, 2);
    lemma_other_ending(f, ", m/s"@, ", km/h"@, "_kmh"@, 2);
    lemma_not_in(f, ", m/s"@, ", km/h"@, 2);
    lemma_own_ending(f, ", m/s"@, "_ms"@);
    lemma_in_end(f, ", m/s"@);
    lemma_nothing_replaced(y, ", m"@, "_m"@);
    lemma_nothing_replaced(y, ", kg"@, "_kg"@);
    lemma_nothing_replaced(y, ", hp"@, "_hp"@);
    lemma_nothing_replaced(y, ", rpm"@, "_rpm"@);
    lemma_nothing_replaced(y, ", c"@, "_c"@);
    lemma_nothing_replaced(y, ", g"@, "_g"@);
    lemma_nothing_replaced(y, ", deg"@, "_deg"@);
}

/// The ending ", m" names its unit and is written as a word.
proof fn lemma_ending_m(f: Seq<char>)
    requires
        comma_free(f),
    ensures
        units_as_words(f + ", m"@) == f + "_m"@,
        !occurs(f + ", m"@, "rpm"@) ==> unit_in(f + ", m"@) == "m"@,
{
    lemma_endings();
    lemma_word_behind(f, "_m"@);
    let x = f + ", m"@;
    let y = f + "_m"@;
    lemma_other_ending(f, ", m"@, ", %"@, "_pct"@, 2);
    lemma_not_in(f, ", m"@, ", %"@, 2);
    lemma_other_ending(f, ", m"@, ", km/h"@, "_kmh"@, 2);
    lemma_not_in(f, ", m"@, ", km/h"@, 2);
    lemma_other_ending(f, ", m"@, ", m/s"@, "_ms"@, 3);
    lemma_not_in(f, ", m"@, ", m/s"@, 3);
    lemma_own_ending(f, ", m"@, "_m"@);
    lemma_in_end(f, ", m"@);
    lemma_nothing_replaced(y, ", kg"@, "_kg"@);
    lemma_nothing_replaced(y, ", hp"@, "_hp"@);
    lemma_nothing_replaced(y, ", rpm"@, "_rpm"@);
    lemma_nothing_replaced(y, ", c"@, "_c"@);
    lemma_nothing_replaced(y, ", g"@, "_g"@);
    lemma_nothing_replaced(y, ", deg"@, "_deg"@);
}

/// The ending ", kg" names its unit and is written as a word.
proof fn lemma_ending_kg(f: Seq<char>)
    requires
        comma_free(f),
    ensures
        units_as_words(f + ", kg"@) == f + "_kg"@,
        unit_in(f + ", kg"@) == "kg"@,
{
    lemma_endings();
    lemma_word_behind(f, "_kg"@);
    let x = f + ", kg"@;
    let y = f + "_kg"@;
    lemma_other_ending(f, ", kg"@, ", %"@, "_pct"@, 2);
    lemma_not_in(f, ", kg"@, ", %"@, 2);
    lemma_other_ending(f, ", kg"@, ", km/h"@, "_kmh"@, 3);
    lemma_not_in(f, ", kg"@, ", km/h"@, 3);
    lemma_other_ending(f, ", kg"@, ", m/s"@, "_ms"@, 2);
    lemma_not_in(f, ", kg"@, ", m/s"@, 2);
    lemma_other_ending(f, ", kg"@, ", m"@, "_m"@, 2);
    lemma_not_in(f, ", kg"@, ", m"@, 2);
    lemma_own_ending(f, ", kg"@, "_kg"@);
    lemma_in_end(f, ", kg"@);
    lemma_nothing_replaced(y, ", hp"@, "_hp"@);
    lemma_nothing_replaced(y, ", rpm"@, "_rpm"@);
    lemma_nothing_replaced(y, ", c"@, "_c"@);
    lemma_nothing_replaced(y, ", g"@, "_g"@);
    lemma_nothing_replaced(y, ", deg"@, "_deg"@);
}

/// The ending ", hp" names its unit and is written as a word.
proof fn lemma_ending_hp(f: Seq<char>)
    requires
        comma_free(f),
    ensures
        units_as_words(f + ", hp"@) == f + "_hp"@,
        unit_in(f + ", hp"@) == "hp"@,
{
    lemma_endings();
    lemma_word_behind(f, "_hp"@);
    let x = f + ", hp"@;
    let y = f + "_hp"@;
    lemma_other_ending(f, ", hp"@, ", %"@, "_pct"@, 2);
    lemma_not_in(f, ", hp"@, ", %"@, 2);
    lemma_other_ending(f, ", hp"@, ", km/h"@, "_kmh"@, 2);
    lemma_not_in(f, ", hp"@, ", km/h"@, 2);
    lemma_other_ending(f, ", hp"@, ", m/s"@, "_ms"@, 2);
    lemma_not_in(f, ", hp"@, ", m/s"@, 2);
    lemma_other_ending(f, ", hp"@, ", m"@, "_m"@, 2);
    lemma_not_in(f, ", hp"@, ", m"@, 2);
    lemma_other_ending(f, ", hp"@, ", kg"@, "_kg"@, 2);
    lemma_not_in(f, ", hp"@, ", kg"@, 2);
    lemma_own_ending(f, ", hp"@, "_hp"@);
    lemma_in_end(f, ", hp"@);
    lemma_nothing_replaced(y, ", rpm"@, "_rpm"@);
    lemma_nothing_replaced(y, ", c"@, "_c"@);
    lemma_nothing_replaced(y, ", g"@, "_g"@);
    lemma_nothing_replaced(y, ", deg"@, "_deg"@);
}

/// The ending ", rpm" names its unit and is written as a word.
proof fn lemma_ending_rpm(f: Seq<char>)
    requires
        comma_free(f),
    ensures
        units_as_words(f + ", rpm"@) == f + "_rpm"@,
        unit_in(f + ", rpm"@) == "rpm"@,
{
    lemma_endings();
    lemma_word_behind(f, "_rpm"@);
    let x = f + ", rpm"@;
    let y = f + "_rpm"@;
    lemma_other_ending(f, ", rpm"@, ", %"@, "_pct"@, 2);
    lemma_not_in(f, ", rpm"@, ", %"@, 2);
    lemma_other_ending(f, ", rpm"@, ", km/h"@, "_kmh"@, 2);
    lemma_not_in(f, ", rpm"@, ", km/h"@, 2);
    lemma_other_ending(f, ", rpm"@, ", m/s"@, "_ms"@, 2);
    lemma_not_in(f, ", rpm"@, ", m/s"@, 2);
    lemma_other_ending(f, ", rpm"@, ", m"@, "_m"@, 2);
    lemma_not_in(f, ", rpm"@, ", m"@, 2);
    lemma_other_ending(f, ", rpm"@, ", kg"@, "_kg"@, 2);
    lemma_not_in(f, ", rpm"@, ", kg"@, 2);
    lemma_other_ending(f, ", rpm"@, ", hp"@, "_hp"@, 2);
    lemma_not_in(f, ", rpm"@, ", hp"@, 2);
    lemma_own_ending(f, ", rpm"@, "_rpm"@);
    lemma_in_end(f, ", rpm"@);
    lemma_nothing_replaced(y, ", c"@, "_c"@);
    lemma_nothing_replaced(y, ", g"@, "_g"@);
    lemma_nothing_replaced(y, ", deg"@, "_deg"@);
}

/// The ending ", c" names its unit and is written as a word.
proof fn lemma_ending_c(f: Seq<char>)
    requires
        comma_free(f),
    ensures
        units_as_words(f + ", c"@) == f + "_c"@,
        unit_in(f + ", c"@) == "\u{b0}C"@,
{
    lemma_endings();
    lemma_word_behind(f, "_c"@);
    let x = f + ", c"@;
    let y = f + "_c"@;
    lemma_other_ending(f, ", c"@, ", %"@, "_pct"@, 2);
    lemma_not_in(f, ", c"@, ", %"@, 2);
    lemma_other_ending(f, ", c"@, ", km/h"@, "_kmh"@, 2);
    lemma_not_in(f, ", c"@, ", km/h"@, 2);
    lemma_other_ending(f, ", c"@, ", m/s"@, "_ms"@, 2);
    lemma_not_in(f, ", c"@, ", m/s"@, 2);
    lemma_other_ending(f, ", c"@, ", m"@, "_m"@, 2);
    lemma_not_in(f, ", c"@, ", m"@, 2);
    lemma_other_ending(f, ", c"@, ", kg"@, "_kg"@, 2);
    lemma_not_in(f, ", c"@, ", kg"@, 2);
    lemma_other_ending(f, ", c"@, ", hp"@, "_hp"@, 2);
    lemma_not_in(f, ", c"@, ", hp"@, 2);
    lemma_other_ending(f, ", c"@, ", rpm"@, "_rpm"@, 2);
    lemma_not_in(f, ", c"@, ", rpm"@, 2);
    lemma_own_ending(f, ", c"@, "_c"@);
    lemma_in_end(f, ", c"@);
    lemma_nothing_replaced(y, ", g"@, "_g"@);
    lemma_nothing_replaced(y, ", deg"@, "_deg"@);
}

/// The ending ", g" names its unit and is written as a word.
proof fn lemma_ending_g(f: Seq<char>)
    requires
        comma_free(f),
    ensures
        units_as_words(f + ", g"@) == f + "_g"@,
        unit_in(f + ", g"@) == "g"@,
{
    lemma_endings();
    lemma_word_behind(f, "_g"@);
    let x = f + ", g"@;
    let y = f + "_g"@;
    lemma_other_ending(f, ", g"@, ", %"@, "_pct"@, 2);
    lemma_not_in(f, ", g"@, ", %"@, 2);
    lemma_other_ending(f, ", g"@, ", km/h"@, "_kmh"@, 2);
    lemma_not_in(f, ", g"@, ", km/h"@, 2);
    lemma_other_ending(f, ", g"@, ", m/s"@, "_ms"@, 2);
    lemma_not_in(f, ", g"@, ", m/s"@, 2);
    lemma_other_ending(f, ", g"@, ", m"@, "_m"@, 2);
    lemma_not_in(f, ", g"@, ", m"@, 2);
    lemma_other_ending(f, ", g"@, ", kg"@, "_kg"@, 2);
    lemma_not_in(f, ", g"@, ", kg"@, 2);
    lemma_other_ending(f, ", g"@, ", hp"@, "_hp"@, 2);
    lemma_not_in(f, ", g"@, ", hp"@, 2);
    lemma_other_ending(f, ", g"@, ", rpm"@, "_rpm"@, 2);
    lemma_not_in(f, ", g"@, ", rpm"@, 2);
    lemma_other_ending(f, ", g"@, ", c"@, "_c"@, 2);
    lemma_not_in(f, ", g"@, ", c"@, 2);
    lemma_own_ending(f, ", g"@, "_g"@);
    lemma_in_end(f, ", g"@);
    lemma_nothing_replaced(y, ", deg"@, "_deg"@);
}

/// The ending ", deg" names its unit and is written as a word.
proof fn lemma_ending_deg(f: Seq<char>)
    requires
        comma_free(f),
    ensures
        units_as_words(f + ", deg"@) == f + "_deg"@,
        unit_in(f + ", deg"@) == "\u{b0}"@,
{
    lemma_endings();
    lemma_word_behind(f, "_deg"@);
    let x = f + ", deg"@;
    let y = f + "_deg"@;
    lemma_other_ending(f, ", deg"@, ", %"@, "_pct"@, 2);
    lemma_not_in(f, ", deg"@, ", %"@, 2);
    lemma_other_ending(f, ", deg"@, ", km/h"@, "_kmh"@, 2);
    lemma_not_in(f, ", deg"@, ", km/h"@, 2);
    lemma_other_ending(f, ", deg"@, ", m/s"@, "_ms"@, 2);
    lemma_not_in(f, ", deg"@, ", m/s"@, 2);
    lemma_other_ending(f, ", deg"@, ", m"@, "_m"@, 2);
    lemma_not_in(f, ", deg"@, ", m"@, 2);
    lemma_other_ending(f, ", deg"@, ", kg"@, "_kg"@, 2);
    lemma_not_in(f, ", deg"@, ", kg"@, 2);
    lemma_other_ending(f, ", deg"@, ", hp"@, "_hp"@, 2);
    lemma_not_in(f, ", deg"@, ", hp"@, 2);
    lemma_other_ending(f, ", deg"@, ", rpm"@, "_rpm"@, 2);
    lemma_not_in(f, ", deg"@, ", rpm"@, 2);
    lemma_other_ending(f, ", deg"@, ", c"@, "_c"@, 2);
    lemma_not_in(f, ", deg"@, ", c"@, 2);
    lemma_other_ending(f, ", deg"@, ", g"@, "_g"@, 2);
    lemma_not_in(f, ", deg"@, ", g"@, 2);
    lemma_own_ending(f, ", deg"@, "_deg"@);
    lemma_in_end(f, ", deg"@);
}

/// A name followed by a comma and a unit has that unit, and in an identifier the
/// unit is written behind an underscore; a name without a comma has no unit and
/// stays as it is.
pub proof fn lemma_units_of_keys(f: Seq<char>)
    requires
        comma_free(f),
    ensures
        units_as_words(f) == f,
        unit_in(f).len() == 0,
        units_as_words(f + ", %"@) == f + "_pct"@,
        unit_in(f + ", %"@) == "%"@,
        units_as_words(f + ", km/h"@) == f + "_kmh"@,
        unit_in(f + ", km/h"@) == "km/h"@,
        units_as_words(f + ", m/s"@) == f + "_ms"@,
        unit_in(f + ", m/s"@) == "m/s"@,
        units_as_words(f + ", m"@) == f + "_m"@,
        !occurs(f + ", m"@, "rpm"@) ==> unit_in(f + ", m"@) == "m"@,
        units_as_words(f + ", kg"@) == f + "_kg"@,
        unit_in(f + ", kg"@) == "kg"@,
        units_as_words(f + ", hp"@) == f + "_hp"@,
        unit_in(f + ", hp"@) == "hp"@,
        units_as_words(f + ", rpm"@) == f + "_rpm"@,
        unit_in(f + ", rpm"@) == "rpm"@,
        units_as_words(f + ", c"@) == f + "_c"@,
        unit_in(f + ", c"@) == "\u{b0}C"@,
        units_as_words(f + ", g"@) == f + "_g"@,
        unit_in(f + ", g"@) == "g"@,
        units_as_words(f + ", deg"@) == f + "_deg"@,
        unit_in(f + ", deg"@) == "\u{b0}"@,
{
    lemma_endings();
    reveal_strlit("");
    lemma_ending_pct(f);
    lemma_nothing_replaced(f, ", %"@, "_pct"@);
    lemma_no_comma(f, ", %"@);
    lemma_ending_kmh(f);
    lemma_nothing_replaced(f, ", km/h"@, "_kmh"@);
    lemma_no_comma(f, ", km/h"@);
    lemma_ending_ms(f);
    lemma_nothing_replaced(f, ", m/s"@, "_ms"@);
    lemma_no_comma(f, ", m/s"@);
    lemma_ending_m(f);
    lemma_nothing_replaced(f, ", m"@, "_m"@);
    lemma_no_comma(f, ", m"@);
    lemma_ending_kg(f);
    lemma_nothing_replaced(f, ", kg"@, "_kg"@);
    lemma_no_comma(f, ", kg"@);
    lemma_ending_hp(f);
    lemma_nothing_replaced(f, ", hp"@, "_hp"@);
    lemma_no_comma(f, ", hp"@);
    lemma_ending_rpm(f);
    lemma_nothing_replaced(f, ", rpm"@, "_rpm"@);
    lemma_no_comma(f, ", rpm"@);
    lemma_ending_c(f);
    lemma_nothing_replaced(f, ", c"@, "_c"@);
    lemma_no_comma(f, ", c"@);
    lemma_ending_g(f);
    lemma_nothing_replaced(f, ", g"@, "_g"@);
    lemma_no_comma(f, ", g"@);
    lemma_ending_deg(f);
    lemma_nothing_replaced(f, ", deg"@, "_deg"@);
    lemma_no_comma(f, ", deg"@);
}

/// Nothing that begins with a comma stands in a text without one.
proof fn lemma_no_comma(f: Seq<char>, p: Seq<char>)
    requires
        comma_free(f),
        p.len() > 0,
        p[0] == ',',
    ensures
        !occurs(f, p),
{
    assert forall|k: int| !occurs_at(f, p, k) by {
        if occurs_at(f, p, k) {
            assert(f.subrange(k, k + p.len())[0] == f[k]);
        }
    }
}

/// Runs of underscores are all that an identifier loses inside, and those at its
/// ends: where there are none, it is the key with its units as words, and with an
/// underscore for each separating character.
pub proof fn lemma_tidy_key(low: Seq<char>)
    requires
        ({
            let w: Seq<char> = units_as_words(low).map_values(|c: char| id_char(c));
            &&& single_underscores(w)
            &&& w.len() > 0 ==> w[0] != '_' && w.last() != '_'
        }),
    ensures
        plain_id(low).len() == units_as_words(low).len(),
        forall|i: int|
            0 <= i < plain_id(low).len() ==> #[trigger] plain_id(low)[i] == {
                let c: char = units_as_words(low)[i];
                if " ,/\\-()."@.contains(c) {
                    '_'
                } else {
                    c
                }
            },
{
    let w: Seq<char> = units_as_words(low).map_values(|c: char| id_char(c));
    lemma_collapsed_already(w);
    assert(plain_id(low) =~= w);
    reveal_strlit(" ,/\\-().");
    let t = " ,/\\-()."@;
    assert(t =~= seq![' ', ',', '/', '\\', '-', '(', ')', '.']);
    assert forall|c: char| #[trigger] separates(c) == t.contains(c) by {
        if separates(c) {
            assert(t[0] == ' ' && t[1] == ',' && t[2] == '/' && t[3] == '\\' && t[4] == '-' && t[5]
                == '(' && t[6] == ')' && t[7] == '.');
        }
    }
    assert forall|i: int| 0 <= i < plain_id(low).len() implies #[trigger] plain_id(low)[i] == {
        let c: char = units_as_words(low)[i];
        if t.contains(c) {
            '_'
        } else {
            c
        }
    } by {
        assert(separates(units_as_words(low)[i]) == t.contains(units_as_words(low)[i]));
    }
}

/// A text with single underscores alone has no run of them.
proof fn lemma_collapsed_already(s: Seq<char>)
    requires
        single_underscores(s),
    ensures
        collapsed(s) == s,
    decreases s.len(),
{
    if s.len() > 0 {
        lemma_collapsed_already(s.drop_last());
        assert(s.drop_last().push(s.last()) =~= s);
    }
}

/// The letters of a label are the capitals of the letters that they stand for.
pub proof fn lemma_capitals(s: Seq<char>, i: int)
    requires
        0 <= i < s.len(),
    ensures
        uppered(s).len() == s.len(),
        'a' <= s[i] <= 'z' ==> 'A' <= uppered(s)[i] <= 'Z' && uppered(s)[i] as int - 'A' as int
            == s[i] as int - 'a' as int,
        !('a' <= s[i] <= 'z') ==> uppered(s)[i] == s[i],
{
}

} // verus!
