//! Text as sequences of characters: trimming, splitting, searching and the
//! decimal and hexadecimal integers written in it.
use vstd::prelude::*;
use vstd::slice::slice_subrange;

verus! {

/// `String::push` appends one character.
pub assume_specification[ String::push ](s: &mut String, c: char)
    ensures
        final(s)@ == old(s)@.push(c),
;

/// The characters of `s`.
pub fn chars_of(s: &str) -> (r: Vec<char>)
    ensures
        r@ == s@,
{
    let mut r: Vec<char> = Vec::new();
    for c in it: s.chars()
        invariant
            r@ == it.seq().take(it.index() as int),
            it.seq() == s@,
    {
        r.push(c);
        proof {
            assert(r@ =~= it.seq().take(it.index() as int + 1));
        }
    }
    proof {
        assert(r@ =~= s@);
    }
    r
}

/// The text made of `cs`.
pub fn text_of(cs: &[char]) -> (r: String)
    ensures
        r@ == cs@,
{
    let mut r: String = String::new();
    let mut i: usize = 0;
    while i < cs.len()
        invariant
            i <= cs.len(),
            r@ == cs@.take(i as int),
        decreases cs.len() - i,
    {
        r.push(cs[i]);
        i = i + 1;
        proof {
            assert(r@ =~= cs@.take(i as int));
        }
    }
    proof {
        assert(cs@.take(i as int) =~= cs@);
    }
    r
}

/// A copy of `cs`.
pub fn copy_chars(cs: &[char]) -> (r: Vec<char>)
    ensures
        r@ == cs@,
{
    let mut r: Vec<char> = Vec::new();
    push_chars(&mut r, cs);
    proof {
        assert(r@ =~= cs@);
    }
    r
}

/// Appends `cs` to `out`.
pub fn push_chars(out: &mut Vec<char>, cs: &[char])
    ensures
        final(out)@ == old(out)@ + cs@,
{
    let mut i: usize = 0;
    let ghost start = out@;
    while i < cs.len()
        invariant
            i <= cs.len(),
            out@ == start + cs@.take(i as int),
        decreases cs.len() - i,
    {
        out.push(cs[i]);
        i = i + 1;
        proof {
            assert(out@ =~= start + cs@.take(i as int));
        }
    }
    proof {
        assert(cs@.take(i as int) =~= cs@);
    }
}

/// Appends the characters of `s` to `out`.
pub fn push_text(out: &mut Vec<char>, s: &str)
    ensures
        final(out)@ == old(out)@ + s@,
{
    let cs = chars_of(s);
    push_chars(out, cs.as_slice());
}

/// A copy of `s`.
pub fn copy_text(s: &str) -> (r: String)
    ensures
        r@ == s@,
{
    s.to_string()
}

/// Whether two texts are equal.
pub fn same_text(a: &str, b: &str) -> (r: bool)
    ensures
        r == (a@ == b@),
{
    same_chars(chars_of(a).as_slice(), chars_of(b).as_slice())
}

/// Whether two runs of characters are equal.
pub fn same_chars(a: &[char], b: &[char]) -> (r: bool)
    ensures
        r == (a@ == b@),
{
    if a.len() != b.len() {
        return false;
    }
    let mut i: usize = 0;
    while i < a.len()
        invariant
            i <= a.len(),
            a.len() == b.len(),
            forall|j: int| 0 <= j < i ==> a@[j] == b@[j],
        decreases a.len() - i,
    {
        if a[i] != b[i] {
            return false;
        }
        i = i + 1;
    }
    proof {
        assert(a@ =~= b@);
    }
    true
}

/// Whether `p` stands in `s` at position `i`.
pub open spec fn occurs_at(s: Seq<char>, p: Seq<char>, i: int) -> bool {
    0 <= i && i + p.len() <= s.len() && s.subrange(i, i + p.len()) == p
}

/// Whether `p` stands anywhere in `s`.
pub open spec fn occurs(s: Seq<char>, p: Seq<char>) -> bool {
    exists|i: int| occurs_at(s, p, i)
}

/// Whether `s` begins with `p`.
pub open spec fn begins(s: Seq<char>, p: Seq<char>) -> bool {
    occurs_at(s, p, 0)
}

/// Whether `s` ends with `p`.
pub open spec fn ends(s: Seq<char>, p: Seq<char>) -> bool {
    occurs_at(s, p, s.len() - p.len())
}

/// Whether `p` stands in `s` at `i`.
pub fn stands_at(s: &[char], p: &[char], i: usize) -> (r: bool)
    ensures
        r == occurs_at(s@, p@, i as int),
{
    if p.len() > s.len() || i > s.len() - p.len() {
        return false;
    }
    let mut j: usize = 0;
    while j < p.len()
        invariant
            j <= p.len(),
            i + p.len() <= s.len(),
            forall|k: int| 0 <= k < j ==> s@[i + k] == p@[k],
        decreases p.len() - j,
    {
        if s[i + j] != p[j] {
            proof {
                assert(s@.subrange(i as int, i + p@.len())[j as int] != p@[j as int]);
            }
            return false;
        }
        j = j + 1;
    }
    proof {
        assert(s@.subrange(i as int, i + p@.len()) =~= p@);
    }
    true
}

/// Whether `s` begins with `p`.
pub fn starts_with(s: &[char], p: &str) -> (r: bool)
    ensures
        r == begins(s@, p@),
{
    stands_at(s, chars_of(p).as_slice(), 0)
}

/// Whether `s` ends with `p`.
pub fn ends_with(s: &[char], p: &str) -> (r: bool)
    ensures
        r == ends(s@, p@),
{
    let cs = chars_of(p);
    if cs.len() > s.len() {
        return false;
    }
    stands_at(s, cs.as_slice(), s.len() - cs.len())
}

/// The first place from `from` on at which `p` stands in `s`.
pub fn find_from(s: &[char], p: &[char], from: usize) -> (r: Option<usize>)
    ensures
        match r {
            Some(i) => from <= i && occurs_at(s@, p@, i as int) && forall|j: int|
                from <= j < i ==> !occurs_at(s@, p@, j),
            None => forall|j: int| from <= j ==> !occurs_at(s@, p@, j),
        },
{
    if p.len() > s.len() {
        return None;
    }
    let last: usize = s.len() - p.len();
    let mut i: usize = from;
    while i <= last
        invariant
            from <= i,
            i <= last + 1 || i == from,
            last == s.len() - p.len(),
            s.len() <= usize::MAX,
            forall|j: int| from <= j < i ==> !occurs_at(s@, p@, j),
        decreases last + 1 - i,
    {
        if stands_at(s, p, i) {
            return Some(i);
        }
        if i == usize::MAX {
            return None;
        }
        i = i + 1;
    }
    None
}

/// Whether `p` stands anywhere in `s`.
pub fn contains(s: &[char], p: &str) -> (r: bool)
    ensures
        r == occurs(s@, p@),
{
    match find_from(s, chars_of(p).as_slice(), 0) {
        Some(_) => true,
        None => false,
    }
}

/// The characters that count as white space.
pub open spec fn white(c: char) -> bool {
    ||| '\u{9}' <= c <= '\u{d}'
    ||| c == ' '
    ||| c == '\u{85}'
    ||| c == '\u{a0}'
    ||| c == '\u{1680}'
    ||| '\u{2000}' <= c <= '\u{200a}'
    ||| c == '\u{2028}'
    ||| c == '\u{2029}'
    ||| c == '\u{202f}'
    ||| c == '\u{205f}'
    ||| c == '\u{3000}'
}

/// Whether `c` is white space.
pub fn is_white(c: char) -> (r: bool)
    ensures
        r == white(c),
{
    ('\u{9}' <= c && c <= '\u{d}') || c == ' ' || c == '\u{85}' || c == '\u{a0}' || c == '\u{1680}'
        || ('\u{2000}' <= c && c <= '\u{200a}') || c == '\u{2028}' || c == '\u{2029}' || c
        == '\u{202f}' || c == '\u{205f}' || c == '\u{3000}'
}

/// `s` without the white space at its front.
pub open spec fn trim_front(s: Seq<char>) -> Seq<char>
    decreases s.len(),
{
    if s.len() > 0 && white(s[0]) {
        trim_front(s.skip(1))
    } else {
        s
    }
}

/// `s` without the white space at its back.
pub open spec fn trim_back(s: Seq<char>) -> Seq<char>
    decreases s.len(),
{
    if s.len() > 0 && white(s.last()) {
        trim_back(s.drop_last())
    } else {
        s
    }
}

/// `s` without the white space at either end.
pub open spec fn trimmed(s: Seq<char>) -> Seq<char> {
    trim_back(trim_front(s))
}

/// `s` without the white space at either end.
pub fn trim(s: &[char]) -> (r: &[char])
    ensures
        r@ == trimmed(s@),
{
    let mut i: usize = 0;
    proof {
        assert(s@.skip(0) =~= s@);
    }
    while i < s.len() && is_white(s[i])
        invariant
            i <= s.len(),
            trim_front(s@) == trim_front(s@.skip(i as int)),
        decreases s.len() - i,
    {
        proof {
            assert(s@.skip(i as int).skip(1) =~= s@.skip(i as int + 1));
        }
        i = i + 1;
    }
    let ghost front = s@.skip(i as int);
    assert(trim_front(s@) == front);
    let mut n: usize = s.len();
    proof {
        assert(front.take(n - i) =~= front);
    }
    while n > i && is_white(s[n - 1])
        invariant
            i <= n <= s.len(),
            front == s@.skip(i as int),
            trim_back(front) == trim_back(front.take(n - i)),
        decreases n,
    {
        proof {
            assert(front.take(n - i).drop_last() =~= front.take(n - i - 1));
            assert(front.take(n - i).last() == s@[n - 1]);
        }
        n = n - 1;
    }
    proof {
        assert(s@.subrange(i as int, n as int) =~= front.take(n - i));
        assert(front.take(front.len() as int) =~= front);
        if n > i {
            assert(front.take(n - i).last() == s@[n - 1]);
        }
    }
    slice_subrange(s, i, n)
}

/// `s` cut at every `sep`.
pub open spec fn pieces(s: Seq<char>, sep: char) -> Seq<Seq<char>>
    decreases s.len(),
{
    if s.len() == 0 {
        seq![s]
    } else {
        let front: Seq<Seq<char>> = pieces(s.drop_last(), sep);
        if s.last() == sep {
            front.push(seq![])
        } else {
            front.update(front.len() - 1, front.last().push(s.last()))
        }
    }
}

/// There is always a last piece.
pub proof fn lemma_pieces_some(s: Seq<char>, sep: char)
    ensures
        pieces(s, sep).len() >= 1,
    decreases s.len(),
{
    if s.len() > 0 {
        lemma_pieces_some(s.drop_last(), sep);
    }
}

/// No piece is longer than the whole.
pub proof fn lemma_pieces_short(s: Seq<char>, sep: char)
    ensures
        forall|i: int| 0 <= i < pieces(s, sep).len() ==> (#[trigger] pieces(s, sep)[i]).len()
            <= s.len(),
    decreases s.len(),
{
    if s.len() > 0 {
        lemma_pieces_short(s.drop_last(), sep);
        lemma_pieces_some(s.drop_last(), sep);
    }
}

/// Trimming makes nothing longer.
pub proof fn lemma_trimmed_short(s: Seq<char>)
    ensures
        trimmed(s).len() <= s.len(),
{
    lemma_trim_front_short(s);
    lemma_trim_back_short(trim_front(s));
}

proof fn lemma_trim_front_short(s: Seq<char>)
    ensures
        trim_front(s).len() <= s.len(),
    decreases s.len(),
{
    if s.len() > 0 && white(s[0]) {
        lemma_trim_front_short(s.skip(1));
    }
}

proof fn lemma_trim_back_short(s: Seq<char>)
    ensures
        trim_back(s).len() <= s.len(),
    decreases s.len(),
{
    if s.len() > 0 && white(s.last()) {
        lemma_trim_back_short(s.drop_last());
    }
}

/// No line is longer than the whole.
pub proof fn lemma_lines_short(s: Seq<char>)
    ensures
        forall|i: int| 0 <= i < lines_of(s).len() ==> (#[trigger] lines_of(s)[i]).len() <= s.len(),
{
    lemma_pieces_short(s, '\n');
    lemma_pieces_some(s, '\n');
    let all: Seq<Seq<char>> = pieces(s, '\n');
    assert forall|i: int| 0 <= i < lines_of(s).len() implies (#[trigger] lines_of(s)[i]).len()
        <= s.len() by {
        assert(all[i].len() <= s.len());
    }
}

/// The character sequences of `v`.
pub open spec fn views(v: Seq<Vec<char>>) -> Seq<Seq<char>> {
    v.map_values(|x: Vec<char>| x@)
}

/// `s` cut at every `sep`.
pub fn split(s: &[char], sep: char) -> (r: Vec<Vec<char>>)
    ensures
        views(r@) == pieces(s@, sep),
        r.len() >= 1,
{
    let mut done: Vec<Vec<char>> = Vec::new();
    let mut cur: Vec<char> = Vec::new();
    let mut i: usize = 0;
    proof {
        assert(views(done@).push(cur@) =~= pieces(s@.take(0), sep)) by {
            assert(s@.take(0) =~= seq![]);
        }
    }
    while i < s.len()
        invariant
            i <= s.len(),
            views(done@).push(cur@) == pieces(s@.take(i as int), sep),
        decreases s.len() - i,
    {
        let c: char = s[i];
        let ghost before = views(done@).push(cur@);
        proof {
            assert(s@.take(i as int + 1).drop_last() =~= s@.take(i as int));
            assert(s@.take(i as int + 1).last() == c);
        }
        if c == sep {
            done.push(cur);
            cur = Vec::new();
            proof {
                assert(views(done@) =~= before);
                assert(cur@ =~= seq![]);
            }
        } else {
            cur.push(c);
            proof {
                assert(views(done@).push(cur@) =~= before.update(
                    before.len() - 1,
                    before.last().push(c),
                ));
            }
        }
        i = i + 1;
    }
    proof {
        assert(s@.take(i as int) =~= s@);
    }
    let ghost all = views(done@).push(cur@);
    done.push(cur);
    proof {
        assert(views(done@) =~= all);
    }
    done
}

/// `line` without one carriage return at its end.
pub open spec fn without_return(line: Seq<char>) -> Seq<char> {
    if line.len() > 0 && line.last() == '\r' {
        line.drop_last()
    } else {
        line
    }
}

/// The lines of `s`: cut at line feeds, a carriage return before one dropped,
/// and nothing after a last line feed.
pub open spec fn lines_of(s: Seq<char>) -> Seq<Seq<char>> {
    let all: Seq<Seq<char>> = pieces(s, '\n');
    let ended: Seq<Seq<char>> = all.drop_last().map_values(|l: Seq<char>| without_return(l));
    if all.last().len() == 0 {
        ended
    } else {
        ended.push(all.last())
    }
}

/// The lines of `s`.
pub fn lines(s: &[char]) -> (r: Vec<Vec<char>>)
    ensures
        views(r@) == lines_of(s@),
{
    let mut all = split(s, '\n');
    let ghost cut = pieces(s@, '\n');
    let mut r: Vec<Vec<char>> = Vec::new();
    let last: usize = all.len() - 1;
    let mut i: usize = 0;
    proof {
        assert(all@.len() == cut.len());
    }
    while i < last
        invariant
            i <= last,
            last + 1 == all.len(),
            views(all@) == cut,
            views(r@) == cut.take(i as int).map_values(|l: Seq<char>| without_return(l)),
        decreases last - i,
    {
        let line: &Vec<char> = &all[i];
        proof {
            assert(views(all@)[i as int] == all@[i as int]@);
        }
        let n: usize = line.len();
        let kept = if n > 0 && line[n - 1] == '\r' {
            slice_subrange(line.as_slice(), 0, n - 1)
        } else {
            line.as_slice()
        };
        proof {
            assert(kept@ =~= without_return(cut[i as int]));
        }
        let ghost before = views(r@);
        r.push(copy_chars(kept));
        i = i + 1;
        proof {
            assert(views(r@) =~= before.push(kept@));
            assert(cut.take(i as int).map_values(|l: Seq<char>| without_return(l)) =~= cut.take(
                i - 1,
            ).map_values(|l: Seq<char>| without_return(l)).push(without_return(cut[i - 1])));
        }
    }
    proof {
        assert(cut.take(last as int) =~= cut.drop_last());
        assert(views(all@)[last as int] == all@[last as int]@);
    }
    let ghost before = views(r@);
    if all[last].len() > 0 {
        let tail: Vec<char> = copy_chars(all[last].as_slice());
        r.push(tail);
        proof {
            assert(views(r@) =~= before.push(cut.last()));
        }
    }
    r
}

/// The upper-case digit for `d`, below 16.
pub open spec fn digit_char(d: nat) -> char {
    if d == 0 {
        '0'
    } else     if d == 1 {
        '1'
    } else     if d == 2 {
        '2'
    } else     if d == 3 {
        '3'
    } else     if d == 4 {
        '4'
    } else     if d == 5 {
        '5'
    } else     if d == 6 {
        '6'
    } else     if d == 7 {
        '7'
    } else     if d == 8 {
        '8'
    } else     if d == 9 {
        '9'
    } else     if d == 10 {
        'A'
    } else     if d == 11 {
        'B'
    } else     if d == 12 {
        'C'
    } else     if d == 13 {
        'D'
    } else     if d == 14 {
        'E'
    } else {
        'F'
    }
}

/// The upper-case digit for `d`, below 16.
pub fn digit(d: u64) -> (c: char)
    requires
        d < 16,
    ensures
        c == digit_char(d as nat),
{
    if d == 0 {
        '0'
    } else     if d == 1 {
        '1'
    } else     if d == 2 {
        '2'
    } else     if d == 3 {
        '3'
    } else     if d == 4 {
        '4'
    } else     if d == 5 {
        '5'
    } else     if d == 6 {
        '6'
    } else     if d == 7 {
        '7'
    } else     if d == 8 {
        '8'
    } else     if d == 9 {
        '9'
    } else     if d == 10 {
        'A'
    } else     if d == 11 {
        'B'
    } else     if d == 12 {
        'C'
    } else     if d == 13 {
        'D'
    } else     if d == 14 {
        'E'
    } else {
        'F'
    }
}

/// The value of the digit `c`, of either case, where it is below `radix`.
pub open spec fn digit_value(c: char, radix: nat) -> Option<nat> {
    let v: int = if '0' <= c <= '9' {
        c as u32 - '0' as u32
    } else if 'a' <= c <= 'z' {
        c as u32 - 'a' as u32 + 10
    } else if 'A' <= c <= 'Z' {
        c as u32 - 'A' as u32 + 10
    } else {
        36
    };
    if v < radix {
        Some(v as nat)
    } else {
        None
    }
}

/// The value of the digit `c` where it is below `radix`.
pub fn value_of_digit(c: char, radix: u64) -> (r: Option<u64>)
    requires
        radix <= 36,
    ensures
        match digit_value(c, radix as nat) {
            Some(v) => r == Some(v as u64) && v < radix,
            None => r is None,
        },
{
    let v: u64 = if '0' <= c && c <= '9' {
        c as u64 - '0' as u64
    } else if 'a' <= c && c <= 'z' {
        c as u64 - 'a' as u64 + 10
    } else if 'A' <= c && c <= 'Z' {
        c as u64 - 'A' as u64 + 10
    } else {
        36
    };
    if v < radix {
        Some(v)
    } else {
        None
    }
}

/// The value of the digits `s`, most significant first, or nothing where one
/// of them is no digit of the radix.
pub open spec fn digits_value(s: Seq<char>, radix: nat) -> Option<nat>
    decreases s.len(),
{
    if s.len() == 0 {
        Some(0)
    } else {
        match (digits_value(s.drop_last(), radix), digit_value(s.last(), radix)) {
            (Some(front), Some(d)) => Some(front * radix + d),
            _ => None,
        }
    }
}

/// `s` without one plus sign at its front.
pub open spec fn without_plus(s: Seq<char>) -> Seq<char> {
    if s.len() > 0 && s[0] == '+' {
        s.skip(1)
    } else {
        s
    }
}

/// The unsigned integer up to `max` that `s` spells: an optional plus sign and
/// at least one digit.
pub open spec fn integer_in(s: Seq<char>, radix: nat, max: nat) -> Option<nat> {
    let body: Seq<char> = without_plus(s);
    if body.len() == 0 {
        None
    } else {
        match digits_value(body, radix) {
            Some(v) => if v <= max {
                Some(v)
            } else {
                None
            },
            None => None,
        }
    }
}

/// Longer digit strings are no smaller, and stay digits.
pub proof fn lemma_digits_prefix(s: Seq<char>, radix: nat, n: int)
    requires
        0 <= n <= s.len(),
        radix >= 1,
        digits_value(s, radix) is Some,
    ensures
        digits_value(s.take(n), radix) is Some,
        digits_value(s.take(n), radix)->0 <= digits_value(s, radix)->0,
    decreases s.len(),
{
    if n == s.len() {
        assert(s.take(n) =~= s);
    } else {
        lemma_digits_prefix(s.drop_last(), radix, n);
        assert(s.drop_last().take(n) =~= s.take(n));
        let front: nat = digits_value(s.drop_last(), radix)->0;
        assert(front <= front * radix) by (nonlinear_arith)
            requires
                radix >= 1,
                front >= 0,
        ;
    }
}

/// The unsigned integer up to `max` that `s` spells.
pub fn parse_integer(s: &[char], radix: u64, max: u64) -> (r: Option<u64>)
    requires
        2 <= radix <= 36,
    ensures
        match integer_in(s@, radix as nat, max as nat) {
            Some(v) => r == Some(v as u64) && v <= max,
            None => r is None,
        },
{
    let start: usize = if s.len() > 0 && s[0] == '+' {
        1
    } else {
        0
    };
    let ghost body = without_plus(s@);
    proof {
        assert(body =~= s@.skip(start as int));
    }
    if start == s.len() {
        return None;
    }
    let mut v: u64 = 0;
    let mut i: usize = start;
    while i < s.len()
        invariant
            start <= i <= s.len(),
            2 <= radix <= 36,
            body == s@.skip(start as int),
            body == without_plus(s@),
            body.len() > 0,
            digits_value(body.take(i - start), radix as nat) == Some(v as nat),
            v <= max,
        decreases s.len() - i,
    {
        proof {
            assert(body.take(i - start + 1).drop_last() =~= body.take(i - start));
            assert(body.take(i - start + 1).last() == s@[i as int]);
            if digits_value(body, radix as nat) is Some {
                lemma_digits_prefix(body, radix as nat, i - start + 1);
            }
        }
        match value_of_digit(s[i], radix) {
            None => {
                return None;
            },
            Some(d) => {
                proof {
                    assert(0 <= v * radix <= u64::MAX * 36) by (nonlinear_arith)
                        requires
                            0 <= v <= u64::MAX,
                            0 <= radix <= 36,
                    ;
                }
                let next: u128 = v as u128 * radix as u128 + d as u128;
                if next > max as u128 {
                    return None;
                }
                v = next as u64;
            },
        }
        i = i + 1;
    }
    proof {
        assert(body.take(i - start) =~= body);
    }
    Some(v)
}

/// The decimal digits of `n`, without leading zeros.
pub open spec fn decimal(n: nat) -> Seq<char>
    decreases n,
{
    if n < 10 {
        seq![digit_char(n)]
    } else {
        decimal(n / 10).push(digit_char(n % 10))
    }
}

/// The decimal digits of `v`.
pub fn decimal_chars(v: u64) -> (r: Vec<char>)
    ensures
        r@ == decimal(v as nat),
    decreases v,
{
    let mut r: Vec<char> = if v < 10 {
        Vec::new()
    } else {
        decimal_chars(v / 10)
    };
    r.push(digit(v % 10));
    proof {
        assert(r@ =~= decimal(v as nat));
    }
    r
}

/// `n` in two decimal digits at least.
pub open spec fn two_digits(n: nat) -> Seq<char> {
    if n < 10 {
        seq!['0'] + decimal(n)
    } else {
        decimal(n)
    }
}

/// Appends `v` in two decimal digits at least.
pub fn push_two_digits(out: &mut Vec<char>, v: u64)
    ensures
        final(out)@ == old(out)@ + two_digits(v as nat),
{
    let ghost start = out@;
    if v < 10 {
        out.push('0');
    }
    let d = decimal_chars(v);
    push_chars(out, d.as_slice());
    proof {
        assert(out@ =~= start + two_digits(v as nat));
    }
}

/// The contents of an optional text.
pub open spec fn option_text(t: Option<String>) -> Option<Seq<char>> {
    match t {
        Some(s) => Some(s@),
        None => None,
    }
}

/// The number of bytes of `c` in UTF-8.
pub open spec fn width(c: char) -> nat {
    if (c as u32) < 0x80 {
        1
    } else if (c as u32) < 0x800 {
        2
    } else if (c as u32) < 0x10000 {
        3
    } else {
        4
    }
}

/// The number of bytes of `s` in UTF-8.
pub open spec fn byte_length(s: Seq<char>) -> nat
    decreases s.len(),
{
    if s.len() == 0 {
        0
    } else {
        byte_length(s.drop_last()) + width(s.last())
    }
}

/// The number of bytes of `c` in UTF-8.
pub fn width_of(c: char) -> (n: usize)
    ensures
        n == width(c),
{
    let v: u32 = c as u32;
    if v < 0x80 {
        1
    } else if v < 0x800 {
        2
    } else if v < 0x10000 {
        3
    } else {
        4
    }
}

/// The digits of a number are read as that number again, and no other text of
/// digits without zeros in front is.
pub proof fn lemma_decimal_read_back(n: nat)
    ensures
        decimal(n).len() > 0,
        digits_value(decimal(n), 10) == Some(n),
        n > 0 ==> decimal(n)[0] != '0',
        forall|i: int| 0 <= i < decimal(n).len() ==> '0' <= #[trigger] decimal(n)[i] <= '9',
    decreases n,
{
    let d = decimal(n);
    if n < 10 {
        assert(d.drop_last() =~= Seq::<char>::empty());
        assert(digits_value(d.drop_last(), 10) == Some(0nat));
        assert(0 * 10 + n == n);
    } else {
        lemma_decimal_read_back(n / 10);
        assert(d.drop_last() =~= decimal(n / 10));
        assert((n / 10) * 10 + n % 10 == n);
        assert(d[0] == decimal(n / 10)[0]);
        assert forall|i: int| 0 <= i < d.len() implies '0' <= #[trigger] d[i] <= '9' by {
            if i < d.len() - 1 {
                assert(d[i] == decimal(n / 10)[i]);
            }
        }
    }
}

/// A number of less than a hundred is written in two digits, which are read as
/// that number.
pub proof fn lemma_two_digits(n: nat)
    requires
        n < 100,
    ensures
        two_digits(n).len() == 2,
        digits_value(two_digits(n), 10) == Some(n),
{
    lemma_decimal_read_back(n);
    let d = two_digits(n);
    if n < 10 {
        assert(d =~= seq!['0', digit_char(n)]);
        let f = d.drop_last();
        assert(f =~= seq!['0']);
        assert(f.drop_last() =~= Seq::<char>::empty());
        assert(digits_value(f.drop_last(), 10) == Some(0nat));
        assert(digit_value('0', 10) == Some(0nat));
        assert(digits_value(f, 10) == Some(0nat)) by {
            assert(0 * 10 + 0 == 0);
        }
        assert(0 * 10 + n == n);
    } else {
        assert(decimal(n / 10) =~= seq![digit_char(n / 10)]);
    }
}

/// What a digit is worth: 0 to 9, and 10 to 15 for the letters of either case.
pub proof fn lemma_digit_values(c: char)
    ensures
        '0' <= c <= '9' ==> digit_value(c, 16) == Some((c as u32 - 48) as nat) && digit_value(c, 10)
            == Some((c as u32 - 48) as nat),
        'a' <= c <= 'f' ==> digit_value(c, 16) == Some((c as u32 - 87) as nat) && digit_value(
            c,
            10,
        ) is None,
        'A' <= c <= 'F' ==> digit_value(c, 16) == Some((c as u32 - 55) as nat) && digit_value(
            c,
            10,
        ) is None,
        !('0' <= c <= '9') && !('a' <= c <= 'f') && !('A' <= c <= 'F') ==> digit_value(c, 16) is None
            && digit_value(c, 10) is None,
{
}

/// One more digit makes a number its radix times as much and the digit more.
pub proof fn lemma_digits_in_places(s: Seq<char>, c: char, radix: nat)
    ensures
        digits_value(Seq::<char>::empty(), radix) == Some(0nat),
        digits_value(s, radix) is Some && digit_value(c, radix) is Some ==> digits_value(
            s.push(c),
            radix,
        ) == Some(digits_value(s, radix)->0 * radix + digit_value(c, radix)->0),
        digits_value(s, radix) is None || digit_value(c, radix) is None ==> digits_value(
            s.push(c),
            radix,
        ) is None,
{
    assert(s.push(c).drop_last() =~= s);
}

/// Trimming takes white space from the ends, all of it and nothing else.
pub proof fn lemma_trimmed_ends(s: Seq<char>)
    ensures
        trimmed(s).len() > 0 ==> !white(trimmed(s)[0]) && !white(trimmed(s).last()),
        exists|i: int, j: int| #![trigger s.subrange(i, j)]
            0 <= i <= j <= s.len() && trimmed(s) == s.subrange(i, j) && (forall|k: int|
                0 <= k < s.len() && !(i <= k < j) ==> white(#[trigger] s[k])),
{
    lemma_trim_front_cut(s);
    let i: int = s.len() - trim_front(s).len();
    let t = trim_front(s);
    lemma_trim_back_cut(t);
    let j: int = i + trim_back(t).len();
    assert(trimmed(s) =~= s.subrange(i, j));
    assert forall|k: int| 0 <= k < s.len() && !(i <= k < j) implies white(#[trigger] s[k]) by {
        if k >= j {
            assert(t[k - i] == s[k]);
        }
    }
    if trimmed(s).len() > 0 {
        assert(trim_back(t)[0] == t[0]);
    }
}

/// What is cut from the front.
proof fn lemma_trim_front_cut(s: Seq<char>)
    ensures
        trim_front(s).len() <= s.len(),
        trim_front(s) == s.skip(s.len() - trim_front(s).len()),
        trim_front(s).len() > 0 ==> !white(trim_front(s)[0]),
        forall|k: int| 0 <= k < s.len() - trim_front(s).len() ==> white(#[trigger] s[k]),
    decreases s.len(),
{
    if s.len() > 0 && white(s[0]) {
        let t = s.skip(1);
        lemma_trim_front_cut(t);
        assert(trim_front(s) == trim_front(t));
        assert(t.skip(t.len() - trim_front(t).len()) =~= s.skip(s.len() - trim_front(s).len()));
        assert forall|k: int| 0 <= k < s.len() - trim_front(s).len() implies white(
            #[trigger] s[k],
        ) by {
            if k > 0 {
                assert(t[k - 1] == s[k]);
            }
        }
    } else {
        assert(s.skip(0) =~= s);
    }
}

/// What is cut from the back.
proof fn lemma_trim_back_cut(s: Seq<char>)
    ensures
        trim_back(s).len() <= s.len(),
        trim_back(s) == s.take(trim_back(s).len() as int),
        trim_back(s).len() > 0 ==> !white(trim_back(s).last()),
        forall|k: int| trim_back(s).len() <= k < s.len() ==> white(#[trigger] s[k]),
    decreases s.len(),
{
    if s.len() > 0 && white(s.last()) {
        let t = s.drop_last();
        lemma_trim_back_cut(t);
        assert(trim_back(s) == trim_back(t));
        assert(t.take(trim_back(t).len() as int) =~= s.take(trim_back(s).len() as int));
        assert forall|k: int| trim_back(s).len() <= k < s.len() implies white(#[trigger] s[k]) by {
            if k < s.len() - 1 {
                assert(t[k] == s[k]);
            }
        }
    } else {
        assert(s.take(s.len() as int) =~= s);
    }
}

/// The digits of a number, with a plus sign in front or without, are that number up
/// to the largest one allowed; no digits are no number.
pub proof fn lemma_integers_are_read(n: nat, max: nat)
    ensures
        n <= max ==> integer_in(decimal(n), 10, max) == Some(n) && integer_in(
            seq!['+'] + decimal(n),
            10,
            max,
        ) == Some(n),
        n > max ==> integer_in(decimal(n), 10, max) is None && integer_in(
            seq!['+'] + decimal(n),
            10,
            max,
        ) is None,
        integer_in(Seq::<char>::empty(), 10, max) is None,
        integer_in(seq!['+'], 10, max) is None,
{
    lemma_decimal_read_back(n);
    let d = decimal(n);
    assert('0' <= d[0] <= '9');
    assert((seq!['+'] + d).skip(1) =~= d);
    assert(seq!['+'].skip(1) =~= Seq::<char>::empty());
}

/// A text without the separator is one piece, and behind a separator it is one
/// piece more.
pub proof fn lemma_pieces_in_order(a: Seq<char>, b: Seq<char>, sep: char)
    requires
        forall|i: int| 0 <= i < b.len() ==> #[trigger] b[i] != sep,
    ensures
        pieces(b, sep) == seq![b],
        pieces(a + seq![sep] + b, sep) == pieces(a, sep).push(b),
    decreases b.len(),
{
    let x = a + seq![sep] + b;
    if b.len() == 0 {
        assert(x.drop_last() =~= a);
        assert(x.last() == sep);
        assert(b =~= Seq::<char>::empty());
    } else {
        let c = b.drop_last();
        assert forall|i: int| 0 <= i < c.len() implies #[trigger] c[i] != sep by {
            assert(c[i] == b[i]);
        }
        lemma_pieces_in_order(a, c, sep);
        assert(b.last() == b[b.len() - 1]);
        assert(c.push(b.last()) =~= b);
        assert(pieces(b, sep) =~= seq![b]);
        assert(x.drop_last() =~= a + seq![sep] + c);
        assert(x.last() == b.last());
        let front = pieces(a, sep).push(c);
        assert(front.update(front.len() - 1, front.last().push(b.last())) =~= pieces(a, sep).push(b));
    }
}

} // verus!
