//! The flight-model database: one record of limits per vehicle.
use vstd::prelude::*;

use crate::arith::quotient;
use crate::derived::{at_most, HUNDRED};
use crate::num::{less, nan, same, Num, INFINITE, SIGN};
use crate::number::{number_in, parse_number, TEXT_LIMIT};
use crate::table::{RawFrame, Table};
use crate::text::{begins, chars_of, lemma_lines_short, lemma_pieces_short, lemma_trimmed_short, lines, lines_of, pieces, same_chars, split, text_of, trim, trimmed, views};

verus! {

/// The limits of one vehicle.
#[derive(Clone, Copy, Debug)]
pub struct FmRecord {
    pub crit_ias_kmh: Option<Num>,
    pub crit_mach: Option<Num>,
    pub crit_gear_kmh: Option<Num>,
    /// The lowest of the flap speed limits (km/h).
    pub crit_flaps_min_kmh: Option<Num>,
    /// The highest of the flap speed limits (km/h).
    pub crit_flaps_combat_kmh: Option<Num>,
    pub max_fuel_kg: Option<Num>,
    /// The normal RPM limit.
    pub rpm_normal: Option<Num>,
    /// The emergency RPM limit.
    pub rpm_max: Option<Num>,
    pub crit_aoa_pos: Option<Num>,
    pub crit_aoa_neg: Option<Num>,
    pub num_engines: Option<Num>,
    pub empty_mass_kg: Option<Num>,
    /// The largest wing load (N) upwards.
    pub crit_wing_overload_pos: Option<Num>,
    /// The largest wing load (N) downwards, a negative number.
    pub crit_wing_overload_neg: Option<Num>,
    /// The extension up to which the flaps count as combat flaps.
    pub combat_flaps_ratio: Option<Num>,
    pub combatflaps_crit_speed: Option<Num>,
    pub takeoff_flaps_ratio: Option<Num>,
    pub takeoffflaps_crit_speed: Option<Num>,
    pub landing_flaps_ratio: Option<Num>,
    pub landingflaps_crit_speed: Option<Num>,
}

/// Records by vehicle name.
pub type FmDb = Table<FmRecord>;

/// The record that knows nothing.
pub open spec fn no_limits() -> FmRecord {
    FmRecord {
        crit_ias_kmh: None,
        crit_mach: None,
        crit_gear_kmh: None,
        crit_flaps_min_kmh: None,
        crit_flaps_combat_kmh: None,
        max_fuel_kg: None,
        rpm_normal: None,
        rpm_max: None,
        crit_aoa_pos: None,
        crit_aoa_neg: None,
        num_engines: None,
        empty_mass_kg: None,
        crit_wing_overload_pos: None,
        crit_wing_overload_neg: None,
        combat_flaps_ratio: None,
        combatflaps_crit_speed: None,
        takeoff_flaps_ratio: None,
        takeoffflaps_crit_speed: None,
        landing_flaps_ratio: None,
        landingflaps_crit_speed: None,
    }
}

impl Default for FmRecord {
    fn default() -> (r: Self)
        ensures
            r == no_limits(),
    {
        FmRecord {
            crit_ias_kmh: None,
            crit_mach: None,
            crit_gear_kmh: None,
            crit_flaps_min_kmh: None,
            crit_flaps_combat_kmh: None,
            max_fuel_kg: None,
            rpm_normal: None,
            rpm_max: None,
            crit_aoa_pos: None,
            crit_aoa_neg: None,
            num_engines: None,
            empty_mass_kg: None,
            crit_wing_overload_pos: None,
            crit_wing_overload_neg: None,
            combat_flaps_ratio: None,
            combatflaps_crit_speed: None,
            takeoff_flaps_ratio: None,
            takeoffflaps_crit_speed: None,
            landing_flaps_ratio: None,
            landingflaps_crit_speed: None,
        }
    }
}

/// The number in a column, where it holds one.
pub open spec fn column_number(col: Seq<char>) -> Option<Num> {
    match number_in(trimmed(col)) {
        Some(bits) => Some(Num { bits }),
        None => None,
    }
}

/// The numbers among `parts`, in their order.
pub open spec fn numbers_among(parts: Seq<Seq<char>>) -> Seq<Num>
    decreases parts.len(),
{
    if parts.len() == 0 {
        seq![]
    } else {
        let front: Seq<Num> = numbers_among(parts.drop_last());
        match column_number(parts.last()) {
            Some(n) => front.push(n),
            None => front,
        }
    }
}

/// The numbers of a column that lists them between commas.
pub open spec fn column_numbers(col: Seq<char>) -> Seq<Num> {
    numbers_among(pieces(trimmed(col), ','))
}

/// The number at `i`, where the list is that long.
pub open spec fn number_at(v: Seq<Num>, i: int) -> Option<Num> {
    if 0 <= i < v.len() {
        Some(v[i])
    } else {
        None
    }
}

/// Whether a column holds a number that is not zero.
pub open spec fn column_set(col: Seq<char>) -> bool {
    match column_number(col) {
        Some(n) => !same(n.bits, 0),
        None => false,
    }
}

/// The first `k` pairs of ratio and speed in `v` whose ratio is positive.
pub open spec fn extended_pairs(v: Seq<Num>, k: nat) -> Seq<(Num, Num)>
    decreases k,
{
    if k == 0 {
        seq![]
    } else {
        let front: Seq<(Num, Num)> = extended_pairs(v, (k - 1) as nat);
        let ratio: Num = v[2 * (k - 1)];
        if less(0, ratio.bits) {
            front.push((ratio, v[2 * (k - 1) + 1]))
        } else {
            front
        }
    }
}

/// `s` with `e` put behind the last pair whose ratio is no larger.
pub open spec fn placed(s: Seq<(Num, Num)>, e: (Num, Num)) -> Seq<(Num, Num)>
    decreases s.len(),
{
    if s.len() == 0 || !less(e.0.bits, s.last().0.bits) {
        s.push(e)
    } else {
        placed(s.drop_last(), e).push(s.last())
    }
}

/// The pairs by ascending ratio; equal ratios keep their order.
pub open spec fn by_ratio(s: Seq<(Num, Num)>) -> Seq<(Num, Num)>
    decreases s.len(),
{
    if s.len() == 0 {
        seq![]
    } else {
        placed(by_ratio(s.drop_last()), s.last())
    }
}

/// The flap limits that a column lists, by ascending ratio.
pub open spec fn flap_limits(col: Seq<char>) -> Seq<(Num, Num)> {
    let v: Seq<Num> = column_numbers(col);
    by_ratio(extended_pairs(v, v.len() / 2))
}

/// The smaller number; "not a number" gives way.
pub open spec fn smaller(a: u64, b: u64) -> u64 {
    if nan(a) || less(b, a) {
        b
    } else {
        a
    }
}

/// The larger number; "not a number" gives way.
pub open spec fn larger(a: u64, b: u64) -> u64 {
    if nan(a) || less(a, b) {
        b
    } else {
        a
    }
}

/// The lowest speed of the pairs.
pub open spec fn lowest(s: Seq<(Num, Num)>) -> u64
    decreases s.len(),
{
    if s.len() == 0 {
        INFINITE
    } else {
        smaller(lowest(s.drop_last()), s.last().1.bits)
    }
}

/// The highest speed of the pairs.
pub open spec fn highest(s: Seq<(Num, Num)>) -> u64
    decreases s.len(),
{
    if s.len() == 0 {
        (INFINITE + SIGN) as u64
    } else {
        larger(highest(s.drop_last()), s.last().1.bits)
    }
}

/// The limits of the three named positions.
#[derive(Clone, Copy)]
pub struct FlapSlots {
    pub combat: Option<(Num, Num)>,
    pub takeoff: Option<(Num, Num)>,
    pub landing: Option<(Num, Num)>,
}

/// Deals the sorted limits out: combat and takeoff each take the first one left
/// where the vehicle has the position and two are left; landing takes the last.
pub open spec fn dealt(s: Seq<(Num, Num)>, combat: bool, takeoff: bool) -> FlapSlots {
    let c: bool = combat && s.len() >= 2;
    let rest: Seq<(Num, Num)> = if c {
        s.skip(1)
    } else {
        s
    };
    let t: bool = takeoff && rest.len() >= 2;
    FlapSlots {
        combat: if c {
            Some(s[0])
        } else {
            None
        },
        takeoff: if t {
            Some(rest[0])
        } else {
            None
        },
        landing: if s.len() > 0 {
            Some(s.last())
        } else {
            None
        },
    }
}

/// The first half of a pair.
pub open spec fn ratio_of(p: Option<(Num, Num)>) -> Option<Num> {
    match p {
        Some(e) => Some(e.0),
        None => None,
    }
}

/// The second half of a pair.
pub open spec fn speed_of_pair(p: Option<(Num, Num)>) -> Option<Num> {
    match p {
        Some(e) => Some(e.1),
        None => None,
    }
}

/// The record in the columns of one line.
pub open spec fn record_of(cols: Seq<Seq<char>>) -> FmRecord {
    let limits: Seq<(Num, Num)> = flap_limits(cols[11]);
    let slots: FlapSlots = dealt(limits, column_set(cols[9]), column_set(cols[10]));
    FmRecord {
        crit_ias_kmh: column_number(cols[6]),
        crit_mach: column_number(cols[7]),
        crit_gear_kmh: column_number(cols[8]),
        crit_flaps_min_kmh: if limits.len() == 0 {
            None
        } else {
            Some(Num { bits: lowest(limits) })
        },
        crit_flaps_combat_kmh: if limits.len() == 0 {
            None
        } else {
            Some(Num { bits: highest(limits) })
        },
        max_fuel_kg: column_number(cols[5]),
        rpm_normal: number_at(column_numbers(cols[14]), 1),
        rpm_max: number_at(column_numbers(cols[14]), 2),
        crit_aoa_pos: number_at(column_numbers(cols[17]), 0),
        crit_aoa_neg: number_at(column_numbers(cols[17]), 1),
        num_engines: column_number(cols[13]),
        empty_mass_kg: column_number(cols[4]),
        crit_wing_overload_pos: number_at(column_numbers(cols[12]), 1),
        crit_wing_overload_neg: number_at(column_numbers(cols[12]), 0),
        combat_flaps_ratio: ratio_of(slots.combat),
        combatflaps_crit_speed: speed_of_pair(slots.combat),
        takeoff_flaps_ratio: ratio_of(slots.takeoff),
        takeoffflaps_crit_speed: speed_of_pair(slots.takeoff),
        landing_flaps_ratio: ratio_of(slots.landing),
        landingflaps_crit_speed: speed_of_pair(slots.landing),
    }
}

/// The name and the record of a line, where it has both.
pub open spec fn data_row(line: Seq<char>) -> Option<(Seq<char>, FmRecord)> {
    let cols: Seq<Seq<char>> = pieces(line, ';');
    if cols.len() < 18 || trimmed(cols[0]).len() == 0 {
        None
    } else {
        Some((trimmed(cols[0]), record_of(cols)))
    }
}

/// The records of the lines; a later record of one name replaces the earlier.
pub open spec fn records_of(rows: Seq<Seq<char>>) -> Map<Seq<char>, FmRecord>
    decreases rows.len(),
{
    if rows.len() == 0 {
        Map::empty()
    } else {
        let front: Map<Seq<char>, FmRecord> = records_of(rows.drop_last());
        match data_row(rows.last()) {
            Some((name, record)) => front.insert(name, record),
            None => front,
        }
    }
}

/// The unit name and the flight-model name of a line, where they differ.
pub open spec fn alias_row(line: Seq<char>) -> Option<(Seq<char>, Seq<char>)> {
    let cols: Seq<Seq<char>> = pieces(line, ';');
    if cols.len() < 2 || trimmed(cols[0]).len() == 0 || trimmed(cols[0]) == trimmed(cols[1]) {
        None
    } else {
        Some((trimmed(cols[0]), trimmed(cols[1])))
    }
}

/// `db` with the aliases of the lines: a unit without a record of its own gets
/// the record of its flight model, where there is one.
pub open spec fn aliased(db: Map<Seq<char>, FmRecord>, rows: Seq<Seq<char>>) -> Map<
    Seq<char>,
    FmRecord,
>
    decreases rows.len(),
{
    if rows.len() == 0 {
        db
    } else {
        let front: Map<Seq<char>, FmRecord> = aliased(db, rows.drop_last());
        match alias_row(rows.last()) {
            Some((unit, model)) => if front.contains_key(model) && !front.contains_key(unit) {
                front.insert(unit, front[model])
            } else {
                front
            },
            None => front,
        }
    }
}

/// The lines of a file behind its header.
pub open spec fn body_lines(text: Seq<char>) -> Seq<Seq<char>> {
    let all: Seq<Seq<char>> = lines_of(text);
    if all.len() == 0 {
        all
    } else {
        all.skip(1)
    }
}

/// The database in the two files, as far as they could be read.
pub open spec fn database(data: Option<Seq<char>>, names: Option<Seq<char>>) -> Map<
    Seq<char>,
    FmRecord,
> {
    match data {
        None => Map::empty(),
        Some(d) => match names {
            None => records_of(body_lines(d)),
            Some(n) => aliased(records_of(body_lines(d)), body_lines(n)),
        },
    }
}

/// The number in a column.
fn column(col: &Vec<char>) -> (r: Option<Num>)
    requires
        col@.len() < TEXT_LIMIT,
    ensures
        r == column_number(col@),
{
    proof {
        lemma_trimmed_short(col@);
    }
    parse_number(trim(col.as_slice()))
}

/// The numbers of a column that lists them between commas.
fn column_list(col: &Vec<char>) -> (r: Vec<Num>)
    requires
        col@.len() < TEXT_LIMIT,
    ensures
        r@ == column_numbers(col@),
{
    proof {
        lemma_trimmed_short(col@);
        lemma_pieces_short(trimmed(col@), ',');
    }
    let parts = split(trim(col.as_slice()), ',');
    let ghost cut = pieces(trimmed(col@), ',');
    let mut r: Vec<Num> = Vec::new();
    let mut i: usize = 0;
    while i < parts.len()
        invariant
            i <= parts.len(),
            views(parts@) == cut,
            parts@.len() == cut.len(),
            forall|k: int| 0 <= k < cut.len() ==> (#[trigger] cut[k]).len() < TEXT_LIMIT,
            r@ == numbers_among(cut.take(i as int)),
        decreases parts.len() - i,
    {
        proof {
            assert(cut.take(i as int + 1).drop_last() =~= cut.take(i as int));
            assert(views(parts@)[i as int] == parts@[i as int]@);
            assert(cut[i as int].len() < TEXT_LIMIT);
        }
        if let Some(n) = column(&parts[i]) {
            r.push(n);
        }
        i = i + 1;
    }
    proof {
        assert(cut.take(i as int) =~= cut);
    }
    r
}

/// The number at `i`.
fn nth(v: &Vec<Num>, i: usize) -> (r: Option<Num>)
    ensures
        r == number_at(v@, i as int),
{
    if i < v.len() {
        Some(v[i])
    } else {
        None
    }
}

/// The pairs of ratio and speed in `v` whose ratio is positive.
fn pairs_in(v: &Vec<Num>) -> (r: Vec<(Num, Num)>)
    ensures
        r@ == extended_pairs(v@, v@.len() / 2),
{
    let mut r: Vec<(Num, Num)> = Vec::new();
    let half: usize = v.len() / 2;
    let zero = Num { bits: 0 };
    let mut k: usize = 0;
    while k < half
        invariant
            k <= half,
            half == v@.len() / 2,
            2 * half <= v.len(),
            zero.bits == 0,
            r@ == extended_pairs(v@, k as nat),
        decreases half - k,
    {
        let ratio = v[2 * k];
        if zero.lt(ratio) {
            r.push((ratio, v[2 * k + 1]));
        }
        k = k + 1;
    }
    r
}

/// Puts `e` behind the last pair whose ratio is no larger.
fn place(s: &mut Vec<(Num, Num)>, e: (Num, Num))
    ensures
        final(s)@ == placed(old(s)@, e),
{
    let mut i: usize = s.len();
    let ghost start = s@;
    proof {
        assert(start.take(i as int) =~= start);
        assert(placed(start, e) =~= placed(start.take(i as int), e) + start.skip(i as int));
    }
    while i > 0 && e.0.lt(s[i - 1].0)
        invariant
            i <= s.len(),
            s@ == start,
            placed(start, e) == placed(start.take(i as int), e) + start.skip(i as int),
        decreases i,
    {
        proof {
            let t = start.take(i as int);
            assert(t.drop_last() =~= start.take(i - 1));
            assert(placed(start.take(i - 1), e).push(t.last()) + start.skip(i as int) =~= placed(
                start.take(i - 1),
                e,
            ) + start.skip(i - 1));
        }
        i = i - 1;
    }
    s.insert(i, e);
    proof {
        let t = start.take(i as int);
        assert(placed(t, e) == t.push(e)) by {
            if i > 0 {
                assert(t.last() == start[i - 1]);
            }
        }
        assert(s@ =~= t.push(e) + start.skip(i as int));
    }
}

/// The pairs by ascending ratio.
fn sort_pairs(v: &Vec<(Num, Num)>) -> (r: Vec<(Num, Num)>)
    ensures
        r@ == by_ratio(v@),
{
    let mut r: Vec<(Num, Num)> = Vec::new();
    let mut i: usize = 0;
    while i < v.len()
        invariant
            i <= v.len(),
            r@ == by_ratio(v@.take(i as int)),
        decreases v.len() - i,
    {
        proof {
            assert(v@.take(i as int + 1).drop_last() =~= v@.take(i as int));
        }
        place(&mut r, v[i]);
        i = i + 1;
    }
    proof {
        assert(v@.take(i as int) =~= v@);
    }
    r
}

/// The lowest and the highest speed of the pairs.
fn speed_bounds(s: &Vec<(Num, Num)>) -> (r: (Num, Num))
    ensures
        r.0.bits == lowest(s@),
        r.1.bits == highest(s@),
{
    let mut low = Num { bits: INFINITE };
    let mut high = Num { bits: INFINITE + SIGN };
    let mut i: usize = 0;
    while i < s.len()
        invariant
            i <= s.len(),
            low.bits == lowest(s@.take(i as int)),
            high.bits == highest(s@.take(i as int)),
        decreases s.len() - i,
    {
        proof {
            assert(s@.take(i as int + 1).drop_last() =~= s@.take(i as int));
        }
        let v = s[i].1;
        if low.is_nan() || v.lt(low) {
            low = v;
        }
        if high.is_nan() || high.lt(v) {
            high = v;
        }
        i = i + 1;
    }
    proof {
        assert(s@.take(i as int) =~= s@);
    }
    (low, high)
}

/// Deals the sorted limits out to the named positions.
fn deal(s: &Vec<(Num, Num)>, combat: bool, takeoff: bool) -> (r: FlapSlots)
    ensures
        r == dealt(s@, combat, takeoff),
{
    let n: usize = s.len();
    let c: bool = combat && n >= 2;
    let first: usize = if c {
        1
    } else {
        0
    };
    let t: bool = takeoff && n - first >= 2;
    FlapSlots {
        combat: if c {
            Some(s[0])
        } else {
            None
        },
        takeoff: if t {
            Some(s[first])
        } else {
            None
        },
        landing: if n > 0 {
            Some(s[n - 1])
        } else {
            None
        },
    }
}

fn first_half(p: Option<(Num, Num)>) -> (r: Option<Num>)
    ensures
        r == ratio_of(p),
{
    match p {
        Some(e) => Some(e.0),
        None => None,
    }
}

fn second_half(p: Option<(Num, Num)>) -> (r: Option<Num>)
    ensures
        r == speed_of_pair(p),
{
    match p {
        Some(e) => Some(e.1),
        None => None,
    }
}

/// Whether a column holds a number that is not zero.
fn is_set(col: &Vec<char>) -> (r: bool)
    requires
        col@.len() < TEXT_LIMIT,
    ensures
        r == column_set(col@),
{
    match column(col) {
        Some(n) => !n.equals(Num { bits: 0 }),
        None => false,
    }
}

/// The record in the columns of one line.
fn read_record(cols: &Vec<Vec<char>>) -> (r: FmRecord)
    requires
        cols@.len() >= 18,
        forall|k: int| 0 <= k < cols@.len() ==> (#[trigger] cols@[k])@.len() < TEXT_LIMIT,
    ensures
        r == record_of(views(cols@)),
{
    let limits = sort_pairs(&pairs_in(&column_list(&cols[11])));
    let slots = deal(&limits, is_set(&cols[9]), is_set(&cols[10]));
    let (low, high) = speed_bounds(&limits);
    let known: bool = limits.len() > 0;
    let rpm = column_list(&cols[14]);
    let aoa = column_list(&cols[17]);
    let load = column_list(&cols[12]);
    FmRecord {
        crit_ias_kmh: column(&cols[6]),
        crit_mach: column(&cols[7]),
        crit_gear_kmh: column(&cols[8]),
        crit_flaps_min_kmh: if known {
            Some(low)
        } else {
            None
        },
        crit_flaps_combat_kmh: if known {
            Some(high)
        } else {
            None
        },
        max_fuel_kg: column(&cols[5]),
        rpm_normal: nth(&rpm, 1),
        rpm_max: nth(&rpm, 2),
        crit_aoa_pos: nth(&aoa, 0),
        crit_aoa_neg: nth(&aoa, 1),
        num_engines: column(&cols[13]),
        empty_mass_kg: column(&cols[4]),
        crit_wing_overload_pos: nth(&load, 1),
        crit_wing_overload_neg: nth(&load, 0),
        combat_flaps_ratio: first_half(slots.combat),
        combatflaps_crit_speed: second_half(slots.combat),
        takeoff_flaps_ratio: first_half(slots.takeoff),
        takeoffflaps_crit_speed: second_half(slots.takeoff),
        landing_flaps_ratio: first_half(slots.landing),
        landingflaps_crit_speed: second_half(slots.landing),
    }
}

/// Reads the records of the lines of `text` behind its header.
fn read_records(text: &str) -> (db: FmDb)
    requires
        text@.len() < TEXT_LIMIT,
    ensures
        db@ == records_of(body_lines(text@)),
{
    let mut db: FmDb = Table::new();
    let rows = lines(chars_of(text).as_slice());
    let ghost all = lines_of(text@);
    proof {
        lemma_lines_short(text@);
        assert(all.skip(1).take(0) =~= seq![]);
    }
    let mut i: usize = 1;
    while i < rows.len()
        invariant
            1 <= i,
            i <= rows.len() || i == 1,
            views(rows@) == all,
            rows@.len() == all.len(),
            forall|k: int| 0 <= k < all.len() ==> (#[trigger] all[k]).len() < TEXT_LIMIT,
            i <= rows.len() ==> db@ == records_of(all.skip(1).take(i - 1)),
            db@ == records_of(all.skip(1).take(i - 1)) || rows.len() == 0,
            rows.len() == 0 ==> db@ == Map::<Seq<char>, FmRecord>::empty(),
        decreases rows.len() - i,
    {
        let ghost line = all[i as int];
        proof {
            assert(views(rows@)[i as int] == rows@[i as int]@);
            assert(all.skip(1).take(i as int).drop_last() =~= all.skip(1).take(i - 1));
            assert(all.skip(1).take(i as int).last() == line);
            lemma_pieces_short(line, ';');
        }
        let cols = split(rows[i].as_slice(), ';');
        let ghost cut = pieces(line, ';');
        proof {
            assert(cols@.len() == cut.len());
            assert forall|k: int| 0 <= k < cols@.len() implies (#[trigger] cols@[k])@.len()
                < TEXT_LIMIT by {
                assert(views(cols@)[k] == cols@[k]@);
                assert(cut[k].len() <= line.len());
            }
        }
        if cols.len() >= 18 {
            proof {
                assert(views(cols@)[0] == cols@[0]@);
            }
            let name = trim(cols[0].as_slice());
            if name.len() > 0 {
                let record = read_record(&cols);
                db.insert(text_of(name), record);
            }
        }
        i = i + 1;
    }
    proof {
        if rows.len() > 0 {
            assert(all.skip(1).take(i - 1) =~= all.skip(1));
        }
    }
    db
}

/// Adds the aliases in the lines of `text` behind its header.
fn add_aliases(db: &mut FmDb, text: &str)
    ensures
        final(db)@ == aliased(old(db)@, body_lines(text@)),
{
    let ghost start = db@;
    let rows = lines(chars_of(text).as_slice());
    let ghost all = lines_of(text@);
    proof {
        assert(all.skip(1).take(0) =~= seq![]);
    }
    let mut i: usize = 1;
    while i < rows.len()
        invariant
            1 <= i,
            i <= rows.len() || i == 1,
            views(rows@) == all,
            rows@.len() == all.len(),
            db@ == aliased(start, all.skip(1).take(i - 1)) || rows.len() == 0,
            rows.len() == 0 ==> db@ == start,
        decreases rows.len() - i,
    {
        let ghost line = all[i as int];
        proof {
            assert(views(rows@)[i as int] == rows@[i as int]@);
            assert(all.skip(1).take(i as int).drop_last() =~= all.skip(1).take(i - 1));
            assert(all.skip(1).take(i as int).last() == line);
        }
        let cols = split(rows[i].as_slice(), ';');
        proof {
            assert(cols@.len() == pieces(line, ';').len());
        }
        if cols.len() >= 2 {
            proof {
                assert(views(cols@)[0] == cols@[0]@);
                assert(views(cols@)[1] == cols@[1]@);
            }
            let unit = trim(cols[0].as_slice());
            let model = trim(cols[1].as_slice());
            if unit.len() > 0 && !same_chars(unit, model) {
                let unit_name = text_of(unit);
                let found: Option<FmRecord> = match db.get(text_of(model).as_str()) {
                    Some(record) => Some(*record),
                    None => None,
                };
                if let Some(record) = found {
                    if !db.contains_key(unit_name.as_str()) {
                        db.insert(unit_name, record);
                    }
                }
            }
        }
        i = i + 1;
    }
    proof {
        if rows.len() > 0 {
            assert(all.skip(1).take(i - 1) =~= all.skip(1));
        }
    }
}

/// The database in the texts of `fm_data_db.csv` and `fm_names_db.csv`, each
/// absent where the file could not be read. Without data there is no database.
pub fn load_fm_db(data: Option<&str>, names: Option<&str>) -> (db: FmDb)
    requires
        data is Some ==> data->0@.len() < TEXT_LIMIT,
    ensures
        db@ == database(
            match data {
                Some(d) => Some(d@),
                None => None,
            },
            match names {
                Some(n) => Some(n@),
                None => None,
            },
        ),
{
    match data {
        None => Table::new(),
        Some(d) => {
            let mut db = read_records(d);
            if let Some(n) = names {
                add_aliases(&mut db, n);
            }
            db
        },
    }
}

/// The speed limit of the flaps at `pct` percent, where it is known.
pub open spec fn flaps_limit(pct: u64, rec: FmRecord) -> Option<Num> {
    let ratio: u64 = quotient(pct, HUNDRED);
    if at_most(pct, 0) || rec.landingflaps_crit_speed is None {
        None
    } else if rec.combat_flaps_ratio is Some && rec.combatflaps_crit_speed is Some && at_most(
        ratio,
        rec.combat_flaps_ratio->0.bits,
    ) {
        rec.combatflaps_crit_speed
    } else if rec.takeoff_flaps_ratio is Some && rec.takeoffflaps_crit_speed is Some && at_most(
        ratio,
        rec.takeoff_flaps_ratio->0.bits,
    ) {
        rec.takeoffflaps_crit_speed
    } else {
        rec.landingflaps_crit_speed
    }
}

/// The speed limit (km/h) of the flaps at their current extension in percent:
/// that of the first named position whose ratio is not exceeded, or that of
/// landing. There is none with the flaps up, and none without a limit for
/// landing.
pub fn compute_named_flaps_current(flaps_pct: Num, rec: &FmRecord) -> (r: Option<Num>)
    ensures
        r == flaps_limit(flaps_pct.bits, *rec),
{
    if flaps_pct.le(Num { bits: 0 }) || rec.landingflaps_crit_speed.is_none() {
        return None;
    }
    let ratio = flaps_pct.over(Num { bits: HUNDRED });
    if let (Some(bound), Some(speed)) = (rec.combat_flaps_ratio, rec.combatflaps_crit_speed) {
        if ratio.le(bound) {
            return Some(speed);
        }
    }
    if let (Some(bound), Some(speed)) = (rec.takeoff_flaps_ratio, rec.takeoffflaps_crit_speed) {
        if ratio.le(bound) {
            return Some(speed);
        }
    }
    rec.landingflaps_crit_speed
}

/// `frame` with `v` at `key`, where it is known.
pub open spec fn with_known(frame: Map<Seq<char>, Num>, key: Seq<char>, v: Option<Num>) -> Map<
    Seq<char>,
    Num,
> {
    match v {
        Some(n) => frame.insert(key, n),
        None => frame,
    }
}

/// `frame` with the fields of a record.
pub open spec fn with_record(frame: Map<Seq<char>, Num>, rec: FmRecord) -> Map<Seq<char>, Num> {
    let m01: Map<Seq<char>, Num> = with_known(frame, "fm_crit_ias"@, rec.crit_ias_kmh);
    let m02: Map<Seq<char>, Num> = with_known(m01, "fm_crit_mach"@, rec.crit_mach);
    let m03: Map<Seq<char>, Num> = with_known(m02, "fm_crit_gear_spd"@, rec.crit_gear_kmh);
    let m04: Map<Seq<char>, Num> = with_known(m03, "fm_crit_flaps_spd"@, rec.crit_flaps_min_kmh);
    let m05: Map<Seq<char>, Num> = with_known(
        m04,
        "fm_crit_flaps_combat_spd"@,
        rec.crit_flaps_combat_kmh,
    );
    let m06: Map<Seq<char>, Num> = with_known(m05, "fm_max_fuel_kg"@, rec.max_fuel_kg);
    let m07: Map<Seq<char>, Num> = with_known(m06, "fm_rpm_normal"@, rec.rpm_normal);
    let m08: Map<Seq<char>, Num> = with_known(m07, "fm_rpm_max"@, rec.rpm_max);
    let m09: Map<Seq<char>, Num> = with_known(m08, "fm_crit_aoa_pos"@, rec.crit_aoa_pos);
    let m10: Map<Seq<char>, Num> = with_known(m09, "fm_crit_aoa_neg"@, rec.crit_aoa_neg);
    let m11: Map<Seq<char>, Num> = with_known(m10, "fm_num_engines"@, rec.num_engines);
    let m12: Map<Seq<char>, Num> = with_known(m11, "fm_empty_mass_kg"@, rec.empty_mass_kg);
    let m13: Map<Seq<char>, Num> = with_known(
        m12,
        "fm_crit_wing_overload_pos"@,
        rec.crit_wing_overload_pos,
    );
    let m14: Map<Seq<char>, Num> = with_known(
        m13,
        "fm_crit_wing_overload_neg"@,
        rec.crit_wing_overload_neg,
    );
    let m15: Map<Seq<char>, Num> = with_known(
        m14,
        "fm_combatflaps_crit_speed"@,
        rec.combatflaps_crit_speed,
    );
    let m16: Map<Seq<char>, Num> = with_known(
        m15,
        "fm_takeoffflaps_crit_speed"@,
        rec.takeoffflaps_crit_speed,
    );
    with_known(m16, "fm_landingflaps_crit_speed"@, rec.landingflaps_crit_speed)
}

/// Sets the number at `key`, where it is known.
fn put_known(frame: &mut RawFrame, key: &str, v: Option<Num>)
    ensures
        final(frame)@ == with_known(old(frame)@, key@, v),
{
    if let Some(n) = v {
        frame.put(key, n);
    }
}

/// Adds the fields of a record to `frame`.
pub fn inject_fm_fields(frame: &mut RawFrame, rec: &FmRecord)
    ensures
        final(frame)@ == with_record(old(frame)@, *rec),
{
    put_known(frame, "fm_crit_ias", rec.crit_ias_kmh);
    put_known(frame, "fm_crit_mach", rec.crit_mach);
    put_known(frame, "fm_crit_gear_spd", rec.crit_gear_kmh);
    put_known(frame, "fm_crit_flaps_spd", rec.crit_flaps_min_kmh);
    put_known(frame, "fm_crit_flaps_combat_spd", rec.crit_flaps_combat_kmh);
    put_known(frame, "fm_max_fuel_kg", rec.max_fuel_kg);
    put_known(frame, "fm_rpm_normal", rec.rpm_normal);
    put_known(frame, "fm_rpm_max", rec.rpm_max);
    put_known(frame, "fm_crit_aoa_pos", rec.crit_aoa_pos);
    put_known(frame, "fm_crit_aoa_neg", rec.crit_aoa_neg);
    put_known(frame, "fm_num_engines", rec.num_engines);
    put_known(frame, "fm_empty_mass_kg", rec.empty_mass_kg);
    put_known(frame, "fm_crit_wing_overload_pos", rec.crit_wing_overload_pos);
    put_known(frame, "fm_crit_wing_overload_neg", rec.crit_wing_overload_neg);
    put_known(frame, "fm_combatflaps_crit_speed", rec.combatflaps_crit_speed);
    put_known(frame, "fm_takeoffflaps_crit_speed", rec.takeoffflaps_crit_speed);
    put_known(frame, "fm_landingflaps_crit_speed", rec.landingflaps_crit_speed);
}

/// Whether the ratios of `s` ascend.
pub open spec fn ascending(s: Seq<(Num, Num)>) -> bool {
    forall|i: int, j: int|
        0 <= i < j < s.len() ==> !less(#[trigger] s[j].0.bits, #[trigger] s[i].0.bits)
}

/// Whether the ratio of every pair is a number.
pub open spec fn numeric(s: Seq<(Num, Num)>) -> bool {
    forall|i: int| 0 <= i < s.len() ==> !nan((#[trigger] s[i]).0.bits)
}

/// Placing a pair keeps the order and loses nothing.
proof fn lemma_placed(s: Seq<(Num, Num)>, e: (Num, Num))
    requires
        ascending(s),
        numeric(s),
        !nan(e.0.bits),
    ensures
        ascending(placed(s, e)),
        numeric(placed(s, e)),
        placed(s, e).to_multiset() == s.to_multiset().insert(e),
        placed(s, e).len() == s.len() + 1,
        forall|i: int|
            0 <= i < placed(s, e).len() ==> placed(s, e)[i] == e || s.contains(
                #[trigger] placed(s, e)[i],
            ),
    decreases s.len(),
{
    broadcast use vstd::seq_lib::group_to_multiset_ensures;

    if s.len() == 0 || !less(e.0.bits, s.last().0.bits) {
        let p: Seq<(Num, Num)> = s.push(e);
        assert forall|i: int, j: int| 0 <= i < j < p.len() implies !less(
            #[trigger] p[j].0.bits,
            #[trigger] p[i].0.bits,
        ) by {
            if j == s.len() && i < s.len() - 1 {
                assert(!less(s.last().0.bits, s[i].0.bits));
            }
        }
    } else {
        let t: Seq<(Num, Num)> = s.drop_last();
        let last: (Num, Num) = s.last();
        lemma_placed(t, e);
        let q: Seq<(Num, Num)> = placed(t, e);
        let p: Seq<(Num, Num)> = q.push(last);
        assert forall|i: int| 0 <= i < p.len() implies p[i] == e || s.contains(
            #[trigger] p[i],
        ) by {
            if i < q.len() {
                assert(p[i] == q[i]);
                if q[i] != e {
                    let k: int = choose|k: int| 0 <= k < t.len() && t[k] == q[i];
                    assert(s[k] == q[i]);
                }
            } else {
                assert(s[s.len() - 1] == last);
            }
        }
        assert forall|i: int, j: int| 0 <= i < j < p.len() implies !less(
            #[trigger] p[j].0.bits,
            #[trigger] p[i].0.bits,
        ) by {
            if j == q.len() {
                if q[i] != e {
                    let k: int = choose|k: int| 0 <= k < t.len() && t[k] == q[i];
                    assert(s[k] == q[i]);
                    assert(!less(s[s.len() - 1].0.bits, s[k].0.bits));
                }
            }
        }
        assert(s =~= t.push(last));
        assert(p.to_multiset() =~= s.to_multiset().insert(e));
    }
}

/// Sorting the flap limits orders them by ratio and loses none of them.
pub proof fn lemma_by_ratio(s: Seq<(Num, Num)>)
    requires
        numeric(s),
    ensures
        ascending(by_ratio(s)),
        numeric(by_ratio(s)),
        by_ratio(s).to_multiset() == s.to_multiset(),
    decreases s.len(),
{
    broadcast use vstd::seq_lib::group_to_multiset_ensures;

    if s.len() > 0 {
        lemma_by_ratio(s.drop_last());
        lemma_placed(by_ratio(s.drop_last()), s.last());
        assert(s =~= s.drop_last().push(s.last()));
    }
}

/// The ratios that are sorted are numbers.
pub proof fn lemma_extended_numeric(v: Seq<Num>, k: nat)
    ensures
        numeric(extended_pairs(v, k)),
    decreases k,
{
    if k > 0 {
        lemma_extended_numeric(v, (k - 1) as nat);
    }
}

/// An alias never replaces a record.
pub proof fn lemma_aliases_keep_records(
    db: Map<Seq<char>, FmRecord>,
    rows: Seq<Seq<char>>,
    name: Seq<char>,
)
    requires
        db.contains_key(name),
    ensures
        aliased(db, rows).contains_key(name),
        aliased(db, rows)[name] == db[name],
    decreases rows.len(),
{
    if rows.len() > 0 {
        lemma_aliases_keep_records(db, rows.drop_last(), name);
    }
}

/// A unit whose flight model has a record has a record after its line.
pub proof fn lemma_alias_resolves(
    db: Map<Seq<char>, FmRecord>,
    rows: Seq<Seq<char>>,
    i: int,
)
    requires
        0 <= i < rows.len(),
        alias_row(rows[i]) is Some,
        db.contains_key((alias_row(rows[i])->0).1),
    ensures
        aliased(db, rows).contains_key((alias_row(rows[i])->0).0),
    decreases rows.len(),
{
    let (unit, model) = alias_row(rows[i])->0;
    if i == rows.len() - 1 {
        lemma_aliases_keep_records(db, rows.drop_last(), model);
    } else {
        assert(rows.drop_last()[i] == rows[i]);
        lemma_alias_resolves(db, rows.drop_last(), i);
    }
}

/// There is no limit exactly with the flaps up or without a limit for landing,
/// and any limit is one of the record's.
pub proof fn lemma_flaps_limit(pct: u64, rec: FmRecord)
    ensures
        flaps_limit(pct, rec) is None <==> at_most(pct, 0) || rec.landingflaps_crit_speed is None,
        flaps_limit(pct, rec) is Some ==> {
            ||| flaps_limit(pct, rec) == rec.combatflaps_crit_speed
            ||| flaps_limit(pct, rec) == rec.takeoffflaps_crit_speed
            ||| flaps_limit(pct, rec) == rec.landingflaps_crit_speed
        },
{
}

/// The names of the limits begin with `fm_`.
proof fn lemma_limit_names()
    ensures
        begins("fm_crit_ias"@, "fm_"@),
        begins("fm_crit_mach"@, "fm_"@),
        begins("fm_crit_gear_spd"@, "fm_"@),
        begins("fm_crit_flaps_spd"@, "fm_"@),
        begins("fm_crit_flaps_combat_spd"@, "fm_"@),
        begins("fm_max_fuel_kg"@, "fm_"@),
        begins("fm_rpm_normal"@, "fm_"@),
        begins("fm_rpm_max"@, "fm_"@),
        begins("fm_crit_aoa_pos"@, "fm_"@),
        begins("fm_crit_aoa_neg"@, "fm_"@),
        begins("fm_num_engines"@, "fm_"@),
        begins("fm_empty_mass_kg"@, "fm_"@),
        begins("fm_crit_wing_overload_pos"@, "fm_"@),
        begins("fm_crit_wing_overload_neg"@, "fm_"@),
        begins("fm_combatflaps_crit_speed"@, "fm_"@),
        begins("fm_takeoffflaps_crit_speed"@, "fm_"@),
        begins("fm_landingflaps_crit_speed"@, "fm_"@),
{
    reveal_strlit("fm_");
    assert(begins("fm_crit_ias"@, "fm_"@)) by {
        reveal_strlit("fm_crit_ias");
        assert("fm_crit_ias"@.take(3) =~= "fm_"@);
    }
    assert(begins("fm_crit_mach"@, "fm_"@)) by {
        reveal_strlit("fm_crit_mach");
        assert("fm_crit_mach"@.take(3) =~= "fm_"@);
    }
    assert(begins("fm_crit_gear_spd"@, "fm_"@)) by {
        reveal_strlit("fm_crit_gear_spd");
        assert("fm_crit_gear_spd"@.take(3) =~= "fm_"@);
    }
    assert(begins("fm_crit_flaps_spd"@, "fm_"@)) by {
        reveal_strlit("fm_crit_flaps_spd");
        assert("fm_crit_flaps_spd"@.take(3) =~= "fm_"@);
    }
    assert(begins("fm_crit_flaps_combat_spd"@, "fm_"@)) by {
        reveal_strlit("fm_crit_flaps_combat_spd");
        assert("fm_crit_flaps_combat_spd"@.take(3) =~= "fm_"@);
    }
    assert(begins("fm_max_fuel_kg"@, "fm_"@)) by {
        reveal_strlit("fm_max_fuel_kg");
        assert("fm_max_fuel_kg"@.take(3) =~= "fm_"@);
    }
    assert(begins("fm_rpm_normal"@, "fm_"@)) by {
        reveal_strlit("fm_rpm_normal");
        assert("fm_rpm_normal"@.take(3) =~= "fm_"@);
    }
    assert(begins("fm_rpm_max"@, "fm_"@)) by {
        reveal_strlit("fm_rpm_max");
        assert("fm_rpm_max"@.take(3) =~= "fm_"@);
    }
    assert(begins("fm_crit_aoa_pos"@, "fm_"@)) by {
        reveal_strlit("fm_crit_aoa_pos");
        assert("fm_crit_aoa_pos"@.take(3) =~= "fm_"@);
    }
    assert(begins("fm_crit_aoa_neg"@, "fm_"@)) by {
        reveal_strlit("fm_crit_aoa_neg");
        assert("fm_crit_aoa_neg"@.take(3) =~= "fm_"@);
    }
    assert(begins("fm_num_engines"@, "fm_"@)) by {
        reveal_strlit("fm_num_engines");
        assert("fm_num_engines"@.take(3) =~= "fm_"@);
    }
    assert(begins("fm_empty_mass_kg"@, "fm_"@)) by {
        reveal_strlit("fm_empty_mass_kg");
        assert("fm_empty_mass_kg"@.take(3) =~= "fm_"@);
    }
    assert(begins("fm_crit_wing_overload_pos"@, "fm_"@)) by {
        reveal_strlit("fm_crit_wing_overload_pos");
        assert("fm_crit_wing_overload_pos"@.take(3) =~= "fm_"@);
    }
    assert(begins("fm_crit_wing_overload_neg"@, "fm_"@)) by {
        reveal_strlit("fm_crit_wing_overload_neg");
        assert("fm_crit_wing_overload_neg"@.take(3) =~= "fm_"@);
    }
    assert(begins("fm_combatflaps_crit_speed"@, "fm_"@)) by {
        reveal_strlit("fm_combatflaps_crit_speed");
        assert("fm_combatflaps_crit_speed"@.take(3) =~= "fm_"@);
    }
    assert(begins("fm_takeoffflaps_crit_speed"@, "fm_"@)) by {
        reveal_strlit("fm_takeoffflaps_crit_speed");
        assert("fm_takeoffflaps_crit_speed"@.take(3) =~= "fm_"@);
    }
    assert(begins("fm_landingflaps_crit_speed"@, "fm_"@)) by {
        reveal_strlit("fm_landingflaps_crit_speed");
        assert("fm_landingflaps_crit_speed"@.take(3) =~= "fm_"@);
    }
}

/// A limit leaves the fields alone whose names do not begin as its own does.
proof fn lemma_limit_is_named(
    frame: Map<Seq<char>, Num>,
    name: Seq<char>,
    v: Option<Num>,
    key: Seq<char>,
)
    requires
        begins(name, "fm_"@),
        !begins(key, "fm_"@),
    ensures
        with_known(frame, name, v).contains_key(key) == frame.contains_key(key),
        frame.contains_key(key) ==> with_known(frame, name, v)[key] == frame[key],
{
}

/// The limits of a vehicle all have names that begin with `fm_`; every other
/// field of the frame stays as it is.
pub proof fn lemma_limits_are_named(frame: Map<Seq<char>, Num>, rec: FmRecord, key: Seq<char>)
    requires
        !begins(key, "fm_"@),
    ensures
        with_record(frame, rec).contains_key(key) == frame.contains_key(key),
        frame.contains_key(key) ==> with_record(frame, rec)[key] == frame[key],
{
    lemma_limit_names();
    lemma_limit_is_named(frame, "fm_crit_ias"@, rec.crit_ias_kmh, key);
    let m01 = with_known(frame, "fm_crit_ias"@, rec.crit_ias_kmh);
    lemma_limit_is_named(m01, "fm_crit_mach"@, rec.crit_mach, key);
    let m02 = with_known(m01, "fm_crit_mach"@, rec.crit_mach);
    lemma_limit_is_named(m02, "fm_crit_gear_spd"@, rec.crit_gear_kmh, key);
    let m03 = with_known(m02, "fm_crit_gear_spd"@, rec.crit_gear_kmh);
    lemma_limit_is_named(m03, "fm_crit_flaps_spd"@, rec.crit_flaps_min_kmh, key);
    let m04 = with_known(m03, "fm_crit_flaps_spd"@, rec.crit_flaps_min_kmh);
    lemma_limit_is_named(m04, "fm_crit_flaps_combat_spd"@, rec.crit_flaps_combat_kmh, key);
    let m05 = with_known(m04, "fm_crit_flaps_combat_spd"@, rec.crit_flaps_combat_kmh);
    lemma_limit_is_named(m05, "fm_max_fuel_kg"@, rec.max_fuel_kg, key);
    let m06 = with_known(m05, "fm_max_fuel_kg"@, rec.max_fuel_kg);
    lemma_limit_is_named(m06, "fm_rpm_normal"@, rec.rpm_normal, key);
    let m07 = with_known(m06, "fm_rpm_normal"@, rec.rpm_normal);
    lemma_limit_is_named(m07, "fm_rpm_max"@, rec.rpm_max, key);
    let m08 = with_known(m07, "fm_rpm_max"@, rec.rpm_max);
    lemma_limit_is_named(m08, "fm_crit_aoa_pos"@, rec.crit_aoa_pos, key);
    let m09 = with_known(m08, "fm_crit_aoa_pos"@, rec.crit_aoa_pos);
    lemma_limit_is_named(m09, "fm_crit_aoa_neg"@, rec.crit_aoa_neg, key);
    let m10 = with_known(m09, "fm_crit_aoa_neg"@, rec.crit_aoa_neg);
    lemma_limit_is_named(m10, "fm_num_engines"@, rec.num_engines, key);
    let m11 = with_known(m10, "fm_num_engines"@, rec.num_engines);
    lemma_limit_is_named(m11, "fm_empty_mass_kg"@, rec.empty_mass_kg, key);
    let m12 = with_known(m11, "fm_empty_mass_kg"@, rec.empty_mass_kg);
    lemma_limit_is_named(m12, "fm_crit_wing_overload_pos"@, rec.crit_wing_overload_pos, key);
    let m13 = with_known(m12, "fm_crit_wing_overload_pos"@, rec.crit_wing_overload_pos);
    lemma_limit_is_named(m13, "fm_crit_wing_overload_neg"@, rec.crit_wing_overload_neg, key);
    let m14 = with_known(m13, "fm_crit_wing_overload_neg"@, rec.crit_wing_overload_neg);
    lemma_limit_is_named(m14, "fm_combatflaps_crit_speed"@, rec.combatflaps_crit_speed, key);
    let m15 = with_known(m14, "fm_combatflaps_crit_speed"@, rec.combatflaps_crit_speed);
    lemma_limit_is_named(m15, "fm_takeoffflaps_crit_speed"@, rec.takeoffflaps_crit_speed, key);
    let m16 = with_known(m15, "fm_takeoffflaps_crit_speed"@, rec.takeoffflaps_crit_speed);
    lemma_limit_is_named(m16, "fm_landingflaps_crit_speed"@, rec.landingflaps_crit_speed, key);
}

/// The field at `key` of a frame.
pub open spec fn field_of(frame: Map<Seq<char>, Num>, key: Seq<char>) -> Option<Num> {
    if frame.contains_key(key) {
        Some(frame[key])
    } else {
        None
    }
}

/// `v`, or else `other`.
pub open spec fn known_or(v: Option<Num>, other: Option<Num>) -> Option<Num> {
    if v is Some {
        v
    } else {
        other
    }
}

/// The names of the limits differ from each other.
proof fn lemma_limit_names_differ()
    ensures
        "fm_crit_ias"@ != "fm_crit_mach"@,
        "fm_crit_ias"@ != "fm_crit_gear_spd"@,
        "fm_crit_ias"@ != "fm_crit_flaps_spd"@,
        "fm_crit_ias"@ != "fm_crit_flaps_combat_spd"@,
        "fm_crit_ias"@ != "fm_max_fuel_kg"@,
        "fm_crit_ias"@ != "fm_rpm_normal"@,
        "fm_crit_ias"@ != "fm_rpm_max"@,
        "fm_crit_ias"@ != "fm_crit_aoa_pos"@,
        "fm_crit_ias"@ != "fm_crit_aoa_neg"@,
        "fm_crit_ias"@ != "fm_num_engines"@,
        "fm_crit_ias"@ != "fm_empty_mass_kg"@,
        "fm_crit_ias"@ != "fm_crit_wing_overload_pos"@,
        "fm_crit_ias"@ != "fm_crit_wing_overload_neg"@,
        "fm_crit_ias"@ != "fm_combatflaps_crit_speed"@,
        "fm_crit_ias"@ != "fm_takeoffflaps_crit_speed"@,
        "fm_crit_ias"@ != "fm_landingflaps_crit_speed"@,
        "fm_crit_mach"@ != "fm_crit_gear_spd"@,
        "fm_crit_mach"@ != "fm_crit_flaps_spd"@,
        "fm_crit_mach"@ != "fm_crit_flaps_combat_spd"@,
        "fm_crit_mach"@ != "fm_max_fuel_kg"@,
        "fm_crit_mach"@ != "fm_rpm_normal"@,
        "fm_crit_mach"@ != "fm_rpm_max"@,
        "fm_crit_mach"@ != "fm_crit_aoa_pos"@,
        "fm_crit_mach"@ != "fm_crit_aoa_neg"@,
        "fm_crit_mach"@ != "fm_num_engines"@,
        "fm_crit_mach"@ != "fm_empty_mass_kg"@,
        "fm_crit_mach"@ != "fm_crit_wing_overload_pos"@,
        "fm_crit_mach"@ != "fm_crit_wing_overload_neg"@,
        "fm_crit_mach"@ != "fm_combatflaps_crit_speed"@,
        "fm_crit_mach"@ != "fm_takeoffflaps_crit_speed"@,
        "fm_crit_mach"@ != "fm_landingflaps_crit_speed"@,
        "fm_crit_gear_spd"@ != "fm_crit_flaps_spd"@,
        "fm_crit_gear_spd"@ != "fm_crit_flaps_combat_spd"@,
        "fm_crit_gear_spd"@ != "fm_max_fuel_kg"@,
        "fm_crit_gear_spd"@ != "fm_rpm_normal"@,
        "fm_crit_gear_spd"@ != "fm_rpm_max"@,
        "fm_crit_gear_spd"@ != "fm_crit_aoa_pos"@,
        "fm_crit_gear_spd"@ != "fm_crit_aoa_neg"@,
        "fm_crit_gear_spd"@ != "fm_num_engines"@,
        "fm_crit_gear_spd"@ != "fm_empty_mass_kg"@,
        "fm_crit_gear_spd"@ != "fm_crit_wing_overload_pos"@,
        "fm_crit_gear_spd"@ != "fm_crit_wing_overload_neg"@,
        "fm_crit_gear_spd"@ != "fm_combatflaps_crit_speed"@,
        "fm_crit_gear_spd"@ != "fm_takeoffflaps_crit_speed"@,
        "fm_crit_gear_spd"@ != "fm_landingflaps_crit_speed"@,
        "fm_crit_flaps_spd"@ != "fm_crit_flaps_combat_spd"@,
        "fm_crit_flaps_spd"@ != "fm_max_fuel_kg"@,
        "fm_crit_flaps_spd"@ != "fm_rpm_normal"@,
        "fm_crit_flaps_spd"@ != "fm_rpm_max"@,
        "fm_crit_flaps_spd"@ != "fm_crit_aoa_pos"@,
        "fm_crit_flaps_spd"@ != "fm_crit_aoa_neg"@,
        "fm_crit_flaps_spd"@ != "fm_num_engines"@,
        "fm_crit_flaps_spd"@ != "fm_empty_mass_kg"@,
        "fm_crit_flaps_spd"@ != "fm_crit_wing_overload_pos"@,
        "fm_crit_flaps_spd"@ != "fm_crit_wing_overload_neg"@,
        "fm_crit_flaps_spd"@ != "fm_combatflaps_crit_speed"@,
        "fm_crit_flaps_spd"@ != "fm_takeoffflaps_crit_speed"@,
        "fm_crit_flaps_spd"@ != "fm_landingflaps_crit_speed"@,
        "fm_crit_flaps_combat_spd"@ != "fm_max_fuel_kg"@,
        "fm_crit_flaps_combat_spd"@ != "fm_rpm_normal"@,
        "fm_crit_flaps_combat_spd"@ != "fm_rpm_max"@,
        "fm_crit_flaps_combat_spd"@ != "fm_crit_aoa_pos"@,
        "fm_crit_flaps_combat_spd"@ != "fm_crit_aoa_neg"@,
        "fm_crit_flaps_combat_spd"@ != "fm_num_engines"@,
        "fm_crit_flaps_combat_spd"@ != "fm_empty_mass_kg"@,
        "fm_crit_flaps_combat_spd"@ != "fm_crit_wing_overload_pos"@,
        "fm_crit_flaps_combat_spd"@ != "fm_crit_wing_overload_neg"@,
        "fm_crit_flaps_combat_spd"@ != "fm_combatflaps_crit_speed"@,
        "fm_crit_flaps_combat_spd"@ != "fm_takeoffflaps_crit_speed"@,
        "fm_crit_flaps_combat_spd"@ != "fm_landingflaps_crit_speed"@,
        "fm_max_fuel_kg"@ != "fm_rpm_normal"@,
        "fm_max_fuel_kg"@ != "fm_rpm_max"@,
        "fm_max_fuel_kg"@ != "fm_crit_aoa_pos"@,
        "fm_max_fuel_kg"@ != "fm_crit_aoa_neg"@,
        "fm_max_fuel_kg"@ != "fm_num_engines"@,
        "fm_max_fuel_kg"@ != "fm_empty_mass_kg"@,
        "fm_max_fuel_kg"@ != "fm_crit_wing_overload_pos"@,
        "fm_max_fuel_kg"@ != "fm_crit_wing_overload_neg"@,
        "fm_max_fuel_kg"@ != "fm_combatflaps_crit_speed"@,
        "fm_max_fuel_kg"@ != "fm_takeoffflaps_crit_speed"@,
        "fm_max_fuel_kg"@ != "fm_landingflaps_crit_speed"@,
        "fm_rpm_normal"@ != "fm_rpm_max"@,
        "fm_rpm_normal"@ != "fm_crit_aoa_pos"@,
        "fm_rpm_normal"@ != "fm_crit_aoa_neg"@,
        "fm_rpm_normal"@ != "fm_num_engines"@,
        "fm_rpm_normal"@ != "fm_empty_mass_kg"@,
        "fm_rpm_normal"@ != "fm_crit_wing_overload_pos"@,
        "fm_rpm_normal"@ != "fm_crit_wing_overload_neg"@,
        "fm_rpm_normal"@ != "fm_combatflaps_crit_speed"@,
        "fm_rpm_normal"@ != "fm_takeoffflaps_crit_speed"@,
        "fm_rpm_normal"@ != "fm_landingflaps_crit_speed"@,
        "fm_rpm_max"@ != "fm_crit_aoa_pos"@,
        "fm_rpm_max"@ != "fm_crit_aoa_neg"@,
        "fm_rpm_max"@ != "fm_num_engines"@,
        "fm_rpm_max"@ != "fm_empty_mass_kg"@,
        "fm_rpm_max"@ != "fm_crit_wing_overload_pos"@,
        "fm_rpm_max"@ != "fm_crit_wing_overload_neg"@,
        "fm_rpm_max"@ != "fm_combatflaps_crit_speed"@,
        "fm_rpm_max"@ != "fm_takeoffflaps_crit_speed"@,
        "fm_rpm_max"@ != "fm_landingflaps_crit_speed"@,
        "fm_crit_aoa_pos"@ != "fm_crit_aoa_neg"@,
        "fm_crit_aoa_pos"@ != "fm_num_engines"@,
        "fm_crit_aoa_pos"@ != "fm_empty_mass_kg"@,
        "fm_crit_aoa_pos"@ != "fm_crit_wing_overload_pos"@,
        "fm_crit_aoa_pos"@ != "fm_crit_wing_overload_neg"@,
        "fm_crit_aoa_pos"@ != "fm_combatflaps_crit_speed"@,
        "fm_crit_aoa_pos"@ != "fm_takeoffflaps_crit_speed"@,
        "fm_crit_aoa_pos"@ != "fm_landingflaps_crit_speed"@,
        "fm_crit_aoa_neg"@ != "fm_num_engines"@,
        "fm_crit_aoa_neg"@ != "fm_empty_mass_kg"@,
        "fm_crit_aoa_neg"@ != "fm_crit_wing_overload_pos"@,
        "fm_crit_aoa_neg"@ != "fm_crit_wing_overload_neg"@,
        "fm_crit_aoa_neg"@ != "fm_combatflaps_crit_speed"@,
        "fm_crit_aoa_neg"@ != "fm_takeoffflaps_crit_speed"@,
        "fm_crit_aoa_neg"@ != "fm_landingflaps_crit_speed"@,
        "fm_num_engines"@ != "fm_empty_mass_kg"@,
        "fm_num_engines"@ != "fm_crit_wing_overload_pos"@,
        "fm_num_engines"@ != "fm_crit_wing_overload_neg"@,
        "fm_num_engines"@ != "fm_combatflaps_crit_speed"@,
        "fm_num_engines"@ != "fm_takeoffflaps_crit_speed"@,
        "fm_num_engines"@ != "fm_landingflaps_crit_speed"@,
        "fm_empty_mass_kg"@ != "fm_crit_wing_overload_pos"@,
        "fm_empty_mass_kg"@ != "fm_crit_wing_overload_neg"@,
        "fm_empty_mass_kg"@ != "fm_combatflaps_crit_speed"@,
        "fm_empty_mass_kg"@ != "fm_takeoffflaps_crit_speed"@,
        "fm_empty_mass_kg"@ != "fm_landingflaps_crit_speed"@,
        "fm_crit_wing_overload_pos"@ != "fm_crit_wing_overload_neg"@,
        "fm_crit_wing_overload_pos"@ != "fm_combatflaps_crit_speed"@,
        "fm_crit_wing_overload_pos"@ != "fm_takeoffflaps_crit_speed"@,
        "fm_crit_wing_overload_pos"@ != "fm_landingflaps_crit_speed"@,
        "fm_crit_wing_overload_neg"@ != "fm_combatflaps_crit_speed"@,
        "fm_crit_wing_overload_neg"@ != "fm_takeoffflaps_crit_speed"@,
        "fm_crit_wing_overload_neg"@ != "fm_landingflaps_crit_speed"@,
        "fm_combatflaps_crit_speed"@ != "fm_takeoffflaps_crit_speed"@,
        "fm_combatflaps_crit_speed"@ != "fm_landingflaps_crit_speed"@,
        "fm_takeoffflaps_crit_speed"@ != "fm_landingflaps_crit_speed"@,
{
    reveal_strlit("fm_crit_ias");
    reveal_strlit("fm_crit_mach");
    reveal_strlit("fm_crit_gear_spd");
    reveal_strlit("fm_crit_flaps_spd");
    reveal_strlit("fm_crit_flaps_combat_spd");
    reveal_strlit("fm_max_fuel_kg");
    reveal_strlit("fm_rpm_normal");
    reveal_strlit("fm_rpm_max");
    reveal_strlit("fm_crit_aoa_pos");
    reveal_strlit("fm_crit_aoa_neg");
    reveal_strlit("fm_num_engines");
    reveal_strlit("fm_empty_mass_kg");
    reveal_strlit("fm_crit_wing_overload_pos");
    reveal_strlit("fm_crit_wing_overload_neg");
    reveal_strlit("fm_combatflaps_crit_speed");
    reveal_strlit("fm_takeoffflaps_crit_speed");
    reveal_strlit("fm_landingflaps_crit_speed");
    assert("fm_crit_ias"@.len() == 11);
    assert("fm_crit_mach"@.len() == 12);
    assert("fm_crit_gear_spd"@.len() == 16);
    assert("fm_crit_flaps_spd"@.len() == 17);
    assert("fm_crit_flaps_combat_spd"@.len() == 24);
    assert("fm_max_fuel_kg"@.len() == 14);
    assert("fm_rpm_normal"@.len() == 13);
    assert("fm_rpm_max"@.len() == 10);
    assert("fm_crit_aoa_pos"@.len() == 15);
    assert("fm_crit_aoa_neg"@.len() == 15);
    assert("fm_num_engines"@.len() == 14);
    assert("fm_empty_mass_kg"@.len() == 16);
    assert("fm_crit_wing_overload_pos"@.len() == 25);
    assert("fm_crit_wing_overload_neg"@.len() == 25);
    assert("fm_combatflaps_crit_speed"@.len() == 25);
    assert("fm_takeoffflaps_crit_speed"@.len() == 26);
    assert("fm_landingflaps_crit_speed"@.len() == 26);
    assert("fm_crit_gear_spd"@[3] == 'c' && "fm_empty_mass_kg"@[3] == 'e');
    assert("fm_max_fuel_kg"@[3] == 'm' && "fm_num_engines"@[3] == 'n');
    assert("fm_crit_aoa_pos"@[12] == 'p' && "fm_crit_aoa_neg"@[12] == 'n');
    assert("fm_crit_wing_overload_pos"@[22] == 'p' && "fm_crit_wing_overload_neg"@[22] == 'n');
    assert("fm_crit_wing_overload_pos"@[4] == 'r' && "fm_combatflaps_crit_speed"@[4] == 'o');
    assert("fm_crit_wing_overload_neg"@[4] == 'r' && "fm_combatflaps_crit_speed"@[4] == 'o');
    assert("fm_takeoffflaps_crit_speed"@[3] == 't' && "fm_landingflaps_crit_speed"@[3] == 'l');
}

/// After the limits of a vehicle are put into a frame each field holds its own
/// limit where that is known, and else what it held before.
pub proof fn lemma_each_limit_in_its_field(frame: Map<Seq<char>, Num>, rec: FmRecord)
    ensures
        field_of(with_record(frame, rec), "fm_crit_ias"@) == known_or(
            rec.crit_ias_kmh,
            field_of(frame, "fm_crit_ias"@),
        ),
        field_of(with_record(frame, rec), "fm_crit_mach"@) == known_or(
            rec.crit_mach,
            field_of(frame, "fm_crit_mach"@),
        ),
        field_of(with_record(frame, rec), "fm_crit_gear_spd"@) == known_or(
            rec.crit_gear_kmh,
            field_of(frame, "fm_crit_gear_spd"@),
        ),
        field_of(with_record(frame, rec), "fm_crit_flaps_spd"@) == known_or(
            rec.crit_flaps_min_kmh,
            field_of(frame, "fm_crit_flaps_spd"@),
        ),
        field_of(with_record(frame, rec), "fm_crit_flaps_combat_spd"@) == known_or(
            rec.crit_flaps_combat_kmh,
            field_of(frame, "fm_crit_flaps_combat_spd"@),
        ),
        field_of(with_record(frame, rec), "fm_max_fuel_kg"@) == known_or(
            rec.max_fuel_kg,
            field_of(frame, "fm_max_fuel_kg"@),
        ),
        field_of(with_record(frame, rec), "fm_rpm_normal"@) == known_or(
            rec.rpm_normal,
            field_of(frame, "fm_rpm_normal"@),
        ),
        field_of(with_record(frame, rec), "fm_rpm_max"@) == known_or(
            rec.rpm_max,
            field_of(frame, "fm_rpm_max"@),
        ),
        field_of(with_record(frame, rec), "fm_crit_aoa_pos"@) == known_or(
            rec.crit_aoa_pos,
            field_of(frame, "fm_crit_aoa_pos"@),
        ),
        field_of(with_record(frame, rec), "fm_crit_aoa_neg"@) == known_or(
            rec.crit_aoa_neg,
            field_of(frame, "fm_crit_aoa_neg"@),
        ),
        field_of(with_record(frame, rec), "fm_num_engines"@) == known_or(
            rec.num_engines,
            field_of(frame, "fm_num_engines"@),
        ),
        field_of(with_record(frame, rec), "fm_empty_mass_kg"@) == known_or(
            rec.empty_mass_kg,
            field_of(frame, "fm_empty_mass_kg"@),
        ),
        field_of(with_record(frame, rec), "fm_crit_wing_overload_pos"@) == known_or(
            rec.crit_wing_overload_pos,
            field_of(frame, "fm_crit_wing_overload_pos"@),
        ),
        field_of(with_record(frame, rec), "fm_crit_wing_overload_neg"@) == known_or(
            rec.crit_wing_overload_neg,
            field_of(frame, "fm_crit_wing_overload_neg"@),
        ),
        field_of(with_record(frame, rec), "fm_combatflaps_crit_speed"@) == known_or(
            rec.combatflaps_crit_speed,
            field_of(frame, "fm_combatflaps_crit_speed"@),
        ),
        field_of(with_record(frame, rec), "fm_takeoffflaps_crit_speed"@) == known_or(
            rec.takeoffflaps_crit_speed,
            field_of(frame, "fm_takeoffflaps_crit_speed"@),
        ),
        field_of(with_record(frame, rec), "fm_landingflaps_crit_speed"@) == known_or(
            rec.landingflaps_crit_speed,
            field_of(frame, "fm_landingflaps_crit_speed"@),
        ),
{
    assert(field_of(with_record(frame, rec), "fm_crit_ias"@) == known_or(
        rec.crit_ias_kmh,
        field_of(frame, "fm_crit_ias"@),
    )) by {
        lemma_limit_names_differ();
        lemma_limit_path(frame, rec, "fm_crit_ias"@);
    }
    assert(field_of(with_record(frame, rec), "fm_crit_mach"@) == known_or(
        rec.crit_mach,
        field_of(frame, "fm_crit_mach"@),
    )) by {
        lemma_limit_names_differ();
        lemma_limit_path(frame, rec, "fm_crit_mach"@);
    }
    assert(field_of(with_record(frame, rec), "fm_crit_gear_spd"@) == known_or(
        rec.crit_gear_kmh,
        field_of(frame, "fm_crit_gear_spd"@),
    )) by {
        lemma_limit_names_differ();
        lemma_limit_path(frame, rec, "fm_crit_gear_spd"@);
    }
    assert(field_of(with_record(frame, rec), "fm_crit_flaps_spd"@) == known_or(
        rec.crit_flaps_min_kmh,
        field_of(frame, "fm_crit_flaps_spd"@),
    )) by {
        lemma_limit_names_differ();
        lemma_limit_path(frame, rec, "fm_crit_flaps_spd"@);
    }
    assert(field_of(with_record(frame, rec), "fm_crit_flaps_combat_spd"@) == known_or(
        rec.crit_flaps_combat_kmh,
        field_of(frame, "fm_crit_flaps_combat_spd"@),
    )) by {
        lemma_limit_names_differ();
        lemma_limit_path(frame, rec, "fm_crit_flaps_combat_spd"@);
    }
    assert(field_of(with_record(frame, rec), "fm_max_fuel_kg"@) == known_or(
        rec.max_fuel_kg,
        field_of(frame, "fm_max_fuel_kg"@),
    )) by {
        lemma_limit_names_differ();
        lemma_limit_path(frame, rec, "fm_max_fuel_kg"@);
    }
    assert(field_of(with_record(frame, rec), "fm_rpm_normal"@) == known_or(
        rec.rpm_normal,
        field_of(frame, "fm_rpm_normal"@),
    )) by {
        lemma_limit_names_differ();
        lemma_limit_path(frame, rec, "fm_rpm_normal"@);
    }
    assert(field_of(with_record(frame, rec), "fm_rpm_max"@) == known_or(
        rec.rpm_max,
        field_of(frame, "fm_rpm_max"@),
    )) by {
        lemma_limit_names_differ();
        lemma_limit_path(frame, rec, "fm_rpm_max"@);
    }
    assert(field_of(with_record(frame, rec), "fm_crit_aoa_pos"@) == known_or(
        rec.crit_aoa_pos,
        field_of(frame, "fm_crit_aoa_pos"@),
    )) by {
        lemma_limit_names_differ();
        lemma_limit_path(frame, rec, "fm_crit_aoa_pos"@);
    }
    assert(field_of(with_record(frame, rec), "fm_crit_aoa_neg"@) == known_or(
        rec.crit_aoa_neg,
        field_of(frame, "fm_crit_aoa_neg"@),
    )) by {
        lemma_limit_names_differ();
        lemma_limit_path(frame, rec, "fm_crit_aoa_neg"@);
    }
    assert(field_of(with_record(frame, rec), "fm_num_engines"@) == known_or(
        rec.num_engines,
        field_of(frame, "fm_num_engines"@),
    )) by {
        lemma_limit_names_differ();
        lemma_limit_path(frame, rec, "fm_num_engines"@);
    }
    assert(field_of(with_record(frame, rec), "fm_empty_mass_kg"@) == known_or(
        rec.empty_mass_kg,
        field_of(frame, "fm_empty_mass_kg"@),
    )) by {
        lemma_limit_names_differ();
        lemma_limit_path(frame, rec, "fm_empty_mass_kg"@);
    }
    assert(field_of(with_record(frame, rec), "fm_crit_wing_overload_pos"@) == known_or(
        rec.crit_wing_overload_pos,
        field_of(frame, "fm_crit_wing_overload_pos"@),
    )) by {
        lemma_limit_names_differ();
        lemma_limit_path(frame, rec, "fm_crit_wing_overload_pos"@);
    }
    assert(field_of(with_record(frame, rec), "fm_crit_wing_overload_neg"@) == known_or(
        rec.crit_wing_overload_neg,
        field_of(frame, "fm_crit_wing_overload_neg"@),
    )) by {
        lemma_limit_names_differ();
        lemma_limit_path(frame, rec, "fm_crit_wing_overload_neg"@);
    }
    assert(field_of(with_record(frame, rec), "fm_combatflaps_crit_speed"@) == known_or(
        rec.combatflaps_crit_speed,
        field_of(frame, "fm_combatflaps_crit_speed"@),
    )) by {
        lemma_limit_names_differ();
        lemma_limit_path(frame, rec, "fm_combatflaps_crit_speed"@);
    }
    assert(field_of(with_record(frame, rec), "fm_takeoffflaps_crit_speed"@) == known_or(
        rec.takeoffflaps_crit_speed,
        field_of(frame, "fm_takeoffflaps_crit_speed"@),
    )) by {
        lemma_limit_names_differ();
        lemma_limit_path(frame, rec, "fm_takeoffflaps_crit_speed"@);
    }
    assert(field_of(with_record(frame, rec), "fm_landingflaps_crit_speed"@) == known_or(
        rec.landingflaps_crit_speed,
        field_of(frame, "fm_landingflaps_crit_speed"@),
    )) by {
        lemma_limit_names_differ();
        lemma_limit_path(frame, rec, "fm_landingflaps_crit_speed"@);
    }
}

/// What a limit makes of the field at `key`, which held `r`.
spec fn after_limit(r: Option<Num>, name: Seq<char>, v: Option<Num>, key: Seq<char>) -> Option<Num> {
    if key == name {
        known_or(v, r)
    } else {
        r
    }
}

/// The field at `key` on its way through all limits.
proof fn lemma_limit_path(frame: Map<Seq<char>, Num>, rec: FmRecord, key: Seq<char>)
    ensures
        ({
            let r0 = field_of(frame, key);
            let r1 = after_limit(r0, "fm_crit_ias"@, rec.crit_ias_kmh, key);
            let r2 = after_limit(r1, "fm_crit_mach"@, rec.crit_mach, key);
            let r3 = after_limit(r2, "fm_crit_gear_spd"@, rec.crit_gear_kmh, key);
            let r4 = after_limit(r3, "fm_crit_flaps_spd"@, rec.crit_flaps_min_kmh, key);
            let r5 = after_limit(r4, "fm_crit_flaps_combat_spd"@, rec.crit_flaps_combat_kmh, key);
            let r6 = after_limit(r5, "fm_max_fuel_kg"@, rec.max_fuel_kg, key);
            let r7 = after_limit(r6, "fm_rpm_normal"@, rec.rpm_normal, key);
            let r8 = after_limit(r7, "fm_rpm_max"@, rec.rpm_max, key);
            let r9 = after_limit(r8, "fm_crit_aoa_pos"@, rec.crit_aoa_pos, key);
            let r10 = after_limit(r9, "fm_crit_aoa_neg"@, rec.crit_aoa_neg, key);
            let r11 = after_limit(r10, "fm_num_engines"@, rec.num_engines, key);
            let r12 = after_limit(r11, "fm_empty_mass_kg"@, rec.empty_mass_kg, key);
            let r13 = after_limit(r12, "fm_crit_wing_overload_pos"@, rec.crit_wing_overload_pos, key);
            let r14 = after_limit(r13, "fm_crit_wing_overload_neg"@, rec.crit_wing_overload_neg, key);
            let r15 = after_limit(r14, "fm_combatflaps_crit_speed"@, rec.combatflaps_crit_speed, key);
            let r16 = after_limit(r15, "fm_takeoffflaps_crit_speed"@, rec.takeoffflaps_crit_speed, key);
            let r17 = after_limit(r16, "fm_landingflaps_crit_speed"@, rec.landingflaps_crit_speed, key);
            field_of(with_record(frame, rec), key) == r17
        }),
{
    let m0 = frame;
    let m1 = with_known(m0, "fm_crit_ias"@, rec.crit_ias_kmh);
    lemma_limit_step(m0, "fm_crit_ias"@, rec.crit_ias_kmh, key);
    let m2 = with_known(m1, "fm_crit_mach"@, rec.crit_mach);
    lemma_limit_step(m1, "fm_crit_mach"@, rec.crit_mach, key);
    let m3 = with_known(m2, "fm_crit_gear_spd"@, rec.crit_gear_kmh);
    lemma_limit_step(m2, "fm_crit_gear_spd"@, rec.crit_gear_kmh, key);
    let m4 = with_known(m3, "fm_crit_flaps_spd"@, rec.crit_flaps_min_kmh);
    lemma_limit_step(m3, "fm_crit_flaps_spd"@, rec.crit_flaps_min_kmh, key);
    let m5 = with_known(m4, "fm_crit_flaps_combat_spd"@, rec.crit_flaps_combat_kmh);
    lemma_limit_step(m4, "fm_crit_flaps_combat_spd"@, rec.crit_flaps_combat_kmh, key);
    let m6 = with_known(m5, "fm_max_fuel_kg"@, rec.max_fuel_kg);
    lemma_limit_step(m5, "fm_max_fuel_kg"@, rec.max_fuel_kg, key);
    let m7 = with_known(m6, "fm_rpm_normal"@, rec.rpm_normal);
    lemma_limit_step(m6, "fm_rpm_normal"@, rec.rpm_normal, key);
    let m8 = with_known(m7, "fm_rpm_max"@, rec.rpm_max);
    lemma_limit_step(m7, "fm_rpm_max"@, rec.rpm_max, key);
    let m9 = with_known(m8, "fm_crit_aoa_pos"@, rec.crit_aoa_pos);
    lemma_limit_step(m8, "fm_crit_aoa_pos"@, rec.crit_aoa_pos, key);
    let m10 = with_known(m9, "fm_crit_aoa_neg"@, rec.crit_aoa_neg);
    lemma_limit_step(m9, "fm_crit_aoa_neg"@, rec.crit_aoa_neg, key);
    let m11 = with_known(m10, "fm_num_engines"@, rec.num_engines);
    lemma_limit_step(m10, "fm_num_engines"@, rec.num_engines, key);
    let m12 = with_known(m11, "fm_empty_mass_kg"@, rec.empty_mass_kg);
    lemma_limit_step(m11, "fm_empty_mass_kg"@, rec.empty_mass_kg, key);
    let m13 = with_known(m12, "fm_crit_wing_overload_pos"@, rec.crit_wing_overload_pos);
    lemma_limit_step(m12, "fm_crit_wing_overload_pos"@, rec.crit_wing_overload_pos, key);
    let m14 = with_known(m13, "fm_crit_wing_overload_neg"@, rec.crit_wing_overload_neg);
    lemma_limit_step(m13, "fm_crit_wing_overload_neg"@, rec.crit_wing_overload_neg, key);
    let m15 = with_known(m14, "fm_combatflaps_crit_speed"@, rec.combatflaps_crit_speed);
    lemma_limit_step(m14, "fm_combatflaps_crit_speed"@, rec.combatflaps_crit_speed, key);
    let m16 = with_known(m15, "fm_takeoffflaps_crit_speed"@, rec.takeoffflaps_crit_speed);
    lemma_limit_step(m15, "fm_takeoffflaps_crit_speed"@, rec.takeoffflaps_crit_speed, key);
    let m17 = with_known(m16, "fm_landingflaps_crit_speed"@, rec.landingflaps_crit_speed);
    lemma_limit_step(m16, "fm_landingflaps_crit_speed"@, rec.landingflaps_crit_speed, key);
}

/// One limit changes its own field alone.
proof fn lemma_limit_step(
    frame: Map<Seq<char>, Num>,
    name: Seq<char>,
    v: Option<Num>,
    key: Seq<char>,
)
    ensures
        field_of(with_known(frame, name, v), key) == after_limit(field_of(frame, key), name, v, key),
{
}

/// Each member of a record is read from its own column.
pub proof fn lemma_each_column_in_its_member(cols: Seq<Seq<char>>)
    ensures
        record_of(cols).empty_mass_kg == column_number(cols[4]),
        record_of(cols).max_fuel_kg == column_number(cols[5]),
        record_of(cols).crit_ias_kmh == column_number(cols[6]),
        record_of(cols).crit_mach == column_number(cols[7]),
        record_of(cols).crit_gear_kmh == column_number(cols[8]),
        record_of(cols).num_engines == column_number(cols[13]),
        ({
            let v: Seq<Num> = column_numbers(cols[12]);
            &&& record_of(cols).crit_wing_overload_neg == if v.len() > 0 {
                Some(v[0])
            } else {
                None
            }
            &&& record_of(cols).crit_wing_overload_pos == if v.len() > 1 {
                Some(v[1])
            } else {
                None
            }
        }),
        ({
            let v: Seq<Num> = column_numbers(cols[14]);
            &&& record_of(cols).rpm_normal == if v.len() > 1 {
                Some(v[1])
            } else {
                None
            }
            &&& record_of(cols).rpm_max == if v.len() > 2 {
                Some(v[2])
            } else {
                None
            }
        }),
        ({
            let v: Seq<Num> = column_numbers(cols[17]);
            &&& record_of(cols).crit_aoa_pos == if v.len() > 0 {
                Some(v[0])
            } else {
                None
            }
            &&& record_of(cols).crit_aoa_neg == if v.len() > 1 {
                Some(v[1])
            } else {
                None
            }
        }),
{
}

/// The number of a column is the one that its text spells, apart from the white
/// space around it.
pub proof fn lemma_column_is_its_number(col: Seq<char>)
    ensures
        column_number(col) is Some <==> number_in(trimmed(col)) is Some,
        column_number(col) is Some ==> column_number(col)->0.bits == number_in(trimmed(col))->0,
{
}

/// The numbers of a list keep their order, and what is no number is passed
/// over: a list that goes on has the numbers so far in front.
pub proof fn lemma_numbers_in_order(parts: Seq<Seq<char>>, one: Seq<char>)
    ensures
        numbers_among(Seq::<Seq<char>>::empty()).len() == 0,
        numbers_among(parts.push(one)) == match number_in(trimmed(one)) {
            Some(bits) => numbers_among(parts).push(Num { bits }),
            None => numbers_among(parts),
        },
{
    assert(parts.push(one).drop_last() =~= parts);
}

/// The flap limits of a vehicle are the pairs of its list with a ratio above
/// zero: each of them, and nothing else.
pub proof fn lemma_pairs_with_ratio(v: Seq<Num>, k: nat)
    requires
        2 * k <= v.len(),
    ensures
        forall|i: int|
            0 <= i < k && less(0, v[2 * i].bits) ==> extended_pairs(v, k).contains(
                (#[trigger] v[2 * i], v[2 * i + 1]),
            ),
        forall|p: (Num, Num)| #[trigger]
            extended_pairs(v, k).contains(p) ==> less(0, p.0.bits) && exists|i: int|
                0 <= i < k && p == (#[trigger] v[2 * i], v[2 * i + 1]),
        extended_pairs(v, k).len() <= k,
    decreases k,
{
    if k > 0 {
        let h: nat = (k - 1) as nat;
        lemma_pairs_with_ratio(v, h);
        let front = extended_pairs(v, h);
        let all = extended_pairs(v, k);
        let last: (Num, Num) = (v[2 * (k - 1)], v[2 * (k - 1) + 1]);
        assert forall|p: (Num, Num)| front.contains(p) implies all.contains(p) by {
            let j = front.index_of(p);
            assert(all[j] == p);
        }
        if less(0, last.0.bits) {
            assert(all[all.len() - 1] == last);
        }
        assert forall|i: int| 0 <= i < k && less(0, v[2 * i].bits) implies all.contains(
            (#[trigger] v[2 * i], v[2 * i + 1]),
        ) by {
            if i < h {
                assert(front.contains((v[2 * i], v[2 * i + 1])));
            }
        }
        assert forall|p: (Num, Num)| #[trigger] all.contains(p) implies less(0, p.0.bits) && exists|
            i: int,
        | 0 <= i < k && p == (#[trigger] v[2 * i], v[2 * i + 1]) by {
            let j = all.index_of(p);
            if j < front.len() {
                assert(front[j] == p);
                assert(front.contains(p));
                let i = choose|i: int| 0 <= i < h && p == (#[trigger] v[2 * i], v[2 * i + 1]);
                assert(p == (v[2 * i], v[2 * i + 1]));
            } else {
                assert(p == (v[2 * h as int], v[2 * h as int + 1]));
            }
        }
    }
}

/// The lowest flap limit is one of the limits, and none is lower.
pub proof fn lemma_lowest(s: Seq<(Num, Num)>)
    requires
        s.len() > 0,
        forall|i: int| 0 <= i < s.len() ==> !nan((#[trigger] s[i]).1.bits),
    ensures
        forall|i: int| 0 <= i < s.len() ==> !less((#[trigger] s[i]).1.bits, lowest(s)),
        exists|i: int| 0 <= i < s.len() && same((#[trigger] s[i]).1.bits, lowest(s)),
    decreases s.len(),
{
    let front = s.drop_last();
    let n = s.len() - 1;
    if front.len() > 0 {
        assert forall|i: int| 0 <= i < front.len() implies !nan((#[trigger] front[i]).1.bits) by {
            assert(front[i] == s[i]);
        }
        lemma_lowest(front);
        let i = choose|i: int| 0 <= i < front.len() && same((#[trigger] front[i]).1.bits, lowest(
            front,
        ));
        assert(s[i] == front[i]);
        assert forall|j: int| 0 <= j < s.len() implies !less((#[trigger] s[j]).1.bits, lowest(s)) by {
            if j < n {
                assert(front[j] == s[j]);
            }
        }
        if same(s[n].1.bits, lowest(s)) {
        } else {
            assert(same(s[i].1.bits, lowest(s)));
        }
    } else {
        assert(lowest(front) == INFINITE);
        assert(same(s[0].1.bits, lowest(s)));
    }
}

/// The highest flap limit is one of the limits, and none is higher.
pub proof fn lemma_highest(s: Seq<(Num, Num)>)
    requires
        s.len() > 0,
        forall|i: int| 0 <= i < s.len() ==> !nan((#[trigger] s[i]).1.bits),
    ensures
        forall|i: int| 0 <= i < s.len() ==> !less(highest(s), (#[trigger] s[i]).1.bits),
        exists|i: int| 0 <= i < s.len() && same((#[trigger] s[i]).1.bits, highest(s)),
    decreases s.len(),
{
    let front = s.drop_last();
    let n = s.len() - 1;
    if front.len() > 0 {
        assert forall|i: int| 0 <= i < front.len() implies !nan((#[trigger] front[i]).1.bits) by {
            assert(front[i] == s[i]);
        }
        lemma_highest(front);
        let i = choose|i: int| 0 <= i < front.len() && same((#[trigger] front[i]).1.bits, highest(
            front,
        ));
        assert(s[i] == front[i]);
        assert forall|j: int| 0 <= j < s.len() implies !less(highest(s), (#[trigger] s[j]).1.bits) by {
            if j < n {
                assert(front[j] == s[j]);
            }
        }
        if same(s[n].1.bits, highest(s)) {
        } else {
            assert(same(s[i].1.bits, highest(s)));
        }
    } else {
        assert(highest(front) == 0xfff0_0000_0000_0000);
        assert(same(s[0].1.bits, highest(s)));
    }
}

/// The bounds of the flap limits in a record are those of its list.
pub proof fn lemma_flap_bounds(cols: Seq<Seq<char>>)
    ensures
        ({
            let s: Seq<(Num, Num)> = flap_limits(cols[11]);
            &&& s.len() == 0 ==> record_of(cols).crit_flaps_min_kmh is None && record_of(
                cols,
            ).crit_flaps_combat_kmh is None
            &&& s.len() > 0 && (forall|i: int|
                0 <= i < s.len() ==> !nan((#[trigger] s[i]).1.bits)) ==> {
                let low = record_of(cols).crit_flaps_min_kmh;
                let high = record_of(cols).crit_flaps_combat_kmh;
                &&& low is Some && high is Some
                &&& forall|i: int|
                    0 <= i < s.len() ==> !less((#[trigger] s[i]).1.bits, low->0.bits) && !less(
                        high->0.bits,
                        s[i].1.bits,
                    )
                &&& exists|i: int| 0 <= i < s.len() && same((#[trigger] s[i]).1.bits, low->0.bits)
                &&& exists|i: int| 0 <= i < s.len() && same((#[trigger] s[i]).1.bits, high->0.bits)
            }
        }),
{
    let s: Seq<(Num, Num)> = flap_limits(cols[11]);
    if s.len() > 0 && (forall|i: int| 0 <= i < s.len() ==> !nan((#[trigger] s[i]).1.bits)) {
        lemma_lowest(s);
        lemma_highest(s);
    }
}

/// The limits of the named positions come from the sorted list: landing has the
/// last; combat the first, where the vehicle has combat flaps and the list two or
/// more; takeoff the first that combat leaves, where the vehicle has takeoff flaps
/// and two or more are left.
pub proof fn lemma_named_positions(cols: Seq<Seq<char>>)
    ensures
        ({
            let s: Seq<(Num, Num)> = flap_limits(cols[11]);
            let n: int = s.len() as int;
            let r: FmRecord = record_of(cols);
            let combat: bool = column_number(cols[9]) is Some && !same(
                column_number(cols[9])->0.bits,
                0,
            );
            let takeoff: bool = column_number(cols[10]) is Some && !same(
                column_number(cols[10])->0.bits,
                0,
            );
            &&& n == 0 ==> r.landing_flaps_ratio is None && r.landingflaps_crit_speed is None
            &&& n > 0 ==> r.landing_flaps_ratio == Some(s[n - 1].0) && r.landingflaps_crit_speed
                == Some(s[n - 1].1)
            &&& combat && n >= 2 ==> r.combat_flaps_ratio == Some(s[0].0)
                && r.combatflaps_crit_speed == Some(s[0].1)
            &&& !combat || n < 2 ==> r.combat_flaps_ratio is None && r.combatflaps_crit_speed is None
            &&& takeoff && combat && n >= 3 ==> r.takeoff_flaps_ratio == Some(s[1].0)
                && r.takeoffflaps_crit_speed == Some(s[1].1)
            &&& takeoff && !combat && n >= 2 ==> r.takeoff_flaps_ratio == Some(s[0].0)
                && r.takeoffflaps_crit_speed == Some(s[0].1)
            &&& !takeoff || n < 2 || (combat && n < 3) ==> r.takeoff_flaps_ratio is None
                && r.takeoffflaps_crit_speed is None
        }),
{
}

/// The limits by which the positions are dealt ascend in their ratios, and are
/// the pairs with a ratio of the column, no more and no fewer.
pub proof fn lemma_flap_limits_sorted(col: Seq<char>)
    ensures
        ({
            let v: Seq<Num> = column_numbers(col);
            &&& ascending(flap_limits(col))
            &&& flap_limits(col).to_multiset() == extended_pairs(v, v.len() / 2).to_multiset()
        }),
{
    let v: Seq<Num> = column_numbers(col);
    lemma_extended_numeric(v, v.len() / 2);
    lemma_by_ratio(extended_pairs(v, v.len() / 2));
}

/// With the flaps out and a limit for landing known, the limit is that of combat
/// up to the ratio of combat, else that of takeoff up to the ratio of takeoff, and
/// else that of landing.
pub proof fn lemma_limit_by_extension(pct: u64, rec: FmRecord)
    requires
        less(0, pct),
        rec.landingflaps_crit_speed is Some,
    ensures
        ({
            // the extension from 0 to 1
            let ratio: u64 = quotient(pct, crate::arith::whole(100));
            let combat: bool = rec.combat_flaps_ratio is Some && rec.combatflaps_crit_speed is Some
                && !nan(ratio) && !nan(rec.combat_flaps_ratio->0.bits) && !less(
                rec.combat_flaps_ratio->0.bits,
                ratio,
            );
            let takeoff: bool = rec.takeoff_flaps_ratio is Some
                && rec.takeoffflaps_crit_speed is Some && !nan(ratio) && !nan(
                rec.takeoff_flaps_ratio->0.bits,
            ) && !less(rec.takeoff_flaps_ratio->0.bits, ratio);
            &&& combat ==> flaps_limit(pct, rec) == rec.combatflaps_crit_speed
            &&& !combat && takeoff ==> flaps_limit(pct, rec) == rec.takeoffflaps_crit_speed
            &&& !combat && !takeoff ==> flaps_limit(pct, rec) == rec.landingflaps_crit_speed
        }),
{
    crate::flight::lemma_hundred();
}

/// Whether a line has a record of this name.
pub open spec fn has_record_of(line: Seq<char>, name: Seq<char>) -> bool {
    data_row(line) is Some && (data_row(line)->0).0 == name
}

/// A name has a record exactly where a line gives it one, and it is that of the
/// last such line.
pub proof fn lemma_last_record_counts(rows: Seq<Seq<char>>, name: Seq<char>)
    ensures
        records_of(rows).contains_key(name) <==> exists|i: int|
            0 <= i < rows.len() && has_record_of(#[trigger] rows[i], name),
        rows.len() > 0 && has_record_of(rows.last(), name) ==> records_of(rows)[name] == (data_row(
            rows.last(),
        )->0).1,
        rows.len() > 0 && !has_record_of(rows.last(), name) && records_of(rows).contains_key(name)
            ==> records_of(rows)[name] == records_of(rows.drop_last())[name],
    decreases rows.len(),
{
    if rows.len() > 0 {
        let front = rows.drop_last();
        let n = rows.len() - 1;
        lemma_last_record_counts(front, name);
        if has_record_of(rows[n], name) {
            assert(records_of(rows).contains_key(name));
        } else {
            assert(records_of(rows).contains_key(name) == records_of(front).contains_key(name));
            if records_of(front).contains_key(name) {
                let i = choose|i: int|
                    0 <= i < front.len() && has_record_of(#[trigger] front[i], name);
                assert(rows[i] == front[i]);
            }
            assert forall|i: int|
                0 <= i < rows.len() && has_record_of(#[trigger] rows[i], name) implies records_of(
                front,
            ).contains_key(name) by {
                assert(front[i] == rows[i]);
            }
        }
    }
}

/// A line of data needs a name and eighteen columns; its record is read from
/// them.
pub proof fn lemma_line_of_data(line: Seq<char>)
    ensures
        ({
            let cols: Seq<Seq<char>> = pieces(line, ';');
            &&& data_row(line) is Some <==> cols.len() >= 18 && trimmed(cols[0]).len() > 0
            &&& data_row(line) is Some ==> data_row(line)->0 == (trimmed(cols[0]), record_of(cols))
        }),
{
}

/// A unit without a record of its own has the record of its flight model after
/// its line.
pub proof fn lemma_alias_has_the_record(
    db: Map<Seq<char>, FmRecord>,
    rows: Seq<Seq<char>>,
    unit: Seq<char>,
    model: Seq<char>,
)
    requires
        rows.len() > 0,
        pieces(rows.last(), ';').len() >= 2,
        trimmed(pieces(rows.last(), ';')[0]) == unit,
        trimmed(pieces(rows.last(), ';')[1]) == model,
        unit.len() > 0,
        unit != model,
        db.contains_key(model),
        !aliased(db, rows.drop_last()).contains_key(unit),
    ensures
        aliased(db, rows).contains_key(unit),
        aliased(db, rows)[unit] == db[model],
{
    lemma_aliases_keep_records(db, rows.drop_last(), model);
}

/// The header of a file is passed over, and a database without data is empty.
pub proof fn lemma_database_of_files(data: Seq<char>, names: Option<Seq<char>>)
    ensures
        database(None, names) == Map::<Seq<char>, FmRecord>::empty(),
        body_lines(data).len() == if lines_of(data).len() == 0 {
            0
        } else {
            (lines_of(data).len() - 1) as nat
        },
        forall|i: int|
            0 <= i < body_lines(data).len() ==> #[trigger] body_lines(data)[i] == lines_of(data)[i
                + 1],
        names is None ==> database(Some(data), names) == records_of(body_lines(data)),
        names is Some ==> database(Some(data), names) == aliased(
            records_of(body_lines(data)),
            body_lines(names->0),
        ),
{
}

/// The limit of the flaps at their current extension is none of the limits of a
/// record.
pub proof fn lemma_current_is_no_limit(frame: Map<Seq<char>, Num>, rec: FmRecord)
    ensures
        field_of(with_record(frame, rec), "fm_crit_flaps_current"@) == field_of(
            frame,
            "fm_crit_flaps_current"@,
        ),
{
    lemma_limit_path(frame, rec, "fm_crit_flaps_current"@);
    reveal_strlit("fm_crit_flaps_current");
    assert("fm_crit_flaps_current"@.len() == 21);
    assert("fm_crit_ias"@ != "fm_crit_flaps_current"@) by {
        reveal_strlit("fm_crit_ias");
        assert("fm_crit_ias"@.len() == 11);
    }
    assert("fm_crit_mach"@ != "fm_crit_flaps_current"@) by {
        reveal_strlit("fm_crit_mach");
        assert("fm_crit_mach"@.len() == 12);
    }
    assert("fm_crit_gear_spd"@ != "fm_crit_flaps_current"@) by {
        reveal_strlit("fm_crit_gear_spd");
        assert("fm_crit_gear_spd"@.len() == 16);
    }
    assert("fm_crit_flaps_spd"@ != "fm_crit_flaps_current"@) by {
        reveal_strlit("fm_crit_flaps_spd");
        assert("fm_crit_flaps_spd"@.len() == 17);
    }
    assert("fm_crit_flaps_combat_spd"@ != "fm_crit_flaps_current"@) by {
        reveal_strlit("fm_crit_flaps_combat_spd");
        assert("fm_crit_flaps_combat_spd"@.len() == 24);
    }
    assert("fm_max_fuel_kg"@ != "fm_crit_flaps_current"@) by {
        reveal_strlit("fm_max_fuel_kg");
        assert("fm_max_fuel_kg"@.len() == 14);
    }
    assert("fm_rpm_normal"@ != "fm_crit_flaps_current"@) by {
        reveal_strlit("fm_rpm_normal");
        assert("fm_rpm_normal"@.len() == 13);
    }
    assert("fm_rpm_max"@ != "fm_crit_flaps_current"@) by {
        reveal_strlit("fm_rpm_max");
        assert("fm_rpm_max"@.len() == 10);
    }
    assert("fm_crit_aoa_pos"@ != "fm_crit_flaps_current"@) by {
        reveal_strlit("fm_crit_aoa_pos");
        assert("fm_crit_aoa_pos"@.len() == 15);
    }
    assert("fm_crit_aoa_neg"@ != "fm_crit_flaps_current"@) by {
        reveal_strlit("fm_crit_aoa_neg");
        assert("fm_crit_aoa_neg"@.len() == 15);
    }
    assert("fm_num_engines"@ != "fm_crit_flaps_current"@) by {
        reveal_strlit("fm_num_engines");
        assert("fm_num_engines"@.len() == 14);
    }
    assert("fm_empty_mass_kg"@ != "fm_crit_flaps_current"@) by {
        reveal_strlit("fm_empty_mass_kg");
        assert("fm_empty_mass_kg"@.len() == 16);
    }
    assert("fm_crit_wing_overload_pos"@ != "fm_crit_flaps_current"@) by {
        reveal_strlit("fm_crit_wing_overload_pos");
        assert("fm_crit_wing_overload_pos"@.len() == 25);
    }
    assert("fm_crit_wing_overload_neg"@ != "fm_crit_flaps_current"@) by {
        reveal_strlit("fm_crit_wing_overload_neg");
        assert("fm_crit_wing_overload_neg"@.len() == 25);
    }
    assert("fm_combatflaps_crit_speed"@ != "fm_crit_flaps_current"@) by {
        reveal_strlit("fm_combatflaps_crit_speed");
        assert("fm_combatflaps_crit_speed"@.len() == 25);
    }
    assert("fm_takeoffflaps_crit_speed"@ != "fm_crit_flaps_current"@) by {
        reveal_strlit("fm_takeoffflaps_crit_speed");
        assert("fm_takeoffflaps_crit_speed"@.len() == 26);
    }
    assert("fm_landingflaps_crit_speed"@ != "fm_crit_flaps_current"@) by {
        reveal_strlit("fm_landingflaps_crit_speed");
        assert("fm_landingflaps_crit_speed"@.len() == 26);
    }
}

} // verus!
