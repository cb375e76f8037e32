//! Whether the game is in front, and the style of the overlay's windows.
use vstd::prelude::*;

use crate::number::{lower, lowered, to_lowered};
use crate::text::{begins, chars_of, contains, ends, ends_with, occurs, occurs_at, same_chars, starts_with, trim, trimmed};

verus! {

/// Whether a process of this name is the game.
pub open spec fn names_game(name: Seq<char>) -> bool {
    let low: Seq<char> = lowered(name);
    low == "aces"@ || begins(low, "aces."@) || occurs(low, "warthunder"@)
}

/// Whether a process of this name is the game.
pub fn is_warthunder_name(name: &str) -> (r: bool)
    ensures
        r == names_game(name@),
{
    let low = to_lowered(chars_of(name).as_slice());
    same_chars(low.as_slice(), chars_of("aces").as_slice()) || starts_with(low.as_slice(), "aces.")
        || contains(low.as_slice(), "warthunder")
}

/// Whether a process whose program is at this path is the game.
pub fn is_warthunder_image(path: &str) -> (r: bool)
    ensures
        r == ends(lowered(path@), "aces.exe"@),
{
    let low = to_lowered(chars_of(path).as_slice());
    ends_with(low.as_slice(), "aces.exe")
}

/// Whether the game is among the processes.
pub open spec fn game_runs(names: Seq<String>) -> bool {
    exists|i: int| 0 <= i < names.len() && names_game(trimmed((#[trigger] names[i])@))
}

/// Whether the names of the processes are needed: a display is there, and it
/// does not say which window is in front.
pub fn needs_process_names(has_wayland: bool, has_x11: bool, x11: Option<bool>) -> (r: bool)
    ensures
        r == ((has_wayland || has_x11) && !(has_x11 && x11 is Some)),
{
    (has_wayland || has_x11) && !(has_x11 && x11.is_some())
}

/// Whether the game is in front. `x11` is what the X server says, where it says
/// anything; else a running game counts as one in front, and without any
/// display the overlay is always shown.
pub fn is_warthunder_foreground(
    has_wayland: bool,
    has_x11: bool,
    x11: Option<bool>,
    processes: &Vec<String>,
) -> (r: bool)
    ensures
        r == (if has_x11 && x11 is Some {
            x11->0
        } else if has_wayland || has_x11 {
            game_runs(processes@)
        } else {
            true
        }),
{
    if has_x11 {
        if let Some(front) = x11 {
            return front;
        }
    }
    if has_wayland || has_x11 {
        return any_game(processes);
    }
    true
}

/// Whether the game is among the processes.
fn any_game(names: &Vec<String>) -> (r: bool)
    ensures
        r == game_runs(names@),
{
    let mut i: usize = 0;
    while i < names.len()
        invariant
            i <= names.len(),
            forall|j: int| 0 <= j < i ==> !names_game(trimmed((#[trigger] names@[j])@)),
        decreases names.len() - i,
    {
        if is_process_of_game(names[i].as_str()) {
            proof {
                assert(names_game(trimmed(names@[i as int]@)));
            }
            return true;
        }
        i = i + 1;
    }
    false
}

/// Whether the text of a process's name file names the game.
pub fn is_process_of_game(comm: &str) -> (r: bool)
    ensures
        r == names_game(trimmed(comm@)),
{
    let cs = chars_of(comm);
    let name = crate::text::text_of(trim(cs.as_slice()));
    is_warthunder_name(name.as_str())
}

/// The style of a window that lets clicks through, or takes them: the bits
/// `transparent` are set or cleared, and no other bit is touched.
pub fn click_through_style(ex: u64, transparent: u64, on: bool) -> (r: u64)
    ensures
        r & !transparent == ex & !transparent,
        r & transparent == if on {
            transparent
        } else {
            0
        },
        forall|other: u64| other & transparent == 0 ==> #[trigger] (r & other) == ex & other,
{
    if on {
        let r: u64 = ex | transparent;
        assert(r & !transparent == ex & !transparent && r & transparent == transparent)
            by (bit_vector)
            requires
                r == ex | transparent,
        ;
        assert forall|other: u64| other & transparent == 0 implies #[trigger] (r & other) == ex
            & other by {
            assert(r & other == ex & other) by (bit_vector)
                requires
                    r == ex | transparent,
                    other & transparent == 0,
            ;
        }
        r
    } else {
        let r: u64 = ex & !transparent;
        assert(r & !transparent == ex & !transparent && r & transparent == 0) by (bit_vector)
            requires
                r == ex & !transparent,
        ;
        assert forall|other: u64| other & transparent == 0 implies #[trigger] (r & other) == ex
            & other by {
            assert(r & other == ex & other) by (bit_vector)
                requires
                    r == ex & !transparent,
                    other & transparent == 0,
            ;
        }
        r
    }
}

/// The style of a window that the task bar leaves out: the bits `tool` are set,
/// the bits `listed` are cleared, and no other bit is touched.
pub fn unlisted_style(ex: u64, tool: u64, listed: u64) -> (r: u64)
    ensures
        r & listed == 0,
        r & tool & !listed == tool & !listed,
        r & !(tool | listed) == ex & !(tool | listed),
{
    let r: u64 = (ex | tool) & !listed;
    assert(r & listed == 0 && r & tool & !listed == tool & !listed && r & !(tool | listed) == ex
        & !(tool | listed)) by (bit_vector)
        requires
            r == (ex | tool) & !listed,
    ;
    r
}

/// The game runs as "aces", under any name that begins with it and a dot, or under
/// one that holds "warthunder", in capitals or not; no other process that is named
/// after "aces" is the game.
pub proof fn lemma_names_of_the_game(name: Seq<char>, other: Seq<char>, front: Seq<char>, back: Seq<char>)
    requires
        lowered(name) == lowered(other),
    ensures
        names_game(name) == names_game(other),
        names_game("aces"@),
        names_game("aces."@ + back),
        names_game(front + "warthunder"@ + back),
        names_game(name) && !occurs(lowered(name), "warthunder"@) ==> name.len() >= 4 && lower(name[0])
            == 'a' && lower(name[1]) == 'c' && lower(name[2]) == 'e' && lower(name[3]) == 's' && (
        name.len() > 4 ==> name[4] == '.'),
{
    reveal_strlit("aces");
    reveal_strlit("aces.");
    reveal_strlit("warthunder");
    assert(lowered("aces"@) =~= "aces"@);
    assert(lowered("aces."@) =~= "aces."@);
    assert(lowered("warthunder"@) =~= "warthunder"@);
    let a = lowered("aces."@ + back);
    assert(a.subrange(0, 5) =~= "aces."@) by {
        assert forall|i: int| 0 <= i < 5 implies a[i] == "aces."@[i] by {
            assert(a[i] == lower("aces."@[i]));
            assert(lowered("aces."@)[i] == lower("aces."@[i]));
        }
    }
    assert(begins(a, "aces."@));
    let b = lowered(front + "warthunder"@ + back);
    let k: int = front.len() as int;
    assert(b.subrange(k, k + 10) =~= "warthunder"@) by {
        assert forall|i: int| 0 <= i < 10 implies b[k + i] == "warthunder"@[i] by {
            assert(b[k + i] == lower("warthunder"@[i]));
            assert(lowered("warthunder"@)[i] == lower("warthunder"@[i]));
        }
    }
    assert(occurs_at(b, "warthunder"@, k));
    if names_game(name) && !occurs(lowered(name), "warthunder"@) {
        let low = lowered(name);
        assert(low.len() == name.len());
        assert(low[0] == lower(name[0]) && low[1] == lower(name[1]) && low[2] == lower(name[2]));
        assert(low[3] == lower(name[3]));
        assert(name.len() > 4 ==> low[4] == lower(name[4]));
        if begins(low, "aces."@) {
            let f = low.subrange(0, 5);
            assert(f[0] == low[0] && f[1] == low[1] && f[2] == low[2] && f[3] == low[3] && f[4]
                == low[4]);
        }
    }
}

} // verus!
