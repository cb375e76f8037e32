//! How the background readers find the game and how often they ask.
use vstd::prelude::*;
use vstd::slice::slice_subrange;

use crate::client::without_end_slashes;
use crate::text::{begins, chars_of, copy_chars, push_chars, stands_at, starts_with, text_of};

verus! {

/// `s` without every `p` at its front.
pub open spec fn without_prefix(s: Seq<char>, p: Seq<char>) -> Seq<char>
    decreases s.len(),
{
    if p.len() > 0 && begins(s, p) {
        without_prefix(s.skip(p.len() as int), p)
    } else {
        s
    }
}

/// The host and port of a url: without scheme and without slashes at the end,
/// with `localhost` in front of a port read as the address that it stands for.
pub open spec fn host_port_of(base: Seq<char>) -> Seq<char> {
    let bare: Seq<char> = without_end_slashes(
        without_prefix(without_prefix(base, "http://"@), "https://"@),
    );
    if begins(bare, "localhost:"@) {
        "127.0.0.1"@ + bare.skip(9)
    } else {
        bare
    }
}

/// `s` without every `p` at its front.
fn strip_prefix(s: &[char], p: &str) -> (r: Vec<char>)
    requires
        p@.len() > 0,
    ensures
        r@ == without_prefix(s@, p@),
{
    let w = chars_of(p);
    let n: usize = w.len();
    let mut i: usize = 0;
    proof {
        assert(s@.skip(0) =~= s@);
    }
    while stands_at(s, w.as_slice(), i)
        invariant
            i <= s.len(),
            w@ == p@,
            n == p@.len(),
            n > 0,
            without_prefix(s@, p@) == without_prefix(s@.skip(i as int), p@),
        decreases s.len() - i,
    {
        proof {
            let rest = s@.skip(i as int);
            assert(rest.subrange(0, n as int) =~= s@.subrange(i as int, i + n));
            assert(rest.skip(n as int) =~= s@.skip(i + n));
            assert(begins(rest, p@));
        }
        i = i + n;
    }
    proof {
        let rest = s@.skip(i as int);
        if begins(rest, p@) {
            assert(rest.subrange(0, n as int) =~= s@.subrange(i as int, i + n));
        }
    }
    let kept: &[char] = slice_subrange(s, i, s.len());
    proof {
        assert(kept@ =~= s@.skip(i as int));
    }
    copy_chars(kept)
}

/// The host and port of a url, or of the game's usual one.
pub fn host_port(base_url: Option<&str>) -> (r: String)
    ensures
        r@ == host_port_of(
            match base_url {
                Some(u) => u@,
                None => "http://localhost:8111"@,
            },
        ),
{
    let base: &str = match base_url {
        Some(u) => u,
        None => "http://localhost:8111",
    };
    proof {
        reveal_strlit("http://");
        reveal_strlit("https://");
        reveal_strlit("localhost:");
        assert("http://"@.len() == 7);
        assert("https://"@.len() == 8);
        assert("localhost:"@.len() == 10);
    }
    let plain = strip_prefix(chars_of(base).as_slice(), "http://");
    let secure = strip_prefix(plain.as_slice(), "https://");
    let bare = crate::client::trim_end_slashes(text_of(secure.as_slice()).as_str());
    if starts_with(bare.as_slice(), "localhost:") {
        let mut out = chars_of("127.0.0.1");
        let tail: &[char] = slice_subrange(bare.as_slice(), 9, bare.len());
        proof {
            assert(tail@ =~= bare@.skip(9));
        }
        push_chars(&mut out, tail);
        text_of(out.as_slice())
    } else {
        text_of(bare.as_slice())
    }
}

/// How long a reader waits after a failure, in milliseconds.
pub const FAILURE_WAIT_MS: u64 = 500;

/// How long a reader waits after a reply that came at once, in milliseconds.
pub const IDLE_WAIT_MS: u64 = 200;

/// The pace of one reader.
pub struct Pace {
    /// The milliseconds of the rounds since the last report.
    pub total_ms: u64,
    /// The rounds so far.
    pub cycles: u64,
}

/// What a reader does at the end of a round.
pub struct PaceStep {
    /// The average of the last hundred rounds, once in a hundred.
    pub report: Option<u64>,
    /// How long to wait, in milliseconds.
    pub wait_ms: u64,
}

impl Pace {
    /// A reader that has not asked yet.
    pub fn new() -> (r: Self)
        ensures
            r.total_ms == 0,
            r.cycles == 0,
    {
        Pace { total_ms: 0, cycles: 0 }
    }

    /// Ends a round that took `elapsed_ns` nanoseconds: every hundredth is
    /// reported with the average, and one shorter than 50 milliseconds is
    /// followed by a wait.
    pub fn end_round(&mut self, elapsed_ns: u64) -> (r: PaceStep)
        requires
            old(self).cycles < u64::MAX,
            old(self).total_ms + elapsed_ns / 1_000_000 <= u64::MAX,
        ensures
            final(self).cycles == old(self).cycles + 1,
            ({
                let sum: int = old(self).total_ms + elapsed_ns / 1_000_000;
                if final(self).cycles % 100 == 0 {
                    r.report == Some((sum / 100) as u64) && final(self).total_ms == 0
                } else {
                    r.report is None && final(self).total_ms == sum
                }
            }),
            r.wait_ms == (if elapsed_ns < 50_000_000 {
                IDLE_WAIT_MS
            } else {
                0
            }),
            paced(*old(self), *final(self), elapsed_ns, r),
    {
        self.total_ms = self.total_ms + elapsed_ns / 1_000_000;
        self.cycles = self.cycles + 1;
        let mut report: Option<u64> = None;
        if self.cycles % 100 == 0 {
            report = Some(self.total_ms / 100);
            self.total_ms = 0;
        }
        let wait_ms: u64 = if elapsed_ns < 50_000_000 {
            IDLE_WAIT_MS
        } else {
            0
        };
        PaceStep { report, wait_ms }
    }
}

/// The game on this machine is always asked at its address, never by name.
pub proof fn lemma_localhost_is_an_address(base: Seq<char>)
    requires
        begins(
            without_end_slashes(without_prefix(without_prefix(base, "http://"@), "https://"@)),
            "localhost:"@,
        ),
    ensures
        begins(host_port_of(base), "127.0.0.1"@),
{
    let r: Seq<char> = host_port_of(base);
    let bare: Seq<char> = without_end_slashes(
        without_prefix(without_prefix(base, "http://"@), "https://"@),
    );
    reveal_strlit("127.0.0.1");
    assert(r.subrange(0, "127.0.0.1"@.len() as int) =~= "127.0.0.1"@);
}

/// The host of a plain url is what stands behind its scheme, without slashes at
/// the end; `localhost` in front of a port is the address 127.0.0.1.
pub proof fn lemma_host_of_url(host: Seq<char>)
    requires
        host.len() > 0,
        host.last() != '/',
        !begins(host, "http://"@),
        !begins(host, "https://"@),
    ensures
        !begins(host, "localhost:"@) ==> host_port_of("http://"@ + host) == host && host_port_of(host)
            == host,
        begins(host, "localhost:"@) ==> host_port_of("http://"@ + host) == "127.0.0.1"@ + host.skip(
            9,
        ) && host_port_of(host) == "127.0.0.1"@ + host.skip(9),
{
    let p = "http://"@;
    reveal_strlit("http://");
    assert(p.len() == 7);
    let url = p + host;
    assert(url.subrange(0, 7) =~= p);
    assert(url.skip(7) =~= host);
    assert(begins(url, p));
    assert(without_prefix(url, p) == without_prefix(host, p));
    assert(without_prefix(host, p) == host);
    assert(without_prefix(host, "https://"@) == host);
    assert(without_end_slashes(host) == host);
}

/// Whether a round takes the pace from `before` to `after` with the step `r`.
pub open spec fn paced(before: Pace, after: Pace, elapsed_ns: u64, r: PaceStep) -> bool {
    &&& after.cycles == before.cycles + 1
    &&& r.wait_ms == (if elapsed_ns < 50_000_000 {
        200u64
    } else {
        0
    })
    &&& (r.report is Some) == (after.cycles % 100 == 0)
    &&& 100 * (if r.report is Some {
        r.report->0 as int
    } else {
        0
    }) <= before.total_ms + elapsed_ns / 1_000_000
}

/// A round that was answered at once is followed by a wait of 200 milliseconds,
/// and any other by none; every hundredth is reported.
pub proof fn lemma_pace(before: Pace, after: Pace, elapsed_ns: u64, r: PaceStep)
    requires
        paced(before, after, elapsed_ns, r),
    ensures
        elapsed_ns < 50_000_000 ==> r.wait_ms == 200,
        elapsed_ns >= 50_000_000 ==> r.wait_ms == 0,
        r.report is Some <==> (before.cycles + 1) % 100 == 0,
        after.cycles == before.cycles + 1,
{
}

} // verus!
