//! The session recorder: a countdown timer that is either idle or running,
//! records a completed session into the store, and keeps the tree cache
//! fresh.  The wall clock is handed in by the caller as plain seconds.

use vstd::prelude::*;
use crate::db;
use crate::db::Db;
use crate::db::WorkSession;
use crate::projects::Projects;
use vstd::string::StringExecFns;

verus! {

/// The recorder together with the store and the cache it keeps current.
pub struct Pomo {
    /// Configured session length, in seconds.
    pub session_length: u64,
    /// Wall-clock start of the running session, or `None` when idle.
    pub session_start: Option<u64>,
    pub db: Db,
    pub projects: Projects,
}

/// Elapsed seconds of a session started at `start`, observed at `now`; a
/// clock that went backwards reads as no elapsed time at all.
pub open spec fn elapsed_at(start: Option<u64>, now: u64) -> Option<u64> {
    match start {
        Some(st) => if now >= st {
            Some((now - st) as u64)
        } else {
            None
        },
        None => None,
    }
}

/// Has the running countdown reached zero at `now`?
pub open spec fn session_complete(p: &Pomo, now: u64) -> bool {
    match elapsed_at(p.session_start, now) {
        Some(e) => e >= p.session_length,
        None => false,
    }
}

impl Pomo {
    /// The store is sound and the cache agrees with it.
    pub open spec fn wf(&self) -> bool {
        &&& self.db.wf()
        &&& self.projects.consistent(&self.db)
    }

    /// A recorder over a fresh cache of the given store, idle.
    pub fn new(session_length: u64, db: Db) -> (r: Pomo)
        requires
            db.wf(),
        ensures
            r.wf(),
            r.session_length == session_length,
            r.session_start == None::<u64>,
            r.db == db,
    {
        let projects = Projects::new(&db);
        Pomo { session_length, session_start: None, db, projects }
    }

    pub fn is_running(&self) -> (r: bool)
        ensures
            r == (match self.session_start {
                Some(_) => true,
                None => false,
            }),
    {
        match self.session_start {
            Some(_) => true,
            None => false,
        }
    }

    /// Starts a session at the given wall-clock second.
    pub fn init_session(&mut self, now: u64)
        ensures
            final(self).session_start == Some(now),
            final(self).session_length == old(self).session_length,
            final(self).db == old(self).db,
            final(self).projects == old(self).projects,
    {
        self.session_start = Some(now);
    }

    /// Cancels the running session: the recorder goes idle and no durable
    /// trace is left behind; half-finished work is not partially credited.
    pub fn cancel_session(&mut self)
        ensures
            final(self).session_start == None::<u64>,
            final(self).session_length == old(self).session_length,
            final(self).db == old(self).db,
            final(self).db@.work == old(self).db@.work,
            final(self).projects == old(self).projects,
    {
        self.session_start = None;
    }

    pub fn time_elapsed(&self, now: u64) -> (r: Option<u64>)
        ensures
            r == elapsed_at(self.session_start, now),
    {
        match self.session_start {
            Some(st) => if now >= st {
                Some(now - st)
            } else {
                None
            },
            None => None,
        }
    }

    /// Writes the finished session — with the configured length as its
    /// duration, not the drifting wall-clock difference — attributed to the
    /// active project, then refreshes the cache and goes idle.
    fn finish_session(&mut self)
        requires
            old(self).wf(),
            old(self).session_start matches Some(_),
            match old(self).projects@.active {
                Some(id) => db::has_row(old(self).db@.projects, id),
                None => true,
            },
            db::sum_durations(old(self).db@.work) + old(self).session_length <= u64::MAX,
        ensures
            final(self).wf(),
            final(self).session_start == None::<u64>,
            final(self).session_length == old(self).session_length,
            final(self).db@ == (db::DbV {
                work: old(self).db@.work.push(
                    (db::WorkSessionV {
                        time_start: old(self).session_start->Some_0,
                        duration: old(self).session_length,
                        project_id: old(self).projects@.active,
                    }),
                ),
                ..old(self).db@
            }),
            final(self).projects@.active == old(self).projects@.active,
            final(self).projects@.edited == old(self).projects@.edited,
    {
        let st = match self.session_start {
            Some(st) => st,
            None => {
                proof {
                    assert(false);
                }
                0
            },
        };
        let ws = WorkSession {
            time_start: st,
            duration: self.session_length,
            project_id: self.projects.get_active(),
        };
        match db::add_work_session(&mut self.db, &ws) {
            Ok(_) => {},
            Err(_) => {
                proof {
                    assert(false);
                }
            },
        }
        self.projects.fetch(&self.db);
        self.session_start = None;
    }

    /// The polled, idempotent completion check: it records the session and
    /// goes idle the first time it observes completion, and every later
    /// call — the recorder now being idle — changes nothing at all.
    pub fn check_finished(&mut self, now: u64)
        requires
            old(self).wf(),
            session_complete(old(self), now) ==> match old(self).projects@.active {
                Some(id) => db::has_row(old(self).db@.projects, id),
                None => true,
            },
            session_complete(old(self), now) ==> db::sum_durations(old(self).db@.work) + old(
                self,
            ).session_length <= u64::MAX,
        ensures
            final(self).wf(),
            final(self).session_length == old(self).session_length,
            !session_complete(old(self), now) ==> final(self).session_start == old(
                self,
            ).session_start && final(self).db == old(self).db && final(self).projects == old(
                self,
            ).projects,
            session_complete(old(self), now) ==> {
                &&& final(self).session_start == None::<u64>
                &&& final(self).db@ == (db::DbV {
                    work: old(self).db@.work.push(
                        (db::WorkSessionV {
                            time_start: old(self).session_start->Some_0,
                            duration: old(self).session_length,
                            project_id: old(self).projects@.active,
                        }),
                    ),
                    ..old(self).db@
                })
                &&& forall|later: u64| !session_complete(final(self), later)
            },
    {
        let fire = match self.time_elapsed(now) {
            Some(e) => e >= self.session_length,
            None => false,
        };
        if fire {
            self.finish_session();
        }
    }

    /// Sets the session length from a value in minutes.
    pub fn change_session_length(&mut self, new_in_min: u64)
        requires
            new_in_min <= u64::MAX / 60,
        ensures
            final(self).session_length == new_in_min * 60,
            final(self).session_start == old(self).session_start,
            final(self).db == old(self).db,
            final(self).projects == old(self).projects,
    {
        self.session_length = new_in_min * 60;
    }
}

// ---------------------------------------------------------------------------
// Countdown display
// ---------------------------------------------------------------------------

pub open spec fn digit_char(n: int) -> char {
    if n == 0 {
        '0'
    } else if n == 1 {
        '1'
    } else if n == 2 {
        '2'
    } else if n == 3 {
        '3'
    } else if n == 4 {
        '4'
    } else if n == 5 {
        '5'
    } else if n == 6 {
        '6'
    } else if n == 7 {
        '7'
    } else if n == 8 {
        '8'
    } else {
        '9'
    }
}

/// Decimal digits of `n`, most significant first.
pub open spec fn dec_str(n: int) -> Seq<char>
    decreases n,
{
    if n < 10 {
        seq![digit_char(n)]
    } else {
        dec_str(n / 10).push(digit_char(n % 10))
    }
}

/// Left-pads to at least two characters with a zero.
pub open spec fn pad2(s: Seq<char>) -> Seq<char> {
    if s.len() >= 2 {
        s
    } else {
        seq!['0'] + s
    }
}

/// `MM:SS` of a remaining time in seconds.
pub open spec fn mmss(rem: int) -> Seq<char> {
    pad2(dec_str(rem / 60)) + seq![':'] + pad2(dec_str(rem % 60))
}

/// What the countdown shows: remaining `MM:SS` while running, a sentinel
/// while idle or when the clock reads earlier than the session start.
pub open spec fn countdown_display(start: Option<u64>, session_length: u64, now: u64) -> Seq<
    char,
> {
    match elapsed_at(start, now) {
        Some(e) => mmss(session_length - e),
        None => "--:--"@,
    }
}

proof fn lemma_dec_str_len(n: int)
    ensures
        dec_str(n).len() >= 1,
        n >= 10 ==> dec_str(n).len() >= 2,
    decreases n,
{
    if n >= 10 {
        lemma_dec_str_len(n / 10);
    }
}

fn digit_str(d: u64) -> (r: &'static str)
    requires
        d < 10,
    ensures
        r@ == seq![digit_char(d as int)],
{
    if d == 0 {
        proof {
            reveal_strlit("0");
            assert("0"@ =~= seq![digit_char(0int)]);
        }
        "0"
    } else if d == 1 {
        proof {
            reveal_strlit("1");
            assert("1"@ =~= seq![digit_char(1int)]);
        }
        "1"
    } else if d == 2 {
        proof {
            reveal_strlit("2");
            assert("2"@ =~= seq![digit_char(2int)]);
        }
        "2"
    } else if d == 3 {
        proof {
            reveal_strlit("3");
            assert("3"@ =~= seq![digit_char(3int)]);
        }
        "3"
    } else if d == 4 {
        proof {
            reveal_strlit("4");
            assert("4"@ =~= seq![digit_char(4int)]);
        }
        "4"
    } else if d == 5 {
        proof {
            reveal_strlit("5");
            assert("5"@ =~= seq![digit_char(5int)]);
        }
        "5"
    } else if d == 6 {
        proof {
            reveal_strlit("6");
            assert("6"@ =~= seq![digit_char(6int)]);
        }
        "6"
    } else if d == 7 {
        proof {
            reveal_strlit("7");
            assert("7"@ =~= seq![digit_char(7int)]);
        }
        "7"
    } else if d == 8 {
        proof {
            reveal_strlit("8");
            assert("8"@ =~= seq![digit_char(8int)]);
        }
        "8"
    } else {
        proof {
            reveal_strlit("9");
            assert("9"@ =~= seq![digit_char(9int)]);
        }
        "9"
    }
}

/// Decimal rendering of `n`.
fn u64_dec(n: u64) -> (r: String)
    ensures
        r@ == dec_str(n as int),
    decreases n,
{
    if n < 10 {
        let s = digit_str(n).to_owned();
        s
    } else {
        let mut s = u64_dec(n / 10);
        s.append(digit_str(n % 10));
        proof {
            assert(s@ =~= dec_str(n as int));
        }
        s
    }
}

/// Decimal rendering of `n`, zero-padded to at least two digits.
fn two_digits(n: u64) -> (r: String)
    ensures
        r@ == pad2(dec_str(n as int)),
{
    if n < 10 {
        let mut r = String::from_str("0");
        r.append(digit_str(n));
        proof {
            reveal_strlit("0");
            assert("0"@ =~= seq!['0']);
            assert(r@ =~= pad2(dec_str(n as int)));
        }
        r
    } else {
        let r = u64_dec(n);
        proof {
            lemma_dec_str_len(n as int);
        }
        r
    }
}

impl Pomo {
    /// The remaining time as `MM:SS` (more digits for minutes past 99), or
    /// `--:--` when no session runs.
    pub fn countdown_string(&self, now: u64) -> (r: String)
        requires
            match elapsed_at(self.session_start, now) {
                Some(e) => e <= self.session_length,
                None => true,
            },
        ensures
            r@ == countdown_display(self.session_start, self.session_length, now),
    {
        let st_opt = self.session_start;
        match st_opt {
            Some(st) => {
                if now >= st {
                    let e = now - st;
                    let rem = self.session_length - e;
                    let mut r = two_digits(rem / 60);
                    r.append(":");
                    let sec = two_digits(rem % 60);
                    r.append(sec.as_str());
                    proof {
                        reveal_strlit(":");
                        assert(":"@ =~= seq![':']);
                        assert(r@ =~= mmss(rem as int));
                    }
                    r
                } else {
                    String::from_str("--:--")
                }
            },
            None => String::from_str("--:--"),
        }
    }
}

} // verus!
