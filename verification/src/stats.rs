//! Per-day history feeding the chart: the summed work of the trailing week.

use vstd::prelude::*;
use crate::db;
use crate::db::Db;

verus! {

/// One entry per day for the trailing seven days, newest first: the day (in
/// days since the epoch) and the summed recorded duration, in seconds, of
/// the sessions inside that day's bucket.
pub fn last_week_chart(db: &Db, today: u64, day_boundary_offset_hours: u64) -> (r: Vec<
    (u64, u64),
>)
    requires
        db.wf(),
        today >= 6,
        today as int * 86400 + 169200 <= u64::MAX as int,
    ensures
        r@.len() == 7,
        forall|i: int|
            0 <= i < 7 ==> (#[trigger] r@[i]).0 == today - i && r@[i].1 as int == db::window_sum(
                db@.work,
                (today - i) as u64,
                day_boundary_offset_hours,
            ),
{
    let mut r: Vec<(u64, u64)> = Vec::new();
    let mut i: u64 = 0;
    while i < 7
        invariant
            i <= 7,
            db.wf(),
            today >= 6,
            today as int * 86400 + 169200 <= u64::MAX as int,
            r@.len() == i,
            forall|k: int|
                0 <= k < i ==> (#[trigger] r@[k]).0 == today - k && r@[k].1 as int
                    == db::window_sum(db@.work, (today - k) as u64, day_boundary_offset_hours),
        decreases 7 - i,
    {
        let day = today - i;
        let hours = db::get_work_hours_for_day(db, day, day_boundary_offset_hours);
        r.push((day, hours));
        i = i + 1;
    }
    r
}

} // verus!
