//! How days are counted and when the next hour and the next reset come.
use crate::curve::TimeOfDay;
use crate::scheduler::Scheduler;
use crate::state::LocalDate;
use vstd::prelude::*;

verus! {

/// Days of a whole year.
pub open spec fn year_length(year: int) -> int {
    crate::solar::days_before(year, 13)
}

proof fn lemma_months(year: int)
    ensures
        ({
            let february = crate::state::month_length(year, 2);
            &&& crate::solar::days_before(year, 2) == 31
            &&& crate::solar::days_before(year, 3) == 31 + february
            &&& crate::solar::days_before(year, 12) == 306 + february
            &&& crate::solar::days_before(year, 13) == 337 + february
        }),
{
    reveal_with_fuel(crate::solar::days_before, 14);
}

/// A year has 366 days if its number is a multiple of four, but of a hundred only if it
/// is one of four hundred, and 365 days otherwise.
pub proof fn years_have_their_days(year: int)
    ensures
        year % 4 != 0 ==> year_length(year) == 365,
        year % 100 == 0 && year % 400 != 0 ==> year_length(year) == 365,
        year % 4 == 0 && year % 100 != 0 ==> year_length(year) == 366,
        year % 400 == 0 ==> year_length(year) == 366,
        year_length(year + 400) == year_length(year),
{
    lemma_months(year);
    lemma_months(year + 400);
    if year % 400 == 0 {
        assert(year % 4 == 0) by (nonlinear_arith)
            requires
                year % 400 == 0,
        ;
    }
    assert((year + 400) % 4 == year % 4 && (year + 400) % 100 == year % 100 && (year + 400) % 400
        == year % 400);
}

impl LocalDate {
    /// The day before has the number before; before the first of a year it is the last of
    /// the year before.
    pub proof fn days_are_counted(self)
        requires
            self.wf(),
            self.day_before() is Ok,
        ensures
            ({
                let last = self.day_before()->Ok_0;
                &&& last.wf()
                &&& !last.not_before(self)
                &&& crate::solar::ordinal(self) > 1 ==> last.year == self.year
                    && crate::solar::ordinal(last) == crate::solar::ordinal(self) - 1
                &&& crate::solar::ordinal(self) == 1 ==> last.year == self.year - 1
                    && crate::solar::ordinal(last) == year_length(last.year as int)
                &&& 1 <= crate::solar::ordinal(self) <= year_length(self.year as int)
            }),
    {
        reveal_with_fuel(crate::solar::days_before, 14);
        let last = self.day_before()->Ok_0;
        lemma_months(last.year as int);
        lemma_months(self.year as int);
        assert(1 <= self.month <= 12);
        assert(crate::solar::days_before(self.year as int, self.month as int) >= 0);
    }

    /// From its hour on the reset belongs to the day, and before it to the day before.
    pub proof fn resets_belong_to_their_day(self, time: TimeOfDay, reset: TimeOfDay)
        requires
            self.wf(),
            crate::state::scheduled_reset(self, time, reset) is Ok,
        ensures
            ({
                let day = crate::state::scheduled_reset(self, time, reset)->Ok_0;
                &&& time.seconds >= reset.seconds ==> day == self
                &&& time.seconds < reset.seconds ==> day.wf() && !day.not_before(self)
                    && crate::solar::ordinal(day) == (if crate::solar::ordinal(self) > 1 {
                    crate::solar::ordinal(self) - 1
                } else {
                    year_length(self.year - 1)
                })
            }),
    {
        if time.seconds < reset.seconds {
            self.days_are_counted();
        }
    }
}

impl Scheduler {
    /// The wait for the wall clock ends when an hour is full or it is time for the reset,
    /// and at the first such time.
    pub proof fn waits_end_with_hours_and_resets(time: TimeOfDay, reset: TimeOfDay)
        requires
            time.wf(),
            reset.wf(),
        ensures
            ({
                let wait = Scheduler::until_wall_event(time, reset);
                let end = time.seconds + wait;
                &&& 0 < wait <= 3_600
                &&& end % 3_600 == 0 || end % 86_400 == reset.seconds
                &&& forall|earlier: int|
                    time.seconds < earlier < end ==> #[trigger] (earlier % 3_600) != 0 && earlier
                        % 86_400 != reset.seconds
            }),
    {
        let now = time.seconds as int;
        let wait = Scheduler::until_wall_event(time, reset);
        let end = now + wait;
        assert forall|earlier: int| now < earlier < end implies #[trigger] (earlier % 3_600) != 0
            && earlier % 86_400 != reset.seconds by {
            let hour = now / 3_600;
            assert(now == hour * 3_600 + now % 3_600) by (nonlinear_arith)
                requires
                    hour == now / 3_600,
            ;
            assert(hour * 3_600 < earlier < (hour + 1) * 3_600);
        }
    }
}

} // verus!
