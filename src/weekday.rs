use vstd::prelude::*;

verus! {

/// A day of the week, numbered from Monday (0) to Sunday (6).
#[derive(Debug, Clone, Copy, PartialEq, Eq, Structural, PartialOrd, Ord, Hash)]
pub enum NumberedWeekday {
    Mon,
    Tue,
    Wed,
    Thu,
    Fri,
    Sat,
    Sun,
}

/// The weekday with the given number, counting from Monday as 0.
pub open spec fn weekday_from(day: int) -> NumberedWeekday {
    if day == 0 {
        NumberedWeekday::Mon
    } else if day == 1 {
        NumberedWeekday::Tue
    } else if day == 2 {
        NumberedWeekday::Wed
    } else if day == 3 {
        NumberedWeekday::Thu
    } else if day == 4 {
        NumberedWeekday::Fri
    } else if day == 5 {
        NumberedWeekday::Sat
    } else {
        NumberedWeekday::Sun
    }
}

impl NumberedWeekday {
    /// The number of the day, counting from Monday as 0.
    pub open spec fn number(self) -> nat {
        match self {
            NumberedWeekday::Mon => 0,
            NumberedWeekday::Tue => 1,
            NumberedWeekday::Wed => 2,
            NumberedWeekday::Thu => 3,
            NumberedWeekday::Fri => 4,
            NumberedWeekday::Sat => 5,
            NumberedWeekday::Sun => 6,
        }
    }

    pub fn from_usize(day: usize) -> (r: NumberedWeekday)
        requires
            day < 7,
        ensures
            r == weekday_from(day as int),
            r.number() == day,
    {
        match day {
            0 => NumberedWeekday::Mon,
            1 => NumberedWeekday::Tue,
            2 => NumberedWeekday::Wed,
            3 => NumberedWeekday::Thu,
            4 => NumberedWeekday::Fri,
            5 => NumberedWeekday::Sat,
            _ => NumberedWeekday::Sun,
        }
    }

    pub fn num_days_from_monday(&self) -> (r: u32)
        ensures
            r == self.number(),
    {
        match self {
            NumberedWeekday::Mon => 0,
            NumberedWeekday::Tue => 1,
            NumberedWeekday::Wed => 2,
            NumberedWeekday::Thu => 3,
            NumberedWeekday::Fri => 4,
            NumberedWeekday::Sat => 5,
            NumberedWeekday::Sun => 6,
        }
    }
}

/// Weekday types that can be built from a day number counted from Monday.
pub trait WeekdayWithNumber: Sized {
    spec fn day_number(self) -> nat;

    fn from_usize(day: usize) -> (r: Self)
        requires
            day < 7,
        ensures
            r.day_number() == day,
    ;
}

impl WeekdayWithNumber for NumberedWeekday {
    open spec fn day_number(self) -> nat {
        self.number()
    }

    fn from_usize(day: usize) -> (r: Self) {
        NumberedWeekday::from_usize(day)
    }
}

} // verus!
