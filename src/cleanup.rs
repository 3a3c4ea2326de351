use vstd::prelude::*;

verus! {

/// Archives the cards of a project column that have not changed for some days.
pub struct TaskCleanup {
    pub column_id: i32,
    /// Cards older than this many days are removed.
    pub days: i32,
}

impl TaskCleanup {
    /// Whether a card last changed `age_days` days ago is kept.
    pub fn is_recent(&self, age_days: i64) -> (r: bool)
        ensures
            r == (age_days < self.days as i64),
    {
        age_days < self.days as i64
    }
}

} // verus!
