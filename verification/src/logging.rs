//! The log that is kept in the database.

use vstd::prelude::*;

verus! {

/// After how many entries old ones are deleted.
pub const CLEANUP_INTERVAL: usize = 100;

/// For how many days entries are kept.
pub const RETENTION_DAYS: i64 = 30;

/// An entry of the log.
#[derive(Debug)]
pub struct LogEntry {
    pub time: String,
    pub level: String,
    pub message: String,
}

/// Counts the entries written since old ones were last deleted.
#[derive(Clone, Copy, Debug, PartialEq, Eq, Structural)]
pub struct SqliteLayer {
    pub written: usize,
}

/// Whether one more entry was counted; `due` is whether old ones are deleted now.
pub open spec fn counts(before: SqliteLayer, after: SqliteLayer, due: bool) -> bool {
    &&& due == (before.until_cleanup() == 1)
    &&& after.until_cleanup() == if due {
        CLEANUP_INTERVAL as int
    } else {
        before.until_cleanup() - 1
    }
}

impl SqliteLayer {
    /// Fewer entries were written than make a deletion due.
    pub open spec fn well_formed(self) -> bool {
        self.written < CLEANUP_INTERVAL
    }

    /// How many more entries it takes until old ones are deleted.
    pub open spec fn until_cleanup(self) -> int {
        CLEANUP_INTERVAL - self.written
    }

    /// No entry was written yet.
    pub fn new() -> (res: Self)
        ensures
            res.well_formed(),
            res.until_cleanup() == CLEANUP_INTERVAL,
    {
        SqliteLayer { written: 0 }
    }

    /// Counts one more entry. The result says whether to delete old ones now.
    pub fn record(&mut self) -> (res: bool)
        requires
            old(self).well_formed(),
        ensures
            final(self).well_formed(),
            counts(*old(self), *final(self), res),
    {
        self.written = self.written + 1;
        if self.written >= CLEANUP_INTERVAL {
            self.written = 0;
            return true;
        }
        false
    }
}

/// The message of an event once one more field was looked at.
pub open spec fn message_after(message: Seq<char>, field: Seq<char>, value: Seq<char>) -> Seq<
    char,
> {
    if field == "message"@ {
        value
    } else {
        message
    }
}

/// Collects the message of an event from its fields.
#[derive(Debug)]
pub struct MessageVisitor {
    pub message: String,
}

impl MessageVisitor {
    /// There is no message yet.
    pub fn new() -> (res: Self)
        ensures
            res.message@ == Seq::<char>::empty(),
    {
        MessageVisitor { message: String::new() }
    }

    /// Looks at a field, whose value is given as text: the message is the last
    /// field with that name.
    pub fn record(&mut self, field: &str, value: String)
        ensures
            final(self).message@ == message_after(old(self).message@, field@, value@),
    {
        if field.to_string() == "message".to_string() {
            self.message = value;
        }
    }
}

/// Old entries are deleted after every hundredth entry, and are old after thirty
/// days.
pub proof fn law_cleanup_is_due_after_a_hundred_entries(layer: SqliteLayer)
    requires
        layer.well_formed(),
    ensures
        1 <= layer.until_cleanup() <= 100,
        layer.until_cleanup() == 100 - layer.written,
        RETENTION_DAYS == 30,
{
}

/// Old entries are deleted on the hundredth entry since they were last, and on no
/// other.
pub proof fn law_every_hundredth_entry_cleans_up(
    before: SqliteLayer,
    after: SqliteLayer,
    due: bool,
)
    requires
        before.well_formed(),
        after.well_formed(),
        counts(before, after, due),
    ensures
        due <==> before.written == 99,
        due ==> after.written == 0,
        !due ==> after.written == before.written + 1,
{
}

/// The message of an event is the field with that name; other fields do not matter.
pub proof fn law_message_is_the_field_with_that_name(
    message: Seq<char>,
    field: Seq<char>,
    value: Seq<char>,
)
    ensures
        message_after(message, "message"@, value) == value,
        field != "message"@ ==> message_after(message, field, value) == message,
{
}

} // verus!
