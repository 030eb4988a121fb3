//! Stored records and their creation time.

use vstd::prelude::*;
use crate::analyzer::{PropertiesView, StringProperties};

verus! {

/// A point in time: whole seconds since the Unix epoch, and nanoseconds
/// past that second.
#[derive(Clone, Copy, PartialEq, Eq, Debug)]
pub struct Timestamp {
    pub secs: i64,
    pub nanos: u32,
}

/// Relies on chrono's `From<SystemTime> for DateTime<Utc>`, which also
/// takes times before the epoch, read back as `timestamp` and
/// `timestamp_subsec_nanos`. Nothing is promised of the time.
#[verifier::external_body]
pub(crate) fn current_time() -> (r: Timestamp) {
    let now = chrono::DateTime::<chrono::Utc>::from(std::time::SystemTime::now());
    Timestamp { secs: now.timestamp(), nanos: now.timestamp_subsec_nanos() }
}

/// A stored text: its content address, the text, its properties and when
/// it was stored.
#[derive(Clone, Debug)]
pub struct StringData {
    pub id: String,
    pub value: String,
    pub properties: StringProperties,
    pub created_at: Timestamp,
}

/// A record as mathematical values.
pub struct RecordView {
    pub id: Seq<char>,
    pub value: Seq<char>,
    pub properties: PropertiesView,
    pub created_at: Timestamp,
}

impl View for StringData {
    type V = RecordView;

    open spec fn view(&self) -> RecordView {
        RecordView {
            id: self.id@,
            value: self.value@,
            properties: self.properties@,
            created_at: self.created_at,
        }
    }
}

impl StringData {
    /// A copy of this record.
    pub fn duplicate(&self) -> (r: StringData)
        ensures
            r@ == self@,
    {
        StringData {
            id: self.id.clone(),
            value: self.value.clone(),
            properties: self.properties.duplicate(),
            created_at: self.created_at,
        }
    }
}

/// The text that a create request carries.
pub struct CreateStringRequest {
    pub value: String,
}

} // verus!
