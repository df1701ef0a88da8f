use vstd::prelude::*;

verus! {

/// A single persisted record: a title, free-form content, tags, and two
/// timestamps, keyed by a unique random identifier.
pub struct Note {
    pub id: u128,
    pub title: String,
    pub content: String,
    pub tags: Vec<String>,
    pub created_at: i64,
    pub updated_at: i64,
}

/// The mathematical shape of a note: plain sequences and integers.
#[verifier::ext_equal]
pub struct NoteView {
    pub id: u128,
    pub title: Seq<char>,
    pub content: Seq<char>,
    pub tags: Seq<Seq<char>>,
    pub created_at: i64,
    pub updated_at: i64,
}

impl View for Note {
    type V = NoteView;

    open spec fn view(&self) -> NoteView {
        NoteView {
            id: self.id,
            title: self.title@,
            content: self.content@,
            tags: self.tags.deep_view(),
            created_at: self.created_at,
            updated_at: self.updated_at,
        }
    }
}

/// Relies on uuid's Uuid::new_v4: a fresh random version-4 identifier, read
/// out through Uuid::as_u128. Randomness admits no promise about the value.
#[verifier::external_body]
fn fresh_id() -> u128 {
    uuid::Uuid::new_v4().as_u128()
}

/// Relies on chrono's Local::now for the current local time, converted to
/// milliseconds since the Unix epoch by DateTime::timestamp_millis. The
/// clock admits no promise about the value.
#[verifier::external_body]
fn now_millis() -> i64 {
    chrono::Local::now().timestamp_millis()
}

impl Note {
    /// Builds a fresh note: a newly drawn random identifier and the current
    /// time stamped on both timestamps.
    pub fn new(title: String, content: String, tags: Vec<String>) -> (r: Note)
        ensures
            r@.title == title@,
            r@.content == content@,
            r@.tags == tags.deep_view(),
            r@.created_at == r@.updated_at,
    {
        let now = now_millis();
        Note { id: fresh_id(), title, content, tags, created_at: now, updated_at: now }
    }
}

} // verus!
