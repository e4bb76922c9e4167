use vstd::prelude::*;

verus! {

/// Relies on chrono's `Utc::now` and `DateTime::timestamp_micros`: the current time, in
/// microseconds since the Unix epoch. `Utc::now` measures from the epoch, so the count is
/// never negative; it panics where the system clock reads earlier than the epoch.
#[verifier::external_body]
fn now_micros() -> (r: i64)
    ensures
        r >= 0,
{
    chrono::Utc::now().timestamp_micros()
}

/// The name and the creation time of a [`crate::directory::Directory`] or a
/// [`crate::file::File`].
pub struct Metadata {
    /// The name, as raw bytes.
    pub name: Vec<u8>,
    /// When it was made, in microseconds since the Unix epoch (UTC).
    pub created_at: i64,
}

impl Metadata {
    /// Creates a new metadata, made now.
    pub fn new(name: Vec<u8>) -> (r: Self)
        ensures
            r.name@ == name@,
            r.created_at >= 0,
    {
        Metadata { name, created_at: now_micros() }
    }
}

} // verus!
