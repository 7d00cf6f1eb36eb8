//! Error and record types shared by the whole library.

use vstd::prelude::*;

verus! {

/// No timestamp at or beyond this second (the start of year 10000)
/// can be rendered as an RFC 3339 string.
pub const TIMESTAMP_LIMIT: u64 = 253402300800;

/// What `humantime::parse_rfc3339` yields for a text, taken as
/// whole seconds since the Unix epoch; `None` where it rejects the
/// text. The result depends on the characters alone.
pub uninterp spec fn rfc3339_secs(s: Seq<char>) -> Option<u64>;

/// The RFC 3339 rendering (whole seconds, UTC) of an epoch second,
/// as produced by `humantime::format_rfc3339_seconds`.
pub uninterp spec fn rfc3339_text(secs: u64) -> Seq<char>;

/// Relies on `humantime::parse_rfc3339` for reading a provider
/// timestamp; a time it accepts never reaches year 10000, so the
/// result is always below [`TIMESTAMP_LIMIT`].
#[verifier::external_body]
fn parse_timestamp(s: &str) -> (r: Option<u64>)
    ensures
        r == rfc3339_secs(s@),
        r matches Some(t) ==> t < TIMESTAMP_LIMIT,
{
    match humantime::parse_rfc3339(s) {
        Ok(t) => match t.duration_since(std::time::UNIX_EPOCH) {
            Ok(d) => Some(d.as_secs()),
            Err(_) => None,
        },
        Err(_) => None,
    }
}

/// Relies on `humantime::format_rfc3339_seconds`: the rendering is
/// UTC and a function of the time alone; it is total below
/// [`TIMESTAMP_LIMIT`].
#[verifier::external_body]
pub(crate) fn format_timestamp(secs: u64) -> (r: String)
    requires
        secs < TIMESTAMP_LIMIT,
    ensures
        r@ == rfc3339_text(secs),
{
    let t = std::time::UNIX_EPOCH + std::time::Duration::from_secs(secs);
    humantime::format_rfc3339_seconds(t).to_string()
}

/// Mathematical view of one object record.
pub struct RecordView {
    pub key: Seq<char>,
    pub size: u64,
    pub last_modified: u64,
}

impl RecordView {
    /// A record the collectors accept: a non-empty key and a
    /// renderable modification time.
    pub open spec fn valid(self) -> bool {
        &&& self.key.len() > 0
        &&& self.last_modified < TIMESTAMP_LIMIT
    }
}

/// Normalized view of one stored object: a non-empty path-like key,
/// its size in bytes, and its last-modified time in seconds since
/// the Unix epoch.
#[derive(Clone)]
pub struct ObjectRecord {
    pub key: String,
    pub size: u64,
    pub last_modified: u64,
}

impl View for ObjectRecord {
    type V = RecordView;

    open spec fn view(&self) -> RecordView {
        RecordView { key: self.key@, size: self.size, last_modified: self.last_modified }
    }
}

impl DeepView for ObjectRecord {
    type V = RecordView;

    open spec fn deep_view(&self) -> RecordView {
        self.view()
    }
}

impl ObjectRecord {
    /// Builds a record from the plain values a listing yields: the
    /// modification time comes as RFC 3339 text. Returns `None` when
    /// the key is empty or the text is no timestamp.
    pub fn from_parts(key: String, size: u64, last_modified_text: &str) -> (r: Option<
        ObjectRecord,
    >)
        ensures
            r is Some <==> key@.len() > 0 && rfc3339_secs(last_modified_text@) is Some,
            r matches Some(rec) ==> {
                &&& rec@.key == key@
                &&& rec@.size == size
                &&& Some(rec@.last_modified) == rfc3339_secs(last_modified_text@)
                &&& rec@.valid()
            },
    {
        if key.as_str().unicode_len() == 0 {
            return None;
        }
        match parse_timestamp(last_modified_text) {
            Some(t) => Some(ObjectRecord { key, size, last_modified: t }),
            None => None,
        }
    }
}

/// Delegating error wrapper for failures raised anywhere in a run.
///
/// The internal `String` representation enables cheap coercion from
/// other error messages by binding them through.
pub struct MetaError(pub String);

impl From<String> for MetaError {
    fn from(s: String) -> (r: MetaError) {
        MetaError(s)
    }
}

impl vstd::std_specs::convert::FromSpecImpl<String> for MetaError {
    open spec fn obeys_from_spec() -> bool {
        true
    }

    open spec fn from_spec(v: String) -> MetaError {
        MetaError(v)
    }
}

impl<'a> From<&'a str> for MetaError {
    fn from(s: &'a str) -> (r: MetaError)
        ensures
            r.0@ == s@,
    {
        MetaError(s.to_owned())
    }
}

impl<'a> vstd::std_specs::convert::FromSpecImpl<&'a str> for MetaError {
    open spec fn obeys_from_spec() -> bool {
        false
    }

    open spec fn from_spec(v: &'a str) -> MetaError {
        arbitrary()
    }
}

} // verus!
