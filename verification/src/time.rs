//! Points in time.

use vstd::prelude::*;

verus! {

/// A point in UTC: the seconds since the epoch and the nanoseconds within the
/// second.
#[derive(Clone, Copy, Debug, PartialEq, Eq, Structural)]
pub struct Timestamp {
    pub secs: i64,
    pub nanos: u32,
}

impl DeepView for Timestamp {
    type V = Timestamp;

    open spec fn deep_view(&self) -> Timestamp {
        *self
    }
}

/// `a` lies strictly before `b`.
pub open spec fn earlier(a: Timestamp, b: Timestamp) -> bool {
    a.secs < b.secs || a.secs == b.secs && a.nanos < b.nanos
}

/// The point a number of days before.
pub open spec fn days_earlier(t: Timestamp, days: int) -> Timestamp {
    Timestamp { secs: (t.secs - days * 86400) as i64, nanos: t.nanos }
}

/// The RFC 3339 notation of a point in time.
pub uninterp spec fn rfc3339(t: Timestamp) -> Seq<char>;

/// The date of a point in time as year, month and day with hyphens.
pub uninterp spec fn date_text(t: Timestamp) -> Seq<char>;

impl Timestamp {
    /// `chrono::Utc::now`. Nothing is stated of the result: it is the clock of
    /// the machine.
    #[verifier::external_body]
    pub(crate) fn now() -> (r: Timestamp) {
        let now = chrono::Utc::now();
        Timestamp { secs: now.timestamp(), nanos: now.timestamp_subsec_nanos() }
    }

    pub fn before(self, other: Timestamp) -> (r: bool)
        ensures
            r == earlier(self, other),
    {
        self.secs < other.secs || self.secs == other.secs && self.nanos < other.nanos
    }

    /// The point a number of days before.
    pub fn minus_days(self, days: i64) -> (r: Timestamp)
        requires
            i64::MIN <= days * 86400 <= i64::MAX,
            i64::MIN <= self.secs - days * 86400 <= i64::MAX,
        ensures
            r == days_earlier(self, days as int),
    {
        Timestamp { secs: self.secs - days * 86400, nanos: self.nanos }
    }

    /// `chrono::DateTime::to_rfc3339`, named `rfc3339`; a point outside the
    /// range of `chrono` has the empty text. The notation has no line feed.
    #[verifier::external_body]
    pub(crate) fn to_rfc3339(self) -> (r: String)
        ensures
            r@ == rfc3339(self),
            !r@.contains('\n'),
    {
        chrono::DateTime::from_timestamp(self.secs, self.nanos).map(
            |d| d.to_rfc3339(),
        ).unwrap_or_default()
    }

    /// `chrono::DateTime::format` with `%Y-%m-%d`, named `date_text`; a point
    /// outside the range of `chrono` has the empty text.
    #[verifier::external_body]
    pub(crate) fn to_date(self) -> (r: String)
        ensures
            r@ == date_text(self),
    {
        chrono::DateTime::from_timestamp(self.secs, self.nanos).map(
            |d| d.format("%Y-%m-%d").to_string(),
        ).unwrap_or_default()
    }
}

} // verus!
