//! Instants of UTC time, counted from the Unix epoch.

use vstd::prelude::*;

verus! {

/// The RFC 3339 text of the instant `seconds` and `nanos` after the Unix
/// epoch, in UTC, or `None` where the calendar cannot express that instant.
pub uninterp spec fn rfc3339_text(seconds: i64, nanos: u32) -> Option<Seq<u8>>;

/// The seconds and nanoseconds since the Unix epoch of the instant that an
/// RFC 3339 text names, or `None` where the text names none.
pub uninterp spec fn rfc3339_instant(text: Seq<u8>) -> Option<(i64, u32)>;

/// Nanoseconds in a second.
pub open spec fn second() -> int {
    1_000_000_000
}

/// No instant lies this many seconds, or more, from the epoch.
pub open spec fn seconds_limit() -> int {
    0x1_0000_0000_0000
}

/// Whole seconds of an instant given in nanoseconds since the epoch.
pub open spec fn instant_seconds(instant: int) -> i64 {
    (instant / second()) as i64
}

/// What is left of an instant after its whole seconds.
pub open spec fn instant_nanos(instant: int) -> u32 {
    (instant % second()) as u32
}

/// Whether the instant `seconds` and `nanos` after the epoch has an RFC 3339
/// text from which it is read back.
pub open spec fn has_text(seconds: i64, nanos: u32) -> bool {
    match rfc3339_text(seconds, nanos) {
        Some(text) => text.len() <= usize::MAX && rfc3339_instant(text) == Some((seconds, nanos)),
        None => false,
    }
}

/// Whether a number of nanoseconds since the epoch is an instant that a
/// [`Timestamp`] can hold.
pub open spec fn valid_instant(instant: int) -> bool {
    &&& -seconds_limit() < instant / second() < seconds_limit()
    &&& has_text(instant_seconds(instant), instant_nanos(instant))
}

/// The instant that a text is the RFC 3339 text of, in nanoseconds since the
/// epoch. A text that names an instant in another way than its own text
/// does stands for none.
pub open spec fn text_instant(text: Seq<u8>) -> Option<int> {
    match rfc3339_instant(text) {
        Some((seconds, nanos)) => {
            let instant = seconds * second() + nanos;
            if nanos < second() && valid_instant(instant) && instant_text(instant) == text {
                Some(instant)
            } else {
                None
            }
        },
        None => None,
    }
}

/// The text of a valid instant stands for that instant.
pub proof fn lemma_text_instant(instant: int)
    requires
        valid_instant(instant),
    ensures
        text_instant(instant_text(instant)) == Some(instant),
{
    vstd::arithmetic::div_mod::lemma_fundamental_div_mod(instant, second());
}

/// The RFC 3339 text of an instant.
pub open spec fn instant_text(instant: int) -> Seq<u8> {
    rfc3339_text(instant_seconds(instant), instant_nanos(instant))->Some_0
}

/// Whole seconds in a span of nanoseconds, rounded towards zero.
pub open spec fn whole_seconds(span: int) -> int {
    if span >= 0 {
        span / second()
    } else {
        -((-span) / second())
    }
}

/// Calls `chrono::Utc::now` and gives the seconds and nanoseconds of the
/// result since the epoch. Nothing is claimed of the two numbers: `chrono`
/// takes them from the system clock.
#[verifier::external_body]
fn utc_now() -> (r: (i64, u32)) {
    let now = chrono::Utc::now();
    (now.timestamp(), now.timestamp_subsec_nanos())
}

/// Calls `chrono::DateTime::from_timestamp` and, where that gives an instant,
/// `DateTime::to_rfc3339_opts` with as many fraction digits as the instant
/// needs and `Z` for the zone.
#[verifier::external_body]
fn rfc3339(seconds: i64, nanos: u32) -> (r: Option<Vec<u8>>)
    ensures
        match r {
            Some(text) => rfc3339_text(seconds, nanos) == Some(text@),
            None => rfc3339_text(seconds, nanos) is None,
        },
{
    chrono::DateTime::from_timestamp(seconds, nanos).map(
        |t| t.to_rfc3339_opts(chrono::SecondsFormat::AutoSi, true).into_bytes(),
    )
}

/// Calls `std::str::from_utf8` and `chrono::DateTime::parse_from_rfc3339`,
/// and gives the seconds and nanoseconds since the epoch of the instant that
/// was read.
#[verifier::external_body]
fn parse_rfc3339(text: &[u8]) -> (r: Option<(i64, u32)>)
    ensures
        r == rfc3339_instant(text@),
{
    match std::str::from_utf8(text) {
        Ok(s) => match chrono::DateTime::parse_from_rfc3339(s) {
            Ok(t) => Some((t.timestamp(), t.timestamp_subsec_nanos())),
            Err(_) => None,
        },
        Err(_) => None,
    }
}

/// An instant of UTC time with nanosecond precision.
#[derive(Clone, Copy, Debug, PartialEq, Eq, Structural)]
pub struct Timestamp {
    seconds: i64,
    nanos: u32,
}

impl View for Timestamp {
    type V = int;

    /// Nanoseconds since the Unix epoch.
    closed spec fn view(&self) -> int {
        self.seconds * second() + self.nanos
    }
}

impl Timestamp {
    /// What holds of every timestamp that a program can hold: it stands for
    /// a valid instant.
    #[verifier::type_invariant]
    pub closed spec fn wf(self) -> bool {
        &&& self.nanos < second()
        &&& -seconds_limit() < self.seconds < seconds_limit()
        &&& has_text(self.seconds, self.nanos)
    }

    /// A well-formed timestamp stands for a valid instant, and no other
    /// timestamp stands for the same one.
    pub proof fn lemma_instant(self)
        requires
            self.wf(),
        ensures
            valid_instant(self@),
            forall|other: Timestamp| other.wf() && other@ == self@ ==> other == self,
    {
        self.lemma_parts();
        assert forall|other: Timestamp| other.wf() && other@ == self@ implies other == self by {
            other.lemma_parts();
        }
    }

    proof fn lemma_parts(self)
        requires
            self.wf(),
        ensures
            self@ / second() == self.seconds,
            self@ % second() == self.nanos,
    {
        vstd::arithmetic::div_mod::lemma_fundamental_div_mod_converse(
            self@,
            second(),
            self.seconds as int,
            self.nanos as int,
        );
    }

    /// The instant `nanos` nanoseconds after `seconds` seconds since the
    /// epoch, where there is such an instant.
    pub fn new(seconds: i64, nanos: u32) -> (r: Option<Timestamp>)
        ensures
            r is Some <==> nanos < second() && valid_instant(seconds * second() + nanos),
            r matches Some(t) ==> t.wf() && t@ == seconds * second() + nanos,
    {
        if nanos >= 1_000_000_000 {
            return None;
        }
        proof {
            vstd::arithmetic::div_mod::lemma_fundamental_div_mod_converse(
                seconds * second() + nanos,
                second(),
                seconds as int,
                nanos as int,
            );
        }
        if seconds <= -0x1_0000_0000_0000 || seconds >= 0x1_0000_0000_0000 {
            return None;
        }
        match rfc3339(seconds, nanos) {
            Some(text) => match parse_rfc3339(text.as_slice()) {
                Some((s, n)) => if s == seconds && n == nanos && text.len() <= usize::MAX {
                    Some(Timestamp { seconds, nanos })
                } else {
                    None
                },
                None => None,
            },
            None => None,
        }
    }

    /// The instant that `text` is the RFC 3339 text of.
    pub fn from_text(text: &[u8]) -> (r: Option<Timestamp>)
        ensures
            match r {
                Some(t) => t.wf() && text_instant(text@) == Some(t@),
                None => text_instant(text@) is None,
            },
    {
        match parse_rfc3339(text) {
            Some((seconds, nanos)) => match Timestamp::new(seconds, nanos) {
                Some(t) => {
                    let own = t.text();
                    if crate::bytes::bytes_equal(own.as_slice(), text) {
                        Some(t)
                    } else {
                        None
                    }
                },
                None => None,
            },
            None => None,
        }
    }

    /// The instant at which the call is made; `None` where the clock shows
    /// none that a timestamp can hold.
    pub fn now() -> (r: Option<Timestamp>)
        ensures
            r matches Some(t) ==> t.wf(),
    {
        let (seconds, nanos) = utc_now();
        Timestamp::new(seconds, nanos)
    }

    /// Whole seconds since the epoch.
    pub fn seconds(&self) -> (r: i64)
        ensures
            r == self@ / second(),
    {
        proof {
            use_type_invariant(self);
            self.lemma_parts();
        }
        self.seconds
    }

    /// Nanoseconds after the last whole second.
    pub fn subsec_nanos(&self) -> (r: u32)
        ensures
            r == self@ % second(),
    {
        proof {
            use_type_invariant(self);
            self.lemma_parts();
        }
        self.nanos
    }

    /// Whether `self` is no later than `other`.
    pub fn le(&self, other: &Timestamp) -> (r: bool)
        ensures
            r == (self@ <= other@),
    {
        proof {
            use_type_invariant(self);
            use_type_invariant(other);
        }
        self.seconds < other.seconds || (self.seconds == other.seconds && self.nanos
            <= other.nanos)
    }

    /// Whether `self` is earlier than `other`.
    pub fn lt(&self, other: &Timestamp) -> (r: bool)
        ensures
            r == (self@ < other@),
    {
        !other.le(self)
    }

    /// Whole seconds from `earlier` to `self`, rounded towards zero; negative
    /// where `self` is the earlier one.
    pub fn seconds_since(&self, earlier: &Timestamp) -> (r: i64)
        ensures
            r == whole_seconds(self@ - earlier@),
    {
        proof {
            use_type_invariant(self);
            use_type_invariant(earlier);
        }
        let ds: i64 = self.seconds - earlier.seconds;
        let dn: i64 = self.nanos as i64 - earlier.nanos as i64;
        let r: i64 = if ds > 0 && dn < 0 {
            ds - 1
        } else if ds < 0 && dn > 0 {
            ds + 1
        } else {
            ds
        };
        proof {
            let span = self@ - earlier@;
            assert(span == ds * second() + dn);
            if span >= 0 {
                if ds > 0 && dn < 0 {
                    vstd::arithmetic::div_mod::lemma_fundamental_div_mod_converse(
                        span,
                        second(),
                        ds - 1,
                        dn + second(),
                    );
                } else {
                    vstd::arithmetic::div_mod::lemma_fundamental_div_mod_converse(
                        span,
                        second(),
                        ds as int,
                        dn as int,
                    );
                }
            } else {
                if ds < 0 && dn > 0 {
                    vstd::arithmetic::div_mod::lemma_fundamental_div_mod_converse(
                        -span,
                        second(),
                        -ds - 1,
                        second() - dn,
                    );
                } else {
                    vstd::arithmetic::div_mod::lemma_fundamental_div_mod_converse(
                        -span,
                        second(),
                        -ds,
                        -dn,
                    );
                }
            }
        }
        r
    }

    /// Whether more than `limit` seconds lie between `self` and the later
    /// instant `now`.
    pub fn older_than(&self, now: &Timestamp, limit: u64) -> (r: bool)
        ensures
            r == (now@ - self@ > limit * second()),
    {
        proof {
            use_type_invariant(self);
            use_type_invariant(now);
        }
        let ds: i128 = now.seconds as i128 - self.seconds as i128;
        let dn: i128 = now.nanos as i128 - self.nanos as i128;
        let span: i128 = ds * 1_000_000_000 + dn;
        let bound: i128 = limit as i128 * 1_000_000_000;
        span > bound
    }

    /// The RFC 3339 text of the instant, as ASCII bytes.
    pub fn text(&self) -> (r: Vec<u8>)
        ensures
            r@ == instant_text(self@),
    {
        proof {
            use_type_invariant(self);
            self.lemma_parts();
        }
        match rfc3339(self.seconds, self.nanos) {
            Some(text) => text,
            None => Vec::new(),
        }
    }
}

} // verus!
