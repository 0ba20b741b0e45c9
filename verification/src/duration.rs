//! Time spans as the configuration writes them: a whole number followed by
//! `s` or `ms`.

use vstd::prelude::*;
use vstd::string::StringExecFns;
use crate::text::{chars_of, decimal, digits_len, is_digit, lemma_decimal_grows, lemma_digits_len};

verus! {

/// A span of time, held as whole seconds and the nanoseconds beyond them.
#[derive(Clone, Copy, Debug, PartialEq, Eq, Structural)]
pub struct Duration {
    secs: u64,
    nanos: u32,
}

impl Duration {
    /// The sub-second part stays below one second.
    #[verifier::type_invariant]
    spec fn inv(self) -> bool {
        self.nanos < 1_000_000_000
    }

    /// The whole span in nanoseconds.
    pub closed spec fn as_nanos(self) -> nat {
        (self.secs * 1_000_000_000 + self.nanos) as nat
    }

    /// A span of `secs` seconds.
    pub fn from_secs(secs: u64) -> (d: Duration)
        ensures
            d.as_nanos() == secs * 1_000_000_000,
    {
        Duration { secs, nanos: 0 }
    }

    /// A span of `millis` milliseconds.
    pub fn from_millis(millis: u64) -> (d: Duration)
        ensures
            d.as_nanos() == millis * 1_000_000,
    {
        let rest: u32 = (millis % 1000) as u32;
        Duration { secs: millis / 1000, nanos: rest * 1_000_000 }
    }

    /// The span in whole milliseconds, rounded down.
    pub fn as_millis(&self) -> (m: u128)
        ensures
            m == self.as_nanos() / 1_000_000,
    {
        proof {
            use_type_invariant(self);
        }
        let whole: u128 = self.secs as u128 * 1000;
        let part: u128 = (self.nanos / 1_000_000) as u128;
        whole + part
    }

    /// The whole seconds of the span.
    pub fn secs(&self) -> (s: u64)
        ensures
            s == self.as_nanos() / 1_000_000_000,
    {
        proof {
            use_type_invariant(self);
        }
        self.secs
    }

    /// What the span holds beyond its whole seconds, in nanoseconds.
    pub fn subsec_nanos(&self) -> (n: u32)
        ensures
            n == self.as_nanos() % 1_000_000_000,
    {
        proof {
            use_type_invariant(self);
        }
        self.nanos
    }
}

/// The unit that ends a written time span.
#[derive(Clone, Copy, Debug, PartialEq, Eq, Structural)]
pub enum Unit {
    Seconds,
    Millis,
}

impl Unit {
    /// Nanoseconds in one unit.
    pub open spec fn nanos(self) -> nat {
        match self {
            Unit::Seconds => 1_000_000_000,
            Unit::Millis => 1_000_000,
        }
    }
}

/// The number and unit that `s` writes, if it is one or more decimal digits
/// whose value fits 64 bits, followed by exactly `s` or `ms`.
pub open spec fn written_span(s: Seq<char>) -> Option<(nat, Unit)> {
    let k = digits_len(s) as int;
    let n = decimal(s.take(k));
    let rest = s.skip(k);
    if k == 0 || n > u64::MAX {
        None
    } else if rest == seq!['s'] {
        Some((n, Unit::Seconds))
    } else if rest == seq!['m', 's'] {
        Some((n, Unit::Millis))
    } else {
        None
    }
}

/// The text that reports `s` as no time span.
pub open spec fn invalid_span_message(s: Seq<char>) -> Seq<char> {
    "invalid value: "@ + s + ", expected 10s or 10ms"@
}

/// Reads a time span such as `2s` or `1000ms`.
pub fn parse_duration(s: &str) -> (r: Result<Duration, String>)
    ensures
        match written_span(s@) {
            Some((n, unit)) => r matches Ok(d) && d.as_nanos() == n * unit.nanos(),
            None => r matches Err(msg) && msg@ == invalid_span_message(s@),
        },
{
    let chars = chars_of(s);
    let len = chars.len();
    let mut i: usize = 0;
    let mut n: u64 = 0;
    let mut fits = true;
    while i < len && '0' <= chars[i] && chars[i] <= '9'
        invariant
            len == chars.len(),
            chars@ == s@,
            i <= len,
            forall|j: int| 0 <= j < i ==> is_digit(s@[j]),
            fits ==> n == decimal(s@.take(i as int)),
            !fits ==> decimal(s@.take(i as int)) > u64::MAX,
        decreases len - i,
    {
        proof {
            lemma_decimal_grows(s@, i as int);
        }
        let digit: u64 = chars[i] as u64 - '0' as u64;
        if fits {
            match n.checked_mul(10) {
                Some(tens) => match tens.checked_add(digit) {
                    Some(sum) => {
                        n = sum;
                    },
                    None => {
                        fits = false;
                    },
                },
                None => {
                    fits = false;
                },
            }
        }
        i += 1;
    }
    proof {
        lemma_digits_len(s@, i as int);
        reveal_strlit("invalid value: ");
        reveal_strlit(", expected 10s or 10ms");
    }
    let ghost rest = s@.skip(i as int);
    if i > 0 && fits {
        if len - i == 1 && chars[i] == 's' {
            assert(rest =~= seq!['s']);
            return Ok(Duration::from_secs(n));
        }
        if len - i == 2 && chars[i] == 'm' && chars[i + 1] == 's' {
            assert(rest =~= seq!['m', 's']);
            assert(rest != seq!['s']);
            return Ok(Duration::from_millis(n));
        }
        assert(rest != seq!['s']) by {
            if rest == seq!['s'] {
                assert(rest.len() == 1);
                assert(rest[0] == 's');
            }
        }
        assert(rest != seq!['m', 's']) by {
            if rest == seq!['m', 's'] {
                assert(rest.len() == 2);
                assert(rest[0] == 'm');
                assert(rest[1] == 's');
            }
        }
    }
    let msg = String::from_str("invalid value: ").concat(s).concat(", expected 10s or 10ms");
    Err(msg)
}

/// How long an upstream name server may take to answer.
pub fn default_dns_timeout() -> (d: Duration)
    ensures
        d.as_nanos() == 2 * 1_000_000_000,
{
    Duration::from_secs(2)
}

/// How long a bridged connection may stay silent on the reading side.
pub fn default_read_timeout() -> (d: Duration)
    ensures
        d.as_nanos() == 30 * 1_000_000_000,
{
    Duration::from_secs(30)
}

/// How long a bridged connection may stay blocked on the writing side.
pub fn default_write_timeout() -> (d: Duration)
    ensures
        d.as_nanos() == 30 * 1_000_000_000,
{
    Duration::from_secs(30)
}

/// How long one attempt to reach the egress may take.
pub fn default_connect_timeout() -> (d: Duration)
    ensures
        d.as_nanos() == 100 * 1_000_000,
{
    Duration::from_millis(100)
}

/// How many times the egress is dialled again after a failure.
pub fn default_connect_retries() -> (n: u8)
    ensures
        n == 2,
{
    2
}

} // verus!
