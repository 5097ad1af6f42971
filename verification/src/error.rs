//! The speech pipeline's error taxonomy and its rendering.
//!
//! Five kinds of failure, mapped from the provider's transport and HTTP
//! responses: rejected credentials, throttling (with an optional retry delay
//! in seconds), locally detected invalid input, transport-level failures, and
//! anything else (carrying the provider's raw status and body).

use vstd::prelude::*;

verus! {

/// A typed failure of one speech-generation attempt.
#[derive(Debug)]
pub enum TTSError {
    /// The provider rejected the credentials (HTTP 401 class).
    Authentication(String),
    /// The provider throttled the request (HTTP 429 class); the payload is
    /// the `retry-after` delay in seconds when the provider sent one.
    RateLimit(Option<u64>),
    /// Locally detected invalid input; never caused by the provider.
    ValidationError(String),
    /// Transport-level failure: timeout, connection reset, or a failed
    /// external invocation.
    NetworkError(String),
    /// Any other non-success status, with the raw status code and body.
    UnknownError(u16, String),
}

/// Mathematical image of a [`TTSError`]: the same five kinds over `Seq<char>`.
pub ghost enum ErrView {
    Authentication(Seq<char>),
    RateLimit(Option<u64>),
    ValidationError(Seq<char>),
    NetworkError(Seq<char>),
    UnknownError(u16, Seq<char>),
}

impl View for TTSError {
    type V = ErrView;

    open spec fn view(&self) -> ErrView {
        match self {
            TTSError::Authentication(m) => ErrView::Authentication(m@),
            TTSError::RateLimit(r) => ErrView::RateLimit(*r),
            TTSError::ValidationError(m) => ErrView::ValidationError(m@),
            TTSError::NetworkError(m) => ErrView::NetworkError(m@),
            TTSError::UnknownError(st, m) => ErrView::UnknownError(*st, m@),
        }
    }
}

/// The decimal digit character for `d` in `0 ..= 9`.
pub open spec fn dec_digit_char(d: int) -> char {
    if d == 0 {
        '0'
    } else if d == 1 {
        '1'
    } else if d == 2 {
        '2'
    } else if d == 3 {
        '3'
    } else if d == 4 {
        '4'
    } else if d == 5 {
        '5'
    } else if d == 6 {
        '6'
    } else if d == 7 {
        '7'
    } else if d == 8 {
        '8'
    } else {
        '9'
    }
}

/// The decimal rendering of a non-negative number, most significant digit
/// first, with no leading zeroes (a lone zero for 0).
pub open spec fn dec_chars(n: int) -> Seq<char>
    decreases n,
{
    if n < 10 {
        seq![dec_digit_char(n)]
    } else {
        dec_chars(n / 10).push(dec_digit_char(n % 10))
    }
}

fn dec_digit_str(d: u64) -> (r: &'static str)
    requires
        d < 10,
    ensures
        r@ == seq![dec_digit_char(d as int)],
{
    proof {
        reveal_strlit("0");
        reveal_strlit("1");
        reveal_strlit("2");
        reveal_strlit("3");
        reveal_strlit("4");
        reveal_strlit("5");
        reveal_strlit("6");
        reveal_strlit("7");
        reveal_strlit("8");
        reveal_strlit("9");
    }
    let r = match d {
        0 => "0",
        1 => "1",
        2 => "2",
        3 => "3",
        4 => "4",
        5 => "5",
        6 => "6",
        7 => "7",
        8 => "8",
        _ => "9",
    };
    proof {
        assert(r@ =~= seq![dec_digit_char(d as int)]);
    }
    r
}

/// The digit characters of the collected remainders `ds` (least significant
/// first), read back most significant first.
spec fn digits_chars(ds: Seq<u8>) -> Seq<char> {
    Seq::new(ds.len(), |i: int| dec_digit_char(ds[ds.len() - 1 - i] as int))
}

/// Render `n` in decimal.
#[verifier::loop_isolation(false)]
pub fn u64_to_string(n: u64) -> (s: String)
    ensures
        s@ == dec_chars(n as int),
{
    let mut digits: Vec<u8> = Vec::new();
    let mut m: u64 = n;
    proof {
        assert(digits_chars(digits@) =~= Seq::<char>::empty());
        assert(dec_chars(n as int) =~= dec_chars(m as int) + digits_chars(digits@));
    }
    while m >= 10
        invariant
            dec_chars(n as int) == dec_chars(m as int) + digits_chars(digits@),
            forall|i: int| 0 <= i < digits@.len() ==> digits@[i] < 10,
        decreases m,
    {
        let d = m % 10;
        let ghost ds0 = digits@;
        digits.push(d as u8);
        m = m / 10;
        proof {
            assert(digits_chars(digits@) =~= seq![dec_digit_char(d as int)] + digits_chars(ds0));
            assert(dec_chars(m as int).push(dec_digit_char(d as int)) + digits_chars(ds0)
                =~= dec_chars(m as int) + (seq![dec_digit_char(d as int)] + digits_chars(ds0)));
        }
    }
    let mut s = String::new();
    s.append(dec_digit_str(m));
    proof {
        assert(s@ =~= seq![dec_digit_char(m as int)]);
        assert(dec_chars(m as int) =~= seq![dec_digit_char(m as int)]);
        assert(dec_chars(n as int).take(1) =~= seq![dec_digit_char(m as int)]);
    }
    let total = digits.len();
    let mut k: usize = total;
    while k > 0
        invariant
            k <= total,
            total == digits@.len(),
            forall|i: int| 0 <= i < digits@.len() ==> digits@[i] < 10,
            dec_chars(n as int) == seq![dec_digit_char(m as int)] + digits_chars(digits@),
            s@ == dec_chars(n as int).take(1 + (total - k)),
        decreases k,
    {
        let d = digits[k - 1];
        s.append(dec_digit_str(d as u64));
        proof {
            assert(digits_chars(digits@)[total - k] == dec_digit_char(d as int));
            assert(dec_chars(n as int)[1 + (total - k)] == dec_digit_char(d as int));
            assert(dec_chars(n as int).take(1 + (total - k) + 1) =~= dec_chars(n as int).take(
                1 + (total - k),
            ).push(dec_digit_char(d as int)));
        }
        k = k - 1;
    }
    proof {
        assert(dec_chars(n as int).take(1 + (total - 0)) =~= dec_chars(n as int));
    }
    s
}

/// What [`TTSError::describe`] returns for each kind of error.
pub open spec fn describe_spec(e: ErrView) -> Seq<char> {
    match e {
        ErrView::Authentication(m) => "Authentication error: "@ + m,
        ErrView::RateLimit(r) => match r {
            Some(secs) => "Rate limit exceeded. Retry after "@ + dec_chars(secs as int)
                + " seconds"@,
            None => "Rate limit exceeded"@,
        },
        ErrView::ValidationError(m) => "Validation error: "@ + m,
        ErrView::NetworkError(m) => "Network error: "@ + m,
        ErrView::UnknownError(st, m) => "Unknown error: HTTP "@ + dec_chars(st as int) + ": "@
            + m,
    }
}

impl TTSError {
    /// A human-readable, single-line account of the error.
    pub fn describe(&self) -> (s: String)
        ensures
            s@ == describe_spec(self@),
    {
        match self {
            TTSError::Authentication(m) => {
                let mut s = String::from_str("Authentication error: ");
                s.append(m.as_str());
                s
            },
            TTSError::RateLimit(r) => match r {
                Some(secs) => {
                    let mut s = String::from_str("Rate limit exceeded. Retry after ");
                    let num = u64_to_string(*secs);
                    s.append(num.as_str());
                    s.append(" seconds");
                    proof {
                        assert(s@ =~= describe_spec(self@));
                    }
                    s
                },
                None => String::from_str("Rate limit exceeded"),
            },
            TTSError::ValidationError(m) => {
                let mut s = String::from_str("Validation error: ");
                s.append(m.as_str());
                s
            },
            TTSError::NetworkError(m) => {
                let mut s = String::from_str("Network error: ");
                s.append(m.as_str());
                s
            },
            TTSError::UnknownError(st, m) => {
                let mut s = String::from_str("Unknown error: HTTP ");
                let num = u64_to_string(*st as u64);
                s.append(num.as_str());
                s.append(": ");
                s.append(m.as_str());
                proof {
                    assert(s@ =~= describe_spec(self@));
                }
                s
            },
        }
    }
}

} // verus!
