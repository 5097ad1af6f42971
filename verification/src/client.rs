//! The speech client's verified core.
//!
//! One synthesis request per call: [`build_speech_request`] renders the JSON
//! request body, [`classify_response`] maps the provider's HTTP response into
//! the typed error taxonomy, and [`retry_step`] decides, attempt by attempt,
//! whether an outcome ends the call or earns another try after an exponential
//! backoff.  The surrounding I/O (sending the request, sleeping) is the
//! application's job; every decision here is pure and fully specified.

use vstd::prelude::*;

use crate::error::{ErrView, TTSError};

verus! {

/// A decimal digit character.
pub open spec fn is_dec_digit(c: char) -> bool {
    '0' <= c && c <= '9'
}

/// Numeric value of a decimal digit character.
pub open spec fn dec_digit_val(c: char) -> int {
    c as int - 48
}

/// Value of a digit string, most significant digit first.
pub open spec fn dec_val(s: Seq<char>) -> int
    decreases s.len(),
{
    if s.len() == 0 {
        0
    } else {
        dec_val(s.drop_last()) * 10 + dec_digit_val(s.last())
    }
}

pub open spec fn all_dec_digits(s: Seq<char>) -> bool {
    forall|i: int| 0 <= i < s.len() ==> is_dec_digit(#[trigger] s[i])
}

/// What parsing a decimal `u64` returns: the value when the string is
/// non-empty, all digits, and within range; nothing otherwise.
pub open spec fn parse_u64_spec(s: Seq<char>) -> Option<u64> {
    if s.len() > 0 && all_dec_digits(s) && dec_val(s) <= u64::MAX {
        Some(dec_val(s) as u64)
    } else {
        None
    }
}

proof fn lemma_dec_val_nonneg(s: Seq<char>)
    requires
        all_dec_digits(s),
    ensures
        dec_val(s) >= 0,
    decreases s.len(),
{
    if s.len() > 0 {
        assert(all_dec_digits(s.drop_last()));
        lemma_dec_val_nonneg(s.drop_last());
    }
}

/// A digit string's value only grows as digits are appended.
proof fn lemma_dec_val_prefix(s: Seq<char>, i: int)
    requires
        0 <= i <= s.len(),
        all_dec_digits(s),
    ensures
        dec_val(s.take(i)) <= dec_val(s),
    decreases s.len() - i,
{
    if i < s.len() {
        assert(s.take(i + 1).drop_last() =~= s.take(i));
        assert(s.take(i + 1).last() == s[i]);
        assert(all_dec_digits(s.take(i)));
        lemma_dec_val_nonneg(s.take(i));
        assert(dec_val(s.take(i + 1)) == dec_val(s.take(i)) * 10 + dec_digit_val(s[i]));
        lemma_dec_val_prefix(s, i + 1);
    } else {
        assert(s.take(i) =~= s);
    }
}

/// Parse a decimal `u64`, as the provider's `retry-after` header carries it.
/// Returns the value exactly when the text is a non-empty digit string whose
/// value fits; rejects everything else.
#[verifier::loop_isolation(false)]
pub fn parse_u64_dec(s: &str) -> (r: Option<u64>)
    ensures
        r == parse_u64_spec(s@),
{
    let len = s.unicode_len();
    if len == 0 {
        return None;
    }
    let mut v: u64 = 0;
    let mut i: usize = 0;
    while i < len
        invariant
            i <= len,
            len == s@.len(),
            all_dec_digits(s@.take(i as int)),
            v == dec_val(s@.take(i as int)),
        decreases len - i,
    {
        let c = s.get_char(i);
        if !('0' <= c && c <= '9') {
            proof {
                assert(!is_dec_digit(s@[i as int]));
            }
            return None;
        }
        let d: u64 = (c as u32 as u64) - 48;
        proof {
            assert(d == dec_digit_val(s@[i as int]));
            assert(s@.take(i + 1).drop_last() =~= s@.take(i as int));
            assert(s@.take(i + 1).last() == s@[i as int]);
            assert(all_dec_digits(s@.take(i + 1)));
        }
        if v > (u64::MAX - d) / 10 {
            proof {
                assert(v * 10 + d > u64::MAX) by (nonlinear_arith)
                    requires
                        v > (u64::MAX - d) / 10,
                        d <= 9,
                ;
                assert(dec_val(s@.take(i + 1)) > u64::MAX);
                if all_dec_digits(s@) {
                    lemma_dec_val_prefix(s@, i + 1);
                }
            }
            return None;
        }
        proof {
            assert(v * 10 + d <= u64::MAX) by (nonlinear_arith)
                requires
                    v <= (u64::MAX - d) / 10,
                    d <= 9,
            ;
        }
        v = v * 10 + d;
        i = i + 1;
    }
    proof {
        assert(s@.take(len as int) =~= s@);
    }
    Some(v)
}

/// Map one provider HTTP response to audio bytes or a typed error.
///
/// Success (200) yields the body unchanged; 401 is an authentication
/// failure carrying the body text; 429 is a rate limit carrying the parsed
/// `retry-after` header when one was sent; anything else is an unknown error
/// with the raw status and body text.
pub fn classify_response(
    status: u16,
    retry_after: Option<String>,
    body: Vec<u8>,
    body_text: String,
) -> (r: Result<Vec<u8>, TTSError>)
    ensures
        status == 200 ==> (r matches Ok(b) && b@ == body@),
        status == 401 ==> (r matches Err(e) && e@ == ErrView::Authentication(body_text@)),
        status == 429 ==> (r matches Err(e) && e@ == ErrView::RateLimit(
            match retry_after {
                Some(h) => parse_u64_spec(h@),
                None => None,
            },
        )),
        status != 200 && status != 401 && status != 429 ==> (r matches Err(e) && e@
            == ErrView::UnknownError(status, body_text@)),
{
    if status == 200 {
        Ok(body)
    } else if status == 401 {
        Err(TTSError::Authentication(body_text))
    } else if status == 429 {
        let secs = match &retry_after {
            Some(h) => parse_u64_dec(h.as_str()),
            None => None,
        };
        Err(TTSError::RateLimit(secs))
    } else {
        Err(TTSError::UnknownError(status, body_text))
    }
}

/// What a string looks like as a JSON string literal, quotes and escapes
/// included.  The rendering is done by the serializer; the name stands for
/// its result, which depends on the characters alone.
pub uninterp spec fn json_quoted(s: Seq<char>) -> Seq<char>;

/// Relies on `serde_json::to_string` for a string slice: renders the slice as
/// a JSON string literal (quoted and escaped).  Serialising a string slice
/// cannot fail.
#[verifier::external_body]
fn json_quote(s: &str) -> (r: String)
    ensures
        r@ == json_quoted(s@),
{
    match serde_json::to_string(s) {
        Ok(q) => q,
        Err(_) => String::new(),
    }
}

/// The JSON request body for one synthesis call.
pub open spec fn speech_request_spec(model: Seq<char>, input: Seq<char>, voice: Seq<char>) -> Seq<
    char,
> {
    "{\"model\":"@ + json_quoted(model) + ",\"input\":"@ + json_quoted(input) + ",\"voice\":"@
        + json_quoted(voice) + ",\"response_format\":\"mp3\"}"@
}

/// Render the JSON body of one synthesis request: model, input text, voice,
/// and the fixed mp3 output format.
pub fn build_speech_request(model: &str, input: &str, voice: &str) -> (body: String)
    ensures
        body@ == speech_request_spec(model@, input@, voice@),
{
    let mut body = String::from_str("{\"model\":");
    let q_model = json_quote(model);
    body.append(q_model.as_str());
    body.append(",\"input\":");
    let q_input = json_quote(input);
    body.append(q_input.as_str());
    body.append(",\"voice\":");
    let q_voice = json_quote(voice);
    body.append(q_voice.as_str());
    body.append(",\"response_format\":\"mp3\"}");
    proof {
        assert(body@ =~= speech_request_spec(model@, input@, voice@));
    }
    body
}

/// At most this many synthesis attempts per chunk.
pub const MAX_ATTEMPTS: u32 = 3;

/// Base backoff delay; it doubles with each retry.
pub const BASE_DELAY_MS: u64 = 1000;

/// 2 to the power `e`.
pub open spec fn pow2(e: int) -> int
    decreases e,
{
    if e <= 0 {
        1
    } else {
        2 * pow2(e - 1)
    }
}

/// What the retry loop does after one attempt's outcome.
pub enum RetryStep {
    /// The call is over: either audio, or the error to surface.
    Done(Result<Vec<u8>, TTSError>),
    /// Try again after sleeping `delay_ms`, as attempt `next_attempt`.
    Backoff { delay_ms: u64, next_attempt: u32 },
}

/// Mathematical image of a [`RetryStep`].
pub ghost enum StepView {
    Done(Result<Seq<u8>, ErrView>),
    Backoff { delay_ms: int, next_attempt: int },
}

impl View for RetryStep {
    type V = StepView;

    open spec fn view(&self) -> StepView {
        match self {
            RetryStep::Done(r) => StepView::Done(
                match r {
                    Ok(b) => Ok(b@),
                    Err(e) => Err(e@),
                },
            ),
            RetryStep::Backoff { delay_ms, next_attempt } => StepView::Backoff {
                delay_ms: *delay_ms as int,
                next_attempt: *next_attempt as int,
            },
        }
    }
}

/// The retry decision as a pure function of the outcome and the 0-based
/// attempt number.  Success ends the call with the audio.  Rate limits and
/// authentication failures are never retried and are surfaced verbatim, so
/// the caller can still honor a rate limit's retry-after delay.  Any other
/// error is retried with a doubling backoff until the attempts are
/// exhausted, and the last error is returned verbatim.
pub open spec fn retry_step_spec(attempt: int, outcome: Result<Seq<u8>, ErrView>) -> StepView {
    match outcome {
        Ok(b) => StepView::Done(Ok(b)),
        Err(e) => match e {
            ErrView::RateLimit(_) => StepView::Done(Err(e)),
            ErrView::Authentication(_) => StepView::Done(Err(e)),
            _ => {
                if attempt >= MAX_ATTEMPTS - 1 {
                    StepView::Done(Err(e))
                } else {
                    StepView::Backoff {
                        delay_ms: BASE_DELAY_MS * pow2(attempt),
                        next_attempt: attempt + 1,
                    }
                }
            },
        },
    }
}

/// Mathematical image of one attempt's outcome.
pub open spec fn outcome_view(o: Result<Vec<u8>, TTSError>) -> Result<Seq<u8>, ErrView> {
    match o {
        Ok(b) => Ok(b@),
        Err(e) => Err(e@),
    }
}

/// Decide what the retry loop does after the outcome of attempt `attempt`
/// (0-based).  The caller performs the sleep and the next request.
pub fn retry_step(attempt: u32, outcome: Result<Vec<u8>, TTSError>) -> (r: RetryStep)
    requires
        attempt < MAX_ATTEMPTS,
    ensures
        r@ == retry_step_spec(attempt as int, outcome_view(outcome)),
{
    match outcome {
        Ok(b) => RetryStep::Done(Ok(b)),
        Err(e) => match e {
            TTSError::RateLimit(_) => RetryStep::Done(Err(e)),
            TTSError::Authentication(_) => RetryStep::Done(Err(e)),
            other => {
                if attempt >= MAX_ATTEMPTS - 1 {
                    RetryStep::Done(Err(other))
                } else {
                    proof {
                        assert(pow2(0) == 1);
                        assert(pow2(1) == 2 * pow2(0));
                    }
                    let delay_ms: u64 = if attempt == 0 {
                        BASE_DELAY_MS
                    } else {
                        2 * BASE_DELAY_MS
                    };
                    RetryStep::Backoff { delay_ms, next_attempt: attempt + 1 }
                }
            },
        },
    }
}

/// Run the retry policy over a sequence of attempt outcomes, starting at
/// attempt number `attempt`; yields the final result and how many attempts
/// were made.  Outcomes beyond what the policy consumes are ignored.
pub open spec fn retry_run(outcomes: Seq<Result<Seq<u8>, ErrView>>, attempt: int) -> (
    Result<Seq<u8>, ErrView>,
    int,
)
    decreases outcomes.len(),
{
    if outcomes.len() == 0 {
        (Err(ErrView::NetworkError(Seq::empty())), 0)
    } else {
        match retry_step_spec(attempt, outcomes[0]) {
            StepView::Done(r) => (r, 1),
            StepView::Backoff { next_attempt, .. } => {
                let rest = retry_run(outcomes.skip(1), next_attempt);
                (rest.0, 1 + rest.1)
            },
        }
    }
}

/// Two transient network failures followed by a success: the retry loop
/// returns the success and makes exactly three attempts.
pub proof fn lemma_retry_success_after_two_network_errors(
    m1: Seq<char>,
    m2: Seq<char>,
    b: Seq<u8>,
)
    ensures
        ({
            let outs = seq![
                Result::<Seq<u8>, ErrView>::Err(ErrView::NetworkError(m1)),
                Result::<Seq<u8>, ErrView>::Err(ErrView::NetworkError(m2)),
                Result::<Seq<u8>, ErrView>::Ok(b),
            ];
            retry_run(outs, 0) == (Result::<Seq<u8>, ErrView>::Ok(b), 3int)
        }),
{
    let outs = seq![
        Result::<Seq<u8>, ErrView>::Err(ErrView::NetworkError(m1)),
        Result::<Seq<u8>, ErrView>::Err(ErrView::NetworkError(m2)),
        Result::<Seq<u8>, ErrView>::Ok(b),
    ];
    assert(outs.skip(1) =~= seq![
        Result::<Seq<u8>, ErrView>::Err(ErrView::NetworkError(m2)),
        Result::<Seq<u8>, ErrView>::Ok(b),
    ]);
    assert(outs.skip(1).skip(1) =~= seq![Result::<Seq<u8>, ErrView>::Ok(b)]);
    assert(retry_run(outs.skip(1).skip(1), 2) == (Result::<Seq<u8>, ErrView>::Ok(b), 1int));
    assert(retry_run(outs.skip(1), 1) == (Result::<Seq<u8>, ErrView>::Ok(b), 2int));
    assert(retry_run(outs, 0) == (Result::<Seq<u8>, ErrView>::Ok(b), 3int));
}

/// An authentication failure on the first attempt ends the call at once:
/// exactly one attempt is made and the error is surfaced verbatim,
/// unretried.
pub proof fn lemma_retry_auth_stops_first_attempt(
    outcomes: Seq<Result<Seq<u8>, ErrView>>,
    m: Seq<char>,
)
    requires
        outcomes.len() >= 1,
        outcomes[0] == Result::<Seq<u8>, ErrView>::Err(ErrView::Authentication(m)),
    ensures
        retry_run(outcomes, 0).1 == 1,
        retry_run(outcomes, 0).0 == Result::<Seq<u8>, ErrView>::Err(ErrView::Authentication(m)),
{
}

/// A rate limit on the first attempt likewise ends the call at once, never
/// retried, with its retry-after delay preserved: the caller decides
/// whether to honor it.
pub proof fn lemma_retry_rate_limit_stops_first_attempt(
    outcomes: Seq<Result<Seq<u8>, ErrView>>,
    secs: Option<u64>,
)
    requires
        outcomes.len() >= 1,
        outcomes[0] == Result::<Seq<u8>, ErrView>::Err(ErrView::RateLimit(secs)),
    ensures
        retry_run(outcomes, 0).1 == 1,
        retry_run(outcomes, 0).0 == Result::<Seq<u8>, ErrView>::Err(ErrView::RateLimit(secs)),
{
}

} // verus!
