//! The speech service: provider profile, input validation, usage tracking,
//! account status, and the per-call generation run that the application
//! drives chunk by chunk.

use vstd::prelude::*;

use crate::assembler::assemble_audio;
use crate::chunker::{split_spec, split_text_semantically};
use crate::error::{describe_spec, ErrView, TTSError};
use crate::ledger::{
    daily_rollup, most_used_voice_spec, newest_first, stat_chars, stat_failed, stat_success,
    stat_total, window_cutoff, DailyUsage, Ledger, UsageRecord, UsageStats, UserInfo,
};

verus! {

use vstd::string::StringSliceAdditionalSpecFns;
use vstd::string::StrSliceExecFns;

/// Unicode whitespace, as the standard library's whitespace test counts it
/// (the White_Space property): used for trimming identifiers and testing
/// emptiness, so that text made only of exotic spaces is still rejected.
pub open spec fn is_space_char(c: char) -> bool {
    ||| c == ' '
    ||| c == '\t'
    ||| c == '\n'
    ||| c == '\r'
    ||| c as int == 0xb
    ||| c as int == 0xc
    ||| c as int == 0x85
    ||| c as int == 0xa0
    ||| c as int == 0x1680
    ||| 0x2000 <= c as int <= 0x200a
    ||| c as int == 0x2028
    ||| c as int == 0x2029
    ||| c as int == 0x202f
    ||| c as int == 0x205f
    ||| c as int == 0x3000
}

/// The text is empty once trimmed: every character is whitespace.
pub open spec fn trimmed_empty(s: Seq<char>) -> bool {
    forall|i: int| 0 <= i < s.len() ==> is_space_char(#[trigger] s[i])
}

pub open spec fn trim_start(s: Seq<char>) -> Seq<char>
    decreases s.len(),
{
    if s.len() > 0 && is_space_char(s[0]) {
        trim_start(s.skip(1))
    } else {
        s
    }
}

pub open spec fn trim_end(s: Seq<char>) -> Seq<char>
    decreases s.len(),
{
    if s.len() > 0 && is_space_char(s.last()) {
        trim_end(s.drop_last())
    } else {
        s
    }
}

/// The text with leading and trailing whitespace removed.
pub open spec fn trim_spec(s: Seq<char>) -> Seq<char> {
    trim_end(trim_start(s))
}

proof fn lemma_trim_start_at(s: Seq<char>, a: int)
    requires
        0 <= a <= s.len(),
        forall|j: int| 0 <= j < a ==> is_space_char(#[trigger] s[j]),
        a == s.len() || !is_space_char(s[a]),
    ensures
        trim_start(s) == s.skip(a),
    decreases a,
{
    if a == 0 {
        if s.len() > 0 && is_space_char(s[0]) {
            assert(false);
        }
        assert(s.skip(0) =~= s);
    } else {
        assert(is_space_char(s[0]));
        let rest = s.skip(1);
        assert forall|j: int| 0 <= j < a - 1 implies is_space_char(#[trigger] rest[j]) by {
            assert(rest[j] == s[j + 1]);
        }
        if a - 1 < rest.len() {
            assert(rest[a - 1] == s[a]);
        }
        lemma_trim_start_at(rest, a - 1);
        assert(rest.skip(a - 1) =~= s.skip(a));
    }
}

proof fn lemma_trim_end_at(s: Seq<char>, b: int)
    requires
        0 <= b <= s.len(),
        forall|j: int| b <= j < s.len() ==> is_space_char(#[trigger] s[j]),
        b == 0 || !is_space_char(s[b - 1]),
    ensures
        trim_end(s) == s.take(b),
    decreases s.len() - b,
{
    if b == s.len() {
        if s.len() > 0 && is_space_char(s.last()) {
            assert(false);
        }
        assert(s.take(b) =~= s);
    } else {
        assert(is_space_char(s.last()));
        let rest = s.drop_last();
        assert forall|j: int| b <= j < rest.len() implies is_space_char(#[trigger] rest[j]) by {
            assert(rest[j] == s[j]);
        }
        if b > 0 {
            assert(rest[b - 1] == s[b - 1]);
        }
        lemma_trim_end_at(rest, b);
        assert(rest.take(b) =~= s.take(b));
    }
}


fn char_is_space(c: char) -> (r: bool)
    ensures
        r == is_space_char(c),
{
    let u = c as u32;
    c == ' ' || c == '\t' || c == '\n' || c == '\r' || u == 0xb || u == 0xc || u == 0x85
        || u == 0xa0 || u == 0x1680 || (0x2000 <= u && u <= 0x200a) || u == 0x2028
        || u == 0x2029 || u == 0x202f || u == 0x205f || u == 0x3000
}

/// Do two character ranges agree: `s[a..b]` versus all of `t`?
fn eq_sub(s: &str, a: usize, b: usize, t: &str) -> (r: bool)
    requires
        a <= b <= s@.len(),
    ensures
        r == (s@.subrange(a as int, b as int) == t@),
{
    let tl = t.unicode_len();
    if b - a != tl {
        proof {
            assert(s@.subrange(a as int, b as int).len() != t@.len());
        }
        return false;
    }
    let mut k: usize = 0;
    while k < tl
        invariant
            k <= tl,
            tl == t@.len(),
            b - a == tl,
            a <= b <= s@.len(),
            forall|j: int| 0 <= j < k ==> s@[a + j] == t@[j],
        decreases tl - k,
    {
        let c1 = s.get_char(a + k);
        let c2 = t.get_char(k);
        if c1 != c2 {
            proof {
                assert(s@.subrange(a as int, b as int)[k as int] != t@[k as int]);
            }
            return false;
        }
        k = k + 1;
    }
    proof {
        assert(s@.subrange(a as int, b as int) =~= t@);
    }
    true
}

/// Does `h` contain `n` as a contiguous byte subsequence?
pub open spec fn contains_seq(h: Seq<u8>, n: Seq<u8>) -> bool {
    exists|i: int| 0 <= i && i + n.len() <= h.len() && #[trigger] h.subrange(i, i + n.len()) == n
}

fn match_at(h: &[u8], n: &[u8], i: usize) -> (r: bool)
    requires
        i + n.len() <= h.len(),
    ensures
        r == (h@.subrange(i as int, i + n@.len()) == n@),
{
    let mut k: usize = 0;
    while k < n.len()
        invariant
            k <= n@.len(),
            i + n@.len() <= h@.len(),
            forall|j: int| 0 <= j < k ==> h@[i + j] == n@[j],
        decreases n@.len() - k,
    {
        if h[i + k] != n[k] {
            proof {
                assert(h@.subrange(i as int, i + n@.len())[k as int] != n@[k as int]);
            }
            return false;
        }
        k = k + 1;
    }
    proof {
        assert(h@.subrange(i as int, i + n@.len()) =~= n@);
    }
    true
}

/// Byte search for `n` inside `h`.
fn contains_bytes(h: &[u8], n: &[u8]) -> (r: bool)
    ensures
        r == contains_seq(h@, n@),
{
    if n.len() > h.len() {
        proof {
            assert(!contains_seq(h@, n@));
        }
        return false;
    }
    if n.len() == 0 {
        proof {
            assert(h@.subrange(0, 0 + n@.len() as int) =~= n@);
        }
        return true;
    }
    let mut i: usize = 0;
    while i <= h.len() - n.len()
        invariant
            1 <= n@.len() <= h@.len(),
            i <= h@.len() - n@.len() + 1,
            forall|j: int| 0 <= j < i ==> #[trigger] h@.subrange(j, j + n@.len()) != n@,
        decreases h@.len() - i,
    {
        if match_at(h, n, i) {
            return true;
        }
        i = i + 1;
    }
    proof {
        assert(!contains_seq(h@, n@));
    }
    false
}

/// The voice catalog of the legacy provider profile.
pub open spec fn eleven_catalog() -> Seq<Seq<char>> {
    seq!["rachel"@, "adam"@, "bella"@]
}

/// The voice catalog of the default provider profile.
pub open spec fn openai_catalog() -> Seq<Seq<char>> {
    seq!["alloy"@, "echo"@, "fable"@, "onyx"@, "nova"@, "shimmer"@]
}

/// The byte needle that selects the legacy profile from a base URL.
pub open spec fn eleven_needle() -> Seq<u8> {
    seq![101u8, 108u8, 101u8, 118u8, 101u8, 110u8, 108u8, 97u8, 98u8, 115u8]
}

/// One provider's configuration: its voice catalog (or an open catalog), its
/// outright text-length rejection policy, its per-request chunk budget, and
/// its default model.
pub struct ProviderProfile {
    /// The enumerated voice ids the provider accepts.
    pub voices: Vec<String>,
    /// An open-ended voice catalog: any non-empty id is accepted.
    pub open_catalog: bool,
    /// Reject text longer than this many bytes outright; `None` delegates
    /// long text to chunking.
    pub max_text_len: Option<usize>,
    /// The per-request character budget that chunking must respect.
    pub max_chunk_size: usize,
    /// The model requested when the caller names none.
    pub default_model: String,
    /// The provider's primary voice, reported when a usage window is empty.
    pub primary_voice: String,
}

/// The default profile: six enumerated voices, no outright length rejection
/// (long text is chunked), a budget safely under the provider's limit.
pub fn openai_profile() -> (p: ProviderProfile)
    ensures
        p.voices.deep_view() == openai_catalog(),
        !p.open_catalog,
        p.max_text_len is None,
        p.max_chunk_size == 3800,
        p.default_model@ == "tts-1-hd"@,
        p.primary_voice@ == "alloy"@,
{
    let mut voices: Vec<String> = Vec::new();
    voices.push(String::from_str("alloy"));
    voices.push(String::from_str("echo"));
    voices.push(String::from_str("fable"));
    voices.push(String::from_str("onyx"));
    voices.push(String::from_str("nova"));
    voices.push(String::from_str("shimmer"));
    proof {
        assert(voices.deep_view() =~= openai_catalog());
    }
    ProviderProfile {
        voices,
        open_catalog: false,
        max_text_len: None,
        max_chunk_size: 3800,
        default_model: String::from_str("tts-1-hd"),
        primary_voice: String::from_str("alloy"),
    }
}

/// The legacy profile: three enumerated voices and outright rejection of
/// text over 5000 bytes.
pub fn eleven_profile() -> (p: ProviderProfile)
    ensures
        p.voices.deep_view() == eleven_catalog(),
        !p.open_catalog,
        p.max_text_len == Some(5000usize),
        p.max_chunk_size == 3800,
        p.default_model@ == "eleven_multilingual_v2"@,
        p.primary_voice@ == "rachel"@,
{
    let mut voices: Vec<String> = Vec::new();
    voices.push(String::from_str("rachel"));
    voices.push(String::from_str("adam"));
    voices.push(String::from_str("bella"));
    proof {
        assert(voices.deep_view() =~= eleven_catalog());
    }
    ProviderProfile {
        voices,
        open_catalog: false,
        max_text_len: Some(5000),
        max_chunk_size: 3800,
        default_model: String::from_str("eleven_multilingual_v2"),
        primary_voice: String::from_str("rachel"),
    }
}

/// Is the base URL one of the legacy provider's endpoints?
pub open spec fn is_eleven_url(url: Seq<char>) -> bool {
    contains_seq(vstd::utf8::encode_utf8(url), eleven_needle())
}

fn eleven_needle_bytes() -> (n: Vec<u8>)
    ensures
        n@ == eleven_needle(),
{
    let mut n: Vec<u8> = Vec::new();
    n.push(101u8);
    n.push(108u8);
    n.push(101u8);
    n.push(118u8);
    n.push(101u8);
    n.push(110u8);
    n.push(108u8);
    n.push(97u8);
    n.push(98u8);
    n.push(115u8);
    proof {
        assert(n@ =~= eleven_needle());
    }
    n
}

/// The profile a base URL selects: the legacy profile for the legacy
/// provider's endpoints, the default profile otherwise.
pub fn profile_for_base_url(base_url: &str) -> (p: ProviderProfile)
    ensures
        is_eleven_url(base_url@) ==> p.voices.deep_view() == eleven_catalog()
            && p.max_text_len == Some(5000usize) && p.default_model@
            == "eleven_multilingual_v2"@ && p.primary_voice@ == "rachel"@,
        !is_eleven_url(base_url@) ==> p.voices.deep_view() == openai_catalog()
            && p.max_text_len is None && p.default_model@ == "tts-1-hd"@ && p.primary_voice@
            == "alloy"@,
        !p.open_catalog,
        p.max_chunk_size == 3800,
{
    let needle = eleven_needle_bytes();
    if contains_bytes(base_url.as_bytes(), needle.as_slice()) {
        eleven_profile()
    } else {
        openai_profile()
    }
}

/// A voice id the profile accepts: non-empty once trimmed, and, for a fixed
/// catalog, a member of it.
pub open spec fn voice_ok(
    voices: Seq<Seq<char>>,
    open_catalog: bool,
    voice: Seq<char>,
) -> bool {
    let t = trim_spec(voice);
    t.len() > 0 && (open_catalog || exists|i: int| 0 <= i < voices.len() && voices[i] == t)
}

/// Relies on `chrono::Utc::now`: the current time of the system clock, as
/// unix seconds.  The result depends on the clock, so nothing is assumed
/// of it.
#[verifier::external_body]
fn now_unix_raw() -> i64 {
    chrono::Utc::now().timestamp()
}

/// The current time as unix seconds, clamped below at the epoch.
fn now_unix() -> (t: i64)
    ensures
        t >= 0,
{
    let t = now_unix_raw();
    if t < 0 {
        0
    } else {
        t
    }
}

/// The speech service: provider configuration, credentials, and (optionally)
/// the usage ledger.  All network and storage I/O is performed by the
/// application through the service's pure decision functions.
pub struct TTSService {
    api_key: String,
    base_url: String,
    profile: ProviderProfile,
    database: Option<Ledger>,
}

impl TTSService {
    pub closed spec fn api_key_spec(&self) -> Seq<char> {
        self.api_key@
    }

    pub closed spec fn base_url_spec(&self) -> Seq<char> {
        self.base_url@
    }

    /// The profile's voice catalog.
    pub closed spec fn voices_spec(&self) -> Seq<Seq<char>> {
        self.profile.voices.deep_view()
    }

    pub closed spec fn open_catalog_spec(&self) -> bool {
        self.profile.open_catalog
    }

    pub closed spec fn max_text_len_spec(&self) -> Option<usize> {
        self.profile.max_text_len
    }

    pub closed spec fn chunk_budget_spec(&self) -> int {
        self.profile.max_chunk_size as int
    }

    pub closed spec fn model_spec(&self) -> Seq<char> {
        self.profile.default_model@
    }

    /// The profile's primary voice, the empty-window default of the stats.
    pub closed spec fn primary_voice_spec(&self) -> Seq<char> {
        self.profile.primary_voice@
    }

    /// The attached ledger, if the service was built with one.
    pub closed spec fn db(&self) -> Option<Ledger> {
        self.database
    }

    /// The service is well-formed: a positive chunk budget, and a
    /// well-formed ledger when one is attached.
    pub open spec fn wf(&self) -> bool {
        &&& self.chunk_budget_spec() >= 1
        &&& match self.db() {
            Some(l) => l.wf(),
            None => true,
        }
    }

    /// The ledger, if any, can still assign an identity.
    pub open spec fn ledger_room(&self) -> bool {
        match self.db() {
            Some(l) => l.next_id_spec() < i64::MAX,
            None => true,
        }
    }

    /// What the constructors establish about a fresh service.
    pub open spec fn fresh_spec(&self, api_key: Seq<char>, base_url: Seq<char>) -> bool {
        &&& self.api_key_spec() == api_key
        &&& self.base_url_spec() == base_url
        &&& !self.open_catalog_spec()
        &&& self.chunk_budget_spec() == 3800
        &&& is_eleven_url(base_url) ==> self.voices_spec() == eleven_catalog()
            && self.max_text_len_spec() == Some(5000usize) && self.model_spec()
            == "eleven_multilingual_v2"@ && self.primary_voice_spec() == "rachel"@
        &&& !is_eleven_url(base_url) ==> self.voices_spec() == openai_catalog()
            && self.max_text_len_spec() is None && self.model_spec() == "tts-1-hd"@
            && self.primary_voice_spec() == "alloy"@
    }

    /// A service without a ledger: attempts are not recorded.
    pub fn new(api_key: &str, base_url: &str) -> (s: TTSService)
        ensures
            s.wf(),
            s.fresh_spec(api_key@, base_url@),
            s.db() is None,
    {
        TTSService {
            api_key: String::from_str(api_key),
            base_url: String::from_str(base_url),
            profile: profile_for_base_url(base_url),
            database: None,
        }
    }

    /// A service with a fresh, empty usage ledger attached.
    pub fn with_database(api_key: &str, base_url: &str) -> (r: Result<TTSService, TTSError>)
        ensures
            r matches Ok(s) && s.wf() && s.fresh_spec(api_key@, base_url@) && (s.db()
                matches Some(l) && l.recs() == Seq::<crate::ledger::RecordView>::empty()
                && l.cached() is None),
    {
        Ok(
            TTSService {
                api_key: String::from_str(api_key),
                base_url: String::from_str(base_url),
                profile: profile_for_base_url(base_url),
                database: Some(Ledger::new()),
            },
        )
    }

    /// The credential handed to the provider.
    pub fn api_key(&self) -> (r: &str)
        ensures
            r@ == self.api_key_spec(),
    {
        self.api_key.as_str()
    }

    /// The provider endpoint's base URL.
    pub fn base_url(&self) -> (r: &str)
        ensures
            r@ == self.base_url_spec(),
    {
        self.base_url.as_str()
    }

    /// The synthesis endpoint under the service's base URL.
    pub fn speech_endpoint(&self) -> (url: String)
        ensures
            url@ == self.base_url_spec() + "/v1/audio/speech"@,
    {
        let mut url = self.base_url.clone();
        url.append("/v1/audio/speech");
        url
    }

    /// The per-request character budget chunking must respect.
    pub fn max_chunk_size(&self) -> (r: usize)
        ensures
            r == self.chunk_budget_spec(),
    {
        self.profile.max_chunk_size
    }

    /// The model requested when the caller names none.
    pub fn default_model(&self) -> (r: &str)
        ensures
            r@ == self.model_spec(),
    {
        self.profile.default_model.as_str()
    }

    /// Whether a usage ledger is attached.
    pub fn has_database(&self) -> (r: bool)
        ensures
            r == (self.db() is Some),
    {
        self.database.is_some()
    }

    /// Whether the ledger, if any, can still assign an identity.  (A ledger
    /// runs out only after `i64::MAX` inserts.)
    pub fn ledger_has_room(&self) -> (r: bool)
        ensures
            r == self.ledger_room(),
    {
        match &self.database {
            Some(l) => l.has_room(),
            None => true,
        }
    }

    /// Character count of the text, as the usage ledger records it.
    pub fn count_characters(&self, text: &str) -> (n: usize)
        ensures
            n == text@.len(),
    {
        text.unicode_len()
    }

    /// Reject empty input before any network call; with a profile that sets
    /// an outright length bound, reject overlong input too.
    pub fn validate_text(&self, text: &str) -> (r: Result<(), TTSError>)
        ensures
            r is Ok <==> (!trimmed_empty(text@) && (match self.max_text_len_spec() {
                None => true,
                Some(m) => text.spec_bytes().len() as usize <= m,
            })),
            trimmed_empty(text@) ==> (r matches Err(e) && e@ == ErrView::ValidationError(
                "Text cannot be empty"@,
            )),
            !trimmed_empty(text@) && (match self.max_text_len_spec() {
                None => false,
                Some(m) => text.spec_bytes().len() as usize > m,
            }) ==> (r matches Err(e) && e@ == ErrView::ValidationError("Text is too long"@)),
    {
        let len = text.unicode_len();
        let mut i: usize = 0;
        let mut has_content = false;
        while i < len && !has_content
            invariant
                i <= len,
                len == text@.len(),
                !has_content ==> forall|j: int| 0 <= j < i ==> is_space_char(#[trigger] text@[j]),
                has_content ==> !trimmed_empty(text@),
            decreases len - i, (if has_content { 0int } else { 1int }),
        {
            let c = text.get_char(i);
            if !char_is_space(c) {
                proof {
                    assert(!is_space_char(text@[i as int]));
                }
                has_content = true;
            } else {
                i = i + 1;
            }
        }
        if !has_content {
            return Err(TTSError::ValidationError(String::from_str("Text cannot be empty")));
        }
        match self.profile.max_text_len {
            Some(m) => {
                if text.len() > m {
                    Err(TTSError::ValidationError(String::from_str("Text is too long")))
                } else {
                    Ok(())
                }
            },
            None => Ok(()),
        }
    }

    /// Is the voice id acceptable to the profile: non-empty once trimmed
    /// and, for a fixed catalog, one of its members?
    pub fn is_valid_voice(&self, voice_id: &str) -> (r: bool)
        ensures
            r == voice_ok(self.voices_spec(), self.open_catalog_spec(), voice_id@),
    {
        let len = voice_id.unicode_len();
        let mut a: usize = 0;
        while a < len && char_is_space(voice_id.get_char(a))
            invariant
                a <= len,
                len == voice_id@.len(),
                forall|j: int| 0 <= j < a ==> is_space_char(#[trigger] voice_id@[j]),
            decreases len - a,
        {
            a = a + 1;
        }
        if a == len {
            proof {
                lemma_trim_start_at(voice_id@, len as int);
                assert(trim_start(voice_id@) =~= Seq::<char>::empty());
                assert(trim_spec(voice_id@).len() == 0);
            }
            return false;
        }
        proof {
            assert(!is_space_char(voice_id@[a as int]));
        }
        let mut b: usize = len;
        while b > a + 1 && char_is_space(voice_id.get_char(b - 1))
            invariant
                a < b <= len,
                len == voice_id@.len(),
                forall|j: int| b <= j < len ==> is_space_char(#[trigger] voice_id@[j]),
            decreases b,
        {
            b = b - 1;
        }
        proof {
            assert(!is_space_char(voice_id@[b - 1]));
            lemma_trim_start_at(voice_id@, a as int);
            let rest = voice_id@.skip(a as int);
            assert forall|j: int| b - a <= j < rest.len() implies is_space_char(
                #[trigger] rest[j],
            ) by {
                assert(rest[j] == voice_id@[j + a]);
            }
            assert(rest[b - a - 1] == voice_id@[b - 1]);
            lemma_trim_end_at(rest, b - a);
            assert(trim_spec(voice_id@) =~= voice_id@.subrange(a as int, b as int));
            assert(trim_spec(voice_id@).len() > 0);
        }
        if self.profile.open_catalog {
            return true;
        }
        let mut i: usize = 0;
        while i < self.profile.voices.len()
            invariant
                i <= self.profile.voices@.len(),
                a < b <= voice_id@.len(),
                trim_spec(voice_id@) == voice_id@.subrange(a as int, b as int),
                forall|k: int|
                    0 <= k < i ==> #[trigger] self.voices_spec()[k] != trim_spec(voice_id@),
            decreases self.profile.voices@.len() - i,
        {
            if eq_sub(voice_id, a, b, self.profile.voices[i].as_str()) {
                proof {
                    assert(self.voices_spec()[i as int] == self.profile.voices@[i as int]@);
                }
                return true;
            }
            proof {
                assert(self.voices_spec()[i as int] == self.profile.voices@[i as int]@);
            }
            i = i + 1;
        }
        proof {
            assert(!voice_ok(self.voices_spec(), self.open_catalog_spec(), voice_id@));
        }
        false
    }
}


/// The optional cutoff a listing uses: none without a window, otherwise the
/// trailing window's lower bound.
pub open spec fn listing_cutoff(now: int, days: Option<i32>) -> Option<int> {
    match days {
        Some(d) => Some(window_cutoff(now, d as int)),
        None => None,
    }
}

/// What the ledger stores of the request text: at most 100 bytes, a 97-byte
/// prefix with a three-dot marker when the text was cut.
pub open spec fn stored_text_spec(t: Seq<u8>) -> Seq<u8> {
    if t.len() > 100 {
        t.take(97) + seq![46u8, 46u8, 46u8]
    } else {
        t
    }
}

/// A character count as the record's 32-bit field holds it: saturated at
/// `i32::MAX`.
pub open spec fn count_i32(n: int) -> int {
    if n > i32::MAX {
        i32::MAX as int
    } else {
        n
    }
}

/// The number of UTF-8 character starts in the bytes: every byte except the
/// continuation bytes (`0x80 ..= 0xBF`).  For valid UTF-8 — and a run's
/// chunks are slices of the request text cut at ASCII boundaries — this is
/// exactly the character count.
pub open spec fn utf8_char_count(b: Seq<u8>) -> int
    decreases b.len(),
{
    if b.len() == 0 {
        0
    } else {
        utf8_char_count(b.drop_last()) + if 128 <= b.last() < 192 {
            0int
        } else {
            1int
        }
    }
}

/// Count the UTF-8 character starts of `b`.
fn count_utf8_chars(b: &[u8]) -> (n: usize)
    ensures
        n == utf8_char_count(b@),
{
    let mut n: usize = 0;
    let mut i: usize = 0;
    while i < b.len()
        invariant
            i <= b@.len(),
            n == utf8_char_count(b@.take(i as int)),
            n <= i,
        decreases b@.len() - i,
    {
        proof {
            assert(b@.take(i + 1).drop_last() =~= b@.take(i as int));
            assert(b@.take(i + 1).last() == b@[i as int]);
        }
        let x = b[i];
        if !(128 <= x && x < 192) {
            n = n + 1;
        }
        i = i + 1;
    }
    proof {
        assert(b@.take(b@.len() as int) =~= b@);
    }
    n
}

/// The record the ledger receives for one attempt, before an identity is
/// assigned: the text's stored prefix and the character count `chars` of the
/// full, untruncated text.
pub open spec fn attempt_record(
    text: Seq<u8>,
    chars: int,
    voice: Seq<char>,
    model: Seq<char>,
    success: bool,
    err: Option<Seq<char>>,
    ts: int,
) -> crate::ledger::RecordView {
    crate::ledger::RecordView {
        id: None,
        timestamp: ts,
        text: stored_text_spec(text),
        character_count: count_i32(chars),
        voice_id: voice,
        model_id: model,
        success,
        error_message: err,
    }
}

/// The ledger's state after recording one attempt at time `ts`.
pub open spec fn recorded(
    l: Ledger,
    l2: Ledger,
    text: Seq<u8>,
    chars: int,
    voice: Seq<char>,
    model: Seq<char>,
    success: bool,
    err: Option<Seq<char>>,
    ts: int,
) -> bool {
    let rec = attempt_record(text, chars, voice, model, success, err, ts);
    let stored = crate::ledger::RecordView { id: Some((l.next_id_spec()) as i64), ..rec };
    let k = crate::ledger::insert_pos(l.recs(), ts);
    &&& l2.recs() == l.recs().take(k) + seq![stored] + l.recs().skip(k)
    &&& l2.next_id_spec() == l.next_id_spec() + 1
    &&& l2.cached() == l.cached()
}

/// What the ledger's record holds of one outcome: nothing on success, the
/// error's rendered description on failure.
pub open spec fn outcome_err_msg(o: Result<Vec<u8>, TTSError>) -> Option<Seq<char>> {
    match o {
        Ok(_) => None,
        Err(e) => Some(describe_spec(e@)),
    }
}

/// Mathematical image of an optional error message.
pub open spec fn err_view(e: Option<String>) -> Option<Seq<char>> {
    match e {
        Some(m) => Some(m@),
        None => None,
    }
}

/// Two services share all configuration (the ledger aside).
pub open spec fn same_config(a: &TTSService, b: &TTSService) -> bool {
    &&& a.api_key_spec() == b.api_key_spec()
    &&& a.base_url_spec() == b.base_url_spec()
    &&& a.voices_spec() == b.voices_spec()
    &&& a.open_catalog_spec() == b.open_catalog_spec()
    &&& a.max_text_len_spec() == b.max_text_len_spec()
    &&& a.chunk_budget_spec() == b.chunk_budget_spec()
    &&& a.model_spec() == b.model_spec()
    &&& a.primary_voice_spec() == b.primary_voice_spec()
}

/// The attempt-time fields of a usage-statistics value, against the ledger's
/// records and a window cutoff.
pub open spec fn stats_match(
    rs: Seq<crate::ledger::RecordView>,
    c: int,
    default_voice: Seq<char>,
    st: &UsageStats,
) -> bool {
    &&& st.total_requests == stat_total(rs, c)
    &&& st.total_characters == stat_chars(rs, c)
    &&& st.successful_requests == stat_success(rs, c)
    &&& st.failed_requests == stat_failed(rs, c)
    &&& st.successful_requests + st.failed_requests == st.total_requests
    &&& st.most_used_voice@ == most_used_voice_spec(rs, c, default_voice)
    &&& st.daily_usage@.map_values(|g: DailyUsage| g@) == daily_rollup(rs, c).reverse()
}

/// Build the stored byte prefix of a request text.
fn stored_text(text: &[u8]) -> (t: Vec<u8>)
    ensures
        t@ == stored_text_spec(text@),
{
    let mut t: Vec<u8> = Vec::new();
    if text.len() > 100 {
        let mut i: usize = 0;
        while i < 97
            invariant
                i <= 97,
                text@.len() > 100,
                t@ == text@.take(97).take(i as int),
            decreases 97 - i,
        {
            proof {
                assert(text@.take(97).take(i + 1) =~= text@.take(97).take(i as int).push(
                    text@[i as int],
                ));
            }
            t.push(text[i]);
            i = i + 1;
        }
        t.push(46u8);
        t.push(46u8);
        t.push(46u8);
        proof {
            assert(text@.take(97).take(97) =~= text@.take(97));
            assert(t@ =~= text@.take(97) + seq![46u8, 46u8, 46u8]);
        }
    } else {
        let mut i: usize = 0;
        while i < text.len()
            invariant
                i <= text@.len(),
                t@ == text@.take(i as int),
            decreases text@.len() - i,
        {
            proof {
                assert(text@.take(i + 1) =~= text@.take(i as int).push(text@[i as int]));
            }
            t.push(text[i]);
            i = i + 1;
        }
        proof {
            assert(text@.take(text@.len() as int) =~= text@);
        }
    }
    t
}

impl TTSService {
    /// Record one generation attempt in the ledger (a no-op without one):
    /// the text's stored prefix, its full byte count (saturated to 32 bits),
    /// voice, model, outcome, and the attempt time.
    pub fn track_usage(
        &mut self,
        text: &str,
        voice_id: &str,
        model_id: &str,
        success: bool,
        error_message: Option<String>,
    ) -> (r: Result<(), TTSError>)
        requires
            old(self).wf(),
            old(self).ledger_room(),
        ensures
            final(self).wf(),
            same_config(old(self), final(self)),
            r is Ok,
            old(self).db() is None ==> final(self).db() is None,
            old(self).db() matches Some(l) ==> (final(self).db() matches Some(l2)
                && exists|ts: int|
                    ts >= 0 && #[trigger] recorded(
                        l,
                        l2,
                        text.spec_bytes(),
                        text@.len() as int,
                        voice_id@,
                        model_id@,
                        success,
                        err_view(error_message),
                        ts,
                    )),
    {
        let ghost em0 = error_message;
        let ts = now_unix();
        let bytes = text.as_bytes();
        let stored = stored_text(bytes);
        let chars = text.unicode_len();
        let count: i32 = if chars > 0x7fffffffusize {
            0x7fffffffi32
        } else {
            chars as i32
        };
        let dbo = self.database.take();
        match dbo {
            Some(mut l) => {
                let rec = UsageRecord {
                    id: None,
                    timestamp: ts,
                    text: stored,
                    character_count: count,
                    voice_id: String::from_str(voice_id),
                    model_id: String::from_str(model_id),
                    success,
                    error_message,
                };
                proof {
                    assert(rec@ =~= attempt_record(
                        text.spec_bytes(),
                        text@.len() as int,
                        voice_id@,
                        model_id@,
                        success,
                        match error_message {
                            Some(ref m) => Some(m@),
                            None => None,
                        },
                        ts as int,
                    ));
                }
                let ghost l0 = l;
                let ghost recv = rec@;
                let _id = l.record_usage(rec);
                self.database = Some(l);
                proof {
                    assert(recv.error_message == err_view(em0));
                    assert(old(self).db() == Some(l0));
                    assert(_id == (l0.next_id_spec()) as i64);
                    assert(self.db() matches Some(l2) && recorded(
                        l0,
                        l2,
                        text.spec_bytes(),
                        text@.len() as int,
                        voice_id@,
                        model_id@,
                        success,
                        err_view(em0),
                        ts as int,
                    ));
                }
            },
            None => {},
        }
        Ok(())
    }

    /// Put one previously persisted attempt back into the ledger (a no-op
    /// without one), keeping its own timestamp so that aggregation covers
    /// restored history; a fresh identity is assigned.  A record with a
    /// negative timestamp or character count is rejected.
    pub fn restore_record(&mut self, rec: UsageRecord) -> (r: Result<(), TTSError>)
        requires
            old(self).wf(),
            old(self).ledger_room(),
        ensures
            final(self).wf(),
            same_config(old(self), final(self)),
            !crate::ledger::rec_input_valid(rec@) ==> (r matches Err(e) && e@
                == ErrView::ValidationError("invalid usage record"@) && final(self).db()
                == old(self).db()),
            old(self).db() is None ==> final(self).db() is None,
            crate::ledger::rec_input_valid(rec@) ==> r is Ok,
            old(self).db() matches Some(l) ==> crate::ledger::rec_input_valid(rec@)
                ==> (final(self).db() matches Some(l2) && {
                let stored = crate::ledger::RecordView {
                    id: Some((l.next_id_spec()) as i64),
                    ..rec@
                };
                let k = crate::ledger::insert_pos(l.recs(), rec@.timestamp);
                &&& l2.recs() == l.recs().take(k) + seq![stored] + l.recs().skip(k)
                &&& l2.next_id_spec() == l.next_id_spec() + 1
                &&& l2.cached() == l.cached()
            }),
    {
        if rec.timestamp < 0 || rec.character_count < 0 {
            return Err(TTSError::ValidationError(String::from_str("invalid usage record")));
        }
        let dbo = self.database.take();
        match dbo {
            Some(mut l) => {
                let ghost l0 = l;
                let _id = l.record_usage(rec);
                self.database = Some(l);
                proof {
                    assert(old(self).db() == Some(l0));
                    assert(_id == (l0.next_id_spec()) as i64);
                }
            },
            None => {},
        }
        Ok(())
    }

    /// Account status for a pay-per-use provider: no tier limits, usage
    /// drawn from the ledger's trailing 30 days (zero without a ledger), and
    /// the result cached in the ledger when one is attached.
    pub fn get_user_info(&mut self) -> (r: Result<UserInfo, TTSError>)
        requires
            old(self).wf(),
        ensures
            final(self).wf(),
            same_config(old(self), final(self)),
            r matches Ok(info) && {
                &&& info@.subscription_tier == "Pay-per-use"@
                &&& info@.character_limit == -1
                &&& info@.characters_remaining == -1
                &&& info@.reset_date == info@.last_updated
                &&& info@.last_updated >= 0
                &&& old(self).db() is None ==> (info@.character_used == 0 && final(self).db()
                    is None)
                &&& old(self).db() matches Some(l) ==> (exists|now: int|
                    #![auto]
                    now >= 0 && info@.last_updated == now && info@.character_used == count_i32(
                        stat_chars(l.recs(), window_cutoff(now, 30)),
                    ) && (final(self).db() matches Some(l2) && l2.recs() == l.recs()
                        && l2.next_id_spec() == l.next_id_spec() && l2.cached() == Some(info@)))
            },
    {
        let now = now_unix();
        let used: i64 = match &self.database {
            Some(db) => {
                let st = db.get_usage_stats(30, now, self.profile.primary_voice.as_str());
                proof {
                    crate::ledger::lemma_stat_chars_in_range(
                        db.recs(),
                        window_cutoff(now as int, 30),
                    );
                }
                st.total_characters
            },
            None => 0,
        };
        let used_i32: i32 = if used > 0x7fffffffi64 {
            0x7fffffffi32
        } else {
            used as i32
        };
        let info = UserInfo {
            subscription_tier: String::from_str("Pay-per-use"),
            character_limit: -1,
            character_used: used_i32,
            characters_remaining: -1,
            reset_date: now,
            last_updated: now,
        };
        match &mut self.database {
            Some(l) => {
                l.cache_user_info(crate::ledger::copy_info(&info));
            },
            None => {},
        }
        Ok(info)
    }

    /// Aggregate usage over the trailing `days` days, from the ledger;
    /// an explicit "unavailable" error without one.
    pub fn get_usage_stats(&self, days: i32) -> (r: Result<UsageStats, TTSError>)
        requires
            self.wf(),
            days >= 0,
        ensures
            self.db() is None ==> (r matches Err(e) && e@ == ErrView::UnknownError(
                0,
                "Database not available"@,
            )),
            self.db() matches Some(l) ==> (r matches Ok(st) && exists|now: int|
                #![auto]
                now >= 0 && stats_match(
                    l.recs(),
                    window_cutoff(now, days as int),
                    self.primary_voice_spec(),
                    &st,
                )),
    {
        match &self.database {
            Some(db) => Ok(
                db.get_usage_stats(days, now_unix(), self.profile.primary_voice.as_str()),
            ),
            None => Err(
                TTSError::UnknownError(0, String::from_str("Database not available")),
            ),
        }
    }

    /// Up to `limit` records, newest first, optionally restricted to a
    /// trailing window; an explicit "unavailable" error without a ledger.
    pub fn get_usage_history(&self, limit: i32, days: Option<i32>) -> (r: Result<
        Vec<UsageRecord>,
        TTSError,
    >)
        requires
            self.wf(),
            limit >= 0,
            days matches Some(d) ==> d >= 0,
        ensures
            self.db() is None ==> (r matches Err(e) && e@ == ErrView::UnknownError(
                0,
                "Database not available"@,
            )),
            self.db() matches Some(l) ==> (r matches Ok(v) && exists|now: int|
                now >= 0 && v@.map_values(|rec: UsageRecord| rec@) == #[trigger] newest_first(
                    l.recs(),
                    listing_cutoff(now, days),
                    limit as int,
                )),
    {
        match &self.database {
            Some(db) => {
                let now = now_unix();
                let v = db.get_usage_records(limit, days, now);
                proof {
                    assert(v@.map_values(|rec: UsageRecord| rec@) == newest_first(
                        db.recs(),
                        listing_cutoff(now as int, days),
                        limit as int,
                    ));
                }
                Ok(v)
            },
            None => Err(
                TTSError::UnknownError(0, String::from_str("Database not available")),
            ),
        }
    }
}

/// How a request is served, given its length, the single-request cap, and
/// whether the external concatenation tool is available: short text goes out
/// as one request; long text is chunked when the tool can join the audio,
/// and otherwise truncated to the cap (documented degradation, logged by the
/// application).
pub enum GenerationPlan {
    Single,
    Chunked,
    TruncatedSingle,
}

/// Decide how to serve a request of `text_len` bytes under the
/// single-request cap `limit`.
pub fn plan_generation(text_len: usize, limit: usize, tool_available: bool) -> (p: GenerationPlan)
    ensures
        text_len <= limit ==> p is Single,
        text_len > limit && tool_available ==> p is Chunked,
        text_len > limit && !tool_available ==> p is TruncatedSingle,
{
    if text_len <= limit {
        GenerationPlan::Single
    } else if tool_available {
        GenerationPlan::Chunked
    } else {
        GenerationPlan::TruncatedSingle
    }
}

/// The first `limit` bytes of the text; the whole text when it already fits.
pub fn truncate_to_limit(text: &[u8], limit: usize) -> (t: Vec<u8>)
    ensures
        text@.len() > limit ==> t@ == text@.take(limit as int),
        text@.len() <= limit ==> t@ == text@,
{
    let end = if text.len() > limit {
        limit
    } else {
        text.len()
    };
    let mut t: Vec<u8> = Vec::new();
    let mut i: usize = 0;
    while i < end
        invariant
            i <= end <= text@.len(),
            t@ == text@.take(end as int).take(i as int),
        decreases end - i,
    {
        proof {
            assert(text@.take(end as int).take(i + 1) =~= text@.take(end as int).take(
                i as int,
            ).push(text@[i as int]));
        }
        t.push(text[i]);
        i = i + 1;
    }
    proof {
        assert(text@.take(end as int).take(end as int) =~= text@.take(end as int));
        if text@.len() <= limit {
            assert(text@.take(end as int) =~= text@);
        }
    }
    t
}

/// One speech-generation call in progress: the ordered chunks still to be
/// synthesized and the audio collected so far.  The application drives it:
/// fetch [`GenerationRun::next_chunk`], synthesize it (with retries), hand
/// the outcome to [`TTSService::on_chunk_outcome`], and finish with
/// [`TTSService::finish_generation`].
pub struct GenerationRun {
    voice_id: String,
    model_id: String,
    chunks: Vec<Vec<u8>>,
    next: usize,
    audio: Vec<Vec<u8>>,
}

impl GenerationRun {
    /// The ordered chunk texts of this run.
    pub closed spec fn chunks_spec(&self) -> Seq<Seq<u8>> {
        self.chunks.deep_view()
    }

    /// How many chunks have been synthesized and recorded.
    pub closed spec fn next_spec(&self) -> int {
        self.next as int
    }

    /// The audio segments collected so far, in chunk order.
    pub closed spec fn audio_spec(&self) -> Seq<Seq<u8>> {
        self.audio.deep_view()
    }

    pub closed spec fn voice_spec(&self) -> Seq<char> {
        self.voice_id@
    }

    pub closed spec fn model_of_run(&self) -> Seq<char> {
        self.model_id@
    }

    /// One audio segment per completed chunk, never past the end.
    pub open spec fn wf(&self) -> bool {
        &&& self.audio_spec().len() == self.next_spec()
        &&& self.next_spec() <= self.chunks_spec().len()
        &&& self.chunks_spec().len() >= 1
    }

    /// The chunk to synthesize next, if any remains.
    pub fn next_chunk(&self) -> (r: Option<Vec<u8>>)
        ensures
            self.next_spec() < self.chunks_spec().len() ==> (r matches Some(c) && c@
                == self.chunks_spec()[self.next_spec()]),
            self.next_spec() >= self.chunks_spec().len() ==> r is None,
    {
        if self.next < self.chunks.len() {
            Some(crate::ledger::copy_bytes(&self.chunks[self.next]))
        } else {
            None
        }
    }

    /// The voice this run synthesizes with.
    pub fn voice(&self) -> (r: &str)
        ensures
            r@ == self.voice_spec(),
    {
        self.voice_id.as_str()
    }

    /// The model this run requests.
    pub fn model(&self) -> (r: &str)
        ensures
            r@ == self.model_of_run(),
    {
        self.model_id.as_str()
    }

    /// Whether every chunk has been synthesized.
    pub fn is_done(&self) -> (r: bool)
        requires
            self.wf(),
        ensures
            r == (self.next_spec() == self.chunks_spec().len()),
    {
        self.next >= self.chunks.len()
    }

    /// The audio segments collected so far, in chunk order.
    pub fn audio_segments(&self) -> (r: &Vec<Vec<u8>>)
        ensures
            r.deep_view() == self.audio_spec(),
    {
        &self.audio
    }

    /// How many chunks this run holds.
    pub fn chunk_count(&self) -> (r: usize)
        ensures
            r == self.chunks_spec().len(),
    {
        self.chunks.len()
    }
}

impl TTSService {
    /// Validate, then chunk: the entry of one generation call.  Empty input
    /// never reaches the network; an unknown voice is rejected; the chunks
    /// are exactly the chunker's split of the text under the profile's
    /// budget.
    pub fn start_generation(&self, text: &str, voice_id: &str, model_id: &str) -> (r: Result<
        GenerationRun,
        TTSError,
    >)
        requires
            self.wf(),
        ensures
            ({
                let ok_input = !trimmed_empty(text@) && (match self.max_text_len_spec() {
                    None => true,
                    Some(m) => text.spec_bytes().len() as usize <= m,
                });
                let ok_voice = voice_ok(self.voices_spec(), self.open_catalog_spec(), voice_id@);
                let chunks = split_spec(text.spec_bytes(), self.chunk_budget_spec());
                &&& trimmed_empty(text@) ==> (r matches Err(e) && e@ == ErrView::ValidationError(
                    "Text cannot be empty"@,
                ))
                &&& !trimmed_empty(text@) && !ok_input ==> (r matches Err(e) && e@
                    == ErrView::ValidationError("Text is too long"@))
                &&& ok_input && !ok_voice ==> (r matches Err(e) && e@
                    == ErrView::ValidationError("Invalid voice ID: "@ + voice_id@))
                &&& ok_input && ok_voice && chunks.len() == 0 ==> (r matches Err(e) && e@
                    == ErrView::ValidationError("No valid text chunks found"@))
                &&& ok_input && ok_voice && chunks.len() >= 1 ==> (r matches Ok(run) && run.wf()
                    && run.chunks_spec() == chunks && run.next_spec() == 0
                    && run.audio_spec().len() == 0 && run.voice_spec() == voice_id@
                    && run.model_of_run() == model_id@)
            }),
    {
        if let Err(e) = self.validate_text(text) {
            return Err(e);
        }
        if !self.is_valid_voice(voice_id) {
            let mut msg = String::from_str("Invalid voice ID: ");
            msg.append(voice_id);
            return Err(TTSError::ValidationError(msg));
        }
        let chunks = split_text_semantically(text.as_bytes(), self.profile.max_chunk_size);
        if chunks.len() == 0 {
            return Err(
                TTSError::ValidationError(String::from_str("No valid text chunks found")),
            );
        }
        let run = GenerationRun {
            voice_id: String::from_str(voice_id),
            model_id: String::from_str(model_id),
            chunks,
            next: 0,
            audio: Vec::new(),
        };
        proof {
            assert(run.audio_spec() =~= Seq::<Seq<u8>>::empty());
        }
        Ok(run)
    }

    /// `start_generation` with the profile's default model.
    pub fn start_generation_default(&self, text: &str, voice_id: &str) -> (r: Result<
        GenerationRun,
        TTSError,
    >)
        requires
            self.wf(),
        ensures
            ({
                let ok_input = !trimmed_empty(text@) && (match self.max_text_len_spec() {
                    None => true,
                    Some(m) => text.spec_bytes().len() as usize <= m,
                });
                let ok_voice = voice_ok(self.voices_spec(), self.open_catalog_spec(), voice_id@);
                let chunks = split_spec(text.spec_bytes(), self.chunk_budget_spec());
                &&& trimmed_empty(text@) ==> (r matches Err(e) && e@ == ErrView::ValidationError(
                    "Text cannot be empty"@,
                ))
                &&& !trimmed_empty(text@) && !ok_input ==> (r matches Err(e) && e@
                    == ErrView::ValidationError("Text is too long"@))
                &&& ok_input && !ok_voice ==> (r matches Err(e) && e@
                    == ErrView::ValidationError("Invalid voice ID: "@ + voice_id@))
                &&& ok_input && ok_voice && chunks.len() == 0 ==> (r matches Err(e) && e@
                    == ErrView::ValidationError("No valid text chunks found"@))
                &&& ok_input && ok_voice && chunks.len() >= 1 ==> (r matches Ok(run) && run.wf()
                    && run.chunks_spec() == chunks && run.next_spec() == 0
                    && run.audio_spec().len() == 0 && run.voice_spec() == voice_id@
                    && run.model_of_run() == self.model_spec())
            }),
    {
        let model = self.profile.default_model.clone();
        self.start_generation(text, voice_id, model.as_str())
    }

    /// Fold one chunk's final synthesis outcome into the run: record the
    /// attempt in the ledger (success or failure) before anything else, then
    /// either collect the audio and advance, or surface the chunk's error
    /// verbatim.  Earlier chunks' audio and ledger records are kept either
    /// way: no rollback.
    pub fn on_chunk_outcome(
        &mut self,
        run: &mut GenerationRun,
        outcome: Result<Vec<u8>, TTSError>,
    ) -> (r: Result<bool, TTSError>)
        requires
            old(self).wf(),
            old(self).ledger_room(),
            old(run).wf(),
            old(run).next_spec() < old(run).chunks_spec().len(),
        ensures
            final(self).wf(),
            same_config(old(self), final(self)),
            final(run).chunks_spec() == old(run).chunks_spec(),
            final(run).voice_spec() == old(run).voice_spec(),
            final(run).model_of_run() == old(run).model_of_run(),
            outcome matches Ok(b) ==> {
                &&& final(run).wf()
                &&& final(run).next_spec() == old(run).next_spec() + 1
                &&& final(run).audio_spec() == old(run).audio_spec().push(b@)
                &&& r == Ok::<bool, TTSError>(
                    final(run).next_spec() < final(run).chunks_spec().len(),
                )
            },
            outcome matches Err(e) ==> (*final(run) == *old(run) && (r matches Err(e2) && e2@
                == e@)),
            old(self).db() is None ==> final(self).db() is None,
            old(self).db() matches Some(l) ==> (final(self).db() matches Some(l2)
                && exists|ts: int|
                    ts >= 0 && #[trigger] recorded(
                        l,
                        l2,
                        old(run).chunks_spec()[old(run).next_spec()],
                        utf8_char_count(old(run).chunks_spec()[old(run).next_spec()]),
                        old(run).voice_spec(),
                        old(run).model_of_run(),
                        outcome is Ok,
                        outcome_err_msg(outcome),
                        ts,
                    )),
    {
        let ts = now_unix();
        let chunk = &run.chunks[run.next];
        let success = outcome.is_ok();
        let err_msg: Option<String> = match &outcome {
            Ok(_) => None,
            Err(e) => Some(e.describe()),
        };
        let ghost em0 = err_msg;
        let stored = stored_text(chunk.as_slice());
        let chars = count_utf8_chars(chunk.as_slice());
        let count: i32 = if chars > 0x7fffffffusize {
            0x7fffffffi32
        } else {
            chars as i32
        };
        let dbo = self.database.take();
        match dbo {
            Some(mut l) => {
                let rec = UsageRecord {
                    id: None,
                    timestamp: ts,
                    text: stored,
                    character_count: count,
                    voice_id: run.voice_id.clone(),
                    model_id: run.model_id.clone(),
                    success,
                    error_message: err_msg,
                };
                proof {
                    assert(old(run).chunks_spec()[old(run).next_spec()] =~= run.chunks@[
                        run.next as int]@);
                    assert(rec@ =~= attempt_record(
                        old(run).chunks_spec()[old(run).next_spec()],
                        utf8_char_count(old(run).chunks_spec()[old(run).next_spec()]),
                        old(run).voice_spec(),
                        old(run).model_of_run(),
                        success,
                        err_view(em0),
                        ts as int,
                    ));
                }
                let ghost l0 = l;
                let ghost recv = rec@;
                let _id = l.record_usage(rec);
                self.database = Some(l);
                proof {
                    assert(old(self).db() == Some(l0));
                    assert(_id == (l0.next_id_spec()) as i64);
                    assert(self.db() matches Some(l2) && recorded(
                        l0,
                        l2,
                        old(run).chunks_spec()[old(run).next_spec()],
                        utf8_char_count(old(run).chunks_spec()[old(run).next_spec()]),
                        old(run).voice_spec(),
                        old(run).model_of_run(),
                        success,
                        err_view(em0),
                        ts as int,
                    ));
                }
            },
            None => {},
        }
        match outcome {
            Ok(b) => {
                let ghost audio0 = run.audio.deep_view();
                run.audio.push(b);
                let n = run.chunks.len();
                proof {
                    assert(run.next < n);
                }
                run.next = run.next + 1;
                proof {
                    assert(run.audio.deep_view() =~~= audio0.push(b@));
                }
                Ok(run.next < n)
            },
            Err(e) => Err(e),
        }
    }

    /// Assemble the run's collected audio, in order: one segment is handed
    /// back unchanged; several are concatenated byte for byte.
    pub fn finish_generation(&self, run: GenerationRun) -> (r: Result<Vec<u8>, TTSError>)
        requires
            run.wf(),
            run.next_spec() == run.chunks_spec().len(),
        ensures
            r matches Ok(b) && b@ == run.audio_spec().flatten(),
            r matches Ok(b) && b@.len() == crate::assembler::sum_lens(run.audio_spec()),
            run.audio_spec().len() == 1 ==> (r matches Ok(b) && b@ == run.audio_spec()[0]),
    {
        proof {
            crate::assembler::lemma_concat_len_is_sum(run.audio_spec());
        }
        let audio = run.audio;
        proof {
            assert(audio@.len() >= 1);
        }
        match assemble_audio(audio) {
            Some(b) => Ok(b),
            None => vstd::pervasive::unreached(),
        }
    }
}

} // verus!
