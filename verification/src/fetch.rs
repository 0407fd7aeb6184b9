//! Homophone extraction and the fetch retry policy. A fetched page body is
//! searched for the homophones selector path and every matched element's
//! inner text, trimmed of surrounding whitespace, becomes one homophone, in
//! document order. A transport failure is retried once after a fixed backoff;
//! a second transport failure is fatal for the run.

use vstd::prelude::*;
use vstd::string::StrSliceExecFns;
use vstd::string::StringExecFns;

verus! {

/// Whether a character counts as whitespace when a homophone's text is
/// trimmed.
pub uninterp spec fn char_is_whitespace(c: char) -> bool;

/// Relies on char::is_whitespace: whether `c` has the Unicode White_Space
/// property, a function of the character alone.
#[verifier::external_body]
fn is_whitespace_char(c: char) -> (r: bool)
    ensures
        r == char_is_whitespace(c),
{
    c.is_whitespace()
}

/// `s` without its leading whitespace.
pub open spec fn trim_start_of(s: Seq<char>) -> Seq<char>
    decreases s.len(),
{
    if s.len() > 0 && char_is_whitespace(s[0]) {
        trim_start_of(s.skip(1))
    } else {
        s
    }
}

/// `s` without its trailing whitespace.
pub open spec fn trim_end_of(s: Seq<char>) -> Seq<char>
    decreases s.len(),
{
    if s.len() > 0 && char_is_whitespace(s[s.len() - 1]) {
        trim_end_of(s.take(s.len() - 1))
    } else {
        s
    }
}

/// `s` without surrounding whitespace.
pub open spec fn trim_of(s: Seq<char>) -> Seq<char> {
    trim_end_of(trim_start_of(s))
}

/// Copies `s` without its surrounding whitespace.
pub fn trim_word(s: &str) -> (r: String)
    ensures
        r@ == trim_of(s@),
{
    let len = s.unicode_len();
    let mut lo: usize = 0;
    proof {
        assert(s@.skip(0) =~= s@);
    }
    while lo < len && is_whitespace_char(s.get_char(lo))
        invariant
            lo <= len,
            len == s@.len(),
            trim_start_of(s@) == trim_start_of(s@.skip(lo as int)),
        decreases len - lo,
    {
        proof {
            assert(s@.skip(lo as int)[0] == s@[lo as int]);
            assert(s@.skip(lo as int).skip(1) =~= s@.skip(lo as int + 1));
        }
        lo += 1;
    }
    proof {
        assert(trim_start_of(s@) == s@.skip(lo as int)) by {
            if lo < len {
                assert(s@.skip(lo as int)[0] == s@[lo as int]);
            }
        }
    }
    let ghost t = s@.skip(lo as int);
    let mut hi: usize = len;
    proof {
        assert(t.take(hi - lo) =~= t);
    }
    while hi > lo && is_whitespace_char(s.get_char(hi - 1))
        invariant
            lo <= hi <= len,
            len == s@.len(),
            t == s@.skip(lo as int),
            trim_end_of(t) == trim_end_of(t.take(hi - lo)),
        decreases hi,
    {
        proof {
            let m = hi - lo;
            assert(t.take(m)[m - 1] == s@[hi - 1]);
            assert(t.take(m).take(m - 1) =~= t.take(m - 1));
        }
        hi -= 1;
    }
    proof {
        assert(trim_end_of(t) == t.take(hi - lo)) by {
            let m = hi - lo;
            if hi > lo {
                assert(t.take(m)[m - 1] == s@[hi - 1]);
            }
        }
        assert(s@.subrange(lo as int, hi as int) =~= t.take(hi - lo));
    }
    let trimmed = s.substring_char(lo, hi);
    trimmed.to_owned()
}

/// The inner markup of each element that the homophones selector path (a
/// homophones-list container, a nested span, nested link elements) matches
/// in a page body, in document order. A function of the body text alone.
pub uninterp spec fn homophone_texts(body: Seq<char>) -> Seq<Seq<char>>;

/// Relies on scraper: `Html::parse_fragment` parses the body,
/// `Selector::parse` builds the constant selector `span.homophones span a`
/// (a valid selector, so the error arm is never taken), `Html::select` yields
/// the matched elements in document order, and `ElementRef::inner_html`
/// gives each element's inner markup. The result depends on the body text
/// alone.
#[verifier::external_body]
fn extract_homophone_texts(body: &str) -> (r: Vec<String>)
    ensures
        r.deep_view() == homophone_texts(body@),
{
    let fragment = scraper::Html::parse_fragment(body);
    let selector = match scraper::Selector::parse("span.homophones span a") {
        Ok(s) => s,
        Err(_) => return Vec::new(),
    };
    fragment.select(&selector).map(|element| element.inner_html()).collect()
}

/// The homophones a successfully fetched page body yields: the trimmed inner
/// text of every element the homophones selector matches, in document order,
/// or `None` when the selector matches nothing — absence, not an error.
pub fn homophones_from_body(body: &str) -> (r: Option<Vec<String>>)
    ensures
        match r {
            Option::Some(hs) => {
                &&& hs.deep_view() == homophone_texts(body@).map_values(
                    |raw: Seq<char>| trim_of(raw),
                )
                &&& hs@.len() > 0
            },
            Option::None => homophone_texts(body@).len() == 0,
        },
{
    let texts = extract_homophone_texts(body);
    let ghost raws = texts.deep_view();
    let ghost goal = raws.map_values(|raw: Seq<char>| trim_of(raw));
    let mut homophones: Vec<String> = Vec::new();
    let mut i: usize = 0;
    proof {
        assert(homophones.deep_view() =~= goal.take(0));
    }
    while i < texts.len()
        invariant
            i <= texts.len(),
            raws == texts.deep_view(),
            goal == raws.map_values(|raw: Seq<char>| trim_of(raw)),
            homophones.deep_view() == goal.take(i as int),
        decreases texts.len() - i,
    {
        let trimmed = trim_word(texts[i].as_str());
        proof {
            assert(texts@[i as int]@ == raws[i as int]);
            assert(trimmed@ == goal[i as int]);
        }
        let ghost h0 = homophones@;
        let ghost dv_pre = homophones.deep_view();
        let ghost tv = trimmed@;
        proof {
            assert(dv_pre.len() == h0.len());
            assert(forall|k: int| 0 <= k < h0.len() ==> #[trigger] dv_pre[k] == h0[k]@);
        }
        homophones.push(trimmed);
        proof {
            assert(homophones@ == h0.push(homophones@[h0.len() as int]));
            assert(homophones@[h0.len() as int]@ == tv);
            assert forall|k: int| 0 <= k < homophones.deep_view().len()
                implies homophones.deep_view()[k] == goal.take(i as int + 1)[k] by {
                assert(homophones.deep_view()[k] == homophones@[k]@);
                if k < h0.len() {
                    assert(homophones@[k] == h0[k]);
                    assert(dv_pre[k] == goal.take(i as int)[k]);
                }
            }
            assert(homophones.deep_view() =~= goal.take(i as int + 1));
        }
        i += 1;
    }
    proof {
        assert(goal.take(texts@.len() as int) =~= goal);
    }
    if homophones.is_empty() {
        Option::None
    } else {
        Option::Some(homophones)
    }
}

/// The lookup target for a word: the fixed reference-site base path with the
/// word appended verbatim. No URL-escaping is performed, so words holding
/// characters that are not valid in a path segment pass through unchanged.
pub fn lookup_url(word: &str) -> (r: String)
    ensures
        r@ == "https://en.wiktionary.org/wiki/"@ + word@,
{
    let mut url = "https://en.wiktionary.org/wiki/".to_owned();
    url.append(word);
    url
}

/// The fixed backoff, in seconds, before the one retry of a failed fetch.
pub const BACKOFF_SECONDS: u64 = 20;

/// The transport-level outcome of one retrieval attempt for a word, as the
/// runner that performs the request reports it.
pub enum FetchEvent {
    /// The attempt failed below the application level (a network error).
    TransportError,
    /// A response arrived, with its status's success flag and its body text.
    Response { success: bool, body: String },
}

/// What the pipeline does next after a retrieval attempt.
pub enum FetchStep {
    /// Wait the fixed backoff, then attempt the same retrieval once more.
    Retry { backoff_seconds: u64 },
    /// A retried attempt failed again at the transport level: the whole run
    /// aborts, and no further output is produced.
    Fatal,
    /// The lookup concluded with this word's homophone result.
    Done { homophones: Option<Vec<String>> },
}

/// Decides the pipeline's reaction to one retrieval attempt.
/// `prior_transport_failures` counts this word's transport failures before
/// the attempt. A first transport failure is retried once after the fixed
/// backoff and a second is fatal; a response with a non-success status means
/// "no homophones recorded" (not an error); a successful response yields the
/// homophones its body's markup lists, or `None` when it lists none.
pub fn fetch_step(prior_transport_failures: u64, event: FetchEvent) -> (r: FetchStep)
    ensures
        match r {
            FetchStep::Retry { backoff_seconds } => {
                &&& event is TransportError
                &&& prior_transport_failures == 0
                &&& backoff_seconds == BACKOFF_SECONDS
            },
            FetchStep::Fatal => event is TransportError && prior_transport_failures > 0,
            FetchStep::Done { homophones } => match event {
                FetchEvent::Response { success, body } => {
                    if success {
                        match homophones {
                            Option::Some(hs) => {
                                &&& hs.deep_view() == homophone_texts(body@).map_values(
                                    |raw: Seq<char>| trim_of(raw),
                                )
                                &&& hs@.len() > 0
                            },
                            Option::None => homophone_texts(body@).len() == 0,
                        }
                    } else {
                        homophones is None
                    }
                },
                FetchEvent::TransportError => false,
            },
        },
{
    match event {
        FetchEvent::TransportError => {
            if prior_transport_failures == 0 {
                FetchStep::Retry { backoff_seconds: BACKOFF_SECONDS }
            } else {
                FetchStep::Fatal
            }
        },
        FetchEvent::Response { success, body } => {
            if !success {
                FetchStep::Done { homophones: Option::None }
            } else {
                FetchStep::Done { homophones: homophones_from_body(body.as_str()) }
            }
        },
    }
}

} // verus!
