//! Reranking candidates with an outside service: settings, admission, and what replies are taken.

use vstd::prelude::*;
use crate::arithmetic::{between, is_between, is_same_number, same_number, ONE, ZERO};
use crate::float::{finite, is_finite, rank_total, total_key};
use crate::graph_links::optional_text;
use crate::order::{sort_positions, sorted, Precedes};
use crate::slice::{blank, has_char, is_blank, lemma_bytes_cover};
use crate::text::{byte_count, chars_of, count_bytes, int_rank, lemma_views_push, next_rank, same_text, string_of, views, Rank};
use crate::unicode::{is_whitespace, unicode_space};

verus! {

broadcast use {vstd::string::group_string_axioms, lemma_views_push};

pub const MAX_CANDIDATES: usize = 100;

/// What is kept free for the instructions of the service.
pub const PROMPT_BUDGET: usize = 128;

pub const MAX_QUERY_BYTES: usize = 7872;

pub const MAX_PAIR_BUDGET: usize = 32000;

pub const MAX_TOTAL_BUDGET: usize = 600000;

pub const MAX_RESPONSE_BYTES: usize = 65536;

pub const MAX_CONFIG_BYTES: usize = 8192;

/// Why reranking fails.
#[derive(Debug)]
pub enum RerankingError {
    Invalid(&'static str),
    NotConfigured,
    Busy,
    Authentication,
    RateLimited,
    Rejected,
    Timeout,
    Unavailable,
    InvalidResponse,
    Persistence,
    Internal,
}

pub enum RerankingErrorView {
    Invalid(Seq<char>),
    NotConfigured,
    Busy,
    Authentication,
    RateLimited,
    Rejected,
    Timeout,
    Unavailable,
    InvalidResponse,
    Persistence,
    Internal,
}

impl View for RerankingError {
    type V = RerankingErrorView;

    open spec fn view(&self) -> RerankingErrorView {
        match self {
            RerankingError::Invalid(reason) => RerankingErrorView::Invalid(reason@),
            RerankingError::NotConfigured => RerankingErrorView::NotConfigured,
            RerankingError::Busy => RerankingErrorView::Busy,
            RerankingError::Authentication => RerankingErrorView::Authentication,
            RerankingError::RateLimited => RerankingErrorView::RateLimited,
            RerankingError::Rejected => RerankingErrorView::Rejected,
            RerankingError::Timeout => RerankingErrorView::Timeout,
            RerankingError::Unavailable => RerankingErrorView::Unavailable,
            RerankingError::InvalidResponse => RerankingErrorView::InvalidResponse,
            RerankingError::Persistence => RerankingErrorView::Persistence,
            RerankingError::Internal => RerankingErrorView::Internal,
        }
    }
}

impl RerankingErrorView {
    /// The error in words.
    pub open spec fn message(self) -> Seq<char> {
        match self {
            RerankingErrorView::Invalid(reason) => reason,
            RerankingErrorView::NotConfigured => "configure a Voyage API key before requesting reranking"@,
            RerankingErrorView::Busy => "reranking service is busy; try again later"@,
            RerankingErrorView::Authentication => "reranking provider rejected the configured API key"@,
            RerankingErrorView::RateLimited => "reranking provider rate limit reached"@,
            RerankingErrorView::Rejected => "reranking provider rejected the request; check input limits and settings"@,
            RerankingErrorView::Timeout => "reranking provider request timed out"@,
            RerankingErrorView::Unavailable => "reranking provider is unavailable"@,
            RerankingErrorView::InvalidResponse => "reranking provider returned an invalid response"@,
            RerankingErrorView::Persistence => "could not persist reranking settings"@,
            RerankingErrorView::Internal => "reranking service settings are unavailable"@,
        }
    }
}

impl RerankingError {
    /// The error in words.
    pub fn message(&self) -> (text: &'static str)
        ensures
            text@ == self@.message(),
    {
        match self {
            RerankingError::Invalid(reason) => *reason,
            RerankingError::NotConfigured => "configure a Voyage API key before requesting reranking",
            RerankingError::Busy => "reranking service is busy; try again later",
            RerankingError::Authentication => "reranking provider rejected the configured API key",
            RerankingError::RateLimited => "reranking provider rate limit reached",
            RerankingError::Rejected => "reranking provider rejected the request; check input limits and settings",
            RerankingError::Timeout => "reranking provider request timed out",
            RerankingError::Unavailable => "reranking provider is unavailable",
            RerankingError::InvalidResponse => "reranking provider returned an invalid response",
            RerankingError::Persistence => "could not persist reranking settings",
            RerankingError::Internal => "reranking service settings are unavailable",
        }
    }
}

/// A result by its view.
pub open spec fn answer<T: View>(result: Result<T, RerankingError>) -> Result<T::V, RerankingErrorView> {
    match result {
        Ok(value) => Ok(value@),
        Err(error) => Err(error@),
    }
}

pub open spec fn check(result: Result<(), RerankingError>) -> Result<(), RerankingErrorView> {
    match result {
        Ok(_) => Ok(()),
        Err(error) => Err(error@),
    }
}

pub open spec fn refused(reason: Seq<char>) -> RerankingErrorView {
    RerankingErrorView::Invalid(reason)
}

/// The settings that are no secret.
#[derive(Debug)]
pub struct Config {
    pub model: String,
    pub timeout_seconds: u64,
    pub max_concurrent_requests: usize,
}

pub struct SettingsView {
    pub model: Seq<char>,
    pub timeout_seconds: u64,
    pub max_concurrent_requests: nat,
}

impl View for Config {
    type V = SettingsView;

    open spec fn view(&self) -> SettingsView {
        SettingsView {
            model: self.model@,
            timeout_seconds: self.timeout_seconds,
            max_concurrent_requests: self.max_concurrent_requests as nat,
        }
    }
}

impl Default for Config {
    fn default() -> (config: Config)
        ensures
            config@ == (SettingsView { model: "rerank-2.5"@, timeout_seconds: 60, max_concurrent_requests: 4 }),
    {
        Config { model: "rerank-2.5".to_owned(), timeout_seconds: 60, max_concurrent_requests: 4 }
    }
}

impl SettingsView {
    pub open spec fn checked(self) -> Result<(), RerankingErrorView> {
        if self.model != "rerank-2.5"@ && self.model != "rerank-2.5-lite"@ {
            Err(refused("unsupported reranking model"@))
        } else if self.timeout_seconds < 1 || self.timeout_seconds > 120 {
            Err(refused("timeout_seconds must be between 1 and 120"@))
        } else if self.max_concurrent_requests < 1 || self.max_concurrent_requests > 16 {
            Err(refused("max_concurrent_requests must be between 1 and 16"@))
        } else {
            Ok(())
        }
    }
}

impl Config {
    /// Fails exactly where a setting is none that the service takes.
    pub fn validate(&self) -> (result: Result<(), RerankingError>)
        ensures
            check(result) == self@.checked(),
    {
        if !same_text(self.model.as_str(), "rerank-2.5") && !same_text(self.model.as_str(), "rerank-2.5-lite") {
            return Err(RerankingError::Invalid("unsupported reranking model"));
        }
        if self.timeout_seconds < 1 || self.timeout_seconds > 120 {
            return Err(RerankingError::Invalid("timeout_seconds must be between 1 and 120"));
        }
        if self.max_concurrent_requests < 1 || self.max_concurrent_requests > 16 {
            return Err(RerankingError::Invalid("max_concurrent_requests must be between 1 and 16"));
        }
        Ok(())
    }

    pub fn copy(&self) -> (copy: Config)
        ensures
            copy@ == self@,
    {
        Config {
            model: self.model.clone(),
            timeout_seconds: self.timeout_seconds,
            max_concurrent_requests: self.max_concurrent_requests,
        }
    }
}

/// What is said of the settings: never the key, only whether there is one.
#[derive(Debug)]
pub struct SettingsResponse {
    pub provider: &'static str,
    pub config: Config,
    pub configured: bool,
    pub models: Vec<&'static str>,
    pub persistence: &'static str,
}

/// The settings and the key.
pub struct RuntimeState {
    pub config: Config,
    pub key: Option<String>,
}

pub struct StateView {
    pub config: SettingsView,
    pub key: Option<Seq<char>>,
}

impl View for RuntimeState {
    type V = StateView;

    open spec fn view(&self) -> StateView {
        StateView { config: self.config@, key: optional_text(self.key) }
    }
}

/// What is said of the settings.
pub fn settings_response(state: &RuntimeState, durable: bool) -> (response: SettingsResponse)
    ensures
        response.provider@ == "voyage"@,
        response.config@ == state@.config,
        response.configured == (state@.key is Some),
        response.models@.len() == 2 && response.models@[0]@ == "rerank-2.5"@ && response.models@[1]@
            == "rerank-2.5-lite"@,
        response.persistence@ == (if durable {
            "durable"@
        } else {
            "memory"@
        }),
{
    let mut models: Vec<&'static str> = Vec::new();
    models.push("rerank-2.5");
    models.push("rerank-2.5-lite");
    SettingsResponse {
        provider: "voyage",
        config: state.config.copy(),
        configured: state.key.is_some(),
        models,
        persistence: if durable {
            "durable"
        } else {
            "memory"
        },
    }
}

/// How many characters of white space a text starts with, from `from` on.
pub open spec fn space_ahead(text: Seq<char>, from: nat) -> nat
    decreases text.len() - from,
{
    if from < text.len() && unicode_space(text[from as int]) {
        space_ahead(text, from + 1)
    } else {
        from
    }
}

/// Where the white space that a text ends with begins, at most at `end`.
pub open spec fn space_behind(text: Seq<char>, end: nat) -> nat
    decreases end,
{
    if end > 0 && end <= text.len() && unicode_space(text[end - 1]) {
        space_behind(text, (end - 1) as nat)
    } else {
        end
    }
}

/// A text without the white space around it.
pub open spec fn trimmed(text: Seq<char>) -> Seq<char> {
    let start = space_ahead(text, 0);
    let end = space_behind(text, text.len());
    if start >= end {
        Seq::empty()
    } else {
        text.subrange(start as int, end as int)
    }
}

/// A text without the white space around it.
pub fn trim(text: &str) -> (result: String)
    ensures
        result@ == trimmed(text@),
{
    let chars = chars_of(text);
    let mut start: usize = 0;
    while start < chars.len() && is_whitespace(chars[start])
        invariant
            chars@ == text@,
            start <= chars@.len(),
            space_ahead(text@, start as nat) == space_ahead(text@, 0),
        decreases chars@.len() - start,
    {
        start = start + 1;
    }
    let mut end: usize = chars.len();
    while end > 0 && is_whitespace(chars[end - 1])
        invariant
            chars@ == text@,
            end <= chars@.len(),
            space_behind(text@, end as nat) == space_behind(text@, text@.len()),
        decreases end,
    {
        end = end - 1;
    }
    if start >= end {
        assert(Seq::<char>::empty() =~= ""@) by {
            reveal_strlit("");
        }
        return "".to_owned();
    }
    string_of(&chars, start, end)
}

/// Whether a byte can stand in the value of a header.
pub open spec fn header_byte(byte: u8) -> bool {
    (byte >= 32 && byte != 127) || byte == 9
}

/// Whether a text can be the value of a header.
pub open spec fn header_text(text: Seq<char>) -> bool {
    let bytes = vstd::utf8::encode_utf8(text);
    forall|i: int| 0 <= i < bytes.len() ==> header_byte(#[trigger] bytes[i])
}

/// `reqwest::header::HeaderValue::from_str`: whether it takes the text, which it does exactly where
/// every byte of the text in UTF-8 is a tab, or at least 32 and not 127.
#[verifier::external_body]
fn is_header_text(text: &str) -> (result: bool)
    ensures
        result == header_text(text@),
{
    reqwest::header::HeaderValue::from_str(text).is_ok()
}

/// Whether a text can be a key.
pub open spec fn key_checked(key: Seq<char>) -> Result<(), RerankingErrorView> {
    if key.len() == 0 || byte_count(key) > 4096 || !header_text(key) {
        Err(refused("API key must be nonempty and contain valid HTTP header characters"@))
    } else {
        Ok(())
    }
}

pub fn validate_key(key: &str) -> (result: Result<(), RerankingError>)
    ensures
        check(result) == key_checked(key@),
{
    proof {
        lemma_bytes_cover(key@);
        if key@.len() == 0 {
            assert(key@ =~= Seq::<char>::empty());
            assert(byte_count(key@) == 0);
        }
    }
    let size: usize = count_bytes(key);
    if size == 0 || size > 4096 || !is_header_text(key) {
        return Err(RerankingError::Invalid("API key must be nonempty and contain valid HTTP header characters"));
    }
    Ok(())
}

/// The key that the environment gives: none where it is blank.
pub open spec fn given_key(text: Seq<char>) -> Result<Option<Seq<char>>, RerankingErrorView> {
    let key = trimmed(text);
    if key.len() == 0 {
        Ok(None)
    } else {
        match key_checked(key) {
            Err(error) => Err(error),
            Ok(_) => Ok(Some(key)),
        }
    }
}

/// The key that the environment gives.
pub fn environment_key(text: &str) -> (result: Result<Option<String>, RerankingError>)
    ensures
        match result {
            Ok(key) => given_key(text@) == Ok::<Option<Seq<char>>, RerankingErrorView>(
                optional_text(key),
            ),
            Err(error) => given_key(text@) == Err::<Option<Seq<char>>, RerankingErrorView>(error@),
        },
{
    let key = trim(text);
    let chars = chars_of(key.as_str());
    if chars.len() == 0 {
        return Ok(None);
    }
    validate_key(key.as_str())?;
    Ok(Some(key))
}

/// A change of settings. What is not given stays.
pub struct SettingsUpdate {
    pub model: Option<String>,
    pub timeout_seconds: Option<u64>,
    pub max_concurrent_requests: Option<usize>,
    pub api_key: Option<String>,
    pub clear_api_key: bool,
}

/// The settings with a change.
pub open spec fn settings_changed(config: SettingsView, update: SettingsUpdate) -> SettingsView {
    SettingsView {
        model: match update.model {
            Some(model) => model@,
            None => config.model,
        },
        timeout_seconds: match update.timeout_seconds {
            Some(timeout) => timeout,
            None => config.timeout_seconds,
        },
        max_concurrent_requests: match update.max_concurrent_requests {
            Some(most) => most as nat,
            None => config.max_concurrent_requests,
        },
    }
}

/// The state with a change; the error of one that cannot be made.
pub open spec fn state_changed(state: StateView, update: SettingsUpdate) -> Result<StateView, RerankingErrorView> {
    let config = settings_changed(state.config, update);
    match config.checked() {
        Err(error) => Err(error),
        Ok(_) => if update.api_key is Some && update.clear_api_key {
            Err(refused("provide api_key or clear_api_key, not both"@))
        } else {
            match update.api_key {
                Some(key) => match key_checked(trimmed(key@)) {
                    Err(error) => Err(error),
                    Ok(_) => Ok(StateView { config, key: Some(trimmed(key@)) }),
                },
                None => Ok(
                    StateView {
                        config,
                        key: if update.clear_api_key {
                            None
                        } else {
                            state.key
                        },
                    },
                ),
            }
        },
    }
}

impl RuntimeState {
    /// The state with a change. The state itself stays as it is, so that the change can be made
    /// durable before it is published.
    pub fn updated(&self, update: &SettingsUpdate) -> (result: Result<RuntimeState, RerankingError>)
        ensures
            answer(result) == state_changed(self@, *update),
    {
        let mut config = self.config.copy();
        if let Some(model) = &update.model {
            config.model = model.clone();
        }
        if let Some(timeout) = update.timeout_seconds {
            config.timeout_seconds = timeout;
        }
        if let Some(most) = update.max_concurrent_requests {
            config.max_concurrent_requests = most;
        }
        assert(config@ == settings_changed(self@.config, *update));
        config.validate()?;
        if update.api_key.is_some() && update.clear_api_key {
            return Err(RerankingError::Invalid("provide api_key or clear_api_key, not both"));
        }
        match &update.api_key {
            Some(given) => {
                let key = trim(given.as_str());
                validate_key(key.as_str())?;
                Ok(RuntimeState { config, key: Some(key) })
            },
            None => {
                if update.clear_api_key {
                    return Ok(RuntimeState { config, key: None });
                }
                let key = match &self.key {
                    None => None,
                    Some(key) => Some(key.clone()),
                };
                Ok(RuntimeState { config, key })
            },
        }
    }

    /// Fails exactly where there is no key.
    pub fn ensure_configured(&self) -> (result: Result<(), RerankingError>)
        ensures
            check(result) == (if self@.key is Some {
                Ok::<(), RerankingErrorView>(())
            } else {
                Err(RerankingErrorView::NotConfigured)
            }),
    {
        if self.key.is_some() {
            Ok(())
        } else {
            Err(RerankingError::NotConfigured)
        }
    }
}

/// A refused change leaves the state as it is, and a change without a key leaves the key.
pub proof fn law_key_stays(state: StateView, update: SettingsUpdate)
    requires
        update.api_key is None,
        !update.clear_api_key,
    ensures
        state_changed(state, update) matches Ok(after) ==> after.key == state.key && after.config == settings_changed(
            state.config,
            update,
        ),
{
}

/// How many bytes a query and a document have with what is kept free.
pub open spec fn pair_bytes(query: Seq<char>, document: Seq<char>) -> nat {
    byte_count(query) + byte_count(document) + PROMPT_BUDGET as nat
}

/// The error of the documents from `from` on, where those before have so many bytes.
pub open spec fn documents_checked(query: Seq<char>, documents: Seq<Seq<char>>, from: nat, total: nat) -> Result<(), RerankingErrorView>
    decreases documents.len() - from,
{
    if from >= documents.len() {
        Ok(())
    } else {
        let document = documents[from as int];
        let pair = pair_bytes(query, document);
        if blank(document) || document.contains('\0') {
            Err(refused("candidate documents must contain nonempty text without NUL characters"@))
        } else if pair > MAX_PAIR_BUDGET {
            Err(refused("query and each candidate document exceed the reranking pair byte budget"@))
        } else if total + pair > MAX_TOTAL_BUDGET {
            Err(refused("combined reranking input exceeds the total byte budget"@))
        } else {
            documents_checked(query, documents, from + 1, total + pair)
        }
    }
}

/// The error of a request that the service would not take.
pub open spec fn input_checked(query: Seq<char>, documents: Seq<Seq<char>>) -> Result<(), RerankingErrorView> {
    if blank(query) || byte_count(query) > MAX_QUERY_BYTES || query.contains('\0') {
        Err(refused("query must contain nonempty text of at most 7872 UTF-8 bytes, without NUL characters"@))
    } else if documents.len() == 0 || documents.len() > MAX_CANDIDATES {
        Err(refused("reranking requires between 1 and 100 candidate documents"@))
    } else {
        documents_checked(query, documents, 0, 0)
    }
}

/// Fails exactly where the service would not take a request.
pub fn validate_input(query: &str, documents: &Vec<String>) -> (result: Result<(), RerankingError>)
    ensures
        check(result) == input_checked(query@, views(documents@)),
{
    let size: usize = count_bytes(query);
    if is_blank(query) || size > MAX_QUERY_BYTES || has_char(query, '\0') {
        return Err(
            RerankingError::Invalid(
                "query must contain nonempty text of at most 7872 UTF-8 bytes, without NUL characters",
            ),
        );
    }
    let ghost all = views(documents@);
    assert(all.len() == documents@.len());
    if documents.len() == 0 || documents.len() > MAX_CANDIDATES {
        return Err(RerankingError::Invalid("reranking requires between 1 and 100 candidate documents"));
    }
    let mut total: usize = 0;
    let mut at: usize = 0;
    while at < documents.len()
        invariant
            all == views(documents@),
            at <= documents@.len(),
            0 < documents@.len() <= MAX_CANDIDATES,
            !blank(query@),
            !query@.contains('\0'),
            size == byte_count(query@),
            size <= MAX_QUERY_BYTES,
            total <= MAX_TOTAL_BUDGET,
            documents_checked(query@, all, at as nat, total as nat) == documents_checked(query@, all, 0, 0),
        decreases documents@.len() - at,
    {
        let document = documents[at].as_str();
        assert(all[at as int] == document@);
        if is_blank(document) || has_char(document, '\0') {
            return Err(RerankingError::Invalid("candidate documents must contain nonempty text without NUL characters"));
        }
        let pair: usize = size.saturating_add(count_bytes(document)).saturating_add(PROMPT_BUDGET);
        if pair > MAX_PAIR_BUDGET {
            return Err(RerankingError::Invalid("query and each candidate document exceed the reranking pair byte budget"));
        }
        total = total + pair;
        if total > MAX_TOTAL_BUDGET {
            return Err(RerankingError::Invalid("combined reranking input exceeds the total byte budget"));
        }
        at = at + 1;
    }
    Ok(())
}

/// The number of requests under way with one more; none where there are as many as may be.
pub fn next_in_flight(current: usize, config: &Config) -> (result: Option<usize>)
    ensures
        result == (if current < config.max_concurrent_requests {
            Some((current + 1) as usize)
        } else {
            None
        }),
{
    if current < config.max_concurrent_requests {
        Some(current + 1)
    } else {
        None
    }
}

/// What a status of the service says went wrong; nothing where it succeeded.
pub open spec fn status_error(status: u16) -> Option<RerankingErrorView> {
    if 200 <= status < 300 {
        None
    } else if status == 401 || status == 403 {
        Some(RerankingErrorView::Authentication)
    } else if status == 429 {
        Some(RerankingErrorView::RateLimited)
    } else if status == 400 || status == 413 || status == 422 {
        Some(RerankingErrorView::Rejected)
    } else {
        Some(RerankingErrorView::Unavailable)
    }
}

/// What a status of the service says went wrong.
pub fn check_status(status: u16) -> (result: Result<(), RerankingError>)
    ensures
        match result {
            Ok(_) => status_error(status) is None,
            Err(error) => status_error(status) == Some(error@),
        },
{
    if 200 <= status && status < 300 {
        Ok(())
    } else if status == 401 || status == 403 {
        Err(RerankingError::Authentication)
    } else if status == 429 {
        Err(RerankingError::RateLimited)
    } else if status == 400 || status == 413 || status == 422 {
        Err(RerankingError::Rejected)
    } else {
        Err(RerankingError::Unavailable)
    }
}

/// Fails exactly where a reply says that it is longer than one may be.
pub fn check_content_length(length: Option<u64>) -> (result: Result<(), RerankingError>)
    ensures
        match result {
            Ok(_) => length matches Some(bytes) ==> bytes <= MAX_RESPONSE_BYTES,
            Err(error) => error@ == RerankingErrorView::InvalidResponse && (length matches Some(bytes) && bytes
                > MAX_RESPONSE_BYTES),
        },
{
    match length {
        Some(bytes) => {
            if bytes > MAX_RESPONSE_BYTES as u64 {
                return Err(RerankingError::InvalidResponse);
            }
            Ok(())
        },
        None => Ok(()),
    }
}

/// Adds a part to a reply, unless the reply becomes longer than one may be.
pub fn extend_body(body: &mut Vec<u8>, chunk: &Vec<u8>) -> (result: Result<(), RerankingError>)
    requires
        old(body)@.len() <= MAX_RESPONSE_BYTES,
    ensures
        match result {
            Ok(_) => final(body)@ == old(body)@ + chunk@ && final(body)@.len() <= MAX_RESPONSE_BYTES,
            Err(error) => error@ == RerankingErrorView::InvalidResponse && final(body)@ == old(body)@ && old(body)@.len()
                + chunk@.len() > MAX_RESPONSE_BYTES,
        },
{
    if chunk.len() > MAX_RESPONSE_BYTES - body.len() {
        return Err(RerankingError::InvalidResponse);
    }
    let ghost start = body@;
    let mut at: usize = 0;
    assert(body@ =~= start + chunk@.take(0));
    while at < chunk.len()
        invariant
            at <= chunk@.len(),
            body@ == start + chunk@.take(at as int),
        decreases chunk@.len() - at,
    {
        assert(chunk@.take(at as int + 1) =~= chunk@.take(at as int).push(chunk@[at as int]));
        body.push(chunk[at]);
        assert(body@ =~= start + chunk@.take(at as int + 1));
        at = at + 1;
    }
    assert(chunk@.take(at as int) =~= chunk@);
    Ok(())
}

/// The score of a document, by its place in the request. The score is a number as a bit pattern.
#[derive(Clone, Copy, Debug, PartialEq, Eq, Structural)]
pub struct RerankResult {
    pub index: usize,
    pub relevance_score: u64,
}

/// What was given for a request.
#[derive(Debug)]
pub struct RerankResponse {
    pub provider: &'static str,
    pub model: String,
    pub results: Vec<RerankResult>,
    pub total_tokens: u64,
}

/// Whether a score is one that the service can give.
pub open spec fn score_valid(score: u64) -> bool {
    finite(score) && between(score, ZERO, ONE)
}

/// The scores from `from` on, with zero without a sign, after `done`; none where a document is not
/// there, occurs twice, or has no valid score.
pub open spec fn scores_taken(data: Seq<RerankResult>, seen: Seq<bool>, from: nat, done: Seq<RerankResult>) -> Option<Seq<RerankResult>>
    decreases data.len() - from,
{
    if from >= data.len() {
        Some(done)
    } else {
        let item = data[from as int];
        if item.index >= seen.len() || seen[item.index as int] || !score_valid(item.relevance_score) {
            None
        } else {
            scores_taken(
                data,
                seen.update(item.index as int, true),
                from + 1,
                done.push(
                    RerankResult {
                        index: item.index,
                        relevance_score: if same_number(item.relevance_score, ZERO) {
                            ZERO
                        } else {
                            item.relevance_score
                        },
                    },
                ),
            )
        }
    }
}

/// The order of scores: the better first, then by place.
pub open spec fn rerank_rank(left: RerankResult, right: RerankResult) -> Rank {
    next_rank(
        int_rank(total_key(right.relevance_score), total_key(left.relevance_score)),
        int_rank(left.index as int, right.index as int),
    )
}

pub open spec fn rerank_order(data: Seq<RerankResult>) -> Precedes {
    |a: usize, b: usize| rerank_rank(data[a as int], data[b as int]) == Rank::Before
}

pub open spec fn scores_sorted(data: Seq<RerankResult>) -> Seq<RerankResult> {
    sorted(data.len() as usize, rerank_order(data)).map_values(|at: usize| data[at as int])
}

/// The scores that a reply gives for so many documents; none where it is no valid one.
pub open spec fn reply_taken(data: Seq<RerankResult>, echo: Option<Seq<char>>, count: nat, model: Seq<char>) -> Option<Seq<RerankResult>> {
    if data.len() != count || (echo matches Some(echo) && echo != model) {
        None
    } else {
        match scores_taken(data, Seq::new(count, |i: int| false), 0, Seq::empty()) {
            None => None,
            Some(scores) => Some(scores_sorted(scores)),
        }
    }
}

fn take_scores(data: &Vec<RerankResult>) -> (result: Option<Vec<RerankResult>>)
    ensures
        match result {
            Some(scores) => scores_taken(data@, Seq::new(data@.len(), |i: int| false), 0, Seq::empty()) == Some(scores@),
            None => scores_taken(data@, Seq::new(data@.len(), |i: int| false), 0, Seq::empty()) is None,
        },
{
    let ghost none = Seq::new(data@.len(), |i: int| false);
    let mut seen: Vec<bool> = Vec::new();
    while seen.len() < data.len()
        invariant
            seen@.len() <= data@.len(),
            forall|i: int| 0 <= i < seen@.len() ==> !(#[trigger] seen@[i]),
        decreases data@.len() - seen@.len(),
    {
        seen.push(false);
    }
    assert(seen@ =~= none);
    let mut scores: Vec<RerankResult> = Vec::new();
    let mut at: usize = 0;
    while at < data.len()
        invariant
            none == Seq::new(data@.len(), |i: int| false),
            at <= data@.len(),
            scores_taken(data@, seen@, at as nat, scores@) == scores_taken(data@, none, 0, Seq::empty()),
        decreases data@.len() - at,
    {
        let item: RerankResult = data[at];
        if item.index >= seen.len() || seen[item.index] || !is_finite(item.relevance_score) || !is_between(
            item.relevance_score,
            ZERO,
            ONE,
        ) {
            return None;
        }
        seen.set(item.index, true);
        let relevance_score: u64 = if is_same_number(item.relevance_score, ZERO) {
            ZERO
        } else {
            item.relevance_score
        };
        scores.push(RerankResult { index: item.index, relevance_score });
        at = at + 1;
    }
    Some(scores)
}

fn sort_scores(data: &Vec<RerankResult>) -> (result: Vec<RerankResult>)
    ensures
        result@ == scores_sorted(data@),
{
    let ghost before = rerank_order(data@);
    let precedes = |a: usize, b: usize| -> (result: bool)
        requires
            a < data@.len(),
            b < data@.len(),
        ensures
            result == before(a, b),
        {
            match rank_total(data[b].relevance_score, data[a].relevance_score) {
                Rank::Before => true,
                Rank::After => false,
                Rank::Same => data[a].index < data[b].index,
            }
        };
    let order = sort_positions(data.len(), &precedes, Ghost(before));
    let mut result: Vec<RerankResult> = Vec::new();
    while result.len() < order.len()
        invariant
            result@.len() <= order@.len(),
            forall|i: int| 0 <= i < order@.len() ==> (#[trigger] order@[i]) < data@.len(),
            forall|i: int| 0 <= i < result@.len() ==> (#[trigger] result@[i]) == data@[order@[i] as int],
        decreases order@.len() - result@.len(),
    {
        let at: usize = result.len();
        result.push(data[order[at]]);
    }
    assert(result@ =~= scores_sorted(data@));
    result
}

/// What a reply gives for so many documents: one score for each, the best first.
pub fn check_response(data: &Vec<RerankResult>, echo: &Option<String>, total_tokens: u64, count: usize, model: &str) -> (result: Result<
    RerankResponse,
    RerankingError,
>)
    ensures
        match result {
            Ok(response) => reply_taken(data@, optional_text(*echo), count as nat, model@) == Some(
                response.results@,
            ) && response.provider@ == "voyage"@ && response.model@ == model@ && response.total_tokens == total_tokens,
            Err(error) => reply_taken(data@, optional_text(*echo), count as nat, model@) is None
                && error@ == RerankingErrorView::InvalidResponse,
        },
{
    if data.len() != count {
        return Err(RerankingError::InvalidResponse);
    }
    if let Some(echo) = echo {
        if !same_text(echo.as_str(), model) {
            return Err(RerankingError::InvalidResponse);
        }
    }
    match take_scores(data) {
        None => Err(RerankingError::InvalidResponse),
        Some(scores) => Ok(
            RerankResponse { provider: "voyage", model: model.to_owned(), results: sort_scores(&scores), total_tokens },
        ),
    }
}

/// Whether every document has its place among the scores, and one alone.
pub open spec fn scores_each_once(scores: Seq<RerankResult>, seen: Seq<bool>) -> bool {
    &&& forall|i: int| 0 <= i < scores.len() ==> (#[trigger] scores[i]).index < seen.len() && seen[scores[i].index as int]
    &&& forall|i: int, j: int| 0 <= i < j < scores.len() ==> (#[trigger] scores[i]).index != (#[trigger] scores[j]).index
}

proof fn lemma_scores_taken(data: Seq<RerankResult>, seen: Seq<bool>, from: nat, done: Seq<RerankResult>)
    requires
        from <= data.len(),
        done.len() == from,
        scores_each_once(done, seen),
    ensures
        scores_taken(data, seen, from, done) matches Some(scores) ==> scores.len() == data.len() && (forall|i: int|
            0 <= i < scores.len() ==> (#[trigger] scores[i]).index < seen.len()) && forall|i: int, j: int|
            0 <= i < j < scores.len() ==> (#[trigger] scores[i]).index != (#[trigger] scores[j]).index,
    decreases data.len() - from,
{
    if from < data.len() {
        let item = data[from as int];
        if item.index < seen.len() && !seen[item.index as int] && score_valid(item.relevance_score) {
            let next = done.push(
                RerankResult {
                    index: item.index,
                    relevance_score: if same_number(item.relevance_score, ZERO) {
                        ZERO
                    } else {
                        item.relevance_score
                    },
                },
            );
            let marked = seen.update(item.index as int, true);
            assert(scores_each_once(next, marked)) by {
                assert forall|i: int| 0 <= i < next.len() implies (#[trigger] next[i]).index < marked.len()
                    && marked[next[i].index as int] by {
                    if i < done.len() {
                        assert(next[i] == done[i]);
                    }
                }
                assert forall|i: int, j: int| 0 <= i < j < next.len() implies (#[trigger] next[i]).index != (
                #[trigger] next[j]).index by {
                    assert(next[i] == done[i]);
                    if j < done.len() {
                        assert(next[j] == done[j]);
                    } else {
                        assert(seen[done[i].index as int]);
                    }
                }
            }
            lemma_scores_taken(data, marked, from + 1, next);
        }
    }
}

/// A reply that is taken has one score for each document: as many scores as documents, of different
/// ones, and all of them there.
pub proof fn law_one_score_each(data: Seq<RerankResult>, count: nat)
    requires
        data.len() == count,
    ensures
        scores_taken(data, Seq::new(count, |i: int| false), 0, Seq::empty()) matches Some(scores) ==> scores.len() == count && (
        forall|i: int| 0 <= i < scores.len() ==> (#[trigger] scores[i]).index < count) && forall|i: int, j: int|
            0 <= i < j < scores.len() ==> (#[trigger] scores[i]).index != (#[trigger] scores[j]).index,
{
    lemma_scores_taken(data, Seq::new(count, |i: int| false), 0, Seq::empty());
}

/// Fails exactly where a file of settings is longer than one may be.
pub fn check_config_size(bytes: usize) -> (fits: bool)
    ensures
        fits == (bytes <= MAX_CONFIG_BYTES),
{
    bytes <= MAX_CONFIG_BYTES
}

} // verus!
