//! Where a setting comes from, and what may be sent where.
//!
//! A flag beats the environment, the environment beats the corpus's own
//! `folio.yaml`, and that beats the user's. A credential travels to the
//! loopback in plaintext and off it only over TLS.

use vstd::prelude::*;

use crate::num::{IntError, int_error_message, parse_spec, parse_usize};
use crate::sections::opt_view;
use crate::text::{
    before_any, chars_of, eq_ignore_ascii_case, eq_ignore_case_range, find_in, first_occurrence,
    split_once, starts_with, starts_with_at, str_of, string_of, trim, trim_range, until_any,
};

verus! {

/// The default character budget per section. Set below the 8192-token context
/// of the models folio is measured on rather than at a round number.
pub const MAX_CHARS: usize = 8000;

/// Where folio looks for an endpoint when nothing else names one.
pub const DEFAULT_ENDPOINT: &'static str = "http://127.0.0.1:8080/v1/embeddings";

/// The model name folio sends. Most single-model servers ignore it.
pub const DEFAULT_MODEL: &'static str = "default";

/// The per-corpus config, meant to be committed with the corpus.
pub const PROJECT_CONFIG: &'static str = "folio.yaml";

/// What `folio index` needs before an index exists to remember it.
#[derive(Debug)]
pub struct Config {
    pub endpoint: Option<String>,
    pub model: Option<String>,
    pub api_key: Option<String>,
    pub allow_insecure: Option<bool>,
}

pub ghost struct ConfigView {
    pub endpoint: Option<Seq<char>>,
    pub model: Option<Seq<char>>,
    pub api_key: Option<Seq<char>>,
    pub allow_insecure: Option<bool>,
}

impl View for Config {
    type V = ConfigView;

    open spec fn view(&self) -> ConfigView {
        ConfigView {
            endpoint: opt_view(self.endpoint),
            model: opt_view(self.model),
            api_key: opt_view(self.api_key),
            allow_insecure: self.allow_insecure,
        }
    }
}

impl Config {
    /// The config of a file that is not there.
    pub fn empty() -> (c: Config)
        ensures
            c.endpoint is None,
            c.model is None,
            c.api_key is None,
            c.allow_insecure is None,
    {
        Config { endpoint: None, model: None, api_key: None, allow_insecure: None }
    }
}

/// Where a resolved setting came from.
#[derive(Debug, Clone, Copy, PartialEq, Eq, Structural)]
pub enum Source {
    Flag,
    Environment,
    Project,
    User,
    Default,
    Nothing,
}

pub open spec fn source_label(s: Source) -> Seq<char> {
    match s {
        Source::Flag => "flag"@,
        Source::Environment => "environment"@,
        Source::Project => "folio.yaml"@,
        Source::User => "user config"@,
        Source::Default => "default"@,
        Source::Nothing => "none"@,
    }
}

impl Source {
    /// The words `folio config` prints beside a setting.
    pub fn label(&self) -> (r: &'static str)
        ensures
            r@ == source_label(*self),
    {
        match self {
            Source::Flag => "flag",
            Source::Environment => "environment",
            Source::Project => "folio.yaml",
            Source::User => "user config",
            Source::Default => "default",
            Source::Nothing => "none",
        }
    }
}

pub open spec fn opt_str(o: Option<&str>) -> Option<Seq<char>> {
    match o {
        Some(s) => Some(s@),
        None => None,
    }
}

/// A value that is there and is not empty, which is what an environment
/// variable has to be to count as set.
pub open spec fn given(o: Option<Seq<char>>) -> bool {
    o is Some && o->0.len() > 0
}

/// Which value a setting takes, and from where.
pub open spec fn resolve_spec(
    flag: Option<Seq<char>>,
    env: Option<Seq<char>>,
    project: Option<Seq<char>>,
    user: Option<Seq<char>>,
    default: Seq<char>,
) -> (Seq<char>, Source) {
    if flag is Some {
        (flag->0, Source::Flag)
    } else if given(env) {
        (env->0, Source::Environment)
    } else if project is Some {
        (project->0, Source::Project)
    } else if user is Some {
        (user->0, Source::User)
    } else {
        (default, Source::Default)
    }
}

/// Resolve one setting, and say where the answer came from.
///
/// `env` is the value of the setting's environment variable, if it is set.
pub fn resolve(
    flag: Option<&str>,
    env: Option<&str>,
    project: Option<&str>,
    user: Option<&str>,
    default: &str,
) -> (r: (String, Source))
    ensures
        (r.0@, r.1) == resolve_spec(opt_str(flag), opt_str(env), opt_str(project), opt_str(user), default@),
{
    if let Some(v) = flag {
        return (v.to_owned(), Source::Flag);
    }
    if let Some(v) = env {
        if !v.is_empty() {
            return (v.to_owned(), Source::Environment);
        }
    }
    if let Some(v) = project {
        return (v.to_owned(), Source::Project);
    }
    if let Some(v) = user {
        return (v.to_owned(), Source::User);
    }
    (default.to_owned(), Source::Default)
}

/// The host of an authority: a bracketed IPv6 literal whole, otherwise what
/// stands before the first `:`.
pub open spec fn extract_host_spec(a: Seq<char>) -> Seq<char> {
    if a.len() > 0 && a[0] == '[' && first_occurrence(a, seq![']']) is Some {
        a.subrange(0, first_occurrence(a, seq![']'])->0 + 1)
    } else {
        match split_once(a, seq![':']) {
            Some(p) => p.0,
            None => a,
        }
    }
}

/// The stops that end an authority.
pub open spec fn authority_stops() -> Seq<char> {
    seq!['/', '?']
}

/// An endpoint without its `https://` or `http://`.
pub open spec fn strip_scheme(e: Seq<char>) -> Seq<char> {
    if starts_with(e, "https://"@) {
        e.subrange("https://"@.len() as int, e.len() as int)
    } else if starts_with(e, "http://"@) {
        e.subrange("http://"@.len() as int, e.len() as int)
    } else {
        e
    }
}

/// The host an endpoint names.
pub open spec fn endpoint_host_spec(e: Seq<char>) -> Seq<char> {
    extract_host_spec(before_any(strip_scheme(e), authority_stops()))
}

/// `s[lo..e]` is the host of the authority `s[lo..hi]`.
fn extract_host_range(s: &Vec<char>, lo: usize, hi: usize) -> (e: usize)
    requires
        lo <= hi <= s@.len(),
    ensures
        lo <= e <= hi,
        s@.subrange(lo as int, e as int) == extract_host_spec(s@.subrange(lo as int, hi as int)),
{
    let ghost a = s@.subrange(lo as int, hi as int);
    if hi > lo && s[lo] == '[' {
        assert(a[0] == s@[lo as int]);
        let close = vec![']'];
        assert(close@ =~= seq![']']);
        match find_in(s, lo, hi, &close) {
            Some(q) => {
                assert(s@.subrange(lo as int, q + 1) =~= a.subrange(0, q - lo + 1));
                return q + 1;
            },
            None => {},
        }
    }
    let colon = vec![':'];
    assert(colon@ =~= seq![':']);
    match find_in(s, lo, hi, &colon) {
        Some(q) => {
            assert(s@.subrange(lo as int, q as int) =~= a.subrange(0, q - lo));
            q
        },
        None => {
            hi
        },
    }
}

/// The host of an authority.
pub fn extract_host(authority: &str) -> (r: String)
    ensures
        r@ == extract_host_spec(authority@),
{
    let s = chars_of(authority);
    assert(s@.subrange(0, s@.len() as int) =~= s@);
    let e = extract_host_range(&s, 0, s.len());
    string_of(s.as_slice(), 0, e)
}

/// Where the authority of the endpoint `s` begins and ends.
fn authority_range(s: &Vec<char>) -> (r: (usize, usize))
    ensures
        r.0 <= r.1 <= s@.len(),
        s@.subrange(r.0 as int, r.1 as int) == before_any(strip_scheme(s@), authority_stops()),
{
    let n = s.len();
    assert(s@.subrange(0, n as int) =~= s@);
    let https = chars_of("https://");
    let http = chars_of("http://");
    let a = if starts_with_at(s, 0, n, &https) {
        https.len()
    } else if starts_with_at(s, 0, n, &http) {
        http.len()
    } else {
        0
    };
    assert(s@.subrange(a as int, n as int) == strip_scheme(s@));
    let stops = vec!['/', '?'];
    assert(stops@ == authority_stops());
    let b = until_any(s, a, n, &stops);
    (a, b)
}

/// The host an endpoint names.
pub fn endpoint_host(endpoint: &str) -> (r: String)
    ensures
        r@ == endpoint_host_spec(endpoint@),
{
    let s = chars_of(endpoint);
    let (a, b) = authority_range(&s);
    let e = extract_host_range(&s, a, b);
    string_of(s.as_slice(), a, e)
}

pub open spec fn openai_host() -> Seq<char> {
    "api.openai.com"@
}

/// Which API key is sent, and from where.
///
/// An API key never lives in project config, and `OPENAI_API_KEY` is read only
/// when the endpoint's host is `api.openai.com`.
pub open spec fn resolve_api_key_spec(
    endpoint: Seq<char>,
    folio_env: Option<Seq<char>>,
    openai_env: Option<Seq<char>>,
    user: Option<Seq<char>>,
) -> (Option<Seq<char>>, Source) {
    if given(folio_env) {
        (folio_env, Source::Environment)
    } else if eq_ignore_ascii_case(endpoint_host_spec(endpoint), openai_host()) && given(
        openai_env,
    ) {
        (openai_env, Source::Environment)
    } else if user is Some {
        (user, Source::User)
    } else {
        (None, Source::Nothing)
    }
}

/// Resolve the API key from the environment or the user's config.
///
/// `folio_env` and `openai_env` are the values of `FOLIO_API_KEY` and
/// `OPENAI_API_KEY`, where they are set.
pub fn resolve_api_key(
    endpoint: &str,
    folio_env: Option<&str>,
    openai_env: Option<&str>,
    user: Option<&str>,
) -> (r: (Option<String>, Source))
    ensures
        (opt_view(r.0), r.1) == resolve_api_key_spec(
            endpoint@,
            opt_str(folio_env),
            opt_str(openai_env),
            opt_str(user),
        ),
{
    if let Some(v) = folio_env {
        if !v.is_empty() {
            return (Some(v.to_owned()), Source::Environment);
        }
    }
    let host = chars_of(endpoint_host(endpoint).as_str());
    let openai = chars_of("api.openai.com");
    assert(host@.subrange(0, host@.len() as int) =~= host@);
    if eq_ignore_case_range(&host, 0, host.len(), &openai) {
        if let Some(v) = openai_env {
            if !v.is_empty() {
                return (Some(v.to_owned()), Source::Environment);
            }
        }
    }
    if let Some(v) = user {
        return (Some(v.to_owned()), Source::User);
    }
    (None, Source::Nothing)
}

/// A value of `FOLIO_ALLOW_INSECURE` that turns it on.
pub open spec fn says_yes(t: Seq<char>) -> bool {
    t == "1"@ || eq_ignore_ascii_case(t, "true"@) || eq_ignore_ascii_case(t, "yes"@)
}

/// A value of `FOLIO_ALLOW_INSECURE` that turns it off.
pub open spec fn says_no(t: Seq<char>) -> bool {
    t == "0"@ || eq_ignore_ascii_case(t, "false"@) || eq_ignore_ascii_case(t, "no"@)
}

/// Whether plaintext credentials off the loopback are allowed: the flag, then
/// the environment when it says yes or no, then the user's config, then not.
pub open spec fn allow_insecure_spec(flag: bool, env: Option<Seq<char>>, user: Option<bool>) -> bool {
    if flag {
        true
    } else if env is Some && says_yes(trim(env->0)) {
        true
    } else if env is Some && says_no(trim(env->0)) {
        false
    } else {
        user == Some(true)
    }
}

fn literal_eq_ignore_case(t: &Vec<char>, lo: usize, hi: usize, lit: &str) -> (b: bool)
    requires
        lo <= hi <= t@.len(),
    ensures
        b == eq_ignore_ascii_case(t@.subrange(lo as int, hi as int), lit@),
{
    let l = chars_of(lit);
    eq_ignore_case_range(t, lo, hi, &l)
}

fn literal_eq(t: &Vec<char>, lo: usize, hi: usize, lit: &str) -> (b: bool)
    requires
        lo <= hi <= t@.len(),
    ensures
        b == (t@.subrange(lo as int, hi as int) == lit@),
{
    let a = string_of(t.as_slice(), lo, hi);
    let l = str_of(lit);
    a == l
}

/// `FOLIO_ALLOW_INSECURE` is the value of that variable, where it is set.
pub fn resolve_allow_insecure(flag: bool, env: Option<&str>, user: Option<bool>) -> (b: bool)
    ensures
        b == allow_insecure_spec(flag, opt_str(env), user),
{
    if flag {
        return true;
    }
    if let Some(v) = env {
        let t = chars_of(v);
        let (lo, hi) = trim_range(&t, 0, t.len());
        assert(t@.subrange(0, t@.len() as int) =~= t@);
        if literal_eq(&t, lo, hi, "1") || literal_eq_ignore_case(&t, lo, hi, "true")
            || literal_eq_ignore_case(&t, lo, hi, "yes") {
            return true;
        }
        if literal_eq(&t, lo, hi, "0") || literal_eq_ignore_case(&t, lo, hi, "false")
            || literal_eq_ignore_case(&t, lo, hi, "no") {
            return false;
        }
    }
    match user {
        Some(u) => u,
        None => false,
    }
}

/// `s` with every leading `c` removed.
pub open spec fn trim_char_start(s: Seq<char>, c: char) -> Seq<char>
    decreases s.len(),
{
    if s.len() > 0 && s[0] == c {
        trim_char_start(s.drop_first(), c)
    } else {
        s
    }
}

/// `s` with every trailing `c` removed.
pub open spec fn trim_char_end(s: Seq<char>, c: char) -> Seq<char>
    decreases s.len(),
{
    if s.len() > 0 && s.last() == c {
        trim_char_end(s.drop_last(), c)
    } else {
        s
    }
}

/// `s` with `c` removed from both ends, as `str::trim_matches` removes it.
pub open spec fn trim_char(s: Seq<char>, c: char) -> Seq<char> {
    trim_char_end(trim_char_start(s, c), c)
}

/// The host a loopback test reads: brackets trimmed from both ends.
pub open spec fn loopback_candidate_spec(host: Seq<char>) -> Seq<char> {
    trim_char(trim_char(host, '['), ']')
}

proof fn lemma_trim_char_start_step(s: Seq<char>, c: char, lo: int, hi: int)
    requires
        0 <= lo < hi <= s.len(),
        s[lo] == c,
    ensures
        trim_char_start(s.subrange(lo, hi), c) == trim_char_start(s.subrange(lo + 1, hi), c),
{
    assert(s.subrange(lo, hi).drop_first() =~= s.subrange(lo + 1, hi));
}

proof fn lemma_trim_char_end_step(s: Seq<char>, c: char, lo: int, hi: int)
    requires
        0 <= lo < hi <= s.len(),
        s[hi - 1] == c,
    ensures
        trim_char_end(s.subrange(lo, hi), c) == trim_char_end(s.subrange(lo, hi - 1), c),
{
    assert(s.subrange(lo, hi).drop_last() =~= s.subrange(lo, hi - 1));
}

/// Where `s[lo..hi]` with `c` trimmed from both ends begins and ends.
fn trim_char_range(s: &Vec<char>, lo: usize, hi: usize, c: char) -> (r: (usize, usize))
    requires
        lo <= hi <= s@.len(),
    ensures
        lo <= r.0 <= r.1 <= hi,
        s@.subrange(r.0 as int, r.1 as int) == trim_char(s@.subrange(lo as int, hi as int), c),
{
    let mut a = lo;
    while a < hi && s[a] == c
        invariant
            lo <= a <= hi <= s@.len(),
            trim_char_start(s@.subrange(lo as int, hi as int), c) == trim_char_start(
                s@.subrange(a as int, hi as int),
                c,
            ),
        decreases hi - a,
    {
        proof {
            lemma_trim_char_start_step(s@, c, a as int, hi as int);
        }
        a = a + 1;
    }
    assert(trim_char_start(s@.subrange(a as int, hi as int), c) == s@.subrange(a as int, hi as int))
        by {
        if a < hi {
            assert(s@.subrange(a as int, hi as int)[0] == s@[a as int]);
        }
    }
    let mut b = hi;
    while b > a && s[b - 1] == c
        invariant
            a <= b <= hi <= s@.len(),
            trim_char_end(s@.subrange(a as int, hi as int), c) == trim_char_end(
                s@.subrange(a as int, b as int),
                c,
            ),
        decreases b - a,
    {
        proof {
            lemma_trim_char_end_step(s@, c, a as int, b as int);
        }
        b = b - 1;
    }
    assert(trim_char_end(s@.subrange(a as int, b as int), c) == s@.subrange(a as int, b as int))
        by {
        if a < b {
            assert(s@.subrange(a as int, b as int).last() == s@[b - 1]);
        }
    }
    (a, b)
}

/// The host with its brackets trimmed, which is the text a loopback test
/// reads and the text whose address `validate_transport` is told about.
pub fn loopback_candidate(host: &str) -> (r: String)
    ensures
        r@ == loopback_candidate_spec(host@),
{
    let s = chars_of(host);
    assert(s@.subrange(0, s@.len() as int) =~= s@);
    let (a, b) = trim_char_range(&s, 0, s.len(), '[');
    let (c, d) = trim_char_range(&s, a, b, ']');
    string_of(s.as_slice(), c, d)
}

/// A host that is the loopback: `localhost` in any case, or an address that
/// `ip_loopback` says is a loopback address.
pub open spec fn is_loopback_spec(host: Seq<char>, ip_loopback: bool) -> bool {
    eq_ignore_ascii_case(loopback_candidate_spec(host), "localhost"@) || ip_loopback
}

/// Whether `host` is the loopback.
///
/// `ip_loopback` says whether `loopback_candidate(host)` parses as an IP
/// address that is a loopback address; reading an address is the caller's.
pub fn is_loopback(host: &str, ip_loopback: bool) -> (b: bool)
    ensures
        b == is_loopback_spec(host@, ip_loopback),
{
    let cand = chars_of(loopback_candidate(host).as_str());
    assert(cand@.subrange(0, cand@.len() as int) =~= cand@);
    literal_eq_ignore_case(&cand, 0, cand.len(), "localhost") || ip_loopback
}

/// The host of a plaintext endpoint: what follows `http://`, up to its path.
pub open spec fn plain_host_spec(e: Seq<char>) -> Seq<char> {
    extract_host_spec(
        before_any(e.subrange("http://"@.len() as int, e.len() as int), authority_stops()),
    )
}

/// Why credentials were not sent.
#[derive(Debug)]
pub enum TransportError {
    PlaintextOffLoopback { endpoint: String },
    NotHttps { endpoint: String },
}

pub ghost enum TransportErrorView {
    PlaintextOffLoopback { endpoint: Seq<char> },
    NotHttps { endpoint: Seq<char> },
}

impl View for TransportError {
    type V = TransportErrorView;

    open spec fn view(&self) -> TransportErrorView {
        match self {
            TransportError::PlaintextOffLoopback { endpoint } => {
                TransportErrorView::PlaintextOffLoopback { endpoint: endpoint@ }
            },
            TransportError::NotHttps { endpoint } => TransportErrorView::NotHttps {
                endpoint: endpoint@,
            },
        }
    }
}

pub open spec fn transport_message(e: TransportErrorView) -> Seq<char> {
    match e {
        TransportErrorView::PlaintextOffLoopback { endpoint } => "the endpoint at "@ + endpoint
            + " is unencrypted HTTP off the loopback; sending credentials over plaintext HTTP is refused — use HTTPS, or allow plaintext with --allow-insecure or `folio config set allow_insecure true`"@,
        TransportErrorView::NotHttps { endpoint } => "the endpoint at "@ + endpoint
            + " does not use HTTPS; sending credentials over unencrypted transport is refused"@,
    }
}

impl TransportError {
    /// The refusal, in words.
    pub fn message(&self) -> (r: String)
        ensures
            r@ == transport_message(self@),
    {
        let mut r = str_of("the endpoint at ");
        match self {
            TransportError::PlaintextOffLoopback { endpoint } => {
                r.append(endpoint.as_str());
                r.append(
                    " is unencrypted HTTP off the loopback; sending credentials over plaintext HTTP is refused — use HTTPS, or allow plaintext with --allow-insecure or `folio config set allow_insecure true`",
                );
            },
            TransportError::NotHttps { endpoint } => {
                r.append(endpoint.as_str());
                r.append(
                    " does not use HTTPS; sending credentials over unencrypted transport is refused",
                );
            },
        }
        r
    }
}

/// What sending to `e` is answered: nothing to refuse without a key or with
/// plaintext allowed, nothing over TLS or to the loopback, and a refusal that
/// says which rule was broken otherwise.
pub open spec fn transport_spec(e: Seq<char>, has_key: bool, allow_insecure: bool, ip_loopback: bool) -> Result<(), TransportErrorView> {
    if !has_key || allow_insecure || starts_with(e, "https://"@) {
        Ok(())
    } else if starts_with(e, "http://"@) {
        if is_loopback_spec(plain_host_spec(e), ip_loopback) {
            Ok(())
        } else {
            Err(TransportErrorView::PlaintextOffLoopback { endpoint: e })
        }
    } else {
        Err(TransportErrorView::NotHttps { endpoint: e })
    }
}

pub open spec fn transport_view(r: Result<(), TransportError>) -> Result<(), TransportErrorView> {
    match r {
        Ok(()) => Ok(()),
        Err(e) => Err(e@),
    }
}

/// The host whose address decides a plaintext endpoint, brackets trimmed:
/// the text the caller reads as an IP address for `validate_transport`.
pub fn transport_host(endpoint: &str) -> (r: String)
    ensures
        starts_with(endpoint@, "http://"@) ==> r@ == loopback_candidate_spec(plain_host_spec(endpoint@)),
        !starts_with(endpoint@, "http://"@) ==> r@.len() == 0,
{
    let s = chars_of(endpoint);
    let n = s.len();
    assert(s@.subrange(0, n as int) =~= s@);
    let http = chars_of("http://");
    if !starts_with_at(&s, 0, n, &http) {
        return String::new();
    }
    let stops = vec!['/', '?'];
    let b = until_any(&s, http.len(), n, &stops);
    let e = extract_host_range(&s, http.len(), b);
    let host = string_of(s.as_slice(), http.len(), e);
    loopback_candidate(host.as_str())
}

/// Refuse to send a credential in plaintext off the loopback.
///
/// `ip_loopback` says whether `transport_host(endpoint)` parses as an IP
/// address that is a loopback address.
pub fn validate_transport(endpoint: &str, has_key: bool, allow_insecure: bool, ip_loopback: bool) -> (r: Result<(), TransportError>)
    ensures
        transport_view(r) == transport_spec(endpoint@, has_key, allow_insecure, ip_loopback),
{
    if !has_key || allow_insecure {
        return Ok(());
    }
    let s = chars_of(endpoint);
    let n = s.len();
    assert(s@.subrange(0, n as int) =~= s@);
    let https = chars_of("https://");
    if starts_with_at(&s, 0, n, &https) {
        return Ok(());
    }
    let http = chars_of("http://");
    if starts_with_at(&s, 0, n, &http) {
        let stops = vec!['/', '?'];
        assert(stops@ == authority_stops());
        let b = until_any(&s, http.len(), n, &stops);
        let e = extract_host_range(&s, http.len(), b);
        let host = string_of(s.as_slice(), http.len(), e);
        if is_loopback(host.as_str(), ip_loopback) {
            return Ok(());
        }
        return Err(TransportError::PlaintextOffLoopback { endpoint: endpoint.to_owned() });
    }
    Err(TransportError::NotHttps { endpoint: endpoint.to_owned() })
}

/// Why a config was refused or a setting not written.
#[derive(Debug)]
pub enum ConfigError {
    CredentialsInProject { path: String },
    ApiKeyForProject,
    UnknownSetting { key: String },
    NotABool,
}

pub ghost enum ConfigErrorView {
    CredentialsInProject { path: Seq<char> },
    ApiKeyForProject,
    UnknownSetting { key: Seq<char> },
    NotABool,
}

impl View for ConfigError {
    type V = ConfigErrorView;

    open spec fn view(&self) -> ConfigErrorView {
        match self {
            ConfigError::CredentialsInProject { path } => ConfigErrorView::CredentialsInProject {
                path: path@,
            },
            ConfigError::ApiKeyForProject => ConfigErrorView::ApiKeyForProject,
            ConfigError::UnknownSetting { key } => ConfigErrorView::UnknownSetting { key: key@ },
            ConfigError::NotABool => ConfigErrorView::NotABool,
        }
    }
}

pub open spec fn config_message(e: ConfigErrorView) -> Seq<char> {
    match e {
        ConfigErrorView::CredentialsInProject { path } => path
            + " contains an API key; folio.yaml is committed with the corpus and must not contain credentials — use FOLIO_API_KEY in the environment or write to user config with `folio config set api_key <val>`"@,
        ConfigErrorView::ApiKeyForProject => "a project config cannot hold an API key because folio.yaml is committed with the corpus; write to user config without --project or set FOLIO_API_KEY in the environment"@,
        ConfigErrorView::UnknownSetting { key } => "no setting named "@ + key
            + " — folio config holds endpoint, model, api_key, allow_insecure"@,
        ConfigErrorView::NotABool => "allow_insecure must be 'true' or 'false'"@,
    }
}

impl ConfigError {
    /// The refusal, in words.
    pub fn message(&self) -> (r: String)
        ensures
            r@ == config_message(self@),
    {
        match self {
            ConfigError::CredentialsInProject { path } => {
                let mut r = path.clone();
                r.append(
                    " contains an API key; folio.yaml is committed with the corpus and must not contain credentials — use FOLIO_API_KEY in the environment or write to user config with `folio config set api_key <val>`",
                );
                r
            },
            ConfigError::ApiKeyForProject => str_of(
                "a project config cannot hold an API key because folio.yaml is committed with the corpus; write to user config without --project or set FOLIO_API_KEY in the environment",
            ),
            ConfigError::UnknownSetting { key } => {
                let mut r = str_of("no setting named ");
                r.append(key.as_str());
                r.append(" — folio config holds endpoint, model, api_key, allow_insecure");
                r
            },
            ConfigError::NotABool => str_of("allow_insecure must be 'true' or 'false'"),
        }
    }
}

/// The name a path ends in, as `Path::file_name` gives it.
pub uninterp spec fn spec_file_name(path: Seq<char>) -> Option<Seq<char>>;

/// `Path::file_name`, as text: the last component of `path`, or nothing where
/// the path ends in `..` or names no component.
#[verifier::external_body]
fn file_name(path: &str) -> (r: Option<String>)
    ensures
        opt_view(r) == spec_file_name(path@),
{
    std::path::Path::new(path).file_name().and_then(|n| n.to_str()).map(|n| n.to_owned())
}

fn same_text(a: &str, b: &str) -> (r: bool)
    ensures
        r == (a@ == b@),
{
    let x = a.to_owned();
    let y = b.to_owned();
    x == y
}

/// A config read from `path` that may stand: one that is not `folio.yaml`, or
/// one that holds no API key.
pub open spec fn config_admitted(path: Seq<char>, api_key: Option<Seq<char>>) -> bool {
    !(spec_file_name(path) == Some("folio.yaml"@) && api_key is Some)
}

/// The config read from `path`, or the refusal of a committed file that
/// carries a credential.
pub fn check_config(path: &str, cfg: Config) -> (r: Result<Config, ConfigError>)
    ensures
        match r {
            Ok(c) => config_admitted(path@, cfg@.api_key) && c@ == cfg@,
            Err(e) => !config_admitted(path@, cfg@.api_key) && e@ == (ConfigErrorView::CredentialsInProject { path: path@ }),
        },
{
    let name = file_name(path);
    let committed = match &name {
        Some(n) => same_text(n.as_str(), "folio.yaml"),
        None => false,
    };
    if committed && cfg.api_key.is_some() {
        return Err(ConfigError::CredentialsInProject { path: path.to_owned() });
    }
    Ok(cfg)
}

/// `folio config set` refuses to write a key into the project config before
/// it reads anything.
pub fn refuse_project_key(key: &str, project: bool) -> (r: Result<(), ConfigError>)
    ensures
        r is Err <==> (key@ == "api_key"@ && project),
        r is Err ==> r->Err_0@ == ConfigErrorView::ApiKeyForProject,
{
    if project && same_text(key, "api_key") {
        return Err(ConfigError::ApiKeyForProject);
    }
    Ok(())
}

/// What setting `key` to `value` makes of a config.
pub open spec fn set_spec(c: ConfigView, key: Seq<char>, value: Seq<char>) -> Result<ConfigView, ConfigErrorView> {
    if key == "endpoint"@ {
        Ok(ConfigView { endpoint: Some(value), ..c })
    } else if key == "model"@ {
        Ok(ConfigView { model: Some(value), ..c })
    } else if key == "api_key"@ {
        Ok(ConfigView { api_key: Some(value), ..c })
    } else if key == "allow_insecure"@ {
        if value == "true"@ {
            Ok(ConfigView { allow_insecure: Some(true), ..c })
        } else if value == "false"@ {
            Ok(ConfigView { allow_insecure: Some(false), ..c })
        } else {
            Err(ConfigErrorView::NotABool)
        }
    } else {
        Err(ConfigErrorView::UnknownSetting { key })
    }
}

/// Set one setting of a config; a refusal leaves the config as it was.
pub fn apply_setting(cfg: &mut Config, key: &str, value: String) -> (r: Result<(), ConfigError>)
    ensures
        match set_spec(old(cfg)@, key@, value@) {
            Ok(c) => r is Ok && final(cfg)@ == c,
            Err(e) => r is Err && r->Err_0@ == e && final(cfg)@ == old(cfg)@,
        },
{
    if same_text(key, "endpoint") {
        cfg.endpoint = Some(value);
        Ok(())
    } else if same_text(key, "model") {
        cfg.model = Some(value);
        Ok(())
    } else if same_text(key, "api_key") {
        cfg.api_key = Some(value);
        Ok(())
    } else if same_text(key, "allow_insecure") {
        if same_text(value.as_str(), "true") {
            cfg.allow_insecure = Some(true);
            Ok(())
        } else if same_text(value.as_str(), "false") {
            cfg.allow_insecure = Some(false);
            Ok(())
        } else {
            Err(ConfigError::NotABool)
        }
    } else {
        Err(ConfigError::UnknownSetting { key: key.to_owned() })
    }
}

/// Each scope beats the one below it: a flag beats the environment, a set and
/// non-empty environment variable beats the corpus's `folio.yaml`, that beats
/// the user's config, and that beats the built-in default. An empty
/// environment variable counts as unset.
pub proof fn lemma_each_scope_beats_the_one_below(
    f: Seq<char>,
    e: Seq<char>,
    p: Seq<char>,
    u: Seq<char>,
    d: Seq<char>,
    env: Option<Seq<char>>,
    project: Option<Seq<char>>,
    user: Option<Seq<char>>,
)
    ensures
        resolve_spec(Some(f), env, project, user, d) == (f, Source::Flag),
        e.len() > 0 ==> resolve_spec(None, Some(e), project, user, d) == (e, Source::Environment),
        !given(env) ==> resolve_spec(None, env, Some(p), user, d) == (p, Source::Project),
        !given(env) ==> resolve_spec(None, env, None, Some(u), d) == (u, Source::User),
        !given(env) ==> resolve_spec(None, env, None, None, d) == (d, Source::Default),
{
}

/// A credential goes over TLS, or in plaintext to the loopback, or nowhere
/// unless plaintext was explicitly allowed; and without a credential nothing is
/// refused.
pub proof fn lemma_credentials_stay_on_tls_or_loopback(e: Seq<char>, ip_loopback: bool)
    ensures
        transport_spec(e, true, false, ip_loopback) is Ok ==> (starts_with(e, "https://"@) || (
        starts_with(e, "http://"@) && is_loopback_spec(plain_host_spec(e), ip_loopback))),
        transport_spec(e, false, false, ip_loopback) is Ok,
        transport_spec(e, true, true, ip_loopback) is Ok,
{
}

/// The budget to re-index with, given what the index recorded.
///
/// An index written before folio recorded the budget has none, which reads back
/// as zero. Zero is not a budget: it means "not recorded" and nothing else.
pub fn budget(recorded: usize) -> (b: usize)
    ensures
        b == (if recorded == 0 {
            MAX_CHARS
        } else {
            recorded
        }),
        b > 0,
{
    if recorded == 0 {
        MAX_CHARS
    } else {
        recorded
    }
}

pub open spec fn zero_budget_message() -> Seq<char> {
    "a section budget of 0 characters would embed nothing"@
}

/// What `at_least_one` answers for `s`.
pub open spec fn at_least_one_spec(s: Seq<char>) -> Result<nat, Seq<char>> {
    match parse_spec(s, usize::MAX as nat) {
        Ok(n) => if n == 0 {
            Err(zero_budget_message())
        } else {
            Ok(n)
        },
        Err(e) => Err(int_error_message(e)),
    }
}

/// A budget of characters, which is a positive number.
pub fn at_least_one(s: &str) -> (r: Result<usize, String>)
    ensures
        match r {
            Ok(n) => at_least_one_spec(s@) == Ok::<nat, Seq<char>>(n as nat),
            Err(m) => at_least_one_spec(s@) == Err::<nat, Seq<char>>(m@),
        },
{
    match parse_usize(s) {
        Ok(0) => Err(str_of("a section budget of 0 characters would embed nothing")),
        Ok(n) => Ok(n),
        Err(e) => Err(e.message()),
    }
}

} // verus!
