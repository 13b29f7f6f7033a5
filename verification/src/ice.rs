//! Which servers help a browser and a device to find each other.
//!
//! Where TURN is enabled the servers come from Cloudflare, whose answer is kept for a while. Where it
//! is not, or where Cloudflare cannot be asked, there are STUN servers to fall back on.

use vstd::prelude::*;
use vstd::string::StringExecFns;

use crate::text::{
    chars_of, is_white_space, join, law_split_undoes_join, law_trim_undoes_padding,
    opt_str, opt_text, parse_u64, split, split_chars, string_of, strings, text_eq, trim, trim_bounds, trim_end,
    trim_start, u64_of,
};

verus! {

broadcast use vstd::string::group_string_axioms;

// ----- Configurations -----

/// A server, with what it takes to use it.
#[derive(Debug)]
pub struct RtcIceServerConfig {
    pub urls: Vec<String>,
    pub username: Option<String>,
    pub credential: Option<String>,
}

/// The servers that a browser is told to use, and how they were chosen.
#[derive(Debug)]
pub struct RtcIceConfigResponse {
    pub ice_servers: Vec<RtcIceServerConfig>,
    pub ice_transport_policy: String,
    pub source: Option<String>,
    pub turn_enabled: bool,
    pub cf_app_id_configured: bool,
    pub cf_api_token_configured: bool,
    pub error: Option<String>,
}

/// What a server's entry holds.
pub struct ServerView {
    pub urls: Seq<Seq<char>>,
    pub username: Option<Seq<char>>,
    pub credential: Option<Seq<char>>,
}

/// What a configuration holds.
pub struct ConfigView {
    pub ice_servers: Seq<ServerView>,
    pub ice_transport_policy: Seq<char>,
    pub source: Option<Seq<char>>,
    pub turn_enabled: bool,
    pub cf_app_id_configured: bool,
    pub cf_api_token_configured: bool,
    pub error: Option<Seq<char>>,
}

impl View for RtcIceServerConfig {
    type V = ServerView;

    open spec fn view(&self) -> ServerView {
        ServerView {
            urls: strings(self.urls@),
            username: opt_text(self.username),
            credential: opt_text(self.credential),
        }
    }
}

/// The entries of a sequence of servers.
pub open spec fn servers(v: Seq<RtcIceServerConfig>) -> Seq<ServerView> {
    v.map_values(|s: RtcIceServerConfig| s@)
}

impl View for RtcIceConfigResponse {
    type V = ConfigView;

    open spec fn view(&self) -> ConfigView {
        ConfigView {
            ice_servers: servers(self.ice_servers@),
            ice_transport_policy: self.ice_transport_policy@,
            source: opt_text(self.source),
            turn_enabled: self.turn_enabled,
            cf_app_id_configured: self.cf_app_id_configured,
            cf_api_token_configured: self.cf_api_token_configured,
            error: opt_text(self.error),
        }
    }
}

fn copy_strings(v: &Vec<String>) -> (r: Vec<String>)
    ensures
        strings(r@) == strings(v@),
{
    let mut out: Vec<String> = Vec::new();
    let mut i: usize = 0;
    while i < v.len()
        invariant
            i <= v@.len(),
            strings(out@) == strings(v@).take(i as int),
        decreases v@.len() - i,
    {
        let ghost before = out@;
        let s = v[i].clone();
        out.push(s);
        assert(strings(out@) =~= strings(before).push(s@));
        i = i + 1;
        assert(strings(out@) =~= strings(v@).take(i as int));
    }
    assert(strings(out@) =~= strings(v@));
    out
}

fn copy_option(s: &Option<String>) -> (r: Option<String>)
    ensures
        opt_text(r) == opt_text(*s),
{
    match s {
        Some(s) => Some(s.clone()),
        None => None,
    }
}

impl Clone for RtcIceServerConfig {
    fn clone(&self) -> (r: Self)
        ensures
            r@ == self@,
    {
        RtcIceServerConfig {
            urls: copy_strings(&self.urls),
            username: copy_option(&self.username),
            credential: copy_option(&self.credential),
        }
    }
}

impl Clone for RtcIceConfigResponse {
    fn clone(&self) -> (r: Self)
        ensures
            r@ == self@,
    {
        let mut ice_servers: Vec<RtcIceServerConfig> = Vec::new();
        let mut i: usize = 0;
        while i < self.ice_servers.len()
            invariant
                i <= self.ice_servers@.len(),
                servers(ice_servers@) == servers(self.ice_servers@).take(i as int),
            decreases self.ice_servers@.len() - i,
        {
            let ghost before = ice_servers@;
            let s = self.ice_servers[i].clone();
            ice_servers.push(s);
            assert(servers(ice_servers@) =~= servers(before).push(s@));
            i = i + 1;
            assert(servers(ice_servers@) =~= servers(self.ice_servers@).take(i as int));
        }
        assert(servers(ice_servers@) =~= servers(self.ice_servers@));
        RtcIceConfigResponse {
            ice_servers,
            ice_transport_policy: self.ice_transport_policy.clone(),
            source: copy_option(&self.source),
            turn_enabled: self.turn_enabled,
            cf_app_id_configured: self.cf_app_id_configured,
            cf_api_token_configured: self.cf_api_token_configured,
            error: copy_option(&self.error),
        }
    }
}

// ----- Settings -----

/// Whether a setting or a parameter says yes.
pub open spec fn says_yes(v: Option<Seq<char>>) -> bool {
    v matches Some(s) && (s == "1"@ || s == "true"@ || s == "TRUE"@ || s == "yes"@ || s == "YES"@)
}

/// Whether a client asks for relayed connections only.
pub fn parse_force_relay(value: Option<&str>) -> (r: bool)
    ensures
        r == says_yes(opt_str(value)),
{
    match value {
        Some(s) => text_eq(s, "1") || text_eq(s, "true") || text_eq(s, "TRUE") || text_eq(s, "yes")
            || text_eq(s, "YES"),
        None => false,
    }
}

/// The settings as the environment gives them: `None` where a variable is not set.
pub struct IceSettings {
    /// `RTC_TURN_ENABLED`
    pub turn_enabled: Option<String>,
    /// `CF_TURN_TTL_SECONDS`
    pub ttl: Option<String>,
    /// `RTC_TURN_REFRESH_SKEW_SECONDS`
    pub refresh_skew: Option<String>,
    /// `RTC_STUN_URLS`
    pub stun_urls: Option<String>,
    /// `CF_TURN_APP_ID`
    pub app_id: Option<String>,
    /// `CF_TURN_API_TOKEN`
    pub api_token: Option<String>,
}

/// The number that a setting gives, or `default`.
pub open spec fn number_or(v: Option<Seq<char>>, default: u64) -> u64 {
    match v {
        Some(s) => match u64_of(s) {
            Some(n) => n,
            None => default,
        },
        None => default,
    }
}

/// A setting that is there and not empty.
pub open spec fn non_empty(v: Option<Seq<char>>) -> Option<Seq<char>> {
    if v matches Some(s) && s.len() > 0 {
        v
    } else {
        None
    }
}

/// The addresses in a list with commas between them: without the white space round them, and without
/// those that are blank.
pub open spec fn url_list(s: Seq<char>) -> Seq<Seq<char>> {
    non_blank(split(s, ','))
}

/// The texts that are not blank, without the white space round them.
pub open spec fn non_blank(pieces: Seq<Seq<char>>) -> Seq<Seq<char>>
    decreases pieces.len(),
{
    if pieces.len() == 0 {
        Seq::empty()
    } else {
        let before = non_blank(pieces.drop_last());
        let piece = trim(pieces.last());
        if piece.len() == 0 {
            before
        } else {
            before.push(piece)
        }
    }
}

/// The STUN servers to fall back on where the settings name none.
pub open spec fn default_stun_urls() -> Seq<char> {
    "stun:stun.cloudflare.com:3478,stun:stun.cloudflare.com:53"@
}

fn read_url_list(s: &str) -> (r: Vec<String>)
    ensures
        strings(r@) == url_list(s@),
{
    let chars = chars_of(s);
    let pieces = split_chars(&chars, ',');
    let ghost texts = split(s@, ',');
    assert(crate::text::char_texts(pieces@) == texts);
    let mut out: Vec<String> = Vec::new();
    let mut i: usize = 0;
    assert(texts.take(0) =~= Seq::empty());
    assert(strings(out@) =~= Seq::empty());
    while i < pieces.len()
        invariant
            i <= pieces@.len(),
            texts == crate::text::char_texts(pieces@),
            strings(out@) == non_blank(texts.take(i as int)),
        decreases pieces@.len() - i,
    {
        let (from, to) = trim_bounds(&pieces[i]);
        assert(texts.take(i + 1).drop_last() =~= texts.take(i as int));
        assert(texts.take(i + 1).last() == pieces@[i as int]@);
        if from < to {
            let ghost before = out@;
            let piece = string_of(&pieces[i], from, to);
            out.push(piece);
            assert(strings(out@) =~= strings(before).push(piece@));
        }
        i = i + 1;
    }
    assert(texts.take(i as int) =~= texts);
    out
}

fn read_number(v: &Option<String>, default: u64) -> (r: u64)
    ensures
        r == number_or(opt_text(*v), default),
{
    match v {
        Some(s) => match parse_u64(s.as_str()) {
            Some(n) => n,
            None => default,
        },
        None => default,
    }
}

fn read_non_empty(v: Option<String>) -> (r: Option<String>)
    ensures
        opt_text(r) == non_empty(opt_text(v)),
{
    match v {
        Some(s) => if s.as_str().is_empty() {
            None
        } else {
            Some(s)
        },
        None => None,
    }
}

// ----- The service -----

/// Cloudflare's last answer. Times are in nanoseconds, from any fixed moment on.
#[derive(Debug)]
pub struct RtcIceCache {
    pub config: RtcIceConfigResponse,
    pub expires_at: u128,
}

/// What a kept answer holds.
pub struct CacheView {
    pub config: ConfigView,
    pub expires_at: u128,
}

/// Chooses the servers.
#[derive(Debug)]
pub struct RtcIceService {
    pub cf_app_id: Option<String>,
    pub cf_api_token: Option<String>,
    pub turn_enabled: bool,
    pub ttl: u64,
    pub refresh_skew: u64,
    pub fallback_stun_urls: Vec<String>,
    pub cache: Option<RtcIceCache>,
}

/// What the service holds.
pub struct ServiceView {
    pub cf_app_id: Option<Seq<char>>,
    pub cf_api_token: Option<Seq<char>>,
    pub turn_enabled: bool,
    pub ttl: u64,
    pub refresh_skew: u64,
    pub fallback_stun_urls: Seq<Seq<char>>,
    pub cache: Option<CacheView>,
}

impl View for RtcIceService {
    type V = ServiceView;

    open spec fn view(&self) -> ServiceView {
        ServiceView {
            cf_app_id: opt_text(self.cf_app_id),
            cf_api_token: opt_text(self.cf_api_token),
            turn_enabled: self.turn_enabled,
            ttl: self.ttl,
            refresh_skew: self.refresh_skew,
            fallback_stun_urls: strings(self.fallback_stun_urls@),
            cache: match self.cache {
                Some(c) => Some(CacheView { config: c.config@, expires_at: c.expires_at }),
                None => None,
            },
        }
    }
}

/// What the settings hold.
pub struct SettingsView {
    pub turn_enabled: Option<Seq<char>>,
    pub ttl: Option<Seq<char>>,
    pub refresh_skew: Option<Seq<char>>,
    pub stun_urls: Option<Seq<char>>,
    pub app_id: Option<Seq<char>>,
    pub api_token: Option<Seq<char>>,
}

impl View for IceSettings {
    type V = SettingsView;

    open spec fn view(&self) -> SettingsView {
        SettingsView {
            turn_enabled: opt_text(self.turn_enabled),
            ttl: opt_text(self.ttl),
            refresh_skew: opt_text(self.refresh_skew),
            stun_urls: opt_text(self.stun_urls),
            app_id: opt_text(self.app_id),
            api_token: opt_text(self.api_token),
        }
    }
}

/// The service that the settings describe.
pub open spec fn service_of(settings: SettingsView) -> ServiceView {
    ServiceView {
        cf_app_id: non_empty(settings.app_id),
        cf_api_token: non_empty(settings.api_token),
        turn_enabled: says_yes(settings.turn_enabled),
        ttl: number_or(settings.ttl, 86_400),
        refresh_skew: number_or(settings.refresh_skew, 300),
        fallback_stun_urls: url_list(
            match settings.stun_urls {
                Some(s) => s,
                None => default_stun_urls(),
            },
        ),
        cache: None,
    }
}

/// How asking Cloudflare went.
#[derive(Debug)]
pub enum Cloudflare<C, M> {
    /// It was not asked, since TURN is not enabled.
    NotAsked,
    /// It gave this configuration, now or a while ago.
    Config(C),
    /// It could not be asked, or did not answer well.
    Failed(M),
}

impl View for Cloudflare<RtcIceConfigResponse, String> {
    type V = Cloudflare<ConfigView, Seq<char>>;

    open spec fn view(&self) -> Cloudflare<ConfigView, Seq<char>> {
        match *self {
            Cloudflare::NotAsked => Cloudflare::NotAsked,
            Cloudflare::Config(c) => Cloudflare::Config(c@),
            Cloudflare::Failed(e) => Cloudflare::Failed(e@),
        }
    }
}

/// How to ask Cloudflare: `C` is a configuration, `M` a text.
#[derive(Debug)]
pub enum CloudflarePlan<C, M> {
    /// There is nothing to ask.
    Ready(Cloudflare<C, M>),
    /// Posts the time to live to `url`, with `api_token` as the bearer's token.
    Request { url: M, api_token: M, ttl: u64 },
}

impl View for CloudflarePlan<RtcIceConfigResponse, String> {
    type V = CloudflarePlan<ConfigView, Seq<char>>;

    open spec fn view(&self) -> CloudflarePlan<ConfigView, Seq<char>> {
        match *self {
            CloudflarePlan::Ready(c) => CloudflarePlan::Ready(c@),
            CloudflarePlan::Request { url, api_token, ttl } => CloudflarePlan::Request {
                url: url@,
                api_token: api_token@,
                ttl,
            },
        }
    }
}

/// What came back from Cloudflare: a configuration, or what went wrong and where.
#[derive(Debug)]
pub enum CloudflareReply<C, M> {
    Config(C),
    /// The request could not be sent.
    RequestFailed(M),
    /// The answer had a status that means an error.
    BadStatus(M),
    /// The answer could not be read.
    BadBody(M),
}

impl View for CloudflareReply<RtcIceConfigResponse, String> {
    type V = CloudflareReply<ConfigView, Seq<char>>;

    open spec fn view(&self) -> CloudflareReply<ConfigView, Seq<char>> {
        match *self {
            CloudflareReply::Config(c) => CloudflareReply::Config(c@),
            CloudflareReply::RequestFailed(e) => CloudflareReply::RequestFailed(e@),
            CloudflareReply::BadStatus(e) => CloudflareReply::BadStatus(e@),
            CloudflareReply::BadBody(e) => CloudflareReply::BadBody(e@),
        }
    }
}

/// Where the credentials of application `app_id` are made.
pub open spec fn credentials_url(app_id: Seq<char>) -> Seq<char> {
    "https://rtc.live.cloudflare.com/v1/turn/keys/"@ + app_id + "/credentials/generate-ice-servers"@
}

/// The latest moment that a clock reading may name: the longest duration.
pub const CLOCK_END_NS: u128 = 18_446_744_073_709_551_615_999_999_999;

impl ServiceView {
    /// How to ask Cloudflare at `now`, if it is to be asked.
    pub open spec fn request_plan(self, now: u128) -> CloudflarePlan<ConfigView, Seq<char>> {
        if self.cf_app_id is None {
            CloudflarePlan::Ready(Cloudflare::Failed("missing CF_TURN_APP_ID"@))
        } else if self.cf_api_token is None {
            CloudflarePlan::Ready(Cloudflare::Failed("missing CF_TURN_API_TOKEN"@))
        } else if self.cache matches Some(c) && now < c.expires_at {
            CloudflarePlan::Ready(Cloudflare::Config(self.cache->0.config))
        } else {
            CloudflarePlan::Request {
                url: credentials_url(self.cf_app_id->0),
                api_token: self.cf_api_token->0,
                ttl: self.ttl,
            }
        }
    }

    /// How to ask Cloudflare at `now`. It is not asked where TURN is not enabled.
    pub open spec fn cloudflare_plan(self, now: u128) -> CloudflarePlan<ConfigView, Seq<char>> {
        if self.turn_enabled {
            self.request_plan(now)
        } else {
            CloudflarePlan::Ready(Cloudflare::NotAsked)
        }
    }

    /// How many seconds an answer is kept: its time to live less the time to refresh it, but a minute
    /// at least.
    pub open spec fn valid_for(self) -> int {
        let left = if self.ttl > self.refresh_skew {
            self.ttl - self.refresh_skew
        } else {
            0
        };
        if left > 60 {
            left
        } else {
            60
        }
    }

    /// The service after Cloudflare's reply at `now`.
    pub open spec fn after_reply(self, reply: CloudflareReply<ConfigView, Seq<char>>, now: u128) -> Self {
        match reply {
            CloudflareReply::Config(config) => ServiceView {
                cache: Some(
                    CacheView { config, expires_at: (now + self.valid_for() * 1_000_000_000) as u128 },
                ),
                ..self
            },
            _ => self,
        }
    }

    /// The configuration with the STUN servers to fall back on.
    pub open spec fn fallback(self) -> ConfigView {
        ConfigView {
            ice_servers: if self.fallback_stun_urls.len() == 0 {
                Seq::empty()
            } else {
                seq![ServerView { urls: self.fallback_stun_urls, username: None, credential: None }]
            },
            ice_transport_policy: "all"@,
            source: Some("stun-fallback"@),
            turn_enabled: self.turn_enabled,
            cf_app_id_configured: self.cf_app_id is Some,
            cf_api_token_configured: self.cf_api_token is Some,
            error: None,
        }
    }

    /// The configuration for a browser, given how asking Cloudflare went.
    pub open spec fn answer(
        self,
        force_relay: bool,
        cloudflare: Cloudflare<ConfigView, Seq<char>>,
    ) -> ConfigView {
        let chosen = match cloudflare {
            Cloudflare::Config(c) => ConfigView { source: Some("cloudflare"@), error: None, ..c },
            Cloudflare::Failed(e) => ConfigView { error: Some(e), ..self.fallback() },
            Cloudflare::NotAsked => ConfigView {
                error: Some("RTC_TURN_ENABLED is not enabled"@),
                ..self.fallback()
            },
        };
        ConfigView {
            ice_transport_policy: if force_relay {
                "relay"@
            } else {
                "all"@
            },
            turn_enabled: self.turn_enabled,
            cf_app_id_configured: self.cf_app_id is Some,
            cf_api_token_configured: self.cf_api_token is Some,
            ..chosen
        }
    }
}

/// What becomes of Cloudflare's reply.
pub open spec fn reply_outcome(reply: CloudflareReply<ConfigView, Seq<char>>) -> Cloudflare<
    ConfigView,
    Seq<char>,
> {
    match reply {
        CloudflareReply::Config(c) => Cloudflare::Config(c),
        CloudflareReply::RequestFailed(e) => Cloudflare::Failed("request: "@ + e),
        CloudflareReply::BadStatus(e) => Cloudflare::Failed("status: "@ + e),
        CloudflareReply::BadBody(e) => Cloudflare::Failed("decode: "@ + e),
    }
}

fn failed(prefix: &str, e: &str) -> (r: Cloudflare<RtcIceConfigResponse, String>)
    ensures
        r@ == Cloudflare::<ConfigView, Seq<char>>::Failed(prefix@ + e@),
{
    let mut message = prefix.to_owned();
    message.append(e);
    Cloudflare::Failed(message)
}

impl RtcIceService {
    /// The service that the settings describe.
    pub fn from_env(settings: IceSettings) -> (r: Self)
        ensures
            r@ == service_of(settings@),
            match settings.app_id {
                Some(id) => if id@.len() > 0 {
                    r.cf_app_id matches Some(x) && x@ == id@
                } else {
                    r.cf_app_id is None
                },
                None => r.cf_app_id is None,
            },
            match settings.api_token {
                Some(token) => if token@.len() > 0 {
                    r.cf_api_token matches Some(x) && x@ == token@
                } else {
                    r.cf_api_token is None
                },
                None => r.cf_api_token is None,
            },
            settings.turn_enabled is None ==> !r.turn_enabled,
            r.cache is None,
    {
        let turn_enabled = match &settings.turn_enabled {
            Some(s) => parse_force_relay(Some(s.as_str())),
            None => false,
        };
        let ttl: u64 = read_number(&settings.ttl, 86_400);
        let refresh_skew: u64 = read_number(&settings.refresh_skew, 300);
        let fallback_stun_urls = match &settings.stun_urls {
            Some(s) => read_url_list(s.as_str()),
            None => read_url_list("stun:stun.cloudflare.com:3478,stun:stun.cloudflare.com:53"),
        };
        RtcIceService {
            cf_app_id: read_non_empty(settings.app_id),
            cf_api_token: read_non_empty(settings.api_token),
            turn_enabled,
            ttl,
            refresh_skew,
            fallback_stun_urls,
            cache: None,
        }
    }

    /// How to ask Cloudflare at `now`. It is not asked where TURN is not enabled.
    pub fn cloudflare_plan(&self, now: u128) -> (r: CloudflarePlan<RtcIceConfigResponse, String>)
        ensures
            r@ == self@.cloudflare_plan(now),
    {
        if self.turn_enabled {
            self.cloudflare_config(now)
        } else {
            CloudflarePlan::Ready(Cloudflare::NotAsked)
        }
    }

    /// How to ask Cloudflare at `now`, if it is to be asked.
    pub fn cloudflare_config(&self, now: u128) -> (r: CloudflarePlan<RtcIceConfigResponse, String>)
        ensures
            r@ == self@.request_plan(now),
    {
        let app_id = match &self.cf_app_id {
            Some(s) => s,
            None => {
                return CloudflarePlan::Ready(Cloudflare::Failed("missing CF_TURN_APP_ID".to_owned()));
            },
        };
        let api_token = match &self.cf_api_token {
            Some(s) => s,
            None => {
                return CloudflarePlan::Ready(
                    Cloudflare::Failed("missing CF_TURN_API_TOKEN".to_owned()),
                );
            },
        };
        if let Some(cache) = &self.cache {
            if now < cache.expires_at {
                return CloudflarePlan::Ready(Cloudflare::Config(cache.config.clone()));
            }
        }
        let mut url = "https://rtc.live.cloudflare.com/v1/turn/keys/".to_owned();
        url.append(app_id.as_str());
        url.append("/credentials/generate-ice-servers");
        CloudflarePlan::Request { url, api_token: api_token.clone(), ttl: self.ttl }
    }

    /// Takes Cloudflare's reply at `now`. A configuration is kept for a while.
    pub fn cloudflare_reply(
        &mut self,
        reply: CloudflareReply<RtcIceConfigResponse, String>,
        now: u128,
    ) -> (r: Cloudflare<RtcIceConfigResponse, String>)
        requires
            now <= CLOCK_END_NS,
        ensures
            r@ == reply_outcome(reply@),
            final(self)@ == old(self)@.after_reply(reply@, now),
    {
        match reply {
            CloudflareReply::Config(config) => {
                let left: u64 = self.ttl.saturating_sub(self.refresh_skew);
                let valid_for: u64 = if left > 60 {
                    left
                } else {
                    60
                };
                let expires_at: u128 = now + valid_for as u128 * 1_000_000_000;
                self.cache = Some(RtcIceCache { config: config.clone(), expires_at });
                Cloudflare::Config(config)
            },
            CloudflareReply::RequestFailed(e) => failed("request: ", e.as_str()),
            CloudflareReply::BadStatus(e) => failed("status: ", e.as_str()),
            CloudflareReply::BadBody(e) => failed("decode: ", e.as_str()),
        }
    }

    /// The configuration with the STUN servers to fall back on.
    pub fn stun_fallback_config(&self) -> (r: RtcIceConfigResponse)
        ensures
            r@ == self@.fallback(),
    {
        let mut ice_servers: Vec<RtcIceServerConfig> = Vec::new();
        if self.fallback_stun_urls.len() > 0 {
            ice_servers.push(
                RtcIceServerConfig {
                    urls: copy_strings(&self.fallback_stun_urls),
                    username: None,
                    credential: None,
                },
            );
        }
        let r = RtcIceConfigResponse {
            ice_servers,
            ice_transport_policy: "all".to_owned(),
            source: Some("stun-fallback".to_owned()),
            turn_enabled: self.turn_enabled,
            cf_app_id_configured: self.cf_app_id.is_some(),
            cf_api_token_configured: self.cf_api_token.is_some(),
            error: None,
        };
        assert(r@.ice_servers =~= self@.fallback().ice_servers);
        r
    }

    /// The configuration for a browser, given how asking Cloudflare went.
    pub fn config(
        &self,
        force_relay: bool,
        cloudflare: Cloudflare<RtcIceConfigResponse, String>,
    ) -> (r: RtcIceConfigResponse)
        requires
            cloudflare is NotAsked <==> !self.turn_enabled,
        ensures
            r@ == self@.answer(force_relay, cloudflare@),
            r.ice_transport_policy@ == (if force_relay {
                "relay"@
            } else {
                "all"@
            }),
            r.turn_enabled == self.turn_enabled,
            r.cf_app_id_configured <==> self.cf_app_id is Some,
            r.cf_api_token_configured <==> self.cf_api_token is Some,
            match cloudflare {
                Cloudflare::Config(c) => servers(r.ice_servers@) == servers(c.ice_servers@) && r.error is None,
                Cloudflare::Failed(e) => r.error matches Some(x) && x@ == e@,
                Cloudflare::NotAsked => r.error matches Some(x) && x@ == "RTC_TURN_ENABLED is not enabled"@,
            },
    {
        let mut config = match cloudflare {
            Cloudflare::Config(config) => {
                let mut config = config;
                config.source = Some("cloudflare".to_owned());
                config.error = None;
                config
            },
            Cloudflare::Failed(e) => {
                let mut config = self.stun_fallback_config();
                config.error = Some(e);
                config
            },
            Cloudflare::NotAsked => {
                let mut config = self.stun_fallback_config();
                config.error = Some("RTC_TURN_ENABLED is not enabled".to_owned());
                config
            },
        };
        config.ice_transport_policy = if force_relay {
            "relay".to_owned()
        } else {
            "all".to_owned()
        };
        config.turn_enabled = self.turn_enabled;
        config.cf_app_id_configured = self.cf_app_id.is_some();
        config.cf_api_token_configured = self.cf_api_token.is_some();
        config
    }
}

/// Answers a request for the servers, with the request's parameter `forceRelay`.
pub fn rtc_config_handler(
    service: &RtcIceService,
    force_relay: Option<&str>,
    cloudflare: Cloudflare<RtcIceConfigResponse, String>,
) -> (r: RtcIceConfigResponse)
    requires
        cloudflare is NotAsked <==> !service.turn_enabled,
    ensures
        r@ == service@.answer(says_yes(opt_str(force_relay)), cloudflare@),
{
    service.config(parse_force_relay(force_relay), cloudflare)
}

// ----- Peer connections -----

/// A server as a peer connection takes it: a missing name or credential is empty.
#[derive(Debug)]
pub struct PeerIceServer {
    pub urls: Vec<String>,
    pub username: String,
    pub credential: String,
}

/// What a peer connection is configured with.
#[derive(Debug)]
pub struct PeerConfig {
    pub ice_servers: Vec<PeerIceServer>,
    /// Whether only relayed connections are allowed.
    pub relay_only: bool,
}

/// What a peer connection's server holds.
pub struct PeerServerView {
    pub urls: Seq<Seq<char>>,
    pub username: Seq<char>,
    pub credential: Seq<char>,
}

impl View for PeerIceServer {
    type V = PeerServerView;

    open spec fn view(&self) -> PeerServerView {
        PeerServerView { urls: strings(self.urls@), username: self.username@, credential: self.credential@ }
    }
}

/// The text of an optional text, empty if there is none.
pub open spec fn or_empty(s: Option<Seq<char>>) -> Seq<char> {
    match s {
        Some(s) => s,
        None => Seq::empty(),
    }
}

/// A server's entry as a peer connection takes it.
pub open spec fn peer_server(s: ServerView) -> PeerServerView {
    PeerServerView {
        urls: s.urls,
        username: or_empty(s.username),
        credential: or_empty(s.credential),
    }
}

/// The entries of a sequence of a peer connection's servers.
pub open spec fn peer_servers(v: Seq<PeerIceServer>) -> Seq<PeerServerView> {
    v.map_values(|s: PeerIceServer| s@)
}

fn text_or_empty(s: &Option<String>) -> (r: String)
    ensures
        r@ == or_empty(opt_text(*s)),
{
    match s {
        Some(s) => s.clone(),
        None => String::new(),
    }
}

/// What a peer connection is configured with to follow `config`.
pub fn to_webrtc_config(config: &RtcIceConfigResponse) -> (r: PeerConfig)
    ensures
        peer_servers(r.ice_servers@) == config@.ice_servers.map_values(|s: ServerView| peer_server(s)),
        r.relay_only == (config@.ice_transport_policy == "relay"@),
        r.relay_only <==> config.ice_transport_policy@ == "relay"@,
        r.ice_servers@.len() == config.ice_servers@.len(),
        forall|i: int|
            0 <= i < config.ice_servers@.len() ==> {
                let peer = #[trigger] r.ice_servers@[i];
                let server = config.ice_servers@[i];
                &&& strings(peer.urls@) == strings(server.urls@)
                &&& server.username matches Some(name) ==> peer.username@ == name@
                &&& server.username is None ==> peer.username@.len() == 0
                &&& server.credential matches Some(secret) ==> peer.credential@ == secret@
                &&& server.credential is None ==> peer.credential@.len() == 0
            },
{
    let ghost all = config@.ice_servers.map_values(|s: ServerView| peer_server(s));
    let mut ice_servers: Vec<PeerIceServer> = Vec::new();
    let mut i: usize = 0;
    while i < config.ice_servers.len()
        invariant
            i <= config.ice_servers@.len(),
            all == config@.ice_servers.map_values(|s: ServerView| peer_server(s)),
            peer_servers(ice_servers@) == all.take(i as int),
        decreases config.ice_servers@.len() - i,
    {
        let s = &config.ice_servers[i];
        let server = PeerIceServer {
            urls: copy_strings(&s.urls),
            username: text_or_empty(&s.username),
            credential: text_or_empty(&s.credential),
        };
        assert(server@ == peer_server(config@.ice_servers[i as int]));
        let ghost before = ice_servers@;
        ice_servers.push(server);
        assert(peer_servers(ice_servers@) =~= peer_servers(before).push(server@));
        i = i + 1;
        assert(peer_servers(ice_servers@) =~= all.take(i as int));
    }
    assert(peer_servers(ice_servers@) =~= all);
    assert forall|i: int| 0 <= i < config.ice_servers@.len() implies (#[trigger] ice_servers@[i])@ == peer_server(
        config.ice_servers@[i]@,
    ) by {
        assert(peer_servers(ice_servers@)[i] == all[i]);
    }
    PeerConfig { ice_servers, relay_only: text_eq(config.ice_transport_policy.as_str(), "relay") }
}

// ----- Laws -----

/// An answer of Cloudflare is used again until it expires, which takes a minute at least, and then
/// Cloudflare is asked again.
pub proof fn law_answer_is_kept_until_it_expires(
    service: ServiceView,
    config: ConfigView,
    now: u128,
    later: u128,
)
    requires
        now <= CLOCK_END_NS,
        service.turn_enabled,
        service.cf_app_id is Some,
        service.cf_api_token is Some,
    ensures
        service.valid_for() >= 60,
        ({
            let kept = service.after_reply(CloudflareReply::Config(config), now);
            if later < now + service.valid_for() * 1_000_000_000 {
                kept.cloudflare_plan(later) == CloudflarePlan::<ConfigView, Seq<char>>::Ready(
                    Cloudflare::Config(config),
                )
            } else {
                kept.cloudflare_plan(later) is Request
            }
        }),
{
}

/// A reply that is no configuration changes nothing: what was kept stays.
pub proof fn law_failure_keeps_the_last_answer(
    service: ServiceView,
    reply: CloudflareReply<ConfigView, Seq<char>>,
    now: u128,
)
    requires
        !(reply is Config),
    ensures
        service.after_reply(reply, now) == service,
        reply_outcome(reply) is Failed,
{
}

/// Cloudflare is left out exactly if TURN is not enabled. So what asking it comes to, at once or by
/// its reply, is always what the service's configuration needs to know.
pub proof fn law_cloudflare_is_asked_exactly_if_turn_is_enabled(
    service: ServiceView,
    now: u128,
    reply: CloudflareReply<ConfigView, Seq<char>>,
)
    ensures
        service.cloudflare_plan(now) == CloudflarePlan::<ConfigView, Seq<char>>::Ready(
            Cloudflare::NotAsked,
        ) <==> !service.turn_enabled,
        service.cloudflare_plan(now) is Request ==> service.turn_enabled,
        !(reply_outcome(reply) is NotAsked),
{
}

/// A browser always gets a configuration: with Cloudflare's servers and no error if Cloudflare gave
/// one, otherwise with the servers to fall back on and the reason.
pub proof fn law_configuration_names_its_source(
    service: ServiceView,
    force_relay: bool,
    cloudflare: Cloudflare<ConfigView, Seq<char>>,
)
    ensures
        ({
            let answer = service.answer(force_relay, cloudflare);
            &&& answer.ice_transport_policy == (if force_relay {
                "relay"@
            } else {
                "all"@
            })
            &&& match cloudflare {
                Cloudflare::Config(c) => answer.source == Some("cloudflare"@) && answer.error is None
                    && answer.ice_servers == c.ice_servers,
                _ => answer.source == Some("stun-fallback"@) && answer.error is Some
                    && answer.ice_servers == service.fallback().ice_servers,
            }
        }),
{
}

proof fn lemma_trim_start(s: Seq<char>)
    ensures
        trim_start(s).len() > 0 ==> !is_white_space(trim_start(s)[0]),
    decreases s.len(),
{
    if s.len() > 0 && is_white_space(s[0]) {
        lemma_trim_start(s.drop_first());
    }
}

proof fn lemma_trim_end(s: Seq<char>)
    ensures
        trim_end(s).len() <= s.len(),
        trim_end(s) == s.take(trim_end(s).len() as int),
        trim_end(s).len() > 0 ==> !is_white_space(trim_end(s).last()),
    decreases s.len(),
{
    if s.len() > 0 && is_white_space(s.last()) {
        lemma_trim_end(s.drop_last());
        assert(s.drop_last().take(trim_end(s).len() as int) =~= s.take(trim_end(s).len() as int));
    } else {
        assert(s.take(s.len() as int) =~= s);
    }
}

/// No server to fall back on is blank, or has white space at either end of its address.
pub proof fn law_fallback_servers_are_clean(settings: SettingsView, i: int)
    requires
        0 <= i < service_of(settings).fallback_stun_urls.len(),
    ensures
        ({
            let url = service_of(settings).fallback_stun_urls[i];
            url.len() > 0 && !is_white_space(url[0]) && !is_white_space(url.last())
        }),
{
    let text = match settings.stun_urls {
        Some(s) => s,
        None => default_stun_urls(),
    };
    lemma_non_blank(split(text, ','), i);
}

proof fn lemma_non_blank(pieces: Seq<Seq<char>>, i: int)
    requires
        0 <= i < non_blank(pieces).len(),
    ensures
        non_blank(pieces)[i].len() > 0,
        !is_white_space(non_blank(pieces)[i][0]),
        !is_white_space(non_blank(pieces)[i].last()),
    decreases pieces.len(),
{
    let before = non_blank(pieces.drop_last());
    let start = trim_start(pieces.last());
    lemma_trim_start(pieces.last());
    lemma_trim_end(start);
    if i < before.len() {
        lemma_non_blank(pieces.drop_last(), i);
    }
}

/// What a peer connection is told of a server is what the configuration says of it: the same addresses,
/// the same name and the same credential, each empty only where the configuration has none.
pub proof fn law_peer_server_has_what_the_configuration_says(s: ServerView)
    ensures
        peer_server(s).urls == s.urls,
        s.username matches Some(name) ==> peer_server(s).username == name,
        s.username is None ==> peer_server(s).username.len() == 0,
        s.credential matches Some(secret) ==> peer_server(s).credential == secret,
        s.credential is None ==> peer_server(s).credential.len() == 0,
{
}

/// Servers that differ in their addresses, names or credentials differ for the peer connection too.
pub proof fn law_different_servers_stay_different(a: ServerView, b: ServerView)
    requires
        a.username is Some,
        b.username is Some,
        a.credential is Some,
        b.credential is Some,
    ensures
        peer_server(a) == peer_server(b) <==> a == b,
{
}

/// What an entry shows are its own fields, and all of them.
pub proof fn law_views_show_every_field(server: RtcIceServerConfig, config: RtcIceConfigResponse, peer: PeerIceServer)
    ensures
        server@.urls == strings(server.urls@),
        server@.username == opt_text(server.username),
        server@.credential == opt_text(server.credential),
        config@.ice_servers.len() == config.ice_servers@.len(),
        forall|i: int| 0 <= i < config.ice_servers@.len() ==> #[trigger] config@.ice_servers[i] == config.ice_servers@[i]@,
        config@.ice_transport_policy == config.ice_transport_policy@,
        config@.source == opt_text(config.source),
        config@.turn_enabled == config.turn_enabled,
        config@.cf_app_id_configured == config.cf_app_id_configured,
        config@.cf_api_token_configured == config.cf_api_token_configured,
        config@.error == opt_text(config.error),
        peer@.urls == strings(peer.urls@),
        peer@.username == peer.username@,
        peer@.credential == peer.credential@,
{
}

/// Five words say yes, and nothing else does.
pub proof fn law_five_words_say_yes(v: Option<Seq<char>>)
    ensures
        says_yes(v) <==> v is Some && seq!["1"@, "true"@, "TRUE"@, "yes"@, "YES"@].contains(v->0),
{
    let words = seq!["1"@, "true"@, "TRUE"@, "yes"@, "YES"@];
    assert(words[0] == "1"@ && words[1] == "true"@ && words[2] == "TRUE"@ && words[3] == "yes"@ && words[4] == "YES"@);
}

/// A service has the settings that are there: its application and its token unless they are empty, and the
/// numbers that are written, without which it has its own.
pub proof fn law_service_has_the_settings(settings: SettingsView)
    ensures
        ({
            let service = service_of(settings);
            &&& (settings.app_id is Some && settings.app_id->0.len() > 0) ==> service.cf_app_id == settings.app_id
            &&& settings.app_id is None || settings.app_id->0.len() == 0 ==> service.cf_app_id is None
            &&& (settings.api_token is Some && settings.api_token->0.len() > 0) ==> service.cf_api_token
                == settings.api_token
            &&& settings.api_token is None || settings.api_token->0.len() == 0 ==> service.cf_api_token is None
            &&& service.turn_enabled <==> settings.turn_enabled is Some && seq![
                "1"@,
                "true"@,
                "TRUE"@,
                "yes"@,
                "YES"@,
            ].contains(settings.turn_enabled->0)
            &&& settings.ttl is Some && u64_of(settings.ttl->0) is Some ==> service.ttl == u64_of(
                settings.ttl->0,
            )->0
            &&& settings.ttl is None || u64_of(settings.ttl->0) is None ==> service.ttl == 24 * 60 * 60
            &&& settings.refresh_skew is Some && u64_of(settings.refresh_skew->0) is Some ==> service.refresh_skew
                == u64_of(settings.refresh_skew->0)->0
            &&& settings.refresh_skew is None || u64_of(settings.refresh_skew->0) is None
                ==> service.refresh_skew == 5 * 60
            &&& service.cache is None
        }),
{
    law_five_words_say_yes(settings.turn_enabled);
}

proof fn lemma_non_blank_is_a_filter(pieces: Seq<Seq<char>>)
    ensures
        non_blank(pieces) == pieces.map_values(|p: Seq<char>| trim(p)).filter(|p: Seq<char>| p.len() > 0),
    decreases pieces.len(),
{
    reveal(Seq::filter);
    let all = pieces.map_values(|p: Seq<char>| trim(p));
    if pieces.len() > 0 {
        lemma_non_blank_is_a_filter(pieces.drop_last());
        assert(all.drop_last() =~= pieces.drop_last().map_values(|p: Seq<char>| trim(p)));
        assert(all.last() == trim(pieces.last()));
    }
}

/// The addresses in a list are what stands between the commas, trimmed, but for what is blank, in order.
pub proof fn law_url_list_holds_what_stands_between_commas(s: Seq<char>)
    ensures
        url_list(s) == split(s, ',').map_values(|p: Seq<char>| trim(p)).filter(|p: Seq<char>| p.len() > 0),
{
    lemma_non_blank_is_a_filter(split(s, ','));
}

/// Addresses that are written with commas between them, and with any white space round each, are read back.
pub proof fn law_url_list_is_read_back(urls: Seq<Seq<char>>, padded: Seq<Seq<char>>)
    requires
        urls.len() > 0,
        padded.len() == urls.len(),
        forall|k: int| 0 <= k < urls.len() ==> is_clean(#[trigger] urls[k]),
        forall|k: int| 0 <= k < padded.len() ==> is_padded(#[trigger] padded[k], urls[k]),
    ensures
        url_list(join(padded, ',')) == urls,
{
    assert forall|k: int| 0 <= k < padded.len() implies !(#[trigger] padded[k]).contains(',') && trim(padded[k])
        == urls[k] by {
        lemma_padded(padded[k], urls[k]);
    }
    law_split_undoes_join(padded, ',');
    lemma_all_kept(padded, urls);
}

/// Whether a text is an address as it stands in a list: not empty, without commas and without white space
/// at its ends.
pub open spec fn is_clean(url: Seq<char>) -> bool {
    url.len() > 0 && !url.contains(',') && !is_white_space(url[0]) && !is_white_space(url.last())
}

/// Whether a text is another with white space before and behind it.
pub open spec fn is_padded(text: Seq<char>, url: Seq<char>) -> bool {
    exists|a: Seq<char>, b: Seq<char>|
        {
            &&& text == #[trigger] (a + url + b)
            &&& forall|k: int| 0 <= k < a.len() ==> is_white_space(#[trigger] a[k])
            &&& forall|k: int| 0 <= k < b.len() ==> is_white_space(#[trigger] b[k])
        }
}

proof fn lemma_padded(text: Seq<char>, url: Seq<char>)
    requires
        is_clean(url),
        is_padded(text, url),
    ensures
        trim(text) == url,
        !text.contains(','),
{
    let (a, b) = choose|a: Seq<char>, b: Seq<char>|
        {
            &&& text == #[trigger] (a + url + b)
            &&& forall|k: int| 0 <= k < a.len() ==> is_white_space(#[trigger] a[k])
            &&& forall|k: int| 0 <= k < b.len() ==> is_white_space(#[trigger] b[k])
        };
    law_trim_undoes_padding(a, url, b);
    assert(!is_white_space(','));
    assert forall|k: int| 0 <= k < text.len() implies text[k] != ',' by {
        if k < a.len() {
            assert(text[k] == a[k]);
        } else if k < a.len() + url.len() {
            assert(text[k] == url[k - a.len()]);
            assert(url.contains(url[k - a.len()]));
        } else {
            assert(text[k] == b[k - a.len() - url.len()]);
        }
    }
}

proof fn lemma_all_kept(padded: Seq<Seq<char>>, urls: Seq<Seq<char>>)
    requires
        padded.len() == urls.len(),
        forall|k: int| 0 <= k < padded.len() ==> trim(#[trigger] padded[k]) == urls[k] && urls[k].len() > 0,
    ensures
        non_blank(padded) == urls,
    decreases padded.len(),
{
    if padded.len() > 0 {
        let a = padded.drop_last();
        let b = urls.drop_last();
        assert forall|k: int| 0 <= k < a.len() implies trim(#[trigger] a[k]) == b[k] && b[k].len() > 0 by {
            assert(a[k] == padded[k] && b[k] == urls[k]);
        }
        lemma_all_kept(a, b);
        assert(trim(padded[padded.len() - 1]) == urls[padded.len() - 1]);
        assert(b.push(urls.last()) =~= urls);
    } else {
        assert(urls =~= Seq::empty());
    }
}

/// The servers to fall back on are those of the settings, or the two of Cloudflare where the settings name
/// none.
pub proof fn law_fallback_servers_are_those_of_the_settings(settings: SettingsView)
    ensures
        settings.stun_urls matches Some(s) ==> service_of(settings).fallback_stun_urls == split(s, ',').map_values(
            |p: Seq<char>| trim(p),
        ).filter(|p: Seq<char>| p.len() > 0),
        settings.stun_urls is None ==> service_of(settings).fallback_stun_urls == seq![
            "stun:stun.cloudflare.com:3478"@,
            "stun:stun.cloudflare.com:53"@,
        ],
{
    match settings.stun_urls {
        Some(s) => {
            law_url_list_holds_what_stands_between_commas(s);
        },
        None => {
            reveal_strlit("stun:stun.cloudflare.com:3478,stun:stun.cloudflare.com:53");
            reveal_strlit("stun:stun.cloudflare.com:3478");
            reveal_strlit("stun:stun.cloudflare.com:53");
            let a = "stun:stun.cloudflare.com:3478"@;
            let b = "stun:stun.cloudflare.com:53"@;
            let urls = seq![a, b];
            assert(urls.drop_last() =~= seq![a]);
            assert(join(seq![a], ',') == a);
            assert(join(urls, ',') =~= default_stun_urls());
            let none = Seq::<char>::empty();
            assert forall|k: int| 0 <= k < urls.len() implies is_clean(#[trigger] urls[k]) && is_padded(
                urls[k],
                urls[k],
            ) by {
                assert(none + urls[k] + none =~= urls[k]);
            }
            law_url_list_is_read_back(urls, urls);
        },
    }
}

/// Cloudflare is asked for the credentials of the service's own application, with its own token and its own
/// time to live: services that differ in one of them ask differently.
pub proof fn law_cloudflare_is_asked_for_the_services_own(service: ServiceView, now: u128)
    requires
        service.turn_enabled,
        service.cf_app_id is Some,
        service.cf_api_token is Some,
        service.cache matches Some(c) ==> c.expires_at <= now,
    ensures
        ({
            let before = "https://rtc.live.cloudflare.com/v1/turn/keys/"@;
            let behind = "/credentials/generate-ice-servers"@;
            &&& service.cloudflare_plan(now) matches CloudflarePlan::Request { url, api_token, ttl }
            &&& url == before + service.cf_app_id->0 + behind
            &&& url.subrange(before.len() as int, url.len() - behind.len()) == service.cf_app_id->0
            &&& api_token == service.cf_api_token->0
            &&& ttl == service.ttl
        }),
{
    let before = "https://rtc.live.cloudflare.com/v1/turn/keys/"@;
    let behind = "/credentials/generate-ice-servers"@;
    let id = service.cf_app_id->0;
    let url = before + id + behind;
    assert(url.subrange(before.len() as int, url.len() - behind.len()) =~= id);
}

/// Without an application or a token Cloudflare cannot be asked, and the reason names what is missing.
pub proof fn law_what_is_missing_is_named(service: ServiceView, now: u128)
    requires
        service.turn_enabled,
    ensures
        service.cf_app_id is None ==> service.cloudflare_plan(now) == CloudflarePlan::<ConfigView, Seq<char>>::Ready(
            Cloudflare::Failed("missing CF_TURN_APP_ID"@),
        ),
        service.cf_app_id is Some && service.cf_api_token is None ==> service.cloudflare_plan(now)
            == CloudflarePlan::<ConfigView, Seq<char>>::Ready(Cloudflare::Failed("missing CF_TURN_API_TOKEN"@)),
{
}

/// An answer is kept for the time to live less the time to refresh it, and for a minute at least.
pub proof fn law_answer_is_kept_for_its_time(
    service: ServiceView,
    config: ConfigView,
    now: u128,
)
    requires
        now <= 18_446_744_073_709_551_615_999_999_999,
    ensures
        ({
            let kept = service.after_reply(CloudflareReply::Config(config), now);
            let seconds = service.ttl - service.refresh_skew;
            &&& kept.cache matches Some(c)
            &&& c.config == config
            &&& c.expires_at == now + (if seconds > 60 {
                seconds
            } else {
                60
            }) * 1_000_000_000
            &&& kept.cf_app_id == service.cf_app_id && kept.cf_api_token == service.cf_api_token
            &&& kept.turn_enabled == service.turn_enabled && kept.ttl == service.ttl
            &&& kept.refresh_skew == service.refresh_skew
            &&& kept.fallback_stun_urls == service.fallback_stun_urls
        }),
{
}

/// What went wrong in asking Cloudflare is told whole, with the step at which it did; a configuration is
/// passed on as it is.
pub proof fn law_reply_is_told_whole(c: ConfigView, e: Seq<char>)
    ensures
        reply_outcome(CloudflareReply::Config(c)) == Cloudflare::<ConfigView, Seq<char>>::Config(c),
        reply_outcome(CloudflareReply::RequestFailed(e)) == Cloudflare::<ConfigView, Seq<char>>::Failed(
            "request: "@ + e,
        ),
        reply_outcome(CloudflareReply::BadStatus(e)) == Cloudflare::<ConfigView, Seq<char>>::Failed(
            "status: "@ + e,
        ),
        reply_outcome(CloudflareReply::BadBody(e)) == Cloudflare::<ConfigView, Seq<char>>::Failed("decode: "@ + e),
{
}

/// A browser is told everything: Cloudflare's servers with their names and credentials, or one server
/// without them that has all the addresses to fall back on, if there are any; the reason, if there is one;
/// and what the service has been given.
pub proof fn law_browser_is_told_everything(
    service: ServiceView,
    force_relay: bool,
    cloudflare: Cloudflare<ConfigView, Seq<char>>,
)
    ensures
        ({
            let answer = service.answer(force_relay, cloudflare);
            &&& answer.turn_enabled == service.turn_enabled
            &&& answer.cf_app_id_configured <==> service.cf_app_id is Some
            &&& answer.cf_api_token_configured <==> service.cf_api_token is Some
            &&& answer.ice_transport_policy == "relay"@ <==> force_relay
            &&& answer.ice_transport_policy == "all"@ <==> !force_relay
            &&& match cloudflare {
                Cloudflare::Config(c) => answer.ice_servers == c.ice_servers && answer.error is None && answer.source
                    == Some("cloudflare"@),
                _ => {
                    &&& answer.source == Some("stun-fallback"@)
                    &&& answer.error == Some(
                        match cloudflare {
                            Cloudflare::Failed(e) => e,
                            _ => "RTC_TURN_ENABLED is not enabled"@,
                        },
                    )
                    &&& answer.ice_servers.len() == (if service.fallback_stun_urls.len() == 0 {
                        0int
                    } else {
                        1
                    })
                    &&& answer.ice_servers.len() > 0 ==> answer.ice_servers[0].urls == service.fallback_stun_urls
                        && answer.ice_servers[0].username is None && answer.ice_servers[0].credential is None
                },
            }
        }),
{
    reveal_strlit("relay");
    reveal_strlit("all");
    assert("relay"@.len() != "all"@.len());
}

/// The configuration to fall back on is what a browser that asks for no relay is told where Cloudflare is not
/// asked, or where asking fails, but for the error.
pub proof fn law_fallback_is_told_without_cloudflare(service: ServiceView, e: Seq<char>)
    ensures
        service.fallback() == (ConfigView { error: None, ..service.answer(false, Cloudflare::NotAsked) }),
        service.fallback() == (ConfigView { error: None, ..service.answer(false, Cloudflare::Failed(e)) }),
        service.fallback().ice_transport_policy == "all"@,
        service.fallback().source == Some("stun-fallback"@),
{
}

} // verus!
