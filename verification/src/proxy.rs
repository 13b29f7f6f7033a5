//! Requests that the bridge does not answer itself go to the web site.

use vstd::prelude::*;

use crate::handlers::{ErrorReply, ReplyView};
use crate::text::{ascii_lower, opt_text};

verus! {

/// The address of the web site.
pub const PROXY_HOST: &'static str = "https://tangoapp.dev";

// ----- Addresses -----

/// The address that `reference` denotes for a reader who is at `base`, and its host if it has one;
/// `None` if one of the two is no address.
pub uninterp spec fn resolved_url(base: Seq<char>, reference: Seq<char>) -> Option<
    (Seq<char>, Option<Seq<char>>),
>;

/// What an address and its host hold.
pub open spec fn url_view(r: Option<(String, Option<String>)>) -> Option<(Seq<char>, Option<Seq<char>>)> {
    match r {
        Some((url, host)) => Some((url@, opt_text(host))),
        None => None,
    }
}

/// Whether a request's target is a path: a slash, not followed by a second slash or a backslash, and
/// visible ASCII characters only.
pub open spec fn is_path(s: Seq<char>) -> bool {
    &&& 1 <= s.len() <= 65536
    &&& s[0] == '/'
    &&& s.len() > 1 ==> s[1] != '/' && s[1] != '\\'
    &&& forall|k: int| 0 <= k < s.len() ==> '!' <= #[trigger] s[k] <= '~'
}

/// Whether the text of an address begins as that of an HTTPS address does.
pub open spec fn is_secure(s: Seq<char>) -> bool {
    "https://"@.is_prefix_of(s) && s.len() <= 65536
}

/// Whether `url` is an address on the same host as the address `home`, if that is one.
pub open spec fn keeps_host(
    home: Option<(Seq<char>, Option<Seq<char>>)>,
    url: Option<(Seq<char>, Option<Seq<char>>)>,
) -> bool {
    home is Some ==> url is Some && (url->0).1 == (home->0).1
}

/// `reqwest::Url::parse` on `base`, then `parse` on `reference` with the options that have it as
/// their base. The result is the address as text, and its host as text, which are named
/// `resolved_url`; it depends on the two arguments alone. A path is an address on the same host as
/// the path `/`, where `base` is an HTTPS address.
#[verifier::external_body]
fn resolve_url(base: &str, reference: &str) -> (r: Option<(String, Option<String>)>)
    ensures
        url_view(r) == resolved_url(base@, reference@),
        is_secure(base@) && is_path(reference@) ==> keeps_host(resolved_url(base@, "/"@), url_view(r)),
{
    let base = reqwest::Url::parse(base).ok()?;
    let url = reqwest::Url::options().base_url(Some(&base)).parse(reference).ok()?;
    let host = url.host_str().map(str::to_string);
    Some((String::from(url), host))
}

/// Where a request goes, and the host to ask for.
#[derive(Debug)]
pub struct ProxyTarget {
    pub url: String,
    pub host: Option<String>,
}

/// The steps in which a request can fail on its way to the web site.
#[derive(Clone, Copy, Debug, PartialEq, Eq, Structural)]
pub enum ProxyStage {
    /// The request's target is no address.
    Address,
    /// No request can be made of it.
    Build,
    /// The web site does not answer.
    Upstream,
}

/// The refusal of a request that fails at `stage`.
pub open spec fn proxy_refusal(stage: ProxyStage) -> ReplyView {
    match stage {
        ProxyStage::Address => ReplyView { status: 400, message: "Bad Request"@ },
        ProxyStage::Build => ReplyView { status: 400, message: "Bad Request"@ },
        ProxyStage::Upstream => ReplyView { status: 502, message: "Bad Gateway"@ },
    }
}

/// Refuses a request that fails at `stage`.
pub fn proxy_failure(stage: ProxyStage) -> (r: ErrorReply)
    ensures
        r@ == proxy_refusal(stage),
        stage == ProxyStage::Upstream ==> r.status == 502 && r.message@ == "Bad Gateway"@,
        stage != ProxyStage::Upstream ==> r.status == 400 && r.message@ == "Bad Request"@,
{
    match stage {
        ProxyStage::Address => ErrorReply { status: 400, message: "Bad Request".to_owned() },
        ProxyStage::Build => ErrorReply { status: 400, message: "Bad Request".to_owned() },
        ProxyStage::Upstream => ErrorReply { status: 502, message: "Bad Gateway".to_owned() },
    }
}

/// Where a request goes whose target is the address `url`, or is no address.
pub open spec fn proxy_answer(
    url: Option<(Seq<char>, Option<Seq<char>>)>,
    r: Result<ProxyTarget, ErrorReply>,
) -> bool {
    match url {
        Some((text, host)) => r matches Ok(target) && target.url@ == text && opt_text(target.host) == host,
        None => r matches Err(e) && e@ == proxy_refusal(ProxyStage::Address),
    }
}

/// Where a request goes whose target is the address `url`, or is no address.
pub fn proxy_target(url: Option<(String, Option<String>)>) -> (r: Result<ProxyTarget, ErrorReply>)
    ensures
        proxy_answer(url_view(url), r),
        match url {
            Some((text, host)) => r matches Ok(target) && target.url@ == text@ && opt_text(target.host) == opt_text(host),
            None => r matches Err(e) && e.status == 400 && e.message@ == "Bad Request"@,
        },
{
    match url {
        Some((url, host)) => Ok(ProxyTarget { url, host }),
        None => Err(proxy_failure(ProxyStage::Address)),
    }
}

/// The address and the host of a target.
pub open spec fn target_view(r: Result<ProxyTarget, ErrorReply>) -> Option<(Seq<char>, Option<Seq<char>>)> {
    match r {
        Ok(target) => Some((target.url@, opt_text(target.host))),
        Err(_) => None,
    }
}

/// Where a request with the target `uri` goes: the target is read as a reader at the web site reads
/// it. A request for a path stays on the web site's host, whatever the path.
pub fn proxy_request(uri: &str) -> (r: Result<ProxyTarget, ErrorReply>)
    ensures
        proxy_answer(resolved_url(PROXY_HOST@, uri@), r),
        is_path(uri@) ==> keeps_host(resolved_url(PROXY_HOST@, "/"@), target_view(r)),
{
    proof {
        reveal_strlit("https://");
        reveal_strlit("https://tangoapp.dev");
        assert("https://"@ =~= PROXY_HOST@.subrange(0, 8));
    }
    proxy_target(resolve_url(PROXY_HOST, uri))
}

// ----- Header fields -----

/// The value of a header field.
#[verifier::external_type_specification]
#[verifier::external_body]
pub struct ExHeaderValue(http::HeaderValue);

/// The header fields of a request.
#[verifier::external_type_specification]
#[verifier::external_body]
#[verifier::reject_recursive_types(T)]
pub struct ExHeaderMap<T>(http::HeaderMap<T>);

/// What header fields hold: for each name, in small letters, its values in order.
pub uninterp spec fn header_fields(headers: http::HeaderMap<http::HeaderValue>) -> Map<
    Seq<char>,
    Seq<Seq<u8>>,
>;

/// Whether bytes can be the value of a header field: they are tabs, or neither control characters
/// nor 127.
pub open spec fn is_field_value(bytes: Seq<u8>) -> bool {
    forall|k: int| 0 <= k < bytes.len() ==> ((#[trigger] bytes[k]) >= 32 && bytes[k] != 127 || bytes[k] == 9)
}

/// The number of field names up to which there is room for one more, however they are spread.
pub open spec fn room_for_names() -> nat {
    6553
}

/// Whether a text can be the name of a header field that is written with letters and hyphens.
pub open spec fn is_field_name(name: Seq<char>) -> bool {
    &&& 1 <= name.len() <= 64
    &&& forall|k: int| 0 <= k < name.len() ==> ('a' <= ascii_lower(#[trigger] name[k]) <= 'z' || name[k] == '-')
}

/// A name in small letters.
pub open spec fn small_name(name: Seq<char>) -> Seq<char> {
    name.map_values(|c: char| ascii_lower(c))
}

/// `http::HeaderMap::try_insert` with the name `name` and with the value that
/// `http::HeaderValue::from_str` makes of `value`. The field then has this value only, and the other
/// fields are as before. If `value` cannot be one, or the fields are too many, nothing changes and the
/// result is `false`.
#[verifier::external_body]
fn insert_field(headers: &mut http::HeaderMap<http::HeaderValue>, name: &'static str, value: &str) -> (r: bool)
    requires
        is_field_name(name@),
    ensures
        r ==> header_fields(*final(headers)) == header_fields(*old(headers)).insert(
            small_name(name@),
            seq![vstd::utf8::encode_utf8(value@)],
        ),
        !r ==> header_fields(*final(headers)) == header_fields(*old(headers)),
        r ==> is_field_value(vstd::utf8::encode_utf8(value@)),
        is_field_value(vstd::utf8::encode_utf8(value@)) && header_fields(*old(headers)).dom().len()
            <= room_for_names() ==> r,
{
    match http::HeaderValue::from_str(value) {
        Ok(value) => headers.try_insert(name, value).is_ok(),
        Err(_) => false,
    }
}

/// Makes a client's header fields those of the request to the web site: the host is the target's,
/// the other fields stay. Where the target has no host, or none that a header field can hold, or
/// where there are too many fields, nothing changes and the result is `false`.
pub fn proxy_headers(headers: &mut http::HeaderMap<http::HeaderValue>, target: &ProxyTarget) -> (r: bool)
    ensures
        r ==> target.host is Some && is_field_value(vstd::utf8::encode_utf8(target.host->0@)),
        r ==> header_fields(*final(headers)) == header_fields(*old(headers)).insert(
            "host"@,
            seq![vstd::utf8::encode_utf8(target.host->0@)],
        ),
        !r ==> header_fields(*final(headers)) == header_fields(*old(headers)),
        target.host is Some && is_field_value(vstd::utf8::encode_utf8(target.host->0@)) && header_fields(
            *old(headers),
        ).dom().len() <= room_for_names() ==> r,
{
    proof {
        reveal_strlit("Host");
        reveal_strlit("host");
        assert(small_name("Host"@) =~= "host"@);
    }
    match &target.host {
        Some(host) => insert_field(headers, "Host", host.as_str()),
        None => false,
    }
}

/// A request that cannot be made is the client's fault, one that is not answered is the web site's.
pub proof fn law_refusal_tells_whose_fault_it_is(stage: ProxyStage)
    ensures
        proxy_refusal(stage).status == 502 <==> stage == ProxyStage::Upstream,
        proxy_refusal(stage).status == 400 <==> stage != ProxyStage::Upstream,
        proxy_refusal(stage).message == (if proxy_refusal(stage).status == 502 {
            "Bad Gateway"@
        } else {
            "Bad Request"@
        }),
{
}

/// A target that is an address is passed on unchanged, with its host; one that is none is refused.
pub proof fn law_target_is_the_address(text: Seq<char>, host: Option<Seq<char>>, r: Result<ProxyTarget, ErrorReply>)
    ensures
        proxy_answer(Some((text, host)), r) <==> (r matches Ok(target) && target.url@ == text && opt_text(target.host)
            == host),
        proxy_answer(None, r) <==> (r matches Err(e) && e.status == 400 && e.message@ == "Bad Request"@),
{
}

} // verus!
