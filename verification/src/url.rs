//! What is read from URLs, and how they are put together.
use crate::text;
use vstd::prelude::*;

verus! {

/// What is read from a URL.
pub struct UrlParts {
    pub host: Option<String>,
    /// The port, where the URL gives one that is not the scheme's own.
    pub port: Option<u16>,
}

/// The model of what is read from a URL.
pub struct UrlView {
    pub host: Option<Seq<char>>,
    pub port: Option<u16>,
}

impl View for UrlParts {
    type V = UrlView;

    open spec fn view(&self) -> UrlView {
        UrlView { host: text::opt_text(self.host), port: self.port }
    }
}

/// The model of what was read from a text, if it was a URL.
pub open spec fn opt_parts(u: Option<UrlParts>) -> Option<UrlView> {
    match u {
        Some(x) => Some(x@),
        None => None,
    }
}

/// What `reqwest::Url::parse` reads from a text.
pub uninterp spec fn url_parts(url: Seq<char>) -> Option<UrlView>;

/// The URL that `reqwest::Url::parse_with_params` makes of a base and parameters.
pub uninterp spec fn url_with(base: Seq<char>, params: Seq<(Seq<char>, Seq<char>)>) -> Option<
    Seq<char>,
>;

/// Names and values, as models.
pub open spec fn param_views(s: Seq<(String, String)>) -> Seq<(Seq<char>, Seq<char>)> {
    s.map_values(|p: (String, String)| (p.0@, p.1@))
}

/// `reqwest::Url::parse`, with `host_str` and `port` of what it gives. Claims that what is read depends
/// on the text alone; what a URL is, and how its host is spelled, is not stated.
#[verifier::external_body]
pub(crate) fn read_url(url: &str) -> (r: Option<UrlParts>)
    ensures
        opt_parts(r) == url_parts(url@),
{
    let parsed = reqwest::Url::parse(url).ok()?;
    Some(UrlParts { host: parsed.host_str().map(|h| h.to_string()), port: parsed.port() })
}

/// `reqwest::Url::parse_with_params`, as text. Claims that the URL depends on the base and the
/// parameters alone; how the parameters are escaped is not stated.
#[verifier::external_body]
pub(crate) fn build_url(base: &str, params: &Vec<(String, String)>) -> (r: Option<String>)
    ensures
        text::opt_text(r) == url_with(base@, param_views(params@)),
{
    reqwest::Url::parse_with_params(base, params).ok().map(|u| u.to_string())
}

} // verus!
