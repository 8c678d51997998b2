//! The parts of a URL.

use vstd::prelude::*;

use crate::text::opt_text;

verus! {

/// The parts of a URL that the server looks at.
#[derive(Debug, Clone)]
pub struct UrlParts {
    /// The whole URL in its normal form.
    pub text: String,
    pub scheme: String,
    pub host: Option<String>,
    pub port: Option<u16>,
    pub path: String,
}

/// What `UrlParts` hold.
#[verifier::ext_equal]
pub struct UrlView {
    pub text: Seq<char>,
    pub scheme: Seq<char>,
    pub host: Option<Seq<char>>,
    pub port: Option<u16>,
    pub path: Seq<char>,
}

impl View for UrlParts {
    type V = UrlView;

    open spec fn view(&self) -> UrlView {
        UrlView {
            text: self.text@,
            scheme: self.scheme@,
            host: opt_text(self.host),
            port: self.port,
            path: self.path@,
        }
    }
}

/// The parts of the absolute URL that a text is, if it is one.
pub uninterp spec fn url_parts(text: Seq<char>) -> Option<UrlView>;

/// `reqwest::Url::parse`, with the text, the scheme, the host, the port and the path that it
/// found.
/// The result depends on the text alone.
#[verifier::external_body]
pub(crate) fn parse_url(text: &str) -> (parts: Option<UrlParts>)
    ensures
        match parts {
            Some(p) => url_parts(text@) == Some(p@),
            None => url_parts(text@) is None,
        },
{
    let url = reqwest::Url::parse(text).ok()?;
    Some(UrlParts {
        text: url.as_str().to_string(),
        scheme: url.scheme().to_string(),
        host: url.host_str().map(|host| host.to_string()),
        port: url.port(),
        path: url.path().to_string(),
    })
}

} // verus!
