//! The endpoints that are watched.
use vstd::prelude::*;

verus! {

/// A Solana RPC or WebSocket endpoint.
#[derive(Clone, Debug)]
pub struct RpcEndpoint {
    pub url: String,
    pub nickname: String,
}

/// A list of endpoints.
#[derive(Clone, Debug)]
pub struct RpcConfig {
    pub endpoints: Vec<RpcEndpoint>,
}

/// The endpoints polled over RPC, and those listened to over WebSocket.
#[derive(Clone, Debug)]
pub struct Config {
    pub rpc: RpcConfig,
    pub ws: RpcConfig,
}

/// The serialised form that `url::Url::parse` gives to a URL, or `None` where
/// it finds none in the text.
pub uninterp spec fn parsed_url(text: Seq<char>) -> Option<Seq<char>>;

/// Parses a URL with `url::Url::parse` and serialises it again by
/// `String::from`. The outcome depends on the text alone; which texts are URLs,
/// and how they are normalised, is left unsaid.
#[verifier::external_body]
fn parse_url(text: &str) -> (url: Option<String>)
    ensures
        match url {
            Some(url) => parsed_url(text@) == Some(url@),
            None => parsed_url(text@) is None,
        },
{
    url::Url::parse(text).ok().map(String::from)
}

impl RpcEndpoint {
    /// The URL that the endpoint is connected to, or `None` where its address
    /// is no URL.
    pub fn connection_url(&self) -> (url: Option<String>)
        ensures
            match url {
                Some(url) => parsed_url(self.url@) == Some(url@),
                None => parsed_url(self.url@) is None,
            },
    {
        parse_url(self.url.as_str())
    }
}

} // verus!
