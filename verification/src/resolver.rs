//! A named upstream GraphQL resolver instance: its unique name, an optional
//! namespace and type prefix, and its endpoint URL.

use vstd::prelude::*;

verus! {

/// A name for what `url::Url::parse` followed by serialization produces:
/// the normalized form of the URL text, a function of the text alone.
pub uninterp spec fn url_normalized(s: Seq<char>) -> Seq<char>;

/// A name for whether `url::Url::parse` accepts a text: parsing is a
/// function of the text alone.
pub uninterp spec fn url_parses(s: Seq<char>) -> bool;

/// Relies on `url::Url::parse` and `url::Url::as_str`: a text that parses
/// yields its normalized form; one that does not parse yields nothing.
#[verifier::external_body]
fn parse_url(s: &str) -> (r: Option<String>)
    ensures
        match r {
            Some(t) => url_parses(s@) && t@ == url_normalized(s@),
            None => !url_parses(s@),
        },
{
    match url::Url::parse(s) {
        Ok(u) => Some(u.as_str().to_owned()),
        Err(_) => None,
    }
}

/// An upstream GraphQL resolver instance.
pub struct Resolver {
    pub name: String,
    pub namespace: Option<String>,
    pub type_prefix: Option<String>,
    pub url: String,
}

impl Resolver {
    pub fn new(name: String, url: String, namespace: Option<String>, type_prefix: Option<String>)
        -> (r: Resolver)
        ensures
            r.name == name,
            r.url == url,
            r.namespace == namespace,
            r.type_prefix == type_prefix,
    {
        Resolver { name, url, namespace, type_prefix }
    }

    pub fn name(&self) -> (r: &String)
        ensures
            r == &self.name,
    {
        &self.name
    }

    /// A resolver for exercising the type: the namespace defaults the type
    /// prefix, an empty namespace stands for none, and the URL must parse;
    /// its normalized form is kept. Succeeds exactly when the URL parses.
    pub fn stub(name: &str, namespace: &str, url: &str) -> (r: Option<Resolver>)
        ensures
            match r {
                Some(res) => {
                    &&& url_parses(url@)
                    &&& res.url@ == url_normalized(url@)
                    &&& res.name@ == name@
                    &&& (match res.namespace {
                        Some(ns) => namespace@.len() > 0 && ns@ == namespace@,
                        None => namespace@.len() == 0,
                    })
                    &&& (match (res.type_prefix, res.namespace) {
                        (Some(tp), Some(ns)) => tp@ == ns@,
                        (None, None) => true,
                        _ => false,
                    })
                },
                None => !url_parses(url@),
            },
    {
        let namespace_opt: Option<String> = if namespace.unicode_len() == 0 {
            None
        } else {
            Some(namespace.to_owned())
        };
        let type_prefix: Option<String> = match &namespace_opt {
            Some(ns) => Some(crate::upstream::clone_string(ns)),
            None => None,
        };
        match parse_url(url) {
            Some(normalized) => Some(
                Resolver {
                    name: name.to_owned(),
                    type_prefix,
                    namespace: namespace_opt,
                    url: normalized,
                },
            ),
            None => None,
        }
    }
}

} // verus!
