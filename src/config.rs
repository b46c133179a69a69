use vstd::prelude::*;

verus! {

/// Settings of one run, read once at start.
#[derive(Clone, Debug)]
pub struct Config {
    pub cookie: String,
    pub webhook_url: String,
    pub user_agent: String,
    pub base_url: String,
    pub storage_path: String,
    pub sentry_dsn: Option<String>,
    pub cdn_key: String,
    pub cdn_base_url: String,
}

/// The user agent sent when none is configured.
pub fn default_user_agent() -> (r: String)
    ensures
        r@ == "Mozilla/5.0 (Macintosh; Intel Mac OS X 10_15_7) AppleWebKit/537.36 (KHTML, like Gecko) Chrome/143.0.0.0 Safari/537.36"@,
{
    String::from_str(
        "Mozilla/5.0 (Macintosh; Intel Mac OS X 10_15_7) AppleWebKit/537.36 (KHTML, like Gecko) Chrome/143.0.0.0 Safari/537.36",
    )
}

/// The storefront's address when none is configured.
pub fn default_base_url() -> (r: String)
    ensures
        r@ == "https://flavortown.hackclub.com/"@,
{
    String::from_str("https://flavortown.hackclub.com/")
}

/// The CDN key when none is configured.
pub fn default_cdn_key() -> (r: String)
    ensures
        r@ == "beans"@,
{
    String::from_str("beans")
}

/// The CDN upload endpoint when none is configured.
pub fn default_cdn_base_url() -> (r: String)
    ensures
        r@ == "https://cdn.hackclub.com/api/file"@,
{
    String::from_str("https://cdn.hackclub.com/api/file")
}

} // verus!
