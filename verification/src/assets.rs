//! The models that are fetched once and kept.

use vstd::prelude::*;
use vstd::string::*;

verus! {

/// A file of no more bytes than this is no model.
pub const LEAST_MODEL: usize = 1024;

/// What is to be done about a model.
#[derive(Clone, Copy, Debug, PartialEq, Eq, Structural)]
pub enum CacheStep {
    /// The kept file is good.
    Use,
    /// It has to be fetched.
    Fetch,
}

/// What is to be done, given the size of the kept file, if there is one.
pub fn cache_step(cached: Option<usize>) -> (r: CacheStep)
    ensures
        r == if cached matches Some(n) && n > LEAST_MODEL {
            CacheStep::Use
        } else {
            CacheStep::Fetch
        },
{
    match cached {
        Some(n) => if n > LEAST_MODEL {
            CacheStep::Use
        } else {
            CacheStep::Fetch
        },
        None => CacheStep::Fetch,
    }
}

/// Whether a fetched file can be a model.
pub fn is_model(len: usize) -> (r: bool)
    ensures
        r == (len > LEAST_MODEL),
{
    len > LEAST_MODEL
}

/// Where a model of a version is fetched from.
pub open spec fn url_of(version: Seq<char>, asset: Seq<char>) -> Seq<char> {
    "https://github.com/cnmoro/faster-paddle/releases/download/v"@ + version + "/"@ + asset
}

/// Where a model of a version is fetched from.
pub fn asset_url(version: &str, asset: &str) -> (r: String)
    ensures
        r@ == url_of(version@, asset@),
{
    String::from_str("https://github.com/cnmoro/faster-paddle/releases/download/v").concat(
        version,
    ).concat("/").concat(asset)
}

/// The directories, below the user's cache, that hold the models of a version.
pub fn cache_path(version: &str) -> (r: (String, String, String))
    ensures
        r.0@ == "faster_paddle"@,
        r.1@ == "v"@ + version@,
        r.2@ == "medium"@,
{
    (
        String::from_str("faster_paddle"),
        String::from_str("v").concat(version),
        String::from_str("medium"),
    )
}

/// The name under which a file is written before it is complete.
pub fn temp_name(filename: &str) -> (r: String)
    ensures
        r@ == filename@ + ".tmp"@,
{
    String::from_str(filename).concat(".tmp")
}

/// A kept file is used, and a fetched one taken for a model, where it has more than
/// 1024 bytes.
pub proof fn law_models_have_more_than_a_kilobyte(
    cached: Option<usize>,
    step: CacheStep,
    len: usize,
    good: bool,
)
    requires
        call_ensures(cache_step, (cached,), step),
        call_ensures(is_model, (len,), good),
    ensures
        step == CacheStep::Use <==> cached is Some && cached->0 > 1024,
        step == CacheStep::Fetch <==> cached is None || cached->0 <= 1024,
        good <==> len > 1024,
{
}

} // verus!
