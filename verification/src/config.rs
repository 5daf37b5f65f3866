//! The configuration of the collector and its defaults.

use vstd::prelude::*;
use vstd::string::*;
use vstd::utf8::*;

use crate::paths;
use crate::paths::{resolve_config_path, FilePath};
use crate::text::same_text;

verus! {

/// The configuration of the collector.
pub struct AppConfig {
    pub base_url: String,
    pub chain: String,
    pub interval_secs: u64,
    pub full_geo_refresh_secs: u64,
    pub state: FilePath,
    pub output: FilePath,
    pub map_output: FilePath,
    pub map_cache: FilePath,
    pub map_stale_after_secs: u64,
    pub compact: bool,
    pub resolver: ResolverConfig,
    pub geo: GeoConfig,
}

/// The part of the configuration on the address lookups.
pub struct ResolverConfig {
    pub global_config_path: FilePath,
    pub local_adnl_addr: String,
    pub lookup_timeout_secs: u64,
    pub workers: usize,
}

/// The part of the configuration on the geo lookups.
pub struct GeoConfig {
    pub endpoint: String,
    pub batch_size: usize,
    pub cache: FilePath,
}

impl AppConfig {
    /// Takes each relative path of the configuration from `base_dir`, and leaves the
    /// rest of the configuration as it is.
    pub fn resolve_paths(self, base_dir: &FilePath) -> (r: Self)
        ensures
            r.state@ == paths::joined(base_dir@, self.state@),
            r.output@ == paths::joined(base_dir@, self.output@),
            r.map_output@ == paths::joined(base_dir@, self.map_output@),
            r.map_cache@ == paths::joined(base_dir@, self.map_cache@),
            r.resolver.global_config_path@ == paths::joined(
                base_dir@,
                self.resolver.global_config_path@,
            ),
            r.geo.cache@ == paths::joined(base_dir@, self.geo.cache@),
            r.base_url == self.base_url,
            r.chain == self.chain,
            r.interval_secs == self.interval_secs,
            r.full_geo_refresh_secs == self.full_geo_refresh_secs,
            r.map_stale_after_secs == self.map_stale_after_secs,
            r.compact == self.compact,
            r.resolver.local_adnl_addr == self.resolver.local_adnl_addr,
            r.resolver.lookup_timeout_secs == self.resolver.lookup_timeout_secs,
            r.resolver.workers == self.resolver.workers,
            r.geo.endpoint == self.geo.endpoint,
            r.geo.batch_size == self.geo.batch_size,
    {
        let state: FilePath = resolve_config_path(base_dir, &self.state);
        let output: FilePath = resolve_config_path(base_dir, &self.output);
        let map_output: FilePath = resolve_config_path(base_dir, &self.map_output);
        let map_cache: FilePath = resolve_config_path(base_dir, &self.map_cache);
        let global_config_path: FilePath = resolve_config_path(
            base_dir,
            &self.resolver.global_config_path,
        );
        let cache: FilePath = resolve_config_path(base_dir, &self.geo.cache);
        AppConfig {
            base_url: self.base_url,
            chain: self.chain,
            interval_secs: self.interval_secs,
            full_geo_refresh_secs: self.full_geo_refresh_secs,
            state,
            output,
            map_output,
            map_cache,
            map_stale_after_secs: self.map_stale_after_secs,
            compact: self.compact,
            resolver: ResolverConfig {
                global_config_path,
                local_adnl_addr: self.resolver.local_adnl_addr,
                lookup_timeout_secs: self.resolver.lookup_timeout_secs,
                workers: self.resolver.workers,
            },
            geo: GeoConfig {
                endpoint: self.geo.endpoint,
                batch_size: self.geo.batch_size,
                cache,
            },
        }
    }
}

/// The name of the resolver for a chain.
pub open spec fn resolver_kind_of(chain: Seq<char>) -> Seq<char> {
    if chain == "everscale"@ {
        "ever-dht"@
    } else if chain == "ton"@ {
        "ton-dht"@
    } else {
        "adnl-dht"@
    }
}

/// The name of the resolver for a chain.
pub fn resolver_kind(chain: &str) -> (r: &'static str)
    ensures
        r@ == resolver_kind_of(chain@),
{
    if same_text(chain, "everscale") {
        "ever-dht"
    } else if same_text(chain, "ton") {
        "ton-dht"
    } else {
        "adnl-dht"
    }
}

pub fn default_base_url() -> (r: String)
    ensures
        r@ == "https://validatorsclock.xyz"@,
{
    "https://validatorsclock.xyz".to_owned()
}

pub fn default_chain() -> (r: String)
    ensures
        r@ == "everscale"@,
{
    "everscale".to_owned()
}

/// The bootstrap configuration that is expected where none is named.
pub fn default_global_config_path() -> (r: FilePath)
    ensures
        r@ == encode_utf8(
            "/home/admin/everscale_dht_bootstrap/everscale-bootstrap-global-config.json"@,
        ),
{
    let path: &str = "/home/admin/everscale_dht_bootstrap/everscale-bootstrap-global-config.json";
    FilePath { bytes: vstd::slice::slice_to_vec(path.as_bytes()) }
}

pub fn default_local_adnl_addr() -> (r: String)
    ensures
        r@ == "0.0.0.0:4191"@,
{
    "0.0.0.0:4191".to_owned()
}

pub fn default_interval_secs() -> (r: u64)
    ensures
        r == 300,
{
    300
}

pub fn default_full_geo_refresh_secs() -> (r: u64)
    ensures
        r == 3600,
{
    3600
}

pub fn default_lookup_timeout_secs() -> (r: u64)
    ensures
        r == 30,
{
    30
}

pub fn default_workers() -> (r: usize)
    ensures
        r == 16,
{
    16
}

pub fn default_map_stale_after_secs() -> (r: u64)
    ensures
        r == 3600,
{
    3600
}

pub fn default_geo_endpoint() -> (r: String)
    ensures
        r@
            == "http://ip-api.com/batch?fields=status,message,country,countryCode,regionName,city,lat,lon,isp,org,as,query"@,
{
    "http://ip-api.com/batch?fields=status,message,country,countryCode,regionName,city,lat,lon,isp,org,as,query".to_owned()
}

pub fn default_geo_batch_size() -> (r: usize)
    ensures
        r == 100,
{
    100
}

/// Everscale and TON have a resolver of their own name, and every other chain the common
/// one.
pub proof fn law_resolver_is_named_by_chain(chain: Seq<char>)
    ensures
        chain == "everscale"@ ==> resolver_kind_of(chain) == "ever-dht"@,
        chain == "ton"@ ==> resolver_kind_of(chain) == "ton-dht"@,
        chain != "everscale"@ && chain != "ton"@ ==> resolver_kind_of(chain) == "adnl-dht"@,
{
    reveal_strlit("everscale");
    reveal_strlit("ton");
    assert("everscale"@.len() == 9);
    assert("ton"@.len() == 3);
}

} // verus!
