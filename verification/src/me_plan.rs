//! What start-up of the middle-end pool takes from the configuration.

use vstd::prelude::*;
use vstd::string::*;
use vstd::utf8::encode_utf8;
use std::sync::Arc;

use crate::ad_tag::{all_hex, decode_ad_tag, decodes_to, TagError};
use crate::ip::IpAddr;
use crate::pool_mux::MePoolMux;

verus! {

/// The settings of the middle-end pool that start-up looks at.
pub struct MeConfig {
    pub middle_proxy_nat_probe: bool,
    pub stun_use: bool,
    pub middle_proxy_pool_size: usize,
    pub ad_tag: Option<String>,
    pub proxy_config_v4_url: Option<String>,
    pub proxy_config_v6_url: Option<String>,
}

/// What start-up works with.
pub struct MePlan {
    /// Whether the pools probe for their public address.
    pub nat_probe: bool,
    /// Whether a probe was asked for but is ruled out.
    pub nat_probe_overruled: bool,
    /// Number of connections per pool; at least one.
    pub pool_size: usize,
    pub proxy_tag: Option<Vec<u8>>,
    pub v4_url: String,
    pub v6_url: String,
}

/// Where the IPv4 configuration is loaded from unless told otherwise.
pub open spec fn default_v4_url() -> Seq<char> {
    "https://core.telegram.org/getProxyConfig"@
}

/// Where the IPv6 configuration is loaded from unless told otherwise.
pub open spec fn default_v6_url() -> Seq<char> {
    "https://core.telegram.org/getProxyConfigV6"@
}

/// A configured text, or a default.
pub open spec fn text_or(configured: Option<String>, default: Seq<char>) -> Seq<char> {
    match configured {
        Some(text) => text@,
        None => default,
    }
}

/// Whether the tag, if there is one, is an even number of hexadecimal digits.
pub open spec fn valid_tag(ad_tag: Option<String>) -> bool {
    match ad_tag {
        Some(tag) => encode_utf8(tag@).len() % 2 == 0 && all_hex(encode_utf8(tag@)),
        None => true,
    }
}

impl MePlan {
    /// Derives the plan from the configuration. It fails exactly when there is a
    /// tag that cannot be decoded.
    pub fn derive(config: &MeConfig) -> (res: Result<MePlan, TagError>)
        ensures
            res is Ok <==> valid_tag(config.ad_tag),
            match res {
                Ok(plan) => {
                    &&& plan.nat_probe == (config.middle_proxy_nat_probe && config.stun_use)
                    &&& plan.nat_probe_overruled == (config.middle_proxy_nat_probe
                        && !config.stun_use)
                    &&& plan.pool_size == (if config.middle_proxy_pool_size < 1 {
                        1
                    } else {
                        config.middle_proxy_pool_size
                    })
                    &&& match (config.ad_tag, plan.proxy_tag) {
                        (Some(tag), Some(bytes)) => decodes_to(encode_utf8(tag@), Ok(bytes@)),
                        (None, None) => true,
                        _ => false,
                    }
                    &&& plan.v4_url@ == text_or(config.proxy_config_v4_url, default_v4_url())
                    &&& plan.v6_url@ == text_or(config.proxy_config_v6_url, default_v6_url())
                },
                Err(e) => config.ad_tag matches Some(tag) && decodes_to(
                    encode_utf8(tag@),
                    Err(e),
                ),
            },
    {
        let tag: Option<&str> = match &config.ad_tag {
            Some(tag) => Some(tag.as_str()),
            None => None,
        };
        let proxy_tag = match decode_ad_tag(tag) {
            Ok(proxy_tag) => proxy_tag,
            Err(e) => {
                return Err(e);
            },
        };
        let pool_size: usize = if config.middle_proxy_pool_size < 1 {
            1
        } else {
            config.middle_proxy_pool_size
        };
        let v4_url = match &config.proxy_config_v4_url {
            Some(url) => url.clone(),
            None => "https://core.telegram.org/getProxyConfig".to_owned(),
        };
        let v6_url = match &config.proxy_config_v6_url {
            Some(url) => url.clone(),
            None => "https://core.telegram.org/getProxyConfigV6".to_owned(),
        };
        Ok(
            MePlan {
                nat_probe: config.middle_proxy_nat_probe && config.stun_use,
                nat_probe_overruled: config.middle_proxy_nat_probe && !config.stun_use,
                pool_size,
                proxy_tag,
                v4_url,
                v6_url,
            },
        )
    }
}

/// What a secret is recognized by: its first four bytes as a little-endian
/// number, or zero for a shorter one.
pub open spec fn secret_signature(secret: Seq<u8>) -> nat {
    if secret.len() >= 4 {
        (secret[0] + 0x100 * secret[1] + 0x1_0000 * secret[2] + 0x100_0000 * secret[3]) as nat
    } else {
        0
    }
}

/// What a secret is recognized by.
pub fn key_signature(secret: &[u8]) -> (res: u32)
    ensures
        res == secret_signature(secret@),
{
    if secret.len() >= 4 {
        secret[0] as u32 + 0x100 * secret[1] as u32 + 0x1_0000 * secret[2] as u32 + 0x100_0000
            * secret[3] as u32
    } else {
        0
    }
}

/// The data centre that pools use by default: that of the IPv4 configuration,
/// else that of the IPv6 configuration.
pub fn default_dc(v4: Option<i32>, v6: Option<i32>) -> (res: Option<i32>)
    ensures
        res == (if v4 is Some {
            v4
        } else {
            v6
        }),
{
    match v4 {
        Some(dc) => Some(dc),
        None => v6,
    }
}

/// Divides clients among the pools that were built for a plan of source
/// addresses. A single pool has no address of its own.
pub fn mux_for<P>(shards: Vec<Arc<P>>, overrides: Vec<Option<IpAddr>>) -> (res: MePoolMux<P>)
    requires
        shards.len() >= 1,
        shards.len() == overrides.len(),
    ensures
        res.pools() == shards@,
        res.sources() == (if shards.len() == 1 {
            seq![None::<IpAddr>]
        } else {
            overrides@
        }),
{
    if shards.len() == 1 {
        let mut shards = shards;
        let ghost all = shards@;
        let pool = shards.swap_remove(0);
        let res = MePoolMux::from_single(pool);
        assert(res.pools() =~= all);
        res
    } else {
        MePoolMux::from_shards(shards, overrides)
    }
}

} // verus!
