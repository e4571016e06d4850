//! What the configuration makes of itself, piece by piece.

use vstd::prelude::*;
use vstd::string::*;

use crate::ip::IpAddr;
use crate::ip_text::ip_reading;
use crate::me_plan::{default_v4_url, default_v6_url, secret_signature, text_or};
use crate::routing_laws::little_endian;
use crate::shard_plan::{
    all_sources, readable, shard_overrides, source_addresses, MeWriterBindMode, UpstreamConfig,
    UpstreamType,
};

verus! {

/// Of a list of texts, each one that spells an address adds that address, in order,
/// and every other adds nothing.
pub proof fn lemma_readable_by_text(before: Seq<String>, text: String, after: Seq<String>)
    ensures
        readable(before + seq![text] + after) == readable(before) + (match ip_reading(text@) {
            Some(ip) => seq![ip],
            None => Seq::empty(),
        }) + readable(after),
        readable(Seq::empty()) == Seq::<IpAddr>::empty(),
    decreases after.len(),
{
    let all = before + seq![text] + after;
    if after.len() == 0 {
        assert(all.drop_last() =~= before);
        assert(all.last() == text);
        assert(readable(after) =~= Seq::empty());
        assert(readable(all) =~= readable(before) + (match ip_reading(text@) {
            Some(ip) => seq![ip],
            None => Seq::empty(),
        }) + readable(after));
    } else {
        lemma_readable_by_text(before, text, after.drop_last());
        assert(all.drop_last() =~= before + seq![text] + after.drop_last());
        assert(all.last() == after.last());
        assert(readable(all) =~= readable(before) + (match ip_reading(text@) {
            Some(ip) => seq![ip],
            None => Seq::empty(),
        }) + readable(after));
    }
}

/// An upstream adds the addresses of its list if it is direct and has one, and
/// nothing otherwise, whether it is enabled or not.
pub proof fn lemma_sources_by_upstream(
    before: Seq<UpstreamConfig>,
    upstream: UpstreamConfig,
    after: Seq<UpstreamConfig>,
)
    ensures
        all_sources(before + seq![upstream] + after) == all_sources(before) + (
        match upstream.upstream_type {
            UpstreamType::Direct { bind_addresses: Some(texts), .. } => readable(texts@),
            _ => Seq::empty(),
        }) + all_sources(after),
        all_sources(Seq::empty()) == Seq::<IpAddr>::empty(),
    decreases after.len(),
{
    let all = before + seq![upstream] + after;
    if after.len() == 0 {
        assert(all.drop_last() =~= before);
        assert(all.last() == upstream);
        assert(all_sources(after) =~= Seq::empty());
        assert(all_sources(all) =~= all_sources(before) + source_addresses(upstream)
            + all_sources(after));
    } else {
        lemma_sources_by_upstream(before, upstream, after.drop_last());
        assert(all.drop_last() =~= before + seq![upstream] + after.drop_last());
        assert(all.last() == after.last());
        assert(all_sources(all) =~= all_sources(before) + source_addresses(upstream)
            + all_sources(after));
    }
}

/// There is a pool for each source address exactly when each is to have its own and
/// there are at least two; otherwise there is one pool without an address.
pub proof fn lemma_pools_by_source(mode: MeWriterBindMode, upstreams: Seq<UpstreamConfig>)
    ensures
        ({
            let sources = all_sources(upstreams);
            let plan = shard_overrides(mode, upstreams);
            if mode == MeWriterBindMode::Shard && sources.len() >= 2 {
                &&& plan.len() == sources.len()
                &&& forall|i: int|
                    0 <= i < plan.len() ==> #[trigger] plan[i] == Some(sources[i])
            } else {
                plan.len() == 1 && plan[0] is None
            }
        }),
{
}

/// A secret is recognized by the number that its first four bytes spell, the least
/// significant first; one with fewer bytes by zero.
#[verifier::rlimit(40)]
pub proof fn lemma_signature_by_bytes(secret: Seq<u8>)
    ensures
        secret.len() >= 4 ==> secret_signature(secret) == little_endian(secret.take(4)),
        secret.len() < 4 ==> secret_signature(secret) == 0,
{
    if secret.len() >= 4 {
        let four = secret.take(4);
        let three = four.drop_first();
        let two = three.drop_first();
        let one = two.drop_first();
        assert(little_endian(one.drop_first()) == 0);
        assert(little_endian(one) == secret[3]);
        assert(little_endian(two) == secret[2] + 256 * little_endian(one));
        assert(little_endian(three) == secret[1] + 256 * little_endian(two));
        assert(little_endian(four) == secret[0] + 256 * little_endian(three));
    }
}

/// A configured address is used as it is; the two default addresses differ in the
/// suffix of the IPv6 one.
pub proof fn lemma_urls(configured: String, default: Seq<char>)
    ensures
        text_or(Some(configured), default) == configured@,
        text_or(None, default) == default,
        default_v4_url() == "https://core.telegram.org/getProxyConfig"@,
        default_v6_url() == default_v4_url() + seq!['V', '6'],
{
    reveal_strlit("https://core.telegram.org/getProxyConfig");
    reveal_strlit("https://core.telegram.org/getProxyConfigV6");
    assert(default_v6_url() =~= default_v4_url() + seq!['V', '6']);
}

} // verus!
