//! Which source addresses get a pool of their own.

use vstd::prelude::*;

use crate::ip::IpAddr;
use crate::ip_text::{ip_reading, parse_ip};

verus! {

/// How writers are divided among source addresses.
#[derive(Clone, Copy, Debug, PartialEq, Eq, Structural)]
pub enum MeWriterBindMode {
    /// The writers of one pool take turns.
    RoundRobin,
    /// Each address has a pool of its own.
    Shard,
}

/// How an upstream is reached.
pub enum UpstreamType {
    Direct {
        interface: Option<String>,
        bind_addresses: Option<Vec<String>>,
        bindtodevice: Option<String>,
    },
    Socks5 {
        address: String,
        interface: Option<String>,
        username: Option<String>,
        password: Option<String>,
    },
}

/// One configured upstream.
pub struct UpstreamConfig {
    pub upstream_type: UpstreamType,
    pub weight: u16,
    pub enabled: bool,
    pub scopes: String,
    pub selected_scope: String,
    pub ipv4: Option<bool>,
    pub ipv6: Option<bool>,
}

/// The addresses that a list of texts spells, in order; other texts are passed
/// over.
pub open spec fn readable(texts: Seq<String>) -> Seq<IpAddr>
    decreases texts.len(),
{
    if texts.len() == 0 {
        Seq::empty()
    } else {
        let before = readable(texts.drop_last());
        match ip_reading(texts.last()@) {
            Some(ip) => before.push(ip),
            None => before,
        }
    }
}

/// The source addresses of an upstream. Only a direct one has any.
pub open spec fn source_addresses(upstream: UpstreamConfig) -> Seq<IpAddr> {
    match upstream.upstream_type {
        UpstreamType::Direct { bind_addresses: Some(texts), .. } => readable(texts@),
        _ => Seq::empty(),
    }
}

/// The source addresses of all upstreams, in order.
pub open spec fn all_sources(upstreams: Seq<UpstreamConfig>) -> Seq<IpAddr>
    decreases upstreams.len(),
{
    if upstreams.len() == 0 {
        Seq::empty()
    } else {
        all_sources(upstreams.drop_last()) + source_addresses(upstreams.last())
    }
}

/// The source address of each pool: one pool for each address if there are at
/// least two and each is to have its own, else one pool without an address.
pub open spec fn shard_overrides(mode: MeWriterBindMode, upstreams: Seq<UpstreamConfig>) -> Seq<
    Option<IpAddr>,
> {
    let sources = all_sources(upstreams);
    if mode == MeWriterBindMode::Shard && sources.len() >= 2 {
        sources.map_values(|ip: IpAddr| Some(ip))
    } else {
        seq![None]
    }
}

/// Appends the addresses that a list of texts spells.
fn push_readable(out: &mut Vec<IpAddr>, texts: &Vec<String>)
    ensures
        final(out)@ == old(out)@ + readable(texts@),
{
    let ghost before = out@;
    let mut i: usize = 0;
    assert(texts@.take(0) =~= Seq::empty());
    assert(out@ =~= before + readable(texts@.take(0)));
    while i < texts.len()
        invariant
            i <= texts.len(),
            out@ == before + readable(texts@.take(i as int)),
        decreases texts.len() - i,
    {
        let ghost longer = texts@.take(i + 1);
        assert(longer.drop_last() =~= texts@.take(i as int));
        assert(longer.last() == texts@[i as int]);
        if let Some(ip) = parse_ip(texts[i].as_str()) {
            out.push(ip);
        }
        assert(out@ =~= before + readable(longer));
        i += 1;
    }
    assert(texts@.take(i as int) =~= texts@);
}

/// Plans the pools: the source address of each, if it has one of its own. There
/// is always at least one pool.
pub fn compute_shard_overrides(mode: MeWriterBindMode, upstreams: &[UpstreamConfig]) -> (res: Vec<
    Option<IpAddr>,
>)
    ensures
        res@ == shard_overrides(mode, upstreams@),
        res.len() >= 1,
{
    let mut single: Vec<Option<IpAddr>> = Vec::new();
    single.push(None);
    assert(single@ =~= seq![None]);
    if mode != MeWriterBindMode::Shard {
        return single;
    }
    let mut sources: Vec<IpAddr> = Vec::new();
    let mut i: usize = 0;
    assert(upstreams@.take(0) =~= Seq::empty());
    assert(sources@ =~= all_sources(upstreams@.take(0)));
    while i < upstreams.len()
        invariant
            i <= upstreams@.len(),
            sources@ == all_sources(upstreams@.take(i as int)),
        decreases upstreams@.len() - i,
    {
        let ghost longer = upstreams@.take(i + 1);
        assert(longer.drop_last() =~= upstreams@.take(i as int));
        assert(longer.last() == upstreams@[i as int]);
        if let UpstreamType::Direct { bind_addresses: Some(texts), .. } =
            &upstreams[i].upstream_type {
            push_readable(&mut sources, texts);
        }
        assert(sources@ =~= all_sources(longer));
        i += 1;
    }
    assert(upstreams@.take(i as int) =~= upstreams@);
    if sources.len() < 2 {
        return single;
    }
    let mut out: Vec<Option<IpAddr>> = Vec::new();
    let mut k: usize = 0;
    while k < sources.len()
        invariant
            k <= sources.len(),
            out.len() == k,
            forall|j: int| 0 <= j < k ==> out@[j] == Some(#[trigger] sources@[j]),
        decreases sources.len() - k,
    {
        out.push(Some(sources[k]));
        k += 1;
    }
    assert(out@ =~= shard_overrides(mode, upstreams@));
    out
}

/// There is always a pool; several pools have an address each, in the order of
/// the configuration, and a single one has none.
pub proof fn lemma_overrides(mode: MeWriterBindMode, upstreams: Seq<UpstreamConfig>)
    ensures
        shard_overrides(mode, upstreams).len() >= 1,
        shard_overrides(mode, upstreams).len() == 1 <==> shard_overrides(mode, upstreams)
            == seq![None::<IpAddr>],
        shard_overrides(mode, upstreams).len() >= 2 ==> mode == MeWriterBindMode::Shard && (forall|
            i: int,
        |
            0 <= i < shard_overrides(mode, upstreams).len() ==> #[trigger] shard_overrides(
                mode,
                upstreams,
            )[i] == Some(all_sources(upstreams)[i])),
{
    let plan = shard_overrides(mode, upstreams);
    assert(seq![None::<IpAddr>].len() == 1);
    if plan.len() == 1 {
        assert(plan =~= seq![None::<IpAddr>]);
    }
}

} // verus!
