//! The application protocol that a handshake answers with, chosen by server name.

use vstd::prelude::*;
use vstd::std_specs::hash::DefaultHasherAdditionalSpecFns;
use vstd::string::*;
use vstd::utf8::encode_utf8;
use std::collections::hash_map::DefaultHasher;
use std::hash::Hasher;

use crate::clock::epoch_secs_now;
use crate::hashing::text_end;

verus! {

/// The low `count` bytes of a number, least significant first.
pub open spec fn le_bytes(value: nat, count: nat) -> Seq<u8>
    decreases count,
{
    if count == 0 {
        Seq::empty()
    } else {
        seq![(value % 256) as u8] + le_bytes(value / 256, (count - 1) as nat)
    }
}

/// The number of the time slice that a moment is in; slices of no length are
/// all the same.
pub open spec fn time_bucket(epoch_secs: u64, bucket_secs: u64) -> u64 {
    if bucket_secs == 0 {
        0
    } else {
        epoch_secs / bucket_secs
    }
}

/// The profile out of `n` that is used for a server name in a time slice. A
/// missing name counts as an empty one.
pub open spec fn profile_index(sni: Option<Seq<char>>, bucket: u64, n: nat) -> nat {
    let name = match sni {
        Some(name) => name,
        None => Seq::empty(),
    };
    let hash = DefaultHasher::spec_finish(
        seq![encode_utf8(name), text_end(), le_bytes(bucket as nat, 8)],
    );
    (hash as usize) as nat % n
}

/// What byte strings say.
pub open spec fn byte_views(items: Seq<Vec<u8>>) -> Seq<Seq<u8>> {
    items.map_values(|item: Vec<u8>| item@)
}

/// The protocols of a profile as byte strings.
pub open spec fn protocol_bytes(profile: Seq<String>) -> Seq<Seq<u8>> {
    profile.map_values(|protocol: String| encode_utf8(protocol@))
}

/// The first protocol of a profile that the client offers.
pub open spec fn first_offered(profile: Seq<Seq<u8>>, client: Seq<Seq<u8>>) -> Option<Seq<u8>>
    decreases profile.len(),
{
    if profile.len() == 0 {
        None
    } else if client.contains(profile[0]) {
        Some(profile[0])
    } else {
        first_offered(profile.drop_first(), client)
    }
}

/// The protocol that is answered, if any: the first one offered of the profile
/// that the server name and the time slice select.
pub open spec fn alpn_choice(
    client: Seq<Seq<u8>>,
    sni: Option<Seq<char>>,
    profiles: Seq<Seq<Seq<u8>>>,
    bucket: u64,
) -> Option<Seq<u8>> {
    if profiles.len() == 0 || client.len() == 0 {
        None
    } else {
        first_offered(profiles[profile_index(sni, bucket, profiles.len()) as int], client)
    }
}

/// The profiles as byte strings.
pub open spec fn profile_views(profiles: Seq<Vec<String>>) -> Seq<Seq<Seq<u8>>> {
    profiles.map_values(|profile: Vec<String>| protocol_bytes(profile@))
}

fn to_le_bytes(value: u64) -> (res: Vec<u8>)
    ensures
        res@ == le_bytes(value as nat, 8),
{
    let mut out: Vec<u8> = Vec::new();
    let mut rest: u64 = value;
    let mut i: u8 = 0;
    assert(out@ + le_bytes(rest as nat, 8) =~= le_bytes(value as nat, 8));
    while i < 8
        invariant
            i <= 8,
            out@ + le_bytes(rest as nat, (8 - i) as nat) == le_bytes(value as nat, 8),
        decreases 8 - i,
    {
        let ghost before = out@ + le_bytes(rest as nat, (8 - i) as nat);
        out.push((rest % 256) as u8);
        rest = rest / 256;
        i += 1;
        assert(out@ + le_bytes(rest as nat, (8 - i) as nat) =~= before);
    }
    assert(out@ + le_bytes(rest as nat, 0) =~= out@);
    out
}

/// Whether two byte strings are the same.
fn same_bytes(a: &[u8], b: &[u8]) -> (res: bool)
    ensures
        res == (a@ == b@),
{
    if a.len() != b.len() {
        return false;
    }
    let mut i: usize = 0;
    while i < a.len()
        invariant
            i <= a@.len(),
            a@.len() == b@.len(),
            forall|j: int| 0 <= j < i ==> a@[j] == b@[j],
        decreases a@.len() - i,
    {
        if a[i] != b[i] {
            return false;
        }
        i += 1;
    }
    assert(a@ =~= b@);
    true
}

fn copy_bytes(bytes: &[u8]) -> (res: Vec<u8>)
    ensures
        res@ == bytes@,
{
    let mut out: Vec<u8> = Vec::new();
    let mut i: usize = 0;
    while i < bytes.len()
        invariant
            i <= bytes@.len(),
            out@ == bytes@.take(i as int),
        decreases bytes@.len() - i,
    {
        out.push(bytes[i]);
        i += 1;
        assert(out@ =~= bytes@.take(i as int));
    }
    assert(bytes@.take(i as int) =~= bytes@);
    out
}

/// Whether the client offers a protocol.
fn offers(client_alpn: &[Vec<u8>], protocol: &[u8]) -> (res: bool)
    ensures
        res == byte_views(client_alpn@).contains(protocol@),
{
    let ghost client = byte_views(client_alpn@);
    let mut i: usize = 0;
    while i < client_alpn.len()
        invariant
            i <= client_alpn@.len(),
            client == byte_views(client_alpn@),
            forall|j: int| 0 <= j < i ==> client[j] != protocol@,
        decreases client_alpn@.len() - i,
    {
        assert(client[i as int] == client_alpn@[i as int]@);
        if same_bytes(client_alpn[i].as_slice(), protocol) {
            return true;
        }
        i += 1;
    }
    false
}

/// Finds the profile out of `n` for a server name in a time slice.
fn find_profile(sni: Option<&str>, bucket: u64, n: usize) -> (res: usize)
    requires
        n >= 1,
    ensures
        res == profile_index(
            match sni {
                Some(name) => Some(name@),
                None => None,
            },
            bucket,
            n as nat,
        ),
        res < n,
{
    let mut hasher = DefaultHasher::new();
    let name = match sni {
        Some(name) => name,
        None => "",
    };
    proof {
        reveal_strlit("");
        assert(""@ =~= Seq::<char>::empty());
    }
    hasher.write(name.as_bytes());
    hasher.write(&[0xffu8]);
    let bytes = to_le_bytes(bucket);
    hasher.write(bytes.as_slice());
    assert(hasher@ =~~= seq![encode_utf8(name@), text_end(), le_bytes(bucket as nat, 8)]);
    (hasher.finish() as usize) % n
}

/// Chooses the protocol to answer with at the given time, in seconds since the
/// Unix epoch.
pub fn select_alpn_echo_at(
    client_alpn: &[Vec<u8>],
    sni: Option<&str>,
    profiles: &[Vec<String>],
    bucket_secs: u64,
    epoch_secs: u64,
) -> (res: Option<Vec<u8>>)
    ensures
        (match res {
            Some(protocol) => Some(protocol@),
            None => None,
        }) == alpn_choice(
            byte_views(client_alpn@),
            match sni {
                Some(name) => Some(name@),
                None => None,
            },
            profile_views(profiles@),
            time_bucket(epoch_secs, bucket_secs),
        ),
{
    if profiles.len() == 0 || client_alpn.len() == 0 {
        return None;
    }
    let bucket: u64 = if bucket_secs == 0 {
        0
    } else {
        epoch_secs / bucket_secs
    };
    let idx = find_profile(sni, bucket, profiles.len());
    let profile = &profiles[idx];
    let ghost client = byte_views(client_alpn@);
    let ghost protocols = protocol_bytes(profile@);
    assert(profile_views(profiles@)[idx as int] == protocols);
    let ghost choice = alpn_choice(
        client,
        match sni {
            Some(name) => Some(name@),
            None => None,
        },
        profile_views(profiles@),
        bucket,
    );
    let mut i: usize = 0;
    assert(protocols.skip(0) =~= protocols);
    while i < profile.len()
        invariant
            i <= profile.len(),
            client == byte_views(client_alpn@),
            protocols == protocol_bytes(profile@),
            choice == first_offered(protocols.skip(i as int), client),
            choice == alpn_choice(
                client,
                match sni {
                    Some(name) => Some(name@),
                    None => None,
                },
                profile_views(profiles@),
                time_bucket(epoch_secs, bucket_secs),
            ),
        decreases profile.len() - i,
    {
        let protocol = profile[i].as_str().as_bytes();
        assert(protocols.skip(i as int)[0] == protocol@);
        if offers(client_alpn, protocol) {
            return Some(copy_bytes(protocol));
        }
        assert(protocols.skip(i as int).drop_first() =~= protocols.skip(i + 1));
        i += 1;
    }
    None
}

/// Chooses the protocol to answer with now.
pub fn select_alpn_echo(
    client_alpn: &[Vec<u8>],
    sni: Option<&str>,
    profiles: &[Vec<String>],
    bucket_secs: u64,
) -> (res: Option<Vec<u8>>)
    ensures
        exists|epoch_secs: u64|
            (match res {
                Some(protocol) => Some(protocol@),
                None => None,
            }) == alpn_choice(
                byte_views(client_alpn@),
                match sni {
                    Some(name) => Some(name@),
                    None => None,
                },
                profile_views(profiles@),
                #[trigger] time_bucket(epoch_secs, bucket_secs),
            ),
{
    let epoch_secs = epoch_secs_now();
    select_alpn_echo_at(client_alpn, sni, profiles, bucket_secs, epoch_secs)
}

/// The first protocol offered is one of the profile and of the client, and no
/// earlier one of the profile is offered; there is none only if no protocol of
/// the profile is offered.
pub proof fn lemma_first_offered(profile: Seq<Seq<u8>>, client: Seq<Seq<u8>>)
    ensures
        match first_offered(profile, client) {
            Some(protocol) => {
                &&& client.contains(protocol)
                &&& exists|i: int|
                    {
                        &&& 0 <= i < profile.len()
                        &&& #[trigger] profile[i] == protocol
                        &&& forall|j: int| 0 <= j < i ==> !client.contains(#[trigger] profile[j])
                    }
            },
            None => forall|j: int|
                0 <= j < profile.len() ==> !client.contains(#[trigger] profile[j]),
        },
    decreases profile.len(),
{
    if profile.len() > 0 && !client.contains(profile[0]) {
        let rest = profile.drop_first();
        lemma_first_offered(rest, client);
        match first_offered(rest, client) {
            Some(protocol) => {
                let k = choose|k: int|
                    {
                        &&& 0 <= k < rest.len()
                        &&& #[trigger] rest[k] == protocol
                        &&& forall|j: int| 0 <= j < k ==> !client.contains(#[trigger] rest[j])
                    };
                assert(profile[k + 1] == protocol);
                assert forall|j: int| 0 <= j < k + 1 implies !client.contains(
                    #[trigger] profile[j],
                ) by {
                    if j > 0 {
                        assert(rest[j - 1] == profile[j]);
                    }
                }
            },
            None => {
                assert forall|j: int| 0 <= j < profile.len() implies !client.contains(
                    #[trigger] profile[j],
                ) by {
                    if j > 0 {
                        assert(rest[j - 1] == profile[j]);
                    }
                }
            },
        }
    }
}

/// The answer is a protocol that the client offers.
pub proof fn lemma_choice_is_offered(
    client: Seq<Seq<u8>>,
    sni: Option<Seq<char>>,
    profiles: Seq<Seq<Seq<u8>>>,
    bucket: u64,
)
    ensures
        alpn_choice(client, sni, profiles, bucket) matches Some(protocol) ==> client.contains(
            protocol,
        ),
{
    if profiles.len() > 0 && client.len() > 0 {
        lemma_first_offered(profiles[profile_index(sni, bucket, profiles.len()) as int], client);
    }
}

/// Within one time slice, and at all times with slices of no length, a server
/// name has one profile.
pub proof fn lemma_profile_is_stable(
    sni: Option<Seq<char>>,
    n: nat,
    bucket_secs: u64,
    first: u64,
    second: u64,
)
    requires
        bucket_secs == 0 || first / bucket_secs == second / bucket_secs,
    ensures
        profile_index(sni, time_bucket(first, bucket_secs), n) == profile_index(
            sni,
            time_bucket(second, bucket_secs),
            n,
        ),
{
}

/// A missing server name has the profile of the empty one.
pub proof fn lemma_missing_name_is_empty(bucket: u64, n: nat)
    ensures
        profile_index(None, bucket, n) == profile_index(Some(Seq::empty()), bucket, n),
{
}

} // verus!
