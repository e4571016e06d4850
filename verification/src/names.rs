//! The order of user names and of `(user, address)` pairs.

use vstd::prelude::*;
use vstd::string::*;
use vstd::utf8::{encode_utf8, encode_utf8_decode_utf8};

use crate::ip::IpAddr;
use crate::sorted_map::{strictly_sorted, MapKey};

verus! {

/// Strict lexicographic order of byte strings; a proper prefix comes first.
pub open spec fn bytes_before(a: Seq<u8>, b: Seq<u8>) -> bool
    decreases a.len(),
{
    if b.len() == 0 {
        false
    } else if a.len() == 0 {
        true
    } else if a[0] != b[0] {
        a[0] < b[0]
    } else {
        bytes_before(a.drop_first(), b.drop_first())
    }
}

/// Strict order of names: that of their UTF-8 bytes.
pub open spec fn name_before(a: Seq<char>, b: Seq<char>) -> bool {
    bytes_before(encode_utf8(a), encode_utf8(b))
}

pub proof fn lemma_bytes_irreflexive(a: Seq<u8>)
    ensures
        !bytes_before(a, a),
    decreases a.len(),
{
    if a.len() > 0 {
        lemma_bytes_irreflexive(a.drop_first());
    }
}

pub proof fn lemma_bytes_transitive(a: Seq<u8>, b: Seq<u8>, c: Seq<u8>)
    requires
        bytes_before(a, b),
        bytes_before(b, c),
    ensures
        bytes_before(a, c),
    decreases a.len(),
{
    if a.len() > 0 && a[0] == b[0] && b[0] == c[0] {
        lemma_bytes_transitive(a.drop_first(), b.drop_first(), c.drop_first());
    }
}

pub proof fn lemma_bytes_total(a: Seq<u8>, b: Seq<u8>)
    requires
        !bytes_before(a, b),
        !bytes_before(b, a),
    ensures
        a == b,
    decreases a.len(),
{
    if a.len() == 0 || b.len() == 0 {
        assert(a =~= b);
    } else {
        lemma_bytes_total(a.drop_first(), b.drop_first());
        assert(a =~= seq![a[0]] + a.drop_first());
        assert(b =~= seq![b[0]] + b.drop_first());
    }
}

/// The order goes by the first byte in which two strings differ, and a string comes
/// before those that it begins.
pub proof fn lemma_first_difference(a: Seq<u8>, b: Seq<u8>, k: int)
    requires
        0 <= k <= a.len(),
        k <= b.len(),
        forall|i: int| 0 <= i < k ==> #[trigger] a[i] == b[i],
    ensures
        k < a.len() && k < b.len() && a[k] != b[k] ==> (bytes_before(a, b) <==> a[k] < b[k]),
        k == a.len() ==> (bytes_before(a, b) <==> a.len() < b.len()),
        k == b.len() ==> !bytes_before(a, b),
    decreases k,
{
    if k > 0 {
        assert(a[0] == b[0]);
        assert forall|i: int| 0 <= i < k - 1 implies #[trigger] a.drop_first()[i]
            == b.drop_first()[i] by {
            assert(a[i + 1] == b[i + 1]);
        }
        lemma_first_difference(a.drop_first(), b.drop_first(), k - 1);
    }
}

/// Names are ordered by their UTF-8 bytes, and pairs by name and then by address,
/// all IPv4 addresses before all IPv6 addresses and else by value.
pub proof fn lemma_pair_order(a: (Seq<char>, IpAddr), b: (Seq<char>, IpAddr))
    ensures
        a.0 == b.0 ==> (pair_before(a, b) <==> match (a.1, b.1) {
            (IpAddr::V4(x), IpAddr::V4(y)) => x < y,
            (IpAddr::V4(_), IpAddr::V6(_)) => true,
            (IpAddr::V6(_), IpAddr::V4(_)) => false,
            (IpAddr::V6(x), IpAddr::V6(y)) => x < y,
        }),
        a.0 != b.0 ==> (pair_before(a, b) <==> bytes_before(encode_utf8(a.0), encode_utf8(b.0))),
        name_before(a.0, b.0) <==> bytes_before(encode_utf8(a.0), encode_utf8(b.0)),
{
    lemma_bytes_irreflexive(encode_utf8(a.0));
}

/// A sorted list of names is in the order of their UTF-8 bytes, and a sorted list
/// of addresses in the order of families and values; nothing occurs twice.
pub proof fn lemma_sorted_lists(names: Seq<Seq<char>>, ips: Seq<IpAddr>)
    ensures
        strictly_sorted::<String>(names) <==> forall|i: int, j: int|
            0 <= i < j < names.len() ==> bytes_before(
                encode_utf8(#[trigger] names[i]),
                encode_utf8(#[trigger] names[j]),
            ),
        strictly_sorted::<IpAddr>(ips) <==> forall|i: int, j: int|
            0 <= i < j < ips.len() ==> match (#[trigger] ips[i], #[trigger] ips[j]) {
                (IpAddr::V4(x), IpAddr::V4(y)) => x < y,
                (IpAddr::V4(_), IpAddr::V6(_)) => true,
                (IpAddr::V6(_), IpAddr::V4(_)) => false,
                (IpAddr::V6(x), IpAddr::V6(y)) => x < y,
            },
{
    if strictly_sorted::<String>(names) {
        assert forall|i: int, j: int| 0 <= i < j < names.len() implies bytes_before(
            encode_utf8(#[trigger] names[i]),
            encode_utf8(#[trigger] names[j]),
        ) by {
            assert(<String as MapKey>::precedes(names[i], names[j]));
        }
    }
    if strictly_sorted::<IpAddr>(ips) {
        assert forall|i: int, j: int| 0 <= i < j < ips.len() implies ips[i].before(ips[j]) by {
            assert(<IpAddr as MapKey>::precedes(ips[i], ips[j]));
        }
    }
}

/// Whether one byte string comes strictly before another.
pub fn is_bytes_before(a: &[u8], b: &[u8]) -> (res: bool)
    ensures
        res == bytes_before(a@, b@),
{
    let mut i: usize = 0;
    assert(a@.skip(0) =~= a@);
    assert(b@.skip(0) =~= b@);
    while i < a.len() && i < b.len()
        invariant
            i <= a.len(),
            i <= b.len(),
            bytes_before(a@, b@) == bytes_before(a@.skip(i as int), b@.skip(i as int)),
        decreases a.len() - i,
    {
        if a[i] != b[i] {
            return a[i] < b[i];
        }
        assert(a@.skip(i as int).drop_first() =~= a@.skip(i + 1));
        assert(b@.skip(i as int).drop_first() =~= b@.skip(i + 1));
        i += 1;
    }
    i < b.len()
}

impl MapKey for String {
    type Id = Seq<char>;

    open spec fn id(&self) -> Seq<char> {
        self@
    }

    open spec fn precedes(a: Seq<char>, b: Seq<char>) -> bool {
        name_before(a, b)
    }

    proof fn lemma_irreflexive(a: Seq<char>) {
        lemma_bytes_irreflexive(encode_utf8(a));
    }

    proof fn lemma_transitive(a: Seq<char>, b: Seq<char>, c: Seq<char>) {
        lemma_bytes_transitive(encode_utf8(a), encode_utf8(b), encode_utf8(c));
    }

    proof fn lemma_total(a: Seq<char>, b: Seq<char>) {
        lemma_bytes_total(encode_utf8(a), encode_utf8(b));
        encode_utf8_decode_utf8(a);
        encode_utf8_decode_utf8(b);
    }

    fn is_before(&self, other: &Self) -> (res: bool) {
        is_bytes_before(self.as_str().as_bytes(), other.as_str().as_bytes())
    }
}

impl MapKey for IpAddr {
    type Id = IpAddr;

    open spec fn id(&self) -> IpAddr {
        *self
    }

    open spec fn precedes(a: IpAddr, b: IpAddr) -> bool {
        a.before(b)
    }

    proof fn lemma_irreflexive(a: IpAddr) {
    }

    proof fn lemma_transitive(a: IpAddr, b: IpAddr, c: IpAddr) {
    }

    proof fn lemma_total(a: IpAddr, b: IpAddr) {
    }

    fn is_before(&self, other: &Self) -> (res: bool) {
        IpAddr::is_before(self, other)
    }
}

/// A user and one of its addresses.
pub struct Pair {
    pub user: String,
    pub ip: IpAddr,
}

/// Order of pairs: by user, then by address.
pub open spec fn pair_before(a: (Seq<char>, IpAddr), b: (Seq<char>, IpAddr)) -> bool {
    name_before(a.0, b.0) || (a.0 == b.0 && a.1.before(b.1))
}

impl MapKey for Pair {
    type Id = (Seq<char>, IpAddr);

    open spec fn id(&self) -> (Seq<char>, IpAddr) {
        (self.user@, self.ip)
    }

    open spec fn precedes(a: (Seq<char>, IpAddr), b: (Seq<char>, IpAddr)) -> bool {
        pair_before(a, b)
    }

    proof fn lemma_irreflexive(a: (Seq<char>, IpAddr)) {
        String::lemma_irreflexive(a.0);
    }

    proof fn lemma_transitive(
        a: (Seq<char>, IpAddr),
        b: (Seq<char>, IpAddr),
        c: (Seq<char>, IpAddr),
    ) {
        if name_before(a.0, b.0) && name_before(b.0, c.0) {
            String::lemma_transitive(a.0, b.0, c.0);
        }
    }

    proof fn lemma_total(a: (Seq<char>, IpAddr), b: (Seq<char>, IpAddr)) {
        String::lemma_total(a.0, b.0);
    }

    fn is_before(&self, other: &Self) -> (res: bool) {
        if self.user == other.user {
            proof {
                String::lemma_irreflexive(self.user@);
            }
            self.ip.is_before(&other.ip)
        } else {
            self.user.is_before(&other.user)
        }
    }
}

} // verus!
