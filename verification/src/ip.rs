//! Internet addresses as plain octets, and the bit strings that routing works on.

use vstd::prelude::*;

verus! {

/// An IPv4 or IPv6 address, held as its octets in network order.
#[derive(Clone, Copy, Debug, PartialEq, Eq)]
pub enum IpAddr {
    V4([u8; 4]),
    V6([u8; 16]),
}

/// An address and a port.
#[derive(Clone, Copy, Debug, PartialEq, Eq)]
pub struct SocketAddr {
    pub ip: IpAddr,
    pub port: u16,
}

/// A CIDR block as it is written: an address and the number of leading bits that count.
#[derive(Clone, Copy, Debug, PartialEq, Eq)]
pub struct AllowedIP {
    pub addr: IpAddr,
    pub cidr: u8,
}

impl AllowedIP {
    /// The block is no longer than its address.
    pub open spec fn valid(self) -> bool {
        self.cidr <= self.addr.width()
    }

    /// The block as routing sees it.
    pub open spec fn prefix(self) -> Prefix {
        self.addr.prefix(self.cidr as nat)
    }

    /// Whether the block is no longer than its address.
    pub fn is_valid(&self) -> (ok: bool)
        ensures
            ok == self.valid(),
    {
        self.cidr <= self.addr.bit_width()
    }
}

impl SocketAddr {
    /// Whether two socket addresses have the same address and port.
    pub fn same(&self, other: &SocketAddr) -> (b: bool)
        ensures
            b == (*self == *other),
    {
        self.port == other.port && self.ip.same(&other.ip)
    }
}

/// The blocks that a list of allowed IPs names.
pub open spec fn blocks_of(list: Seq<AllowedIP>) -> Set<Prefix> {
    Set::new(|p: Prefix| exists|i: int| 0 <= i < list.len() && (#[trigger] list[i]).prefix() == p)
}

/// A CIDR block as routing sees it: the address family and the leading bits.
pub struct Prefix {
    pub v6: bool,
    pub bits: Seq<bool>,
}

/// Whether one bit string stands before another in the order of the
/// routing table: a string before those that begin with it, and where two
/// strings part, the one with the 0 first.
pub open spec fn bits_before(a: Seq<bool>, b: Seq<bool>) -> bool {
    exists|k: int|
        0 <= k <= a.len() && k <= b.len() && #[trigger] a.take(k) == b.take(k) && ((k == a.len()
            && k < b.len()) || (k < a.len() && k < b.len() && !a[k] && b[k]))
}

impl Prefix {
    /// Whether this block stands before another in the order of the routing
    /// table: IPv4 before IPv6, a block before the blocks inside it, and of
    /// two blocks apart from each other the one with the lower addresses first.
    pub open spec fn precedes(self, other: Prefix) -> bool {
        (!self.v6 && other.v6) || (self.v6 == other.v6 && bits_before(self.bits, other.bits))
    }

    /// Whether the address lies inside the block.
    pub open spec fn covers(self, addr: IpAddr) -> bool {
        self.v6 == addr.is_v6() && self.bits.len() <= addr.width() && self.bits
            == addr.bits().take(self.bits.len() as int)
    }
}

/// Bit `i` of a byte string, counted from the most significant bit of the first byte.
pub open spec fn bit_of(octets: Seq<u8>, i: int) -> bool {
    (octets[i / 8] >> ((7 - i % 8) as u8)) & 1u8 == 1u8
}

impl IpAddr {
    /// Whether this is an IPv6 address.
    pub open spec fn is_v6(self) -> bool {
        self is V6
    }

    /// The octets of the address, 4 or 16 of them.
    pub open spec fn octets(self) -> Seq<u8> {
        match self {
            IpAddr::V4(o) => o@,
            IpAddr::V6(o) => o@,
        }
    }

    /// The number of bits of the address: 32 or 128.
    pub open spec fn width(self) -> nat {
        match self {
            IpAddr::V4(_) => 32,
            IpAddr::V6(_) => 128,
        }
    }

    /// The bits of the address, most significant first.
    pub open spec fn bits(self) -> Seq<bool> {
        Seq::new(self.width(), |i: int| bit_of(self.octets(), i))
    }

    /// The block made of the first `len` bits of the address.
    pub open spec fn prefix(self, len: nat) -> Prefix {
        Prefix { v6: self.is_v6(), bits: self.bits().take(len as int) }
    }

    /// Whether every bit of the address from bit `len` on is zero, so that the
    /// address is the network address of its block of `len` bits.
    pub open spec fn is_network(self, len: nat) -> bool {
        forall|i: int| len <= i < self.width() ==> !#[trigger] self.bits()[i]
    }

    /// The number of bits of the address.
    pub fn bit_width(&self) -> (w: u8)
        ensures
            w == self.width(),
    {
        match self {
            IpAddr::V4(_) => 32,
            IpAddr::V6(_) => 128,
        }
    }

    /// Bit `i` of the address, the most significant being bit 0.
    pub fn bit(&self, i: u8) -> (b: bool)
        requires
            i < self.width(),
        ensures
            b == self.bits()[i as int],
    {
        let k: usize = (i / 8) as usize;
        let r: u8 = 7 - i % 8;
        let byte: u8 = match self {
            IpAddr::V4(o) => o[k],
            IpAddr::V6(o) => o[k],
        };
        (byte >> r) & 1u8 == 1u8
    }

    /// Whether two addresses are of one family and have the same octets.
    pub fn same(&self, other: &IpAddr) -> (b: bool)
        ensures
            b == (*self == *other),
    {
        match (self, other) {
            (IpAddr::V4(a), IpAddr::V4(b)) => same_octets(a, b),
            (IpAddr::V6(a), IpAddr::V6(b)) => same_octets(a, b),
            _ => false,
        }
    }
}

proof fn lemma_set_bit(x: u8, r: u8, j: u8)
    requires
        r < 8,
        j < 8,
    ensures
        (((x | (0x80u8 >> r)) >> ((7 - j) as u8)) & 1u8 == 1u8) == (j == r || ((x >> ((7
            - j) as u8)) & 1u8 == 1u8)),
{
    let s: u8 = (7 - j) as u8;
    assert((((x | (0x80u8 >> r)) >> s) & 1u8 == 1u8) == (j == r || ((x >> s) & 1u8 == 1u8)))
        by (bit_vector)
        requires
            r < 8,
            j < 8,
            s == 7 - j,
    ;
}

/// Sixteen octets with bit `d` set and the others as they were.
pub fn with_bit(buf: [u8; 16], d: u8) -> (out: [u8; 16])
    requires
        d < 128,
    ensures
        forall|i: int| 0 <= i < 128 ==> #[trigger] bit_of(out@, i) == (i == d || bit_of(buf@, i)),
{
    let k: usize = (d / 8) as usize;
    let r: u8 = d % 8;
    let mut out = buf;
    out[k] = buf[k] | (0x80u8 >> r);
    proof {
        assert forall|i: int| 0 <= i < 128 implies #[trigger] bit_of(out@, i) == (i == d || bit_of(
            buf@,
            i,
        )) by {
            if i / 8 == k as int {
                lemma_set_bit(buf@[k as int], r, (i % 8) as u8);
            }
        }
    }
    out
}

/// The address of the given family whose octets are the first of `buf`.
pub fn address_of(v6: bool, buf: &[u8; 16]) -> (a: IpAddr)
    ensures
        a.is_v6() == v6,
        forall|i: int| 0 <= i < a.width() ==> #[trigger] a.bits()[i] == bit_of(buf@, i),
{
    if v6 {
        IpAddr::V6(*buf)
    } else {
        IpAddr::V4([buf[0], buf[1], buf[2], buf[3]])
    }
}

/// Whether two byte arrays of one length hold the same bytes.
pub fn same_octets<const N: usize>(a: &[u8; N], b: &[u8; N]) -> (eq: bool)
    ensures
        eq == (*a == *b),
{
    let mut i: usize = 0;
    while i < N
        invariant
            i <= N,
            forall|j: int| 0 <= j < i ==> a@[j] == b@[j],
        decreases N - i,
    {
        if a[i] != b[i] {
            return false;
        }
        i += 1;
    }
    assert(*a =~= *b);
    true
}

} // verus!
