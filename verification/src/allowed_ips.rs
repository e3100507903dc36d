//! The routing table: a binary trie per address family that maps CIDR blocks to
//! values and answers longest-prefix-match lookups.

use crate::ip::{address_of, bit_of, bits_before, with_bit, IpAddr, Prefix};
use vstd::prelude::*;

verus! {

struct Node<V> {
    value: Option<V>,
    zero: Option<Box<Node<V>>>,
    one: Option<Box<Node<V>>>,
}

type Tree<V> = Option<Box<Node<V>>>;

impl<V> Node<V> {
    spec fn child(self, b: bool) -> Tree<V> {
        if b {
            self.one
        } else {
            self.zero
        }
    }

    spec fn is_bare(self) -> bool {
        self.value is None && self.zero is None && self.one is None
    }
}

/// The value that a tree holds under a key, the key read from the tree's root.
spec fn lookup<V>(tree: Tree<V>, k: Seq<bool>) -> Option<V>
    decreases k.len(),
{
    match tree {
        None => None,
        Some(n) => if k.len() == 0 {
            n.value
        } else {
            lookup(n.child(k[0]), k.drop_first())
        },
    }
}

/// No node of the tree lies deeper than `h` below its root.
spec fn fits<V>(tree: Tree<V>, h: nat) -> bool
    decreases h,
{
    match tree {
        None => true,
        Some(n) => if h == 0 {
            n.zero is None && n.one is None
        } else {
            fits(n.zero, (h - 1) as nat) && fits(n.one, (h - 1) as nat)
        },
    }
}

proof fn lemma_skip_step(key: Seq<bool>, d: int, k: Seq<bool>)
    requires
        0 <= d < key.len(),
    ensures
        (k == key.skip(d)) <==> (k.len() > 0 && k[0] == key[d] && k.drop_first() == key.skip(
            d + 1,
        )),
{
    if k.len() > 0 && k[0] == key[d] && k.drop_first() == key.skip(d + 1) {
        assert forall|i: int| 0 <= i < k.len() implies k[i] == key.skip(d)[i] by {
            if i > 0 {
                assert(k.drop_first()[i - 1] == k[i]);
                assert(key.skip(d + 1)[i - 1] == key[d + i]);
            }
        }
        assert(k.len() == k.drop_first().len() + 1);
        assert(k =~= key.skip(d));
    }
    if k == key.skip(d) {
        assert(k.drop_first() =~= key.skip(d + 1));
    }
}

proof fn lemma_fits_deeper<V>(tree: Tree<V>, h: nat, k: Seq<bool>)
    requires
        fits(tree, h),
        k.len() > h,
    ensures
        lookup(tree, k) is None,
    decreases h,
{
    match tree {
        None => {},
        Some(n) => {
            if h > 0 {
                lemma_fits_deeper(n.child(k[0]), (h - 1) as nat, k.drop_first());
            } else {
                assert(lookup(n.child(k[0]), k.drop_first()) is None);
            }
        },
    }
}

proof fn lemma_bare<V>(n: Node<V>, k: Seq<bool>)
    requires
        n.is_bare(),
    ensures
        lookup(Some(Box::new(n)), k) is None,
{
    if k.len() > 0 {
        assert(lookup(n.child(k[0]), k.drop_first()) is None);
    }
}

impl<V> Node<V> {
    fn bare() -> (n: Node<V>)
        ensures
            n.is_bare(),
    {
        Node { value: None, zero: None, one: None }
    }

    #[verifier::rlimit(40)]
    fn put(&mut self, addr: &IpAddr, len: u8, d: u8, v: V)
        requires
            d <= len <= addr.width(),
            fits(Some(Box::new(*old(self))), (addr.width() - d) as nat),
        ensures
            fits(Some(Box::new(*final(self))), (addr.width() - d) as nat),
            forall|k: Seq<bool>|
                lookup(Some(Box::new(*final(self))), k) == if k == addr.bits().take(
                    len as int,
                ).skip(d as int) {
                    Some(v)
                } else {
                    lookup(Some(Box::new(*old(self))), k)
                },
        decreases len - d, 0nat,
    {
        let ghost key = addr.bits().take(len as int);
        let ghost before = *self;
        if d == len {
            self.value = Some(v);
            assert forall|k: Seq<bool>|
                lookup(Some(Box::new(*self)), k) == if k == key.skip(d as int) {
                    Some(v)
                } else {
                    lookup(Some(Box::new(before)), k)
                } by {
                if k.len() == 0 {
                    assert(k =~= key.skip(d as int));
                }
            }
        } else {
            let b = addr.bit(d);
            assert(key[d as int] == b);
            if b {
                put_into(&mut self.one, addr, len, d + 1, v);
            } else {
                put_into(&mut self.zero, addr, len, d + 1, v);
            }
            assert forall|k: Seq<bool>|
                lookup(Some(Box::new(*self)), k) == if k == key.skip(d as int) {
                    Some(v)
                } else {
                    lookup(Some(Box::new(before)), k)
                } by {
                lemma_skip_step(key, d as int, k);
                if k.len() > 0 {
                    let rest = k.drop_first();
                    if k[0] == b {
                        assert(lookup(self.child(b), rest) == if rest == key.skip(d + 1) {
                            Some(v)
                        } else {
                            lookup(before.child(b), rest)
                        });
                    } else {
                        assert(self.child(k[0]) == before.child(k[0]));
                    }
                }
            }
        }
    }
}

fn put_into<V>(tree: &mut Tree<V>, addr: &IpAddr, len: u8, d: u8, v: V)
    requires
        d <= len <= addr.width(),
        fits(*old(tree), (addr.width() - d) as nat),
    ensures
        fits(*final(tree), (addr.width() - d) as nat),
        forall|k: Seq<bool>|
            lookup(*final(tree), k) == if k == addr.bits().take(len as int).skip(d as int) {
                Some(v)
            } else {
                lookup(*old(tree), k)
            },
    decreases len - d, 1nat,
{
    let mut node = match tree.take() {
        Some(n) => n,
        None => Box::new(Node::bare()),
    };
    assert forall|k: Seq<bool>| lookup(Some(node), k) == lookup(*old(tree), k) by {
        if *old(tree) is None {
            lemma_bare(*node, k);
        }
    }
    assert(fits(Some(node), (addr.width() - d) as nat)) by {
        if *old(tree) is None {
            assert(fits(node.zero, (addr.width() - d - 1) as nat));
            assert(fits(node.one, (addr.width() - d - 1) as nat));
        }
    }
    (&mut *node).put(addr, len, d, v);
    *tree = Some(node);
}

/// What a sweep by `f` may make of one entry: it stays where `f` said no and
/// leaves where `f` said yes.
spec fn swept<V, F: Fn(&V) -> bool>(before: Option<V>, after: Option<V>, f: F) -> bool {
    match before {
        None => after is None,
        Some(v) => (after == Some(v) && f.ensures((&v,), false)) || (after is None && f.ensures(
            (&v,),
            true,
        )),
    }
}

impl<V> Node<V> {
    fn sweep<F: Fn(&V) -> bool>(&mut self, f: &F, Ghost(h): Ghost<nat>)
        requires
            forall|v: V| #[trigger] f.requires((&v,)),
            fits(Some(Box::new(*old(self))), h),
        ensures
            fits(Some(Box::new(*final(self))), h),
            forall|k: Seq<bool>|
                swept(
                    lookup(Some(Box::new(*old(self))), k),
                    #[trigger] lookup(Some(Box::new(*final(self))), k),
                    *f,
                ),
        decreases *old(self),
    {
        let ghost before = *self;
        let drop_it = match &self.value {
            Some(v) => f(v),
            None => false,
        };
        if drop_it {
            self.value = None;
        }
        sweep_tree(&mut self.zero, f, Ghost((h - 1) as nat));
        sweep_tree(&mut self.one, f, Ghost((h - 1) as nat));
        proof {
            assert forall|k: Seq<bool>|
                swept(
                    lookup(Some(Box::new(before)), k),
                    #[trigger] lookup(Some(Box::new(*self)), k),
                    *f,
                ) by {
                if k.len() > 0 {
                    let rest = k.drop_first();
                    assert(swept(
                        lookup(before.child(k[0]), rest),
                        lookup(self.child(k[0]), rest),
                        *f,
                    ));
                }
            }
        }
    }

    fn has_nothing(&self) -> (bare: bool)
        ensures
            bare == self.is_bare(),
    {
        self.value.is_none() && self.zero.is_none() && self.one.is_none()
    }
}

fn sweep_tree<V, F: Fn(&V) -> bool>(tree: &mut Tree<V>, f: &F, Ghost(h): Ghost<nat>)
    requires
        forall|v: V| #[trigger] f.requires((&v,)),
        fits(*old(tree), h),
    ensures
        fits(*final(tree), h),
        *old(tree) is None ==> *final(tree) is None,
        forall|k: Seq<bool>| swept(lookup(*old(tree), k), #[trigger] lookup(*final(tree), k), *f),
    decreases *old(tree),
{
    match tree.take() {
        None => {},
        Some(mut node) => {
            (&mut *node).sweep(f, Ghost(h));
            if node.has_nothing() {
                assert forall|k: Seq<bool>|
                    swept(lookup(*old(tree), k), #[trigger] lookup(*tree, k), *f) by {
                    lemma_bare(*node, k);
                    assert(swept(lookup(*old(tree), k), lookup(Some(node), k), *f));
                }
            } else {
                *tree = Some(node);
            }
        },
    }
}

spec fn own<V>(value: Option<V>, path: Seq<bool>) -> Seq<(Seq<bool>, V)> {
    match value {
        Some(v) => seq![(path, v)],
        None => Seq::empty(),
    }
}

/// The entries of a tree in depth-first order, each key with `path` before it.
spec fn entries<V>(tree: Tree<V>, path: Seq<bool>) -> Seq<(Seq<bool>, V)>
    decreases tree,
{
    match tree {
        None => Seq::empty(),
        Some(n) => own(n.value, path) + entries(n.zero, path.push(false)) + entries(
            n.one,
            path.push(true),
        ),
    }
}

/// Every listed entry lies below `path` and is an entry of the tree.
proof fn lemma_entries_sound<V>(tree: Tree<V>, path: Seq<bool>, i: int)
    requires
        0 <= i < entries(tree, path).len(),
    ensures
        entries(tree, path)[i].0.len() >= path.len(),
        entries(tree, path)[i].0.take(path.len() as int) == path,
        lookup(tree, entries(tree, path)[i].0.skip(path.len() as int)) == Some(
            entries(tree, path)[i].1,
        ),
        tree is Some && i < own(tree.unwrap().value, path).len() ==> entries(
            tree,
            path,
        )[i].0.len() == path.len(),
        tree is Some && i >= own(tree.unwrap().value, path).len() ==> entries(
            tree,
            path,
        )[i].0.len() > path.len() && entries(tree, path)[i].0[path.len() as int] == (i >= own(
            tree.unwrap().value,
            path,
        ).len() + entries(tree.unwrap().zero, path.push(false)).len()),
    decreases tree,
{
    let n = tree.unwrap();
    let e = entries(tree, path)[i];
    let a = own(n.value, path);
    let z = entries(n.zero, path.push(false));
    let o = entries(n.one, path.push(true));
    let len = path.len() as int;
    if i < a.len() {
        assert(e.0 == path);
        assert(e.0.take(len) =~= path);
        assert(e.0.skip(len).len() == 0);
    } else {
        let b = i >= a.len() + z.len();
        if b {
            assert(e == o[i - a.len() - z.len()]);
            lemma_entries_sound(n.one, path.push(true), i - a.len() - z.len());
        } else {
            assert(e == z[i - a.len()]);
            lemma_entries_sound(n.zero, path.push(false), i - a.len());
        }
        assert(e.0.take(len + 1) == path.push(b));
        assert(e.0[len] == e.0.take(len + 1)[len]);
        assert(e.0.take(len) =~= e.0.take(len + 1).take(len));
        assert(path.push(b).take(len) =~= path);
        let k = e.0.skip(len);
        assert(k[0] == b);
        assert(k.drop_first() =~= e.0.skip(len + 1));
    }
}

/// Every entry of the tree is listed; the result is its place in the list.
proof fn lemma_entries_complete<V>(tree: Tree<V>, path: Seq<bool>, k: Seq<bool>) -> (i: int)
    requires
        lookup(tree, k) is Some,
    ensures
        0 <= i < entries(tree, path).len(),
        entries(tree, path)[i] == (path + k, lookup(tree, k).unwrap()),
    decreases tree,
{
    let n = tree.unwrap();
    let a = own(n.value, path);
    let z = entries(n.zero, path.push(false));
    if k.len() == 0 {
        assert(path + k =~= path);
        0
    } else {
        let rest = k.drop_first();
        assert(path.push(k[0]) + rest =~= path + k);
        if k[0] {
            let j = lemma_entries_complete(n.one, path.push(true), rest);
            a.len() + z.len() + j
        } else {
            let j = lemma_entries_complete(n.zero, path.push(false), rest);
            a.len() + j
        }
    }
}

/// The keys are listed in their order.
proof fn lemma_entries_sorted<V>(tree: Tree<V>, path: Seq<bool>, i: int, j: int)
    requires
        0 <= i < j < entries(tree, path).len(),
    ensures
        bits_before(entries(tree, path)[i].0, entries(tree, path)[j].0),
    decreases tree,
{
    let n = tree.unwrap();
    let a = own(n.value, path);
    let z = entries(n.zero, path.push(false));
    let ei = entries(tree, path)[i].0;
    let ej = entries(tree, path)[j].0;
    let len = path.len() as int;
    lemma_entries_sound(tree, path, i);
    lemma_entries_sound(tree, path, j);
    if i < a.len() {
        assert(ei.take(len) == ej.take(len));
    } else if i >= a.len() + z.len() {
        lemma_entries_sorted(n.one, path.push(true), i - a.len() - z.len(), j - a.len() - z.len());
    } else if j < a.len() + z.len() {
        lemma_entries_sorted(n.zero, path.push(false), i - a.len(), j - a.len());
    } else {
        assert(ei.take(len) == ej.take(len));
    }
}

/// No key is listed twice.
proof fn lemma_entries_distinct<V>(tree: Tree<V>, path: Seq<bool>, i: int, j: int)
    requires
        0 <= i < j < entries(tree, path).len(),
    ensures
        entries(tree, path)[i].0 != entries(tree, path)[j].0,
    decreases tree,
{
    let n = tree.unwrap();
    let a = own(n.value, path);
    let z = entries(n.zero, path.push(false));
    lemma_entries_sound(tree, path, i);
    lemma_entries_sound(tree, path, j);
    if i >= a.len() {
        if i >= a.len() + z.len() {
            lemma_entries_distinct(n.one, path.push(true), i - a.len() - z.len(), j - a.len() - z.len());
        } else if j < a.len() + z.len() {
            lemma_entries_distinct(n.zero, path.push(false), i - a.len(), j - a.len());
        }
    }
}

/// The number of address bits of a family.
spec fn family_width(v6: bool) -> nat {
    if v6 {
        128
    } else {
        32
    }
}

/// The key and value that a listed item stands for.
spec fn item_entry<V>(item: (IpAddr, u8, V)) -> (Seq<bool>, V) {
    (item.0.bits().take(item.1 as int), item.2)
}

/// A listed item names a block of its family by the block's network address.
spec fn item_ok<V>(item: (IpAddr, u8, V), v6: bool) -> bool {
    item.0.is_v6() == v6 && item.1 <= item.0.width() && item.0.is_network(item.1 as nat)
}

#[verifier::rlimit(40)]
fn walk<V: Copy>(
    tree: &Tree<V>,
    v6: bool,
    buf: [u8; 16],
    d: u8,
    out: &mut Vec<(IpAddr, u8, V)>,
    Ghost(path): Ghost<Seq<bool>>,
)
    requires
        d <= family_width(v6),
        fits(*tree, (family_width(v6) - d) as nat),
        path.len() == d,
        forall|i: int| 0 <= i < d ==> bit_of(buf@, i) == path[i],
        forall|i: int| d <= i < 128 ==> !bit_of(buf@, i),
    ensures
        final(out)@.len() == old(out)@.len() + entries(*tree, path).len(),
        forall|i: int| 0 <= i < old(out)@.len() ==> final(out)@[i] == old(out)@[i],
        forall|i: int|
            0 <= i < entries(*tree, path).len() ==> item_entry(
                #[trigger] final(out)@[old(out)@.len() + i],
            ) == entries(*tree, path)[i] && item_ok(final(out)@[old(out)@.len() + i], v6),
    decreases *tree,
{
    match tree {
        None => {},
        Some(node) => {
            let ghost base = out@.len();
            let ghost a = own(node.value, path);
            let ghost z = entries(node.zero, path.push(false));
            let ghost o = entries(node.one, path.push(true));
            match &node.value {
                Some(v) => {
                    let addr = address_of(v6, &buf);
                    out.push((addr, d, *v));
                    assert(addr.bits().take(d as int) =~= path);
                },
                None => {},
            }
            let w: u8 = if v6 {
                128
            } else {
                32
            };
            if d < w {
                walk(&node.zero, v6, buf, d + 1, out, Ghost(path.push(false)));
                let set = with_bit(buf, d);
                walk(&node.one, v6, set, d + 1, out, Ghost(path.push(true)));
            }
            proof {
                assert forall|i: int| 0 <= i < entries(*tree, path).len() implies item_entry(
                    #[trigger] out@[base + i],
                ) == entries(*tree, path)[i] && item_ok(out@[base + i], v6) by {
                    if i < a.len() {
                    } else if i < a.len() + z.len() {
                        assert(out@[base + i] == out@[base + a.len() + (i - a.len())]);
                    } else {
                        assert(out@[base + i] == out@[base + a.len() + z.len() + (i - a.len()
                            - z.len())]);
                    }
                }
            }
        },
    }
}

/// The length of the longest block of at most `n` bits that covers the address
/// and has an entry in the table.
pub open spec fn match_len<V>(table: Map<Prefix, V>, addr: IpAddr, n: nat) -> Option<nat>
    decreases n,
{
    if table.contains_key(addr.prefix(n)) {
        Some(n)
    } else if n == 0 {
        None
    } else {
        match_len(table, addr, (n - 1) as nat)
    }
}

/// Where the table sends an address: the value at the longest block that covers it.
pub open spec fn route<V>(table: Map<Prefix, V>, addr: IpAddr) -> Option<V> {
    match match_len(table, addr, addr.width()) {
        Some(n) => Some(table[addr.prefix(n)]),
        None => None,
    }
}

proof fn lemma_match_len<V>(table: Map<Prefix, V>, addr: IpAddr, n: nat)
    ensures
        match match_len(table, addr, n) {
            Some(j) => j <= n && table.contains_key(addr.prefix(j)) && forall|k: nat|
                j < k <= n ==> !table.contains_key(#[trigger] addr.prefix(k)),
            None => forall|k: nat| k <= n ==> !table.contains_key(#[trigger] addr.prefix(k)),
        },
    decreases n,
{
    if !table.contains_key(addr.prefix(n)) && n > 0 {
        lemma_match_len(table, addr, (n - 1) as nat);
    }
}

/// Longest-prefix match: `route` gives the value of a block that covers the
/// address and is at least as long as every other block of the table that covers
/// it, and gives nothing exactly when no block of the table covers it.
pub proof fn lemma_route_longest_prefix<V>(table: Map<Prefix, V>, addr: IpAddr)
    ensures
        match route(table, addr) {
            Some(v) => exists|p: Prefix|
                table.contains_key(p) && p.covers(addr) && table[p] == v && forall|q: Prefix|
                    table.contains_key(q) && #[trigger] q.covers(addr) ==> q.bits.len()
                        <= p.bits.len(),
            None => forall|q: Prefix| table.contains_key(q) ==> !#[trigger] q.covers(addr),
        },
{
    let w = addr.width();
    lemma_match_len(table, addr, w);
    assert forall|q: Prefix| #[trigger] q.covers(addr) implies q == addr.prefix(q.bits.len()) by {}
    match match_len(table, addr, w) {
        Some(n) => {
            let p = addr.prefix(n);
            assert(p.bits.len() == n);
            assert(p.covers(addr));
            assert forall|q: Prefix| table.contains_key(q) && #[trigger] q.covers(addr) implies
                q.bits.len() <= p.bits.len() by {
                let k = q.bits.len();
                assert(q == addr.prefix(k));
            }
        },
        None => {
            assert forall|q: Prefix| table.contains_key(q) implies !#[trigger] q.covers(addr) by {
                if q.covers(addr) {
                    let k = q.bits.len();
                    assert(q == addr.prefix(k));
                }
            }
        },
    }
}

/// A routing table from CIDR blocks to values, IPv4 and IPv6 side by side.
pub struct AllowedIps<V> {
    v4: Tree<V>,
    v6: Tree<V>,
}

impl<V> View for AllowedIps<V> {
    type V = Map<Prefix, V>;

    closed spec fn view(&self) -> Map<Prefix, V> {
        Map::new(|p: Prefix| self.get(p) is Some, |p: Prefix| self.get(p).unwrap())
    }
}

impl<V> AllowedIps<V> {
    spec fn family(self, v6: bool) -> Tree<V> {
        if v6 {
            self.v6
        } else {
            self.v4
        }
    }

    spec fn get(self, p: Prefix) -> Option<V> {
        lookup(self.family(p.v6), p.bits)
    }

    /// The table's invariant: no block is longer than its family's addresses.
    pub closed spec fn wf(self) -> bool {
        fits(self.v4, 32) && fits(self.v6, 128)
    }

    /// The blocks of a well-formed table have at most 32 bits for IPv4 and 128 for IPv6.
    pub proof fn lemma_block_lengths(self, p: Prefix)
        requires
            self.wf(),
            self@.contains_key(p),
        ensures
            p.bits.len() <= if p.v6 {
                128nat
            } else {
                32nat
            },
    {
        if p.v6 {
            if p.bits.len() > 128 {
                lemma_fits_deeper(self.v6, 128, p.bits);
            }
        } else {
            if p.bits.len() > 32 {
                lemma_fits_deeper(self.v4, 32, p.bits);
            }
        }
    }

    /// An empty table.
    pub fn new() -> (table: Self)
        ensures
            table.wf(),
            table@ == Map::<Prefix, V>::empty(),
    {
        let table = AllowedIps { v4: None, v6: None };
        assert(table@ =~= Map::<Prefix, V>::empty());
        table
    }

    /// Removes every entry.
    pub fn clear(&mut self)
        ensures
            final(self).wf(),
            final(self)@ == Map::<Prefix, V>::empty(),
    {
        self.v4 = None;
        self.v6 = None;
        assert(self@ =~= Map::<Prefix, V>::empty());
    }

    /// Sets the value of the block made of the first `cidr` bits of `addr`,
    /// whether or not the block had one.
    pub fn insert(&mut self, addr: IpAddr, cidr: u8, value: V)
        requires
            old(self).wf(),
            cidr <= addr.width(),
        ensures
            final(self).wf(),
            final(self)@ == old(self)@.insert(addr.prefix(cidr as nat), value),
    {
        match addr {
            IpAddr::V4(_) => put_into(&mut self.v4, &addr, cidr, 0, value),
            IpAddr::V6(_) => put_into(&mut self.v6, &addr, cidr, 0, value),
        }
        proof {
            let key = addr.bits().take(cidr as int);
            assert(key.skip(0) =~= key);
            assert forall|p: Prefix| self.get(p) == if p == addr.prefix(cidr as nat) {
                Some(value)
            } else {
                old(self).get(p)
            } by {}
            assert(self@ =~= old(self)@.insert(addr.prefix(cidr as nat), value));
        }
    }

    /// Removes every entry whose value `f` accepts, and keeps the others as they are.
    pub fn remove<F: Fn(&V) -> bool>(&mut self, f: &F)
        requires
            old(self).wf(),
            forall|v: V| #[trigger] f.requires((&v,)),
        ensures
            final(self).wf(),
            forall|p: Prefix| #[trigger]
                final(self)@.contains_key(p) ==> old(self)@.contains_key(p) && final(self)@[p]
                    == old(self)@[p] && f.ensures((&old(self)@[p],), false),
            forall|p: Prefix|
                old(self)@.contains_key(p) && !(#[trigger] final(self)@.contains_key(p))
                    ==> f.ensures((&old(self)@[p],), true),
    {
        sweep_tree(&mut self.v4, f, Ghost(32));
        sweep_tree(&mut self.v6, f, Ghost(128));
        proof {
            assert forall|p: Prefix| swept(old(self).get(p), #[trigger] self.get(p), *f) by {
                assert(swept(
                    lookup(old(self).family(p.v6), p.bits),
                    lookup(self.family(p.v6), p.bits),
                    *f,
                ));
            }
            assert forall|p: Prefix| #[trigger] self@.contains_key(p) implies old(
                self,
            )@.contains_key(p) && self@[p] == old(self)@[p] && f.ensures(
                (&old(self)@[p],),
                false,
            ) by {
                assert(swept(old(self).get(p), self.get(p), *f));
            }
            assert forall|p: Prefix|
                old(self)@.contains_key(p) && !(#[trigger] self@.contains_key(p)) implies f.ensures(
                (&old(self)@[p],),
                true,
            ) by {
                assert(swept(old(self).get(p), self.get(p), *f));
            }
        }
    }

    /// The entries of the table, each once and in the order of the blocks:
    /// the network address of a block, the block's length and its value.
    #[verifier::rlimit(40)]
    pub fn iter(&self) -> (items: Vec<(IpAddr, u8, V)>) where V: Copy
        requires
            self.wf(),
        ensures
            forall|i: int|
                0 <= i < items@.len() ==> {
                    let (addr, cidr, value) = #[trigger] items@[i];
                    &&& cidr <= addr.width()
                    &&& addr.is_network(cidr as nat)
                    &&& self@.contains_key(addr.prefix(cidr as nat))
                    &&& self@[addr.prefix(cidr as nat)] == value
                },
            forall|p: Prefix|
                self@.contains_key(p) ==> exists|i: int|
                    0 <= i < items@.len() && (#[trigger] items@[i]).0.prefix(items@[i].1 as nat)
                        == p,
            forall|i: int, j: int|
                0 <= i < j < items@.len() ==> (#[trigger] items@[i]).0.prefix(items@[i].1 as nat)
                    != (#[trigger] items@[j]).0.prefix(items@[j].1 as nat),
            forall|i: int, j: int|
                0 <= i < j < items@.len() ==> (#[trigger] items@[i]).0.prefix(
                    items@[i].1 as nat,
                ).precedes((#[trigger] items@[j]).0.prefix(items@[j].1 as nat)),
    {
        let mut items: Vec<(IpAddr, u8, V)> = Vec::new();
        let zero: [u8; 16] = [0, 0, 0, 0, 0, 0, 0, 0, 0, 0, 0, 0, 0, 0, 0, 0];
        let ghost root = Seq::<bool>::empty();
        assert forall|i: int| 0 <= i < 128 implies !bit_of(zero@, i) by {
            let s: u8 = (7 - i % 8) as u8;
            assert((0u8 >> s) & 1u8 != 1u8) by (bit_vector);
        }
        walk(&self.v4, false, zero, 0, &mut items, Ghost(root));
        let ghost n4 = items@.len() as int;
        walk(&self.v6, true, zero, 0, &mut items, Ghost(root));
        proof {
            let e4 = entries(self.v4, root);
            let e6 = entries(self.v6, root);
            assert forall|i: int| 0 <= i < items@.len() implies {
                let v6 = i >= n4;
                let e = if v6 {
                    e6[i - n4]
                } else {
                    e4[i]
                };
                &&& item_entry(#[trigger] items@[i]) == e
                &&& item_ok(items@[i], v6)
                &&& lookup(self.family(v6), e.0) == Some(e.1)
            } by {
                if i >= n4 {
                    assert(items@[i] == items@[n4 + (i - n4)]);
                    lemma_entries_sound(self.v6, root, i - n4);
                    assert(e6[i - n4].0.skip(0) =~= e6[i - n4].0);
                } else {
                    assert(items@[i] == items@[0 + i]);
                    lemma_entries_sound(self.v4, root, i);
                    assert(e4[i].0.skip(0) =~= e4[i].0);
                }
            }
            assert forall|i: int| 0 <= i < items@.len() implies {
                let (addr, cidr, value) = #[trigger] items@[i];
                &&& cidr <= addr.width()
                &&& addr.is_network(cidr as nat)
                &&& self@.contains_key(addr.prefix(cidr as nat))
                &&& self@[addr.prefix(cidr as nat)] == value
            } by {
                let it = items@[i];
                assert(item_ok(it, i >= n4));
                assert(self.get(it.0.prefix(it.1 as nat)) == Some(it.2));
            }
            assert forall|p: Prefix| self@.contains_key(p) implies exists|i: int|
                0 <= i < items@.len() && (#[trigger] items@[i]).0.prefix(items@[i].1 as nat)
                    == p by {
                assert(root + p.bits =~= p.bits);
                let j = lemma_entries_complete(self.family(p.v6), root, p.bits);
                let i = if p.v6 {
                    n4 + j
                } else {
                    j
                };
                assert(item_entry(items@[i]).0 == p.bits);
                assert(item_ok(items@[i], p.v6));
                assert(items@[i].0.prefix(items@[i].1 as nat) == p);
            }
            assert forall|i: int, j: int| 0 <= i < j < items@.len() implies (#[trigger] items@[i]).0.prefix(
                items@[i].1 as nat,
            ) != (#[trigger] items@[j]).0.prefix(items@[j].1 as nat) by {
                assert(item_ok(items@[i], i >= n4));
                assert(item_ok(items@[j], j >= n4));
                if i >= n4 {
                    lemma_entries_distinct(self.v6, root, i - n4, j - n4);
                } else if j < n4 {
                    lemma_entries_distinct(self.v4, root, i, j);
                }
            }
            assert forall|i: int, j: int| 0 <= i < j < items@.len() implies (#[trigger] items@[i]).0.prefix(
                items@[i].1 as nat,
            ).precedes((#[trigger] items@[j]).0.prefix(items@[j].1 as nat)) by {
                assert(item_ok(items@[i], i >= n4));
                assert(item_ok(items@[j], j >= n4));
                if i >= n4 {
                    lemma_entries_sorted(self.v6, root, i - n4, j - n4);
                } else if j < n4 {
                    lemma_entries_sorted(self.v4, root, i, j);
                }
            }
        }
        items
    }

    /// The value at the longest block that covers the address, if any block does.
    #[verifier::rlimit(40)]
    pub fn find(&self, addr: IpAddr) -> (found: Option<&V>)
        requires
            self.wf(),
        ensures
            match found {
                Some(v) => route(self@, addr) == Some(*v),
                None => route(self@, addr) is None,
            },
    {
        let w = addr.bit_width();
        let root = match addr {
            IpAddr::V4(_) => &self.v4,
            IpAddr::V6(_) => &self.v6,
        };
        let ghost bits = addr.bits();
        let mut cur = root;
        let mut best: Option<&V> = None;
        let ghost mut at: int = 0;
        let mut d: u8 = 0;
        assert(forall|n: int| 0 <= n <= w ==> (#[trigger] bits.take(n)).skip(0) =~= bits.take(n));
        loop
            invariant_except_break
                forall|n: int|
                    d <= n <= w ==> lookup(*root, #[trigger] bits.take(n)) == lookup(
                        *cur,
                        bits.take(n).skip(d as int),
                    ),
                match best {
                    Some(v) => 0 <= at < d && lookup(*root, bits.take(at)) == Some(*v) && forall|
                        m: int,
                    |
                        at < m < d ==> lookup(*root, #[trigger] bits.take(m)) is None,
                    None => forall|m: int|
                        0 <= m < d ==> lookup(*root, #[trigger] bits.take(m)) is None,
                },
            invariant
                d <= w,
                w == addr.width(),
                bits == addr.bits(),
            ensures
                match best {
                    Some(v) => 0 <= at <= w && lookup(*root, bits.take(at)) == Some(*v) && forall|
                        m: int,
                    |
                        at < m <= w ==> lookup(*root, #[trigger] bits.take(m)) is None,
                    None => forall|m: int|
                        0 <= m <= w ==> lookup(*root, #[trigger] bits.take(m)) is None,
                },
            decreases w - d,
        {
            match cur {
                None => {
                    break ;
                },
                Some(node) => {
                    assert(bits.take(d as int).skip(d as int).len() == 0);
                    match &node.value {
                        Some(v) => {
                            best = Some(v);
                            proof {
                                at = d as int;
                            }
                        },
                        None => {},
                    }
                    if d == w {
                        break ;
                    }
                    let b = addr.bit(d);
                    proof {
                        assert forall|n: int| d + 1 <= n <= w implies lookup(
                            *root,
                            #[trigger] bits.take(n),
                        ) == lookup(node.child(b), bits.take(n).skip(d + 1)) by {
                            let k = bits.take(n).skip(d as int);
                            assert(k[0] == b);
                            assert(k.drop_first() =~= bits.take(n).skip(d + 1));
                        }
                    }
                    cur = if b {
                        &node.one
                    } else {
                        &node.zero
                    };
                    d = d + 1;
                },
            }
        }
        proof {
            lemma_match_len(self@, addr, w as nat);
            assert(self.family(addr.is_v6()) == *root);
            assert forall|n: nat| n <= w implies self.get(#[trigger] addr.prefix(n)) == lookup(
                *root,
                bits.take(n as int),
            ) by {}
            match best {
                Some(v) => {
                    let j = match_len(self@, addr, w as nat).unwrap();
                    assert(self.get(addr.prefix(at as nat)) == Some(*v));
                    assert(self@.contains_key(addr.prefix(at as nat)));
                    assert(self.get(addr.prefix(j)) is Some);
                    assert(j == at);
                },
                None => {},
            }
        }
        best
    }
}

} // verus!
