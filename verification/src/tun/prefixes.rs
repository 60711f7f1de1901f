//! A set of prefixes, kept in order.

use vstd::prelude::*;
use crate::address::IpAddr;

verus! {

/// One prefix routed into the tunnel: an address, and how many of its leading bits count.
pub type Prefix = (IpAddr, u8);

/// A prefix as one number: by family, then by address, then by length.
pub open spec fn key(prefix: Prefix) -> int {
    match prefix.0 {
        IpAddr::V4(address) => address * 256 + prefix.1,
        IpAddr::V6(address) => 0x100_0000_0000 + address * 256 + prefix.1,
    }
}

/// Prefixes in order, each once.
pub open spec fn ascending(prefixes: Seq<Prefix>) -> bool {
    forall|i: int, j: int|
        0 <= i < j < prefixes.len() ==> key(#[trigger] prefixes[i]) < key(#[trigger] prefixes[j])
}

/// Different prefixes have different keys.
pub proof fn lemma_key(a: Prefix, b: Prefix)
    ensures
        key(a) == key(b) <==> a == b,
{
}

/// Whether a prefix stands before another.
pub fn comes_first(a: Prefix, b: Prefix) -> (first: bool)
    ensures
        first == (key(a) < key(b)),
{
    match (a.0, b.0) {
        (IpAddr::V4(left), IpAddr::V4(right)) => left < right || (left == right && a.1 < b.1),
        (IpAddr::V6(left), IpAddr::V6(right)) => left < right || (left == right && a.1 < b.1),
        (IpAddr::V4(_), IpAddr::V6(_)) => true,
        (IpAddr::V6(_), IpAddr::V4(_)) => false,
    }
}

/// Whether two prefixes are the same.
fn same_prefix(a: Prefix, b: Prefix) -> (same: bool)
    ensures
        same == (a == b),
{
    a.0 == b.0 && a.1 == b.1
}

/// A set of prefixes.
#[derive(Debug, PartialEq, Eq)]
pub struct Prefixes {
    held: Vec<Prefix>,
}

impl View for Prefixes {
    type V = Set<Prefix>;

    closed spec fn view(&self) -> Set<Prefix> {
        self.held@.to_set()
    }
}

impl Prefixes {
    /// The prefixes in order.
    pub closed spec fn ordered(&self) -> Seq<Prefix> {
        self.held@
    }

    /// The prefixes are in order, each once.
    pub closed spec fn wf(&self) -> bool {
        ascending(self.held@)
    }

    pub fn new() -> (prefixes: Self)
        ensures
            prefixes.wf(),
            prefixes@ == Set::<Prefix>::empty(),
    {
        let prefixes = Prefixes { held: Vec::new() };
        assert(prefixes@ =~= Set::empty());
        prefixes
    }

    /// Where a prefix stands, or where it would: everything before stands before it, and nothing
    /// from there on does.
    fn place(&self, prefix: Prefix) -> (at: usize)
        requires
            self.wf(),
        ensures
            at <= self.ordered().len(),
            forall|i: int| 0 <= i < at ==> key(#[trigger] self.ordered()[i]) < key(prefix),
            forall|i: int|
                at <= i < self.ordered().len() ==> key(prefix) <= key(
                    #[trigger] self.ordered()[i],
                ),
    {
        let mut low: usize = 0;
        let mut high: usize = self.held.len();
        while low < high
            invariant
                self.wf(),
                low <= high <= self.held.len(),
                forall|i: int| 0 <= i < low ==> key(#[trigger] self.held@[i]) < key(prefix),
                forall|i: int|
                    high <= i < self.held.len() ==> key(prefix) <= key(#[trigger] self.held@[i]),
            decreases high - low,
        {
            let middle: usize = low + (high - low) / 2;
            if comes_first(self.held[middle], prefix) {
                assert forall|i: int| 0 <= i < middle + 1 implies key(#[trigger] self.held@[i])
                    < key(prefix) by {
                    if i < middle {
                        assert(key(self.held@[i]) < key(self.held@[middle as int]));
                    }
                }
                low = middle + 1;
            } else {
                assert forall|i: int| middle <= i < self.held.len() implies key(prefix) <= key(
                    #[trigger] self.held@[i],
                ) by {
                    if i > middle {
                        assert(key(self.held@[middle as int]) < key(self.held@[i]));
                    }
                }
                high = middle;
            }
        }
        low
    }

    /// Whether a prefix is in the set.
    pub fn contains(&self, prefix: Prefix) -> (held: bool)
        requires
            self.wf(),
        ensures
            held == self@.contains(prefix),
    {
        let at = self.place(prefix);
        let held = at < self.held.len() && same_prefix(self.held[at], prefix);
        proof {
            if held {
                assert(self.held@[at as int] == prefix);
            } else if self.held@.contains(prefix) {
                let i = choose|i: int| 0 <= i < self.held@.len() && self.held@[i] == prefix;
                if i > at {
                    assert(key(self.held@[at as int]) < key(self.held@[i]));
                }
                lemma_key(self.held@[at as int], prefix);
            }
        }
        held
    }

    /// Put a prefix into the set.
    pub fn insert(&mut self, prefix: Prefix)
        requires
            old(self).wf(),
        ensures
            final(self).wf(),
            final(self)@ == old(self)@.insert(prefix),
    {
        let ghost before = self.held@;
        let at = self.place(prefix);
        if at < self.held.len() && same_prefix(self.held[at], prefix) {
            assert(before[at as int] == prefix);
            assert(self@ =~= self@.insert(prefix));
            return;
        }
        proof {
            if at < before.len() {
                lemma_key(before[at as int], prefix);
            }
        }
        self.held.insert(at, prefix);
        proof {
            let now = self.held@;
            assert(now == before.insert(at as int, prefix));
            assert(ascending(now)) by {
                assert forall|i: int, j: int| 0 <= i < j < now.len() implies key(#[trigger] now[i])
                    < key(#[trigger] now[j]) by {
                    if i < at && j > at {
                        assert(now[i] == before[i] && now[j] == before[j - 1]);
                    } else if i < at && j < at {
                        assert(now[i] == before[i] && now[j] == before[j]);
                    } else if i > at {
                        assert(now[i] == before[i - 1] && now[j] == before[j - 1]);
                    } else if i < at {
                        assert(now[i] == before[i]);
                    } else {
                        assert(now[j] == before[j - 1]);
                        if j - 1 > at {
                            assert(key(before[at as int]) < key(before[j - 1]));
                        }
                    }
                }
            }
            assert forall|p: Prefix| now.contains(p) == (before.contains(p) || p == prefix) by {
                if before.contains(p) {
                    let i = choose|i: int| 0 <= i < before.len() && before[i] == p;
                    if i < at {
                        assert(now[i] == p);
                    } else {
                        assert(now[i + 1] == p);
                    }
                }
                if p == prefix {
                    assert(now[at as int] == p);
                }
                if now.contains(p) {
                    let i = choose|i: int| 0 <= i < now.len() && now[i] == p;
                    if i < at {
                        assert(before[i] == p);
                    } else if i > at {
                        assert(before[i - 1] == p);
                    }
                }
            }
            assert(self@ =~= before.to_set().insert(prefix));
        }
    }

    /// Take a prefix out of the set.
    pub fn remove(&mut self, prefix: Prefix)
        requires
            old(self).wf(),
        ensures
            final(self).wf(),
            final(self)@ == old(self)@.remove(prefix),
    {
        let ghost before = self.held@;
        let at = self.place(prefix);
        if at < self.held.len() && same_prefix(self.held[at], prefix) {
            self.held.remove(at);
            proof {
                let now = self.held@;
                assert(now == before.remove(at as int));
                assert(ascending(now)) by {
                    assert forall|i: int, j: int| 0 <= i < j < now.len() implies key(
                        #[trigger] now[i],
                    ) < key(#[trigger] now[j]) by {
                        let k = if i < at {
                            i
                        } else {
                            i + 1
                        };
                        let l = if j < at {
                            j
                        } else {
                            j + 1
                        };
                        assert(now[i] == before[k] && now[j] == before[l]);
                    }
                }
                assert forall|p: Prefix| now.contains(p) == (before.contains(p) && p != prefix) by {
                    if now.contains(p) {
                        let i = choose|i: int| 0 <= i < now.len() && now[i] == p;
                        if i < at {
                            assert(before[i] == p);
                            assert(key(before[i]) < key(before[at as int]));
                        } else {
                            assert(before[i + 1] == p);
                            assert(key(before[at as int]) < key(before[i + 1]));
                        }
                    }
                    if before.contains(p) && p != prefix {
                        let i = choose|i: int| 0 <= i < before.len() && before[i] == p;
                        if i < at {
                            assert(now[i] == p);
                        } else {
                            assert(now[i - 1] == p);
                        }
                    }
                }
                assert(self@ =~= before.to_set().remove(prefix));
            }
        } else {
            proof {
                if before.contains(prefix) {
                    let i = choose|i: int| 0 <= i < before.len() && before[i] == prefix;
                    if i > at {
                        assert(key(before[at as int]) < key(before[i]));
                    }
                    lemma_key(before[at as int], prefix);
                }
                assert(self@ =~= self@.remove(prefix));
            }
        }
    }

    /// The prefixes in this set that are not in another, in order.
    pub fn difference(&self, other: &Prefixes) -> (left: Vec<Prefix>)
        requires
            self.wf(),
            other.wf(),
        ensures
            ascending(left@),
            left@.to_set() == self@.difference(other@),
    {
        let mut left: Vec<Prefix> = Vec::new();
        let mut i: usize = 0;
        let ghost all = self.held@;
        while i < self.held.len()
            invariant
                self.wf(),
                other.wf(),
                all == self.held@,
                i <= all.len(),
                ascending(left@),
                forall|k: int|
                    0 <= k < left@.len() ==> i > 0 && key(#[trigger] left@[k]) <= key(all[i - 1]),
                forall|p: Prefix|
                    #![trigger left@.contains(p)]
                    left@.contains(p) <==> all.take(i as int).contains(p) && !other@.contains(p),
            decreases all.len() - i,
        {
            let prefix = self.held[i];
            let ghost had = left@;
            proof {
                if i > 0 {
                    assert(key(all[i - 1]) < key(all[i as int]));
                }
                assert(all.take(i + 1) =~= all.take(i as int).push(prefix));
            }
            if !other.contains(prefix) {
                left.push(prefix);
                assert forall|p: Prefix| #![trigger left@.contains(p)] left@.contains(p) <==> (
                had.contains(p) || p == prefix) by {
                    if had.contains(p) {
                        let k = choose|k: int| 0 <= k < had.len() && had[k] == p;
                        assert(left@[k] == p);
                    }
                    if p == prefix {
                        assert(left@[had.len() as int] == p);
                    }
                }
            }
            assert forall|p: Prefix| #![trigger all.take(i + 1).contains(p)] all.take(
                i + 1,
            ).contains(p) <==> (all.take(i as int).contains(p) || p == prefix) by {
                let before = all.take(i as int);
                let now = all.take(i + 1);
                if before.contains(p) {
                    let k = choose|k: int| 0 <= k < before.len() && before[k] == p;
                    assert(now[k] == p);
                }
                if p == prefix {
                    assert(now[i as int] == p);
                }
            }
            assert forall|p: Prefix| #![trigger left@.contains(p)] left@.contains(p) <==> all.take(
                i + 1,
            ).contains(p) && !other@.contains(p) by {
                assert(had.contains(p) <==> all.take(i as int).contains(p) && !other@.contains(p));
                assert(all.take(i + 1).contains(p) <==> (all.take(i as int).contains(p) || p
                    == prefix));
            }
            i += 1;
        }
        proof {
            assert(all.take(i as int) =~= all);
            assert(left@.to_set() =~= self@.difference(other@));
        }
        left
    }

    /// The prefixes in order.
    pub fn as_slice(&self) -> (prefixes: &[Prefix])
        requires
            self.wf(),
        ensures
            prefixes@ == self.ordered(),
            ascending(prefixes@),
            prefixes@.to_set() == self@,
    {
        self.held.as_slice()
    }

    /// How many prefixes are in the set.
    pub fn len(&self) -> (len: usize)
        requires
            self.wf(),
        ensures
            len == self.ordered().len(),
    {
        self.held.len()
    }

    /// The same set again.
    pub fn copied(&self) -> (copy: Self)
        requires
            self.wf(),
        ensures
            copy.wf(),
            copy@ == self@,
            copy.ordered() == self.ordered(),
    {
        let mut held: Vec<Prefix> = Vec::new();
        let mut i: usize = 0;
        while i < self.held.len()
            invariant
                i <= self.held.len(),
                held@ == self.held@.take(i as int),
            decreases self.held.len() - i,
        {
            held.push(self.held[i]);
            assert(held@ =~= self.held@.take(i + 1));
            i += 1;
        }
        assert(held@ =~= self.held@);
        Prefixes { held }
    }
}

impl Default for Prefixes {
    fn default() -> (prefixes: Self)
        ensures
            prefixes.wf(),
            prefixes@ == Set::<Prefix>::empty(),
    {
        Prefixes::new()
    }
}

/// Prefixes in order are determined by which they are.
pub proof fn lemma_one_order(a: Seq<Prefix>, b: Seq<Prefix>)
    requires
        ascending(a),
        ascending(b),
        a.to_set() == b.to_set(),
    ensures
        a == b,
    decreases a.len(),
{
    assert forall|p: Prefix| a.contains(p) == b.contains(p) by {
        assert(a.to_set().contains(p) == a.contains(p));
        assert(b.to_set().contains(p) == b.contains(p));
    }
    if a.len() == 0 {
        if b.len() > 0 {
            assert(b.contains(b[0]));
        }
        assert(a =~= b);
    } else {
        assert(a.contains(a.last()));
        let k = choose|k: int| 0 <= k < b.len() && b[k] == a.last();
        assert(b.contains(b.last()));
        let j = choose|j: int| 0 <= j < a.len() && a[j] == b.last();
        if k < b.len() - 1 {
            assert(key(b[k]) < key(b[b.len() - 1]));
            if j < a.len() - 1 {
                assert(key(a[j]) < key(a[a.len() - 1]));
            }
        }
        assert(a.last() == b.last());
        let before = a.drop_last();
        let other = b.drop_last();
        assert(ascending(before)) by {
            assert forall|i: int, j: int| 0 <= i < j < before.len() implies key(
                #[trigger] before[i],
            ) < key(#[trigger] before[j]) by {
                assert(key(a[i]) < key(a[j]));
            }
        }
        assert(ascending(other)) by {
            assert forall|i: int, j: int| 0 <= i < j < other.len() implies key(#[trigger] other[i])
                < key(#[trigger] other[j]) by {
                assert(key(b[i]) < key(b[j]));
            }
        }
        assert forall|p: Prefix| before.contains(p) == (a.contains(p) && p != a.last()) by {
            lemma_contains_before(a, p);
        }
        assert forall|p: Prefix| other.contains(p) == (b.contains(p) && p != b.last()) by {
            lemma_contains_before(b, p);
        }
        assert(before.to_set() =~= other.to_set());
        lemma_one_order(before, other);
        assert(a =~= before.push(a.last()));
        assert(b =~= other.push(b.last()));
    }
}

proof fn lemma_contains_before(a: Seq<Prefix>, p: Prefix)
    requires
        ascending(a),
        a.len() > 0,
    ensures
        a.drop_last().contains(p) == (a.contains(p) && p != a.last()),
{
    let before = a.drop_last();
    if before.contains(p) {
        let i = choose|i: int| 0 <= i < before.len() && before[i] == p;
        assert(a[i] == p);
        assert(key(a[i]) < key(a[a.len() - 1]));
    }
    if a.contains(p) && p != a.last() {
        let i = choose|i: int| 0 <= i < a.len() && a[i] == p;
        assert(before[i] == p);
    }
}

/// Prefixes stand in the order of their families, IPv4 first, then of their addresses, then of their
/// lengths.
pub proof fn law_prefixes_are_ordered_by_family_address_and_length(
    a: u32,
    b: u32,
    c: u128,
    d: u128,
    length: u8,
    other: u8,
)
    ensures
        key((IpAddr::V4(a), length)) < key((IpAddr::V6(c), other)),
        key((IpAddr::V4(a), length)) < key((IpAddr::V4(b), other)) <==> a < b || (a == b && length
            < other),
        key((IpAddr::V6(c), length)) < key((IpAddr::V6(d), other)) <==> c < d || (c == d && length
            < other),
{
}

} // verus!
