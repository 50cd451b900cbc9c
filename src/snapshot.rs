//! Normalized views of the host's network interfaces.
use vstd::prelude::*;

use crate::filter::{texts, InterfaceFilter};
use crate::text::{text_equal, text_less, text_lt};

verus! {

/// An IP address: version 4 as its 32-bit value, version 6 as its 128-bit value
/// (both read big-endian, most significant octet first).
#[derive(Clone, Copy, Debug, PartialEq, Eq, Structural)]
pub enum IpAddress {
    V4(u32),
    V6(u128),
}

/// Order on addresses: every version 4 address first, then by value.
pub open spec fn addr_lt(a: IpAddress, b: IpAddress) -> bool {
    match (a, b) {
        (IpAddress::V4(x), IpAddress::V4(y)) => x < y,
        (IpAddress::V4(_), IpAddress::V6(_)) => true,
        (IpAddress::V6(_), IpAddress::V4(_)) => false,
        (IpAddress::V6(x), IpAddress::V6(y)) => x < y,
    }
}

/// Order on interface indexes: a missing index first, then by value.
pub open spec fn index_lt(a: Option<u32>, b: Option<u32>) -> bool {
    match (a, b) {
        (None, Some(_)) => true,
        (Some(x), Some(y)) => x < y,
        _ => false,
    }
}

/// One address of one interface as the host lists it.
pub struct RawInterface {
    pub name: String,
    pub ip: IpAddress,
    pub index: Option<u32>,
    pub loopback: bool,
}

/// One entry of a snapshot: an interface name, one of its addresses, and its index.
pub struct InterfaceSnapshot {
    pub name: String,
    pub ip: IpAddress,
    pub index: Option<u32>,
}

/// What a snapshot entry holds: name, address, index.
pub type EntryView = (Seq<char>, IpAddress, Option<u32>);

impl View for InterfaceSnapshot {
    type V = EntryView;

    open spec fn view(&self) -> EntryView {
        (self.name@, self.ip, self.index)
    }
}

impl RawInterface {
    /// The snapshot entry that this interface address gives.
    pub open spec fn entry(&self) -> EntryView {
        (self.name@, self.ip, self.index)
    }
}

/// Total order on entries: by name, then address, then index.
pub open spec fn entry_lt(a: EntryView, b: EntryView) -> bool {
    text_lt(a.0, b.0) || (a.0 == b.0 && (addr_lt(a.1, b.1) || (a.1 == b.1 && index_lt(a.2, b.2))))
}

pub proof fn lemma_entry_lt_irreflexive(a: EntryView)
    ensures
        !entry_lt(a, a),
{
    crate::text::lemma_text_lt_irreflexive(a.0);
}

pub proof fn lemma_entry_lt_transitive(a: EntryView, b: EntryView, c: EntryView)
    requires
        entry_lt(a, b),
        entry_lt(b, c),
    ensures
        entry_lt(a, c),
{
    if text_lt(a.0, b.0) && text_lt(b.0, c.0) {
        crate::text::lemma_text_lt_transitive(a.0, b.0, c.0);
    }
}

pub proof fn lemma_entry_lt_total(a: EntryView, b: EntryView)
    ensures
        a == b || entry_lt(a, b) || entry_lt(b, a),
{
    crate::text::lemma_text_lt_total(a.0, b.0);
}

/// The views of a sequence of entries.
pub open spec fn snapshot_view(v: Seq<InterfaceSnapshot>) -> Seq<EntryView> {
    v.map_values(|e: InterfaceSnapshot| e@)
}

/// Each entry comes strictly before every later one: sorted, without repeats.
pub open spec fn entries_sorted(s: Seq<EntryView>) -> bool {
    forall|i: int, j: int| 0 <= i < j < s.len() ==> entry_lt(#[trigger] s[i], #[trigger] s[j])
}

/// The entries that `filter` admits from what the host lists: those of
/// interfaces that are not loopback and that the filter selects.
pub open spec fn admitted(filter: InterfaceFilter, raw: Seq<RawInterface>) -> Set<EntryView> {
    Set::new(
        |e: EntryView|
            exists|i: int|
                0 <= i < raw.len() && !raw[i].loopback && filter.selects(raw[i].name@) && e
                    == #[trigger] raw[i].entry(),
    )
}

/// `s` is the snapshot of `raw` under `filter`: the admitted entries, sorted,
/// each once.
pub open spec fn is_snapshot_of(
    s: Seq<EntryView>,
    filter: InterfaceFilter,
    raw: Seq<RawInterface>,
) -> bool {
    entries_sorted(s) && s.to_set() == admitted(filter, raw)
}

/// Whether address `a` comes strictly before address `b`.
fn addr_less(a: IpAddress, b: IpAddress) -> (r: bool)
    ensures
        r == addr_lt(a, b),
{
    match (a, b) {
        (IpAddress::V4(x), IpAddress::V4(y)) => x < y,
        (IpAddress::V4(_), IpAddress::V6(_)) => true,
        (IpAddress::V6(_), IpAddress::V4(_)) => false,
        (IpAddress::V6(x), IpAddress::V6(y)) => x < y,
    }
}

/// Whether `a` comes strictly before `b`.
fn entry_less(a: &InterfaceSnapshot, b: &InterfaceSnapshot) -> (r: bool)
    ensures
        r == entry_lt(a@, b@),
{
    if text_less(a.name.as_str(), b.name.as_str()) {
        return true;
    }
    if !text_equal(a.name.as_str(), b.name.as_str()) {
        return false;
    }
    if addr_less(a.ip, b.ip) {
        return true;
    }
    if a.ip != b.ip {
        return false;
    }
    match (a.index, b.index) {
        (None, Some(_)) => true,
        (Some(x), Some(y)) => x < y,
        _ => false,
    }
}

/// Whether `a` and `b` hold the same name, address and index.
fn entry_equal(a: &InterfaceSnapshot, b: &InterfaceSnapshot) -> (r: bool)
    ensures
        r == (a@ == b@),
{
    let same_index = match (a.index, b.index) {
        (None, None) => true,
        (Some(x), Some(y)) => x == y,
        _ => false,
    };
    text_equal(a.name.as_str(), b.name.as_str()) && a.ip == b.ip && same_index
}

/// Puts `e` into the sorted snapshot `acc`, unless it is there already.
fn insert_entry(acc: &mut Vec<InterfaceSnapshot>, e: InterfaceSnapshot)
    requires
        entries_sorted(snapshot_view(old(acc)@)),
    ensures
        entries_sorted(snapshot_view(final(acc)@)),
        snapshot_view(final(acc)@).to_set() == snapshot_view(old(acc)@).to_set().insert(e@),
{
    let ghost old_s = snapshot_view(acc@);
    let mut p: usize = 0;
    while p < acc.len() && entry_less(&acc[p], &e)
        invariant
            p <= acc@.len(),
            acc@ == old(acc)@,
            old_s == snapshot_view(acc@),
            entries_sorted(old_s),
            forall|q: int| 0 <= q < p ==> entry_lt(#[trigger] old_s[q], e@),
        decreases acc@.len() - p,
    {
        p = p + 1;
    }
    if p < acc.len() && entry_equal(&acc[p], &e) {
        assert(old_s[p as int] == e@);
        assert(old_s.to_set().insert(e@) =~= old_s.to_set());
        return;
    }
    proof {
        if p < acc@.len() {
            lemma_entry_lt_total(old_s[p as int], e@);
            assert forall|q: int| p < q < old_s.len() implies entry_lt(
                e@,
                #[trigger] old_s[q],
            ) by {
                lemma_entry_lt_transitive(e@, old_s[p as int], old_s[q]);
            }
        }
    }
    let ghost ev = e@;
    acc.insert(p, e);
    proof {
        let new_s = snapshot_view(acc@);
        assert(new_s =~= old_s.insert(p as int, ev));
        assert forall|i: int, j: int| 0 <= i < j < new_s.len() implies entry_lt(
            #[trigger] new_s[i],
            #[trigger] new_s[j],
        ) by {
            if j < p {
            } else if i < p && j == p {
            } else if i < p {
                assert(new_s[j] == old_s[j - 1]);
            } else if i == p {
                assert(new_s[j] == old_s[j - 1]);
            } else {
                assert(new_s[i] == old_s[i - 1]);
                assert(new_s[j] == old_s[j - 1]);
            }
        }
        assert forall|x: EntryView| new_s.to_set().contains(x) <==> old_s.to_set().insert(
            ev,
        ).contains(x) by {
            if new_s.contains(x) {
                let k = choose|k: int| 0 <= k < new_s.len() && new_s[k] == x;
                if k < p {
                    assert(old_s[k] == x);
                } else if k > p {
                    assert(old_s[k - 1] == x);
                }
            }
            if old_s.contains(x) {
                let k = choose|k: int| 0 <= k < old_s.len() && old_s[k] == x;
                if k < p {
                    assert(new_s[k] == x);
                } else {
                    assert(new_s[k + 1] == x);
                }
            }
            if x == ev {
                assert(new_s[p as int] == x);
            }
        }
        assert(new_s.to_set() =~= old_s.to_set().insert(ev));
    }
}

/// The snapshot of what the host lists under `filter`: the entries of every
/// interface address that is not loopback and that the filter selects,
/// sorted by name, address and index, each once.
pub fn collect_snapshot(filter: &InterfaceFilter, interfaces: &Vec<RawInterface>) -> (r: Vec<
    InterfaceSnapshot,
>)
    ensures
        is_snapshot_of(snapshot_view(r@), *filter, interfaces@),
{
    let mut result: Vec<InterfaceSnapshot> = Vec::new();
    let mut i: usize = 0;
    assert(snapshot_view(result@).to_set() =~= admitted(*filter, interfaces@.take(0)));
    while i < interfaces.len()
        invariant
            i <= interfaces@.len(),
            entries_sorted(snapshot_view(result@)),
            snapshot_view(result@).to_set() == admitted(*filter, interfaces@.take(i as int)),
        decreases interfaces@.len() - i,
    {
        let iface = &interfaces[i];
        let ghost before = snapshot_view(result@).to_set();
        let keep = !iface.loopback && filter.matches(iface.name.as_str());
        if keep {
            let entry = InterfaceSnapshot { name: iface.name.clone(), ip: iface.ip, index: iface.index };
            insert_entry(&mut result, entry);
        }
        proof {
            let a = admitted(*filter, interfaces@.take(i + 1));
            let b = admitted(*filter, interfaces@.take(i as int));
            let now = snapshot_view(result@).to_set();
            assert forall|e: EntryView| a.contains(e) <==> now.contains(e) by {
                if a.contains(e) {
                    let k = choose|k: int|
                        0 <= k < i + 1 && !interfaces@.take(i + 1)[k].loopback && filter.selects(
                            interfaces@.take(i + 1)[k].name@,
                        ) && e == #[trigger] interfaces@.take(i + 1)[k].entry();
                    if k < i {
                        assert(interfaces@.take(i as int)[k] == interfaces@[k]);
                        assert(b.contains(e));
                    }
                }
                if b.contains(e) {
                    let k = choose|k: int|
                        0 <= k < i && !interfaces@.take(i as int)[k].loopback && filter.selects(
                            interfaces@.take(i as int)[k].name@,
                        ) && e == #[trigger] interfaces@.take(i as int)[k].entry();
                    assert(interfaces@.take(i + 1)[k] == interfaces@[k]);
                    assert(a.contains(e));
                }
                if keep && e == interfaces@[i as int].entry() {
                    assert(interfaces@.take(i + 1)[i as int] == interfaces@[i as int]);
                    assert(a.contains(e));
                }
            }
            assert(a =~= now);
        }
        i = i + 1;
    }
    assert(interfaces@.take(i as int) =~= interfaces@);
    result
}

/// Whether two snapshots hold the same entries in the same order.
pub fn snapshots_equal(a: &Vec<InterfaceSnapshot>, b: &Vec<InterfaceSnapshot>) -> (r: bool)
    ensures
        r == (snapshot_view(a@) == snapshot_view(b@)),
{
    if a.len() != b.len() {
        assert(snapshot_view(a@).len() != snapshot_view(b@).len());
        return false;
    }
    let mut i: usize = 0;
    while i < a.len()
        invariant
            a@.len() == b@.len(),
            i <= a@.len(),
            forall|q: int| 0 <= q < i ==> snapshot_view(a@)[q] == snapshot_view(b@)[q],
        decreases a@.len() - i,
    {
        if !entry_equal(&a[i], &b[i]) {
            assert(snapshot_view(a@)[i as int] != snapshot_view(b@)[i as int]);
            return false;
        }
        i = i + 1;
    }
    assert(snapshot_view(a@) =~= snapshot_view(b@));
    true
}

/// Each address comes strictly before every later one: sorted, without repeats.
pub open spec fn addrs_sorted(s: Seq<IpAddress>) -> bool {
    forall|i: int, j: int| 0 <= i < j < s.len() ==> addr_lt(#[trigger] s[i], #[trigger] s[j])
}

/// The addresses that the entries of a snapshot hold.
pub open spec fn addresses_of(s: Seq<EntryView>) -> Set<IpAddress> {
    Set::new(|a: IpAddress| exists|i: int| 0 <= i < s.len() && #[trigger] s[i].1 == a)
}

/// Puts `a` into the sorted list `acc`, unless it is there already.
fn insert_addr(acc: &mut Vec<IpAddress>, a: IpAddress)
    requires
        addrs_sorted(old(acc)@),
    ensures
        addrs_sorted(final(acc)@),
        final(acc)@.to_set() == old(acc)@.to_set().insert(a),
{
    let mut p: usize = 0;
    while p < acc.len() && addr_less(acc[p], a)
        invariant
            p <= acc@.len(),
            acc@ == old(acc)@,
            addrs_sorted(acc@),
            forall|q: int| 0 <= q < p ==> addr_lt(#[trigger] acc@[q], a),
        decreases acc@.len() - p,
    {
        p = p + 1;
    }
    let ghost old_s = acc@;
    if p < acc.len() && acc[p] == a {
        assert(old_s.to_set().insert(a) =~= old_s.to_set());
        return;
    }
    acc.insert(p, a);
    proof {
        let new_s = acc@;
        assert forall|i: int, j: int| 0 <= i < j < new_s.len() implies addr_lt(
            #[trigger] new_s[i],
            #[trigger] new_s[j],
        ) by {
            if j < p {
            } else if i < p && j == p {
            } else if i < p {
                assert(new_s[j] == old_s[j - 1]);
            } else if i == p {
                assert(new_s[j] == old_s[j - 1]);
                assert(addr_lt(old_s[p as int], old_s[j - 1]) || j - 1 == p);
            } else {
                assert(new_s[i] == old_s[i - 1]);
                assert(new_s[j] == old_s[j - 1]);
            }
        }
        assert forall|x: IpAddress| new_s.to_set().contains(x) <==> old_s.to_set().insert(
            a,
        ).contains(x) by {
            if new_s.contains(x) {
                let k = choose|k: int| 0 <= k < new_s.len() && new_s[k] == x;
                if k < p {
                    assert(old_s[k] == x);
                } else if k > p {
                    assert(old_s[k - 1] == x);
                }
            }
            if old_s.contains(x) {
                let k = choose|k: int| 0 <= k < old_s.len() && old_s[k] == x;
                if k < p {
                    assert(new_s[k] == x);
                } else {
                    assert(new_s[k + 1] == x);
                }
            }
            if x == a {
                assert(new_s[p as int] == x);
            }
        }
        assert(new_s.to_set() =~= old_s.to_set().insert(a));
    }
}

/// The addresses to advertise on. For a filter that selects every interface
/// the list is empty, which asks for no restriction at all; for a named subset
/// it holds each address of the snapshot once, sorted.
pub fn selected_ips(filter: &InterfaceFilter, snapshot: &[InterfaceSnapshot]) -> (r: Vec<IpAddress>)
    ensures
        *filter is All ==> r@.len() == 0,
        *filter is Only ==> addrs_sorted(r@) && r@.to_set() == addresses_of(
            snapshot_view(snapshot@),
        ),
{
    let mut ips: Vec<IpAddress> = Vec::new();
    if let InterfaceFilter::All = filter {
        return ips;
    }
    let ghost entries = snapshot_view(snapshot@);
    let mut i: usize = 0;
    assert(ips@.to_set() =~= addresses_of(entries.take(0)));
    while i < snapshot.len()
        invariant
            entries == snapshot_view(snapshot@),
            i <= snapshot@.len(),
            addrs_sorted(ips@),
            ips@.to_set() == addresses_of(entries.take(i as int)),
        decreases snapshot@.len() - i,
    {
        insert_addr(&mut ips, snapshot[i].ip);
        proof {
            let a = addresses_of(entries.take(i + 1));
            let b = addresses_of(entries.take(i as int));
            assert forall|x: IpAddress| a.contains(x) <==> b.insert(entries[i as int].1).contains(
                x,
            ) by {
                if a.contains(x) {
                    let k = choose|k: int| 0 <= k < i + 1 && #[trigger] entries.take(i + 1)[k].1 == x;
                    if k < i {
                        assert(entries.take(i as int)[k].1 == x);
                    }
                }
                if b.contains(x) {
                    let k = choose|k: int| 0 <= k < i && #[trigger] entries.take(i as int)[k].1 == x;
                    assert(entries.take(i + 1)[k].1 == x);
                }
                if x == entries[i as int].1 {
                    assert(entries.take(i + 1)[i as int].1 == x);
                }
            }
            assert(a =~= b.insert(entries[i as int].1));
        }
        i = i + 1;
    }
    assert(entries.take(i as int) =~= entries);
    ips
}

/// Whether the host lists an interface called `n`, loopback or not.
pub open spec fn listed(raw: Seq<RawInterface>, n: Seq<char>) -> bool {
    exists|i: int| 0 <= i < raw.len() && #[trigger] raw[i].name@ == n
}

/// Holds of the names that the host does not list.
pub open spec fn unlisted(raw: Seq<RawInterface>) -> spec_fn(Seq<char>) -> bool {
    |n: Seq<char>| !listed(raw, n)
}

/// Whether the host lists an interface called `name`.
fn is_listed(interfaces: &Vec<RawInterface>, name: &str) -> (r: bool)
    ensures
        r == listed(interfaces@, name@),
{
    let mut i: usize = 0;
    while i < interfaces.len()
        invariant
            i <= interfaces@.len(),
            forall|q: int| 0 <= q < i ==> interfaces@[q].name@ != name@,
        decreases interfaces@.len() - i,
    {
        if text_equal(interfaces[i].name.as_str(), name) {
            return true;
        }
        i = i + 1;
    }
    false
}

/// The names that a filter asks for and that the host does not list, in the
/// filter's order. A filter that selects every interface misses none.
pub fn collect_missing_interfaces(filter: &InterfaceFilter, interfaces: &Vec<RawInterface>) -> (r:
    Vec<String>)
    ensures
        match *filter {
            InterfaceFilter::All => r@.len() == 0,
            InterfaceFilter::Only(v) => texts(r@) == texts(v@).filter(unlisted(interfaces@)),
        },
{
    let mut missing: Vec<String> = Vec::new();
    match filter {
        InterfaceFilter::All => missing,
        InterfaceFilter::Only(only) => {
            let ghost names = texts(only@);
            let mut i: usize = 0;
            assert(names.take(0) =~= Seq::empty());
            assert(texts(missing@) =~= Seq::empty());
            while i < only.len()
                invariant
                    names == texts(only@),
                    i <= only@.len(),
                    texts(missing@) == names.take(i as int).filter(unlisted(interfaces@)),
                decreases only@.len() - i,
            {
                proof {
                    assert(names.take(i + 1) =~= names.take(i as int).push(names[i as int]));
                    names.take(i as int).lemma_filter_push(names[i as int], unlisted(interfaces@));
                }
                if !is_listed(interfaces, only[i].as_str()) {
                    missing.push(only[i].clone());
                    assert(texts(missing@) =~= names.take(i + 1).filter(unlisted(interfaces@)));
                }
                i = i + 1;
            }
            assert(names.take(i as int) =~= names);
            missing
        },
    }
}

/// Two sorted entry sequences without repeats that hold the same entries are equal.
proof fn lemma_sorted_same_entries_equal(s1: Seq<EntryView>, s2: Seq<EntryView>)
    requires
        entries_sorted(s1),
        entries_sorted(s2),
        s1.to_set() == s2.to_set(),
    ensures
        s1 == s2,
    decreases s1.len(),
{
    if s1.len() == 0 {
        if s2.len() > 0 {
            assert(s2.to_set().contains(s2[0]));
        }
        assert(s1 =~= s2);
        return;
    }
    if s2.len() == 0 {
        assert(s1.to_set().contains(s1[0]));
        return;
    }
    let a = s1[0];
    let b = s2[0];
    assert(s1.to_set().contains(a));
    assert(s2.to_set().contains(b));
    let k = choose|k: int| 0 <= k < s1.len() && s1[k] == b;
    let m = choose|m: int| 0 <= m < s2.len() && s2[m] == a;
    if a != b {
        assert(entry_lt(a, b));
        assert(entry_lt(b, a));
        lemma_entry_lt_transitive(a, b, a);
        lemma_entry_lt_irreflexive(a);
    }
    let t1 = s1.drop_first();
    let t2 = s2.drop_first();
    assert forall|x: EntryView| t1.to_set().contains(x) <==> t2.to_set().contains(x) by {
        if t1.contains(x) {
            let q = choose|q: int| 0 <= q < t1.len() && t1[q] == x;
            assert(s1[q + 1] == x);
            assert(entry_lt(a, x));
            lemma_entry_lt_irreflexive(a);
            assert(s2.to_set().contains(x));
            let r = choose|r: int| 0 <= r < s2.len() && s2[r] == x;
            assert(r != 0);
            assert(t2[r - 1] == x);
        }
        if t2.contains(x) {
            let q = choose|q: int| 0 <= q < t2.len() && t2[q] == x;
            assert(s2[q + 1] == x);
            assert(entry_lt(b, x));
            lemma_entry_lt_irreflexive(b);
            assert(s1.to_set().contains(x));
            let r = choose|r: int| 0 <= r < s1.len() && s1[r] == x;
            assert(r != 0);
            assert(t1[r - 1] == x);
        }
    }
    assert(t1.to_set() =~= t2.to_set());
    lemma_sorted_same_entries_equal(t1, t2);
    assert forall|i: int| 0 <= i < s1.len() implies s1[i] == s2[i] by {
        if i > 0 {
            assert(s1[i] == t1[i - 1]);
            assert(s2[i] == t2[i - 1]);
        }
    }
    assert(s1 =~= s2);
}

/// The snapshots of two listings that hold the same interface addresses, in
/// whatever order the host returned them, are equal.
pub proof fn lemma_snapshot_order_insensitive(
    filter: InterfaceFilter,
    raw1: Seq<RawInterface>,
    raw2: Seq<RawInterface>,
    s1: Seq<EntryView>,
    s2: Seq<EntryView>,
)
    requires
        raw1.to_multiset() == raw2.to_multiset(),
        is_snapshot_of(s1, filter, raw1),
        is_snapshot_of(s2, filter, raw2),
    ensures
        s1 == s2,
{
    raw1.to_multiset_ensures();
    raw2.to_multiset_ensures();
    let a1 = admitted(filter, raw1);
    let a2 = admitted(filter, raw2);
    assert forall|e: EntryView| a1.contains(e) <==> a2.contains(e) by {
        if a1.contains(e) {
            let i = choose|i: int|
                0 <= i < raw1.len() && !raw1[i].loopback && filter.selects(raw1[i].name@) && e
                    == #[trigger] raw1[i].entry();
            assert(raw1.contains(raw1[i]));
            assert(raw1.to_multiset().count(raw1[i]) > 0);
            assert(raw2.to_multiset().count(raw1[i]) > 0);
            assert(raw2.contains(raw1[i]));
            let j = choose|j: int| 0 <= j < raw2.len() && raw2[j] == raw1[i];
            assert(e == raw2[j].entry());
        }
        if a2.contains(e) {
            let i = choose|i: int|
                0 <= i < raw2.len() && !raw2[i].loopback && filter.selects(raw2[i].name@) && e
                    == #[trigger] raw2[i].entry();
            assert(raw2.contains(raw2[i]));
            assert(raw2.to_multiset().count(raw2[i]) > 0);
            assert(raw1.to_multiset().count(raw2[i]) > 0);
            assert(raw1.contains(raw2[i]));
            let j = choose|j: int| 0 <= j < raw1.len() && raw1[j] == raw2[i];
            assert(e == raw1[j].entry());
        }
    }
    assert(a1 =~= a2);
    lemma_sorted_same_entries_equal(s1, s2);
}

/// Snapshot equality is reflexive and symmetric.
pub proof fn lemma_snapshot_equality_laws(a: Seq<InterfaceSnapshot>, b: Seq<InterfaceSnapshot>)
    ensures
        snapshot_view(a) == snapshot_view(a),
        (snapshot_view(a) == snapshot_view(b)) == (snapshot_view(b) == snapshot_view(a)),
{
}

} // verus!
