//! The byte form in which collections are committed to: a length prefix,
//! then the members in ascending order of their keys.

use vstd::prelude::*;
use crate::canon::{lemma_ascending_count, lemma_ascending_unique, lemma_entry, SortedMap};
use crate::order::strictly_increasing;

verus! {

/// Entries as they are read off a container: each a sort key and the bytes
/// that are committed to. The order is that of insertion.
pub type Entries = Seq<(Seq<u8>, Seq<u8>)>;

/// The map that a list of entries stands for. Where a key occurs more than
/// once, the entry put in last holds.
pub open spec fn collect<V>(entries: Seq<(Seq<u8>, V)>) -> Map<Seq<u8>, V>
    decreases entries.len(),
{
    if entries.len() == 0 {
        Map::empty()
    } else {
        collect(entries.drop_last()).insert(entries.last().0, entries.last().1)
    }
}

/// `q` lists the members of `s`, each once, in ascending order.
pub open spec fn is_arrangement(q: Seq<Seq<u8>>, s: Set<Seq<u8>>) -> bool {
    &&& strictly_increasing(q)
    &&& forall|k: Seq<u8>| q.contains(k) <==> s.contains(k)
}

/// The members of `s` in ascending order.
pub open spec fn canonical_keys(s: Set<Seq<u8>>) -> Seq<Seq<u8>> {
    choose|q: Seq<Seq<u8>>| is_arrangement(q, s)
}

/// All the parts, one after the other.
pub open spec fn join<E>(parts: Seq<Seq<E>>) -> Seq<E>
    decreases parts.len(),
{
    if parts.len() == 0 {
        Seq::empty()
    } else {
        join(parts.drop_last()) + parts.last()
    }
}

/// The committed bytes of the members of `m`, in ascending order of their
/// keys.
pub open spec fn canonical_body(m: Map<Seq<u8>, Seq<u8>>) -> Seq<u8> {
    join(canonical_keys(m.dom()).map_values(|k: Seq<u8>| m[k]))
}

/// How many members a collection may hold, which decides how many bytes its
/// length prefix takes.
#[derive(Clone, Copy, Debug)]
pub enum Width {
    /// At most 255 members; one byte of length.
    Tiny,
    /// At most 65535 members; two bytes of length.
    Small,
    /// At most 4294967295 members; four bytes of length.
    Large,
}

impl Width {
    /// The largest number of members.
    pub open spec fn max_len(self) -> nat {
        match self {
            Width::Tiny => 0xFF,
            Width::Small => 0xFFFF,
            Width::Large => 0xFFFF_FFFF,
        }
    }

    /// The largest number of members.
    pub fn limit(&self) -> (r: u64)
        ensures
            r == self.max_len(),
    {
        match self {
            Width::Tiny => 0xFF,
            Width::Small => 0xFFFF,
            Width::Large => 0xFFFF_FFFF,
        }
    }
}

/// The number `n` in little-endian order, in as many bytes as `width` takes.
pub open spec fn len_prefix(width: Width, n: nat) -> Seq<u8> {
    match width {
        Width::Tiny => seq![(n % 256) as u8],
        Width::Small => seq![(n % 256) as u8, (n / 256 % 256) as u8],
        Width::Large => seq![
            (n % 256) as u8,
            (n / 256 % 256) as u8,
            (n / 65536 % 256) as u8,
            (n / 16777216 % 256) as u8,
        ],
    }
}

/// The byte form of the collection `m`: the number of its members, then its
/// members in ascending order of their keys.
pub open spec fn collection_bytes(width: Width, m: Map<Seq<u8>, Seq<u8>>) -> Seq<u8> {
    len_prefix(width, m.dom().len()) + canonical_body(m)
}

/// What a map of byte vectors holds, as a map of byte strings.
pub open spec fn data_view(m: Map<Seq<u8>, Vec<u8>>) -> Map<Seq<u8>, Seq<u8>> {
    m.map_values(|v: Vec<u8>| v@)
}

/// The keys of a collected map are the keys of its entries.
pub proof fn lemma_collect_dom<V>(entries: Seq<(Seq<u8>, V)>, k: Seq<u8>)
    ensures
        collect(entries).contains_key(k) <==> exists|i: int|
            0 <= i < entries.len() && #[trigger] entries[i].0 == k,
        collect(entries).dom().finite(),
    decreases entries.len(),
{
    if entries.len() > 0 {
        let rest = entries.drop_last();
        lemma_collect_dom(rest, k);
        if collect(entries).contains_key(k) {
            if k == entries.last().0 {
                assert(entries[entries.len() - 1].0 == k);
            } else {
                let i = choose|i: int| 0 <= i < rest.len() && #[trigger] rest[i].0 == k;
                assert(entries[i].0 == k);
            }
        }
        if exists|i: int| 0 <= i < entries.len() && #[trigger] entries[i].0 == k {
            let i = choose|i: int| 0 <= i < entries.len() && #[trigger] entries[i].0 == k;
            if i < rest.len() {
                assert(rest[i].0 == k);
            }
        }
    }
}

/// No key stands with two different values.
pub open spec fn consistent<V>(entries: Seq<(Seq<u8>, V)>) -> bool {
    forall|a: int, b: int|
        0 <= a < entries.len() && 0 <= b < entries.len() && #[trigger] entries[a].0
            == #[trigger] entries[b].0 ==> entries[a].1 == entries[b].1
}

/// Where no key stands with two different values, each entry is found in
/// the collected map as it was put in.
pub proof fn lemma_collect_value<V>(entries: Seq<(Seq<u8>, V)>, i: int)
    requires
        0 <= i < entries.len(),
        consistent(entries),
    ensures
        collect(entries).contains_key(entries[i].0),
        collect(entries)[entries[i].0] == entries[i].1,
    decreases entries.len(),
{
    let rest = entries.drop_last();
    let last = entries.len() - 1;
    if i < last {
        assert forall|a: int, b: int|
            0 <= a < rest.len() && 0 <= b < rest.len() && #[trigger] rest[a].0
                == #[trigger] rest[b].0 implies rest[a].1 == rest[b].1 by {
            assert(entries[a].0 == entries[b].0);
        }
        lemma_collect_value(rest, i);
        assert(rest[i] == entries[i]);
        if entries[i].0 == entries[last].0 {
            assert(entries[i].1 == entries[last].1);
        }
    }
}

/// Where every entry is its own key, every member of the collected map is
/// mapped to itself.
pub proof fn lemma_collect_plain(entries: Entries, k: Seq<u8>)
    requires
        forall|i: int| 0 <= i < entries.len() ==> (#[trigger] entries[i]).0 == entries[i].1,
        collect(entries).contains_key(k),
    ensures
        collect(entries)[k] == k,
    decreases entries.len(),
{
    if entries.len() > 0 {
        let rest = entries.drop_last();
        if k != entries.last().0 {
            assert forall|i: int| 0 <= i < rest.len() implies (#[trigger] rest[i]).0
                == rest[i].1 by {
                assert(rest[i] == entries[i]);
            }
            lemma_collect_plain(rest, k);
        }
    }
}

/// Two lists with the same entries, in whatever order and however often
/// each is repeated, stand for the same map, provided no key stands with
/// two different values.
pub proof fn lemma_collect_same<V>(p: Seq<(Seq<u8>, V)>, q: Seq<(Seq<u8>, V)>)
    requires
        p.to_set() == q.to_set(),
        consistent(p),
    ensures
        consistent(q),
        collect(p) == collect(q),
{
    assert forall|i: int| 0 <= i < q.len() implies p.contains(#[trigger] q[i]) by {
        assert(q.contains(q[i]));
        assert(q.to_set().contains(q[i]));
        assert(p.to_set().contains(q[i]));
    }
    assert forall|i: int| 0 <= i < p.len() implies q.contains(#[trigger] p[i]) by {
        assert(p.contains(p[i]));
        assert(p.to_set().contains(p[i]));
        assert(q.to_set().contains(p[i]));
    }
    assert forall|a: int, b: int|
        0 <= a < q.len() && 0 <= b < q.len() && #[trigger] q[a].0
            == #[trigger] q[b].0 implies q[a].1 == q[b].1 by {
        assert(p.contains(q[a]));
        assert(p.contains(q[b]));
        let x = choose|x: int| 0 <= x < p.len() && p[x] == q[a];
        let y = choose|y: int| 0 <= y < p.len() && p[y] == q[b];
        assert(p[x].0 == p[y].0);
    }
    assert forall|k: Seq<u8>| collect(p).contains_key(k) <==> collect(q).contains_key(k) by {
        lemma_collect_dom(p, k);
        lemma_collect_dom(q, k);
        if collect(p).contains_key(k) {
            let i = choose|i: int| 0 <= i < p.len() && #[trigger] p[i].0 == k;
            assert(q.contains(p[i]));
            let j = choose|j: int| 0 <= j < q.len() && q[j] == p[i];
            assert(q[j].0 == k);
        }
        if collect(q).contains_key(k) {
            let i = choose|i: int| 0 <= i < q.len() && #[trigger] q[i].0 == k;
            assert(p.contains(q[i]));
            let j = choose|j: int| 0 <= j < p.len() && p[j] == q[i];
            assert(p[j].0 == k);
        }
    }
    assert forall|k: Seq<u8>| collect(p).contains_key(k) implies collect(p)[k] == collect(q)[k] by {
        lemma_collect_dom(p, k);
        let i = choose|i: int| 0 <= i < p.len() && #[trigger] p[i].0 == k;
        assert(q.contains(p[i]));
        let j = choose|j: int| 0 <= j < q.len() && q[j] == p[i];
        lemma_collect_value(p, i);
        lemma_collect_value(q, j);
    }
    assert(collect(p) =~= collect(q));
}

/// A value stands in the joined sequence exactly if it stands in one of the
/// parts.
pub proof fn lemma_join_contains<E>(parts: Seq<Seq<E>>, e: E)
    ensures
        join(parts).contains(e) <==> exists|i: int, j: int|
            0 <= i < parts.len() && 0 <= j < parts[i].len() && #[trigger] parts[i][j] == e,
    decreases parts.len(),
{
    if parts.len() > 0 {
        let rest = parts.drop_last();
        let last = parts.last();
        lemma_join_contains(rest, e);
        if join(parts).contains(e) {
            let x = choose|x: int| 0 <= x < join(parts).len() && join(parts)[x] == e;
            if x < join(rest).len() {
                assert(join(rest)[x] == e);
                assert(join(rest).contains(e));
                let (i, j) = choose|i: int, j: int|
                    0 <= i < rest.len() && 0 <= j < rest[i].len() && #[trigger] rest[i][j] == e;
                assert(parts[i][j] == e);
            } else {
                assert(parts[parts.len() - 1][x - join(rest).len()] == e);
            }
        }
        if exists|i: int, j: int|
            0 <= i < parts.len() && 0 <= j < parts[i].len() && #[trigger] parts[i][j] == e {
            let (i, j) = choose|i: int, j: int|
                0 <= i < parts.len() && 0 <= j < parts[i].len() && #[trigger] parts[i][j] == e;
            if i < rest.len() {
                assert(rest[i][j] == e);
                assert(join(rest).contains(e));
                let x = choose|x: int| 0 <= x < join(rest).len() && join(rest)[x] == e;
                assert(join(parts)[x] == e);
            } else {
                assert(join(parts)[join(rest).len() + j] == e);
            }
        }
    }
}

/// Two sequences that hold the same values equally often give, value by
/// value, the same set of images.
pub proof fn lemma_images_same<T, E>(x: Seq<T>, y: Seq<T>, f: spec_fn(T) -> E, p: Seq<E>, q: Seq<E>)
    requires
        x.to_multiset() == y.to_multiset(),
        p.len() == x.len(),
        q.len() == y.len(),
        forall|i: int| 0 <= i < x.len() ==> #[trigger] p[i] == f(x[i]),
        forall|i: int| 0 <= i < y.len() ==> #[trigger] q[i] == f(y[i]),
    ensures
        p.to_set() == q.to_set(),
{
    x.to_multiset_ensures();
    y.to_multiset_ensures();
    assert forall|e: E| p.contains(e) <==> q.contains(e) by {
        if p.contains(e) {
            let i = choose|i: int| 0 <= i < p.len() && p[i] == e;
            assert(x.contains(x[i]));
            assert(y.to_multiset().count(x[i]) > 0);
            assert(y.contains(x[i]));
            let j = choose|j: int| 0 <= j < y.len() && y[j] == x[i];
            assert(q[j] == e);
        }
        if q.contains(e) {
            let i = choose|i: int| 0 <= i < q.len() && q[i] == e;
            assert(y.contains(y[i]));
            assert(x.to_multiset().count(y[i]) > 0);
            assert(x.contains(y[i]));
            let j = choose|j: int| 0 <= j < x.len() && x[j] == y[i];
            assert(p[j] == e);
        }
    }
    assert(p.to_set() =~= q.to_set());
}

/// Parts that are the same, in whatever order, join to the same values.
pub proof fn lemma_join_same<E>(p: Seq<Seq<E>>, q: Seq<Seq<E>>)
    requires
        p.to_set() == q.to_set(),
    ensures
        join(p).to_set() == join(q).to_set(),
{
    assert forall|e: E| join(p).contains(e) <==> join(q).contains(e) by {
        lemma_join_contains(p, e);
        lemma_join_contains(q, e);
        if join(p).contains(e) {
            let (i, j) = choose|i: int, j: int|
                0 <= i < p.len() && 0 <= j < p[i].len() && #[trigger] p[i][j] == e;
            assert(p.contains(p[i]));
            assert(p.to_set().contains(p[i]));
            assert(q.contains(p[i]));
            let k = choose|k: int| 0 <= k < q.len() && q[k] == p[i];
            assert(q[k][j] == e);
        }
        if join(q).contains(e) {
            let (i, j) = choose|i: int, j: int|
                0 <= i < q.len() && 0 <= j < q[i].len() && #[trigger] q[i][j] == e;
            assert(q.contains(q[i]));
            assert(q.to_set().contains(q[i]));
            assert(p.contains(q[i]));
            let k = choose|k: int| 0 <= k < p.len() && p[k] == q[i];
            assert(p[k][j] == e);
        }
    }
    assert(join(p).to_set() =~= join(q).to_set());
}

/// Adds the bytes of `data` to the end of `out`.
pub fn append_bytes(out: &mut Vec<u8>, data: &[u8])
    ensures
        final(out)@ == old(out)@ + data@,
{
    let mut i: usize = 0;
    while i < data.len()
        invariant
            i <= data.len(),
            out@ == old(out)@ + data@.take(i as int),
        decreases data.len() - i,
    {
        out.push(data[i]);
        proof {
            assert(data@.take(i + 1) =~= data@.take(i as int).push(data@[i as int]));
        }
        i = i + 1;
    }
    proof {
        assert(data@.take(data.len() as int) =~= data@);
    }
}

/// Adds the length prefix for `n` members to the end of `out`.
pub fn write_len_prefix(width: Width, n: usize, out: &mut Vec<u8>)
    requires
        n <= width.max_len(),
    ensures
        final(out)@ == old(out)@ + len_prefix(width, n as nat),
{
    let ghost before = out@;
    match width {
        Width::Tiny => {
            out.push((n % 256) as u8);
            assert(out@ =~= before + len_prefix(width, n as nat));
        },
        Width::Small => {
            out.push((n % 256) as u8);
            out.push((n / 256 % 256) as u8);
            assert(out@ =~= before + len_prefix(width, n as nat));
        },
        Width::Large => {
            out.push((n % 256) as u8);
            out.push((n / 256 % 256) as u8);
            out.push((n / 65536 % 256) as u8);
            out.push((n / 16777216 % 256) as u8);
            assert(out@ =~= before + len_prefix(width, n as nat));
        },
    }
}

/// The keys of a well-formed map are the canonical arrangement of its
/// domain, and there are as many of them as the domain has members.
pub proof fn lemma_keys_arranged<V>(m: &SortedMap<V>)
    requires
        m.wf(),
    ensures
        canonical_keys(m@.dom()) == m.keys(),
        m@.dom().len() == m.keys().len(),
        m@.dom().finite(),
{
    let dom = m@.dom();
    assert forall|k: Seq<u8>| m.keys().contains(k) <==> dom.contains(k) by {
        assert(m@.contains_key(k) == m.keys().contains(k));
    }
    assert(is_arrangement(m.keys(), dom));
    let q = canonical_keys(dom);
    assert(is_arrangement(q, dom));
    lemma_ascending_unique(q, m.keys());
    lemma_ascending_count(m.keys());
    assert(m.keys().to_set() =~= dom);
}

/// The same, of the byte strings that a map of byte vectors holds.
pub proof fn lemma_keys_canonical(m: &SortedMap<Vec<u8>>)
    requires
        m.wf(),
    ensures
        canonical_keys(data_view(m@).dom()) == m.keys(),
        data_view(m@).dom().len() == m.keys().len(),
        data_view(m@).dom().finite(),
{
    lemma_keys_arranged(m);
    assert(data_view(m@).dom() =~= m@.dom());
}

/// Where no key occurs twice, the collected map has as many members as
/// there are entries.
pub proof fn lemma_collect_count<V>(entries: Seq<(Seq<u8>, V)>)
    requires
        forall|a: int, b: int|
            0 <= a < b < entries.len() ==> #[trigger] entries[a].0 != #[trigger] entries[b].0,
    ensures
        collect(entries).dom().finite(),
        collect(entries).dom().len() == entries.len(),
    decreases entries.len(),
{
    if entries.len() > 0 {
        let rest = entries.drop_last();
        let last = entries.len() - 1;
        assert forall|a: int, b: int| 0 <= a < b < rest.len() implies #[trigger] rest[a].0
            != #[trigger] rest[b].0 by {
            assert(entries[a].0 != entries[b].0);
        }
        lemma_collect_count(rest);
        lemma_collect_dom(rest, entries[last].0);
        if collect(rest).contains_key(entries[last].0) {
            let i = choose|i: int| 0 <= i < rest.len() && #[trigger] rest[i].0 == entries[last].0;
            assert(entries[i].0 != entries[last].0);
        }
        assert(collect(entries).dom() =~= collect(rest).dom().insert(entries[last].0));
    }
}

/// Adds the byte form of the collection held in `m` to the end of `out`.
pub fn write_collection(width: Width, m: &SortedMap<Vec<u8>>, out: &mut Vec<u8>)
    requires
        m.wf(),
        m.keys().len() <= width.max_len(),
    ensures
        final(out)@ == old(out)@ + collection_bytes(width, data_view(m@)),
{
    let ghost before = out@;
    let ghost dm = data_view(m@);
    let ghost parts = m.keys().map_values(|k: Seq<u8>| dm[k]);
    proof {
        lemma_keys_canonical(m);
    }
    let n = m.len();
    write_len_prefix(width, n, out);
    let ghost start = out@;
    let mut i: usize = 0;
    while i < n
        invariant
            m.wf(),
            n == m.keys().len(),
            i <= n,
            dm == data_view(m@),
            parts == m.keys().map_values(|k: Seq<u8>| dm[k]),
            out@ == start + join(parts.take(i as int)),
        decreases n - i,
    {
        let data = m.value_at(i);
        append_bytes(out, data.as_slice());
        proof {
            lemma_entry(m, i as int);
            assert(parts[i as int] == data@);
            assert(parts.take(i + 1).drop_last() =~= parts.take(i as int));
            assert(out@ =~= start + join(parts.take(i + 1)));
        }
        i = i + 1;
    }
    proof {
        assert(parts.take(n as int) =~= parts);
        assert(out@ =~= before + collection_bytes(width, dm));
    }
}

} // verus!
