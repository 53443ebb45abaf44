use vstd::prelude::*;
use crate::segment::Segment;

verus! {

// The registry keeps its segments in an `indexmap::IndexMap`, the same
// insertion-ordered map the configuration API is specified against: iteration
// order is the order in which keys were first inserted, and that order
// defines the left-to-right placement of segments on the strip.
#[verifier::external_type_specification]
#[verifier::external_body]
#[verifier::reject_recursive_types(K)]
#[verifier::reject_recursive_types(V)]
#[verifier::reject_recursive_types(S)]
pub struct ExIndexMap<K, V, S>(indexmap::IndexMap<K, V, S>);

/// The entries a segment map holds, as a sequence of (key, segment) pairs in
/// insertion order. What `indexmap::IndexMap` actually holds is visible only
/// through the trusted wrappers below, which state how each call changes or
/// reads this sequence.
pub uninterp spec fn map_entries(m: indexmap::IndexMap<String, Segment>) -> Seq<(Seq<char>, Segment)>;

/// Index of the first entry whose key is `k`, or -1 if no entry has key `k`.
pub open spec fn find_key(es: Seq<(Seq<char>, Segment)>, k: Seq<char>) -> int
    decreases es.len(),
{
    if es.len() == 0 {
        -1
    } else if es[0].0 == k {
        0
    } else {
        let r = find_key(es.drop_first(), k);
        if r < 0 {
            -1
        } else {
            r + 1
        }
    }
}

/// No two entries share a key.
pub open spec fn distinct_keys(es: Seq<(Seq<char>, Segment)>) -> bool {
    forall|i: int, j: int| 0 <= i < j < es.len() ==> es[i].0 != es[j].0
}

/// What `find_key` returns: -1 exactly when the key is absent, otherwise the
/// first index holding the key.
pub proof fn lemma_find_key(es: Seq<(Seq<char>, Segment)>, k: Seq<char>)
    ensures
        find_key(es, k) < 0 ==> forall|i: int| 0 <= i < es.len() ==> es[i].0 != k,
        find_key(es, k) >= 0 ==> find_key(es, k) < es.len() && es[find_key(es, k)].0 == k,
        find_key(es, k) >= 0 ==> forall|i: int| 0 <= i < find_key(es, k) ==> es[i].0 != k,
    decreases es.len(),
{
    if es.len() > 0 && es[0].0 != k {
        lemma_find_key(es.drop_first(), k);
        assert forall|i: int| 1 <= i < es.len() implies es.drop_first()[i - 1] == es[i] by {}
    }
}

/// Relies on `indexmap::IndexMap::new`: creates an empty map.
#[verifier::external_body]
fn map_new() -> (m: indexmap::IndexMap<String, Segment>)
    ensures
        map_entries(m) == Seq::<(Seq<char>, Segment)>::empty(),
{
    indexmap::IndexMap::new()
}

/// Relies on `indexmap::IndexMap::insert`: a new key is appended last in
/// order; an existing key keeps its place in the order and only its value is
/// updated.
#[verifier::external_body]
fn map_insert(m: &mut indexmap::IndexMap<String, Segment>, k: String, v: Segment)
    ensures
        find_key(map_entries(*old(m)), k@) < 0 ==> map_entries(*final(m)) == map_entries(
            *old(m),
        ).push((k@, v)),
        find_key(map_entries(*old(m)), k@) >= 0 ==> map_entries(*final(m)) == map_entries(
            *old(m),
        ).update(find_key(map_entries(*old(m)), k@), (k@, v)),
{
    m.insert(k, v);
}

/// Relies on `indexmap::IndexMap::len`: the number of entries.
#[verifier::external_body]
fn map_len(m: &indexmap::IndexMap<String, Segment>) -> (n: usize)
    ensures
        n == map_entries(*m).len(),
{
    m.len()
}

/// Relies on `indexmap::IndexMap::get_index`: entries are indexed in
/// insertion order.
#[verifier::external_body]
fn map_entry_at(m: &indexmap::IndexMap<String, Segment>, i: usize) -> (e: (String, Segment))
    requires
        i < map_entries(*m).len(),
    ensures
        (e.0@, e.1) == map_entries(*m)[i as int],
{
    let (k, v) = m.get_index(i).unwrap();
    (k.clone(), *v)
}

/// Relies on `indexmap::IndexMap::clone` (via its `Clone` impl): the copy
/// holds the same entries in the same order.
#[verifier::external_body]
fn map_clone(m: &indexmap::IndexMap<String, Segment>) -> (c: indexmap::IndexMap<String, Segment>)
    ensures
        map_entries(c) == map_entries(*m),
{
    m.clone()
}

/// The ordered, keyed collection of segments that the render loop reads and
/// the configuration handler replaces. Its abstract value is the sequence of
/// (identifier, segment) pairs in insertion order; `inv` says the
/// identifiers are pairwise distinct, which every constructor establishes.
pub struct Registry {
    map: indexmap::IndexMap<String, Segment>,
}

impl View for Registry {
    type V = Seq<(Seq<char>, Segment)>;

    closed spec fn view(&self) -> Seq<(Seq<char>, Segment)> {
        map_entries(self.map)
    }
}

impl Registry {
    /// Key uniqueness, an invariant of every registry this module hands out.
    pub open spec fn inv(&self) -> bool {
        distinct_keys(self@)
    }

    /// An empty registry.
    pub fn new() -> (r: Registry)
        ensures
            r@ == Seq::<(Seq<char>, Segment)>::empty(),
            r.inv(),
    {
        Registry { map: map_new() }
    }

    pub fn len(&self) -> (n: usize)
        ensures
            n == self@.len(),
    {
        map_len(&self.map)
    }

    /// The entry at position `i` in insertion order.
    pub fn entry_at(&self, i: usize) -> (e: (String, Segment))
        requires
            i < self@.len(),
        ensures
            (e.0@, e.1) == self@[i as int],
    {
        map_entry_at(&self.map, i)
    }

    /// Inserts or updates one segment: a new identifier is appended last in
    /// order, an existing identifier keeps its position and has its segment
    /// replaced.
    pub fn insert(&mut self, id: String, seg: Segment)
        requires
            old(self).inv(),
        ensures
            find_key(old(self)@, id@) < 0 ==> final(self)@ == old(self)@.push((id@, seg)),
            find_key(old(self)@, id@) >= 0 ==> final(self)@ == old(self)@.update(
                find_key(old(self)@, id@),
                (id@, seg),
            ),
            final(self).inv(),
    {
        proof {
            lemma_find_key(self@, id@);
        }
        map_insert(&mut self.map, id, seg);
    }

    /// An independent, immutable copy of the current mapping, order
    /// preserved: the point-in-time snapshot the render loop works from.
    pub fn snapshot(&self) -> (r: Registry)
        ensures
            r@ == self@,
    {
        Registry { map: map_clone(&self.map) }
    }

    /// Atomically swaps the entire contents for `new`. Accepts any
    /// well-typed registry; validation of incoming segments is the
    /// configuration handler's responsibility.
    pub fn replace(&mut self, new: Registry)
        ensures
            final(self)@ == new@,
    {
        *self = new;
    }

    /// All entries as a vector of (identifier, segment) pairs, in insertion
    /// order.
    pub fn entries(&self) -> (r: Vec<(String, Segment)>)
        ensures
            r@.len() == self@.len(),
            forall|i: int| 0 <= i < r@.len() ==> (r@[i].0@, r@[i].1) == self@[i],
    {
        let n = self.len();
        let mut out: Vec<(String, Segment)> = Vec::new();
        let mut i: usize = 0;
        while i < n
            invariant
                n == self@.len(),
                i <= n,
                out@.len() == i,
                forall|j: int| 0 <= j < i ==> (out@[j].0@, out@[j].1) == self@[j],
            decreases n - i,
        {
            let e = self.entry_at(i);
            out.push(e);
            i = i + 1;
        }
        out
    }
}

/// The registry as the render loop and the configuration handlers share
/// it: one writer at a time, readers never observe a partially updated
/// collection. The lock stores whole `Registry` values only and its
/// predicate keeps them well formed, so every snapshot is one complete
/// mapping (the one before or the one after any concurrent `replace`),
/// never a mixture of entries from both.
pub struct SharedRegistry {
    lock: vstd::rwlock::RwLock<Registry, spec_fn(Registry) -> bool>,
}

impl SharedRegistry {
    /// The lock holds exactly the registries that satisfy `Registry::inv`.
    pub closed spec fn wf(&self) -> bool {
        forall|v: Registry| self.lock.inv(v) <==> v.inv()
    }

    pub fn new(reg: Registry) -> (s: SharedRegistry)
        requires
            reg.inv(),
        ensures
            s.wf(),
    {
        let ghost pred = |v: Registry| v.inv();
        let lock = vstd::rwlock::RwLock::new(reg, Ghost(pred));
        proof {
            assert forall|v: Registry| lock.inv(v) <==> v.inv() by {
                assert(pred(v) == v.inv());
            }
        }
        SharedRegistry { lock }
    }

    /// An independent, immutable copy of the current mapping: blocks only
    /// while the copy is taken and never fails.
    pub fn snapshot(&self) -> (r: Registry)
        requires
            self.wf(),
        ensures
            r.inv(),
    {
        let handle = self.lock.acquire_read();
        let val = handle.borrow();
        let r = val.snapshot();
        proof {
            assert(handle.view().inv());
            assert(r@ == handle.view()@);
        }
        handle.release_read();
        r
    }

    /// Atomically swaps the entire shared contents for `new`. Concurrent
    /// `replace` calls are serialized by the write lock; persistence is the
    /// caller's business and must not happen while the lock is held.
    pub fn replace(&self, new: Registry)
        requires
            self.wf(),
            new.inv(),
    {
        let (_old, handle) = self.lock.acquire_write();
        handle.release_write(new);
    }
}

} // verus!
