use vstd::prelude::*;
use vstd::arithmetic::power::pow;
use vstd::set_lib::{lemma_int_range, lemma_len_subset, set_int_range};
use rustc_hash::{FxBuildHasher, FxHashMap};
use std::collections::HashMap;

verus! {

/// rustc-hash's `FxBuildHasher`, the hasher of the index of states; it is
/// only carried, never looked into.
#[verifier::external_type_specification]
#[verifier::external_body]
pub struct ExFxBuildHasher(FxBuildHasher);

/// Canonical states mapped to their numbers.
pub type StateIndex = FxHashMap<Vec<u8>, usize>;

/// What an index of states holds: each buffer it was given, with the
/// number stored under it.
pub uninterp spec fn index_contents(m: HashMap<Vec<u8>, usize, FxBuildHasher>) -> Map<
    Seq<u8>,
    usize,
>;

/// Relies on `FxHashMap::default` (std's `HashMap::default` with
/// rustc-hash's `FxBuildHasher`): the new map is empty.
#[verifier::external_body]
fn new_index() -> (r: StateIndex)
    ensures
        index_contents(r).dom() == Set::<Seq<u8>>::empty(),
{
    FxHashMap::default()
}

/// Relies on `HashMap::get` over `FxBuildHasher`: the value stored under a
/// key equal to `k`, if there is one. Equal `Vec<u8>` keys hash alike.
#[verifier::external_body]
fn index_get(m: &StateIndex, k: &Vec<u8>) -> (r: Option<usize>)
    ensures
        r == (if index_contents(*m).contains_key(k@) {
            Some(index_contents(*m)[k@])
        } else {
            None
        }),
{
    m.get(k).copied()
}

/// Relies on `HashMap::insert` over `FxBuildHasher`: afterwards `k` maps
/// to `v` and every other key keeps its value.
#[verifier::external_body]
fn index_insert(m: &mut StateIndex, k: Vec<u8>, v: usize)
    ensures
        index_contents(*final(m)) == index_contents(*old(m)).insert(k@, v),
{
    m.insert(k, v);
}

/// Provenance of one canonical state: the state, the state it was reached
/// from, how many moves it is from the start, the move that reached it (in
/// the canonical indices of the parent), and the permutation that
/// canonicalized the result of that move (`transform[i]` is the index,
/// before sorting, of canonical tube `i`).
pub struct Node {
    pub key: Vec<u8>,
    pub parent: usize,
    pub depth: usize,
    pub from: usize,
    pub to: usize,
    pub amount: usize,
    pub transform: Vec<usize>,
}

/// The states discovered by a search, each once, numbered in the order in
/// which they were found.
pub struct StateStore {
    index: StateIndex,
    nodes: Vec<Node>,
}

impl StateStore {
    /// The nodes, in the order in which they were added.
    pub closed spec fn nodes(&self) -> Seq<Node> {
        self.nodes@
    }

    /// The number under which each state was stored.
    pub closed spec fn ids(&self) -> Map<Seq<u8>, usize> {
        index_contents(self.index)
    }

    /// The index maps each stored state, and nothing else, to its number.
    pub open spec fn wf(&self) -> bool {
        &&& forall|i: int|
            0 <= i < self.nodes().len() ==> #[trigger] self.ids().contains_key(
                self.nodes()[i].key@,
            ) && self.ids()[self.nodes()[i].key@] == i
        &&& forall|k: Seq<u8>| #[trigger]
            self.ids().contains_key(k) ==> self.ids()[k] < self.nodes().len() && self.nodes()[self.ids()[k] as int].key@ == k
    }

    pub fn new() -> (r: StateStore)
        ensures
            r.wf(),
            r.nodes().len() == 0,
    {
        StateStore { index: new_index(), nodes: Vec::new() }
    }

    pub fn len(&self) -> (r: usize)
        ensures
            r == self.nodes().len(),
    {
        self.nodes.len()
    }

    pub fn node(&self, id: usize) -> (r: &Node)
        requires
            id < self.nodes().len(),
        ensures
            *r == self.nodes()[id as int],
    {
        &self.nodes[id]
    }

    /// The number of the stored state equal to `key`, if there is one.
    pub fn lookup(&self, key: &Vec<u8>) -> (r: Option<usize>)
        requires
            self.wf(),
        ensures
            r == (if self.ids().contains_key(key@) {
                Some(self.ids()[key@])
            } else {
                None
            }),
            match r {
                Some(i) => i < self.nodes().len() && self.nodes()[i as int].key@ == key@,
                None => forall|i: int|
                    0 <= i < self.nodes().len() ==> #[trigger] self.nodes()[i].key@ != key@,
            },
    {
        let r = index_get(&self.index, key);
        proof {
            if r.is_none() {
                assert forall|i: int| 0 <= i < self.nodes().len() implies #[trigger] self.nodes()[i].key@
                    != key@ by {
                    assert(self.ids().contains_key(self.nodes()[i].key@));
                }
            }
        }
        r
    }

    /// Adds a state that is not stored yet; returns its number.
    pub fn insert(&mut self, node: Node) -> (r: usize)
        requires
            old(self).wf(),
            forall|i: int|
                0 <= i < old(self).nodes().len() ==> #[trigger] old(self).nodes()[i].key@
                    != node.key@,
        ensures
            final(self).wf(),
            final(self).nodes() == old(self).nodes().push(node),
            final(self).ids() == old(self).ids().insert(node.key@, r),
            final(self).nodes().len() <= usize::MAX,
            r == old(self).nodes().len(),
    {
        let id = self.nodes.len();
        let key = node.key.clone();
        assert(key@ == node.key@);
        let ghost old_index = index_contents(self.index);
        index_insert(&mut self.index, key, id);
        self.nodes.push(node);
        let total = self.nodes.len();
        proof {
            let m = self.ids();
            assert forall|i: int| 0 <= i < self.nodes().len() implies #[trigger] m.contains_key(
                self.nodes()[i].key@,
            ) && m[self.nodes()[i].key@] == i by {
                if i < id {
                    assert(old(self).nodes()[i].key@ != node.key@);
                    assert(old(self).ids().contains_key(old(self).nodes()[i].key@));
                } else {
                    assert(self.nodes()[i] == node);
                }
            }
            assert forall|k: Seq<u8>| #[trigger] m.contains_key(k) implies m[k] < self.nodes().len()
                && self.nodes()[m[k] as int].key@ == k by {
                if k != node.key@ {
                    assert(old(self).ids().contains_key(k));
                }
            }
        }
        id
    }
}

/// A number for each buffer, different for different buffers of one length.
pub open spec fn encode(s: Seq<u8>) -> int
    decreases s.len(),
{
    if s.len() == 0 {
        0
    } else {
        s[0] as int + 256 * encode(s.drop_first())
    }
}

proof fn lemma_encode_bound(s: Seq<u8>)
    ensures
        0 <= encode(s) < pow(256, s.len()),
    decreases s.len(),
{
    reveal(pow);
    if s.len() > 0 {
        lemma_encode_bound(s.drop_first());
        let e = encode(s.drop_first());
        let p = pow(256, (s.len() - 1) as nat);
        assert(pow(256, s.len()) == 256 * p);
        let d = s[0] as int;
        assert(0 <= d + 256 * e < 256 * p) by (nonlinear_arith)
            requires
                0 <= d < 256,
                0 <= e < p,
        ;
    }
}

proof fn lemma_encode_injective(a: Seq<u8>, b: Seq<u8>)
    requires
        a.len() == b.len(),
        encode(a) == encode(b),
    ensures
        a == b,
    decreases a.len(),
{
    if a.len() > 0 {
        let x = a[0] as int;
        let y = b[0] as int;
        let ea = encode(a.drop_first());
        let eb = encode(b.drop_first());
        lemma_encode_bound(a.drop_first());
        lemma_encode_bound(b.drop_first());
        assert(x == y && ea == eb) by (nonlinear_arith)
            requires
                0 <= x < 256,
                0 <= y < 256,
                x + 256 * ea == y + 256 * eb,
        ;
        lemma_encode_injective(a.drop_first(), b.drop_first());
        assert(a =~= b) by {
            assert forall|i: int| 0 <= i < a.len() implies a[i] == b[i] by {
                if i > 0 {
                    assert(a.drop_first()[i - 1] == b.drop_first()[i - 1]);
                }
            }
        }
    } else {
        assert(a =~= b);
    }
}

/// Distinct buffers of one length are no more than the buffers of that length.
pub proof fn lemma_distinct_keys_bounded(keys: Seq<Seq<u8>>, len: nat)
    requires
        keys.no_duplicates(),
        forall|i: int| 0 <= i < keys.len() ==> (#[trigger] keys[i]).len() == len,
    ensures
        keys.len() <= pow(256, len),
{
    let codes = keys.map_values(|s: Seq<u8>| encode(s));
    assert forall|i: int, j: int| 0 <= i < codes.len() && 0 <= j < codes.len() && i != j implies codes[i]
        != codes[j] by {
        if codes[i] == codes[j] {
            lemma_encode_injective(keys[i], keys[j]);
        }
    }
    assert(codes.no_duplicates());
    codes.unique_seq_to_set();
    let bound = pow(256, len);
    vstd::arithmetic::power::lemma_pow_positive(256, len);
    assert forall|c: int| codes.to_set().contains(c) implies set_int_range(0, bound).contains(c) by {
        let i = choose|i: int| 0 <= i < codes.len() && codes[i] == c;
        lemma_encode_bound(keys[i]);
    }
    lemma_int_range(0, bound);
    lemma_len_subset(codes.to_set(), set_int_range(0, bound));
}

/// A store holds no more states than there are buffers of their length.
pub proof fn lemma_store_bounded(store: StateStore, len: nat)
    requires
        store.wf(),
        forall|i: int| 0 <= i < store.nodes().len() ==> (#[trigger] store.nodes()[i]).key@.len() == len,
    ensures
        store.nodes().len() <= pow(256, len),
{
    let keys = store.nodes().map_values(|nd: Node| nd.key@);
    assert forall|i: int, j: int| 0 <= i < keys.len() && 0 <= j < keys.len() && i != j implies keys[i]
        != keys[j] by {
        assert(store.ids().contains_key(store.nodes()[i].key@));
        assert(store.ids().contains_key(store.nodes()[j].key@));
    }
    assert forall|i: int| 0 <= i < keys.len() implies (#[trigger] keys[i]).len() == len by {
        assert(store.nodes()[i].key@.len() == len);
    }
    lemma_distinct_keys_bounded(keys, len);
}

} // verus!
