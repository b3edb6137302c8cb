//! The transactional list store: thunks (immutable values named by id),
//! the serializable map from keys to thunks of integer lists, and the
//! execution of a transaction against such a map.

use vstd::prelude::*;
use std::collections::HashMap;
use crate::text::{decimal, format_i32, i32_of, parse_i32, push_char, push_i32};

verus! {

broadcast use vstd::std_specs::hash::group_hash_axioms;

/// Hands out thunk ids `{node}-{n}` with `n` counting up from zero.
pub struct IdGenerator {
    node_id: String,
    i: i32,
}

/// The id a node gives its `n`th thunk.
pub open spec fn thunk_id(node: Seq<char>, n: int) -> Seq<char> {
    node + seq!['-'] + decimal(n)
}

impl IdGenerator {
    pub closed spec fn node_spec(&self) -> Seq<char> {
        self.node_id@
    }

    pub closed spec fn counter(&self) -> int {
        self.i as int
    }

    pub fn init(node_id: String) -> (r: IdGenerator)
        ensures
            r.node_spec() == node_id@,
            r.counter() == 0,
    {
        IdGenerator { node_id, i: 0 }
    }

    /// Whether another id can be handed out.
    pub fn has_next_id(&self) -> (r: bool)
        ensures
            r == (self.counter() < i32::MAX),
    {
        self.i < 2147483647
    }

    /// How many more ids can be handed out.
    pub fn remaining(&self) -> (r: u32)
        requires
            0 <= self.counter(),
        ensures
            r == i32::MAX - self.counter(),
    {
        (2147483647 - self.i) as u32
    }

    /// A fresh id: no id handed out before by this generator equals it.
    pub fn get_next_id(&mut self) -> (r: String)
        requires
            old(self).counter() < i32::MAX,
            old(self).counter() >= 0,
        ensures
            r@ == thunk_id(old(self).node_spec(), old(self).counter()),
            final(self).counter() == old(self).counter() + 1,
            final(self).node_spec() == old(self).node_spec(),
    {
        let mut id = self.node_id.clone();
        push_char(&mut id, '-');
        push_i32(&mut id, self.i);
        self.i = self.i + 1;
        assert(id@ =~= thunk_id(old(self).node_spec(), old(self).counter()));
        id
    }
}

/// An immutable list stored under `id`, possibly with its value at hand,
/// and whether the store already holds it.
pub struct Thunk {
    id: String,
    value: Option<Vec<i32>>,
    saved: bool,
}

impl Thunk {
    pub closed spec fn id_spec(&self) -> Seq<char> {
        self.id@
    }

    pub closed spec fn saved_spec(&self) -> bool {
        self.saved
    }

    pub fn id(&self) -> (r: String)
        ensures
            r@ == self.id_spec(),
    {
        self.id.clone()
    }

    /// Whether the store already holds this thunk.
    pub fn is_saved(&self) -> (r: bool)
        ensures
            r == self.saved_spec(),
    {
        self.saved
    }

    /// The list, where it is at hand.
    pub closed spec fn cached(&self) -> Option<Seq<i32>> {
        match self.value {
            Some(v) => Some(v@),
            None => None,
        }
    }

    pub fn init(id: String, v: Option<Vec<i32>>, saved: bool) -> (r: Thunk)
        ensures
            r.id_spec() == id@,
            r.saved_spec() == saved,
            r.cached() == match v {
                Some(l) => Some(l@),
                None => None::<Seq<i32>>,
            },
    {
        Thunk { id, value: v, saved }
    }

    /// The list, where it is at hand.
    pub fn value(&self) -> (r: Option<Vec<i32>>)
        ensures
            match r {
                Some(l) => self.cached() == Some(l@),
                None => self.cached() is None,
            },
    {
        match &self.value {
            Some(v) => Some(v.clone()),
            None => None,
        }
    }

    /// Keeps the list that the store holds under this thunk's id.
    pub fn load(&mut self, v: Vec<i32>)
        ensures
            final(self).cached() == Some(v@),
            final(self).id_spec() == old(self).id_spec(),
            final(self).saved_spec() == old(self).saved_spec(),
    {
        self.value = Some(v);
    }

    /// Records that the store holds this thunk; it stays so.
    pub fn mark_saved(&mut self)
        ensures
            final(self).saved_spec(),
            final(self).id_spec() == old(self).id_spec(),
            final(self).cached() == old(self).cached(),
    {
        self.saved = true;
    }
}

/// A map from keys to thunks of integer lists: the value of a database.
/// The keys are also kept in the order they first appeared.
pub struct SerializableMap {
    map: HashMap<i32, Thunk>,
    order: Vec<i32>,
    has_changed: bool,
}

/// The keys of a list of key and id pairs, each with the id of its last pair.
pub open spec fn ids_of(entries: Seq<(i32, Seq<char>)>) -> Map<i32, Seq<char>>
    decreases entries.len(),
{
    if entries.len() == 0 {
        Map::empty()
    } else {
        ids_of(entries.drop_last()).insert(entries.last().0, entries.last().1)
    }
}

/// The text form of a map: each key written in decimal, with its thunk's id.
pub open spec fn json_of(entries: Seq<(i32, Seq<char>)>) -> Seq<(Seq<char>, Seq<char>)> {
    entries.map_values(|e: (i32, Seq<char>)| (decimal(e.0 as int), e.1))
}

/// The keys and ids that a text form denotes, if every key reads as an
/// `i32`; a later key overrides an earlier one.
pub open spec fn ids_of_json(json: Seq<(Seq<char>, Seq<char>)>) -> Option<Map<i32, Seq<char>>>
    decreases json.len(),
{
    if json.len() == 0 {
        Some(Map::empty())
    } else {
        match (ids_of_json(json.drop_last()), i32_of(json.last().0)) {
            (Some(m), Some(k)) => Some(m.insert(k, json.last().1)),
            _ => None,
        }
    }
}

/// Whether `r` holds a pair of the id and the list.
pub open spec fn listed(r: Seq<(String, Vec<i32>)>, id: Seq<char>, list: Option<Seq<i32>>) -> bool {
    exists|x: int| 0 <= x < r.len() && r[x].0@ == id && Some(r[x].1@) == list
}

/// The text of each pair of a list of string pairs.
pub open spec fn pair_views(v: Seq<(String, String)>) -> Seq<(Seq<char>, Seq<char>)> {
    v.map_values(|e: (String, String)| (e.0@, e.1@))
}

impl SerializableMap {
    /// Each key's thunk.
    pub closed spec fn thunks(&self) -> Map<i32, Thunk> {
        self.map@
    }

    /// The keys in the order they first appeared.
    pub closed spec fn order(&self) -> Seq<i32> {
        self.order@
    }

    /// The keys in order with their thunks' ids.
    pub open spec fn entries(&self) -> Seq<(i32, Seq<char>)> {
        self.order().map_values(|k: i32| (k, self.thunks()[k].id_spec()))
    }

    /// Each key's thunk id.
    pub open spec fn ids(&self) -> Map<i32, Seq<char>> {
        self.thunks().map_values(|t: Thunk| t.id_spec())
    }

    /// The lists at hand, by key.
    pub open spec fn lists(&self) -> Map<i32, Seq<i32>> {
        Map::new(
            |k: i32| self.thunks().contains_key(k) && self.thunks()[k].cached() is Some,
            |k: i32| self.thunks()[k].cached()->0,
        )
    }

    /// Whether `k` is absent or its list is at hand.
    pub open spec fn loaded(&self, k: i32) -> bool {
        self.thunks().contains_key(k) ==> self.thunks()[k].cached() is Some
    }

    pub closed spec fn changed(&self) -> bool {
        self.has_changed
    }

    pub closed spec fn wf(&self) -> bool {
        &&& self.order@.no_duplicates()
        &&& forall|k: i32| self.map@.contains_key(k) <==> self.order@.contains(k)
    }

    pub fn init() -> (r: SerializableMap)
        ensures
            r.wf(),
            r.thunks().is_empty(),
            !r.changed(),
    {
        let r = SerializableMap { map: HashMap::new(), order: Vec::new(), has_changed: false };
        assert(r.thunks() =~= Map::<i32, Thunk>::empty());
        r
    }

    /// Whether any list was appended to since the map was built.
    pub fn has_changed(&self) -> (r: bool)
        ensures
            r == self.changed(),
    {
        self.has_changed
    }

    /// The id of `k`'s thunk when its list is not at hand yet.
    pub fn missing_thunk(&self, k: i32) -> (r: Option<String>)
        ensures
            r is None <==> self.loaded(k),
            r matches Some(id) ==> self.ids().contains_key(k) && self.ids()[k] == id@,
    {
        match self.map.get(&k) {
            None => None,
            Some(t) => if t.value.is_some() {
                None
            } else {
                Some(t.id.clone())
            },
        }
    }

    /// Keeps the list that the store holds for `k`'s thunk.
    pub fn load(&mut self, k: i32, values: Vec<i32>)
        requires
            old(self).wf(),
        ensures
            final(self).wf(),
            final(self).ids() == old(self).ids(),
            final(self).order() == old(self).order(),
            final(self).changed() == old(self).changed(),
            forall|j: i32| j != k ==> #[trigger] final(self).thunks().contains_key(j) == old(self).thunks().contains_key(j)
                && (old(self).thunks().contains_key(j) ==> final(self).thunks()[j] == old(self).thunks()[j]),
            old(self).thunks().contains_key(k) ==> final(self).thunks().contains_key(k)
                && final(self).thunks()[k].cached() == Some(values@)
                && final(self).thunks()[k].saved_spec() == old(self).thunks()[k].saved_spec(),
            !old(self).thunks().contains_key(k) ==> final(self).thunks() == old(self).thunks(),
    {
        match self.map.remove(&k) {
            None => {},
            Some(mut t) => {
                t.load(values);
                self.map.insert(k, t);
                proof {
                    assert(self.ids() =~= old(self).ids());
                }
            },
        }
    }

    /// The list at `k`, if the map has `k`.
    pub fn read(&self, k: i32) -> (r: Option<Vec<i32>>)
        requires
            self.loaded(k),
        ensures
            match r {
                Some(l) => self.lists().contains_key(k) && l@ == self.lists()[k],
                None => !self.thunks().contains_key(k),
            },
    {
        match self.map.get(&k) {
            None => None,
            Some(t) => t.value(),
        }
    }

    /// Appends `v` to the list at `k` (an empty one if absent), held in a
    /// new unsaved thunk named `new_id`.
    pub fn append(&mut self, k: i32, v: i32, new_id: String)
        requires
            old(self).wf(),
            old(self).loaded(k),
        ensures
            final(self).wf(),
            final(self).changed(),
            final(self).thunks() == old(self).thunks().insert(k, final(self).thunks()[k]),
            final(self).thunks()[k].id_spec() == new_id@,
            !final(self).thunks()[k].saved_spec(),
            final(self).thunks()[k].cached() == Some(
                (if old(self).thunks().contains_key(k) { old(self).lists()[k] } else { Seq::empty() }).push(v),
            ),
            old(self).thunks().contains_key(k) ==> final(self).order() == old(self).order(),
            !old(self).thunks().contains_key(k) ==> final(self).order() == old(self).order().push(k),
    {
        let current = self.read(k);
        let mut list = match current {
            Some(l) => l,
            None => Vec::new(),
        };
        list.push(v);
        let thunk = Thunk::init(new_id, Some(list), false);
        let previous = self.map.insert(k, thunk);
        if previous.is_none() {
            proof {
                assert(!old(self).order@.contains(k));
            }
            self.order.push(k);
            proof {
                assert(self.order@.no_duplicates()) by {
                    assert forall|a: int, b: int| 0 <= a < b < self.order@.len() implies self.order@[a] != self.order@[b] by {
                        if b == self.order@.len() - 1 {
                            assert(old(self).order@[a] == self.order@[a]);
                        } else {
                            assert(old(self).order@[a] == self.order@[a]);
                            assert(old(self).order@[b] == self.order@[b]);
                        }
                    }
                }
                assert forall|j: i32| self.map@.contains_key(j) <==> self.order@.contains(j) by {
                    if j != k {
                        assert(old(self).order@.contains(j) ==> self.order@.contains(j)) by {
                            if old(self).order@.contains(j) {
                                let x = choose|x: int| 0 <= x < old(self).order@.len() && old(self).order@[x] == j;
                                assert(self.order@[x] == j);
                            }
                        }
                        assert(self.order@.contains(j) ==> old(self).order@.contains(j)) by {
                            if self.order@.contains(j) {
                                let x = choose|x: int| 0 <= x < self.order@.len() && self.order@[x] == j;
                                assert(x < old(self).order@.len());
                                assert(old(self).order@[x] == j);
                            }
                        }
                    } else {
                        assert(self.order@[self.order@.len() - 1] == k);
                    }
                }
            }
        }
        else {
            proof {
                assert(old(self).map@.contains_key(k));
                assert forall|j: i32| self.map@.contains_key(j) <==> self.order@.contains(j) by {
                    assert(old(self).map@.contains_key(j) <==> old(self).order@.contains(j));
                }
            }
        }
        self.has_changed = true;
        proof {
            assert(self.thunks() =~= old(self).thunks().insert(k, self.thunks()[k]));
        }
    }

    /// The text form: each key in order of first appearance, in decimal,
    /// with its thunk's id.
    pub fn to_json(&self) -> (r: Vec<(String, String)>)
        requires
            self.wf(),
        ensures
            pair_views(r@) == json_of(self.entries()),
    {
        let mut out: Vec<(String, String)> = Vec::new();
        let mut i: usize = 0;
        while i < self.order.len()
            invariant
                self.wf(),
                i <= self.order@.len(),
                pair_views(out@) == json_of(self.entries()).subrange(0, i as int),
            decreases self.order@.len() - i,
        {
            let k = self.order[i];
            proof {
                assert(self.order@.contains(k));
            }
            let id = match self.map.get(&k) {
                Some(t) => t.id(),
                None => String::new(),
            };
            proof {
                assert(self.map@.contains_key(k));
                assert(id@ == self.thunks()[k].id_spec());
                assert(json_of(self.entries())[i as int] == (decimal(k as int), id@));
            }
            let ghost before = out@;
            out.push((format_i32(k), id));
            i = i + 1;
            proof {
                assert(pair_views(before).len() == before.len());
                assert(before.len() == i - 1);
                assert(out@.len() == i);
                assert(json_of(self.entries()).len() == self.order@.len());
                assert(pair_views(out@) =~= json_of(self.entries()).subrange(0, i as int)) by {
                    assert forall|x: int| 0 <= x < out@.len() implies #[trigger] pair_views(out@)[x] == json_of(self.entries()).subrange(0, i as int)[x] by {
                        if x < before.len() {
                            assert(out@[x] == before[x]);
                            assert(pair_views(before)[x] == json_of(self.entries()).subrange(0, i as int - 1)[x]);
                        } else {
                            assert(x == i - 1);
                        }
                    }
                }
            }
        }
        proof {
            assert(json_of(self.entries()).subrange(0, i as int) =~= json_of(self.entries()));
        }
        out
    }

    /// The map that a text form denotes, every thunk saved and not at hand;
    /// `None` where a key does not read as an `i32`.
    pub fn from_json(json: &Vec<(String, String)>) -> (r: Option<SerializableMap>)
        ensures
            r is None <==> ids_of_json(pair_views(json@)) is None,
            r matches Some(m) ==> {
                &&& m.wf()
                &&& !m.changed()
                &&& Some(m.ids()) == ids_of_json(pair_views(json@))
                &&& forall|k: i32| #[trigger] m.thunks().contains_key(k) ==> m.thunks()[k].saved_spec()
                    && m.thunks()[k].cached() is None
            },
    {
        let mut m = SerializableMap::init();
        let mut i: usize = 0;
        proof {
            assert(pair_views(json@).subrange(0, 0) =~= Seq::<(Seq<char>, Seq<char>)>::empty());
            assert(m.ids() =~= Map::<i32, Seq<char>>::empty());
        }
        while i < json.len()
            invariant
                i <= json@.len(),
                m.wf(),
                !m.changed(),
                Some(m.ids()) == ids_of_json(pair_views(json@).subrange(0, i as int)),
                forall|k: i32| #[trigger] m.thunks().contains_key(k) ==> m.thunks()[k].saved_spec()
                    && m.thunks()[k].cached() is None,
            decreases json@.len() - i,
        {
            let ghost pre = pair_views(json@).subrange(0, i as int);
            let ghost next = pair_views(json@).subrange(0, i as int + 1);
            proof {
                assert(next.drop_last() =~= pre);
                assert(next.last() == (json@[i as int].0@, json@[i as int].1@));
            }
            let key = parse_i32(json[i].0.as_str());
            match key {
                None => {
                    proof {
                        lemma_json_none_extends(pair_views(json@), i as int + 1);
                        assert(pair_views(json@).subrange(0, json@.len() as int) =~= pair_views(json@));
                    }
                    return None;
                },
                Some(k) => {
                    let t = Thunk::init(json[i].1.clone(), None, true);
                    m.put_saved(k, t);
                    proof {
                        assert(m.ids() =~= ids_of_json(next)->0);
                    }
                },
            }
            i = i + 1;
        }
        proof {
            assert(pair_views(json@).subrange(0, json@.len() as int) =~= pair_views(json@));
        }
        Some(m)
    }

    /// Puts a thunk at `k`, replacing what was there.
    fn put_saved(&mut self, k: i32, t: Thunk)
        requires
            old(self).wf(),
        ensures
            final(self).wf(),
            final(self).changed() == old(self).changed(),
            final(self).thunks() == old(self).thunks().insert(k, t),
    {
        let previous = self.map.insert(k, t);
        if previous.is_none() {
            proof {
                assert(!old(self).order@.contains(k));
            }
            self.order.push(k);
            proof {
                lemma_push_fresh(old(self).order@, k);
                assert forall|j: i32| self.map@.contains_key(j) <==> self.order@.contains(j) by {
                    lemma_push_contains(old(self).order@, k, j);
                }
            }
        } else {
            proof {
                assert forall|j: i32| self.map@.contains_key(j) <==> self.order@.contains(j) by {
                    assert(old(self).map@.contains_key(j) <==> old(self).order@.contains(j));
                }
            }
        }
    }

    /// Whether `e` is the id and the list of a thunk of the map that the
    /// store does not hold yet.
    pub open spec fn holds_unsaved(&self, e: (String, Vec<i32>)) -> bool {
        exists|k: i32| #[trigger] self.thunks().contains_key(k) && !self.thunks()[k].saved_spec()
            && self.thunks()[k].id_spec() == e.0@ && self.thunks()[k].cached() == Some(e.1@)
    }

    /// Whether the thunk of `k` has its list at hand but is not in the
    /// store yet.
    pub open spec fn pending_save(&self, k: i32) -> bool {
        self.thunks().contains_key(k) && !self.thunks()[k].saved_spec() && self.thunks()[k].cached() is Some
    }

    /// The id and list of every thunk that the store does not hold yet, in
    /// key order: each pair returned is such a thunk, and each such thunk
    /// whose list is at hand is returned.
    pub fn unsaved(&self) -> (r: Vec<(String, Vec<i32>)>)
        requires
            self.wf(),
        ensures
            forall|x: int| 0 <= x < r@.len() ==> self.holds_unsaved(#[trigger] r@[x]),
            forall|k: i32| #[trigger] self.pending_save(k) ==> listed(
                r@,
                self.thunks()[k].id_spec(),
                self.thunks()[k].cached(),
            ),
    {
        let mut out: Vec<(String, Vec<i32>)> = Vec::new();
        let mut i: usize = 0;
        while i < self.order.len()
            invariant
                self.wf(),
                i <= self.order@.len(),
                forall|x: int| 0 <= x < out@.len() ==> self.holds_unsaved(#[trigger] out@[x]),
                forall|k: i32| #[trigger] self.pending_save(k) && self.order@.subrange(0, i as int).contains(k)
                    ==> listed(out@, self.thunks()[k].id_spec(), self.thunks()[k].cached()),
            decreases self.order@.len() - i,
        {
            let k = self.order[i];
            let ghost before_loop = out@;
            proof {
                assert forall|j: i32| self.order@.subrange(0, i as int + 1).contains(j)
                    implies self.order@.subrange(0, i as int).contains(j) || j == k by {
                    let x = choose|x: int| 0 <= x < i + 1 && #[trigger] self.order@.subrange(0, i as int + 1)[x] == j;
                    if x < i {
                        assert(self.order@.subrange(0, i as int)[x] == j);
                    }
                }
                assert(self.order@.contains(k));
            }
            match self.map.get(&k) {
                Some(t) => {
                    if !t.saved {
                        match t.value() {
                            Some(v) => {
                                let ghost before = out@;
                                out.push((t.id(), v));
                                proof {
                                    assert forall|x: int| 0 <= x < out@.len() implies self.holds_unsaved(#[trigger] out@[x]) by {
                                        if x < before.len() {
                                            assert(out@[x] == before[x]);
                                        } else {
                                            assert(self.thunks().contains_key(k));
                                        }
                                    }
                                }
                            },
                            None => {},
                        }
                    }
                },
                None => {},
            }
            proof {
                assert forall|j: i32| #[trigger] self.pending_save(j) && self.order@.subrange(0, i as int + 1).contains(j)
                    implies listed(out@, self.thunks()[j].id_spec(), self.thunks()[j].cached()) by {
                    if self.order@.subrange(0, i as int).contains(j) {
                        let x = choose|x: int| 0 <= x < before_loop.len() && before_loop[x].0@ == self.thunks()[j].id_spec()
                            && Some(before_loop[x].1@) == self.thunks()[j].cached();
                        assert(out@[x] == before_loop[x]);
                    } else {
                        assert(j == k);
                        assert(out@[out@.len() - 1].0@ == self.thunks()[k].id_spec());
                    }
                }
            }
            i = i + 1;
        }
        proof {
            assert(self.order@.subrange(0, i as int) =~= self.order@);
            assert forall|k: i32| #[trigger] self.pending_save(k) implies listed(out@, self.thunks()[k].id_spec(), self.thunks()[k].cached()) by {
                assert(self.order@.contains(k));
            }
        }
        out
    }

    /// Records that the store holds the thunk of `k`.
    pub fn mark_saved(&mut self, k: i32)
        requires
            old(self).wf(),
        ensures
            final(self).wf(),
            final(self).ids() == old(self).ids(),
            final(self).changed() == old(self).changed(),
            final(self).thunks().dom() == old(self).thunks().dom(),
            old(self).thunks().contains_key(k) ==> final(self).thunks()[k].saved_spec()
                && final(self).thunks()[k].cached() == old(self).thunks()[k].cached(),
            forall|j: i32| j != k && #[trigger] old(self).thunks().contains_key(j) ==> final(self).thunks()[j]
                == old(self).thunks()[j],
    {
        match self.map.remove(&k) {
            None => {},
            Some(mut t) => {
                t.mark_saved();
                self.map.insert(k, t);
                proof {
                    assert(self.ids() =~= old(self).ids());
                    assert(self.thunks().dom() =~= old(self).thunks().dom());
                }
            },
        }
    }

    pub proof fn lemma_wf_keys(&self)
        requires
            self.wf(),
        ensures
            self.order().no_duplicates(),
            forall|k: i32| self.ids().contains_key(k) <==> self.order().contains(k),
    {
    }
}


proof fn lemma_push_fresh(s: Seq<i32>, k: i32)
    requires
        s.no_duplicates(),
        !s.contains(k),
    ensures
        s.push(k).no_duplicates(),
{
    let t = s.push(k);
    assert forall|a: int, b: int| 0 <= a < b < t.len() implies t[a] != t[b] by {
        assert(t[a] == s[a]);
        if b < s.len() {
            assert(t[b] == s[b]);
        }
    }
}

proof fn lemma_push_contains(s: Seq<i32>, k: i32, j: i32)
    ensures
        s.push(k).contains(j) <==> (s.contains(j) || j == k),
{
    let t = s.push(k);
    if s.contains(j) {
        let x = choose|x: int| 0 <= x < s.len() && s[x] == j;
        assert(t[x] == j);
    }
    if j == k {
        assert(t[s.len() as int] == k);
    }
    if t.contains(j) {
        let x = choose|x: int| 0 <= x < t.len() && t[x] == j;
        if x < s.len() {
            assert(s[x] == j);
        }
    }
}

proof fn lemma_json_none_extends(json: Seq<(Seq<char>, Seq<char>)>, i: int)
    requires
        0 <= i <= json.len(),
        ids_of_json(json.subrange(0, i)) is None,
    ensures
        ids_of_json(json.subrange(0, json.len() as int)) is None,
    decreases json.len() - i,
{
    if i < json.len() {
        assert(json.subrange(0, i + 1).drop_last() =~= json.subrange(0, i));
        lemma_json_none_extends(json, i + 1);
    }
}

proof fn lemma_ids_of_json_of(es: Seq<(i32, Seq<char>)>)
    ensures
        ids_of_json(json_of(es)) == Some(ids_of(es)),
    decreases es.len(),
{
    if es.len() > 0 {
        lemma_ids_of_json_of(es.drop_last());
        assert(json_of(es).drop_last() =~= json_of(es.drop_last()));
        crate::text::lemma_decimal_round_trip(es.last().0 as int);
        assert(i32_of(json_of(es).last().0) == Some(es.last().0));
    }
}

proof fn lemma_ids_of_keys(order: Seq<i32>, f: Map<i32, Seq<char>>)
    requires
        order.no_duplicates(),
        forall|k: i32| f.contains_key(k) <==> order.contains(k),
    ensures
        ids_of(order.map_values(|k: i32| (k, f[k]))) == f,
    decreases order.len(),
{
    let es = order.map_values(|k: i32| (k, f[k]));
    if order.len() == 0 {
        assert forall|k: i32| !f.contains_key(k) by {
            assert(!order.contains(k));
        }
        assert(f =~= Map::<i32, Seq<char>>::empty());
    } else {
        let last = order.last();
        let rest = order.drop_last();
        let g = f.remove(last);
        assert(rest.no_duplicates()) by {
            assert forall|a: int, b: int| 0 <= a < b < rest.len() implies rest[a] != rest[b] by {
                assert(rest[a] == order[a] && rest[b] == order[b]);
            }
        }
        assert forall|k: i32| g.contains_key(k) <==> rest.contains(k) by {
            if rest.contains(k) {
                let x = choose|x: int| 0 <= x < rest.len() && rest[x] == k;
                assert(order[x] == k);
                assert(order.contains(k));
                assert(k != last) by {
                    assert(order[order.len() - 1] == last);
                }
            }
            if g.contains_key(k) {
                assert(order.contains(k));
                let x = choose|x: int| 0 <= x < order.len() && order[x] == k;
                assert(x != order.len() - 1);
                assert(rest[x] == k);
            }
        }
        lemma_ids_of_keys(rest, g);
        assert(es.drop_last() =~= rest.map_values(|k: i32| (k, g[k]))) by {
            assert forall|x: int| 0 <= x < rest.len() implies es.drop_last()[x] == rest.map_values(|k: i32| (k, g[k]))[x] by {
                assert(rest[x] != last) by {
                    assert(order[x] == rest[x]);
                    assert(order[order.len() - 1] == last);
                }
            }
        }
        assert(order.contains(last)) by {
            assert(order[order.len() - 1] == last);
        }
        assert(ids_of(es) =~= f);
    }
}

/// Reading back the text form of a map gives each key with its thunk's id.
pub proof fn lemma_map_json_round_trip(m: SerializableMap)
    requires
        m.wf(),
    ensures
        ids_of_json(json_of(m.entries())) == Some(m.ids()),
{
    lemma_ids_of_json_of(m.entries());
    m.lemma_wf_keys();
    lemma_ids_of_keys(m.order(), m.ids());
    assert forall|x: int| 0 <= x < m.order().len() implies #[trigger] m.entries()[x] == m.order().map_values(|k: i32| (k, m.ids()[k]))[x] by {
        assert(m.order().contains(m.order()[x]));
    }
    assert(m.entries() =~= m.order().map_values(|k: i32| (k, m.ids()[k])));
}

} // verus!
