//! Identity of a replica, its outbound message ids, and the table of
//! requests that still wait for their response.

use vstd::prelude::*;
use std::collections::HashMap;
use crate::text::same_text;

verus! {

broadcast use vstd::std_specs::hash::group_hash_axioms;

/// The largest message id this process hands out.
pub const MAX_MSG_ID: i32 = 2147483647;

/// What a replica knows of itself and of the cluster, with the table that
/// maps the id of each outstanding request to the slot its response goes to.
pub struct NodeState<T> {
    node_id: Option<String>,
    other_ids: Vec<String>,
    msg_id: i32,
    callbacks: HashMap<i32, T>,
}

/// The members of `ids` other than `me`, in their order.
pub open spec fn others_of(ids: Seq<Seq<char>>, me: Seq<char>) -> Seq<Seq<char>>
    decreases ids.len(),
{
    if ids.len() == 0 {
        Seq::empty()
    } else if ids.last() == me {
        others_of(ids.drop_last(), me)
    } else {
        others_of(ids.drop_last(), me).push(ids.last())
    }
}

/// The texts of a sequence of strings.
pub open spec fn views(v: Seq<String>) -> Seq<Seq<char>> {
    v.map_values(|x: String| x@)
}

proof fn lemma_views_push(v: Seq<String>, x: String)
    ensures
        views(v.push(x)) =~= views(v).push(x@),
{
    assert forall|j: int| 0 <= j < v.len() + 1 implies #[trigger] views(v.push(x))[j] == views(v).push(x@)[j] by {
        if j < v.len() {
            assert(v.push(x)[j] == v[j]);
        }
    }
}

impl<T> NodeState<T> {
    pub closed spec fn id_spec(&self) -> Option<Seq<char>> {
        match self.node_id {
            Some(s) => Some(s@),
            None => None,
        }
    }

    pub closed spec fn others_spec(&self) -> Seq<Seq<char>> {
        views(self.other_ids@)
    }

    /// The id the next outbound message gets.
    pub closed spec fn next_id_spec(&self) -> int {
        self.msg_id as int
    }

    /// The outstanding requests, by message id.
    pub closed spec fn pending(&self) -> Map<i32, T> {
        self.callbacks@
    }

    pub closed spec fn wf(&self) -> bool {
        self.msg_id >= 0
    }

    /// A replica before `init`: no identity, no peers, no outstanding request.
    pub fn init() -> (r: NodeState<T>)
        ensures
            r.wf(),
            r.id_spec() is None,
            r.others_spec().len() == 0,
            r.next_id_spec() == 0,
            r.pending().is_empty(),
    {
        let r = NodeState {
            node_id: None,
            other_ids: Vec::new(),
            msg_id: 0,
            callbacks: HashMap::new(),
        };
        assert(r.others_spec() =~= Seq::<Seq<char>>::empty());
        assert(r.pending() =~= Map::<i32, T>::empty());
        r
    }

    /// Whether another message id can still be handed out.
    pub fn has_next_msg_id(&self) -> (r: bool)
        ensures
            r == (self.next_id_spec() < MAX_MSG_ID),
    {
        self.msg_id < MAX_MSG_ID
    }

    /// Hands out a message id, larger than every one handed out before.
    pub fn next_msg_id(&mut self) -> (r: i32)
        requires
            old(self).wf(),
            old(self).next_id_spec() < MAX_MSG_ID,
        ensures
            final(self).wf(),
            r == old(self).next_id_spec(),
            final(self).next_id_spec() == old(self).next_id_spec() + 1,
            final(self).id_spec() == old(self).id_spec(),
            final(self).others_spec() == old(self).others_spec(),
            final(self).pending() == old(self).pending(),
    {
        let r = self.msg_id;
        self.msg_id = self.msg_id + 1;
        r
    }

    /// This replica's id.
    pub fn node_id(&self) -> (r: String)
        requires
            self.id_spec() is Some,
        ensures
            Some(r@) == self.id_spec(),
    {
        match &self.node_id {
            Some(id) => id.clone(),
            None => String::new(),
        }
    }

    /// Whether `init` has given this replica its identity.
    pub fn is_initialized(&self) -> (r: bool)
        ensures
            r == self.id_spec() is Some,
    {
        self.node_id.is_some()
    }

    pub fn set_node_id(&mut self, my_id: String)
        ensures
            final(self).id_spec() == Some(my_id@),
            final(self).others_spec() == old(self).others_spec(),
            final(self).next_id_spec() == old(self).next_id_spec(),
            final(self).pending() == old(self).pending(),
            old(self).wf() ==> final(self).wf(),
    {
        self.node_id = Some(my_id);
    }

    /// Records the cluster's membership; this replica's own id is left out.
    pub fn set_other_node_ids(&mut self, other_ids: Vec<String>)
        requires
            old(self).id_spec() is Some,
        ensures
            final(self).others_spec() == old(self).others_spec() + others_of(
                views(other_ids@),
                old(self).id_spec()->0,
            ),
            final(self).id_spec() == old(self).id_spec(),
            final(self).next_id_spec() == old(self).next_id_spec(),
            final(self).pending() == old(self).pending(),
            old(self).wf() ==> final(self).wf(),
    {
        let my_id = self.node_id();
        let ghost me = my_id@;
        let ghost start = self.others_spec();
        let ghost all = views(other_ids@);
        let mut i: usize = 0;
        while i < other_ids.len()
            invariant
                i <= other_ids@.len(),
                all == views(other_ids@),
                me == my_id@,
                self.others_spec() == start + others_of(all.subrange(0, i as int), me),
                self.id_spec() == old(self).id_spec(),
                self.next_id_spec() == old(self).next_id_spec(),
                self.pending() == old(self).pending(),
                old(self).wf() ==> self.wf(),
            decreases other_ids@.len() - i,
        {
            let id = other_ids[i].clone();
            proof {
                assert(all.subrange(0, i as int + 1).drop_last() =~= all.subrange(0, i as int));
                assert(all.subrange(0, i as int + 1).last() == id@);
            }
            let same = same_text(&my_id, &id);
            if same {
                proof {
                    assert(id@ == me);
                    assert(others_of(all.subrange(0, i as int + 1), me) == others_of(all.subrange(0, i as int), me));
                }
            } else {
                proof {
                    assert(id@ != me);
                    assert(others_of(all.subrange(0, i as int + 1), me) == others_of(all.subrange(0, i as int), me).push(id@));
                    lemma_views_push(self.other_ids@, id);
                }
                self.other_ids.push(id);
                proof {
                    assert(self.others_spec() =~= start + others_of(all.subrange(0, i as int + 1), me));
                }
            }
            i = i + 1;
        }
        proof {
            assert(all.subrange(0, other_ids@.len() as int) =~= all);
        }
    }

    /// The other members of the cluster.
    pub fn other_nodes(&self) -> (r: Vec<String>)
        ensures
            views(r@) == self.others_spec(),
    {
        let mut out: Vec<String> = Vec::new();
        let mut i: usize = 0;
        while i < self.other_ids.len()
            invariant
                i <= self.other_ids@.len(),
                views(out@) == self.others_spec().subrange(0, i as int),
            decreases self.other_ids@.len() - i,
        {
            let x = self.other_ids[i].clone();
            proof {
                lemma_views_push(out@, x);
                assert(self.others_spec().subrange(0, i as int + 1) =~= self.others_spec().subrange(0, i as int).push(x@));
            }
            out.push(x);
            i = i + 1;
            proof {
                assert(views(out@) =~= self.others_spec().subrange(0, i as int));
            }
        }
        proof {
            assert(self.others_spec().subrange(0, i as int) =~= self.others_spec());
        }
        out
    }

    /// The number of other members.
    pub fn other_count(&self) -> (r: usize)
        ensures
            r == self.others_spec().len(),
    {
        self.other_ids.len()
    }

    /// Takes the slot waiting for the response to `in_reply_to`, if any;
    /// a slot is handed out at most once.
    pub fn check_for_callback(&mut self, in_reply_to: Option<i32>) -> (r: Option<T>)
        ensures
            match in_reply_to {
                Some(id) => {
                    &&& r == old(self).pending().get(id)
                    &&& final(self).pending() == old(self).pending().remove(id)
                },
                None => r is None && final(self).pending() == old(self).pending(),
            },
            final(self).id_spec() == old(self).id_spec(),
            final(self).others_spec() == old(self).others_spec(),
            final(self).next_id_spec() == old(self).next_id_spec(),
            old(self).wf() ==> final(self).wf(),
    {
        match in_reply_to {
            Some(id) => {
                let r = self.callbacks.remove(&id);
                proof {
                    if old(self).pending().contains_key(id) {
                        assert(r == old(self).pending().get(id));
                    }
                }
                r
            },
            None => None,
        }
    }

    /// Registers the slot that the response to `message_id` goes to.
    pub fn add_callback(&mut self, message_id: i32, channel: T)
        ensures
            final(self).pending() == old(self).pending().insert(message_id, channel),
            final(self).id_spec() == old(self).id_spec(),
            final(self).others_spec() == old(self).others_spec(),
            final(self).next_id_spec() == old(self).next_id_spec(),
            old(self).wf() ==> final(self).wf(),
    {
        self.callbacks.insert(message_id, channel);
    }
}

} // verus!
