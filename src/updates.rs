use vstd::prelude::*;

use crate::types::{Update, UpdateView};

verus! {

/// Keys strictly increase along the list.
pub open spec fn keys_increasing(s: Seq<(u64, UpdateView)>) -> bool {
    forall|i: int, j: int| 0 <= i < j < s.len() ==> #[trigger] s[i].0 < #[trigger] s[j].0
}

/// The place of `id` in a list sorted by key: every key before it is smaller,
/// none from it on is.
pub open spec fn is_position(s: Seq<(u64, UpdateView)>, id: u64, p: int) -> bool {
    &&& 0 <= p <= s.len()
    &&& forall|i: int| 0 <= i < p ==> #[trigger] s[i].0 < id
    &&& forall|i: int| p <= i < s.len() ==> #[trigger] s[i].0 >= id
}

pub open spec fn position(s: Seq<(u64, UpdateView)>, id: u64) -> int {
    choose|p: int| is_position(s, id, p)
}

/// The list after writing `update` under `id`: replaced where the key is
/// there, inserted in key order where it is not.
pub open spec fn put_spec(s: Seq<(u64, UpdateView)>, id: u64, update: UpdateView) -> Seq<(u64, UpdateView)> {
    let p = position(s, id);
    if p < s.len() && s[p].0 == id {
        s.update(p, (id, update))
    } else {
        s.insert(p, (id, update))
    }
}

/// What is stored under `id`.
pub open spec fn lookup(s: Seq<(u64, UpdateView)>, id: u64) -> Option<UpdateView> {
    if exists|i: int| 0 <= i < s.len() && s[i].0 == id {
        Some(s[choose|i: int| 0 <= i < s.len() && s[i].0 == id].1)
    } else {
        None
    }
}

/// The highest key of a sorted list, if any.
pub open spec fn last_key(s: Seq<(u64, UpdateView)>) -> Option<u64> {
    if s.len() == 0 {
        None
    } else {
        Some(s.last().0)
    }
}

proof fn lemma_position_unique(s: Seq<(u64, UpdateView)>, id: u64, p: int)
    requires
        is_position(s, id, p),
    ensures
        position(s, id) == p,
{
    let q = position(s, id);
    if q < p {
        assert(s[q].0 < id);
    } else if p < q {
        assert(s[p].0 < id);
    }
}

/// An optional entry, as plain values.
pub open spec fn entry_view(e: Option<(u64, Update)>) -> Option<(u64, UpdateView)> {
    match e {
        Some((id, u)) => Some((id, u@)),
        None => None,
    }
}

/// The queue of pending updates, ordered by update id.
pub struct Updates {
    pub updates: Vec<(u64, Update)>,
}

impl Updates {
    pub open spec fn view(&self) -> Seq<(u64, UpdateView)> {
        self.updates@.map_values(|e: (u64, Update)| (e.0, e.1@))
    }

    pub open spec fn wf(&self) -> bool {
        keys_increasing(self@)
    }

    /// An empty queue.
    pub fn new() -> (r: Updates)
        ensures
            r@ == Seq::<(u64, UpdateView)>::empty(),
            r.wf(),
    {
        Updates { updates: Vec::new() }
    }

    /// The update with the highest id.
    pub fn last_update_id(&self) -> (r: Option<(u64, Update)>)
        ensures
            entry_view(r) == (if self@.len() == 0 {
                None::<(u64, UpdateView)>
            } else {
                Some(self@.last())
            }),
    {
        let n = self.updates.len();
        if n == 0 {
            None
        } else {
            let (id, update) = &self.updates[n - 1];
            Some((*id, update.clone_update()))
        }
    }

    /// The update with the lowest id.
    fn first_update_id(&self) -> (r: Option<(u64, Update)>)
        ensures
            entry_view(r) == (if self@.len() == 0 {
                None::<(u64, UpdateView)>
            } else {
                Some(self@[0])
            }),
    {
        if self.updates.len() == 0 {
            None
        } else {
            let (id, update) = &self.updates[0];
            Some((*id, update.clone_update()))
        }
    }

    /// The update stored under `update_id`.
    pub fn get(&self, update_id: u64) -> (r: Option<Update>)
        requires
            self.wf(),
        ensures
            match r {
                Some(u) => lookup(self@, update_id) == Some(u@),
                None => lookup(self@, update_id) == None::<UpdateView>,
            },
    {
        let mut i: usize = 0;
        while i < self.updates.len()
            invariant
                i <= self@.len(),
                self.wf(),
                forall|j: int| 0 <= j < i ==> self@[j].0 != update_id,
            decreases self@.len() - i,
        {
            if self.updates[i].0 == update_id {
                proof {
                    assert(self@[i as int].0 == update_id);
                    let c = choose|j: int| 0 <= j < self@.len() && self@[j].0 == update_id;
                    if c != i {
                        if c < i {
                        } else {
                            assert(self@[i as int].0 < self@[c].0);
                        }
                    }
                }
                return Some(self.updates[i].1.clone_update());
            }
            i += 1;
        }
        None
    }

    /// Writes `update` under `update_id`, replacing what was there.
    pub fn put_update(&mut self, update_id: u64, update: Update)
        requires
            old(self).wf(),
        ensures
            final(self)@ == put_spec(old(self)@, update_id, update@),
            final(self).wf(),
    {
        let mut i: usize = 0;
        while i < self.updates.len() && self.updates[i].0 < update_id
            invariant
                i <= self@.len(),
                self.wf(),
                forall|j: int| 0 <= j < i ==> #[trigger] self@[j].0 < update_id,
            decreases self@.len() - i,
        {
            i += 1;
        }
        let ghost s0 = self@;
        proof {
            assert forall|j: int| i <= j < s0.len() implies #[trigger] s0[j].0 >= update_id by {
                if j > i {
                    assert(s0[i as int].0 < s0[j].0);
                }
            }
            assert(is_position(s0, update_id, i as int));
            lemma_position_unique(s0, update_id, i as int);
        }
        if i < self.updates.len() && self.updates[i].0 == update_id {
            self.updates.set(i, (update_id, update));
            proof {
                assert(self@ =~= s0.update(i as int, (update_id, update@)));
                assert forall|a: int, b: int| 0 <= a < b < self@.len() implies #[trigger] self@[a].0
                    < #[trigger] self@[b].0 by {
                    assert(s0[a].0 < s0[b].0);
                }
            }
        } else {
            self.updates.insert(i, (update_id, update));
            proof {
                assert forall|j: int| i <= j < s0.len() implies #[trigger] s0[j].0 > update_id by {
                    if j > i {
                        assert(s0[i as int].0 < s0[j].0);
                    }
                }
                assert(self@ =~= s0.insert(i as int, (update_id, update@)));
                assert forall|a: int, b: int| 0 <= a < b < self@.len() implies #[trigger] self@[a].0
                    < #[trigger] self@[b].0 by {
                    if a < i && b > i {
                        assert(s0[b - 1].0 > update_id);
                    } else if a > i {
                        assert(s0[a - 1].0 < s0[b - 1].0);
                    } else if b < i {
                        assert(s0[a].0 < s0[b].0);
                    } else if a < i {
                        assert(s0[a].0 < update_id);
                    } else if b > i {
                        assert(s0[b - 1].0 > update_id);
                    }
                }
            }
        }
    }

    /// Removes the update with the lowest id and returns it.
    pub fn pop_front(&mut self) -> (r: Option<(u64, Update)>)
        requires
            old(self).wf(),
        ensures
            final(self).wf(),
            old(self)@.len() == 0 ==> r.is_none() && final(self)@ == old(self)@,
            old(self)@.len() > 0 ==> entry_view(r) == Some(old(self)@[0]) && final(self)@ == old(
                self,
            )@.drop_first(),
    {
        match self.first_update_id() {
            Some(_) => {
                let ghost s0 = self@;
                let entry = self.updates.remove(0);
                proof {
                    assert(self@ =~= s0.drop_first());
                    assert forall|a: int, b: int| 0 <= a < b < self@.len() implies #[trigger] self@[a].0
                        < #[trigger] self@[b].0 by {
                        assert(s0[a + 1].0 < s0[b + 1].0);
                    }
                }
                Some(entry)
            },
            None => None,
        }
    }

    /// Removes every update.
    pub fn clear(&mut self)
        ensures
            final(self)@ == Seq::<(u64, UpdateView)>::empty(),
            final(self).wf(),
    {
        self.updates.clear();
    }
}

/// The ids of the updates already applied, in increasing order.
pub struct UpdatesResults {
    pub ids: Vec<u64>,
}

impl UpdatesResults {
    pub open spec fn view(&self) -> Seq<u64> {
        self.ids@
    }

    pub open spec fn wf(&self) -> bool {
        forall|i: int, j: int| 0 <= i < j < self@.len() ==> #[trigger] self@[i] < #[trigger] self@[j]
    }

    pub open spec fn last_spec(&self) -> Option<u64> {
        last_id(self@)
    }

    /// An empty log.
    pub fn new() -> (r: UpdatesResults)
        ensures
            r@ == Seq::<u64>::empty(),
            r.wf(),
    {
        UpdatesResults { ids: Vec::new() }
    }

    /// The highest applied id.
    pub fn last_update_id(&self) -> (r: Option<u64>)
        ensures
            r == self.last_spec(),
    {
        let n = self.ids.len();
        if n == 0 {
            None
        } else {
            Some(self.ids[n - 1])
        }
    }

    /// Records that `update_id`, higher than every id recorded so far, was applied.
    pub fn put_update_result(&mut self, update_id: u64)
        requires
            old(self).wf(),
            old(self)@.len() > 0 ==> old(self)@.last() < update_id,
        ensures
            final(self)@ == old(self)@.push(update_id),
            final(self).wf(),
    {
        self.ids.push(update_id);
    }
}

/// The larger of two optional ids; `None` is below every id.
pub open spec fn max_id(a: Option<u64>, b: Option<u64>) -> Option<u64> {
    match (a, b) {
        (Some(x), Some(y)) => Some(if x >= y { x } else { y }),
        (Some(x), None) => Some(x),
        (None, y) => y,
    }
}

/// The id that the next update gets: one past the highest id of both logs,
/// or zero where both are empty.
pub open spec fn next_id_spec(updates: Seq<(u64, UpdateView)>, results: Option<u64>) -> int {
    match max_id(last_key(updates), results) {
        Some(n) => n + 1,
        None => 0,
    }
}

/// Both logs still have room for one more id.
pub open spec fn ids_left(updates: &Updates, results: &UpdatesResults) -> bool {
    &&& (updates@.len() > 0 ==> updates@.last().0 < u64::MAX)
    &&& (results@.len() > 0 ==> results@.last() < u64::MAX)
}

/// The id that the next update gets, shared by the pending queue and the
/// log of applied updates so that no id is ever given twice.
pub fn next_update_id(updates: &Updates, results: &UpdatesResults) -> (r: u64)
    requires
        ids_left(updates, results),
    ensures
        r == next_id_spec(updates@, results.last_spec()),
{
    let last = match updates.last_update_id() {
        Some((n, _)) => Some(n),
        None => None,
    };
    let last_result = results.last_update_id();
    let max = match (last, last_result) {
        (Some(x), Some(y)) => Some(if x >= y { x } else { y }),
        (Some(x), None) => Some(x),
        (None, y) => y,
    };
    match max {
        Some(n) => n + 1,
        None => 0,
    }
}

/// The queue that writing `us[i]` under id `i`, for each `i` in order,
/// builds from an empty one.
pub open spec fn filled(us: Seq<UpdateView>) -> Seq<(u64, UpdateView)>
    decreases us.len(),
{
    if us.len() == 0 {
        Seq::empty()
    } else {
        put_spec(filled(us.drop_last()), (us.len() - 1) as u64, us.last())
    }
}

/// Writing the ids `0..n` in order into an empty queue leaves entry `i` at
/// place `i`; as `pop_front` takes the first entry and leaves the rest, `n`
/// pops return the ids in ascending order, one entry each, and leave the
/// queue empty.
pub proof fn lemma_queue_fifo(us: Seq<UpdateView>)
    requires
        us.len() <= u64::MAX + 1,
    ensures
        filled(us).len() == us.len(),
        keys_increasing(filled(us)),
        forall|i: int| 0 <= i < us.len() ==> #[trigger] filled(us)[i] == (i as u64, us[i]),
        forall|k: int|
            0 <= k < us.len() ==> #[trigger] filled(us).skip(k)[0] == (k as u64, us[k])
                && filled(us).skip(k).len() == us.len() - k,
    decreases us.len(),
{
    if us.len() > 0 {
        let pre = us.drop_last();
        lemma_queue_fifo(pre);
        let q = filled(pre);
        let id = (us.len() - 1) as u64;
        assert(is_position(q, id, q.len() as int));
        lemma_position_unique(q, id, q.len() as int);
        assert(filled(us) == q.insert(q.len() as int, (id, us.last())));
        assert(filled(us) =~= q.push((id, us.last())));
        assert forall|i: int| 0 <= i < us.len() implies #[trigger] filled(us)[i] == (
            i as u64,
            us[i],
        ) by {
            if i < pre.len() {
                assert(q[i] == (i as u64, pre[i]));
            }
        }
        assert forall|k: int| 0 <= k < us.len() implies #[trigger] filled(us).skip(k)[0] == (
            k as u64,
            us[k],
        ) && filled(us).skip(k).len() == us.len() - k by {
            assert(filled(us).skip(k)[0] == filled(us)[k]);
        }
    }
}

/// The highest id of a log of applied ids, if any.
pub open spec fn last_id(s: Seq<u64>) -> Option<u64> {
    if s.len() == 0 {
        None
    } else {
        Some(s.last())
    }
}

/// Update ids only grow. Writing an update under the next id moves the next
/// id one past it; moving the first pending update to the applied log leaves
/// the next id as it was.
pub proof fn lemma_update_ids_increase(
    q: Seq<(u64, UpdateView)>,
    results: Seq<u64>,
    u: UpdateView,
)
    requires
        keys_increasing(q),
        next_id_spec(q, last_id(results)) <= u64::MAX,
    ensures
        next_id_spec(put_spec(q, next_id_spec(q, last_id(results)) as u64, u), last_id(results))
            == next_id_spec(q, last_id(results)) + 1,
        q.len() > 0 && (results.len() > 0 ==> results.last() < q[0].0) ==> next_id_spec(
            q.drop_first(),
            last_id(results.push(q[0].0)),
        ) == next_id_spec(q, last_id(results)),
{
    let id = next_id_spec(q, last_id(results)) as u64;
    assert forall|i: int| 0 <= i < q.len() implies #[trigger] q[i].0 < id by {
        assert(q[i].0 <= q.last().0) by {
            if i < q.len() - 1 {
                assert(q[i].0 < q[q.len() - 1].0);
            }
        }
    }
    assert(is_position(q, id, q.len() as int));
    lemma_position_unique(q, id, q.len() as int);
    assert(put_spec(q, id, u) =~= q.push((id, u)));
    if q.len() > 1 {
        assert(q[0].0 < q.last().0);
        assert(q.drop_first().last() == q.last());
    }
}

} // verus!
