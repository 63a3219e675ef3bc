//! Write-side structural algorithms: child creation, session and due-date
//! edits, sibling reordering, sharing, re-parenting and cascading delete.
//! Every operation states its effect as an equation over the index maps.

use vstd::prelude::*;

use crate::store::{
    eq_except_dues, eq_except_names, eq_except_session_pair, lemma_mirror_insert,
    lemma_mirror_remove, lemma_mirror_same, same_state, StoreRw,
};
use crate::{Error, Session};

verus! {

impl StoreRw {
    /// Create a node named `name` as the new first child of `pid`; returns
    /// the fresh id. The previous head, if any, is pushed to second place.
    pub fn add_child(&mut self, pid: u64, name: String) -> (r: Result<u64, Error>)
        requires
            old(self).inv(),
            old(self).id < u64::MAX,
            name@.len() > 0,
        ensures
            final(self).inv(),
            final(self).due_dates@ == old(self).due_dates@,
            final(self).sessions@ == old(self).sessions@,
            final(self).rsessions@ == old(self).rsessions@,
            match r {
                Ok(id) => {
                    let next = if old(self).links_map().contains_key(pid) {
                        old(self).links_map()[pid]
                    } else {
                        0
                    };
                    let m1 = old(self).rlinks_map().insert((id, pid), (next, 0));
                    &&& id == old(self).id
                    &&& final(self).id == old(self).id + 1
                    &&& final(self).links_map() == old(self).links_map().insert(pid, id)
                    &&& final(self).names_map() == old(self).names_map().insert(id, name)
                    &&& (next > 0 ==> m1.contains_key((next, pid)) && final(self).rlinks_map()
                        == m1.insert((next, pid), (m1[(next, pid)].0, id)))
                    &&& (next == 0 ==> final(self).rlinks_map() == m1)
                },
                Err(_) => {
                    let next = if old(self).links_map().contains_key(pid) {
                        old(self).links_map()[pid]
                    } else {
                        0
                    };
                    let m1 = old(self).rlinks_map().insert((old(self).id, pid), (next, 0));
                    &&& next > 0 && !m1.contains_key((next, pid))
                    &&& final(self).id == old(self).id
                    &&& final(self).names@ == old(self).names@
                },
            },
    {
        let next = match self.get_child(pid) {
            Some(c) => c,
            None => 0,
        };
        let id = self.id;
        self.links_set(pid, id);
        self.rl_set(id, pid, next, 0);
        proof {
            lemma_mirror_same(*old(self), *self);
        }
        if next > 0 {
            match self.modify_rt_prev(next, pid, id) {
                Ok(_) => {}
                Err(e) => {
                    proof {
                        lemma_mirror_same(*old(self), *self);
                    }
                    return Err(e);
                }
            }
        }
        self.names_set(id, name);
        self.id = self.id + 1;
        proof {
            lemma_mirror_same(*old(self), *self);
        }
        Ok(id)
    }

    /// Record session `s` against node `id`, in both session indices.
    pub fn add_session(&mut self, id: u64, s: Session)
        requires
            old(self).inv(),
        ensures
            final(self).inv(),
            final(self).sessions_map() == old(self).sessions_map().insert((id, s), ()),
            final(self).rsessions_map() == old(self).rsessions_map().insert((s, id), ()),
            eq_except_session_pair(*final(self), *old(self)),
    {
        self.sess_insert(id, s);
        self.rsess_insert(s, id);
        proof {
            lemma_mirror_insert(*old(self), *self, id, s);
        }
    }

    /// Remove session `s` from node `id`, in both session indices; a no-op
    /// when the pair is absent.
    pub fn delete_session(&mut self, id: u64, s: Session)
        requires
            old(self).inv(),
        ensures
            final(self).inv(),
            final(self).sessions_map() == old(self).sessions_map().remove((id, s)),
            final(self).rsessions_map() == old(self).rsessions_map().remove((s, id)),
            old(self).has_session(id, s) ==> final(self).sessions@.len() < old(
                self,
            ).sessions@.len(),
            !old(self).has_session(id, s) ==> final(self).sessions@ == old(self).sessions@,
            eq_except_session_pair(*final(self), *old(self)),
    {
        self.sess_remove(id, s);
        self.rsess_remove(s, id);
        proof {
            lemma_mirror_remove(*old(self), *self, id, s);
        }
    }

    /// Set (or create) the name of `id`.
    pub fn rename(&mut self, id: u64, name: String)
        requires
            old(self).inv(),
        ensures
            final(self).inv(),
            final(self).names_map() == old(self).names_map().insert(id, name),
            eq_except_names(*final(self), *old(self)),
    {
        self.names_set(id, name);
        proof {
            lemma_mirror_same(*old(self), *self);
        }
    }

    /// Set (or replace) the due date of `id`.
    pub fn set_due_date(&mut self, id: u64, date: i64)
        requires
            old(self).inv(),
        ensures
            final(self).inv(),
            final(self).dues_map() == old(self).dues_map().insert(id, date),
            eq_except_dues(*final(self), *old(self)),
    {
        self.dues_set(id, date);
        proof {
            lemma_mirror_same(*old(self), *self);
        }
    }

    /// Clear the due date of `id`; a no-op when none is set.
    pub fn unset_due_date(&mut self, id: u64)
        requires
            old(self).inv(),
        ensures
            final(self).inv(),
            final(self).dues_map() == old(self).dues_map().remove(id),
            eq_except_dues(*final(self), *old(self)),
    {
        self.dues_remove(id);
        proof {
            lemma_mirror_same(*old(self), *self);
        }
    }

    /// Replace the `next` field of the (c, p) parentage, keeping `prev`.
    pub(crate) fn modify_rt_next(&mut self, c: u64, p: u64, next: u64) -> (r: Result<(), Error>)
        requires
            old(self).inv(),
        ensures
            final(self).inv(),
            crate::store::eq_except_rlinks(*final(self), *old(self)),
            match r {
                Ok(_) => old(self).has_parentage(c, p) && final(self).rlinks_map() == old(
                    self,
                ).rlinks_map().insert((c, p), (next, old(self).rlinks_map()[(c, p)].1))
                    && final(self).rlinks@.len() == old(self).rlinks@.len(),
                Err(_) => !old(self).has_parentage(c, p) && final(self).rlinks@ == old(
                    self,
                ).rlinks@,
            },
    {
        match self.get_rt(c, p) {
            Some(np) => {
                self.rl_set(c, p, next, np.1);
                proof {
                    lemma_mirror_same(*old(self), *self);
                }
                Ok(())
            }
            None => Err(Error::Corrupted),
        }
    }

    /// Replace the `prev` field of the (c, p) parentage, keeping `next`.
    pub(crate) fn modify_rt_prev(&mut self, c: u64, p: u64, prev: u64) -> (r: Result<(), Error>)
        requires
            old(self).inv(),
        ensures
            final(self).inv(),
            crate::store::eq_except_rlinks(*final(self), *old(self)),
            match r {
                Ok(_) => old(self).has_parentage(c, p) && final(self).rlinks_map() == old(
                    self,
                ).rlinks_map().insert((c, p), (old(self).rlinks_map()[(c, p)].0, prev))
                    && final(self).rlinks@.len() == old(self).rlinks@.len(),
                Err(_) => !old(self).has_parentage(c, p) && final(self).rlinks@ == old(
                    self,
                ).rlinks@,
            },
    {
        match self.get_rt(c, p) {
            Some(np) => {
                self.rl_set(c, p, np.0, prev);
                proof {
                    lemma_mirror_same(*old(self), *self);
                }
                Ok(())
            }
            None => Err(Error::Corrupted),
        }
    }

    /// Replace both sibling links of the (c, p) parentage.
    pub(crate) fn modify_rt_both(&mut self, c: u64, p: u64, next: u64, prev: u64) -> (r: Result<
        (),
        Error,
    >)
        requires
            old(self).inv(),
        ensures
            final(self).inv(),
            crate::store::eq_except_rlinks(*final(self), *old(self)),
            match r {
                Ok(_) => old(self).has_parentage(c, p) && final(self).rlinks_map() == old(
                    self,
                ).rlinks_map().insert((c, p), (next, prev))
                    && final(self).rlinks@.len() == old(self).rlinks@.len(),
                Err(_) => !old(self).has_parentage(c, p) && final(self).rlinks@ == old(
                    self,
                ).rlinks@,
            },
    {
        match self.get_rt(c, p) {
            Some(_) => {
                self.rl_set(c, p, next, prev);
                proof {
                    lemma_mirror_same(*old(self), *self);
                }
                Ok(())
            }
            None => Err(Error::Corrupted),
        }
    }
}

} // verus!

verus! {

/// The effect of `move_up` on (links, rlinks): swap `id` with the sibling
/// before it under `pid`. `None` marks a missing parentage record.
pub open spec fn spec_move_up(
    ls: Map<u64, u64>,
    rl: Map<(u64, u64), (u64, u64)>,
    pid: u64,
    id: u64,
) -> Option<(Map<u64, u64>, Map<(u64, u64), (u64, u64)>)> {
    if !rl.contains_key((id, pid)) {
        None
    } else {
        let rt = rl[(id, pid)];
        if rt.1 == 0 {
            Some((ls, rl))
        } else if !rl.contains_key((rt.1, pid)) {
            None
        } else {
            let prt = rl[(rt.1, pid)];
            let m1 = rl.insert((id, pid), (rt.1, prt.1));
            if rt.0 > 0 && !m1.contains_key((rt.0, pid)) {
                None
            } else {
                let m2 = if rt.0 > 0 {
                    m1.insert((rt.0, pid), (m1[(rt.0, pid)].0, rt.1))
                } else {
                    m1
                };
                let m3 = m2.insert((rt.1, pid), (rt.0, id));
                if prt.1 > 0 {
                    if !m3.contains_key((prt.1, pid)) {
                        None
                    } else {
                        Some((ls, m3.insert((prt.1, pid), (id, m3[(prt.1, pid)].1))))
                    }
                } else {
                    Some((ls.insert(pid, id), m3))
                }
            }
        }
    }
}

/// The effect of `move_down`: swap `id` with the sibling after it.
pub open spec fn spec_move_down(
    ls: Map<u64, u64>,
    rl: Map<(u64, u64), (u64, u64)>,
    pid: u64,
    id: u64,
) -> Option<(Map<u64, u64>, Map<(u64, u64), (u64, u64)>)> {
    if !rl.contains_key((id, pid)) {
        None
    } else {
        let rt = rl[(id, pid)];
        if rt.0 == 0 {
            Some((ls, rl))
        } else if !rl.contains_key((rt.0, pid)) {
            None
        } else {
            let nrt = rl[(rt.0, pid)];
            let m1 = rl.insert((id, pid), (nrt.0, rt.0));
            if rt.1 > 0 && !m1.contains_key((rt.1, pid)) {
                None
            } else {
                let m2 = if rt.1 > 0 {
                    m1.insert((rt.1, pid), (rt.0, m1[(rt.1, pid)].1))
                } else {
                    m1
                };
                let ls1 = if rt.1 > 0 {
                    ls
                } else {
                    ls.insert(pid, rt.0)
                };
                let m3 = m2.insert((rt.0, pid), (id, rt.1));
                if nrt.0 > 0 {
                    if !m3.contains_key((nrt.0, pid)) {
                        None
                    } else {
                        Some((ls1, m3.insert((nrt.0, pid), (m3[(nrt.0, pid)].0, id))))
                    }
                } else {
                    Some((ls1, m3))
                }
            }
        }
    }
}

impl StoreRw {
    /// Swap `id` with its previous sibling under `pid`; a no-op at the head.
    pub fn move_up(&mut self, pid: u64, id: u64) -> (r: Result<(), Error>)
        requires
            old(self).inv(),
        ensures
            final(self).inv(),
            final(self).id == old(self).id,
            final(self).names@ == old(self).names@,
            final(self).due_dates@ == old(self).due_dates@,
            final(self).sessions@ == old(self).sessions@,
            final(self).rsessions@ == old(self).rsessions@,
            match r {
                Ok(_) => spec_move_up(old(self).links_map(), old(self).rlinks_map(), pid, id)
                    == Some((final(self).links_map(), final(self).rlinks_map())),
                Err(_) => spec_move_up(
                    old(self).links_map(),
                    old(self).rlinks_map(),
                    pid,
                    id,
                ) is None,
            },
    {
        let rt = match self.get_rt(id, pid) {
            Some(x) => x,
            None => {
                return Err(Error::Corrupted);
            }
        };
        if rt.1 == 0 {
            return Ok(());
        }
        let prt = match self.get_rt(rt.1, pid) {
            Some(x) => x,
            None => {
                return Err(Error::Corrupted);
            }
        };
        match self.modify_rt_both(id, pid, rt.1, prt.1) {
            Ok(_) => {}
            Err(e) => {
                return Err(e);
            }
        }
        if rt.0 > 0 {
            match self.modify_rt_prev(rt.0, pid, rt.1) {
                Ok(_) => {}
                Err(e) => {
                    return Err(e);
                }
            }
        }
        match self.modify_rt_both(rt.1, pid, rt.0, id) {
            Ok(_) => {}
            Err(e) => {
                return Err(e);
            }
        }
        if prt.1 > 0 {
            match self.modify_rt_next(prt.1, pid, id) {
                Ok(_) => {}
                Err(e) => {
                    return Err(e);
                }
            }
        } else {
            self.links_set(pid, id);
            proof {
                lemma_mirror_same(*old(self), *self);
            }
        }
        Ok(())
    }

    /// Swap `id` with its next sibling under `pid`; a no-op at the tail.
    pub fn move_down(&mut self, pid: u64, id: u64) -> (r: Result<(), Error>)
        requires
            old(self).inv(),
        ensures
            final(self).inv(),
            final(self).id == old(self).id,
            final(self).names@ == old(self).names@,
            final(self).due_dates@ == old(self).due_dates@,
            final(self).sessions@ == old(self).sessions@,
            final(self).rsessions@ == old(self).rsessions@,
            match r {
                Ok(_) => spec_move_down(old(self).links_map(), old(self).rlinks_map(), pid, id)
                    == Some((final(self).links_map(), final(self).rlinks_map())),
                Err(_) => spec_move_down(
                    old(self).links_map(),
                    old(self).rlinks_map(),
                    pid,
                    id,
                ) is None,
            },
    {
        let rt = match self.get_rt(id, pid) {
            Some(x) => x,
            None => {
                return Err(Error::Corrupted);
            }
        };
        if rt.0 == 0 {
            return Ok(());
        }
        let nrt = match self.get_rt(rt.0, pid) {
            Some(x) => x,
            None => {
                return Err(Error::Corrupted);
            }
        };
        match self.modify_rt_both(id, pid, nrt.0, rt.0) {
            Ok(_) => {}
            Err(e) => {
                return Err(e);
            }
        }
        if rt.1 > 0 {
            match self.modify_rt_next(rt.1, pid, rt.0) {
                Ok(_) => {}
                Err(e) => {
                    return Err(e);
                }
            }
        } else {
            self.links_set(pid, rt.0);
            proof {
                lemma_mirror_same(*old(self), *self);
            }
        }
        match self.modify_rt_both(rt.0, pid, id, rt.1) {
            Ok(_) => {}
            Err(e) => {
                return Err(e);
            }
        }
        if nrt.0 > 0 {
            match self.modify_rt_prev(nrt.0, pid, id) {
                Ok(_) => {}
                Err(e) => {
                    return Err(e);
                }
            }
        }
        Ok(())
    }
}

} // verus!

verus! {

/// Parent `p` has `c` in its sibling list.
pub open spec fn step_edge(rl: Map<(u64, u64), (u64, u64)>, p: u64, c: u64) -> bool {
    rl.contains_key((c, p))
}

/// `to` can be reached from `from` along at most `n` child edges.
pub open spec fn reach(rl: Map<(u64, u64), (u64, u64)>, from: u64, to: u64, n: nat) -> bool
    decreases n,
{
    from == to || (n > 0 && exists|mid: u64|
        #[trigger] step_edge(rl, from, mid) && reach(rl, mid, to, (n - 1) as nat))
}

/// The effect of a successful `share`: prepend `src` to `dest`'s child list.
/// `None` marks a missing parentage record for the old head.
pub open spec fn spec_share(
    ls: Map<u64, u64>,
    rl: Map<(u64, u64), (u64, u64)>,
    src: u64,
    dest: u64,
) -> Option<(Map<u64, u64>, Map<(u64, u64), (u64, u64)>)> {
    let next = if ls.contains_key(dest) {
        ls[dest]
    } else {
        0
    };
    let ls1 = ls.insert(dest, src);
    let m1 = rl.insert((src, dest), (next, 0));
    if next > 0 {
        if !m1.contains_key((next, dest)) {
            None
        } else {
            Some((ls1, m1.insert((next, dest), (m1[(next, dest)].0, src))))
        }
    } else {
        Some((ls1, m1))
    }
}

impl StoreRw {
    /// Depth-first search for a child path from `pred` to `subj` of length
    /// at most `fuel`.
    pub(crate) fn desc_within(&self, subj: u64, pred: u64, fuel: usize) -> (r: bool)
        requires
            self.inv(),
        ensures
            r == reach(self.rlinks_map(), pred, subj, fuel as nat),
        decreases fuel,
    {
        if subj == pred {
            return true;
        }
        if fuel == 0 {
            return false;
        }
        let kids = self.children_of(pred);
        let mut i: usize = 0;
        while i < kids.len()
            invariant
                self.inv(),
                subj != pred,
                fuel >= 1,
                forall|c: u64|
                    #![trigger kids@.contains(c)]
                    #![trigger self.has_parentage(c, pred)]
                    kids@.contains(c) <==> self.has_parentage(c, pred),
                forall|j: int|
                    0 <= j < i ==> !reach(
                        self.rlinks_map(),
                        #[trigger] kids@[j],
                        subj,
                        (fuel - 1) as nat,
                    ),
            decreases kids@.len() - i,
        {
            if self.desc_within(subj, kids[i], fuel - 1) {
                proof {
                    assert(kids@.contains(kids@[i as int]));
                    assert(step_edge(self.rlinks_map(), pred, kids@[i as int]));
                }
                return true;
            }
            i += 1;
        }
        proof {
            if reach(self.rlinks_map(), pred, subj, fuel as nat) {
                let mid = choose|mid: u64|
                    #[trigger] step_edge(self.rlinks_map(), pred, mid) && reach(
                        self.rlinks_map(),
                        mid,
                        subj,
                        (fuel - 1) as nat,
                    );
                assert(self.has_parentage(mid, pred));
                assert(kids@.contains(mid));
                let j = choose|j: int| 0 <= j < kids@.len() && kids@[j] == mid;
                assert(!reach(self.rlinks_map(), kids@[j], subj, (fuel - 1) as nat));
            }
        }
        false
    }

    /// Whether `subj` equals `pred` or is reachable from `pred` along child
    /// edges, searching paths of at most as many edges as there are
    /// parentage records.
    pub(crate) fn is_descendent_of(&self, subj: u64, pred: u64) -> (r: bool)
        requires
            self.inv(),
        ensures
            r == reach(self.rlinks_map(), pred, subj, self.rlinks@.len() as nat),
    {
        let fuel = self.rlinks.len();
        self.desc_within(subj, pred, fuel)
    }

    /// Add `src` as an additional (first) child of `dest`. Refused — with
    /// `Ok(false)` and no change — when `dest` lies in `src`'s subtree (a
    /// cycle would form; `src == dest` included) or when `src` is already a
    /// direct child of `dest`.
    pub fn share(&mut self, src: u64, dest: u64) -> (r: Result<bool, Error>)
        requires
            old(self).inv(),
        ensures
            final(self).inv(),
            final(self).id == old(self).id,
            final(self).names@ == old(self).names@,
            final(self).due_dates@ == old(self).due_dates@,
            final(self).sessions@ == old(self).sessions@,
            final(self).rsessions@ == old(self).rsessions@,
            match r {
                Ok(false) => same_state(*final(self), *old(self)) && (reach(
                    old(self).rlinks_map(),
                    src,
                    dest,
                    old(self).rlinks@.len() as nat,
                ) || old(self).has_parentage(src, dest)),
                Ok(true) => !reach(
                    old(self).rlinks_map(),
                    src,
                    dest,
                    old(self).rlinks@.len() as nat,
                ) && !old(self).has_parentage(src, dest) && spec_share(
                    old(self).links_map(),
                    old(self).rlinks_map(),
                    src,
                    dest,
                ) == Some((final(self).links_map(), final(self).rlinks_map())),
                Err(_) => !reach(
                    old(self).rlinks_map(),
                    src,
                    dest,
                    old(self).rlinks@.len() as nat,
                ) && !old(self).has_parentage(src, dest) && spec_share(
                    old(self).links_map(),
                    old(self).rlinks_map(),
                    src,
                    dest,
                ) is None,
            },
    {
        if self.is_descendent_of(dest, src) {
            return Ok(false);
        }
        match self.get_rt(src, dest) {
            Some(_) => {
                return Ok(false);
            }
            None => {}
        }
        let next = match self.get_child(dest) {
            Some(c) => c,
            None => 0,
        };
        self.links_set(dest, src);
        self.rl_set(src, dest, next, 0);
        proof {
            lemma_mirror_same(*old(self), *self);
        }
        if next > 0 {
            match self.modify_rt_prev(next, dest, src) {
                Ok(_) => {}
                Err(e) => {
                    return Err(e);
                }
            }
        }
        Ok(true)
    }
}

} // verus!

verus! {

/// The effect of unlinking one parentage in `cut`: drop the old head entry
/// when `id` was head, install its `next` as the new head, splice the
/// neighbours, and remove the record. `None` marks a missing record.
pub open spec fn spec_cut_unlink(
    ls: Map<u64, u64>,
    rl: Map<(u64, u64), (u64, u64)>,
    pid: u64,
    id: u64,
) -> Option<(Map<u64, u64>, Map<(u64, u64), (u64, u64)>)> {
    let is_head = ls.contains_key(pid) && ls[pid] == id;
    let ls1 = if is_head {
        ls.remove(pid)
    } else {
        ls
    };
    if !rl.contains_key((id, pid)) {
        None
    } else {
        let rt = rl[(id, pid)];
        let ls2 = if is_head {
            ls1.insert(pid, rt.0)
        } else {
            ls1
        };
        if rt.1 > 0 && !rl.contains_key((rt.1, pid)) {
            None
        } else {
            let rl1 = if rt.1 > 0 {
                rl.insert((rt.1, pid), (rt.0, rl[(rt.1, pid)].1))
            } else {
                rl
            };
            if rt.0 > 0 && !rl1.contains_key((rt.0, pid)) {
                None
            } else {
                let rl2 = if rt.0 > 0 {
                    rl1.insert((rt.0, pid), (rl1[(rt.0, pid)].0, rt.1))
                } else {
                    rl1
                };
                Some((ls2, rl2.remove((id, pid))))
            }
        }
    }
}

/// The effect of unlinking one parentage in `delete`: drop the links entry
/// when `id` was head, splice the neighbours (installing `next` as head only
/// when `id` had no `prev`), and remove the record.
pub open spec fn spec_delete_unlink(
    ls: Map<u64, u64>,
    rl: Map<(u64, u64), (u64, u64)>,
    pid: u64,
    id: u64,
) -> Option<(Map<u64, u64>, Map<(u64, u64), (u64, u64)>)> {
    let ls1 = if ls.contains_key(pid) && ls[pid] == id {
        ls.remove(pid)
    } else {
        ls
    };
    if !rl.contains_key((id, pid)) {
        None
    } else {
        let rt = rl[(id, pid)];
        if rt.1 > 0 {
            if !rl.contains_key((rt.1, pid)) {
                None
            } else {
                let rl1 = rl.insert((rt.1, pid), (rt.0, rl[(rt.1, pid)].1));
                if rt.0 > 0 {
                    if !rl1.contains_key((rt.0, pid)) {
                        None
                    } else {
                        Some(
                            (
                                ls1,
                                rl1.insert((rt.0, pid), (rl1[(rt.0, pid)].0, rt.1)).remove(
                                    (id, pid),
                                ),
                            ),
                        )
                    }
                } else {
                    Some((ls1, rl1.remove((id, pid))))
                }
            }
        } else {
            let ls2 = if rt.0 > 0 {
                ls1.insert(pid, rt.0)
            } else {
                ls1
            };
            if rt.0 > 0 {
                if !rl.contains_key((rt.0, pid)) {
                    None
                } else {
                    Some(
                        (
                            ls2,
                            rl.insert((rt.0, pid), (rl[(rt.0, pid)].0, rt.1)).remove((id, pid)),
                        ),
                    )
                }
            } else {
                Some((ls2, rl.remove((id, pid))))
            }
        }
    }
}

impl StoreRw {
    /// Re-parent: add `src` under `dest` as `share` does, then unlink the
    /// old parentage under `src_pid`. `Ok(false)` with no change when the
    /// share part is refused.
    pub fn cut(&mut self, src_pid: u64, src: u64, dest: u64) -> (r: Result<bool, Error>)
        requires
            old(self).inv(),
        ensures
            final(self).inv(),
            final(self).id == old(self).id,
            final(self).names@ == old(self).names@,
            final(self).due_dates@ == old(self).due_dates@,
            final(self).sessions@ == old(self).sessions@,
            final(self).rsessions@ == old(self).rsessions@,
            match r {
                Ok(false) => same_state(*final(self), *old(self)) && (reach(
                    old(self).rlinks_map(),
                    src,
                    dest,
                    old(self).rlinks@.len() as nat,
                ) || old(self).has_parentage(src, dest)),
                Ok(true) => !reach(
                    old(self).rlinks_map(),
                    src,
                    dest,
                    old(self).rlinks@.len() as nat,
                ) && !old(self).has_parentage(src, dest) && (match spec_share(
                    old(self).links_map(),
                    old(self).rlinks_map(),
                    src,
                    dest,
                ) {
                    Some(mid) => spec_cut_unlink(mid.0, mid.1, src_pid, src) == Some(
                        (final(self).links_map(), final(self).rlinks_map()),
                    ),
                    None => false,
                }),
                Err(_) => !reach(
                    old(self).rlinks_map(),
                    src,
                    dest,
                    old(self).rlinks@.len() as nat,
                ) && !old(self).has_parentage(src, dest) && (match spec_share(
                    old(self).links_map(),
                    old(self).rlinks_map(),
                    src,
                    dest,
                ) {
                    Some(mid) => spec_cut_unlink(mid.0, mid.1, src_pid, src) is None,
                    None => true,
                }),
            },
    {
        let shared = match self.share(src, dest) {
            Ok(b) => b,
            Err(e) => {
                return Err(e);
            }
        };
        if !shared {
            return Ok(false);
        }
        let ghost mid = (self.links_map(), self.rlinks_map());
        let is_head = self.links_remove_exact(src_pid, src);
        proof {
            lemma_mirror_same(*old(self), *self);
        }
        let rt = match self.get_rt(src, src_pid) {
            Some(x) => x,
            None => {
                return Err(Error::Corrupted);
            }
        };
        if is_head {
            self.links_set(src_pid, rt.0);
            proof {
                lemma_mirror_same(*old(self), *self);
            }
        }
        if rt.1 > 0 {
            match self.modify_rt_next(rt.1, src_pid, rt.0) {
                Ok(_) => {}
                Err(e) => {
                    return Err(e);
                }
            }
        }
        if rt.0 > 0 {
            match self.modify_rt_prev(rt.0, src_pid, rt.1) {
                Ok(_) => {}
                Err(e) => {
                    return Err(e);
                }
            }
        }
        self.rl_remove(src, src_pid);
        proof {
            lemma_mirror_same(*old(self), *self);
            assert(spec_cut_unlink(mid.0, mid.1, src_pid, src) == Some(
                (self.links_map(), self.rlinks_map()),
            ));
        }
        Ok(true)
    }
}

} // verus!

verus! {

/// Every entry of `b`'s name, due-date, session and parentage indices was
/// already present in `a`: deletion never adds.
pub open spec fn shrinks_to(a: StoreRw, b: StoreRw) -> bool {
    &&& forall|k: u64| #[trigger] b.names_map().contains_key(k) ==> a.names_map().contains_key(k)
    &&& forall|k: u64| #[trigger] b.dues_map().contains_key(k) ==> a.dues_map().contains_key(k)
    &&& forall|k: (u64, Session)| #[trigger] b.sessions_map().contains_key(k)
        ==> a.sessions_map().contains_key(k)
    &&& forall|k: (Session, u64)| #[trigger] b.rsessions_map().contains_key(k)
        ==> a.rsessions_map().contains_key(k)
    &&& forall|k: (u64, u64)| #[trigger] b.rlinks_map().contains_key(k)
        ==> a.rlinks_map().contains_key(k)
}

pub proof fn lemma_shrinks_trans(a: StoreRw, b: StoreRw, c: StoreRw)
    requires
        shrinks_to(a, b),
        shrinks_to(b, c),
    ensures
        shrinks_to(a, c),
{
}

impl StoreRw {
    /// Remove every session of node `id`.
    pub(crate) fn delete_id_sessions(&mut self, id: u64)
        requires
            old(self).inv(),
        ensures
            final(self).inv(),
            eq_except_session_pair(*final(self), *old(self)),
            forall|s: Session| !(#[trigger] final(self).has_session(id, s)),
            forall|k: (u64, Session)| #[trigger] final(self).sessions_map().contains_key(k)
                <==> (old(self).sessions_map().contains_key(k) && k.0 != id),
            forall|k: (Session, u64)| #[trigger] final(self).rsessions_map().contains_key(k)
                <==> (old(self).rsessions_map().contains_key(k) && k.1 != id),
    {
        let mut more = true;
        while more
            invariant
                self.inv(),
                eq_except_session_pair(*self, *old(self)),
                forall|k: (u64, Session)| #[trigger] self.sessions_map().contains_key(k) ==> old(
                    self,
                ).sessions_map().contains_key(k),
                forall|k: (u64, Session)|
                    k.0 != id ==> (#[trigger] self.sessions_map().contains_key(k) <==> old(
                        self,
                    ).sessions_map().contains_key(k)),
                forall|k: (Session, u64)| #[trigger] self.rsessions_map().contains_key(k) ==> old(
                    self,
                ).rsessions_map().contains_key(k),
                forall|k: (Session, u64)|
                    k.1 != id ==> (#[trigger] self.rsessions_map().contains_key(k) <==> old(
                        self,
                    ).rsessions_map().contains_key(k)),
                !more ==> forall|s: Session| !(#[trigger] self.has_session(id, s)),
                !more ==> forall|k: (Session, u64)|
                    k.1 == id ==> !(#[trigger] self.rsessions_map().contains_key(k)),
            decreases self.sessions@.len(), (if more { 1int } else { 0int }),
        {
            match self.sess_find_by_id(id) {
                None => {
                    proof {
                        assert forall|k: (Session, u64)| k.1 == id implies !(
                        #[trigger] self.rsessions_map().contains_key(k)) by {
                            assert(!self.has_session(id, k.0));
                        }
                    }
                    more = false;
                }
                Some(s) => {
                    self.delete_session(id, s);
                }
            }
        }
        proof {
            assert forall|k: (u64, Session)|
                #[trigger] self.sessions_map().contains_key(k) implies k.0 != id by {
                if k.0 == id {
                    assert(!self.has_session(id, k.1));
                }
            }
        }
    }

    /// Remove the parentage of `id` under `pid`; when it was the last one,
    /// clear the node's name, due date and sessions and delete its children
    /// from under it, cascading.
    pub(crate) fn delete_helper(&mut self, pid: u64, id: u64) -> (r: Result<(), Error>)
        requires
            old(self).inv(),
            old(self).has_parentage(id, pid),
        ensures
            final(self).inv(),
            final(self).id == old(self).id,
            shrinks_to(*old(self), *final(self)),
            final(self).rlinks@.len() < old(self).rlinks@.len(),
            !final(self).has_parentage(id, pid),
            (exists|p: u64| p != pid && #[trigger] old(self).has_parentage(id, p)) ==> r is Ok,
            ((forall|p: u64| p != pid ==> !(#[trigger] old(self).has_parentage(id, p)))
                && !old(self).links_map().contains_key(id)) ==> r is Ok,
            r is Ok ==> {
                &&& ((exists|p: u64| p != pid && #[trigger] old(self).has_parentage(id, p)) ==> {
                    &&& final(self).rlinks_map() == old(self).rlinks_map().remove((id, pid))
                    &&& final(self).links@ == old(self).links@
                    &&& final(self).names@ == old(self).names@
                    &&& final(self).due_dates@ == old(self).due_dates@
                    &&& final(self).sessions@ == old(self).sessions@
                    &&& final(self).rsessions@ == old(self).rsessions@
                })
                &&& ((forall|p: u64|
                    p != pid ==> !(#[trigger] old(self).has_parentage(id, p))) ==> {
                    &&& !final(self).names_map().contains_key(id)
                    &&& !final(self).dues_map().contains_key(id)
                    &&& (forall|s: Session| !(#[trigger] final(self).has_session(id, s)))
                    &&& (forall|p: u64| !(#[trigger] final(self).has_parentage(id, p)))
                    &&& !final(self).links_map().contains_key(id)
                })
            },
        decreases self.rlinks@.len(), 0int,
    {
        self.rl_remove(id, pid);
        proof {
            lemma_mirror_same(*old(self), *self);
        }
        if self.rl_any_parent(id) {
            proof {
                let p = choose|p: u64| #[trigger] self.has_parentage(id, p);
                assert(p != pid);
                assert(old(self).has_parentage(id, p));
            }
            return Ok(());
        }
        let ghost a1 = *self;
        self.names_remove(id);
        proof {
            lemma_mirror_same(a1, *self);
        }
        let ghost a2 = *self;
        self.dues_remove(id);
        proof {
            lemma_mirror_same(a2, *self);
        }
        self.delete_id_sessions(id);
        proof {
            assert forall|p: u64| !(#[trigger] self.has_parentage(id, p)) by {
                assert(self.has_parentage(id, p) == a1.has_parentage(id, p));
            }
            assert forall|p: u64| p != pid implies !(#[trigger] old(self).has_parentage(
                id,
                p,
            )) by {
                if old(self).has_parentage(id, p) {
                    assert(a1.has_parentage(id, p));
                }
            }
        }
        let mut more = true;
        while more
            invariant
                self.inv(),
                self.id == old(self).id,
                shrinks_to(*old(self), *self),
                self.rlinks@.len() < old(self).rlinks@.len(),
                !self.names_map().contains_key(id),
                !self.dues_map().contains_key(id),
                forall|s: Session| !(#[trigger] self.has_session(id, s)),
                forall|p: u64| !(#[trigger] self.has_parentage(id, p)),
                forall|p: u64| p != pid ==> !(#[trigger] old(self).has_parentage(id, p)),
                !old(self).links_map().contains_key(id) ==> self.links@ == old(self).links@,
                !more ==> !self.links_map().contains_key(id),
            decreases self.rlinks@.len(), self.links@.len(), (if more { 1int } else { 0int }),
        {
            match self.get_child(id) {
                None => {
                    more = false;
                }
                Some(c) => {
                    if c == 0 {
                        let ghost a3 = *self;
                        self.links_remove(id);
                        proof {
                            lemma_mirror_same(a3, *self);
                            assert(self.names_map() == a3.names_map());
                            assert(self.dues_map() == a3.dues_map());
                            assert(self.sessions_map() == a3.sessions_map());
                            assert(self.rsessions_map() == a3.rsessions_map());
                            assert(self.rlinks_map() == a3.rlinks_map());
                            assert forall|s: Session| !(#[trigger] self.has_session(id, s)) by {
                                if self.has_session(id, s) {
                                    assert(a3.has_session(id, s));
                                }
                            }
                            assert forall|p: u64| !(#[trigger] self.has_parentage(id, p)) by {
                                if self.has_parentage(id, p) {
                                    assert(a3.has_parentage(id, p));
                                }
                            }
                        }
                    } else {
                        let ghost pre = *self;
                        match self.delete(id, c) {
                            Ok(_) => {
                                proof {
                                    lemma_shrinks_trans(*old(self), pre, *self);
                                    assert forall|s: Session| !(#[trigger] self.has_session(
                                        id,
                                        s,
                                    )) by {
                                        if self.has_session(id, s) {
                                            assert(pre.has_session(id, s));
                                        }
                                    }
                                    assert forall|p: u64| !(#[trigger] self.has_parentage(
                                        id,
                                        p,
                                    )) by {
                                        if self.has_parentage(id, p) {
                                            assert(pre.has_parentage(id, p));
                                        }
                                    }
                                }
                            }
                            Err(e) => {
                                proof {
                                    lemma_shrinks_trans(*old(self), pre, *self);
                                    if self.has_parentage(id, pid) {
                                        assert(pre.has_parentage(id, pid));
                                    }

                                }
                                return Err(e);
                            }
                        }
                    }
                }
            }
        }
        proof {
            if exists|p: u64| p != pid && #[trigger] old(self).has_parentage(id, p) {
                let p = choose|p: u64| p != pid && #[trigger] old(self).has_parentage(id, p);
                assert(a1.has_parentage(id, p));
            }
        }
        Ok(())
    }

    /// Remove the parentage of `id` under `pid`, splicing it out of the
    /// sibling list; when no other parentage remains, delete the node and
    /// its now-orphaned descendants (see `delete_helper`).
    pub fn delete(&mut self, pid: u64, id: u64) -> (r: Result<(), Error>)
        requires
            old(self).inv(),
        ensures
            final(self).inv(),
            final(self).id == old(self).id,
            shrinks_to(*old(self), *final(self)),
            final(self).rlinks@.len() <= old(self).rlinks@.len(),
            r is Ok ==> {
                &&& old(self).has_parentage(id, pid)
                &&& !final(self).has_parentage(id, pid)
                &&& final(self).rlinks@.len() < old(self).rlinks@.len()
                &&& ((exists|p: u64| p != pid && #[trigger] old(self).has_parentage(id, p)) ==> {
                    &&& spec_delete_unlink(
                        old(self).links_map(),
                        old(self).rlinks_map(),
                        pid,
                        id,
                    ) == Some((final(self).links_map(), final(self).rlinks_map()))
                    &&& final(self).names@ == old(self).names@
                    &&& final(self).due_dates@ == old(self).due_dates@
                    &&& final(self).sessions@ == old(self).sessions@
                    &&& final(self).rsessions@ == old(self).rsessions@
                })
                &&& ((forall|p: u64|
                    p != pid ==> !(#[trigger] old(self).has_parentage(id, p))) ==> {
                    &&& !final(self).names_map().contains_key(id)
                    &&& !final(self).dues_map().contains_key(id)
                    &&& (forall|s: Session| !(#[trigger] final(self).has_session(id, s)))
                    &&& (forall|p: u64| !(#[trigger] final(self).has_parentage(id, p)))
                    &&& !final(self).links_map().contains_key(id)
                })
            },
            match spec_delete_unlink(old(self).links_map(), old(self).rlinks_map(), pid, id) {
                Some(v) => ((exists|p: u64| p != pid && #[trigger] old(self).has_parentage(id, p))
                    || !v.0.contains_key(id)) ==> r is Ok,
                None => r is Err,
            },
        decreases self.rlinks@.len(), 1int,
    {
        self.links_remove_exact(pid, id);
        proof {
            lemma_mirror_same(*old(self), *self);
        }
        let ghost ospec = spec_delete_unlink(
            old(self).links_map(),
            old(self).rlinks_map(),
            pid,
            id,
        );
        let rt = match self.get_rt(id, pid) {
            Some(x) => x,
            None => {
                proof {
                    assert(ospec is None);
                }
                return Err(Error::Corrupted);
            }
        };
        if rt.1 > 0 {
            match self.modify_rt_next(rt.1, pid, rt.0) {
                Ok(_) => {}
                Err(e) => {
                    proof {
                        assert(ospec is None);
                    }
                    return Err(e);
                }
            }
        } else if rt.0 > 0 {
            let ghost a1 = *self;
            self.links_set(pid, rt.0);
            proof {
                lemma_mirror_same(a1, *self);
            }
        }
        if rt.0 > 0 {
            match self.modify_rt_prev(rt.0, pid, rt.1) {
                Ok(_) => {}
                Err(e) => {
                    proof {
                        assert(ospec is None);
                    }
                    return Err(e);
                }
            }
        }
        let ghost mid = *self;
        proof {
            assert(ospec is Some);
            assert((ospec->Some_0).0 == mid.links_map());
            assert(shrinks_to(*old(self), mid));
            assert forall|p: u64| #[trigger] mid.has_parentage(id, p) == old(
                self,
            ).has_parentage(id, p) by {}
        }
        let res = self.delete_helper(pid, id);
        proof {
            lemma_shrinks_trans(*old(self), mid, *self);
            if exists|p: u64| p != pid && #[trigger] old(self).has_parentage(id, p) {
                let p = choose|p: u64| p != pid && #[trigger] old(self).has_parentage(id, p);
                assert(mid.has_parentage(id, p));
            } else {
                assert forall|p: u64|
                    p != pid implies !(#[trigger] mid.has_parentage(id, p)) by {
                    assert(!old(self).has_parentage(id, p));
                }
                if !(ospec->Some_0).0.contains_key(id) {
                    assert(!mid.links_map().contains_key(id));
                }
            }
        }
        res
    }
}

} // verus!
