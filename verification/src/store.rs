//! The store state: six indices over node identifiers plus the id counter.
//!
//! - `links`: parent id -> first child id (head of the sibling list);
//! - `rlinks`: (child id, parent id) -> (next, prev) sibling links;
//! - `names`: node id -> name;
//! - `due_dates`: node id -> due timestamp;
//! - `sessions`: the set of (node id, session) pairs;
//! - `rsessions`: the same pairs mirrored as (session, node id) for
//!   global chronological scans.
//!
//! Each index is an association list read as a map (see `assoc`); the
//! well-formedness invariant asks for distinct keys everywhere and for
//! `sessions` and `rsessions` to mirror each other exactly.

use vstd::prelude::*;

use crate::assoc::{
    assoc_map, distinct_keys, lemma_assoc_contains, lemma_assoc_get, lemma_assoc_push,
    lemma_assoc_remove, lemma_distinct_push, lemma_distinct_remove,
};
use crate::Session;

verus! {

pub struct StoreRw {
    /// The next free node id; ids 1.. are handed out in order, id 0 is the root.
    pub id: u64,
    pub links: Vec<(u64, u64)>,
    pub rlinks: Vec<((u64, u64), (u64, u64))>,
    pub names: Vec<(u64, String)>,
    pub due_dates: Vec<(u64, i64)>,
    pub sessions: Vec<((u64, Session), ())>,
    pub rsessions: Vec<((Session, u64), ())>,
}

/// The write handle is the same state type: every edit operation lives on
/// `StoreRw`, and this alias names its write-side role.
pub type StoreWriter = StoreRw;

impl StoreRw {
    pub open spec fn links_map(self) -> Map<u64, u64> {
        assoc_map(self.links@)
    }

    pub open spec fn rlinks_map(self) -> Map<(u64, u64), (u64, u64)> {
        assoc_map(self.rlinks@)
    }

    pub open spec fn names_map(self) -> Map<u64, String> {
        assoc_map(self.names@)
    }

    pub open spec fn dues_map(self) -> Map<u64, i64> {
        assoc_map(self.due_dates@)
    }

    pub open spec fn sessions_map(self) -> Map<(u64, Session), ()> {
        assoc_map(self.sessions@)
    }

    pub open spec fn rsessions_map(self) -> Map<(Session, u64), ()> {
        assoc_map(self.rsessions@)
    }

    /// Node `id` carries session `s`.
    pub open spec fn has_session(self, id: u64, s: Session) -> bool {
        self.sessions_map().contains_key((id, s))
    }

    /// Node `c` stands in the sibling list of parent `p`.
    pub open spec fn has_parentage(self, c: u64, p: u64) -> bool {
        self.rlinks_map().contains_key((c, p))
    }

    pub open spec fn keys_ok(self) -> bool {
        &&& distinct_keys(self.links@)
        &&& distinct_keys(self.rlinks@)
        &&& distinct_keys(self.names@)
        &&& distinct_keys(self.due_dates@)
        &&& distinct_keys(self.sessions@)
        &&& distinct_keys(self.rsessions@)
    }

    /// `sessions` and `rsessions` hold exactly the same pairs.
    pub open spec fn mirror_ok(self) -> bool {
        forall|id: u64, s: Session|
            #![trigger self.sessions_map().contains_key((id, s))]
            #![trigger self.rsessions_map().contains_key((s, id))]
            self.sessions_map().contains_key((id, s)) <==> self.rsessions_map().contains_key(
                (s, id),
            )
    }

    pub open spec fn inv(self) -> bool {
        self.keys_ok() && self.mirror_ok()
    }
}

/// The two states agree everywhere but possibly on `links`.
pub open spec fn eq_except_links(a: StoreRw, b: StoreRw) -> bool {
    a.id == b.id && a.rlinks@ == b.rlinks@ && a.names@ == b.names@ && a.due_dates@
        == b.due_dates@ && a.sessions@ == b.sessions@ && a.rsessions@ == b.rsessions@
}

pub open spec fn eq_except_rlinks(a: StoreRw, b: StoreRw) -> bool {
    a.id == b.id && a.links@ == b.links@ && a.names@ == b.names@ && a.due_dates@ == b.due_dates@
        && a.sessions@ == b.sessions@ && a.rsessions@ == b.rsessions@
}

pub open spec fn eq_except_names(a: StoreRw, b: StoreRw) -> bool {
    a.id == b.id && a.links@ == b.links@ && a.rlinks@ == b.rlinks@ && a.due_dates@
        == b.due_dates@ && a.sessions@ == b.sessions@ && a.rsessions@ == b.rsessions@
}

pub open spec fn eq_except_dues(a: StoreRw, b: StoreRw) -> bool {
    a.id == b.id && a.links@ == b.links@ && a.rlinks@ == b.rlinks@ && a.names@ == b.names@
        && a.sessions@ == b.sessions@ && a.rsessions@ == b.rsessions@
}

pub open spec fn eq_except_session_pair(a: StoreRw, b: StoreRw) -> bool {
    a.id == b.id && a.links@ == b.links@ && a.rlinks@ == b.rlinks@ && a.names@ == b.names@
        && a.due_dates@ == b.due_dates@
}

/// The two states are equal, index by index.
pub open spec fn same_state(a: StoreRw, b: StoreRw) -> bool {
    a.id == b.id && a.links@ == b.links@ && a.rlinks@ == b.rlinks@ && a.names@ == b.names@
        && a.due_dates@ == b.due_dates@ && a.sessions@ == b.sessions@ && a.rsessions@
        == b.rsessions@
}

impl StoreRw {
    /// A fresh store: the root node 0 named "/", the counter at 1, all other
    /// indices empty.
    pub fn new() -> (r: StoreRw)
        ensures
            r.inv(),
            r.id == 1,
            r.links_map() == Map::<u64, u64>::empty(),
            r.rlinks_map() == Map::<(u64, u64), (u64, u64)>::empty(),
            r.names_map().dom() =~= set![0u64],
            r.names_map()[0]@ == "/"@,
            r.dues_map() == Map::<u64, i64>::empty(),
            r.sessions_map() == Map::<(u64, Session), ()>::empty(),
            r.rsessions_map() == Map::<(Session, u64), ()>::empty(),
    {
        let mut names: Vec<(u64, String)> = Vec::new();
        names.push((0, "/".to_string()));
        let r = StoreRw {
            id: 1,
            links: Vec::new(),
            rlinks: Vec::new(),
            names,
            due_dates: Vec::new(),
            sessions: Vec::new(),
            rsessions: Vec::new(),
        };
        proof {
            lemma_assoc_push(Seq::<(u64, String)>::empty(), r.names@[0].0, r.names@[0].1);
            assert(r.names@.drop_last() =~= Seq::<(u64, String)>::empty());
            assert(r.names_map() =~= Map::<u64, String>::empty().insert(0, r.names@[0].1));
            assert(r.names_map().dom() =~= set![0u64]);
        }
        r
    }

    pub(crate) fn links_find(&self, pid: u64) -> (r: Option<usize>)
        ensures
            match r {
                Some(i) => i < self.links@.len() && self.links@[i as int].0 == pid,
                None => forall|j: int| 0 <= j < self.links@.len() ==> (#[trigger] self.links@[j]).0 != pid,
            },
    {
        let mut i: usize = 0;
        while i < self.links.len()
            invariant
                i <= self.links@.len(),
                forall|j: int| 0 <= j < i ==> (#[trigger] self.links@[j]).0 != pid,
            decreases self.links@.len() - i,
        {
            if self.links[i].0 == pid {
                return Some(i);
            }
            i += 1;
        }
        None
    }

    /// The head of `pid`'s sibling list, if the parent has children.
    pub(crate) fn get_child(&self, pid: u64) -> (r: Option<u64>)
        requires
            distinct_keys(self.links@),
        ensures
            match r {
                Some(c) => self.links_map().contains_key(pid) && self.links_map()[pid] == c,
                None => !self.links_map().contains_key(pid),
            },
    {
        proof {
            lemma_assoc_contains(self.links@, pid);
        }
        match self.links_find(pid) {
            Some(i) => {
                proof {
                    lemma_assoc_get(self.links@, i as int);
                }
                Some(self.links[i].1)
            }
            None => None,
        }
    }

    pub(crate) fn links_set(&mut self, pid: u64, child: u64)
        requires
            distinct_keys(old(self).links@),
        ensures
            distinct_keys(final(self).links@),
            final(self).links_map() == old(self).links_map().insert(pid, child),
            eq_except_links(*final(self), *old(self)),
    {
        let ghost m0 = self.links_map();
        match self.links_find(pid) {
            Some(i) => {
                let ghost s0 = self.links@;
                self.links.remove(i);
                proof {
                    lemma_assoc_remove(s0, i as int);
                    lemma_distinct_remove(s0, i as int);
                    assert forall|j: int| 0 <= j < self.links@.len() implies (
                    #[trigger] self.links@[j]).0 != pid by {
                        if j < i {
                            assert(self.links@[j] == s0[j]);
                        } else {
                            assert(self.links@[j] == s0[j + 1]);
                        }
                    }
                }
            }
            None => {}
        }
        let ghost s1 = self.links@;
        self.links.push((pid, child));
        proof {
            lemma_assoc_push(s1, pid, child);
            lemma_distinct_push(s1, pid, child);
            assert(final(self).links_map() =~= m0.insert(pid, child));
        }
    }

    /// Remove the `links` entry for `pid`, reporting whether one was there.
    pub(crate) fn links_remove(&mut self, pid: u64) -> (r: bool)
        requires
            distinct_keys(old(self).links@),
        ensures
            distinct_keys(final(self).links@),
            final(self).links_map() == old(self).links_map().remove(pid),
            r == old(self).links_map().contains_key(pid),
            r ==> final(self).links@.len() < old(self).links@.len(),
            !r ==> final(self).links@ == old(self).links@,
            eq_except_links(*final(self), *old(self)),
    {
        proof {
            lemma_assoc_contains(self.links@, pid);
        }
        match self.links_find(pid) {
            Some(i) => {
                let ghost s0 = self.links@;
                self.links.remove(i);
                proof {
                    lemma_assoc_remove(s0, i as int);
                    lemma_distinct_remove(s0, i as int);
                    lemma_assoc_get(s0, i as int);
                }
                true
            }
            None => {
                proof {
                    assert(final(self).links_map() =~= old(self).links_map().remove(pid));
                }
                false
            }
        }
    }
}

} // verus!

verus! {

impl StoreRw {
    pub(crate) fn names_find(&self, id: u64) -> (r: Option<usize>)
        ensures
            match r {
                Some(i) => i < self.names@.len() && self.names@[i as int].0 == id,
                None => forall|j: int| 0 <= j < self.names@.len() ==> (#[trigger] self.names@[j]).0 != id,
            },
    {
        let mut i: usize = 0;
        while i < self.names.len()
            invariant
                i <= self.names@.len(),
                forall|j: int| 0 <= j < i ==> (#[trigger] self.names@[j]).0 != id,
            decreases self.names@.len() - i,
        {
            if self.names[i].0 == id {
                return Some(i);
            }
            i += 1;
        }
        None
    }

    pub(crate) fn names_set(&mut self, id: u64, name: String)
        requires
            distinct_keys(old(self).names@),
        ensures
            distinct_keys(final(self).names@),
            final(self).names_map() == old(self).names_map().insert(id, name),
            eq_except_names(*final(self), *old(self)),
    {
        let ghost m0 = self.names_map();
        match self.names_find(id) {
            Some(i) => {
                let ghost s0 = self.names@;
                self.names.remove(i);
                proof {
                    lemma_assoc_remove(s0, i as int);
                    lemma_distinct_remove(s0, i as int);
                    assert forall|j: int| 0 <= j < self.names@.len() implies (
                    #[trigger] self.names@[j]).0 != id by {
                        if j < i {
                            assert(self.names@[j] == s0[j]);
                        } else {
                            assert(self.names@[j] == s0[j + 1]);
                        }
                    }
                }
            }
            None => {}
        }
        let ghost s1 = self.names@;
        let ghost nm = name;
        self.names.push((id, name));
        proof {
            lemma_assoc_push(s1, id, nm);
            lemma_distinct_push(s1, id, nm);
            assert(final(self).names_map() =~= m0.insert(id, nm));
        }
    }

    pub(crate) fn names_remove(&mut self, id: u64) -> (r: bool)
        requires
            distinct_keys(old(self).names@),
        ensures
            distinct_keys(final(self).names@),
            final(self).names_map() == old(self).names_map().remove(id),
            r == old(self).names_map().contains_key(id),
            eq_except_names(*final(self), *old(self)),
    {
        proof {
            lemma_assoc_contains(self.names@, id);
        }
        match self.names_find(id) {
            Some(i) => {
                let ghost s0 = self.names@;
                self.names.remove(i);
                proof {
                    lemma_assoc_remove(s0, i as int);
                    lemma_distinct_remove(s0, i as int);
                    lemma_assoc_get(s0, i as int);
                }
                true
            }
            None => {
                proof {
                    assert(final(self).names_map() =~= old(self).names_map().remove(id));
                }
                false
            }
        }
    }

    pub(crate) fn dues_find(&self, id: u64) -> (r: Option<usize>)
        ensures
            match r {
                Some(i) => i < self.due_dates@.len() && self.due_dates@[i as int].0 == id,
                None => forall|j: int|
                    0 <= j < self.due_dates@.len() ==> (#[trigger] self.due_dates@[j]).0 != id,
            },
    {
        let mut i: usize = 0;
        while i < self.due_dates.len()
            invariant
                i <= self.due_dates@.len(),
                forall|j: int| 0 <= j < i ==> (#[trigger] self.due_dates@[j]).0 != id,
            decreases self.due_dates@.len() - i,
        {
            if self.due_dates[i].0 == id {
                return Some(i);
            }
            i += 1;
        }
        None
    }

    pub(crate) fn dues_set(&mut self, id: u64, date: i64)
        requires
            distinct_keys(old(self).due_dates@),
        ensures
            distinct_keys(final(self).due_dates@),
            final(self).dues_map() == old(self).dues_map().insert(id, date),
            eq_except_dues(*final(self), *old(self)),
    {
        let ghost m0 = self.dues_map();
        match self.dues_find(id) {
            Some(i) => {
                let ghost s0 = self.due_dates@;
                self.due_dates.remove(i);
                proof {
                    lemma_assoc_remove(s0, i as int);
                    lemma_distinct_remove(s0, i as int);
                    assert forall|j: int| 0 <= j < self.due_dates@.len() implies (
                    #[trigger] self.due_dates@[j]).0 != id by {
                        if j < i {
                            assert(self.due_dates@[j] == s0[j]);
                        } else {
                            assert(self.due_dates@[j] == s0[j + 1]);
                        }
                    }
                }
            }
            None => {}
        }
        let ghost s1 = self.due_dates@;
        self.due_dates.push((id, date));
        proof {
            lemma_assoc_push(s1, id, date);
            lemma_distinct_push(s1, id, date);
            assert(final(self).dues_map() =~= m0.insert(id, date));
        }
    }

    pub(crate) fn dues_remove(&mut self, id: u64) -> (r: bool)
        requires
            distinct_keys(old(self).due_dates@),
        ensures
            distinct_keys(final(self).due_dates@),
            final(self).dues_map() == old(self).dues_map().remove(id),
            r == old(self).dues_map().contains_key(id),
            eq_except_dues(*final(self), *old(self)),
    {
        proof {
            lemma_assoc_contains(self.due_dates@, id);
        }
        match self.dues_find(id) {
            Some(i) => {
                let ghost s0 = self.due_dates@;
                self.due_dates.remove(i);
                proof {
                    lemma_assoc_remove(s0, i as int);
                    lemma_distinct_remove(s0, i as int);
                    lemma_assoc_get(s0, i as int);
                }
                true
            }
            None => {
                proof {
                    assert(final(self).dues_map() =~= old(self).dues_map().remove(id));
                }
                false
            }
        }
    }
}

} // verus!

verus! {

impl StoreRw {
    pub(crate) fn rl_find(&self, c: u64, p: u64) -> (r: Option<usize>)
        ensures
            match r {
                Some(i) => i < self.rlinks@.len() && self.rlinks@[i as int].0 == (c, p),
                None => forall|j: int|
                    0 <= j < self.rlinks@.len() ==> (#[trigger] self.rlinks@[j]).0 != (c, p),
            },
    {
        let mut i: usize = 0;
        while i < self.rlinks.len()
            invariant
                i <= self.rlinks@.len(),
                forall|j: int| 0 <= j < i ==> (#[trigger] self.rlinks@[j]).0 != (c, p),
            decreases self.rlinks@.len() - i,
        {
            if self.rlinks[i].0.0 == c && self.rlinks[i].0.1 == p {
                return Some(i);
            }
            i += 1;
        }
        None
    }

    /// The (next, prev) sibling links of node `c` under parent `p`.
    pub(crate) fn get_rt(&self, c: u64, p: u64) -> (r: Option<(u64, u64)>)
        requires
            distinct_keys(self.rlinks@),
        ensures
            match r {
                Some(np) => self.has_parentage(c, p) && self.rlinks_map()[(c, p)] == np,
                None => !self.has_parentage(c, p),
            },
    {
        proof {
            lemma_assoc_contains(self.rlinks@, (c, p));
        }
        match self.rl_find(c, p) {
            Some(i) => {
                proof {
                    lemma_assoc_get(self.rlinks@, i as int);
                }
                Some(self.rlinks[i].1)
            }
            None => None,
        }
    }

    pub(crate) fn rl_set(&mut self, c: u64, p: u64, next: u64, prev: u64)
        requires
            distinct_keys(old(self).rlinks@),
        ensures
            distinct_keys(final(self).rlinks@),
            final(self).rlinks_map() == old(self).rlinks_map().insert((c, p), (next, prev)),
            old(self).has_parentage(c, p) ==> final(self).rlinks@.len() == old(self).rlinks@.len(),
            !old(self).has_parentage(c, p) ==> final(self).rlinks@.len() == old(self).rlinks@.len()
                + 1,
            eq_except_rlinks(*final(self), *old(self)),
    {
        proof {
            lemma_assoc_contains(self.rlinks@, (c, p));
        }
        let ghost m0 = self.rlinks_map();
        match self.rl_find(c, p) {
            Some(i) => {
                let ghost s0 = self.rlinks@;
                self.rlinks.remove(i);
                proof {
                    lemma_assoc_remove(s0, i as int);
                    lemma_distinct_remove(s0, i as int);
                    assert forall|j: int| 0 <= j < self.rlinks@.len() implies (
                    #[trigger] self.rlinks@[j]).0 != (c, p) by {
                        if j < i {
                            assert(self.rlinks@[j] == s0[j]);
                        } else {
                            assert(self.rlinks@[j] == s0[j + 1]);
                        }
                    }
                }
            }
            None => {}
        }
        let ghost s1 = self.rlinks@;
        self.rlinks.push(((c, p), (next, prev)));
        proof {
            lemma_assoc_push(s1, (c, p), (next, prev));
            lemma_distinct_push(s1, (c, p), (next, prev));
            assert(final(self).rlinks_map() =~= m0.insert((c, p), (next, prev)));
        }
    }

    pub(crate) fn rl_remove(&mut self, c: u64, p: u64) -> (r: bool)
        requires
            distinct_keys(old(self).rlinks@),
        ensures
            distinct_keys(final(self).rlinks@),
            final(self).rlinks_map() == old(self).rlinks_map().remove((c, p)),
            r == old(self).has_parentage(c, p),
            r ==> final(self).rlinks@.len() < old(self).rlinks@.len(),
            !r ==> final(self).rlinks@.len() == old(self).rlinks@.len(),
            eq_except_rlinks(*final(self), *old(self)),
    {
        proof {
            lemma_assoc_contains(self.rlinks@, (c, p));
        }
        match self.rl_find(c, p) {
            Some(i) => {
                let ghost s0 = self.rlinks@;
                self.rlinks.remove(i);
                proof {
                    lemma_assoc_remove(s0, i as int);
                    lemma_distinct_remove(s0, i as int);
                    lemma_assoc_get(s0, i as int);
                }
                true
            }
            None => {
                proof {
                    assert(final(self).rlinks_map() =~= old(self).rlinks_map().remove((c, p)));
                }
                false
            }
        }
    }

    /// Whether node `c` still has any parentage at all.
    pub(crate) fn rl_any_parent(&self, c: u64) -> (r: bool)
        requires
            distinct_keys(self.rlinks@),
        ensures
            r == exists|p: u64| #[trigger] self.has_parentage(c, p),
    {
        let mut i: usize = 0;
        while i < self.rlinks.len()
            invariant
                i <= self.rlinks@.len(),
                distinct_keys(self.rlinks@),
                forall|j: int| 0 <= j < i ==> (#[trigger] self.rlinks@[j]).0.0 != c,
            decreases self.rlinks@.len() - i,
        {
            if self.rlinks[i].0.0 == c {
                proof {
                    lemma_assoc_get(self.rlinks@, i as int);
                    assert(self.has_parentage(c, self.rlinks@[i as int].0.1));
                }
                return true;
            }
            i += 1;
        }
        proof {
            assert forall|p: u64| !(#[trigger] self.has_parentage(c, p)) by {
                lemma_assoc_contains(self.rlinks@, (c, p));
            }
        }
        false
    }

    /// Every node that has a parentage under `p`, in index order.
    pub(crate) fn children_of(&self, p: u64) -> (r: Vec<u64>)
        requires
            distinct_keys(self.rlinks@),
        ensures
            forall|c: u64|
                #![trigger r@.contains(c)]
                #![trigger self.has_parentage(c, p)]
                r@.contains(c) <==> self.has_parentage(c, p),
    {
        let mut out: Vec<u64> = Vec::new();
        let mut i: usize = 0;
        while i < self.rlinks.len()
            invariant
                i <= self.rlinks@.len(),
                distinct_keys(self.rlinks@),
                forall|c: u64| #[trigger] out@.contains(c) ==> self.has_parentage(c, p),
                forall|j: int|
                    0 <= j < i && (#[trigger] self.rlinks@[j]).0.1 == p ==> out@.contains(
                        self.rlinks@[j].0.0,
                    ),
            decreases self.rlinks@.len() - i,
        {
            if self.rlinks[i].0.1 == p {
                let ghost out0 = out@;
                out.push(self.rlinks[i].0.0);
                proof {
                    lemma_assoc_get(self.rlinks@, i as int);
                    assert(out@ == out0.push(self.rlinks@[i as int].0.0));
                    assert forall|c: u64| #[trigger] out@.contains(c) implies out0.contains(c)
                        || c == self.rlinks@[i as int].0.0 by {
                        let k = choose|k: int| 0 <= k < out@.len() && out@[k] == c;
                        if k < out0.len() {
                            assert(out0[k] == c);
                        }
                    }
                    assert forall|c: u64| out0.contains(c) implies #[trigger] out@.contains(c) by {
                        let k = choose|k: int| 0 <= k < out0.len() && out0[k] == c;
                        assert(out@[k] == c);
                    }
                    assert(out@.contains(self.rlinks@[i as int].0.0)) by {
                        assert(out@[out@.len() - 1] == self.rlinks@[i as int].0.0);
                    }
                }
            }
            i += 1;
        }
        proof {
            assert forall|c: u64| #[trigger] self.has_parentage(c, p) implies out@.contains(c) by {
                lemma_assoc_contains(self.rlinks@, (c, p));
                let j = choose|j: int|
                    0 <= j < self.rlinks@.len() && (#[trigger] self.rlinks@[j]).0 == (c, p);
                assert(self.rlinks@[j].0.1 == p);
            }
        }
        out
    }
}

} // verus!

verus! {

impl StoreRw {
    pub(crate) fn sess_find(&self, id: u64, s: Session) -> (r: Option<usize>)
        ensures
            match r {
                Some(i) => i < self.sessions@.len() && self.sessions@[i as int].0 == (id, s),
                None => forall|j: int|
                    0 <= j < self.sessions@.len() ==> (#[trigger] self.sessions@[j]).0 != (id, s),
            },
    {
        let mut i: usize = 0;
        while i < self.sessions.len()
            invariant
                i <= self.sessions@.len(),
                forall|j: int| 0 <= j < i ==> (#[trigger] self.sessions@[j]).0 != (id, s),
            decreases self.sessions@.len() - i,
        {
            if self.sessions[i].0.0 == id && self.sessions[i].0.1.start == s.start
                && self.sessions[i].0.1.end == s.end {
                return Some(i);
            }
            i += 1;
        }
        None
    }

    pub(crate) fn sess_insert(&mut self, id: u64, s: Session)
        requires
            distinct_keys(old(self).sessions@),
        ensures
            distinct_keys(final(self).sessions@),
            final(self).sessions_map() == old(self).sessions_map().insert((id, s), ()),
            eq_except_session_pair(*final(self), *old(self)),
            final(self).rsessions@ == old(self).rsessions@,
    {
        match self.sess_find(id, s) {
            Some(i) => {
                proof {
                    lemma_assoc_get(self.sessions@, i as int);
                    assert(final(self).sessions_map() =~= old(self).sessions_map().insert(
                        (id, s),
                        (),
                    ));
                }
            }
            None => {
                let ghost s1 = self.sessions@;
                self.sessions.push(((id, s), ()));
                proof {
                    lemma_assoc_push(s1, (id, s), ());
                    lemma_distinct_push(s1, (id, s), ());
                }
            }
        }
    }

    pub(crate) fn sess_remove(&mut self, id: u64, s: Session) -> (r: bool)
        requires
            distinct_keys(old(self).sessions@),
        ensures
            distinct_keys(final(self).sessions@),
            final(self).sessions_map() == old(self).sessions_map().remove((id, s)),
            r == old(self).has_session(id, s),
            r ==> final(self).sessions@.len() < old(self).sessions@.len(),
            !r ==> final(self).sessions@ == old(self).sessions@,
            eq_except_session_pair(*final(self), *old(self)),
            final(self).rsessions@ == old(self).rsessions@,
    {
        proof {
            lemma_assoc_contains(self.sessions@, (id, s));
        }
        match self.sess_find(id, s) {
            Some(i) => {
                let ghost s0 = self.sessions@;
                self.sessions.remove(i);
                proof {
                    lemma_assoc_remove(s0, i as int);
                    lemma_distinct_remove(s0, i as int);
                    lemma_assoc_get(s0, i as int);
                }
                true
            }
            None => {
                proof {
                    assert(final(self).sessions_map() =~= old(self).sessions_map().remove(
                        (id, s),
                    ));
                }
                false
            }
        }
    }

    pub(crate) fn rsess_find(&self, s: Session, id: u64) -> (r: Option<usize>)
        ensures
            match r {
                Some(i) => i < self.rsessions@.len() && self.rsessions@[i as int].0 == (s, id),
                None => forall|j: int|
                    0 <= j < self.rsessions@.len() ==> (#[trigger] self.rsessions@[j]).0 != (
                    s,
                    id,
                    ),
            },
    {
        let mut i: usize = 0;
        while i < self.rsessions.len()
            invariant
                i <= self.rsessions@.len(),
                forall|j: int| 0 <= j < i ==> (#[trigger] self.rsessions@[j]).0 != (s, id),
            decreases self.rsessions@.len() - i,
        {
            if self.rsessions[i].0.1 == id && self.rsessions[i].0.0.start == s.start
                && self.rsessions[i].0.0.end == s.end {
                return Some(i);
            }
            i += 1;
        }
        None
    }

    pub(crate) fn rsess_insert(&mut self, s: Session, id: u64)
        requires
            distinct_keys(old(self).rsessions@),
        ensures
            distinct_keys(final(self).rsessions@),
            final(self).rsessions_map() == old(self).rsessions_map().insert((s, id), ()),
            eq_except_session_pair(*final(self), *old(self)),
            final(self).sessions@ == old(self).sessions@,
    {
        match self.rsess_find(s, id) {
            Some(i) => {
                proof {
                    lemma_assoc_get(self.rsessions@, i as int);
                    assert(final(self).rsessions_map() =~= old(self).rsessions_map().insert(
                        (s, id),
                        (),
                    ));
                }
            }
            None => {
                let ghost s1 = self.rsessions@;
                self.rsessions.push(((s, id), ()));
                proof {
                    lemma_assoc_push(s1, (s, id), ());
                    lemma_distinct_push(s1, (s, id), ());
                }
            }
        }
    }

    pub(crate) fn rsess_remove(&mut self, s: Session, id: u64) -> (r: bool)
        requires
            distinct_keys(old(self).rsessions@),
        ensures
            distinct_keys(final(self).rsessions@),
            final(self).rsessions_map() == old(self).rsessions_map().remove((s, id)),
            r == old(self).rsessions_map().contains_key((s, id)),
            eq_except_session_pair(*final(self), *old(self)),
            final(self).sessions@ == old(self).sessions@,
    {
        proof {
            lemma_assoc_contains(self.rsessions@, (s, id));
        }
        match self.rsess_find(s, id) {
            Some(i) => {
                let ghost s0 = self.rsessions@;
                self.rsessions.remove(i);
                proof {
                    lemma_assoc_remove(s0, i as int);
                    lemma_distinct_remove(s0, i as int);
                    lemma_assoc_get(s0, i as int);
                }
                true
            }
            None => {
                proof {
                    assert(final(self).rsessions_map() =~= old(self).rsessions_map().remove(
                        (s, id),
                    ));
                }
                false
            }
        }
    }
}

} // verus!

verus! {

/// Mirroring carries over to any state with the same session indices.
pub proof fn lemma_mirror_same(a: StoreRw, b: StoreRw)
    requires
        a.mirror_ok(),
        a.sessions@ == b.sessions@,
        a.rsessions@ == b.rsessions@,
    ensures
        b.mirror_ok(),
{
    assert forall|id: u64, s: Session|
        #![trigger b.sessions_map().contains_key((id, s))]
        #![trigger b.rsessions_map().contains_key((s, id))]
        b.sessions_map().contains_key((id, s)) <==> b.rsessions_map().contains_key(
            (s, id),
        ) by {
        assert(a.sessions_map().contains_key((id, s)) <==> a.rsessions_map().contains_key(
            (s, id),
        ));
        assert(b.sessions_map() == a.sessions_map());
        assert(b.rsessions_map() == a.rsessions_map());
    }
}

/// Mirroring survives inserting one pair on both sides.
pub proof fn lemma_mirror_insert(a: StoreRw, b: StoreRw, id: u64, s: Session)
    requires
        a.mirror_ok(),
        b.sessions_map() == a.sessions_map().insert((id, s), ()),
        b.rsessions_map() == a.rsessions_map().insert((s, id), ()),
    ensures
        b.mirror_ok(),
{
    assert forall|i2: u64, s2: Session|
        #![trigger b.sessions_map().contains_key((i2, s2))]
        #![trigger b.rsessions_map().contains_key((s2, i2))]
        b.sessions_map().contains_key((i2, s2)) <==> b.rsessions_map().contains_key(
            (s2, i2),
        ) by {
        assert(a.sessions_map().contains_key((i2, s2)) <==> a.rsessions_map().contains_key(
            (s2, i2),
        ));
    }
}

/// Mirroring survives removing one pair on both sides.
pub proof fn lemma_mirror_remove(a: StoreRw, b: StoreRw, id: u64, s: Session)
    requires
        a.mirror_ok(),
        b.sessions_map() == a.sessions_map().remove((id, s)),
        b.rsessions_map() == a.rsessions_map().remove((s, id)),
    ensures
        b.mirror_ok(),
{
    assert forall|i2: u64, s2: Session|
        #![trigger b.sessions_map().contains_key((i2, s2))]
        #![trigger b.rsessions_map().contains_key((s2, i2))]
        b.sessions_map().contains_key((i2, s2)) <==> b.rsessions_map().contains_key(
            (s2, i2),
        ) by {
        assert(a.sessions_map().contains_key((i2, s2)) <==> a.rsessions_map().contains_key(
            (s2, i2),
        ));
    }
}

} // verus!

verus! {

impl StoreRw {
    /// Remove the `links` entry for `pid` only when it points at `id`, as an
    /// exact (key, value) deletion does; reports whether it was removed.
    pub(crate) fn links_remove_exact(&mut self, pid: u64, id: u64) -> (r: bool)
        requires
            distinct_keys(old(self).links@),
        ensures
            distinct_keys(final(self).links@),
            r == (old(self).links_map().contains_key(pid) && old(self).links_map()[pid] == id),
            r ==> final(self).links_map() == old(self).links_map().remove(pid),
            !r ==> final(self).links@ == old(self).links@,
            eq_except_links(*final(self), *old(self)),
    {
        proof {
            lemma_assoc_contains(self.links@, pid);
        }
        match self.links_find(pid) {
            Some(i) => {
                proof {
                    lemma_assoc_get(self.links@, i as int);
                }
                if self.links[i].1 == id {
                    let ghost s0 = self.links@;
                    self.links.remove(i);
                    proof {
                        lemma_assoc_remove(s0, i as int);
                        lemma_distinct_remove(s0, i as int);
                    }
                    true
                } else {
                    false
                }
            }
            None => false,
        }
    }

    /// Some session attached to `id`, if any.
    pub(crate) fn sess_find_by_id(&self, id: u64) -> (r: Option<Session>)
        requires
            distinct_keys(self.sessions@),
        ensures
            match r {
                Some(s) => self.has_session(id, s),
                None => forall|s: Session| !(#[trigger] self.has_session(id, s)),
            },
    {
        let mut i: usize = 0;
        while i < self.sessions.len()
            invariant
                i <= self.sessions@.len(),
                distinct_keys(self.sessions@),
                forall|j: int| 0 <= j < i ==> (#[trigger] self.sessions@[j]).0.0 != id,
            decreases self.sessions@.len() - i,
        {
            if self.sessions[i].0.0 == id {
                proof {
                    lemma_assoc_get(self.sessions@, i as int);
                }
                return Some(self.sessions[i].0.1);
            }
            i += 1;
        }
        proof {
            assert forall|s: Session| !(#[trigger] self.has_session(id, s)) by {
                lemma_assoc_contains(self.sessions@, (id, s));
            }
        }
        None
    }
}

} // verus!

verus! {

/// In a well-formed store, the two session indices mirror each other: a
/// node carries a session exactly when the chronological index lists the
/// pair the other way round.
pub proof fn lemma_session_mirror(s: StoreRw, id: u64, sess: Session)
    requires
        s.inv(),
    ensures
        s.sessions_map().contains_key((id, sess)) <==> s.rsessions_map().contains_key((sess, id)),
{
}

} // verus!

verus! {

/// What opening a store file must do, given which of the seven root slots
/// (the id counter and the six indices) are present.
#[derive(Clone, Copy, PartialEq, Eq, Structural, Debug)]
pub enum SchemaAction {
    /// All seven present: use the schema as it stands.
    UseExisting,
    /// All seven absent: create the schema from scratch.
    CreateAll,
    /// A partial schema is never tolerated nor repaired.
    Corrupt,
}

impl StoreRw {
    /// The all-or-nothing bootstrap rule: verify a complete schema, create
    /// a wholly missing one, and reject anything in between.
    pub fn schema_action(
        counter: bool,
        links: bool,
        rlinks: bool,
        names: bool,
        due_dates: bool,
        sessions: bool,
        rsessions: bool,
    ) -> (r: SchemaAction)
        ensures
            r == SchemaAction::UseExisting <==> (counter && links && rlinks && names && due_dates
                && sessions && rsessions),
            r == SchemaAction::CreateAll <==> (!counter && !links && !rlinks && !names
                && !due_dates && !sessions && !rsessions),
            r == SchemaAction::Corrupt <==> !(r == SchemaAction::UseExisting || r
                == SchemaAction::CreateAll),
    {
        if counter && links && rlinks && names && due_dates && sessions && rsessions {
            SchemaAction::UseExisting
        } else if !counter && !links && !rlinks && !names && !due_dates && !sessions
            && !rsessions {
            SchemaAction::CreateAll
        } else {
            SchemaAction::Corrupt
        }
    }
}

} // verus!

verus! {

fn links_entries_distinct(v: &Vec<(u64, u64)>) -> (r: bool)
    ensures
        r == distinct_keys(v@),
{
    let mut i: usize = 0;
    while i < v.len()
        invariant
            i <= v@.len(),
            forall|a: int, b: int| 0 <= a < b < i ==> (#[trigger] v@[a]).0 != (#[trigger] v@[b]).0,
        decreases v@.len() - i,
    {
        let mut j: usize = 0;
        while j < i
            invariant
                j <= i < v@.len(),
                forall|b: int| 0 <= b < j ==> (#[trigger] v@[b]).0 != v@[i as int].0,
            decreases i - j,
        {
            if v[j].0 == v[i].0 {
                return false;
            }
            j += 1;
        }
        i += 1;
    }
    true
}

fn names_entries_distinct(v: &Vec<(u64, String)>) -> (r: bool)
    ensures
        r == distinct_keys(v@),
{
    let mut i: usize = 0;
    while i < v.len()
        invariant
            i <= v@.len(),
            forall|a: int, b: int| 0 <= a < b < i ==> (#[trigger] v@[a]).0 != (#[trigger] v@[b]).0,
        decreases v@.len() - i,
    {
        let mut j: usize = 0;
        while j < i
            invariant
                j <= i < v@.len(),
                forall|b: int| 0 <= b < j ==> (#[trigger] v@[b]).0 != v@[i as int].0,
            decreases i - j,
        {
            if v[j].0 == v[i].0 {
                return false;
            }
            j += 1;
        }
        i += 1;
    }
    true
}

fn dues_entries_distinct(v: &Vec<(u64, i64)>) -> (r: bool)
    ensures
        r == distinct_keys(v@),
{
    let mut i: usize = 0;
    while i < v.len()
        invariant
            i <= v@.len(),
            forall|a: int, b: int| 0 <= a < b < i ==> (#[trigger] v@[a]).0 != (#[trigger] v@[b]).0,
        decreases v@.len() - i,
    {
        let mut j: usize = 0;
        while j < i
            invariant
                j <= i < v@.len(),
                forall|b: int| 0 <= b < j ==> (#[trigger] v@[b]).0 != v@[i as int].0,
            decreases i - j,
        {
            if v[j].0 == v[i].0 {
                return false;
            }
            j += 1;
        }
        i += 1;
    }
    true
}

fn rlinks_entries_distinct(v: &Vec<((u64, u64), (u64, u64))>) -> (r: bool)
    ensures
        r == distinct_keys(v@),
{
    let mut i: usize = 0;
    while i < v.len()
        invariant
            i <= v@.len(),
            forall|a: int, b: int| 0 <= a < b < i ==> (#[trigger] v@[a]).0 != (#[trigger] v@[b]).0,
        decreases v@.len() - i,
    {
        let mut j: usize = 0;
        while j < i
            invariant
                j <= i < v@.len(),
                forall|b: int| 0 <= b < j ==> (#[trigger] v@[b]).0 != v@[i as int].0,
            decreases i - j,
        {
            if v[j].0.0 == v[i].0.0 && v[j].0.1 == v[i].0.1 {
                return false;
            }
            j += 1;
        }
        i += 1;
    }
    true
}

fn session_pairs_distinct(v: &Vec<(u64, Session)>) -> (r: bool)
    ensures
        r == (forall|a: int, b: int| 0 <= a < b < v@.len() ==> (#[trigger] v@[a]) != (#[trigger] v@[b])),
{
    let mut i: usize = 0;
    while i < v.len()
        invariant
            i <= v@.len(),
            forall|a: int, b: int| 0 <= a < b < i ==> (#[trigger] v@[a]) != (#[trigger] v@[b]),
        decreases v@.len() - i,
    {
        let mut j: usize = 0;
        while j < i
            invariant
                j <= i < v@.len(),
                forall|b: int| 0 <= b < j ==> (#[trigger] v@[b]) != v@[i as int],
            decreases i - j,
        {
            if v[j].0 == v[i].0 && v[j].1.start == v[i].1.start && v[j].1.end == v[i].1.end {
                return false;
            }
            j += 1;
        }
        i += 1;
    }
    true
}

impl StoreRw {
    /// Assemble a store state from raw index contents, accepting it only
    /// when every index has distinct keys; the chronological session
    /// mirror is rebuilt from the session list, so the result always
    /// satisfies the invariant. `None` reports duplicate keys: invalid or
    /// corrupted contents.
    pub fn from_parts(
        id: u64,
        links: Vec<(u64, u64)>,
        rlinks: Vec<((u64, u64), (u64, u64))>,
        names: Vec<(u64, String)>,
        due_dates: Vec<(u64, i64)>,
        session_pairs: Vec<(u64, Session)>,
    ) -> (r: Option<StoreRw>)
        ensures
            match r {
                Some(s) => {
                    &&& s.inv()
                    &&& s.id == id
                    &&& s.links@ == links@
                    &&& s.rlinks@ == rlinks@
                    &&& s.names@ == names@
                    &&& s.due_dates@ == due_dates@
                    &&& (forall|id2: u64, sess: Session|
                        #[trigger] s.has_session(id2, sess) <==> session_pairs@.contains(
                            (id2, sess),
                        ))
                },
                None => !(distinct_keys(links@) && distinct_keys(rlinks@) && distinct_keys(
                    names@,
                ) && distinct_keys(due_dates@) && (forall|a: int, b: int|
                    0 <= a < b < session_pairs@.len() ==> (#[trigger] session_pairs@[a]) != (
                    #[trigger] session_pairs@[b]))),
            },
    {
        if !links_entries_distinct(&links) || !rlinks_entries_distinct(&rlinks)
            || !names_entries_distinct(&names) || !dues_entries_distinct(&due_dates)
            || !session_pairs_distinct(&session_pairs) {
            return None;
        }
        let mut sessions: Vec<((u64, Session), ())> = Vec::new();
        let mut rsessions: Vec<((Session, u64), ())> = Vec::new();
        let mut k: usize = 0;
        while k < session_pairs.len()
            invariant
                k <= session_pairs@.len(),
                sessions@.len() == k,
                rsessions@.len() == k,
                forall|a: int|
                    0 <= a < k ==> (#[trigger] sessions@[a]) == (session_pairs@[a], ()),
                forall|a: int|
                    0 <= a < k ==> (#[trigger] rsessions@[a]) == (
                    (session_pairs@[a].1, session_pairs@[a].0),
                    (),
                    ),
            decreases session_pairs@.len() - k,
        {
            sessions.push((session_pairs[k], ()));
            rsessions.push(((session_pairs[k].1, session_pairs[k].0), ()));
            k += 1;
        }
        let s = StoreRw { id, links, rlinks, names, due_dates, sessions, rsessions };
        proof {
            assert forall|a: int, b: int|
                0 <= a < b < s.sessions@.len() implies (#[trigger] s.sessions@[a]).0 != (
            #[trigger] s.sessions@[b]).0 by {
                assert(session_pairs@[a] != session_pairs@[b]);
            }
            assert forall|a: int, b: int|
                0 <= a < b < s.rsessions@.len() implies (#[trigger] s.rsessions@[a]).0 != (
            #[trigger] s.rsessions@[b]).0 by {
                assert(session_pairs@[a] != session_pairs@[b]);
            }
            assert forall|id2: u64, sess: Session|
                #![trigger s.sessions_map().contains_key((id2, sess))]
                #![trigger s.rsessions_map().contains_key((sess, id2))]
                s.sessions_map().contains_key((id2, sess)) <==> s.rsessions_map().contains_key(
                    (sess, id2),
                ) by {
                lemma_assoc_contains(s.sessions@, (id2, sess));
                lemma_assoc_contains(s.rsessions@, (sess, id2));
                if exists|i: int|
                    0 <= i < s.sessions@.len() && (#[trigger] s.sessions@[i]).0 == (id2, sess) {
                    let i = choose|i: int|
                        0 <= i < s.sessions@.len() && (#[trigger] s.sessions@[i]).0 == (
                        id2,
                        sess,
                        );
                    assert(s.rsessions@[i].0 == (sess, id2));
                }
                if exists|i: int|
                    0 <= i < s.rsessions@.len() && (#[trigger] s.rsessions@[i]).0 == (
                    sess,
                    id2,
                    ) {
                    let i = choose|i: int|
                        0 <= i < s.rsessions@.len() && (#[trigger] s.rsessions@[i]).0 == (
                        sess,
                        id2,
                        );
                    assert(s.sessions@[i].0 == (id2, sess));
                }
            }
            assert forall|id2: u64, sess: Session|
                #[trigger] s.has_session(id2, sess) <==> session_pairs@.contains(
                    (id2, sess),
                ) by {
                lemma_assoc_contains(s.sessions@, (id2, sess));
                if exists|i: int|
                    0 <= i < s.sessions@.len() && (#[trigger] s.sessions@[i]).0 == (id2, sess) {
                    let i = choose|i: int|
                        0 <= i < s.sessions@.len() && (#[trigger] s.sessions@[i]).0 == (
                        id2,
                        sess,
                        );
                    assert(session_pairs@[i] == (id2, sess));
                }
                if session_pairs@.contains((id2, sess)) {
                    let i = choose|i: int|
                        0 <= i < session_pairs@.len() && session_pairs@[i] == (id2, sess);
                    assert(s.sessions@[i].0 == (id2, sess));
                }
            }
        }
        Some(s)
    }
}

} // verus!
