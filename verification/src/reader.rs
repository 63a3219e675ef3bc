//! Snapshot queries over the store state: per-node lookups, session scans
//! and sibling-list traversal.

use vstd::prelude::*;

use crate::assoc::{lemma_assoc_contains, lemma_assoc_get};
use crate::store::StoreRw;
use crate::{sess_id_le, sess_le, Error, Session};

verus! {

/// The sibling list reached from `cur` under parent `pid` by following
/// `next` links, or `None` when a link has no parentage record or the
/// walk does not reach the tail within `fuel` steps.
pub open spec fn chain_from(
    rl: Map<(u64, u64), (u64, u64)>,
    pid: u64,
    cur: u64,
    fuel: nat,
) -> Option<Seq<u64>>
    decreases fuel,
{
    if cur == 0 {
        Some(Seq::empty())
    } else if fuel == 0 {
        None
    } else if !rl.contains_key((cur, pid)) {
        None
    } else {
        match chain_from(rl, pid, rl[(cur, pid)].0, (fuel - 1) as nat) {
            Some(rest) => Some(seq![cur] + rest),
            None => None,
        }
    }
}

impl StoreRw {
    /// The name of node `id`, if one is recorded.
    pub fn name(&self, id: u64) -> (r: Option<String>)
        requires
            self.inv(),
        ensures
            match r {
                Some(n) => self.names_map().contains_key(id) && n == self.names_map()[id],
                None => !self.names_map().contains_key(id),
            },
    {
        proof {
            lemma_assoc_contains(self.names@, id);
        }
        match self.names_find(id) {
            Some(i) => {
                proof {
                    lemma_assoc_get(self.names@, i as int);
                }
                Some(self.names[i].1.clone())
            }
            None => None,
        }
    }

    /// The due date of node `id`, if one is set.
    pub fn due_date(&self, id: u64) -> (r: Option<i64>)
        requires
            self.inv(),
        ensures
            match r {
                Some(d) => self.dues_map().contains_key(id) && d == self.dues_map()[id],
                None => !self.dues_map().contains_key(id),
            },
    {
        proof {
            lemma_assoc_contains(self.due_dates@, id);
        }
        match self.dues_find(id) {
            Some(i) => {
                proof {
                    lemma_assoc_get(self.due_dates@, i as int);
                }
                Some(self.due_dates[i].1)
            }
            None => None,
        }
    }

    /// The least session of node `id` in (start, end) order, if any.
    pub fn first_session(&self, id: u64) -> (r: Option<Session>)
        requires
            self.inv(),
        ensures
            match r {
                Some(s) => self.has_session(id, s) && forall|t: Session|
                    #[trigger] self.has_session(id, t) ==> sess_le(s, t),
                None => forall|t: Session| !(#[trigger] self.has_session(id, t)),
            },
    {
        let mut best: Option<Session> = None;
        let mut k: usize = 0;
        while k < self.sessions.len()
            invariant
                k <= self.sessions@.len(),
                self.inv(),
                match best {
                    Some(b) => self.has_session(id, b) && forall|j: int|
                        0 <= j < k && (#[trigger] self.sessions@[j]).0.0 == id ==> sess_le(
                            b,
                            self.sessions@[j].0.1,
                        ),
                    None => forall|j: int|
                        0 <= j < k ==> (#[trigger] self.sessions@[j]).0.0 != id,
                },
            decreases self.sessions@.len() - k,
        {
            let e = self.sessions[k];
            if e.0.0 == id {
                proof {
                    lemma_assoc_get(self.sessions@, k as int);
                }
                best = match best {
                    Some(b) => {
                        if e.0.1.start < b.start || (e.0.1.start == b.start && e.0.1.end < b.end) {
                            Some(e.0.1)
                        } else {
                            Some(b)
                        }
                    }
                    None => Some(e.0.1),
                };
            }
            k += 1;
        }
        proof {
            match best {
                Some(b) => {
                    assert forall|t: Session| #[trigger] self.has_session(id, t) implies sess_le(
                        b,
                        t,
                    ) by {
                        lemma_assoc_contains(self.sessions@, (id, t));
                        let j = choose|j: int|
                            0 <= j < self.sessions@.len() && (#[trigger] self.sessions@[j]).0 == (
                            id,
                            t,
                            );
                        assert(self.sessions@[j].0.0 == id);
                    }
                }
                None => {
                    assert forall|t: Session| !(#[trigger] self.has_session(id, t)) by {
                        lemma_assoc_contains(self.sessions@, (id, t));
                    }
                }
            }
        }
        best
    }

    /// All sessions of node `id`, in (start, end) order.
    pub fn sessions(&self, id: u64) -> (r: Vec<Session>)
        requires
            self.inv(),
        ensures
            forall|s: Session|
                #![trigger r@.contains(s)]
                #![trigger self.has_session(id, s)]
                r@.contains(s) <==> self.has_session(id, s),
            forall|i: int, j: int|
                0 <= i < j < r@.len() ==> sess_le(#[trigger] r@[i], #[trigger] r@[j]) && r@[i]
                    != r@[j],
    {
        let mut out: Vec<Session> = Vec::new();
        let mut k: usize = 0;
        while k < self.sessions.len()
            invariant
                k <= self.sessions@.len(),
                self.inv(),
                forall|s: Session| #[trigger] out@.contains(s) <==> exists|j: int|
                    0 <= j < k && (#[trigger] self.sessions@[j]).0 == (id, s),
                forall|i: int, j: int|
                    0 <= i < j < out@.len() ==> sess_le(#[trigger] out@[i], #[trigger] out@[j])
                        && out@[i] != out@[j],
            decreases self.sessions@.len() - k,
        {
            let e = self.sessions[k];
            if e.0.0 == id {
                let s = e.0.1;
                let ghost out0 = out@;
                proof {
                    if out@.contains(s) {
                        let j = choose|j: int|
                            0 <= j < k && (#[trigger] self.sessions@[j]).0 == (id, s);
                        assert(self.sessions@[j].0 == self.sessions@[k as int].0);
                        assert(false);
                    }
                }
                let mut pos: usize = 0;
                while pos < out.len() && (out[pos].start < s.start || (out[pos].start == s.start
                    && out[pos].end <= s.end))
                    invariant
                        pos <= out@.len(),
                        out@ == out0,
                        forall|i: int| 0 <= i < pos ==> sess_le(#[trigger] out@[i], s),
                    decreases out@.len() - pos,
                {
                    pos += 1;
                }
                out.insert(pos, s);
                proof {
                    assert(out@ == out0.insert(pos as int, s));
                    assert forall|x: Session| #[trigger] out@.contains(x) implies (out0.contains(x)
                        || x == s) by {
                        let j = choose|j: int| 0 <= j < out@.len() && out@[j] == x;
                        if j < pos {
                            assert(out0[j] == x);
                        } else if j > pos {
                            assert(out0[j - 1] == x);
                        }
                    }
                    assert forall|x: Session| out0.contains(x) implies #[trigger] out@.contains(
                        x,
                    ) by {
                        let j = choose|j: int| 0 <= j < out0.len() && out0[j] == x;
                        if j < pos {
                            assert(out@[j] == x);
                        } else {
                            assert(out@[j + 1] == x);
                        }
                    }
                    assert(out@.contains(s)) by {
                        assert(out@[pos as int] == s);
                    }
                    assert forall|i: int, j: int| 0 <= i < j < out@.len() implies sess_le(
                        #[trigger] out@[i],
                        #[trigger] out@[j],
                    ) && out@[i] != out@[j] by {
                        let i0: int = if i < pos { i } else { i - 1 };
                        let j0: int = if j < pos { j } else { j - 1 };
                        if i == pos {
                            assert(out@[j] == out0[j0]);
                            if pos < out0.len() {
                                assert(!sess_le(out0[pos as int], s));
                            }
                        } else if j == pos {
                            assert(out@[i] == out0[i0]);
                        } else {
                            assert(out@[i] == out0[i0]);
                            assert(out@[j] == out0[j0]);
                            if i0 == j0 {
                                assert(i < pos && j > pos);
                                assert(sess_le(out0[i0], s));
                            }
                        }
                    }
                }
            }
            k += 1;
        }
        proof {
            assert forall|s: Session| #[trigger] out@.contains(s) <==> self.has_session(
                id,
                s,
            ) by {
                lemma_assoc_contains(self.sessions@, (id, s));
            }
        }
        out
    }

    /// The sibling list of `pid`, head first, following the `next` links.
    /// Fails as corrupted exactly when the chain from the head is broken
    /// (a link without a parentage record) or outruns the number of
    /// parentage records, which a well-formed list never does.
    pub fn child_ids(&self, pid: u64) -> (r: Result<Vec<u64>, Error>)
        requires
            self.inv(),
        ensures
            ({
                let head = if self.links_map().contains_key(pid) {
                    self.links_map()[pid]
                } else {
                    0
                };
                match chain_from(self.rlinks_map(), pid, head, self.rlinks@.len() as nat) {
                    Some(ids) => match r {
                        Ok(v) => v@ == ids,
                        Err(_) => false,
                    },
                    None => r is Err,
                }
            }),
    {
        let ghost rl = self.rlinks_map();
        let ghost total_fuel = self.rlinks@.len() as nat;
        let mut out: Vec<u64> = Vec::new();
        let head = match self.get_child(pid) {
            Some(c) => c,
            None => 0,
        };
        let mut cur: u64 = head;
        let mut fuel: usize = self.rlinks.len();
        proof {
            if chain_from(rl, pid, head, total_fuel) is Some {
                let t = chain_from(rl, pid, head, total_fuel)->Some_0;
                assert(Seq::<u64>::empty() + t =~= t);
            }
        }
        while cur != 0
            invariant
                self.inv(),
                rl == self.rlinks_map(),
                total_fuel == self.rlinks@.len() as nat,
                fuel <= self.rlinks@.len(),
                head == (if self.links_map().contains_key(pid) {
                    self.links_map()[pid]
                } else {
                    0
                }),
                chain_from(rl, pid, head, total_fuel) == (match chain_from(
                    rl,
                    pid,
                    cur,
                    fuel as nat,
                ) {
                    Some(t) => Some(out@ + t),
                    None => None::<Seq<u64>>,
                }),
            decreases fuel,
        {
            if fuel == 0 {
                proof {
                    assert(chain_from(rl, pid, cur, 0) is None);
                }
                return Err(Error::Corrupted);
            }
            let rt = match self.get_rt(cur, pid) {
                Some(x) => x,
                None => {
                    proof {
                        assert(chain_from(rl, pid, cur, fuel as nat) is None);
                    }
                    return Err(Error::Corrupted);
                }
            };
            let ghost out0 = out@;
            out.push(cur);
            proof {
                assert(chain_from(rl, pid, cur, fuel as nat) == (match chain_from(
                    rl,
                    pid,
                    rt.0,
                    (fuel - 1) as nat,
                ) {
                    Some(t) => Some(seq![cur] + t),
                    None => None::<Seq<u64>>,
                }));
                if chain_from(rl, pid, rt.0, (fuel - 1) as nat) is Some {
                    let t = chain_from(rl, pid, rt.0, (fuel - 1) as nat)->Some_0;
                    assert(out0 + (seq![cur] + t) =~= out@ + t);
                }
            }
            cur = rt.0;
            fuel -= 1;
        }
        proof {
            assert(chain_from(rl, pid, cur, fuel as nat) == Some(Seq::<u64>::empty()));
            assert(out@ + Seq::<u64>::empty() =~= out@);
        }
        Ok(out)
    }

    /// Every (id, name) pair of the name index, in ascending id order.
    pub fn all_names(&self) -> (r: Vec<(u64, String)>)
        requires
            self.inv(),
        ensures
            forall|x: (u64, String)|
                #![trigger r@.contains(x)]
                #![trigger self.names@.contains(x)]
                r@.contains(x) <==> self.names@.contains(x),
            forall|i: int, j: int| 0 <= i < j < r@.len() ==> (#[trigger] r@[i]).0 < (
            #[trigger] r@[j]).0,
    {
        let mut out: Vec<(u64, String)> = Vec::new();
        let mut k: usize = 0;
        while k < self.names.len()
            invariant
                k <= self.names@.len(),
                self.inv(),
                forall|x: (u64, String)| #[trigger] out@.contains(x) <==> exists|j: int|
                    0 <= j < k && (#[trigger] self.names@[j]) == x,
                forall|i: int, j: int| 0 <= i < j < out@.len() ==> (#[trigger] out@[i]).0 < (
                #[trigger] out@[j]).0,
            decreases self.names@.len() - k,
        {
            let id = self.names[k].0;
            let nm = self.names[k].1.clone();
            let ghost out0 = out@;
            proof {
                assert forall|i: int| 0 <= i < out@.len() implies (#[trigger] out@[i]).0 != id by {
                    assert(out@.contains(out@[i]));
                    let j = choose|j: int| 0 <= j < k && (#[trigger] self.names@[j]) == out@[i];
                    assert(self.names@[j].0 != self.names@[k as int].0);
                }
            }
            insert_name_sorted(&mut out, id, nm);
            proof {
                assert forall|x: (u64, String)| #[trigger] out@.contains(x) implies exists|j: int|
                    0 <= j < k + 1 && (#[trigger] self.names@[j]) == x by {
                    if out0.contains(x) {
                        let j = choose|j: int| 0 <= j < k && (#[trigger] self.names@[j]) == x;
                    } else {
                        assert(self.names@[k as int] == x);
                    }
                }
                assert forall|x: (u64, String)|
                    (exists|j: int| 0 <= j < k + 1 && (#[trigger] self.names@[j]) == x) implies
                #[trigger] out@.contains(x) by {
                    let j = choose|j: int| 0 <= j < k + 1 && (#[trigger] self.names@[j]) == x;
                }
            }
            k += 1;
        }
        proof {
            assert forall|x: (u64, String)| #[trigger] self.names@.contains(x) implies
            out@.contains(x) by {
                let j = choose|j: int| 0 <= j < self.names@.len() && self.names@[j] == x;
            }
        }
        out
    }

    /// Every (session, id) pair of the global chronological index, in
    /// ascending (session, id) order.
    pub fn all_sessions(&self) -> (r: Vec<(Session, u64)>)
        requires
            self.inv(),
        ensures
            forall|x: (Session, u64)|
                #![trigger r@.contains(x)]
                #![trigger self.rsessions_map().contains_key(x)]
                r@.contains(x) <==> self.rsessions_map().contains_key(x),
            forall|i: int, j: int|
                0 <= i < j < r@.len() ==> sess_id_le(#[trigger] r@[i], #[trigger] r@[j]) && r@[i]
                    != r@[j],
    {
        let mut out: Vec<(Session, u64)> = Vec::new();
        let mut k: usize = 0;
        while k < self.rsessions.len()
            invariant
                k <= self.rsessions@.len(),
                self.inv(),
                forall|x: (Session, u64)| #[trigger] out@.contains(x) <==> exists|j: int|
                    0 <= j < k && (#[trigger] self.rsessions@[j]).0 == x,
                forall|i: int, j: int|
                    0 <= i < j < out@.len() ==> sess_id_le(#[trigger] out@[i], #[trigger] out@[j])
                        && out@[i] != out@[j],
            decreases self.rsessions@.len() - k,
        {
            let x = self.rsessions[k].0;
            let ghost out0 = out@;
            proof {
                if out@.contains(x) {
                    let j = choose|j: int|
                        0 <= j < k && (#[trigger] self.rsessions@[j]).0 == x;
                    assert(self.rsessions@[j].0 == self.rsessions@[k as int].0);
                    assert(false);
                }
            }
            insert_rsession_sorted(&mut out, x);
            proof {
                assert forall|y: (Session, u64)| #[trigger] out@.contains(y) implies exists|
                    j: int,
                |
                    0 <= j < k + 1 && (#[trigger] self.rsessions@[j]).0 == y by {
                    if out0.contains(y) {
                        let j = choose|j: int|
                            0 <= j < k && (#[trigger] self.rsessions@[j]).0 == y;
                    } else {
                        assert(self.rsessions@[k as int].0 == y);
                    }
                }
                assert forall|y: (Session, u64)|
                    (exists|j: int| 0 <= j < k + 1 && (#[trigger] self.rsessions@[j]).0 == y)
                    implies #[trigger] out@.contains(y) by {
                    let j = choose|j: int|
                        0 <= j < k + 1 && (#[trigger] self.rsessions@[j]).0 == y;
                }
            }
            k += 1;
        }
        proof {
            assert forall|x: (Session, u64)| #[trigger] out@.contains(x)
                <==> self.rsessions_map().contains_key(x) by {
                lemma_assoc_contains(self.rsessions@, x);
            }
        }
        out
    }
}

} // verus!

verus! {

/// Insert an entry with a fresh id into an id-sorted vector, keeping it
/// sorted.
fn insert_name_sorted(v: &mut Vec<(u64, String)>, id: u64, nm: String)
    requires
        forall|i: int, j: int|
            0 <= i < j < old(v)@.len() ==> (#[trigger] old(v)@[i]).0 < (#[trigger] old(v)@[j]).0,
        forall|i: int| 0 <= i < old(v)@.len() ==> (#[trigger] old(v)@[i]).0 != id,
    ensures
        forall|i: int, j: int|
            0 <= i < j < final(v)@.len() ==> (#[trigger] final(v)@[i]).0 < (
            #[trigger] final(v)@[j]).0,
        forall|x: (u64, String)|
            #[trigger] final(v)@.contains(x) <==> (old(v)@.contains(x) || x == (id, nm)),
{
    let ghost v0 = v@;
    let ghost entry = (id, nm);
    let mut pos: usize = 0;
    while pos < v.len() && v[pos].0 < id
        invariant
            pos <= v@.len(),
            v@ == v0,
            forall|i: int| 0 <= i < pos ==> (#[trigger] v@[i]).0 < id,
        decreases v@.len() - pos,
    {
        pos += 1;
    }
    proof {
        assert(pos < v0.len() ==> !(v0[pos as int].0 < id) && v0[pos as int].0 != id);
    }
    v.insert(pos, (id, nm));
    proof {
        assert(v@ == v0.insert(pos as int, entry));
        assert(v@[pos as int] == entry);
        assert forall|x: (u64, String)| #[trigger] v@.contains(x) implies (v0.contains(x) || x
            == entry) by {
            let j = choose|j: int| 0 <= j < v@.len() && v@[j] == x;
            if j < pos {
                assert(v0[j] == x);
            } else if j > pos {
                assert(v0[j - 1] == x);
            }
        }
        assert forall|x: (u64, String)| v0.contains(x) implies #[trigger] v@.contains(x) by {
            let j = choose|j: int| 0 <= j < v0.len() && v0[j] == x;
            if j < pos {
                assert(v@[j] == x);
            } else {
                assert(v@[j + 1] == x);
            }
        }
        assert(v@.contains(entry)) by {
            assert(v@[pos as int] == entry);
        }
        assert forall|i: int, j: int| 0 <= i < j < v@.len() implies (#[trigger] v@[i]).0 < (
        #[trigger] v@[j]).0 by {
            let i0: int = if i < pos { i } else { i - 1 };
            let j0: int = if j < pos { j } else { j - 1 };
            if i == pos {
                assert(v@[j] == v0[j0]);
            } else if j == pos {
                assert(v@[i] == v0[i0]);
            } else {
                assert(v@[i] == v0[i0]);
                assert(v@[j] == v0[j0]);
                if i0 == j0 {
                    assert(i < pos && j > pos);
                    assert(v0[i0].0 < id);
                }
            }
        }
    }
}

/// Insert a fresh (session, id) pair into a sorted vector, keeping it
/// sorted by (session, id).
fn insert_rsession_sorted(v: &mut Vec<(Session, u64)>, x: (Session, u64))
    requires
        forall|i: int, j: int|
            0 <= i < j < old(v)@.len() ==> sess_id_le(#[trigger] old(v)@[i], #[trigger] old(v)@[j])
                && old(v)@[i] != old(v)@[j],
        forall|i: int| 0 <= i < old(v)@.len() ==> (#[trigger] old(v)@[i]) != x,
    ensures
        forall|i: int, j: int|
            0 <= i < j < final(v)@.len() ==> sess_id_le(
                #[trigger] final(v)@[i],
                #[trigger] final(v)@[j],
            ) && final(v)@[i] != final(v)@[j],
        forall|y: (Session, u64)|
            #[trigger] final(v)@.contains(y) <==> (old(v)@.contains(y) || y == x),
{
    let ghost v0 = v@;
    let mut pos: usize = 0;
    while pos < v.len() && (v[pos].0.start < x.0.start || (v[pos].0.start == x.0.start
        && (v[pos].0.end < x.0.end || (v[pos].0.end == x.0.end && v[pos].1 <= x.1))))
        invariant
            pos <= v@.len(),
            v@ == v0,
            forall|i: int| 0 <= i < pos ==> sess_id_le(#[trigger] v@[i], x),
        decreases v@.len() - pos,
    {
        pos += 1;
    }
    proof {
        assert(pos < v0.len() ==> !sess_id_le(v0[pos as int], x));
    }
    v.insert(pos, x);
    proof {
        assert(v@ == v0.insert(pos as int, x));
        assert(v@[pos as int] == x);
        assert forall|y: (Session, u64)| #[trigger] v@.contains(y) implies (v0.contains(y) || y
            == x) by {
            let j = choose|j: int| 0 <= j < v@.len() && v@[j] == y;
            if j < pos {
                assert(v0[j] == y);
            } else if j > pos {
                assert(v0[j - 1] == y);
            }
        }
        assert forall|y: (Session, u64)| v0.contains(y) implies #[trigger] v@.contains(y) by {
            let j = choose|j: int| 0 <= j < v0.len() && v0[j] == y;
            if j < pos {
                assert(v@[j] == y);
            } else {
                assert(v@[j + 1] == y);
            }
        }
        assert(v@.contains(x)) by {
            assert(v@[pos as int] == x);
        }
        assert forall|i: int, j: int| 0 <= i < j < v@.len() implies sess_id_le(
            #[trigger] v@[i],
            #[trigger] v@[j],
        ) && v@[i] != v@[j] by {
            let i0: int = if i < pos { i } else { i - 1 };
            let j0: int = if j < pos { j } else { j - 1 };
            if i == pos {
                assert(v@[j] == v0[j0]);
                assert(!sess_id_le(v0[j0], x));
            } else if j == pos {
                assert(v@[i] == v0[i0]);
            } else {
                assert(v@[i] == v0[i0]);
                assert(v@[j] == v0[j0]);
                if i0 == j0 {
                    assert(i < pos && j > pos);
                    assert(sess_id_le(v0[i0], x));
                    assert(!sess_id_le(v0[j0], x));
                }
            }
        }
    }
}

} // verus!
