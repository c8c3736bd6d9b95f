//! The session registry: `session_id -> handle`, with a single check-and-insert
//! step so that attach-or-open is decided in one place.

use vstd::prelude::*;

verus! {

/// Outcome of `attach_or_create`: whether the caller must start the session.
#[derive(Debug, Clone, Copy, PartialEq, Eq, Structural)]
pub enum Bind {
    /// The session already existed; its handle is in the table.
    Existing,
    /// The session was newly inserted; the caller must start it.
    Created,
}

/// The session table. No id occurs twice.
#[derive(Debug)]
pub struct Registry<H> {
    sessions: Vec<(String, H)>,
}

/// The ids of entries, in order.
pub open spec fn ids<H>(entries: Seq<(String, H)>) -> Seq<Seq<char>> {
    entries.map_values(|e: (String, H)| e.0@)
}

/// The handle of each id.
pub open spec fn handle_map<H>(entries: Seq<(String, H)>) -> Map<Seq<char>, H>
    decreases entries.len(),
{
    if entries.len() == 0 {
        Map::empty()
    } else {
        handle_map(entries.drop_last()).insert(entries.last().0@, entries.last().1)
    }
}

/// The table after an attach-or-create.
pub open spec fn bound<H>(table: Map<Seq<char>, H>, id: Seq<char>, fresh: H) -> Map<Seq<char>, H> {
    if table.contains_key(id) {
        table
    } else {
        table.insert(id, fresh)
    }
}

/// The first to ask for an id creates the session, all others find it: what
/// they offer is never inserted.
pub proof fn law_first_attach_wins<H>(table: Map<Seq<char>, H>, id: Seq<char>, first: H, second: H)
    ensures
        bound(table, id, first).contains_key(id),
        bound(bound(table, id, first), id, second) == bound(table, id, first),
{
}

/// Creating and then removing a session leaves the table as it was.
pub proof fn law_remove_undoes_create<H>(table: Map<Seq<char>, H>, id: Seq<char>, fresh: H)
    requires
        !table.contains_key(id),
    ensures
        bound(table, id, fresh).remove(id) == table,
{
    assert(bound(table, id, fresh).remove(id) =~= table);
}

impl<H> View for Registry<H> {
    type V = Map<Seq<char>, H>;

    closed spec fn view(&self) -> Map<Seq<char>, H> {
        handle_map(self.sessions@)
    }
}

/// The ids in the map are those of the entries.
proof fn lemma_map_domain<H>(entries: Seq<(String, H)>)
    ensures
        forall|id: Seq<char>| #[trigger]
            handle_map(entries).contains_key(id) <==> ids(entries).contains(id),
    decreases entries.len(),
{
    if entries.len() > 0 {
        let front = entries.drop_last();
        lemma_map_domain(front);
        assert(ids(entries) =~= ids(front).push(entries.last().0@));
        assert forall|id: Seq<char>| #[trigger]
            handle_map(entries).contains_key(id) <==> ids(entries).contains(id) by {
            let f = ids(front);
            let e = ids(entries);
            let last = entries.last().0@;
            if f.contains(id) {
                let k = choose|k: int| 0 <= k < f.len() && f[k] == id;
                assert(e[k] == id);
            }
            if id == last {
                assert(e[front.len() as int] == id);
            }
            if e.contains(id) {
                let k = choose|k: int| 0 <= k < e.len() && e[k] == id;
                if k < f.len() {
                    assert(f[k] == id);
                }
            }
            assert(handle_map(front).contains_key(id) <==> f.contains(id));
        }
    }
}

/// Where no id occurs twice, an entry gives the handle of its id.
proof fn lemma_map_value<H>(entries: Seq<(String, H)>, i: int)
    requires
        ids(entries).no_duplicates(),
        0 <= i < entries.len(),
    ensures
        handle_map(entries).contains_key(entries[i].0@),
        handle_map(entries)[entries[i].0@] == entries[i].1,
    decreases entries.len(),
{
    let front = entries.drop_last();
    if i < front.len() {
        assert(ids(front) =~= ids(entries).drop_last());
        assert(ids(entries)[i] != ids(entries)[entries.len() - 1]);
        lemma_map_value(front, i);
    }
}

/// Taking an entry out takes its id out of the map.
proof fn lemma_map_remove<H>(entries: Seq<(String, H)>, i: int)
    requires
        ids(entries).no_duplicates(),
        0 <= i < entries.len(),
    ensures
        ids(entries.remove(i)).no_duplicates(),
        handle_map(entries.remove(i)) == handle_map(entries).remove(entries[i].0@),
    decreases entries.len(),
{
    let front = entries.drop_last();
    let rest = entries.remove(i);
    assert(ids(rest) =~= ids(entries).remove(i));
    assert forall|a: int, b: int| 0 <= a < b < ids(rest).len() implies ids(rest)[a]
        != ids(rest)[b] by {
        let a1 = if a < i {
            a
        } else {
            a + 1
        };
        let b1 = if b < i {
            b
        } else {
            b + 1
        };
        assert(ids(rest)[a] == ids(entries)[a1]);
        assert(ids(rest)[b] == ids(entries)[b1]);
    }
    assert(ids(front) =~= ids(entries).drop_last());
    if i == entries.len() - 1 {
        assert(rest =~= front);
        lemma_map_domain(front);
        assert(!ids(front).contains(entries[i].0@)) by {
            if ids(front).contains(entries[i].0@) {
                let k = ids(front).index_of(entries[i].0@);
                assert(ids(entries)[k] == ids(entries)[i]);
            }
        }
        assert(handle_map(rest) =~= handle_map(entries).remove(entries[i].0@));
    } else {
        lemma_map_remove(front, i);
        assert(rest.drop_last() =~= front.remove(i));
        assert(ids(entries)[i] != ids(entries)[entries.len() - 1]);
        assert(handle_map(rest) =~= handle_map(entries).remove(entries[i].0@));
    }
}

impl<H> Registry<H> {
    /// No id occurs twice.
    pub closed spec fn wf(&self) -> bool {
        ids(self.sessions@).no_duplicates()
    }

    pub fn new() -> (r: Self)
        ensures
            r.wf(),
            r@ == Map::<Seq<char>, H>::empty(),
    {
        Self { sessions: Vec::new() }
    }

    /// The position of an id.
    fn find(&self, id: &str) -> (r: Option<usize>)
        requires
            self.wf(),
        ensures
            match r {
                Some(i) => {
                    &&& i < self.sessions@.len()
                    &&& self.sessions@[i as int].0@ == id@
                    &&& self@.contains_key(id@)
                    &&& self@[id@] == self.sessions@[i as int].1
                },
                None => !self@.contains_key(id@),
            },
    {
        let key = id.to_owned();
        let mut i: usize = 0;
        while i < self.sessions.len()
            invariant
                i <= self.sessions@.len(),
                key@ == id@,
                self.wf(),
                forall|j: int| 0 <= j < i ==> (#[trigger] self.sessions@[j]).0@ != id@,
            decreases self.sessions@.len() - i,
        {
            if self.sessions[i].0 == key {
                proof {
                    lemma_map_value(self.sessions@, i as int);
                }
                return Some(i);
            }
            i = i + 1;
        }
        proof {
            lemma_map_domain(self.sessions@);
            if ids(self.sessions@).contains(id@) {
                let k = ids(self.sessions@).index_of(id@);
                assert(self.sessions@[k].0@ == id@);
            }
        }
        None
    }

    /// If `id` exists leave it, else insert `fresh` under it: the whole
    /// check-and-insert is one step. The session set has changed if and only
    /// if the outcome is `Created`.
    pub fn attach_or_create(&mut self, id: &str, fresh: H) -> (b: Bind)
        requires
            old(self).wf(),
        ensures
            final(self).wf(),
            b == if old(self)@.contains_key(id@) {
                Bind::Existing
            } else {
                Bind::Created
            },
            final(self)@ == bound(old(self)@, id@, fresh),
    {
        if self.find(id).is_some() {
            return Bind::Existing;
        }
        let ghost before = self.sessions@;
        self.sessions.push((id.to_owned(), fresh));
        proof {
            lemma_map_domain(before);
            assert(self.sessions@.drop_last() =~= before);
            assert(ids(self.sessions@) =~= ids(before).push(id@));
            assert forall|a: int, b: int| 0 <= a < b < ids(self.sessions@).len() implies ids(
                self.sessions@,
            )[a] != ids(self.sessions@)[b] by {
                if b == before.len() {
                    assert(ids(before).contains(ids(before)[a]));
                } else {
                    assert(ids(before)[a] != ids(before)[b]);
                }
            }
        }
        Bind::Created
    }

    /// Look up an existing session's handle (no creation).
    pub fn get(&self, id: &str) -> (r: Option<&H>)
        requires
            self.wf(),
        ensures
            match r {
                Some(h) => self@.contains_key(id@) && self@[id@] == *h,
                None => !self@.contains_key(id@),
            },
    {
        match self.find(id) {
            Some(i) => Some(&self.sessions[i].1),
            None => None,
        }
    }

    /// Remove a session (it is ending).
    pub fn remove(&mut self, id: &str)
        requires
            old(self).wf(),
        ensures
            final(self).wf(),
            final(self)@ == old(self)@.remove(id@),
    {
        match self.find(id) {
            Some(i) => {
                proof {
                    lemma_map_remove(self.sessions@, i as int);
                }
                self.sessions.remove(i);
            },
            None => {
                assert(self@ =~= old(self)@.remove(id@));
            },
        }
    }

    /// All sessions, each id with its handle.
    pub fn handles(&self) -> (r: Vec<(String, &H)>)
        requires
            self.wf(),
        ensures
            forall|i: int|
                0 <= i < r@.len() ==> self@.contains_key((#[trigger] r@[i]).0@) && self@[r@[i].0@]
                    == *r@[i].1,
            forall|id: Seq<char>| #[trigger]
                self@.contains_key(id) ==> exists|i: int|
                    0 <= i < r@.len() && (#[trigger] r@[i]).0@ == id,
            forall|i: int, j: int|
                0 <= i < j < r@.len() ==> (#[trigger] r@[i]).0@ != (#[trigger] r@[j]).0@,
    {
        let mut r: Vec<(String, &H)> = Vec::new();
        let mut i: usize = 0;
        while i < self.sessions.len()
            invariant
                i <= self.sessions@.len(),
                r@.len() == i,
                forall|j: int|
                    0 <= j < i ==> (#[trigger] r@[j]).0@ == self.sessions@[j].0@ && *r@[j].1
                        == self.sessions@[j].1,
            decreases self.sessions@.len() - i,
        {
            r.push((self.sessions[i].0.clone(), &self.sessions[i].1));
            i = i + 1;
        }
        proof {
            lemma_map_domain(self.sessions@);
            assert forall|i: int| 0 <= i < r@.len() implies self@.contains_key(
                (#[trigger] r@[i]).0@,
            ) && self@[r@[i].0@] == *r@[i].1 by {
                lemma_map_value(self.sessions@, i);
            }
            assert forall|id: Seq<char>| #[trigger] self@.contains_key(id) implies exists|i: int|
                0 <= i < r@.len() && (#[trigger] r@[i]).0@ == id by {
                let k = ids(self.sessions@).index_of(id);
                assert(r@[k].0@ == id);
            }
            assert forall|i: int, j: int| 0 <= i < j < r@.len() implies (#[trigger] r@[i]).0@ != (
            #[trigger] r@[j]).0@ by {
                assert(ids(self.sessions@)[i] != ids(self.sessions@)[j]);
            }
        }
        r
    }

    pub fn is_empty(&self) -> (r: bool)
        requires
            self.wf(),
        ensures
            r == (self@ == Map::<Seq<char>, H>::empty()),
    {
        let r = self.sessions.len() == 0;
        proof {
            if !r {
                lemma_map_value(self.sessions@, 0);
            }
        }
        r
    }
}

impl<H> Default for Registry<H> {
    fn default() -> (r: Self)
        ensures
            r.wf(),
            r@ == Map::<Seq<char>, H>::empty(),
    {
        Self::new()
    }
}

/// An attach-or-create touches one id only: the handle that is offered is
/// under it if and only if there was none, and all other sessions stay.
pub proof fn law_attach_touches_one_session<H>(
    table: Map<Seq<char>, H>,
    id: Seq<char>,
    fresh: H,
    other: Seq<char>,
)
    requires
        other != id,
    ensures
        bound(table, id, fresh).contains_key(id),
        !table.contains_key(id) ==> bound(table, id, fresh)[id] == fresh,
        table.contains_key(id) ==> bound(table, id, fresh)[id] == table[id],
        bound(table, id, fresh).contains_key(other) <==> table.contains_key(other),
        table.contains_key(other) ==> bound(table, id, fresh)[other] == table[other],
{
}

} // verus!
