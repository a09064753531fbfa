//! The connection registry: which handles are live, and on which connection
//! each one can be reached.
//!
//! Its view is a map from handle contents to connection identifiers. The
//! registry enforces handle uniqueness: `register` refuses a handle that is
//! already present, and `unregister` frees it again.

use vstd::prelude::*;

verus! {

/// One live registration: a handle and the connection that owns it.
pub struct RegEntry {
    pub handle: String,
    pub conn: u64,
}

/// Registering fails only when the handle is already taken.
#[derive(Debug, Clone, PartialEq, Eq)]
pub enum RegisterError {
    HandleTaken,
}

/// The map a sequence of registry entries stands for, later entries winning.
pub open spec fn entries_map(s: Seq<RegEntry>) -> Map<Seq<char>, u64>
    decreases s.len(),
{
    if s.len() == 0 {
        Map::empty()
    } else {
        entries_map(s.drop_last()).insert(s.last().handle@, s.last().conn)
    }
}

/// No two entries claim the same handle.
pub open spec fn entries_distinct(s: Seq<RegEntry>) -> bool {
    forall|i: int, j: int|
        0 <= i < j < s.len() ==> s[i].handle@ != s[j].handle@
}

/// The handle views of the entries, in registry order.
pub open spec fn entries_handles(s: Seq<RegEntry>) -> Seq<Seq<char>> {
    Seq::new(s.len(), |i: int| s[i].handle@)
}

/// A handle is in the map exactly when some entry carries it.
pub proof fn lemma_entries_map_domain(s: Seq<RegEntry>, h: Seq<char>)
    ensures
        entries_map(s).contains_key(h) <==> exists|i: int|
            0 <= i < s.len() && s[i].handle@ == h,
    decreases s.len(),
{
    if s.len() > 0 {
        lemma_entries_map_domain(s.drop_last(), h);
        if entries_map(s).contains_key(h) && s.last().handle@ != h {
            let i = choose|i: int| 0 <= i < s.drop_last().len() && s.drop_last()[i].handle@ == h;
            assert(s[i].handle@ == h);
        }
        if exists|i: int| 0 <= i < s.len() && s[i].handle@ == h {
            let i = choose|i: int| 0 <= i < s.len() && s[i].handle@ == h;
            if i < s.len() - 1 {
                assert(s.drop_last()[i].handle@ == h);
            }
        }
    }
}

/// With distinct handles, the map sends each entry's handle to its connection.
pub proof fn lemma_entries_map_index(s: Seq<RegEntry>, i: int)
    requires
        entries_distinct(s),
        0 <= i < s.len(),
    ensures
        entries_map(s).contains_key(s[i].handle@),
        entries_map(s)[s[i].handle@] == s[i].conn,
    decreases s.len(),
{
    if i < s.len() - 1 {
        assert(entries_distinct(s.drop_last()));
        assert(s.drop_last()[i] == s[i]);
        lemma_entries_map_index(s.drop_last(), i);
        assert(s.last().handle@ != s[i].handle@);
    }
}

/// Removing an entry removes exactly its handle from the map.
pub proof fn lemma_entries_map_remove(s: Seq<RegEntry>, i: int)
    requires
        entries_distinct(s),
        0 <= i < s.len(),
    ensures
        entries_map(s.remove(i)) == entries_map(s).remove(s[i].handle@),
    decreases s.len(),
{
    let h = s[i].handle@;
    if i == s.len() - 1 {
        assert(s.remove(i) =~= s.drop_last());
        lemma_entries_map_domain(s.drop_last(), h);
        assert(forall|j: int| 0 <= j < s.drop_last().len() ==> s.drop_last()[j].handle@ != h);
        assert(!entries_map(s.drop_last()).contains_key(h));
        assert(entries_map(s.drop_last()).insert(h, s[i].conn).remove(h) =~= entries_map(
            s.drop_last(),
        ));
    } else {
        assert(entries_distinct(s.drop_last()));
        assert(s.drop_last()[i] == s[i]);
        lemma_entries_map_remove(s.drop_last(), i);
        assert(s.remove(i).drop_last() =~= s.drop_last().remove(i));
        assert(s.remove(i).last() == s.last());
        let last = s.last();
        assert(last.handle@ != h);
        assert(entries_map(s.drop_last()).remove(h).insert(last.handle@, last.conn)
            =~= entries_map(s.drop_last()).insert(last.handle@, last.conn).remove(h));
    }
}

/// Uniqueness of handles: once a registration of `h` has succeeded, the
/// registry contains `h`, so a second `register` of `h` — which succeeds
/// exactly when `h` is absent — fails while the first is still live.
pub proof fn lemma_handle_uniqueness(pre: Map<Seq<char>, u64>, h: Seq<char>, conn: u64)
    ensures
        pre.insert(h, conn).contains_key(h),
{
}

/// Disconnecting frees the handle: after the registration of `h` is removed
/// again, `h` is absent, so a new `register` of `h` succeeds.
pub proof fn lemma_disconnect_frees_handle(pre: Map<Seq<char>, u64>, h: Seq<char>, conn: u64)
    ensures
        !pre.insert(h, conn).remove(h).contains_key(h),
{
}

/// The connection registry.
pub struct Registry {
    entries: Vec<RegEntry>,
}

impl View for Registry {
    type V = Map<Seq<char>, u64>;

    closed spec fn view(&self) -> Map<Seq<char>, u64> {
        entries_map(self.entries@)
    }
}

impl Registry {
    /// The registry keeps one entry per handle.
    pub closed spec fn wf(&self) -> bool {
        entries_distinct(self.entries@)
    }

    /// The handle contents the registry holds, in registration order.
    pub closed spec fn handles(&self) -> Seq<Seq<char>> {
        entries_handles(self.entries@)
    }

    /// A fresh registry holds no handle.
    pub fn new() -> (r: Registry)
        ensures
            r.wf(),
            r@ == Map::<Seq<char>, u64>::empty(),
    {
        Registry { entries: Vec::new() }
    }

    /// The index of the entry for `handle`, if one exists.
    fn find(&self, handle: &String) -> (r: Option<usize>)
        ensures
            r matches Some(i) ==> i < self.entries@.len() && self.entries@[i as int].handle@
                == handle@,
            r is None ==> forall|i: int|
                0 <= i < self.entries@.len() ==> self.entries@[i].handle@ != handle@,
    {
        let n = self.entries.len();
        for i in 0..n
            invariant
                n == self.entries@.len(),
                forall|j: int| 0 <= j < i ==> self.entries@[j].handle@ != handle@,
        {
            if self.entries[i].handle == *handle {
                return Some(i);
            }
        }
        None
    }

    /// Atomically checks absence and inserts: fails with `HandleTaken` and
    /// changes nothing when the handle is already registered, otherwise binds
    /// the handle to `conn`.
    pub fn register(&mut self, handle: String, conn: u64) -> (r: Result<(), RegisterError>)
        requires
            old(self).wf(),
        ensures
            final(self).wf(),
            r is Ok <==> !old(self)@.contains_key(handle@),
            r is Ok ==> final(self)@ == old(self)@.insert(handle@, conn),
            r is Err ==> *final(self) == *old(self) && r == Result::<(), RegisterError>::Err(
                RegisterError::HandleTaken,
            ),
    {
        proof {
            lemma_entries_map_domain(self.entries@, handle@);
        }
        match self.find(&handle) {
            Some(_) => Err(RegisterError::HandleTaken),
            None => {
                let ghost before = self.entries@;
                self.entries.push(RegEntry { handle, conn });
                proof {
                    assert(self.entries@.drop_last() =~= before);
                }
                Ok(())
            },
        }
    }

    /// Removes the entry for `handle` if one exists; a no-op otherwise.
    pub fn unregister(&mut self, handle: &String)
        requires
            old(self).wf(),
        ensures
            final(self).wf(),
            final(self)@ == old(self)@.remove(handle@),
    {
        proof {
            lemma_entries_map_domain(self.entries@, handle@);
        }
        match self.find(handle) {
            Some(i) => {
                proof {
                    lemma_entries_map_remove(self.entries@, i as int);
                }
                let ghost before = self.entries@;
                self.entries.remove(i);
                proof {
                    assert(forall|a: int, b: int|
                        0 <= a < b < self.entries@.len() ==> #[trigger] self.entries@[a].handle@
                            != #[trigger] self.entries@[b].handle@) by {
                        assert(forall|a: int|
                            0 <= a < self.entries@.len() ==> self.entries@[a] == if a < i {
                                before[a]
                            } else {
                                before[a + 1]
                            });
                    }
                }
            },
            None => {
                proof {
                    assert(!self@.contains_key(handle@));
                    assert(self@.remove(handle@) =~= self@);
                }
            },
        }
    }

    /// The connection bound to `handle`, if the handle is live.
    pub fn lookup(&self, handle: &String) -> (r: Option<u64>)
        requires
            self.wf(),
        ensures
            r is Some <==> self@.contains_key(handle@),
            r matches Some(c) ==> c == self@[handle@],
    {
        proof {
            lemma_entries_map_domain(self.entries@, handle@);
        }
        match self.find(handle) {
            Some(i) => {
                proof {
                    lemma_entries_map_index(self.entries@, i as int);
                }
                Some(self.entries[i].conn)
            },
            None => None,
        }
    }

    /// A snapshot of the registered handles, in registration order; later
    /// changes to the registry do not touch a returned snapshot.
    pub fn list_handles(&self) -> (r: Vec<String>)
        requires
            self.wf(),
        ensures
            r.deep_view() == self.handles(),
            forall|h: Seq<char>| self@.contains_key(h) <==> self.handles().contains(h),
    {
        let mut out: Vec<String> = Vec::new();
        let n = self.entries.len();
        for i in 0..n
            invariant
                n == self.entries@.len(),
                out@.len() == i,
                forall|j: int| 0 <= j < i ==> out@[j]@ == self.entries@[j].handle@,
        {
            out.push(self.entries[i].handle.clone());
        }
        proof {
            assert(out.deep_view() =~= entries_handles(self.entries@));
            assert forall|h: Seq<char>| self@.contains_key(h) implies entries_handles(
                self.entries@,
            ).contains(h) by {
                lemma_entries_map_domain(self.entries@, h);
                let i = choose|i: int| 0 <= i < self.entries@.len() && self.entries@[i].handle@
                    == h;
                assert(entries_handles(self.entries@)[i] == h);
            }
            assert forall|h: Seq<char>|
                entries_handles(self.entries@).contains(h) implies self@.contains_key(h) by {
                lemma_entries_map_domain(self.entries@, h);
            }
        }
        out
    }
}

} // verus!
