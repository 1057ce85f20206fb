use vstd::prelude::*;

use super::ResourceId;

verus! {

/// How many times `id` occurs in `ids`.
pub open spec fn count_of(ids: Seq<ResourceId>, id: ResourceId) -> nat
    decreases ids.len(),
{
    if ids.len() == 0 {
        0
    } else {
        count_of(ids.drop_last(), id) + if ids.last() == id { 1nat } else { 0nat }
    }
}

/// The lock state of each registered resource: how many holders read it, and
/// whether one holder writes it.
pub type LockMap = Map<ResourceId, (nat, bool)>;

/// No resource is written by one holder while it is read or written by another.
pub open spec fn exclusive(locks: LockMap) -> bool {
    forall|id: ResourceId| #[trigger] locks.contains_key(id) && locks[id].1 ==> locks[id].0 == 0
}

/// `id` is registered, not being written, and can take `n` more readers.
pub open spec fn may_read(locks: LockMap, id: ResourceId, n: nat) -> bool {
    &&& locks.contains_key(id)
    &&& !locks[id].1
    &&& locks[id].0 + n <= usize::MAX
}

/// `id` is registered and nobody reads or writes it.
pub open spec fn may_write(locks: LockMap, id: ResourceId) -> bool {
    &&& locks.contains_key(id)
    &&& !locks[id].1
    &&& locks[id].0 == 0
}

/// A request for `reads` and `writes` can be granted at once: every resource is
/// registered, nothing read is being written, nothing written is in use, no
/// resource is written twice or both read and written, and the reader counts
/// stay within a `usize`.
pub open spec fn grantable(locks: LockMap, reads: Seq<ResourceId>, writes: Seq<ResourceId>) -> bool {
    &&& forall|i: int| 0 <= i < reads.len() ==> may_read(locks, #[trigger] reads[i], reads.len())
    &&& forall|i: int| 0 <= i < writes.len() ==> may_write(locks, #[trigger] writes[i])
    &&& writes.no_duplicates()
    &&& forall|i: int, j: int|
        0 <= i < reads.len() && 0 <= j < writes.len() ==> reads[i] != writes[j]
}

/// The lock state once `reads` and `writes` are granted.
pub open spec fn after_acquire(locks: LockMap, reads: Seq<ResourceId>, writes: Seq<ResourceId>) -> LockMap {
    Map::new(
        |id: ResourceId| locks.contains_key(id),
        |id: ResourceId| (locks[id].0 + count_of(reads, id), locks[id].1 || writes.contains(id)),
    )
}

/// Subtracts without going below zero.
pub open spec fn minus_or_zero(a: nat, b: nat) -> nat {
    if a >= b { (a - b) as nat } else { 0 }
}

/// The lock state once `reads` and `writes` are given back.
pub open spec fn after_release(locks: LockMap, reads: Seq<ResourceId>, writes: Seq<ResourceId>) -> LockMap {
    Map::new(
        |id: ResourceId| locks.contains_key(id),
        |id: ResourceId| (minus_or_zero(locks[id].0, count_of(reads, id)), locks[id].1 && !writes.contains(id)),
    )
}

proof fn lemma_count_of_positive(ids: Seq<ResourceId>, i: int)
    requires
        0 <= i < ids.len(),
    ensures
        count_of(ids, ids[i]) >= 1,
    decreases ids.len(),
{
    if i < ids.len() - 1 {
        lemma_count_of_positive(ids.drop_last(), i);
    }
}

/// Granting a request keeps every written resource free of other holders.
pub proof fn lemma_acquire_keeps_exclusive(locks: LockMap, reads: Seq<ResourceId>, writes: Seq<ResourceId>)
    requires
        exclusive(locks),
        grantable(locks, reads, writes),
    ensures
        exclusive(after_acquire(locks, reads, writes)),
{
    let after = after_acquire(locks, reads, writes);
    assert forall|id: ResourceId| #[trigger] after.contains_key(id) && after[id].1 implies after[id].0 == 0 by {
        if writes.contains(id) {
            let j: int = choose|j: int| 0 <= j < writes.len() && writes[j] == id;
            assert(may_write(locks, writes[j]));
            assert(!reads.contains(id)) by {
                if reads.contains(id) {
                    let i: int = choose|i: int| 0 <= i < reads.len() && reads[i] == id;
                    assert(reads[i] != writes[j]);
                }
            }
            lemma_count_of_bound(reads, id);
        } else {
            assert(locks[id].1);
            assert(!reads.contains(id)) by {
                if reads.contains(id) {
                    let i: int = choose|i: int| 0 <= i < reads.len() && reads[i] == id;
                    assert(may_read(locks, reads[i], reads.len()));
                }
            }
            lemma_count_of_bound(reads, id);
        }
    }
}

/// Giving back any request keeps every written resource free of other holders.
pub proof fn lemma_release_keeps_exclusive(locks: LockMap, reads: Seq<ResourceId>, writes: Seq<ResourceId>)
    requires
        exclusive(locks),
    ensures
        exclusive(after_release(locks, reads, writes)),
{
    let after = after_release(locks, reads, writes);
    assert forall|id: ResourceId| #[trigger] after.contains_key(id) && after[id].1 implies after[id].0 == 0 by {
        assert(locks.contains_key(id) && locks[id].1);
    }
}

/// Giving back a granted request restores the lock state it was granted in.
pub proof fn lemma_release_undoes_acquire(locks: LockMap, reads: Seq<ResourceId>, writes: Seq<ResourceId>)
    requires
        grantable(locks, reads, writes),
    ensures
        after_release(after_acquire(locks, reads, writes), reads, writes) == locks,
{
    let after = after_release(after_acquire(locks, reads, writes), reads, writes);
    assert forall|id: ResourceId| #[trigger] after.contains_key(id) implies after[id] == locks[id] by {
        if writes.contains(id) {
            let j: int = choose|j: int| 0 <= j < writes.len() && writes[j] == id;
            assert(may_write(locks, writes[j]));
        }
    }
    assert(after =~= locks);
}

/// While one request is held, a second one is only granted if neither writes
/// what the other reads or writes.
pub proof fn lemma_granted_requests_do_not_conflict(
    locks: LockMap,
    reads1: Seq<ResourceId>,
    writes1: Seq<ResourceId>,
    reads2: Seq<ResourceId>,
    writes2: Seq<ResourceId>,
)
    requires
        grantable(locks, reads1, writes1),
        grantable(after_acquire(locks, reads1, writes1), reads2, writes2),
    ensures
        forall|i: int, j: int| 0 <= i < writes1.len() && 0 <= j < reads2.len() ==> writes1[i] != reads2[j],
        forall|i: int, j: int| 0 <= i < writes1.len() && 0 <= j < writes2.len() ==> writes1[i] != writes2[j],
        forall|i: int, j: int| 0 <= i < reads1.len() && 0 <= j < writes2.len() ==> reads1[i] != writes2[j],
{
    let after = after_acquire(locks, reads1, writes1);
    assert forall|i: int, j: int| 0 <= i < writes1.len() && 0 <= j < reads2.len() implies writes1[i] != reads2[j] by {
        assert(writes1.contains(writes1[i]));
        assert(may_read(after, reads2[j], reads2.len()));
    }
    assert forall|i: int, j: int| 0 <= i < writes1.len() && 0 <= j < writes2.len() implies writes1[i] != writes2[j] by {
        assert(writes1.contains(writes1[i]));
        assert(may_write(after, writes2[j]));
    }
    assert forall|i: int, j: int| 0 <= i < reads1.len() && 0 <= j < writes2.len() implies reads1[i] != writes2[j] by {
        lemma_count_of_positive(reads1, i);
        assert(may_write(after, writes2[j]));
        assert(may_read(locks, reads1[i], reads1.len()));
    }
}

struct LockEntry {
    id: ResourceId,
    readers: usize,
    writer: bool,
}

/// The read and write locks of a fixed set of resources.
pub struct ResourceLocks {
    entries: Vec<LockEntry>,
}

impl View for ResourceLocks {
    type V = LockMap;

    closed spec fn view(&self) -> LockMap {
        self.lock_map()
    }
}

proof fn lemma_maps_equal(a: LockMap, b: LockMap)
    requires
        forall|x: ResourceId| #[trigger] a.contains_key(x) <==> b.contains_key(x),
        forall|x: ResourceId| #[trigger] a.contains_key(x) ==> a[x] == b[x],
    ensures
        a == b,
{
    assert(a =~= b);
}

proof fn lemma_take_contains_step(ids: Seq<ResourceId>, j: int, x: ResourceId)
    requires
        0 <= j < ids.len(),
    ensures
        ids.take(j + 1).contains(x) == (ids.take(j).contains(x) || ids[j] == x),
{
    if ids.take(j).contains(x) {
        let a: int = choose|a: int| 0 <= a < j && ids.take(j)[a] == x;
        assert(ids.take(j + 1)[a] == x);
    }
    if ids[j] == x {
        assert(ids.take(j + 1)[j] == x);
    }
    let t = ids.take(j + 1);
    if t.contains(x) && ids[j] != x {
        let a: int = choose|a: int| 0 <= a < t.len() && t[a] == x;
        assert(ids.take(j)[a] == x);
    }
}

proof fn lemma_count_of_bound(ids: Seq<ResourceId>, id: ResourceId)
    ensures
        count_of(ids, id) <= ids.len(),
        !ids.contains(id) ==> count_of(ids, id) == 0,
    decreases ids.len(),
{
    if ids.len() > 0 {
        lemma_count_of_bound(ids.drop_last(), id);
        if !ids.contains(id) {
            assert(!ids.drop_last().contains(id)) by {
                if ids.drop_last().contains(id) {
                    let k: int = choose|k: int| 0 <= k < ids.drop_last().len() && ids.drop_last()[k] == id;
                    assert(ids[k] == id);
                }
            }
            assert(ids[ids.len() - 1] != id);
        }
    }
}

proof fn lemma_count_of_step(ids: Seq<ResourceId>, i: int, id: ResourceId)
    requires
        0 <= i < ids.len(),
    ensures
        count_of(ids.take(i + 1), id) == count_of(ids.take(i), id) + if ids[i] == id { 1nat } else { 0nat },
{
    assert(ids.take(i + 1).drop_last() =~= ids.take(i));
}

impl ResourceLocks {
    #[verifier::opaque]
    spec fn lock_map(&self) -> LockMap {
        Map::new(
            |id: ResourceId| exists|i: int| 0 <= i < self.entries.len() && self.entries[i].id == id,
            |id: ResourceId|
                {
                    let i: int = choose|i: int| 0 <= i < self.entries.len() && self.entries[i].id == id;
                    (self.entries[i].readers as nat, self.entries[i].writer)
                },
        )
    }

    /// Each resource occurs once, and a written resource has no readers.
    pub closed spec fn wf(&self) -> bool {
        &&& forall|i: int, j: int|
            0 <= i < j < self.entries.len() ==> self.entries[i].id != self.entries[j].id
        &&& forall|i: int|
            0 <= i < self.entries.len() ==> #[trigger] self.entries[i].writer ==> self.entries[i].readers == 0
    }

    proof fn lemma_view_at(&self, i: int)
        requires
            self.wf(),
            0 <= i < self.entries.len(),
        ensures
            self@.contains_key(self.entries[i].id),
            self@[self.entries[i].id] == (self.entries[i].readers as nat, self.entries[i].writer),
    {
        reveal(ResourceLocks::lock_map);
        let id = self.entries[i].id;
        assert(exists|k: int| 0 <= k < self.entries.len() && self.entries[k].id == id);
        let k: int = choose|k: int| 0 <= k < self.entries.len() && self.entries[k].id == id;
        if k != i {
            if k < i {
                assert(self.entries[k].id != self.entries[i].id);
            } else {
                assert(self.entries[i].id != self.entries[k].id);
            }
        }
    }

    /// A well-formed table keeps written resources free of other holders.
    pub proof fn lemma_wf_exclusive(&self)
        requires
            self.wf(),
        ensures
            exclusive(self@),
    {
        reveal(ResourceLocks::lock_map);
        assert forall|id: ResourceId| #[trigger] self@.contains_key(id) && self@[id].1 implies self@[id].0 == 0 by {
            let k: int = choose|k: int| 0 <= k < self.entries.len() && self.entries[k].id == id;
            self.lemma_view_at(k);
        }
    }

    /// Overwriting the counts of entry `k`, keeping its id, keeps the table
    /// well-formed when the new entry has no readers if written.
    proof fn lemma_update_keeps_wf(old: &Self, new: &Self, k: int)
        requires
            old.wf(),
            0 <= k < old.entries.len(),
            new.entries.len() == old.entries.len(),
            forall|i: int| 0 <= i < old.entries.len() && i != k ==> new.entries[i] == old.entries[i],
            new.entries[k].id == old.entries[k].id,
            new.entries[k].writer ==> new.entries[k].readers == 0,
        ensures
            new.wf(),
    {
        assert forall|x: int| 0 <= x < new.entries.len() && #[trigger] new.entries[x].writer implies new.entries[x].readers == 0 by {
            if x != k {
                assert(new.entries[x] == old.entries[x]);
            }
        }
        assert forall|a: int, b: int| 0 <= a < b < new.entries.len() implies new.entries[a].id != new.entries[b].id by {
            assert(old.entries[a].id != old.entries[b].id);
        }
    }

    /// Overwrites the counts of entry `k`, keeping its id.
    proof fn lemma_update(old: &Self, new: &Self, k: int)
        requires
            old.wf(),
            0 <= k < old.entries.len(),
            new.entries.len() == old.entries.len(),
            forall|i: int| 0 <= i < old.entries.len() && i != k ==> new.entries[i] == old.entries[i],
            new.entries[k].id == old.entries[k].id,
        ensures
            new@ == old@.insert(old.entries[k].id, (new.entries[k].readers as nat, new.entries[k].writer)),
    {
        reveal(ResourceLocks::lock_map);
        let id = old.entries[k].id;
        assert forall|i: int, j: int| 0 <= i < j < new.entries.len() implies new.entries[i].id != new.entries[j].id by {
            assert(old.entries[i].id != old.entries[j].id);
        }
        assert forall|x: ResourceId| new@.contains_key(x) <==> old@.insert(id, (new.entries[k].readers as nat, new.entries[k].writer)).contains_key(x) by {
            if new@.contains_key(x) {
                let i: int = choose|i: int| 0 <= i < new.entries.len() && new.entries[i].id == x;
                if i != k {
                    assert(old.entries[i].id == x);
                }
            }
            if old@.contains_key(x) {
                let i: int = choose|i: int| 0 <= i < old.entries.len() && old.entries[i].id == x;
                assert(new.entries[i].id == x);
            }
        }
        assert forall|x: ResourceId| #[trigger] new@.contains_key(x) implies new@[x] == old@.insert(id, (new.entries[k].readers as nat, new.entries[k].writer))[x] by {
            let i: int = choose|i: int| 0 <= i < new.entries.len() && new.entries[i].id == x;
            if i != k {
                assert(old.entries[i].id == x);
                assert(x != id) by {
                    if i < k {
                        assert(old.entries[i].id != old.entries[k].id);
                    } else {
                        assert(old.entries[k].id != old.entries[i].id);
                    }
                }
                old.lemma_view_at(i);
            }
        }
        assert(new@ =~= old@.insert(id, (new.entries[k].readers as nat, new.entries[k].writer)));
    }

    /// The position of `id`, if it is registered.
    fn index_of(&self, id: &ResourceId) -> (r: Option<usize>)
        ensures
            match r {
                Some(i) => i < self.entries.len() && self.entries[i as int].id == *id,
                None => forall|i: int| 0 <= i < self.entries.len() ==> self.entries[i].id != *id,
            },
    {
        let mut i: usize = 0;
        while i < self.entries.len()
            invariant
                i <= self.entries.len(),
                forall|j: int| 0 <= j < i ==> self.entries[j].id != *id,
            decreases self.entries.len() - i,
        {
            if self.entries[i].id == *id {
                return Some(i);
            }
            i = i + 1;
        }
        None
    }

    proof fn lemma_index_of_view(&self, id: ResourceId, r: Option<usize>)
        requires
            self.wf(),
            match r {
                Some(i) => i < self.entries.len() && self.entries[i as int].id == id,
                None => forall|i: int| 0 <= i < self.entries.len() ==> self.entries[i].id != id,
            },
        ensures
            r is Some <==> self@.contains_key(id),
            r matches Some(i) ==> self@[id] == (self.entries[i as int].readers as nat, self.entries[i as int].writer),
    {
        reveal(ResourceLocks::lock_map);
        if let Some(i) = r {
            self.lemma_view_at(i as int);
        }
    }

    /// Locks for each of `ids`, all free.
    pub fn new(ids: &Vec<ResourceId>) -> (locks: Self)
        requires
            ids@.no_duplicates(),
        ensures
            locks.wf(),
            exclusive(locks@),
            locks@ == Map::new(|id: ResourceId| ids@.contains(id), |id: ResourceId| (0nat, false)),
    {
        let mut entries: Vec<LockEntry> = Vec::new();
        let mut i: usize = 0;
        while i < ids.len()
            invariant
                i <= ids.len(),
                ids@.no_duplicates(),
                entries.len() == i,
                forall|k: int| 0 <= k < i ==> (#[trigger] entries[k]).id == ids@[k] && entries[k].readers == 0 && !entries[k].writer,
            decreases ids.len() - i,
        {
            entries.push(LockEntry { id: ids[i], readers: 0, writer: false });
            i = i + 1;
        }
        let locks = ResourceLocks { entries };
        proof {
            reveal(ResourceLocks::lock_map);
            assert forall|a: int, b: int| 0 <= a < b < locks.entries.len() implies locks.entries[a].id != locks.entries[b].id by {
                assert(ids@[a] != ids@[b]);
            }
            let expected = Map::new(|id: ResourceId| ids@.contains(id), |id: ResourceId| (0nat, false));
            assert forall|x: ResourceId| locks@.contains_key(x) <==> expected.contains_key(x) by {
                if ids@.contains(x) {
                    let k: int = choose|k: int| 0 <= k < ids@.len() && ids@[k] == x;
                    assert(locks.entries[k].id == x);
                }
                if locks@.contains_key(x) {
                    let k: int = choose|k: int| 0 <= k < locks.entries.len() && locks.entries[k].id == x;
                    assert(ids@[k] == x);
                }
            }
            assert forall|x: ResourceId| #[trigger] locks@.contains_key(x) implies locks@[x] == expected[x] by {
                let k: int = choose|k: int| 0 <= k < locks.entries.len() && locks.entries[k].id == x;
                locks.lemma_view_at(k);
            }
            assert(locks@ =~= expected);
            locks.lemma_wf_exclusive();
        }
        locks
    }

    /// Whether a request for `reads` and `writes` can be granted now.
    pub fn can_grant(&self, reads: &Vec<ResourceId>, writes: &Vec<ResourceId>) -> (r: bool)
        requires
            self.wf(),
        ensures
            r == grantable(self@, reads@, writes@),
    {
        let n: usize = reads.len();
        let mut i: usize = 0;
        while i < n
            invariant
                self.wf(),
                n == reads.len(),
                i <= n,
                forall|k: int|
                    0 <= k < i ==> may_read(self@, #[trigger] reads@[k], reads@.len()),
            decreases n - i,
        {
            let found = self.index_of(&reads[i]);
            proof {
                self.lemma_index_of_view(reads@[i as int], found);
            }
            match found {
                None => {
                    return false;
                },
                Some(k) => {
                    if self.entries[k].writer || self.entries[k].readers > usize::MAX - n {
                        return false;
                    }
                },
            }
            i = i + 1;
        }
        let m: usize = writes.len();
        let mut j: usize = 0;
        while j < m
            invariant
                self.wf(),
                m == writes.len(),
                n == reads.len(),
                j <= m,
                forall|k: int|
                    0 <= k < n ==> may_read(self@, #[trigger] reads@[k], reads@.len()),
                forall|k: int|
                    0 <= k < j ==> may_write(self@, #[trigger] writes@[k]),
                forall|a: int, b: int| 0 <= a < b < j ==> writes@[a] != writes@[b],
            decreases m - j,
        {
            let found = self.index_of(&writes[j]);
            proof {
                self.lemma_index_of_view(writes@[j as int], found);
            }
            match found {
                None => {
                    return false;
                },
                Some(k) => {
                    if self.entries[k].writer || self.entries[k].readers != 0 {
                        return false;
                    }
                },
            }
            let mut a: usize = 0;
            while a < j
                invariant
                    j < m,
                    m == writes.len(),
                    a <= j,
                    forall|b: int| 0 <= b < a ==> writes@[b] != writes@[j as int],
                decreases j - a,
            {
                if writes[a] == writes[j] {
                    assert(!writes@.no_duplicates());
                    return false;
                }
                a = a + 1;
            }
            assert forall|x: int, y: int| 0 <= x < y < j + 1 implies writes@[x] != writes@[y] by {
                if y < j {
                }
            }
            j = j + 1;
        }
        assert(writes@.no_duplicates());
        let mut i: usize = 0;
        while i < n
            invariant
                self.wf(),
                n == reads.len(),
                m == writes.len(),
                i <= n,
                forall|k: int|
                    0 <= k < n ==> may_read(self@, #[trigger] reads@[k], reads@.len()),
                forall|k: int|
                    0 <= k < m ==> may_write(self@, #[trigger] writes@[k]),
                writes@.no_duplicates(),
                forall|a: int, b: int| 0 <= a < i && 0 <= b < m ==> reads@[a] != writes@[b],
            decreases n - i,
        {
            let mut j: usize = 0;
            while j < m
                invariant
                    i < n,
                    n == reads.len(),
                    m == writes.len(),
                    j <= m,
                    forall|b: int| 0 <= b < j ==> reads@[i as int] != writes@[b],
                decreases m - j,
            {
                if reads[i] == writes[j] {
                    return false;
                }
                j = j + 1;
            }
            i = i + 1;
        }
        true
    }

    /// Grants `reads` and `writes` together if that is possible now; else
    /// changes nothing.
    pub fn try_acquire(&mut self, reads: &Vec<ResourceId>, writes: &Vec<ResourceId>) -> (granted: bool)
        requires
            old(self).wf(),
        ensures
            final(self).wf(),
            exclusive(final(self)@),
            granted == grantable(old(self)@, reads@, writes@),
            granted ==> final(self)@ == after_acquire(old(self)@, reads@, writes@),
            !granted ==> final(self)@ == old(self)@,
    {
        proof {
            self.lemma_wf_exclusive();
        }
        if !self.can_grant(reads, writes) {
            return false;
        }
        let ghost start = self@;
        let n: usize = reads.len();
        let mut i: usize = 0;
        while i < n
            invariant
                self.wf(),
                n == reads.len(),
                i <= n,
                grantable(start, reads@, writes@),
                self@ == Map::new(
                    |id: ResourceId| start.contains_key(id),
                    |id: ResourceId| (start[id].0 + count_of(reads@.take(i as int), id), start[id].1),
                ),
            decreases n - i,
        {
            let found = self.index_of(&reads[i]);
            proof {
                self.lemma_index_of_view(reads@[i as int], found);
                lemma_count_of_bound(reads@.take(i as int), reads@[i as int]);
            }
            let k = found.unwrap();
            let ghost before = *self;
            let e = LockEntry { id: self.entries[k].id, readers: self.entries[k].readers + 1, writer: self.entries[k].writer };
            self.entries.set(k, e);
            proof {
                ResourceLocks::lemma_update(&before, self, k as int);
                ResourceLocks::lemma_update_keeps_wf(&before, self, k as int);
                let expected = Map::new(
                    |id: ResourceId| start.contains_key(id),
                    |id: ResourceId| (start[id].0 + count_of(reads@.take(i + 1), id), start[id].1),
                );
                assert forall|x: ResourceId| #[trigger] self@.contains_key(x) implies self@[x] == expected[x] by {
                    lemma_count_of_step(reads@, i as int, x);
                }
                assert(start.contains_key(reads@[i as int]));
                assert forall|x: ResourceId| #[trigger] self@.contains_key(x) <==> expected.contains_key(x) by {}
                lemma_maps_equal(self@, expected);
            }
            i = i + 1;
        }
        proof {
            assert(reads@.take(n as int) =~= reads@);
        }
        let ghost mid = self@;
        let m: usize = writes.len();
        let mut j: usize = 0;
        while j < m
            invariant
                self.wf(),
                m == writes.len(),
                j <= m,
                grantable(start, reads@, writes@),
                self@ == Map::new(
                    |id: ResourceId| start.contains_key(id),
                    |id: ResourceId| (start[id].0 + count_of(reads@, id), start[id].1 || writes@.take(j as int).contains(id)),
                ),
            decreases m - j,
        {
            let found = self.index_of(&writes[j]);
            proof {
                self.lemma_index_of_view(writes@[j as int], found);
                assert(!reads@.contains(writes@[j as int])) by {
                    if reads@.contains(writes@[j as int]) {
                        let a: int = choose|a: int| 0 <= a < reads@.len() && reads@[a] == writes@[j as int];
                        assert(reads@[a] != writes@[j as int]);
                    }
                }
                lemma_count_of_bound(reads@, writes@[j as int]);
            }
            let k = found.unwrap();
            let ghost before = *self;
            let e = LockEntry { id: self.entries[k].id, readers: self.entries[k].readers, writer: true };
            self.entries.set(k, e);
            proof {
                ResourceLocks::lemma_update(&before, self, k as int);
                ResourceLocks::lemma_update_keeps_wf(&before, self, k as int);
                let expected = Map::new(
                    |id: ResourceId| start.contains_key(id),
                    |id: ResourceId| (start[id].0 + count_of(reads@, id), start[id].1 || writes@.take(j + 1).contains(id)),
                );
                assert forall|x: ResourceId| #[trigger] self@.contains_key(x) implies self@[x] == expected[x] by {
                    lemma_take_contains_step(writes@, j as int, x);
                }
                lemma_maps_equal(self@, expected);
            }
            j = j + 1;
        }
        proof {
            assert(writes@.take(m as int) =~= writes@);
            assert(self@ =~= after_acquire(start, reads@, writes@));
            self.lemma_wf_exclusive();
        }
        true
    }

    /// Gives back `reads` and `writes`: each read lowers that resource's reader
    /// count (not below zero), and each write frees that resource.
    pub fn release(&mut self, reads: &Vec<ResourceId>, writes: &Vec<ResourceId>)
        requires
            old(self).wf(),
        ensures
            final(self).wf(),
            exclusive(final(self)@),
            final(self)@ == after_release(old(self)@, reads@, writes@),
    {
        let ghost start = self@;
        let n: usize = reads.len();
        let mut i: usize = 0;
        while i < n
            invariant
                self.wf(),
                n == reads.len(),
                i <= n,
                self@ == Map::new(
                    |id: ResourceId| start.contains_key(id),
                    |id: ResourceId| (minus_or_zero(start[id].0, count_of(reads@.take(i as int), id)), start[id].1),
                ),
            decreases n - i,
        {
            let found = self.index_of(&reads[i]);
            proof {
                self.lemma_index_of_view(reads@[i as int], found);
            }
            let ghost before = *self;
            match found {
                Some(k) => {
                    if self.entries[k].readers > 0 {
                        let e = LockEntry { id: self.entries[k].id, readers: self.entries[k].readers - 1, writer: self.entries[k].writer };
                        self.entries.set(k, e);
                        proof {
                            ResourceLocks::lemma_update(&before, self, k as int);
                            ResourceLocks::lemma_update_keeps_wf(&before, self, k as int);
                        }
                    }
                },
                None => {},
            }
            proof {
                let expected = Map::new(
                    |id: ResourceId| start.contains_key(id),
                    |id: ResourceId| (minus_or_zero(start[id].0, count_of(reads@.take(i + 1), id)), start[id].1),
                );
                assert forall|x: ResourceId| #[trigger] self@.contains_key(x) implies self@[x] == expected[x] by {
                    lemma_count_of_step(reads@, i as int, x);
                }
                assert forall|x: ResourceId| #[trigger] self@.contains_key(x) <==> expected.contains_key(x) by {}
                lemma_maps_equal(self@, expected);
            }
            i = i + 1;
        }
        proof {
            assert(reads@.take(n as int) =~= reads@);
        }
        let m: usize = writes.len();
        let mut j: usize = 0;
        while j < m
            invariant
                self.wf(),
                m == writes.len(),
                j <= m,
                self@ == Map::new(
                    |id: ResourceId| start.contains_key(id),
                    |id: ResourceId| (minus_or_zero(start[id].0, count_of(reads@, id)), start[id].1 && !writes@.take(j as int).contains(id)),
                ),
            decreases m - j,
        {
            let found = self.index_of(&writes[j]);
            proof {
                self.lemma_index_of_view(writes@[j as int], found);
            }
            let ghost before = *self;
            match found {
                Some(k) => {
                    let e = LockEntry { id: self.entries[k].id, readers: self.entries[k].readers, writer: false };
                    self.entries.set(k, e);
                    proof {
                        ResourceLocks::lemma_update(&before, self, k as int);
                        ResourceLocks::lemma_update_keeps_wf(&before, self, k as int);
                    }
                },
                None => {},
            }
            proof {
                let expected = Map::new(
                    |id: ResourceId| start.contains_key(id),
                    |id: ResourceId| (minus_or_zero(start[id].0, count_of(reads@, id)), start[id].1 && !writes@.take(j + 1).contains(id)),
                );
                assert forall|x: ResourceId| #[trigger] self@.contains_key(x) implies self@[x] == expected[x] by {
                    lemma_take_contains_step(writes@, j as int, x);
                }
                assert forall|x: ResourceId| #[trigger] self@.contains_key(x) <==> expected.contains_key(x) by {}
                lemma_maps_equal(self@, expected);
            }
            j = j + 1;
        }
        proof {
            assert(writes@.take(m as int) =~= writes@);
            assert(self@ =~= after_release(start, reads@, writes@));
            self.lemma_wf_exclusive();
        }
    }
}

} // verus!
