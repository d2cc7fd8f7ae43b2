use vstd::prelude::*;

verus! {

/// Maps surface variable names to the generated names now in scope. Entries
/// are kept in order of key, so that walking the table never depends on the
/// order in which names were bound.
pub struct NameTable {
    entries: Vec<(String, String)>,
    model: Ghost<Map<Seq<char>, Seq<char>>>,
}

/// Counts, per generated name, the uses seen so far.
pub struct UsesMap {
    entries: Vec<(String, u64)>,
    model: Ghost<Map<Seq<char>, nat>>,
}

/// The use count of `k`, absent names counting zero.
pub open spec fn count_of(uses: Map<Seq<char>, nat>, k: Seq<char>) -> nat {
    if uses.contains_key(k) {
        uses[k]
    } else {
        0
    }
}

/// Strict lexicographic order on names.
pub open spec fn name_lt(a: Seq<char>, b: Seq<char>) -> bool
    decreases a.len(),
{
    if b.len() == 0 {
        false
    } else if a.len() == 0 {
        true
    } else if a[0] != b[0] {
        a[0] < b[0]
    } else {
        name_lt(a.drop_first(), b.drop_first())
    }
}


proof fn lemma_lt_irreflexive(a: Seq<char>)
    ensures
        !name_lt(a, a),
    decreases a.len(),
{
    if a.len() > 0 {
        lemma_lt_irreflexive(a.drop_first());
    }
}

proof fn lemma_lt_transitive(a: Seq<char>, b: Seq<char>, c: Seq<char>)
    requires
        name_lt(a, b),
        name_lt(b, c),
    ensures
        name_lt(a, c),
    decreases a.len(),
{
    if a.len() > 0 && a[0] == b[0] && b[0] == c[0] {
        lemma_lt_transitive(a.drop_first(), b.drop_first(), c.drop_first());
    }
}

proof fn lemma_lt_total(a: Seq<char>, b: Seq<char>)
    requires
        a != b,
    ensures
        name_lt(a, b) || name_lt(b, a),
    decreases a.len(),
{
    if a.len() > 0 && b.len() > 0 {
        if a[0] == b[0] {
            if a.drop_first() == b.drop_first() {
                assert(a =~= seq![a[0]] + a.drop_first());
                assert(b =~= seq![b[0]] + b.drop_first());
            }
            lemma_lt_total(a.drop_first(), b.drop_first());
        } else {
        }
    } else if a.len() == 0 && b.len() == 0 {
        assert(a =~= b);
    }
}

/// Compares two names in lexicographic order of their characters.
fn name_less(a: &String, b: &String) -> (r: bool)
    ensures
        r == name_lt(a@, b@),
{
    let sa = a.as_str();
    let sb = b.as_str();
    let la = sa.unicode_len();
    let lb = sb.unicode_len();
    let mut i: usize = 0;
    assert(a@.skip(0) =~= a@);
    assert(b@.skip(0) =~= b@);
    while i < la && i < lb
        invariant
            i <= la == a@.len(),
            i <= lb == b@.len(),
            sa@ == a@,
            sb@ == b@,
            name_lt(a@, b@) == name_lt(a@.skip(i as int), b@.skip(i as int)),
        decreases la - i,
    {
        let ca = sa.get_char(i);
        let cb = sb.get_char(i);
        if ca != cb {
            return ca < cb;
        }
        assert(a@.skip(i as int).drop_first() =~= a@.skip(i + 1));
        assert(b@.skip(i as int).drop_first() =~= b@.skip(i + 1));
        i = i + 1;
    }
    assert(a@.skip(i as int).len() == la - i);
    assert(b@.skip(i as int).len() == lb - i);
    i < lb
}

impl NameTable {
    pub closed spec fn view(&self) -> Map<Seq<char>, Seq<char>> {
        self.model@
    }

    pub closed spec fn wf(&self) -> bool {
        &&& forall|i: int, j: int|
            0 <= i < j < self.entries.len() ==> name_lt(
                #[trigger] self.entries[i].0@,
                #[trigger] self.entries[j].0@,
            )
        &&& forall|i: int|
            0 <= i < self.entries.len() ==> {
                &&& self.model@.contains_key(#[trigger] self.entries[i].0@)
                &&& self.model@[self.entries[i].0@] == self.entries[i].1@
            }
        &&& forall|k: Seq<char>|
            #[trigger] self.model@.contains_key(k) ==> exists|i: int|
                0 <= i < self.entries.len() && #[trigger] self.entries[i].0@ == k
    }

    pub fn new() -> (r: NameTable)
        ensures
            r.wf(),
            r.view() == Map::<Seq<char>, Seq<char>>::empty(),
    {
        NameTable { entries: Vec::new(), model: Ghost(Map::empty()) }
    }
    fn find(&self, k: &String) -> (r: Option<usize>)
        requires
            self.wf(),
        ensures
            match r {
                Some(i) => i < self.entries.len() && self.entries[i as int].0@ == k@,
                None => !self.view().contains_key(k@),
            },
    {
        let mut i: usize = 0;
        while i < self.entries.len()
            invariant
                i <= self.entries.len(),
                forall|j: int| 0 <= j < i ==> self.entries[j].0@ != k@,
            decreases self.entries.len() - i,
        {
            if self.entries[i].0 == *k {
                return Some(i);
            }
            i = i + 1;
        }
        None
    }

    /// The generated name bound to `k`, if any.
    pub fn get(&self, k: &String) -> (r: Option<&String>)
        requires
            self.wf(),
        ensures
            r is Some <==> self.view().contains_key(k@),
            r is Some ==> r->0@ == self.view()[k@],
    {
        match self.find(k) {
            Some(i) => Some(&self.entries[i].1),
            None => None,
        }
    }

    /// Binds `k` to `v`, replacing any earlier binding of `k`.
    pub fn insert(&mut self, k: String, v: String)
        requires
            old(self).wf(),
        ensures
            final(self).wf(),
            final(self).view() == old(self).view().insert(k@, v@),
    {
        let mut p: usize = 0;
        while p < self.entries.len() && name_less(&self.entries[p].0, &k)
            invariant
                p <= self.entries.len(),
                forall|j: int| 0 <= j < p ==> name_lt(#[trigger] self.entries[j].0@, k@),
            decreases self.entries.len() - p,
        {
            p = p + 1;
        }
        let ghost old_entries = self.entries@;
        let ghost kv = k@;
        proof {
            if p < self.entries.len() {
                assert forall|j: int| p < j < self.entries.len() implies name_lt(
                    kv,
                    #[trigger] self.entries[j].0@,
                ) by {
                    if self.entries[p as int].0@ != kv {
                        lemma_lt_total(self.entries[p as int].0@, kv);
                        lemma_lt_transitive(kv, self.entries[p as int].0@, self.entries[j].0@);
                    }
                }
            }
        }
        if p < self.entries.len() && self.entries[p].0 == k {
            self.entries.set(p, (k, v));
            self.model = Ghost(self.model@.insert(kv, v@));
            proof {
                assert forall|i: int, j: int|
                    0 <= i < j < self.entries.len() implies name_lt(
                    #[trigger] self.entries[i].0@,
                    #[trigger] self.entries[j].0@,
                ) by {
                    assert(self.entries[i].0@ == old_entries[i].0@);
                    assert(self.entries[j].0@ == old_entries[j].0@);
                }
                assert forall|k2: Seq<char>| #[trigger] self.model@.contains_key(k2) implies exists|j: int|
                    0 <= j < self.entries.len() && #[trigger] self.entries[j].0@ == k2 by {
                    if k2 != kv {
                        let j = choose|j: int| 0 <= j < old_entries.len() && #[trigger] old_entries[j].0@ == k2;
                        assert(self.entries[j].0@ == k2);
                    } else {
                        assert(self.entries[p as int].0@ == k2);
                    }
                }
                assert forall|i: int| 0 <= i < self.entries.len() implies {
                    &&& self.model@.contains_key(#[trigger] self.entries[i].0@)
                    &&& self.model@[self.entries[i].0@] == self.entries[i].1@
                } by {
                    if i != p {
                        assert(self.entries[i] == old_entries[i]);
                        lemma_lt_irreflexive(kv);
                    }
                }
            }
        } else {
            proof {
                if p < self.entries.len() {
                    lemma_lt_total(self.entries[p as int].0@, kv);
                    assert(name_lt(kv, self.entries[p as int].0@));
                }
            }
            self.entries.insert(p, (k, v));
            self.model = Ghost(self.model@.insert(kv, v@));
            proof {
                assert forall|i: int, j: int|
                    0 <= i < j < self.entries.len() implies name_lt(
                    #[trigger] self.entries[i].0@,
                    #[trigger] self.entries[j].0@,
                ) by {
                    if i < p && j > p {
                        lemma_lt_transitive(self.entries[i].0@, kv, self.entries[j].0@);
                    } else if i < p && j < p {
                        assert(self.entries[i] == old_entries[i]);
                        assert(self.entries[j] == old_entries[j]);
                    } else if i > p {
                        assert(self.entries[i] == old_entries[i - 1]);
                        assert(self.entries[j] == old_entries[j - 1]);
                    } else if i < p {
                        assert(self.entries[i] == old_entries[i]);
                    } else {
                        assert(self.entries[j] == old_entries[j - 1]);
                    }
                }
                assert forall|k2: Seq<char>| #[trigger] self.model@.contains_key(k2) implies exists|j: int|
                    0 <= j < self.entries.len() && #[trigger] self.entries[j].0@ == k2 by {
                    if k2 != kv {
                        let j = choose|j: int| 0 <= j < old_entries.len() && #[trigger] old_entries[j].0@ == k2;
                        if j < p {
                            assert(self.entries[j].0@ == k2);
                        } else {
                            assert(self.entries[j + 1].0@ == k2);
                        }
                    } else {
                        assert(self.entries[p as int].0@ == k2);
                    }
                }
                assert forall|i: int| 0 <= i < self.entries.len() implies {
                    &&& self.model@.contains_key(#[trigger] self.entries[i].0@)
                    &&& self.model@[self.entries[i].0@] == self.entries[i].1@
                } by {
                    if i < p {
                        assert(self.entries[i] == old_entries[i]);
                        lemma_lt_irreflexive(kv);
                    } else if i > p {
                        assert(self.entries[i] == old_entries[i - 1]);
                        lemma_lt_irreflexive(kv);
                    }
                }
            }
        }
    }

    /// The bound names, in increasing order: the same for every history that
    /// leads to the same bindings.
    pub fn keys(&self) -> (r: Vec<String>)
        requires
            self.wf(),
        ensures
            forall|i: int, j: int| 0 <= i < j < r.len() ==> name_lt(#[trigger] r[i]@, #[trigger] r[j]@),
            forall|i: int| 0 <= i < r.len() ==> self.view().contains_key(#[trigger] r[i]@),
            forall|k: Seq<char>| #[trigger] self.view().contains_key(k) ==> exists|i: int| 0 <= i < r.len() && #[trigger] r[i]@ == k,
    {
        let mut r: Vec<String> = Vec::new();
        let mut i: usize = 0;
        while i < self.entries.len()
            invariant
                self.wf(),
                i <= self.entries.len(),
                r.len() == i,
                forall|j: int| 0 <= j < i ==> #[trigger] r[j]@ == self.entries[j].0@,
            decreases self.entries.len() - i,
        {
            r.push(self.entries[i].0.clone());
            i = i + 1;
        }
        assert forall|k: Seq<char>| #[trigger] self.view().contains_key(k) implies exists|m: int| 0 <= m < r.len() && #[trigger] r[m]@ == k by {
            let m = choose|m: int| 0 <= m < self.entries.len() && #[trigger] self.entries[m].0@ == k;
            assert(r[m]@ == k);
        }
        assert forall|a: int, b: int| 0 <= a < b < r.len() implies name_lt(#[trigger] r[a]@, #[trigger] r[b]@) by {
            assert(r[a]@ == self.entries[a].0@);
            assert(r[b]@ == self.entries[b].0@);
        }
        r
    }

    /// Unbinds `k`, handing back what it was bound to.
    pub fn remove(&mut self, k: &String) -> (r: Option<String>)
        requires
            old(self).wf(),
        ensures
            final(self).wf(),
            final(self).view() == old(self).view().remove(k@),
            r is Some <==> old(self).view().contains_key(k@),
            r is Some ==> r->0@ == old(self).view()[k@],
    {
        match self.find(k) {
            Some(p) => {
                let ghost old_entries = self.entries@;
                let ghost kv = k@;
                let (_, v) = self.entries.remove(p);
                self.model = Ghost(self.model@.remove(kv));
                proof {
                    assert forall|i: int, j: int|
                        0 <= i < j < self.entries.len() implies name_lt(
                        #[trigger] self.entries[i].0@,
                        #[trigger] self.entries[j].0@,
                    ) by {
                        if j < p {
                            assert(self.entries[i] == old_entries[i]);
                            assert(self.entries[j] == old_entries[j]);
                        } else if i >= p {
                            assert(self.entries[i] == old_entries[i + 1]);
                            assert(self.entries[j] == old_entries[j + 1]);
                        } else {
                            assert(self.entries[i] == old_entries[i]);
                            assert(self.entries[j] == old_entries[j + 1]);
                        }
                    }
                    assert forall|k2: Seq<char>| #[trigger] self.model@.contains_key(k2) implies exists|j: int|
                        0 <= j < self.entries.len() && #[trigger] self.entries[j].0@ == k2 by {
                        let j = choose|j: int| 0 <= j < old_entries.len() && #[trigger] old_entries[j].0@ == k2;
                        assert(j != p);
                        if j < p {
                            assert(self.entries[j].0@ == k2);
                        } else {
                            assert(self.entries[j - 1].0@ == k2);
                        }
                    }
                    assert forall|i: int| 0 <= i < self.entries.len() implies {
                        &&& self.model@.contains_key(#[trigger] self.entries[i].0@)
                        &&& self.model@[self.entries[i].0@] == self.entries[i].1@
                    } by {
                        if i < p {
                            assert(self.entries[i] == old_entries[i]);
                            lemma_lt_irreflexive(kv);
                        } else {
                            assert(self.entries[i] == old_entries[i + 1]);
                            lemma_lt_irreflexive(kv);
                        }
                    }
                }
                Some(v)
            },
            None => {
                assert(self.model@.remove(k@) =~= self.model@);
                None
            },
        }
    }
}

impl UsesMap {
    pub closed spec fn view(&self) -> Map<Seq<char>, nat> {
        self.model@
    }

    pub closed spec fn wf(&self) -> bool {
        &&& forall|i: int, j: int|
            0 <= i < j < self.entries.len() ==> #[trigger] self.entries[i].0@
                != #[trigger] self.entries[j].0@
        &&& forall|i: int|
            0 <= i < self.entries.len() ==> {
                &&& self.model@.contains_key(#[trigger] self.entries[i].0@)
                &&& self.model@[self.entries[i].0@] == self.entries[i].1 as nat
            }
        &&& forall|k: Seq<char>|
            #[trigger] self.model@.contains_key(k) ==> exists|i: int|
                0 <= i < self.entries.len() && #[trigger] self.entries[i].0@ == k
    }

    pub fn new() -> (r: UsesMap)
        ensures
            r.wf(),
            r.view() == Map::<Seq<char>, nat>::empty(),
    {
        UsesMap { entries: Vec::new(), model: Ghost(Map::empty()) }
    }

    fn find(&self, k: &String) -> (r: Option<usize>)
        requires
            self.wf(),
        ensures
            match r {
                Some(i) => i < self.entries.len() && self.entries[i as int].0@ == k@,
                None => !self.view().contains_key(k@),
            },
    {
        let mut i: usize = 0;
        while i < self.entries.len()
            invariant
                i <= self.entries.len(),
                forall|j: int| 0 <= j < i ==> self.entries[j].0@ != k@,
            decreases self.entries.len() - i,
        {
            if self.entries[i].0 == *k {
                return Some(i);
            }
            i = i + 1;
        }
        None
    }

    /// The recorded count of `k`, if any.
    pub fn get(&self, k: &String) -> (r: Option<u64>)
        requires
            self.wf(),
        ensures
            r is Some <==> self.view().contains_key(k@),
            r is Some ==> r->0 as nat == self.view()[k@],
    {
        match self.find(k) {
            Some(i) => Some(self.entries[i].1),
            None => None,
        }
    }

    /// Counts one more use of `k` and returns the new count.
    pub fn increment(&mut self, k: &String) -> (r: u64)
        requires
            old(self).wf(),
            count_of(old(self).view(), k@) < u64::MAX,
        ensures
            final(self).wf(),
            r as nat == count_of(old(self).view(), k@) + 1,
            final(self).view() == old(self).view().insert(k@, r as nat),
    {
        match self.find(k) {
            Some(i) => {
                let n = self.entries[i].1 + 1;
                let key = self.entries[i].0.clone();
                self.entries.set(i, (key, n));
                self.model = Ghost(self.model@.insert(k@, n as nat));
                assert forall|k2: Seq<char>| #[trigger] self.model@.contains_key(k2) implies exists|j: int|
                    0 <= j < self.entries.len() && #[trigger] self.entries[j].0@ == k2 by {
                    if k2 != k@ {
                        let j = choose|j: int| 0 <= j < old(self).entries.len() && #[trigger] old(self).entries[j].0@ == k2;
                        assert(self.entries[j].0@ == k2);
                    } else {
                        assert(self.entries[i as int].0@ == k2);
                    }
                }
                n
            },
            None => {
                self.entries.push((k.clone(), 1));
                self.model = Ghost(self.model@.insert(k@, 1));
                assert forall|k2: Seq<char>| #[trigger] self.model@.contains_key(k2) implies exists|j: int|
                    0 <= j < self.entries.len() && #[trigger] self.entries[j].0@ == k2 by {
                    if k2 != k@ {
                        let j = choose|j: int| 0 <= j < old(self).entries.len() && #[trigger] old(self).entries[j].0@ == k2;
                        assert(self.entries[j].0@ == k2);
                    } else {
                        assert(self.entries[self.entries.len() - 1].0@ == k2);
                    }
                }
                1
            },
        }
    }
}

} // verus!
