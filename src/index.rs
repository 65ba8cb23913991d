//! The in-memory index: for each live key, where its latest `Set` record is.
use vstd::prelude::*;
use vstd::utf8::encode_utf8;

verus! {

/// `a` comes before `b` in byte-wise lexicographic order.
pub open spec fn bytes_lt(a: Seq<u8>, b: Seq<u8>) -> bool
    decreases a.len(),
{
    if a.len() == 0 {
        b.len() > 0
    } else if b.len() == 0 {
        false
    } else if a[0] != b[0] {
        a[0] < b[0]
    } else {
        bytes_lt(a.drop_first(), b.drop_first())
    }
}

/// Key `a` comes before key `b`: the order of their UTF-8 bytes.
pub open spec fn key_lt(a: Seq<char>, b: Seq<char>) -> bool {
    bytes_lt(encode_utf8(a), encode_utf8(b))
}

pub proof fn lemma_bytes_lt_irreflexive(a: Seq<u8>)
    ensures
        !bytes_lt(a, a),
    decreases a.len(),
{
    if a.len() > 0 {
        lemma_bytes_lt_irreflexive(a.drop_first());
    }
}

pub proof fn lemma_bytes_lt_total(a: Seq<u8>, b: Seq<u8>)
    ensures
        a != b ==> (bytes_lt(a, b) || bytes_lt(b, a)),
        !(bytes_lt(a, b) && bytes_lt(b, a)),
    decreases a.len(),
{
    if a.len() > 0 && b.len() > 0 && a[0] == b[0] {
        lemma_bytes_lt_total(a.drop_first(), b.drop_first());
        if a != b {
            assert(a =~= seq![a[0]] + a.drop_first());
            assert(b =~= seq![b[0]] + b.drop_first());
        }
    } else if a.len() == 0 && b.len() == 0 {
        assert(a =~= b);
    }
}

pub proof fn lemma_bytes_lt_transitive(a: Seq<u8>, b: Seq<u8>, c: Seq<u8>)
    requires
        bytes_lt(a, b),
        bytes_lt(b, c),
    ensures
        bytes_lt(a, c),
    decreases a.len(),
{
    if a.len() > 0 && b.len() > 0 && c.len() > 0 && a[0] == b[0] && b[0] == c[0] {
        lemma_bytes_lt_transitive(a.drop_first(), b.drop_first(), c.drop_first());
    }
}

pub proof fn lemma_key_order(a: Seq<char>, b: Seq<char>)
    ensures
        a != b ==> (key_lt(a, b) || key_lt(b, a)),
        !(key_lt(a, b) && key_lt(b, a)),
        !key_lt(a, a),
{
    vstd::utf8::encode_utf8_decode_utf8(a);
    vstd::utf8::encode_utf8_decode_utf8(b);
    lemma_bytes_lt_total(encode_utf8(a), encode_utf8(b));
    lemma_bytes_lt_irreflexive(encode_utf8(a));
}

/// Whether key `a` comes before key `b`.
pub fn key_less(a: &str, b: &str) -> (r: bool)
    ensures
        r == key_lt(a@, b@),
{
    let x = a.as_bytes();
    let y = b.as_bytes();
    let mut i: usize = 0;
    assert(x@.subrange(0, x@.len() as int) =~= x@);
    assert(y@.subrange(0, y@.len() as int) =~= y@);
    while i < x.len() && i < y.len() && x[i] == y[i]
        invariant
            x@ == encode_utf8(a@),
            y@ == encode_utf8(b@),
            i <= x@.len(),
            i <= y@.len(),
            bytes_lt(x@, y@) == bytes_lt(
                x@.subrange(i as int, x@.len() as int),
                y@.subrange(i as int, y@.len() as int),
            ),
        decreases x@.len() - i,
    {
        proof {
            let xs = x@.subrange(i as int, x@.len() as int);
            let ys = y@.subrange(i as int, y@.len() as int);
            assert(xs.drop_first() =~= x@.subrange(i + 1, x@.len() as int));
            assert(ys.drop_first() =~= y@.subrange(i + 1, y@.len() as int));
        }
        i = i + 1;
    }
    proof {
        let xs = x@.subrange(i as int, x@.len() as int);
        let ys = y@.subrange(i as int, y@.len() as int);
        if i < x@.len() && i < y@.len() {
            assert(xs[0] == x@[i as int] && ys[0] == y@[i as int]);
        }
    }
    if i == x.len() {
        i < y.len()
    } else if i == y.len() {
        false
    } else {
        x[i] < y[i]
    }
}

/// Where a record stands: segment id, byte offset and length.
#[derive(Clone, Copy, Debug, PartialEq, Eq)]
pub struct CommandPos {
    pub id: u64,
    pub pos: u64,
    pub len: u64,
}

impl CommandPos {
    /// The position of the bytes `start..end` of segment `id`.
    pub fn new(id: u64, start: u64, end: u64) -> (r: CommandPos)
        requires
            start <= end,
        ensures
            r == (CommandPos { id, pos: start, len: (end - start) as u64 }),
    {
        CommandPos { id, pos: start, len: end - start }
    }
}

pub struct IndexEntry {
    pub key: String,
    pub pos: CommandPos,
}

/// A map from key to position, held as entries with distinct keys.
pub struct Index {
    entries: Vec<IndexEntry>,
    map: Ghost<Map<Seq<char>, CommandPos>>,
}

impl View for Index {
    type V = Map<Seq<char>, CommandPos>;

    closed spec fn view(&self) -> Map<Seq<char>, CommandPos> {
        self.map@
    }
}

impl Index {
    pub closed spec fn wf(&self) -> bool {
        &&& forall|i: int, j: int|
            0 <= i < j < self.entries@.len() ==> key_lt(
                #[trigger] self.entries@[i].key@,
                #[trigger] self.entries@[j].key@,
            )
        &&& forall|i: int, j: int|
            0 <= i < self.entries@.len() && 0 <= j < self.entries@.len() && #[trigger] self.entries@[i].key@
                == #[trigger] self.entries@[j].key@ ==> i == j
        &&& forall|i: int|
            0 <= i < self.entries@.len() ==> #[trigger] self.map@.contains_key(self.entries@[i].key@)
                && self.map@[self.entries@[i].key@] == self.entries@[i].pos
        &&& forall|k: Seq<char>| #[trigger]
            self.map@.contains_key(k) ==> exists|i: int|
                0 <= i < self.entries@.len() && #[trigger] self.entries@[i].key@ == k
    }

    /// The keys in the order in which the index walks them.
    pub closed spec fn keys(&self) -> Seq<Seq<char>> {
        self.entries@.map_values(|e: IndexEntry| e.key@)
    }

    pub proof fn lemma_keys(&self)
        requires
            self.wf(),
        ensures
            self.keys().len() == self.len_spec(),
            forall|i: int| 0 <= i < self.keys().len() ==> self@.contains_key(#[trigger] self.keys()[i]),
            forall|k: Seq<char>| #[trigger] self@.contains_key(k) ==> self.keys().contains(k),
            self.keys().no_duplicates(),
            forall|i: int, j: int| 0 <= i < j < self.keys().len() ==> key_lt(#[trigger] self.keys()[i], #[trigger] self.keys()[j]),
    {
        assert forall|k: Seq<char>| #[trigger] self@.contains_key(k) implies self.keys().contains(k) by {
            let i = choose|i: int| 0 <= i < self.entries@.len() && #[trigger] self.entries@[i].key@ == k;
            assert(self.keys()[i] == k);
        }
        assert forall|i: int, j: int|
            0 <= i < self.keys().len() && 0 <= j < self.keys().len() && i != j implies self.keys()[i]
            != self.keys()[j] by {
            assert(self.keys()[i] == self.entries@[i].key@);
            assert(self.keys()[j] == self.entries@[j].key@);
        }
    }

    pub closed spec fn len_spec(&self) -> nat {
        self.entries@.len()
    }

    pub fn new() -> (r: Index)
        ensures
            r.wf(),
            r@ == Map::<Seq<char>, CommandPos>::empty(),
            r.keys() == Seq::<Seq<char>>::empty(),
    {
        let r = Index { entries: Vec::new(), map: Ghost(Map::empty()) };
        assert(r.keys() =~= Seq::<Seq<char>>::empty());
        r
    }

    pub fn len(&self) -> (r: usize)
        requires
            self.wf(),
        ensures
            r == self.len_spec(),
    {
        self.entries.len()
    }

    /// The key and position of the `i`-th entry in walking order.
    pub fn entry(&self, i: usize) -> (r: (&String, CommandPos))
        requires
            self.wf(),
            i < self.len_spec(),
        ensures
            r.0@ == self.keys()[i as int],
            self@.contains_key(r.0@),
            r.1 == self@[r.0@],
    {
        let e = &self.entries[i];
        assert(self.map@.contains_key(self.entries@[i as int].key@));
        (&e.key, e.pos)
    }

    fn find(&self, key: &String) -> (r: Option<usize>)
        requires
            self.wf(),
        ensures
            r matches Some(i) ==> i < self.entries@.len() && self.entries@[i as int].key@ == key@,
            r is None ==> !self@.contains_key(key@),
    {
        let mut i: usize = 0;
        while i < self.entries.len()
            invariant
                self.wf(),
                i <= self.entries@.len(),
                forall|j: int| 0 <= j < i ==> self.entries@[j].key@ != key@,
            decreases self.entries@.len() - i,
        {
            if self.entries[i].key.eq(key) {
                return Some(i);
            }
            i = i + 1;
        }
        None
    }

    /// The position recorded for `key`.
    pub fn get(&self, key: &String) -> (r: Option<CommandPos>)
        requires
            self.wf(),
        ensures
            r == self@.get(key@),
    {
        match self.find(key) {
            Some(i) => Some(self.entries[i].pos),
            None => None,
        }
    }

    /// Records `pos` for `key`, and returns the position it replaces.
    pub fn insert(&mut self, key: String, pos: CommandPos) -> (r: Option<CommandPos>)
        requires
            old(self).wf(),
        ensures
            final(self).wf(),
            r == old(self)@.get(key@),
            final(self)@ == old(self)@.insert(key@, pos),
            old(self)@.contains_key(key@) ==> final(self).keys() == old(self).keys(),
            !old(self)@.contains_key(key@) ==> exists|p: int|
                0 <= p <= old(self).keys().len() && final(self).keys() == old(self).keys().insert(p, key@),
            (!old(self)@.contains_key(key@) && forall|t: int|
                0 <= t < old(self).keys().len() ==> key_lt(#[trigger] old(self).keys()[t], key@))
                ==> final(self).keys() == old(self).keys().push(key@),
    {
        match self.find(&key) {
            Some(i) => {
                let old_pos = self.entries[i].pos;
                let ghost k = key@;
                self.entries.set(i, IndexEntry { key, pos });
                self.map = Ghost(self.map@.insert(k, pos));
                proof {
                    assert(self.keys() =~= old(self).keys());
                    assert forall|k2: Seq<char>| #[trigger]
                        self.map@.contains_key(k2) implies exists|j: int|
                        0 <= j < self.entries@.len() && #[trigger] self.entries@[j].key@ == k2 by {
                        if k2 != k {
                            let j = choose|j: int|
                                0 <= j < old(self).entries@.len() && #[trigger] old(
                                    self,
                                ).entries@[j].key@ == k2;
                            assert(self.entries@[j].key@ == k2);
                        } else {
                            assert(self.entries@[i as int].key@ == k2);
                        }
                    }
                }
                Some(old_pos)
            },
            None => {
                let ghost k = key@;
                let mut p: usize = 0;
                while p < self.entries.len() && key_less(self.entries[p].key.as_str(), key.as_str())
                    invariant
                        self.wf(),
                        *self == *old(self),
                        k == key@,
                        p <= self.entries@.len(),
                        forall|t: int| 0 <= t < p ==> key_lt(#[trigger] self.entries@[t].key@, k),
                    decreases self.entries@.len() - p,
                {
                    p = p + 1;
                }
                let ghost oe = self.entries@;
                proof {
                    if p < oe.len() {
                        assert(oe[p as int].key@ != k) by {
                            assert(self.map@.contains_key(oe[p as int].key@));
                        }
                        lemma_key_order(oe[p as int].key@, k);
                    }
                }
                self.entries.insert(p, IndexEntry { key, pos });
                self.map = Ghost(self.map@.insert(k, pos));
                proof {
                    let ne = self.entries@;
                    assert forall|t: int| 0 <= t < ne.len() implies #[trigger] ne[t] == if t < p {
                        oe[t]
                    } else if t == p {
                        IndexEntry { key: ne[p as int].key, pos }
                    } else {
                        oe[t - 1]
                    } by {}
                    assert(ne[p as int].key@ == k);
                    assert forall|a: int, b: int| 0 <= a < b < ne.len() implies key_lt(
                        #[trigger] ne[a].key@,
                        #[trigger] ne[b].key@,
                    ) by {
                        if a < p && b == p {
                        } else if a < p && b > p {
                            assert(key_lt(oe[a].key@, k));
                            if p < oe.len() {
                                assert(key_lt(k, oe[p as int].key@));
                                if b - 1 > p {
                                    assert(key_lt(oe[p as int].key@, oe[b - 1].key@));
                                    lemma_bytes_lt_transitive(encode_utf8(k), encode_utf8(oe[p as int].key@), encode_utf8(oe[b - 1].key@));
                                }
                                lemma_bytes_lt_transitive(encode_utf8(oe[a].key@), encode_utf8(k), encode_utf8(oe[b - 1].key@));
                            }
                        } else if a == p {
                            assert(key_lt(k, oe[p as int].key@));
                            if b - 1 > p {
                                assert(key_lt(oe[p as int].key@, oe[b - 1].key@));
                                lemma_bytes_lt_transitive(encode_utf8(k), encode_utf8(oe[p as int].key@), encode_utf8(oe[b - 1].key@));
                            }
                        } else if a > p {
                            assert(key_lt(oe[a - 1].key@, oe[b - 1].key@));
                        } else {
                            assert(key_lt(oe[a].key@, oe[b].key@));
                        }
                    }
                    assert forall|a: int, b: int|
                        0 <= a < ne.len() && 0 <= b < ne.len() && #[trigger] ne[a].key@ == #[trigger] ne[b].key@ implies a
                        == b by {
                        if a < b {
                            lemma_key_order(ne[a].key@, ne[b].key@);
                        } else if b < a {
                            lemma_key_order(ne[b].key@, ne[a].key@);
                        }
                    }
                    assert forall|a: int| 0 <= a < ne.len() implies #[trigger] self.map@.contains_key(ne[a].key@)
                        && self.map@[ne[a].key@] == ne[a].pos by {
                        if a != p {
                            let a2 = if a < p { a } else { a - 1 };
                            assert(ne[a] == oe[a2]);
                            assert(old(self).map@.contains_key(oe[a2].key@));
                        }
                    }
                    assert forall|k2: Seq<char>| #[trigger]
                        self.map@.contains_key(k2) implies exists|j: int|
                        0 <= j < ne.len() && #[trigger] ne[j].key@ == k2 by {
                        if k2 != k {
                            let j = choose|j: int| 0 <= j < oe.len() && #[trigger] oe[j].key@ == k2;
                            if j < p {
                                assert(ne[j].key@ == k2);
                            } else {
                                assert(ne[j + 1].key@ == k2);
                            }
                        } else {
                            assert(ne[p as int].key@ == k2);
                        }
                    }
                    assert(self.keys() =~= old(self).keys().insert(p as int, k));
                    if forall|t: int| 0 <= t < old(self).keys().len() ==> key_lt(#[trigger] old(self).keys()[t], k) {
                        if p < oe.len() {
                            assert(key_lt(old(self).keys()[p as int], k));
                            lemma_key_order(old(self).keys()[p as int], k);
                        }
                        assert(old(self).keys().insert(p as int, k) =~= old(self).keys().push(k));
                    }
                }
                None
            },
        }
    }

    /// Drops `key`, and returns the position it had.
    pub fn remove(&mut self, key: &String) -> (r: Option<CommandPos>)
        requires
            old(self).wf(),
        ensures
            final(self).wf(),
            r == old(self)@.get(key@),
            final(self)@ == old(self)@.remove(key@),
    {
        match self.find(key) {
            Some(i) => {
                let e = self.entries.remove(i);
                self.map = Ghost(self.map@.remove(key@));
                proof {
                    let oe = old(self).entries@;
                    assert forall|a: int| 0 <= a < self.entries@.len() implies #[trigger] self.entries@[a]
                        == if a < i {
                        oe[a]
                    } else {
                        oe[a + 1]
                    } by {}
                    assert forall|a: int, b: int|
                        0 <= a < self.entries@.len() && 0 <= b < self.entries@.len()
                            && #[trigger] self.entries@[a].key@ == #[trigger] self.entries@[b].key@ implies a
                        == b by {
                        let a2 = if a < i {
                            a
                        } else {
                            a + 1
                        };
                        let b2 = if b < i {
                            b
                        } else {
                            b + 1
                        };
                        assert(oe[a2].key@ == oe[b2].key@);
                    }
                    assert forall|a: int| 0 <= a < self.entries@.len() implies #[trigger] self.map@.contains_key(
                        self.entries@[a].key@,
                    ) && self.map@[self.entries@[a].key@] == self.entries@[a].pos by {
                        let a2 = if a < i {
                            a
                        } else {
                            a + 1
                        };
                        assert(self.entries@[a] == oe[a2]);
                        assert(oe[i as int].key@ == key@);
                        if oe[a2].key@ == oe[i as int].key@ {
                            assert(a2 == i);
                        }
                        assert(old(self).map@.contains_key(oe[a2].key@));
                    }
                    assert forall|k2: Seq<char>| #[trigger]
                        self.map@.contains_key(k2) implies exists|j: int|
                        0 <= j < self.entries@.len() && #[trigger] self.entries@[j].key@ == k2 by {
                        let j = choose|j: int| 0 <= j < oe.len() && #[trigger] oe[j].key@ == k2;
                        assert(j != i);
                        if j < i {
                            assert(self.entries@[j].key@ == k2);
                        } else {
                            assert(self.entries@[j - 1].key@ == k2);
                        }
                    }
                }
                Some(e.pos)
            },
            None => {
                proof {
                    assert(self.map@.remove(key@) =~= self.map@);
                }
                None
            },
        }
    }
}

} // verus!
