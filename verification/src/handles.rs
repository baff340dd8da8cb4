//! Image handles looked up by name.
use vstd::prelude::*;

verus! {

/// Image handles (by their key) looked up by name; each name is stored once.
pub struct Name2Handle {
    data: Vec<(String, u64)>,
}

/// The names of the entries.
pub open spec fn names(d: Seq<(String, u64)>) -> Seq<Seq<char>> {
    d.map_values(|e: (String, u64)| e.0@)
}

/// The name-to-handle map of the entries.
pub open spec fn entries_map(d: Seq<(String, u64)>) -> Map<Seq<char>, u64>
    decreases d.len(),
{
    if d.len() == 0 {
        Map::empty()
    } else {
        entries_map(d.drop_last()).insert(d.last().0@, d.last().1)
    }
}

impl Name2Handle {
    /// The name-to-handle map.
    pub closed spec fn view_map(&self) -> Map<Seq<char>, u64> {
        entries_map(self.data@)
    }

    /// No name is stored twice.
    pub closed spec fn wf(&self) -> bool {
        names(self.data@).no_duplicates()
    }

    /// An empty lookup.
    pub fn new() -> (r: Self)
        ensures
            r.wf(),
            r.view_map() == Map::<Seq<char>, u64>::empty(),
    {
        let r = Name2Handle { data: Vec::new() };
        proof {
            assert(names(r.data@) =~= Seq::<Seq<char>>::empty());
        }
        r
    }

    /// Where name `k` is stored, if it is.
    fn find(&self, k: &String) -> (r: Option<usize>)
        requires
            self.wf(),
        ensures
            r matches Option::Some(i) ==> i < self.data@.len() && self.data@[i as int].0@ == k@,
            r is None ==> !self.view_map().contains_key(k@),
            r is None ==> forall|i: int| 0 <= i < self.data@.len() ==> self.data@[i].0@ != k@,
    {
        let mut i: usize = 0;
        while i < self.data.len()
            invariant
                i <= self.data@.len(),
                forall|j: int| 0 <= j < i ==> self.data@[j].0@ != k@,
            decreases self.data@.len() - i,
        {
            if self.data[i].0 == *k {
                return Some(i);
            }
            i = i + 1;
        }
        proof { lemma_absent(self.data@, k@); }
        None
    }

    /// Stores handle `v` under name `k`, replacing what was stored under it.
    pub fn insert(&mut self, k: String, v: u64)
        requires
            old(self).wf(),
        ensures
            final(self).wf(),
            final(self).view_map() == old(self).view_map().insert(k@, v),
    {
        match self.find(&k) {
            Some(i) => {
                let ghost d = self.data@;
                proof { lemma_replace(d, i as int, k@, v); }
                let ghost kk = k;
                self.data.set(i, (k, v));
                proof {
                    assert(self.data@ == d.update(i as int, (kk, v)));
                }
            },
            None => {
                let ghost d = self.data@;
                let ghost kv = k@;
                self.data.push((k, v));
                proof {
                    assert(self.data@.drop_last() =~= d);
                    assert(names(self.data@) =~= names(d).push(kv));
                    assert forall|a: int, b: int| 0 <= a < b < names(self.data@).len()
                        implies names(self.data@)[a] != names(self.data@)[b] by {
                        if b == names(d).len() {
                            assert(d[a].0@ != kv);
                        }
                    }
                }
            },
        }
    }

    /// The handle stored under name `k`, if any.
    pub fn get(&self, k: &str) -> (r: Option<&u64>)
        requires
            self.wf(),
        ensures
            r matches Option::Some(v) ==> self.view_map().contains_key(k@) && *v == self.view_map()[k@],
            r is None ==> !self.view_map().contains_key(k@),
    {
        let key = k.to_owned();
        match self.find(&key) {
            Some(i) => {
                proof { lemma_found(self.data@, i as int); }
                Some(&self.data[i].1)
            },
            None => None,
        }
    }
}

/// A name stored nowhere is not in the map.
proof fn lemma_absent(d: Seq<(String, u64)>, k: Seq<char>)
    requires
        forall|j: int| 0 <= j < d.len() ==> d[j].0@ != k,
    ensures
        !entries_map(d).contains_key(k),
    decreases d.len(),
{
    if d.len() > 0 {
        lemma_absent(d.drop_last(), k);
    }
}

/// With no name stored twice, the entry at `i` is what the map gives for its name.
proof fn lemma_found(d: Seq<(String, u64)>, i: int)
    requires
        names(d).no_duplicates(),
        0 <= i < d.len(),
    ensures
        entries_map(d).contains_key(d[i].0@),
        entries_map(d)[d[i].0@] == d[i].1,
    decreases d.len(),
{
    if i < d.len() - 1 {
        assert(names(d.drop_last()) =~= names(d).drop_last());
        assert(names(d)[i] != names(d)[d.len() - 1]);
        lemma_found(d.drop_last(), i);
    }
}

/// Replacing the entry at `i` by one with the same name replaces that name's handle.
proof fn lemma_replace(d: Seq<(String, u64)>, i: int, k: Seq<char>, v: u64)
    requires
        names(d).no_duplicates(),
        0 <= i < d.len(),
        d[i].0@ == k,
    ensures
        forall|s: String| #[trigger] s@ == k ==> {
            &&& entries_map(d.update(i, (s, v))) == entries_map(d).insert(k, v)
            &&& names(d.update(i, (s, v))) == names(d)
        },
    decreases d.len(),
{
    assert forall|s: String| #[trigger] s@ == k implies {
        &&& entries_map(d.update(i, (s, v))) == entries_map(d).insert(k, v)
        &&& names(d.update(i, (s, v))) == names(d)
    } by {
        let d2 = d.update(i, (s, v));
        assert(names(d2) =~= names(d));
        if i == d.len() - 1 {
            assert(d2.drop_last() =~= d.drop_last());
            assert(entries_map(d2) =~= entries_map(d).insert(k, v));
        } else {
            assert(names(d.drop_last()) =~= names(d).drop_last());
            assert(names(d)[i] != names(d)[d.len() - 1]);
            lemma_replace(d.drop_last(), i, k, v);
            assert(d2.drop_last() =~= d.drop_last().update(i, (s, v)));
            assert(entries_map(d2) =~= entries_map(d).insert(k, v));
        }
    }
}

/// After storing `v` under `k`, looking `k` up gives `v`, and other names are unchanged.
pub proof fn lemma_insert_then_get(m: Map<Seq<char>, u64>, k: Seq<char>, v: u64, other: Seq<char>)
    requires
        other != k,
    ensures
        m.insert(k, v).contains_key(k),
        m.insert(k, v)[k] == v,
        m.insert(k, v).contains_key(other) == m.contains_key(other),
        m.contains_key(other) ==> m.insert(k, v)[other] == m[other],
{
}

} // verus!
