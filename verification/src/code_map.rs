use vstd::prelude::*;

use crate::commons::Code;

verus! {

/// An association from codes to values, kept as a vector of pairs whose
/// keys are pairwise distinct. Lookup walks the vector, which keeps the
/// structure simple enough to reason about as a `Map` from code views to
/// values.
pub struct CodeMap<T> {
    entries: Vec<(Code, T)>,
}

/// The map denoted by a sequence of entries; later entries win, though with
/// distinct keys the order never matters.
pub open spec fn entries_map<T>(s: Seq<(Code, T)>) -> Map<Seq<char>, T>
    decreases s.len(),
{
    if s.len() == 0 {
        Map::empty()
    } else {
        entries_map(s.drop_last()).insert(s.last().0@, s.last().1)
    }
}

/// Pairwise distinct keys.
pub open spec fn distinct_keys<T>(s: Seq<(Code, T)>) -> bool {
    forall|i: int, j: int| 0 <= i < j < s.len() ==> s[i].0@ != s[j].0@
}

proof fn lemma_entries_map_contains<T>(s: Seq<(Code, T)>, k: Seq<char>)
    ensures
        entries_map(s).contains_key(k) <==> exists|i: int| 0 <= i < s.len() && s[i].0@ == k,
    decreases s.len(),
{
    if s.len() > 0 {
        lemma_entries_map_contains(s.drop_last(), k);
        if s.last().0@ == k {
            assert(s[s.len() - 1].0@ == k);
        } else {
            if entries_map(s).contains_key(k) {
                let i = choose|i: int| 0 <= i < s.drop_last().len() && s.drop_last()[i].0@ == k;
                assert(s[i].0@ == k);
            }
            if exists|i: int| 0 <= i < s.len() && s[i].0@ == k {
                let i = choose|i: int| 0 <= i < s.len() && s[i].0@ == k;
                assert(i < s.len() - 1);
                assert(s.drop_last()[i].0@ == k);
            }
        }
    }
}

proof fn lemma_entries_map_finite<T>(s: Seq<(Code, T)>)
    ensures
        entries_map(s).dom().finite(),
    decreases s.len(),
{
    if s.len() > 0 {
        lemma_entries_map_finite(s.drop_last());
    }
}

proof fn lemma_entries_map_index<T>(s: Seq<(Code, T)>, i: int)
    requires
        distinct_keys(s),
        0 <= i < s.len(),
    ensures
        entries_map(s).contains_key(s[i].0@),
        entries_map(s)[s[i].0@] == s[i].1,
    decreases s.len(),
{
    if i < s.len() - 1 {
        assert(distinct_keys(s.drop_last()));
        lemma_entries_map_index(s.drop_last(), i);
        assert(s.drop_last()[i] == s[i]);
        assert(s[i].0@ != s.last().0@);
    }
}

proof fn lemma_entries_map_update<T>(s: Seq<(Code, T)>, i: int, p: (Code, T))
    requires
        distinct_keys(s),
        0 <= i < s.len(),
        p.0@ == s[i].0@,
    ensures
        entries_map(s.update(i, p)) == entries_map(s).insert(p.0@, p.1),
    decreases s.len(),
{
    let su = s.update(i, p);
    if i == s.len() - 1 {
        assert(su.drop_last() =~= s.drop_last());
        assert(su.last() == p);
        assert(entries_map(su) =~= entries_map(s).insert(p.0@, p.1));
    } else {
        assert(distinct_keys(s.drop_last()));
        assert(su.drop_last() =~= s.drop_last().update(i, p));
        assert(su.last() == s.last());
        lemma_entries_map_update(s.drop_last(), i, p);
        assert(s[i].0@ != s.last().0@);
        assert(entries_map(su) =~= entries_map(s).insert(p.0@, p.1));
    }
}

proof fn lemma_entries_map_push<T>(s: Seq<(Code, T)>, p: (Code, T))
    ensures
        entries_map(s.push(p)) == entries_map(s).insert(p.0@, p.1),
{
    assert(s.push(p).drop_last() =~= s);
    assert(s.push(p).last() == p);
}

impl<T> View for CodeMap<T> {
    type V = Map<Seq<char>, T>;

    closed spec fn view(&self) -> Map<Seq<char>, T> {
        entries_map(self.entries@)
    }
}

impl<T> CodeMap<T> {
    /// The underlying entry sequence, in insertion order.
    pub closed spec fn seq_view(&self) -> Seq<(Code, T)> {
        self.entries@
    }

    pub open spec fn wf(&self) -> bool {
        distinct_keys(self.seq_view())
    }

    pub proof fn lemma_contains(&self, k: Seq<char>)
        ensures
            self@.contains_key(k) <==> exists|i: int|
                0 <= i < self.seq_view().len() && self.seq_view()[i].0@ == k,
    {
        lemma_entries_map_contains(self.entries@, k);
        if self@.contains_key(k) {
            let i = choose|i: int| 0 <= i < self.entries@.len() && self.entries@[i].0@ == k;
            assert(self.seq_view()[i].0@ == k);
        }
        if exists|i: int| 0 <= i < self.seq_view().len() && self.seq_view()[i].0@ == k {
            let i = choose|i: int| 0 <= i < self.seq_view().len() && self.seq_view()[i].0@ == k;
            assert(self.entries@[i].0@ == k);
        }
    }

    pub proof fn lemma_index(&self, i: int)
        requires
            self.wf(),
            0 <= i < self.seq_view().len(),
        ensures
            self@.contains_key(self.seq_view()[i].0@),
            self@[self.seq_view()[i].0@] == self.seq_view()[i].1,
    {
        lemma_entries_map_index(self.entries@, i);
    }

    pub proof fn lemma_dom_finite(&self)
        ensures
            self@.dom().finite(),
    {
        lemma_entries_map_finite(self.entries@);
    }

    pub fn new() -> (r: CodeMap<T>)
        ensures
            r@ == Map::<Seq<char>, T>::empty(),
            r.seq_view() == Seq::<(Code, T)>::empty(),
            r.wf(),
    {
        CodeMap { entries: Vec::new() }
    }

    pub fn len(&self) -> (r: usize)
        ensures
            r == self.seq_view().len(),
    {
        self.entries.len()
    }

    pub fn entry_at(&self, i: usize) -> (r: &(Code, T))
        requires
            i < self.seq_view().len(),
        ensures
            *r == self.seq_view()[i as int],
    {
        &self.entries[i]
    }

    /// Index of the entry holding key `k`, if any.
    fn position(&self, k: &Code) -> (r: Option<usize>)
        ensures
            match r {
                Some(i) => i < self.seq_view().len() && self.seq_view()[i as int].0@ == k@,
                None => forall|i: int|
                    0 <= i < self.seq_view().len() ==> self.seq_view()[i].0@ != k@,
            },
    {
        let n = self.entries.len();
        let mut i: usize = 0;
        while i < n
            invariant
                n == self.seq_view().len(),
                i <= n,
                forall|j: int| 0 <= j < i ==> self.seq_view()[j].0@ != k@,
            decreases n - i,
        {
            if self.entries[i].0.0 == k.0 {
                return Some(i);
            }
            i = i + 1;
        }
        None
    }

    pub fn contains(&self, k: &Code) -> (r: bool)
        ensures
            r == self@.contains_key(k@),
    {
        proof {
            self.lemma_contains(k@);
        }
        self.position(k).is_some()
    }

    pub fn get(&self, k: &Code) -> (r: Option<&T>)
        requires
            self.wf(),
        ensures
            match r {
                Some(v) => self@.contains_key(k@) && *v == self@[k@],
                None => !self@.contains_key(k@),
            },
    {
        proof {
            self.lemma_contains(k@);
        }
        match self.position(k) {
            Some(i) => {
                proof {
                    self.lemma_index(i as int);
                }
                Some(&self.entries[i].1)
            },
            None => None,
        }
    }

    /// Insert or overwrite the value held under `k`.
    pub fn insert(&mut self, k: Code, v: T)
        requires
            old(self).wf(),
        ensures
            final(self).wf(),
            final(self)@ == old(self)@.insert(k@, v),
            final(self)@.dom() == old(self)@.dom().insert(k@),
            old(self)@.contains_key(k@)
                ==> final(self).seq_view().len() == old(self).seq_view().len(),
            !old(self)@.contains_key(k@)
                ==> final(self).seq_view() == old(self).seq_view().push((k, v)),
            forall|i: int|
                0 <= i < old(self).seq_view().len() && old(self).seq_view()[i].0@ != k@
                    ==> final(self).seq_view()[i] == old(self).seq_view()[i],
            forall|i: int|
                0 <= i < final(self).seq_view().len()
                    ==> final(self).seq_view()[i].0@ == old(self).seq_view()[i].0@
                    || (i == final(self).seq_view().len() - 1
                    && final(self).seq_view()[i].0@ == k@),
    {
        proof {
            self.lemma_contains(k@);
        }
        match self.position(&k) {
            Some(i) => {
                proof {
                    lemma_entries_map_update(self.entries@, i as int, (k, v));
                }
                let ghost old_entries = self.entries@;
                self.entries[i] = (k, v);
                proof {
                    assert(self.entries@ =~= old_entries.update(i as int, self.entries@[i as int]));
                    assert(self@.dom() =~= old(self)@.dom().insert(self.entries@[i as int].0@));
                }
            },
            None => {
                proof {
                    lemma_entries_map_push(self.entries@, (k, v));
                }
                self.entries.push((k, v));
                proof {
                    assert(self@.dom() =~= old(self)@.dom().insert(
                        self.entries@.last().0@,
                    ));
                }
            },
        }
    }
}

} // verus!
