//! The in-memory key directory.
//!
//! For each live key it holds one [`Header`]: the location of the most
//! recent value written for that key. The directory is modelled as a map
//! from key bytes to headers.
use vstd::prelude::*;

verus! {

/// The location of one value on disk: which file holds it, where the value
/// bytes start, how long they are, and when they were written.
#[derive(Clone, Copy, PartialEq, Eq, Structural, Debug)]
pub struct Header {
    /// Identifier of the data file holding the value.
    pub file_id: u64,
    /// Length of the value in bytes.
    pub val_size: u32,
    /// Byte offset of the first value byte within the file.
    pub val_offset: u32,
    /// Write time, in seconds since the Unix epoch.
    pub ts_tamp: u32,
}

/// The map described by an association list, later pairs shadowing earlier
/// ones.
pub open spec fn m_of(s: Seq<(Vec<u8>, Header)>) -> Map<Seq<u8>, Header>
    decreases s.len(),
{
    if s.len() == 0 {
        Map::empty()
    } else {
        m_of(s.drop_last()).insert(s.last().0@, s.last().1)
    }
}

/// No two pairs of the list carry the same key.
pub open spec fn keys_distinct(s: Seq<(Vec<u8>, Header)>) -> bool {
    forall|i: int, j: int| 0 <= i < j < s.len() ==> (#[trigger] s[i]).0@ != (#[trigger] s[j]).0@
}

/// The key directory: a mapping from key bytes to the header of the most
/// recent write for that key.
pub struct KeyDir {
    entries: Vec<(Vec<u8>, Header)>,
}

impl View for KeyDir {
    type V = Map<Seq<u8>, Header>;

    closed spec fn view(&self) -> Map<Seq<u8>, Header> {
        m_of(self.entries@)
    }
}

proof fn lemma_m_of_index(s: Seq<(Vec<u8>, Header)>, i: int)
    requires
        keys_distinct(s),
        0 <= i < s.len(),
    ensures
        m_of(s).contains_key(s[i].0@),
        m_of(s)[s[i].0@] == s[i].1,
    decreases s.len(),
{
    if i < s.len() - 1 {
        lemma_m_of_index(s.drop_last(), i);
        assert(s.drop_last()[i] == s[i]);
        assert(s.last().0@ != s[i].0@);
    }
}

proof fn lemma_m_of_absent(s: Seq<(Vec<u8>, Header)>, k: Seq<u8>)
    requires
        forall|i: int| 0 <= i < s.len() ==> (#[trigger] s[i]).0@ != k,
    ensures
        !m_of(s).contains_key(k),
    decreases s.len(),
{
    if s.len() > 0 {
        lemma_m_of_absent(s.drop_last(), k);
    }
}

proof fn lemma_m_of_update(s: Seq<(Vec<u8>, Header)>, i: int, e: (Vec<u8>, Header))
    requires
        keys_distinct(s),
        0 <= i < s.len(),
        s[i].0@ == e.0@,
    ensures
        m_of(s.update(i, e)) == m_of(s).insert(e.0@, e.1),
        keys_distinct(s.update(i, e)),
    decreases s.len(),
{
    let s2 = s.update(i, e);
    if i == s.len() - 1 {
        assert(s2.drop_last() =~= s.drop_last());
        assert(s2.last() == e);
        assert(m_of(s2) =~= m_of(s).insert(e.0@, e.1));
    } else {
        lemma_m_of_update(s.drop_last(), i, e);
        assert(s2.drop_last() =~= s.drop_last().update(i, e));
        assert(s2.last() == s.last());
        assert(s.last().0@ != e.0@);
        assert(m_of(s2) =~= m_of(s).insert(e.0@, e.1));
    }
}

proof fn lemma_m_of_remove(s: Seq<(Vec<u8>, Header)>, i: int)
    requires
        keys_distinct(s),
        0 <= i < s.len(),
    ensures
        m_of(s.remove(i)) == m_of(s).remove(s[i].0@),
        keys_distinct(s.remove(i)),
    decreases s.len(),
{
    let s2 = s.remove(i);
    let k = s[i].0@;
    if i == s.len() - 1 {
        assert(s2 =~= s.drop_last());
        assert(forall|j: int| 0 <= j < s2.len() ==> (#[trigger] s2[j]).0@ != k);
        lemma_m_of_absent(s2, k);
        assert(m_of(s2) =~= m_of(s).remove(k));
    } else {
        lemma_m_of_remove(s.drop_last(), i);
        assert(s2.drop_last() =~= s.drop_last().remove(i));
        assert(s2.last() == s.last());
        assert(s.drop_last()[i] == s[i]);
        assert(s.last().0@ != k);
        assert(m_of(s2) =~= m_of(s).remove(k));
        assert(forall|a: int, b: int|
            0 <= a < b < s2.len() ==> (#[trigger] s2[a]).0@ != (#[trigger] s2[b]).0@);
    }
}

/// Whether two byte slices hold the same bytes.
pub fn bytes_eq(a: &[u8], b: &[u8]) -> (r: bool)
    ensures
        r == (a@ == b@),
{
    if a.len() != b.len() {
        proof {
            assert(a@.len() != b@.len());
        }
        return false;
    }
    let n = a.len();
    let mut i: usize = 0;
    while i < n
        invariant
            n == a@.len() == b@.len(),
            0 <= i <= n,
            forall|j: int| 0 <= j < i ==> a@[j] == b@[j],
        decreases n - i,
    {
        if *vstd::slice::slice_index_get(a, i) != *vstd::slice::slice_index_get(b, i) {
            proof {
                assert(a@[i as int] != b@[i as int]);
            }
            return false;
        }
        i += 1;
    }
    proof {
        assert(a@ =~= b@);
    }
    true
}

impl KeyDir {
    /// The directory's internal list never holds two entries for one key.
    pub closed spec fn wf(self) -> bool {
        keys_distinct(self.entries@)
    }

    /// An empty directory.
    pub fn new() -> (r: KeyDir)
        ensures
            r.wf(),
            r@ == Map::<Seq<u8>, Header>::empty(),
    {
        KeyDir { entries: Vec::new() }
    }

    fn find(&self, key: &[u8]) -> (r: Option<usize>)
        ensures
            match r {
                Some(i) => i < self.entries@.len() && self.entries@[i as int].0@ == key@,
                None => forall|j: int|
                    0 <= j < self.entries@.len() ==> (#[trigger] self.entries@[j]).0@ != key@,
            },
    {
        let n = self.entries.len();
        let mut i: usize = 0;
        while i < n
            invariant
                n == self.entries@.len(),
                0 <= i <= n,
                forall|j: int| 0 <= j < i ==> (#[trigger] self.entries@[j]).0@ != key@,
            decreases n - i,
        {
            let pair = &self.entries[i];
            if bytes_eq(pair.0.as_slice(), key) {
                return Some(i);
            }
            i += 1;
        }
        None
    }

    /// Looks up the header recorded for `key`.
    pub fn get(&self, key: &[u8]) -> (r: Option<&Header>)
        requires
            self.wf(),
        ensures
            match r {
                Some(h) => self@.contains_key(key@) && *h == self@[key@],
                None => !self@.contains_key(key@),
            },
    {
        match self.find(key) {
            Some(i) => {
                proof {
                    lemma_m_of_index(self.entries@, i as int);
                }
                let pair = &self.entries[i];
                Some(&pair.1)
            },
            None => {
                proof {
                    lemma_m_of_absent(self.entries@, key@);
                }
                None
            },
        }
    }

    /// Records `header` for `key`, overwriting any prior entry.
    pub fn insert(&mut self, key: Vec<u8>, header: Header)
        requires
            old(self).wf(),
        ensures
            final(self).wf(),
            final(self)@ == old(self)@.insert(key@, header),
    {
        let ghost s = self.entries@;
        match self.find(key.as_slice()) {
            Some(i) => {
                proof {
                    lemma_m_of_update(s, i as int, (key, header));
                }
                self.entries[i] = (key, header);
            },
            None => {
                self.entries.push((key, header));
                proof {
                    assert(self.entries@.drop_last() =~= s);
                    assert(forall|a: int, b: int|
                        0 <= a < b < self.entries@.len() ==> (#[trigger] self.entries@[a]).0@ != (
                        #[trigger] self.entries@[b]).0@);
                }
            },
        }
    }

    /// Forgets any entry recorded for `key`.
    pub fn remove(&mut self, key: &[u8])
        requires
            old(self).wf(),
        ensures
            final(self).wf(),
            final(self)@ == old(self)@.remove(key@),
    {
        let ghost s = self.entries@;
        match self.find(key) {
            Some(i) => {
                proof {
                    lemma_m_of_remove(s, i as int);
                }
                self.entries.remove(i);
            },
            None => {
                proof {
                    lemma_m_of_absent(s, key@);
                    assert(m_of(s).remove(key@) =~= m_of(s));
                }
            },
        }
    }
}

} // verus!
