//! Ordered field-name-to-canonical-string metadata of one entry. Keys are
//! unique; insertion order is preserved, and re-inserting an existing key
//! updates its value in place without moving the key.

use vstd::prelude::*;

verus! {

/// The position of the first pair whose key is `k`, or `ps.len()` if no pair
/// has that key.
pub open spec fn key_index(ps: Seq<(Seq<char>, Seq<char>)>, k: Seq<char>) -> int
    decreases ps.len(),
{
    if ps.len() == 0 {
        0
    } else if ps[0].0 == k {
        0
    } else {
        1 + key_index(ps.drop_first(), k)
    }
}

pub open spec fn has_key(ps: Seq<(Seq<char>, Seq<char>)>, k: Seq<char>) -> bool {
    key_index(ps, k) < ps.len()
}

/// The value bound to `k`, if any.
pub open spec fn lookup(ps: Seq<(Seq<char>, Seq<char>)>, k: Seq<char>) -> Option<Seq<char>> {
    if has_key(ps, k) {
        Some(ps[key_index(ps, k)].1)
    } else {
        None
    }
}

/// Binding `k` to `v`: an existing key keeps its first-seen position and only
/// its value changes; a new key is appended.
pub open spec fn insert_pairs(
    ps: Seq<(Seq<char>, Seq<char>)>,
    k: Seq<char>,
    v: Seq<char>,
) -> Seq<(Seq<char>, Seq<char>)> {
    if has_key(ps, k) {
        ps.update(key_index(ps, k), (k, v))
    } else {
        ps.push((k, v))
    }
}

/// Keys are pairwise distinct.
pub open spec fn wf_pairs(ps: Seq<(Seq<char>, Seq<char>)>) -> bool {
    forall|i: int, j: int| 0 <= i < j < ps.len() ==> ps[i].0 != ps[j].0
}

pub proof fn lemma_key_index_props(ps: Seq<(Seq<char>, Seq<char>)>, k: Seq<char>)
    ensures
        0 <= key_index(ps, k) <= ps.len(),
        key_index(ps, k) < ps.len() ==> ps[key_index(ps, k)].0 == k,
        forall|i: int| 0 <= i < key_index(ps, k) ==> ps[i].0 != k,
    decreases ps.len(),
{
    if ps.len() == 0 {
    } else if ps[0].0 == k {
    } else {
        lemma_key_index_props(ps.drop_first(), k);
        let ki = key_index(ps.drop_first(), k);
        if ki < ps.drop_first().len() {
            assert(ps.drop_first()[ki] == ps[1 + ki]);
        }
        assert forall|i: int| 0 <= i < key_index(ps, k) implies ps[i].0 != k by {
            if i > 0 {
                assert(ps.drop_first()[i - 1] == ps[i]);
            }
        }
    }
}

/// `key_index` is exactly the first position holding `k`.
pub proof fn lemma_key_index_first(ps: Seq<(Seq<char>, Seq<char>)>, k: Seq<char>, i: int)
    requires
        0 <= i < ps.len(),
        ps[i].0 == k,
        forall|j: int| 0 <= j < i ==> ps[j].0 != k,
    ensures
        key_index(ps, k) == i,
{
    lemma_key_index_props(ps, k);
    if key_index(ps, k) < i {
    } else if key_index(ps, k) > i {
    }
}

/// Inserting preserves key uniqueness.
pub proof fn lemma_insert_wf(ps: Seq<(Seq<char>, Seq<char>)>, k: Seq<char>, v: Seq<char>)
    requires
        wf_pairs(ps),
    ensures
        wf_pairs(insert_pairs(ps, k, v)),
{
    lemma_key_index_props(ps, k);
    let qs = insert_pairs(ps, k, v);
    if has_key(ps, k) {
        assert forall|i: int, j: int| 0 <= i < j < qs.len() implies qs[i].0 != qs[j].0 by {
            assert(ps[i].0 != ps[j].0);
        }
    } else {
        assert forall|i: int, j: int| 0 <= i < j < qs.len() implies qs[i].0 != qs[j].0 by {
            if j < ps.len() {
                assert(ps[i].0 != ps[j].0);
            } else {
                assert(qs[i].0 == ps[i].0 && qs[j].0 == k);
            }
        }
    }
}

/// Compares two string slices character by character.
pub fn str_eq(a: &str, b: &str) -> (r: bool)
    ensures
        r == (a@ == b@),
{
    let la = a.unicode_len();
    let lb = b.unicode_len();
    if la != lb {
        proof {
            assert(a@ != b@) by {
                assert(a@.len() != b@.len());
            }
        }
        return false;
    }
    let mut i: usize = 0;
    while i < la
        invariant
            la == a@.len(),
            la == b@.len(),
            i <= la,
            forall|j: int| 0 <= j < i ==> a@[j] == b@[j],
        decreases la - i,
    {
        if a.get_char(i) != b.get_char(i) {
            proof {
                assert(a@[i as int] != b@[i as int]);
            }
            return false;
        }
        i = i + 1;
    }
    proof {
        assert(a@ =~= b@);
    }
    true
}

/// An ordered mapping from field name to canonical string value, insertion
/// order preserved from the source document.
pub struct EntryMetadata {
    pairs: Vec<(String, String)>,
}

impl View for EntryMetadata {
    type V = Seq<(Seq<char>, Seq<char>)>;

    closed spec fn view(&self) -> Seq<(Seq<char>, Seq<char>)> {
        Seq::new(self.pairs@.len(), |i: int| (self.pairs@[i].0@, self.pairs@[i].1@))
    }
}

impl EntryMetadata {
    /// Keys are pairwise distinct.
    pub open spec fn wf(&self) -> bool {
        wf_pairs(self@)
    }

    pub fn new() -> (r: EntryMetadata)
        ensures
            r@ =~= Seq::<(Seq<char>, Seq<char>)>::empty(),
            r.wf(),
    {
        EntryMetadata { pairs: Vec::new() }
    }

    pub fn len(&self) -> (n: usize)
        ensures
            n == self@.len(),
    {
        self.pairs.len()
    }

    /// The pair at position `i`, in insertion order.
    pub fn pair(&self, i: usize) -> (p: &(String, String))
        requires
            i < self@.len(),
        ensures
            p.0@ == self@[i as int].0,
            p.1@ == self@[i as int].1,
    {
        &self.pairs[i]
    }

    /// Binds `key` to `value`: a later insert of the same key overwrites the
    /// value but keeps the key's first-seen position.
    pub fn insert(&mut self, key: String, value: String)
        ensures
            final(self)@ =~= insert_pairs(old(self)@, key@, value@),
            old(self).wf() ==> final(self).wf(),
    {
        proof {
            lemma_key_index_props(old(self)@, key@);
            if old(self).wf() {
                lemma_insert_wf(old(self)@, key@, value@);
            }
        }
        let n = self.pairs.len();
        let mut i: usize = 0;
        while i < n
            invariant
                n == self.pairs@.len(),
                i <= n,
                *self == *old(self),
                forall|j: int| 0 <= j < i ==> self@[j].0 != key@,
            decreases n - i,
        {
            if str_eq(self.pairs[i].0.as_str(), key.as_str()) {
                proof {
                    lemma_key_index_first(self@, key@, i as int);
                    if old(self).wf() {
                        lemma_insert_wf(old(self)@, key@, value@);
                    }
                }
                let _ = self.pairs.remove(i);
                self.pairs.insert(i, (key, value));
                proof {
                    assert(self@ =~= insert_pairs(old(self)@, key@, value@));
                }
                return ;
            }
            i = i + 1;
        }
        proof {
            assert(!has_key(self@, key@));
        }
        self.pairs.push((key, value));
        proof {
            assert(self@ =~= insert_pairs(old(self)@, key@, value@));
        }
    }

    /// Looks a field up by name; an absent name yields `None`.
    pub fn get(&self, key: &str) -> (r: Option<&String>)
        ensures
            match r {
                Some(v) => lookup(self@, key@) == Some(v@),
                None => lookup(self@, key@) is None,
            },
    {
        proof {
            lemma_key_index_props(self@, key@);
        }
        let n = self.pairs.len();
        let mut i: usize = 0;
        while i < n
            invariant
                n == self@.len(),
                i <= n,
                forall|j: int| 0 <= j < i ==> self@[j].0 != key@,
            decreases n - i,
        {
            if str_eq(self.pairs[i].0.as_str(), key) {
                proof {
                    lemma_key_index_first(self@, key@, i as int);
                }
                return Some(&self.pairs[i].1);
            }
            i = i + 1;
        }
        proof {
            assert(!has_key(self@, key@));
        }
        None
    }
}

} // verus!
