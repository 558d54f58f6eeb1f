//! An insertion-ordered header multimap.
//!
//! Keys keep the case and the order in which they were first inserted;
//! values for one key accumulate in call order and are never overwritten.
//! Lookup compares keys exactly (no case folding at this layer).

use crate::text::str_eq;
use vstd::prelude::*;

verus! {

/// The mathematical content of a header map: the key of each slot in
/// insertion order, with that key's values in call order.
pub type HeaderSeq = Seq<(Seq<char>, Seq<Seq<char>>)>;

/// The slot index holding key `k`, or -1 if no slot does.
pub open spec fn key_index(h: HeaderSeq, k: Seq<char>) -> int
    decreases h.len(),
{
    if h.len() == 0 {
        -1
    } else if h[0].0 == k {
        0
    } else {
        let r = key_index(h.drop_first(), k);
        if r < 0 {
            -1
        } else {
            r + 1
        }
    }
}

pub open spec fn has_key(h: HeaderSeq, k: Seq<char>) -> bool {
    key_index(h, k) >= 0
}

/// The values recorded for key `k`, empty if the key is absent.
pub open spec fn values_of(h: HeaderSeq, k: Seq<char>) -> Seq<Seq<char>> {
    if has_key(h, k) {
        h[key_index(h, k)].1
    } else {
        Seq::empty()
    }
}

/// The map after appending `vs` to the values of `k`: in place if the key
/// is present, in a new last slot if it is not.
pub open spec fn add_values(h: HeaderSeq, k: Seq<char>, vs: Seq<Seq<char>>) -> HeaderSeq {
    if has_key(h, k) {
        let i = key_index(h, k);
        h.update(i, (k, h[i].1 + vs))
    } else {
        h.push((k, vs))
    }
}

/// What `key_index` points at: the first slot with the key, if any.
pub proof fn lemma_key_index(h: HeaderSeq, k: Seq<char>)
    ensures
        key_index(h, k) == -1 || 0 <= key_index(h, k) < h.len(),
        key_index(h, k) >= 0 ==> h[key_index(h, k)].0 == k,
        forall|j: int|
            0 <= j < h.len() && (key_index(h, k) == -1 || j < key_index(h, k)) ==> h[j].0 != k,
    decreases h.len(),
{
    if h.len() > 0 && h[0].0 != k {
        let t = h.drop_first();
        lemma_key_index(t, k);
        assert forall|j: int|
            0 <= j < h.len() && (key_index(h, k) == -1 || j < key_index(h, k)) implies h[j].0
            != k by {
            if j > 0 {
                assert(h[j] == t[j - 1]);
            }
        }
    }
}

/// `key_index` agrees with a linear scan that stopped at `i`.
pub proof fn lemma_key_index_at(h: HeaderSeq, k: Seq<char>, i: int)
    requires
        0 <= i <= h.len(),
        forall|j: int| 0 <= j < i ==> h[j].0 != k,
        i < h.len() ==> h[i].0 == k,
    ensures
        key_index(h, k) == if i < h.len() {
            i
        } else {
            -1
        },
    decreases i,
{
    if h.len() > 0 {
        if i == 0 {
        } else {
            let t = h.drop_first();
            assert(forall|j: int| 0 <= j < i - 1 ==> t[j].0 != k);
            lemma_key_index_at(t, k, i - 1);
        }
    }
}

/// Header multimap with stable key insertion order.
#[derive(Debug)]
pub struct Headers {
    entries: Vec<(String, Vec<String>)>,
}

impl View for Headers {
    type V = HeaderSeq;

    closed spec fn view(&self) -> HeaderSeq {
        Seq::new(
            self.entries@.len(),
            |i: int| (self.entries@[i].0@, self.entries@[i].1.deep_view()),
        )
    }
}

impl Headers {
    /// Each key occupies at most one slot.
    pub open spec fn wf(&self) -> bool {
        forall|i: int, j: int| 0 <= i < j < self@.len() ==> self@[i].0 != self@[j].0
    }

    pub fn new() -> (h: Headers)
        ensures
            h@ =~= Seq::<(Seq<char>, Seq<Seq<char>>)>::empty(),
            h.wf(),
    {
        Headers { entries: Vec::new() }
    }

    pub fn len(&self) -> (n: usize)
        ensures
            n == self@.len(),
    {
        self.entries.len()
    }

    /// The key and values of the slot at `i`, in insertion order.
    pub fn entry_at(&self, i: usize) -> (r: (&String, &Vec<String>))
        requires
            i < self@.len(),
        ensures
            r.0@ == self@[i as int].0,
            r.1.deep_view() == self@[i as int].1,
    {
        let e = &self.entries[i];
        (&e.0, &e.1)
    }

    /// The index of the slot holding `key`, if any.
    fn find(&self, key: &str) -> (r: Option<usize>)
        ensures
            match r {
                Some(i) => i < self@.len() && self@[i as int].0 == key@ && key_index(self@, key@)
                    == i,
                None => !has_key(self@, key@),
            },
    {
        let n = self.entries.len();
        let mut i: usize = 0;
        while i < n
            invariant
                n == self@.len(),
                i <= n,
                forall|j: int| 0 <= j < i ==> self@[j].0 != key@,
            decreases n - i,
        {
            if str_eq(self.entries[i].0.as_str(), key) {
                proof {
                    lemma_key_index_at(self@, key@, i as int);
                }
                return Some(i);
            }
            i = i + 1;
        }
        proof {
            lemma_key_index_at(self@, key@, n as int);
        }
        None
    }

    /// The values recorded for `key`, in call order.
    pub fn get(&self, key: &str) -> (r: Option<&Vec<String>>)
        ensures
            match r {
                Some(vs) => has_key(self@, key@) && vs.deep_view() == values_of(self@, key@),
                None => !has_key(self@, key@),
            },
    {
        match self.find(key) {
            Some(i) => Some(&self.entries[i].1),
            None => None,
        }
    }

    /// Append the given values to the slot for `key`, creating the slot on
    /// first use.
    pub fn add_all(&mut self, key: &str, values: Vec<String>)
        requires
            old(self).wf(),
        ensures
            final(self)@ == add_values(old(self)@, key@, values.deep_view()),
            final(self).wf(),
    {
        let ghost h0 = self@;
        let ghost es0 = self.entries@;
        let ghost vdv = values.deep_view();
        let mut values = values;
        match self.find(key) {
            Some(i) => {
                let (k, mut vs) = self.entries.remove(i);
                let ghost vs0 = vs.deep_view();
                vs.append(&mut values);
                proof {
                    assert(vs.deep_view() =~= vs0 + vdv);
                }
                self.entries.insert(i, (k, vs));
                proof {
                    assert(self.entries@ =~= es0.update(i as int, (es0[i as int].0, vs)));
                    assert(self@ =~= add_values(h0, key@, vdv));
                    assert(forall|m: int| 0 <= m < self@.len() ==> self@[m].0 == h0[m].0);
                    assert(self.wf());
                }
            },
            None => {
                proof {
                    lemma_key_index(h0, key@);
                }
                let mut vs: Vec<String> = Vec::new();
                vs.append(&mut values);
                proof {
                    assert(vs.deep_view() =~= vdv);
                }
                self.entries.push((key.to_owned(), vs));
                proof {
                    assert(self@ =~= add_values(h0, key@, vdv));
                    assert(forall|m: int| 0 <= m < h0.len() ==> self@[m] == h0[m]);
                    assert(self.wf());
                }
            },
        }
    }

    /// Append one value to the slot for `key`, creating the slot on first
    /// use.
    pub fn add(&mut self, key: &str, value: String)
        requires
            old(self).wf(),
        ensures
            final(self)@ == add_values(old(self)@, key@, seq![value@]),
            final(self).wf(),
    {
        let ghost v = value@;
        let mut values: Vec<String> = Vec::new();
        values.push(value);
        proof {
            assert(values.deep_view() =~= seq![v]);
        }
        self.add_all(key, values);
    }
}

/// Updating the values in one slot moves no key: every lookup lands where
/// it did before.
proof fn lemma_key_index_update(h: HeaderSeq, i: int, w: Seq<Seq<char>>, k: Seq<char>)
    requires
        0 <= i < h.len(),
    ensures
        key_index(h.update(i, (h[i].0, w)), k) == key_index(h, k),
    decreases h.len(),
{
    let g = h.update(i, (h[i].0, w));
    if i == 0 {
        if h[0].0 != k {
            assert(g.drop_first() =~= h.drop_first());
        }
    } else {
        if h[0].0 != k {
            let t = h.drop_first();
            assert(g.drop_first() =~= t.update(i - 1, (t[i - 1].0, w)));
            lemma_key_index_update(t, i - 1, w, k);
        }
    }
}

/// Appending a slot at the end leaves every present key where it was, and
/// a fresh key lands in the new slot.
proof fn lemma_key_index_push(h: HeaderSeq, e: (Seq<char>, Seq<Seq<char>>), k: Seq<char>)
    ensures
        key_index(h.push(e), k) == if has_key(h, k) {
            key_index(h, k)
        } else if e.0 == k {
            h.len() as int
        } else {
            -1
        },
    decreases h.len(),
{
    let g = h.push(e);
    if h.len() == 0 {
        assert(g[0] == e);
        if e.0 != k {
            assert(g.drop_first() =~= Seq::<(Seq<char>, Seq<Seq<char>>)>::empty());
            assert(key_index(Seq::<(Seq<char>, Seq<Seq<char>>)>::empty(), k) == -1);
            assert(key_index(g, k) == -1);
        }
    } else {
        assert(g[0] == h[0]);
        if h[0].0 != k {
            let t = h.drop_first();
            assert(g.drop_first() =~= t.push(e));
            lemma_key_index_push(t, e, k);
            assert(key_index(g.drop_first(), k) == key_index(t.push(e), k));
            if has_key(t, k) {
                assert(key_index(g, k) == key_index(t, k) + 1);
                assert(key_index(h, k) == key_index(t, k) + 1);
            } else if e.0 == k {
                assert(key_index(t.push(e), k) == t.len() as int);
                assert(key_index(g, k) == t.len() + 1);
                assert(key_index(h, k) == -1);
            } else {
                assert(key_index(g, k) == -1);
                assert(key_index(h, k) == -1);
            }
        }
    }
}

/// Law: adding values for a key appends them to that key's list in call
/// order -- it never overwrites -- and leaves every other key's values
/// untouched.
pub proof fn lemma_add_values_accumulates(
    h: HeaderSeq,
    k: Seq<char>,
    vs: Seq<Seq<char>>,
    k2: Seq<char>,
)
    ensures
        values_of(add_values(h, k, vs), k) == values_of(h, k) + vs,
        k2 != k ==> values_of(add_values(h, k, vs), k2) == values_of(h, k2),
{
    lemma_key_index(h, k);
    lemma_key_index(h, k2);
    if has_key(h, k) {
        let i = key_index(h, k);
        assert(h[i].0 == k);
        lemma_key_index_update(h, i, h[i].1 + vs, k);
        lemma_key_index_update(h, i, h[i].1 + vs, k2);
        assert(values_of(add_values(h, k, vs), k) =~= values_of(h, k) + vs);
    } else {
        lemma_key_index_push(h, (k, vs), k);
        lemma_key_index_push(h, (k, vs), k2);
        assert(values_of(h, k) =~= Seq::<Seq<char>>::empty());
        assert(values_of(add_values(h, k, vs), k) =~= values_of(h, k) + vs);
    }
}

} // verus!
