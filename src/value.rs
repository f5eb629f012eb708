use vstd::prelude::*;

use crate::text::chars_of;

verus! {

/// A WSON value. A float keeps the text it was written with; dates and
/// date-times keep their canonical text.
#[derive(Debug, PartialEq)]
pub enum WsonValue {
    Null,
    Bool(bool),
    Int(i64),
    Float(String),
    String(String),
    Date(String),
    DateTime(String),
    Version(Vec<u32>),
    Array(Vec<WsonValue>),
    Object(WsonMap),
}

/// A WSON document: entries held in increasing order of their keys.
#[derive(Debug, PartialEq)]
pub struct WsonMap {
    pub entries: Vec<(String, WsonValue)>,
}

broadcast use vstd::std_specs::vec::group_vec_axioms;

/// Every document inside `v`, at any depth, has its keys in strictly increasing order.
pub open spec fn deep_wf(v: WsonValue) -> bool
    decreases v,
{
    match v {
        WsonValue::Array(a) => items_wf(a, a@.len() as int),
        WsonValue::Object(m) => m.wf() && entries_wf(m.entries, m.entries@.len() as int),
        _ => true,
    }
}

/// The first `k` elements of `a` are deeply well formed.
pub open spec fn items_wf(a: Vec<WsonValue>, k: int) -> bool
    decreases a, k,
{
    if k <= 0 || k > a@.len() {
        true
    } else {
        items_wf(a, k - 1) && deep_wf(a@[k - 1])
    }
}

/// The values of the first `k` entries of `e` are deeply well formed.
pub open spec fn entries_wf(e: Vec<(String, WsonValue)>, k: int) -> bool
    decreases e, k,
{
    if k <= 0 || k > e@.len() {
        true
    } else {
        entries_wf(e, k - 1) && deep_wf(e@[k - 1].1)
    }
}

pub proof fn lemma_items_wf(a: Vec<WsonValue>, k: int)
    requires
        0 <= k <= a@.len(),
    ensures
        items_wf(a, k) <==> forall|i: int| 0 <= i < k ==> deep_wf(#[trigger] a@[i]),
    decreases k,
{
    if k > 0 {
        lemma_items_wf(a, k - 1);
    }
}

pub proof fn lemma_entries_wf(e: Vec<(String, WsonValue)>, k: int)
    requires
        0 <= k <= e@.len(),
    ensures
        entries_wf(e, k) <==> forall|i: int| 0 <= i < k ==> deep_wf(#[trigger] e@[i].1),
    decreases k,
{
    if k > 0 {
        lemma_entries_wf(e, k - 1);
    }
}

/// `a` comes before `b`, character by character (the order of `String`).
pub open spec fn lex_lt(a: Seq<char>, b: Seq<char>) -> bool
    decreases a.len(),
{
    if a.len() == 0 {
        b.len() > 0
    } else if b.len() == 0 {
        false
    } else if a[0] != b[0] {
        a[0] < b[0]
    } else {
        lex_lt(a.drop_first(), b.drop_first())
    }
}

pub proof fn lemma_lex_total(a: Seq<char>, b: Seq<char>)
    ensures
        a != b ==> lex_lt(a, b) || lex_lt(b, a),
        !(lex_lt(a, b) && lex_lt(b, a)),
        !lex_lt(a, a),
    decreases a.len(),
{
    if a.len() > 0 && b.len() > 0 {
        lemma_lex_total(a.drop_first(), b.drop_first());
        lemma_lex_total(a.drop_first(), a.drop_first());
        if a[0] == b[0] && a.drop_first() == b.drop_first() {
            assert(a =~= seq![a[0]] + a.drop_first());
            assert(b =~= seq![b[0]] + b.drop_first());
        }
    } else if a.len() > 0 {
        lemma_lex_total(a.drop_first(), a.drop_first());
    } else if b.len() == 0 {
        assert(a =~= b);
    }
}

/// Whether `a` comes before `b`.
pub fn lex_less(a: &Vec<char>, b: &Vec<char>) -> (r: bool)
    ensures
        r == lex_lt(a@, b@),
{
    let mut i: usize = 0;
    assert(a@.subrange(0, a.len() as int) =~= a@);
    assert(b@.subrange(0, b.len() as int) =~= b@);
    while i < a.len() && i < b.len() && a[i] == b[i]
        invariant
            i <= a.len(),
            i <= b.len(),
            lex_lt(a@, b@) == lex_lt(a@.subrange(i as int, a.len() as int), b@.subrange(i as int, b.len() as int)),
        decreases a.len() - i,
    {
        assert(a@.subrange(i as int, a.len() as int).drop_first() =~= a@.subrange(i + 1, a.len() as int));
        assert(b@.subrange(i as int, b.len() as int).drop_first() =~= b@.subrange(i + 1, b.len() as int));
        i += 1;
    }
    proof {
        assert(a@.subrange(0, a.len() as int) =~= a@);
        assert(b@.subrange(0, b.len() as int) =~= b@);
    }
    if i == a.len() {
        i < b.len()
    } else if i == b.len() {
        false
    } else {
        a[i] < b[i]
    }
}

impl WsonMap {
    pub open spec fn key(&self, i: int) -> Seq<char> {
        self.entries@[i].0@
    }

    /// This document and every document inside it have their keys in strictly increasing order.
    pub open spec fn deep_wf(&self) -> bool {
        self.wf() && entries_wf(self.entries, self.entries@.len() as int)
    }

    /// Keys are in strictly increasing order.
    pub open spec fn wf(&self) -> bool {
        forall|i: int| 0 <= i < self.entries.len() - 1 ==> lex_lt(#[trigger] self.key(i), self.key(i + 1))
    }

    pub open spec fn has_key(&self, k: Seq<char>) -> bool {
        exists|i: int| 0 <= i < self.entries.len() && #[trigger] self.key(i) == k
    }

    pub open spec fn value_of(&self, k: Seq<char>) -> WsonValue {
        self.entries@[choose|i: int| 0 <= i < self.entries.len() && #[trigger] self.key(i) == k].1
    }

    /// The document as a map from keys to values.
    pub open spec fn contents(&self) -> Map<Seq<char>, WsonValue> {
        Map::new(|k: Seq<char>| self.has_key(k), |k: Seq<char>| self.value_of(k))
    }

    pub fn new() -> (r: Self)
        ensures
            r.entries@.len() == 0,
            r.contents() == Map::<Seq<char>, WsonValue>::empty(),
            r.wf(),
            r.deep_wf(),
    {
        let r = WsonMap { entries: Vec::new() };
        assert(r.contents() =~= Map::<Seq<char>, WsonValue>::empty());
        r
    }

    pub fn len(&self) -> (r: usize)
        ensures
            r == self.entries@.len(),
    {
        self.entries.len()
    }

    /// Puts `value` under `key`, in place of the value that the key had.
    pub fn insert(&mut self, key: String, value: WsonValue)
        requires
            old(self).wf(),
        ensures
            final(self).wf(),
            final(self).contents() == old(self).contents().insert(key@, value),
            old(self).deep_wf() && deep_wf(value) ==> final(self).deep_wf(),
            (exists|p: int|
                0 <= p < old(self).entries.len() && old(self).key(p) == key@
                    && final(self).entries@ == old(self).entries@.update(p, (key, value)))
            || ((forall|p: int| 0 <= p < old(self).entries.len() ==> old(self).key(p) != key@)
                && exists|p: int|
                0 <= p <= old(self).entries.len() && final(self).entries@
                    == old(self).entries@.insert(p, (key, value))),
    {
        let ghost gv = value;
        let k = chars_of(key.as_str());
        let n = self.entries.len();
        let mut p: usize = 0;
        while p < n && lex_less(&chars_of(self.entries[p].0.as_str()), &k)
            invariant
                p <= n == self.entries.len(),
                k@ == key@,
                forall|i: int| 0 <= i < p ==> lex_lt(#[trigger] self.key(i), key@),
            decreases n - p,
        {
            p += 1;
        }
        proof {
            assert forall|i: int| 0 <= i < p implies #[trigger] self.key(i) != key@ by {
                lemma_lex_total(key@, key@);
            }
        }
        if p < n && self.entries[p].0 == key {
            let ghost before = *self;
            assert(before.key(p as int) == key@);
            self.entries.set(p, (key, value));
            assert(self.entries@ == before.entries@.update(p as int, (key, value)));
            proof {
                if before.deep_wf() && deep_wf(gv) {
                    lemma_entries_wf(before.entries, before.entries@.len() as int);
                    lemma_entries_wf(self.entries, self.entries@.len() as int);
                    assert forall|i: int| 0 <= i < self.entries@.len() implies deep_wf(
                        #[trigger] self.entries@[i].1,
                    ) by {
                        if i != p {
                            assert(self.entries@[i] == before.entries@[i]);
                        }
                    }
                }
            }
            assert forall|i: int| 0 <= i < self.entries.len() implies #[trigger] self.key(i) == before.key(i) by {}
            assert forall|i: int| 0 <= i < self.entries.len() - 1 implies lex_lt(
                #[trigger] self.key(i),
                self.key(i + 1),
            ) by {
                assert(self.key(i) == before.key(i) && self.key(i + 1) == before.key(i + 1));
            }
            proof {
                lemma_wf_distinct(before);
                lemma_wf_distinct(*self);
                let kk = key@;
                assert forall|q: Seq<char>| #[trigger] self.has_key(q) == before.contents().insert(
                    kk,
                    value,
                ).dom().contains(q) by {
                    if self.has_key(q) {
                        let i = choose|i: int| 0 <= i < self.entries.len() && #[trigger] self.key(i) == q;
                        assert(before.key(i) == q);
                    }
                    if before.has_key(q) {
                        let i = choose|i: int| 0 <= i < before.entries.len() && #[trigger] before.key(i) == q;
                        assert(self.key(i) == q);
                    }
                    if q == kk {
                        assert(self.key(p as int) == q);
                    }
                }
                assert forall|q: Seq<char>| #[trigger] self.has_key(q) implies self.value_of(q)
                    == before.contents().insert(kk, value)[q] by {
                    let i = choose|i: int| 0 <= i < self.entries.len() && #[trigger] self.key(i) == q;
                    if q == kk {
                        assert(i == p);
                    } else {
                        assert(before.key(i) == q);
                        let j = choose|j: int| 0 <= j < before.entries.len() && #[trigger] before.key(j) == q;
                        assert(i == j);
                    }
                }
                assert(self.contents() =~= before.contents().insert(kk, value));
            }
        } else {
            let ghost before = *self;
            proof {
                if p < n {
                    lemma_lex_total(key@, before.key(p as int));
                    assert forall|i: int| p <= i < n implies #[trigger] before.key(i) != key@ by {
                        lemma_sorted_after(before, p as int, i, key@);
                    }
                }
            }
            self.entries.insert(p, (key, value));
            assert(self.entries@ == before.entries@.insert(p as int, (key, value)));
            proof {
                if before.deep_wf() && deep_wf(gv) {
                    lemma_entries_wf(before.entries, before.entries@.len() as int);
                    lemma_entries_wf(self.entries, self.entries@.len() as int);
                    assert forall|i: int| 0 <= i < self.entries@.len() implies deep_wf(
                        #[trigger] self.entries@[i].1,
                    ) by {
                        if i < p {
                            assert(self.entries@[i] == before.entries@[i]);
                        } else if i > p {
                            assert(self.entries@[i] == before.entries@[i - 1]);
                        }
                    }
                }
            }
            assert forall|i: int| 0 <= i < self.entries.len() - 1 implies lex_lt(
                #[trigger] self.key(i),
                self.key(i + 1),
            ) by {
                if i + 1 < p {
                    assert(before.key(i) == self.key(i) && before.key(i + 1) == self.key(i + 1));
                } else if i + 1 == p {
                    assert(self.key(i) == before.key(i));
                } else if i == p {
                    assert(self.key(i + 1) == before.key(p as int));
                } else {
                    assert(before.key(i - 1) == self.key(i) && before.key(i) == self.key(i + 1));
                }
            }
            proof {
                lemma_wf_distinct(before);
                lemma_wf_distinct(*self);
                let kk = key@;
                assert forall|i: int| 0 <= i < self.entries.len() implies #[trigger] self.key(i) == if i < p {
                    before.key(i)
                } else if i == p {
                    kk
                } else {
                    before.key(i - 1)
                } by {}
                assert forall|q: Seq<char>| #[trigger] self.has_key(q) == before.contents().insert(
                    kk,
                    value,
                ).dom().contains(q) by {
                    if self.has_key(q) {
                        let i = choose|i: int| 0 <= i < self.entries.len() && #[trigger] self.key(i) == q;
                        if i < p {
                            assert(before.key(i) == q);
                        } else if i > p {
                            assert(before.key(i - 1) == q);
                        }
                    }
                    if before.has_key(q) {
                        let i = choose|i: int| 0 <= i < before.entries.len() && #[trigger] before.key(i) == q;
                        if i < p {
                            assert(self.key(i) == q);
                        } else {
                            assert(self.key(i + 1) == q);
                        }
                    }
                    if q == kk {
                        assert(self.key(p as int) == q);
                    }
                }
                assert forall|q: Seq<char>| #[trigger] self.has_key(q) implies self.value_of(q)
                    == before.contents().insert(kk, value)[q] by {
                    let i = choose|i: int| 0 <= i < self.entries.len() && #[trigger] self.key(i) == q;
                    if q == kk {
                        assert(i == p);
                    } else {
                        let j = choose|j: int| 0 <= j < before.entries.len() && #[trigger] before.key(j) == q;
                        if i < p {
                            assert(before.key(i) == q);
                            assert(i == j);
                        } else {
                            assert(before.key(i - 1) == q);
                            assert(i - 1 == j);
                        }
                    }
                }
                assert(self.contents() =~= before.contents().insert(kk, value));
            }
        }
    }

    /// The value under `key`, if there is one.
    pub fn get(&self, key: &str) -> (r: Option<&WsonValue>)
        ensures
            r is Some <==> exists|p: int| 0 <= p < self.entries.len() && self.key(p) == key@,
            r is Some ==> exists|p: int|
                0 <= p < self.entries.len() && self.key(p) == key@ && self.entries@[p].1
                    == *r->Some_0,
    {
        let k = chars_of(key);
        let mut i: usize = 0;
        while i < self.entries.len()
            invariant
                i <= self.entries.len(),
                k@ == key@,
                forall|j: int| 0 <= j < i ==> #[trigger] self.key(j) != key@,
            decreases self.entries.len() - i,
        {
            let ek = chars_of(self.entries[i].0.as_str());
            if !lex_less(&ek, &k) && !lex_less(&k, &ek) {
                proof {
                    lemma_lex_total(ek@, k@);
                    assert(self.key(i as int) == key@);
                }
                return Some(&self.entries[i].1);
            }
            proof {
                lemma_lex_total(ek@, k@);
            }
            i += 1;
        }
        None
    }
}

/// In a well-formed map the keys are all different.
pub proof fn lemma_wf_distinct(m: WsonMap)
    requires
        m.wf(),
    ensures
        forall|i: int, j: int|
            0 <= i < m.entries.len() && 0 <= j < m.entries.len() && i != j ==> #[trigger] m.key(i)
                != #[trigger] m.key(j),
{
    assert forall|i: int, j: int|
        0 <= i < m.entries.len() && 0 <= j < m.entries.len() && i != j implies #[trigger] m.key(i)
            != #[trigger] m.key(j) by {
        let (a, b) = if i < j {
            (i, j)
        } else {
            (j, i)
        };
        lemma_sorted_after(m, a + 1, b, m.key(a));
    }
}

/// In a well-formed map a key past position `p` is not a key that comes before the one at `p`.
pub proof fn lemma_sorted_after(m: WsonMap, p: int, i: int, k: Seq<char>)
    requires
        m.wf(),
        0 <= p <= i < m.entries.len(),
        lex_lt(k, m.key(p)),
    ensures
        m.key(i) != k,
        lex_lt(k, m.key(i)),
    decreases i - p,
{
    if i > p {
        lemma_sorted_after(m, p, i - 1, k);
        lemma_lex_trans(k, m.key(i - 1), m.key(i));
    }
    lemma_lex_total(k, k);
}

pub proof fn lemma_lex_trans(a: Seq<char>, b: Seq<char>, c: Seq<char>)
    requires
        lex_lt(a, b),
        lex_lt(b, c),
    ensures
        lex_lt(a, c),
    decreases a.len(),
{
    if a.len() > 0 && b.len() > 0 && c.len() > 0 && a[0] == b[0] && b[0] == c[0] {
        lemma_lex_trans(a.drop_first(), b.drop_first(), c.drop_first());
    }
}

} // verus!
