use vstd::prelude::*;
use core::cmp::Ordering;
use crate::text::{compare_text, lemma_lex_total, lemma_lex_transitive, lex_lt};

verus! {

/// The effect of a rule. `Undefined` stands for "no rule applies" and is never stored.
#[derive(Debug, Clone, Copy, PartialEq, Eq, PartialOrd, Structural)]
pub enum Effect {
    Allow,
    Deny,
    Undefined,
}

/// An effect together with the priority of the statement that declared it:
/// the lower the order, the higher the priority.
#[derive(Debug, Clone, Copy, PartialEq, Eq, PartialOrd, Structural)]
pub struct EffectOrd {
    pub order: usize,
    pub effect: Effect,
}

impl EffectOrd {
    /// The entry that survives when `item` meets `self` at the same key.
    pub open spec fn merged(self, item: EffectOrd) -> EffectOrd {
        if self.order > item.order {
            item
        } else {
            self
        }
    }

    pub fn new(effect: Effect, order: usize) -> (r: Self)
        ensures
            r.effect == effect,
            r.order == order,
    {
        Self { order, effect }
    }

    /// Keeps the entry with the lower order; on a tie `self` stays.
    pub fn merge(&mut self, item: EffectOrd)
        ensures
            *final(self) == old(self).merged(item),
    {
        if self.order > item.order {
            *self = item;
        }
    }
}

/// Keys in strictly ascending lexicographic order, hence distinct.
pub open spec fn ascending(keys: Seq<Seq<char>>) -> bool {
    forall|i: int, j: int| 0 <= i < j < keys.len() ==> lex_lt(#[trigger] keys[i], #[trigger] keys[j])
}

/// The keys of a list of entries.
pub open spec fn key_seq<V>(entries: Seq<(String, V)>) -> Seq<Seq<char>> {
    entries.map_values(|e: (String, V)| e.0@)
}

/// The map that sends each key to the value at the same position.
pub open spec fn zip_map<V>(keys: Seq<Seq<char>>, vals: Seq<V>) -> Map<Seq<char>, V> {
    Map::new(|k: Seq<char>| keys.contains(k), |k: Seq<char>| vals[keys.index_of(k)])
}

/// Union of two maps; where both hold a key, `f` combines the two values.
pub open spec fn merge_with<V>(a: Map<Seq<char>, V>, b: Map<Seq<char>, V>, f: spec_fn(V, V) -> V) -> Map<
    Seq<char>,
    V,
> {
    Map::new(
        |k: Seq<char>| a.contains_key(k) || b.contains_key(k),
        |k: Seq<char>|
            if a.contains_key(k) && b.contains_key(k) {
                f(a[k], b[k])
            } else if a.contains_key(k) {
                a[k]
            } else {
                b[k]
            },
    )
}

pub proof fn lemma_distinct_index(keys: Seq<Seq<char>>, i: int)
    requires
        ascending(keys),
        0 <= i < keys.len(),
    ensures
        keys.contains(keys[i]),
        keys.index_of(keys[i]) == i,
{
    assert(keys.contains(keys[i]));
    let j = keys.index_of(keys[i]);
    if j < i {
        lemma_lex_total(keys[j], keys[i]);
    } else if j > i {
        lemma_lex_total(keys[i], keys[j]);
    }
}

pub proof fn lemma_zip_at<V>(keys: Seq<Seq<char>>, vals: Seq<V>, i: int)
    requires
        ascending(keys),
        keys.len() == vals.len(),
        0 <= i < keys.len(),
    ensures
        zip_map(keys, vals).contains_key(keys[i]),
        zip_map(keys, vals)[keys[i]] == vals[i],
{
    lemma_distinct_index(keys, i);
}

pub proof fn lemma_zip_empty<V>(keys: Seq<Seq<char>>, vals: Seq<V>)
    requires
        keys.len() == 0,
    ensures
        zip_map(keys, vals) == Map::<Seq<char>, V>::empty(),
{
    assert(zip_map(keys, vals) =~= Map::<Seq<char>, V>::empty());
}

pub proof fn lemma_ascending_insert(keys: Seq<Seq<char>>, p: int, k: Seq<char>)
    requires
        ascending(keys),
        0 <= p <= keys.len(),
        forall|j: int| 0 <= j < p ==> lex_lt(#[trigger] keys[j], k),
        forall|j: int| p <= j < keys.len() ==> lex_lt(k, #[trigger] keys[j]),
    ensures
        ascending(keys.insert(p, k)),
{
    keys.insert_ensures(p, k);
}

pub proof fn lemma_zip_insert<V>(keys: Seq<Seq<char>>, vals: Seq<V>, p: int, k: Seq<char>, v: V)
    requires
        keys.len() == vals.len(),
        0 <= p <= keys.len(),
        ascending(keys.insert(p, k)),
    ensures
        ascending(keys),
        !keys.contains(k),
        zip_map(keys.insert(p, k), vals.insert(p, v)) == zip_map(keys, vals).insert(k, v),
{
    let nk = keys.insert(p, k);
    let nv = vals.insert(p, v);
    keys.insert_ensures(p, k);
    vals.insert_ensures(p, v);
    assert forall|i: int, j: int| 0 <= i < j < keys.len() implies lex_lt(
        #[trigger] keys[i],
        #[trigger] keys[j],
    ) by {
        let a = if i < p { i } else { i + 1 };
        let b = if j < p { j } else { j + 1 };
        assert(nk[a] == keys[i]);
        assert(nk[b] == keys[j]);
    }
    if keys.contains(k) {
        let j = keys.index_of(k);
        let b = if j < p { j } else { j + 1 };
        assert(nk[b] == k);
        lemma_distinct_index(nk, b);
        lemma_distinct_index(nk, p);
    }
    let lhs = zip_map(nk, nv);
    let rhs = zip_map(keys, vals).insert(k, v);
    assert forall|x: Seq<char>| #[trigger] lhs.contains_key(x) implies rhs.contains_key(x)
        && lhs[x] == rhs[x] by {
        let j = nk.index_of(x);
        lemma_distinct_index(nk, j);
        if j < p {
            lemma_distinct_index(keys, j);
            lemma_distinct_index(nk, p);
        } else if j > p {
            lemma_distinct_index(keys, j - 1);
            lemma_distinct_index(nk, p);
        } else {
        }
    }
    assert forall|x: Seq<char>| #[trigger] rhs.contains_key(x) implies lhs.contains_key(x) by {
        if x == k {
            assert(nk[p] == k);
        } else {
            let j = keys.index_of(x);
            let b = if j < p { j } else { j + 1 };
            assert(nk[b] == x);
        }
    }
    assert(lhs =~= rhs);
}

pub proof fn lemma_zip_update<V>(keys: Seq<Seq<char>>, vals: Seq<V>, i: int, v: V)
    requires
        ascending(keys),
        keys.len() == vals.len(),
        0 <= i < keys.len(),
    ensures
        zip_map(keys, vals.update(i, v)) == zip_map(keys, vals).insert(keys[i], v),
{
    let lhs = zip_map(keys, vals.update(i, v));
    let rhs = zip_map(keys, vals).insert(keys[i], v);
    lemma_distinct_index(keys, i);
    assert forall|x: Seq<char>| #[trigger] lhs.contains_key(x) implies rhs.contains_key(x)
        && lhs[x] == rhs[x] by {
        let j = keys.index_of(x);
        lemma_distinct_index(keys, j);
    }
    assert(lhs =~= rhs);
}

pub proof fn lemma_merge_with_empty<V>(a: Map<Seq<char>, V>, f: spec_fn(V, V) -> V)
    ensures
        merge_with(a, Map::empty(), f) == a,
{
    assert(merge_with(a, Map::empty(), f) =~= a);
}

pub proof fn lemma_merge_with_insert<V>(
    a: Map<Seq<char>, V>,
    m: Map<Seq<char>, V>,
    k: Seq<char>,
    v: V,
    f: spec_fn(V, V) -> V,
)
    requires
        !m.contains_key(k),
    ensures
        merge_with(a, m.insert(k, v), f) == merge_with(a, m, f).insert(
            k,
            if a.contains_key(k) {
                f(a[k], v)
            } else {
                v
            },
        ),
{
    assert(merge_with(a, m.insert(k, v), f) =~= merge_with(a, m, f).insert(
        k,
        if a.contains_key(k) {
            f(a[k], v)
        } else {
            v
        },
    ));
}

/// Finds `key` among entries kept in ascending key order: `Ok` with its position,
/// or `Err` with the position where it belongs.
pub fn locate<V>(entries: &Vec<(String, V)>, key: &str) -> (r: Result<usize, usize>)
    requires
        ascending(key_seq(entries@)),
    ensures
        match r {
            Ok(i) => i < entries@.len() && key_seq(entries@)[i as int] == key@,
            Err(p) => {
                &&& p <= entries@.len()
                &&& !key_seq(entries@).contains(key@)
                &&& forall|j: int| 0 <= j < p ==> lex_lt(#[trigger] key_seq(entries@)[j], key@)
                &&& forall|j: int|
                    p <= j < entries@.len() ==> lex_lt(key@, #[trigger] key_seq(entries@)[j])
            },
        },
{
    let ghost keys = key_seq(entries@);
    let mut i: usize = 0;
    while i < entries.len()
        invariant
            i <= entries@.len(),
            keys == key_seq(entries@),
            ascending(keys),
            forall|j: int| 0 <= j < i ==> lex_lt(#[trigger] keys[j], key@),
        decreases entries.len() - i,
    {
        match compare_text(entries[i].0.as_str(), key) {
            Ordering::Less => {},
            Ordering::Equal => {
                return Ok(i);
            },
            Ordering::Greater => {
                proof {
                    assert forall|j: int| i <= j < entries@.len() implies lex_lt(
                        key@,
                        #[trigger] keys[j],
                    ) by {
                        if j > i {
                            lemma_lex_transitive(key@, keys[i as int], keys[j]);
                        }
                    }
                    assert forall|j: int| 0 <= j < entries@.len() implies keys[j] != key@ by {
                        if j < i {
                            lemma_lex_total(keys[j], key@);
                        } else {
                            lemma_lex_total(key@, keys[j]);
                        }
                    }
                }
                return Err(i);
            },
        }
        i = i + 1;
    }
    proof {
        assert forall|j: int| 0 <= j < entries@.len() implies keys[j] != key@ by {
            lemma_lex_total(keys[j], key@);
        }
    }
    Err(i)
}

/// Combines effect maps: where both hold a pattern, the lower order survives.
pub open spec fn merge_effects(a: Map<Seq<char>, EffectOrd>, b: Map<Seq<char>, EffectOrd>) -> Map<
    Seq<char>,
    EffectOrd,
> {
    merge_with(a, b, |x: EffectOrd, y: EffectOrd| x.merged(y))
}

/// Resource patterns of one operation, each with its prioritized effect,
/// kept in ascending key order.
#[derive(Debug, Clone)]
pub struct Resources {
    pub entries: Vec<(String, EffectOrd)>,
}

impl View for Resources {
    type V = Map<Seq<char>, EffectOrd>;

    open spec fn view(&self) -> Map<Seq<char>, EffectOrd> {
        zip_map(key_seq(self.entries@), self.values())
    }
}

impl Resources {
    pub open spec fn values(&self) -> Seq<EffectOrd> {
        self.entries@.map_values(|e: (String, EffectOrd)| e.1)
    }

    /// The entries as (pattern, effect) pairs, in ascending pattern order.
    pub open spec fn pairs(&self) -> Seq<(Seq<char>, EffectOrd)> {
        self.entries@.map_values(|e: (String, EffectOrd)| (e.0@, e.1))
    }

    pub open spec fn wf(&self) -> bool {
        ascending(key_seq(self.entries@))
    }

    /// Each entry is in the view, and the view holds nothing else.
    pub proof fn lemma_pairs_view(&self)
        requires
            self.wf(),
        ensures
            forall|j: int|
                0 <= j < self.pairs().len() ==> self@.contains_key(#[trigger] self.pairs()[j].0)
                    && self@[self.pairs()[j].0] == self.pairs()[j].1,
            forall|k: Seq<char>|
                #[trigger] self@.contains_key(k) ==> exists|j: int|
                    0 <= j < self.pairs().len() && self.pairs()[j].0 == k,
    {
        assert forall|j: int| 0 <= j < self.pairs().len() implies self@.contains_key(
            #[trigger] self.pairs()[j].0,
        ) && self@[self.pairs()[j].0] == self.pairs()[j].1 by {
            lemma_zip_at(key_seq(self.entries@), self.values(), j);
        }
        assert forall|k: Seq<char>| #[trigger] self@.contains_key(k) implies exists|j: int|
            0 <= j < self.pairs().len() && self.pairs()[j].0 == k by {
            let j = key_seq(self.entries@).index_of(k);
            assert(self.pairs()[j].0 == k);
        }
    }

    /// Resources with a single pattern hold a single entry.
    pub proof fn lemma_single(&self, k: Seq<char>, e: EffectOrd)
        requires
            self.wf(),
            self@ == Map::<Seq<char>, EffectOrd>::empty().insert(k, e),
        ensures
            self.pairs() == seq![(k, e)],
    {
        self.lemma_view_empty();
        assert(self@.contains_key(k));
        assert(self@ != self@.remove(k));
        let keys = key_seq(self.entries@);
        lemma_zip_at(keys, self.values(), 0);
        if self.entries@.len() > 1 {
            lemma_zip_at(keys, self.values(), 1);
            lemma_lex_total(keys[0], keys[1]);
        }
        assert(self.pairs() =~= seq![(k, e)]);
    }

    pub proof fn lemma_view_empty(&self)
        requires
            self.wf(),
        ensures
            (self.entries@.len() == 0) == (self@ == Map::<Seq<char>, EffectOrd>::empty()),
    {
        if self.entries@.len() == 0 {
            lemma_zip_empty(key_seq(self.entries@), self.values());
        } else {
            lemma_zip_at(key_seq(self.entries@), self.values(), 0);
        }
    }

    pub fn new() -> (r: Self)
        ensures
            r.wf(),
            r@ == Map::<Seq<char>, EffectOrd>::empty(),
            r.pairs().len() == 0,
    {
        let r = Resources { entries: Vec::new() };
        proof {
            lemma_zip_empty(key_seq(r.entries@), r.values());
        }
        r
    }

    pub fn is_empty(&self) -> (r: bool)
        requires
            self.wf(),
        ensures
            r == (self@ == Map::<Seq<char>, EffectOrd>::empty()),
    {
        proof {
            self.lemma_view_empty();
        }
        self.entries.len() == 0
    }

    /// The number of patterns.
    pub fn len(&self) -> (r: usize)
        ensures
            r == self.pairs().len(),
    {
        self.entries.len()
    }

    /// The effect stored under `resource`, if any.
    pub fn get(&self, resource: &str) -> (r: Option<EffectOrd>)
        requires
            self.wf(),
        ensures
            r == (if self@.contains_key(resource@) {
                Some(self@[resource@])
            } else {
                None::<EffectOrd>
            }),
    {
        match locate(&self.entries, resource) {
            Ok(i) => {
                proof {
                    lemma_zip_at(key_seq(self.entries@), self.values(), i as int);
                }
                Some(self.entries[i].1)
            },
            Err(_) => None,
        }
    }

    /// Stores `effect` under `resource`; where an entry is there already,
    /// the one with the lower order stays.
    pub fn insert(&mut self, resource: &str, effect: EffectOrd)
        requires
            old(self).wf(),
        ensures
            final(self).wf(),
            final(self)@ == old(self)@.insert(
                resource@,
                if old(self)@.contains_key(resource@) {
                    old(self)@[resource@].merged(effect)
                } else {
                    effect
                },
            ),
    {
        let ghost keys = key_seq(self.entries@);
        let ghost vals = self.values();
        match locate(&self.entries, resource) {
            Ok(i) => {
                proof {
                    lemma_zip_at(keys, vals, i as int);
                }
                let (k, mut e) = self.entries.remove(i);
                e.merge(effect);
                self.entries.insert(i, (k, e));
                proof {
                    assert(key_seq(self.entries@) =~= keys);
                    assert(self.values() =~= vals.update(i as int, vals[i as int].merged(effect)));
                    lemma_zip_update(keys, vals, i as int, vals[i as int].merged(effect));
                }
            },
            Err(p) => {
                self.entries.insert(p, (resource.to_owned(), effect));
                proof {
                    lemma_ascending_insert(keys, p as int, resource@);
                    assert(key_seq(self.entries@) =~= keys.insert(p as int, resource@));
                    assert(self.values() =~= vals.insert(p as int, effect));
                    lemma_zip_insert(keys, vals, p as int, resource@, effect);
                }
            },
        }
    }

    /// Adds every entry of `collection`, resolving each conflict by order.
    pub fn merge(&mut self, collection: Resources)
        requires
            old(self).wf(),
            collection.wf(),
        ensures
            final(self).wf(),
            final(self)@ == merge_effects(old(self)@, collection@),
    {
        let mut other = collection;
        let ghost keys = key_seq(other.entries@);
        let ghost vals = other.values();
        let ghost n = keys.len() as int;
        let ghost start = self@;
        proof {
            lemma_zip_empty(keys.subrange(n, n), vals.subrange(n, n));
            lemma_merge_with_empty(start, |x: EffectOrd, y: EffectOrd| x.merged(y));
        }
        while other.entries.len() > 0
            invariant
                self.wf(),
                ascending(keys),
                keys.len() == vals.len() == n,
                other.entries@.len() <= n,
                key_seq(other.entries@) == keys.take(other.entries@.len() as int),
                other.values() == vals.take(other.entries@.len() as int),
                self@ == merge_effects(
                    start,
                    zip_map(
                        keys.subrange(other.entries@.len() as int, n),
                        vals.subrange(other.entries@.len() as int, n),
                    ),
                ),
            decreases other.entries.len(),
        {
            let ghost c = other.entries@.len() as int;
            let (k, e) = other.entries.pop().unwrap();
            proof {
                assert(k@ == keys.take(c)[c - 1]);
                assert(e == vals.take(c)[c - 1]);
                assert(key_seq(other.entries@) =~= keys.take(c - 1));
                assert(other.values() =~= vals.take(c - 1));
                let sk = keys.subrange(c, n);
                let sv = vals.subrange(c, n);
                assert(keys.subrange(c - 1, n) =~= sk.insert(0, k@));
                assert(vals.subrange(c - 1, n) =~= sv.insert(0, e));
                assert(ascending(sk.insert(0, k@)));
                lemma_zip_insert(sk, sv, 0, k@, e);
                lemma_merge_with_insert(start, zip_map(sk, sv), k@, e, |x: EffectOrd, y: EffectOrd| x.merged(y));
            }
            self.insert(k.as_str(), e);
        }
        proof {
            assert(keys.subrange(0, n) =~= keys);
            assert(vals.subrange(0, n) =~= vals);
        }
    }
}

/// Combines operation maps: where both hold a key, their resources are combined.
pub open spec fn merge_operations(a: Map<Seq<char>, Map<Seq<char>, EffectOrd>>, b: Map<Seq<char>, Map<Seq<char>, EffectOrd>>) -> Map<
    Seq<char>,
    Map<Seq<char>, EffectOrd>,
> {
    merge_with(a, b, |x: Map<Seq<char>, EffectOrd>, y: Map<Seq<char>, EffectOrd>| merge_effects(x, y))
}

/// Operation patterns of one identity, each with its resources, kept in ascending key order.
#[derive(Debug, Clone)]
pub struct Operations {
    pub entries: Vec<(String, Resources)>,
}

impl View for Operations {
    type V = Map<Seq<char>, Map<Seq<char>, EffectOrd>>;

    open spec fn view(&self) -> Map<Seq<char>, Map<Seq<char>, EffectOrd>> {
        zip_map(key_seq(self.entries@), self.values())
    }
}

impl Operations {
    pub open spec fn values(&self) -> Seq<Map<Seq<char>, EffectOrd>> {
        self.entries@.map_values(|e: (String, Resources)| e.1@)
    }

    /// The resources stored under `key`, as it stands in the list.
    pub open spec fn find(&self, key: Seq<char>) -> Option<Resources> {
        if key_seq(self.entries@).contains(key) {
            Some(self.entries@[key_seq(self.entries@).index_of(key)].1)
        } else {
            None
        }
    }

    /// Ascending keys, each holding a well-formed, non-empty resources.
    pub open spec fn wf(&self) -> bool {
        &&& ascending(key_seq(self.entries@))
        &&& forall|i: int|
            0 <= i < self.entries@.len() ==> (#[trigger] self.entries@[i]).1.wf()
                && self.entries@[i].1.entries@.len() > 0
    }

    /// What `find` gives is what the view holds.
    pub proof fn lemma_find_view(&self, key: Seq<char>)
        requires
            self.wf(),
        ensures
            match self.find(key) {
                Some(x) => self@.contains_key(key) && x@ == self@[key] && x.wf() && x.entries@.len() > 0,
                None => !self@.contains_key(key),
            },
    {
        let keys = key_seq(self.entries@);
        if keys.contains(key) {
            let j = keys.index_of(key);
            lemma_zip_at(keys, self.values(), j);
        }
    }

    /// A view with a single key comes from a single entry.
    pub proof fn lemma_single(&self, k: Seq<char>, v: Map<Seq<char>, EffectOrd>)
        requires
            self.wf(),
            self@ == Map::<Seq<char>, Map<Seq<char>, EffectOrd>>::empty().insert(k, v),
        ensures
            self.entries@.len() == 1,
            self.entries@[0].0@ == k,
            self.entries@[0].1@ == v,
    {
        self.lemma_view_empty();
        assert(self@.contains_key(k));
        assert(self@ != self@.remove(k));
        let keys = key_seq(self.entries@);
        lemma_zip_at(keys, self.values(), 0);
        if self.entries@.len() > 1 {
            lemma_zip_at(keys, self.values(), 1);
            lemma_lex_total(keys[0], keys[1]);
        }
    }

    pub proof fn lemma_view_empty(&self)
        requires
            self.wf(),
        ensures
            (self.entries@.len() == 0) == (self@ == Map::<Seq<char>, Map<Seq<char>, EffectOrd>>::empty()),
    {
        if self.entries@.len() == 0 {
            lemma_zip_empty(key_seq(self.entries@), self.values());
        } else {
            lemma_zip_at(key_seq(self.entries@), self.values(), 0);
        }
    }

    pub fn new() -> (r: Self)
        ensures
            r.wf(),
            r@ == Map::<Seq<char>, Map<Seq<char>, EffectOrd>>::empty(),
            r.entries@.len() == 0,
    {
        let r = Operations { entries: Vec::new() };
        proof {
            lemma_zip_empty(key_seq(r.entries@), r.values());
        }
        r
    }

    pub fn is_empty(&self) -> (r: bool)
        requires
            self.wf(),
        ensures
            r == (self@ == Map::<Seq<char>, Map<Seq<char>, EffectOrd>>::empty()),
    {
        proof {
            self.lemma_view_empty();
        }
        self.entries.len() == 0
    }

    /// The number of keys.
    pub fn len(&self) -> (r: usize)
        ensures
            r == self.entries@.len(),
    {
        self.entries.len()
    }

    /// The resources stored under `key`, if any.
    pub fn get(&self, key: &str) -> (r: Option<&Resources>)
        requires
            self.wf(),
        ensures
            match r {
                Some(x) => {
                    &&& self.find(key@) == Some(*x)
                    &&& self@.contains_key(key@)
                    &&& x@ == self@[key@]
                    &&& x.wf()
                },
                None => self.find(key@) is None && !self@.contains_key(key@),
            },
    {
        match locate(&self.entries, key) {
            Ok(i) => {
                proof {
                    lemma_zip_at(key_seq(self.entries@), self.values(), i as int);
                    lemma_distinct_index(key_seq(self.entries@), i as int);
                }
                Some(&self.entries[i].1)
            },
            Err(_) => None,
        }
    }

    /// Files `resources` under `operation`, combining with what is there already.
    /// An empty resources adds nothing.
    pub fn insert(&mut self, operation: &str, resources: Resources)
        requires
            old(self).wf(),
            resources.wf(),
        ensures
            final(self).wf(),
            final(self)@ == (if resources@ == Map::<Seq<char>, EffectOrd>::empty() {
                old(self)@
            } else {
                old(self)@.insert(
                    operation@,
                    if old(self)@.contains_key(operation@) {
                        merge_effects(old(self)@[operation@], resources@)
                    } else {
                        resources@
                    },
                )
            }),
    {
        if !resources.is_empty() {
            proof {
                resources.lemma_view_empty();
            }
            let ghost keys = key_seq(self.entries@);
            let ghost vals = self.values();
            let ghost before = self.entries@;
            match locate(&self.entries, operation) {
                Ok(i) => {
                    proof {
                        lemma_zip_at(keys, vals, i as int);
                    }
                    let (k, mut inner) = self.entries.remove(i);
                    proof {
                        assert(inner == before[i as int].1);
                        inner.lemma_view_empty();
                        lemma_zip_at(key_seq(inner.entries@), inner.values(), 0);
                    }
                    inner.merge(resources);
                    proof {
                        inner.lemma_view_empty();
                        assert(inner@.contains_key(key_seq(before[i as int].1.entries@)[0]));
                    }
                    self.entries.insert(i, (k, inner));
                    proof {
                        assert(self.entries@ =~= before.update(i as int, (k, inner)));
                        assert(key_seq(self.entries@) =~= keys);
                        assert(self.values() =~= vals.update(i as int, inner@));
                        lemma_zip_update(keys, vals, i as int, inner@);
                    }
                },
                Err(p) => {
                    self.entries.insert(p, (operation.to_owned(), resources));
                    proof {
                        before.insert_ensures(p as int, self.entries@[p as int]);
                        lemma_ascending_insert(keys, p as int, operation@);
                        assert(key_seq(self.entries@) =~= keys.insert(p as int, operation@));
                        assert(self.values() =~= vals.insert(p as int, resources@));
                        lemma_zip_insert(keys, vals, p as int, operation@, resources@);
                    }
                },
            }
        }
    }

    /// Adds every entry of `collection`, combining where keys meet.
    pub fn merge(&mut self, collection: Operations)
        requires
            old(self).wf(),
            collection.wf(),
        ensures
            final(self).wf(),
            final(self)@ == merge_operations(old(self)@, collection@),
    {
        let mut other = collection;
        let ghost keys = key_seq(other.entries@);
        let ghost vals = other.values();
        let ghost n = keys.len() as int;
        let ghost start = self@;
        proof {
            lemma_zip_empty(keys.subrange(n, n), vals.subrange(n, n));
            lemma_merge_with_empty(start, |x: Map<Seq<char>, EffectOrd>, y: Map<Seq<char>, EffectOrd>| merge_effects(x, y));
        }
        while other.entries.len() > 0
            invariant
                self.wf(),
                other.wf(),
                ascending(keys),
                keys.len() == vals.len() == n,
                other.entries@.len() <= n,
                key_seq(other.entries@) == keys.take(other.entries@.len() as int),
                other.values() == vals.take(other.entries@.len() as int),
                self@ == merge_operations(
                    start,
                    zip_map(
                        keys.subrange(other.entries@.len() as int, n),
                        vals.subrange(other.entries@.len() as int, n),
                    ),
                ),
            decreases other.entries.len(),
        {
            let ghost c = other.entries@.len() as int;
            let ghost before = other.entries@;
            let (k, e) = other.entries.pop().unwrap();
            proof {
                assert(e == before[c - 1].1);
                assert(k@ == keys.take(c)[c - 1]);
                assert(e@ == vals.take(c)[c - 1]);
                assert(other.entries@ =~= before.take(c - 1));
                assert(key_seq(other.entries@) =~= keys.take(c - 1));
                assert(other.values() =~= vals.take(c - 1));
                let sk = keys.subrange(c, n);
                let sv = vals.subrange(c, n);
                assert(keys.subrange(c - 1, n) =~= sk.insert(0, k@));
                assert(vals.subrange(c - 1, n) =~= sv.insert(0, e@));
                assert(ascending(sk.insert(0, k@)));
                lemma_zip_insert(sk, sv, 0, k@, e@);
                lemma_merge_with_insert(start, zip_map(sk, sv), k@, e@, |x: Map<Seq<char>, EffectOrd>, y: Map<Seq<char>, EffectOrd>| merge_effects(x, y));
                e.lemma_view_empty();
            }
            self.insert(k.as_str(), e);
        }
        proof {
            assert(keys.subrange(0, n) =~= keys);
            assert(vals.subrange(0, n) =~= vals);
        }
    }
}

/// Combines identity maps: where both hold a key, their operations are combined.
pub open spec fn merge_identities(a: Map<Seq<char>, Map<Seq<char>, Map<Seq<char>, EffectOrd>>>, b: Map<Seq<char>, Map<Seq<char>, Map<Seq<char>, EffectOrd>>>) -> Map<
    Seq<char>,
    Map<Seq<char>, Map<Seq<char>, EffectOrd>>,
> {
    merge_with(a, b, |x: Map<Seq<char>, Map<Seq<char>, EffectOrd>>, y: Map<Seq<char>, Map<Seq<char>, EffectOrd>>| merge_operations(x, y))
}

/// Identity patterns, each with its operations, kept in ascending key order.
#[derive(Debug, Clone)]
pub struct Identities {
    pub entries: Vec<(String, Operations)>,
}

impl View for Identities {
    type V = Map<Seq<char>, Map<Seq<char>, Map<Seq<char>, EffectOrd>>>;

    open spec fn view(&self) -> Map<Seq<char>, Map<Seq<char>, Map<Seq<char>, EffectOrd>>> {
        zip_map(key_seq(self.entries@), self.values())
    }
}

impl Identities {
    pub open spec fn values(&self) -> Seq<Map<Seq<char>, Map<Seq<char>, EffectOrd>>> {
        self.entries@.map_values(|e: (String, Operations)| e.1@)
    }

    /// The operations stored under `key`, as it stands in the list.
    pub open spec fn find(&self, key: Seq<char>) -> Option<Operations> {
        if key_seq(self.entries@).contains(key) {
            Some(self.entries@[key_seq(self.entries@).index_of(key)].1)
        } else {
            None
        }
    }

    /// Ascending keys, each holding a well-formed, non-empty operations.
    pub open spec fn wf(&self) -> bool {
        &&& ascending(key_seq(self.entries@))
        &&& forall|i: int|
            0 <= i < self.entries@.len() ==> (#[trigger] self.entries@[i]).1.wf()
                && self.entries@[i].1.entries@.len() > 0
    }

    /// What `find` gives is what the view holds.
    pub proof fn lemma_find_view(&self, key: Seq<char>)
        requires
            self.wf(),
        ensures
            match self.find(key) {
                Some(x) => self@.contains_key(key) && x@ == self@[key] && x.wf() && x.entries@.len() > 0,
                None => !self@.contains_key(key),
            },
    {
        let keys = key_seq(self.entries@);
        if keys.contains(key) {
            let j = keys.index_of(key);
            lemma_zip_at(keys, self.values(), j);
        }
    }

    /// A view with a single key comes from a single entry.
    pub proof fn lemma_single(&self, k: Seq<char>, v: Map<Seq<char>, Map<Seq<char>, EffectOrd>>)
        requires
            self.wf(),
            self@ == Map::<Seq<char>, Map<Seq<char>, Map<Seq<char>, EffectOrd>>>::empty().insert(k, v),
        ensures
            self.entries@.len() == 1,
            self.entries@[0].0@ == k,
            self.entries@[0].1@ == v,
    {
        self.lemma_view_empty();
        assert(self@.contains_key(k));
        assert(self@ != self@.remove(k));
        let keys = key_seq(self.entries@);
        lemma_zip_at(keys, self.values(), 0);
        if self.entries@.len() > 1 {
            lemma_zip_at(keys, self.values(), 1);
            lemma_lex_total(keys[0], keys[1]);
        }
    }

    pub proof fn lemma_view_empty(&self)
        requires
            self.wf(),
        ensures
            (self.entries@.len() == 0) == (self@ == Map::<Seq<char>, Map<Seq<char>, Map<Seq<char>, EffectOrd>>>::empty()),
    {
        if self.entries@.len() == 0 {
            lemma_zip_empty(key_seq(self.entries@), self.values());
        } else {
            lemma_zip_at(key_seq(self.entries@), self.values(), 0);
        }
    }

    pub fn new() -> (r: Self)
        ensures
            r.wf(),
            r@ == Map::<Seq<char>, Map<Seq<char>, Map<Seq<char>, EffectOrd>>>::empty(),
            r.entries@.len() == 0,
    {
        let r = Identities { entries: Vec::new() };
        proof {
            lemma_zip_empty(key_seq(r.entries@), r.values());
        }
        r
    }

    pub fn is_empty(&self) -> (r: bool)
        requires
            self.wf(),
        ensures
            r == (self@ == Map::<Seq<char>, Map<Seq<char>, Map<Seq<char>, EffectOrd>>>::empty()),
    {
        proof {
            self.lemma_view_empty();
        }
        self.entries.len() == 0
    }

    /// The number of keys.
    pub fn len(&self) -> (r: usize)
        ensures
            r == self.entries@.len(),
    {
        self.entries.len()
    }

    /// The operations stored under `key`, if any.
    pub fn get(&self, key: &str) -> (r: Option<&Operations>)
        requires
            self.wf(),
        ensures
            match r {
                Some(x) => {
                    &&& self.find(key@) == Some(*x)
                    &&& self@.contains_key(key@)
                    &&& x@ == self@[key@]
                    &&& x.wf()
                },
                None => self.find(key@) is None && !self@.contains_key(key@),
            },
    {
        match locate(&self.entries, key) {
            Ok(i) => {
                proof {
                    lemma_zip_at(key_seq(self.entries@), self.values(), i as int);
                    lemma_distinct_index(key_seq(self.entries@), i as int);
                }
                Some(&self.entries[i].1)
            },
            Err(_) => None,
        }
    }

    /// Files `operations` under `identity`, combining with what is there already.
    /// An empty operations adds nothing.
    pub fn insert(&mut self, identity: &str, operations: Operations)
        requires
            old(self).wf(),
            operations.wf(),
        ensures
            final(self).wf(),
            final(self)@ == (if operations@ == Map::<Seq<char>, Map<Seq<char>, EffectOrd>>::empty() {
                old(self)@
            } else {
                old(self)@.insert(
                    identity@,
                    if old(self)@.contains_key(identity@) {
                        merge_operations(old(self)@[identity@], operations@)
                    } else {
                        operations@
                    },
                )
            }),
    {
        if !operations.is_empty() {
            proof {
                operations.lemma_view_empty();
            }
            let ghost keys = key_seq(self.entries@);
            let ghost vals = self.values();
            let ghost before = self.entries@;
            match locate(&self.entries, identity) {
                Ok(i) => {
                    proof {
                        lemma_zip_at(keys, vals, i as int);
                    }
                    let (k, mut inner) = self.entries.remove(i);
                    proof {
                        assert(inner == before[i as int].1);
                        inner.lemma_view_empty();
                        lemma_zip_at(key_seq(inner.entries@), inner.values(), 0);
                    }
                    inner.merge(operations);
                    proof {
                        inner.lemma_view_empty();
                        assert(inner@.contains_key(key_seq(before[i as int].1.entries@)[0]));
                    }
                    self.entries.insert(i, (k, inner));
                    proof {
                        assert(self.entries@ =~= before.update(i as int, (k, inner)));
                        assert(key_seq(self.entries@) =~= keys);
                        assert(self.values() =~= vals.update(i as int, inner@));
                        lemma_zip_update(keys, vals, i as int, inner@);
                    }
                },
                Err(p) => {
                    self.entries.insert(p, (identity.to_owned(), operations));
                    proof {
                        before.insert_ensures(p as int, self.entries@[p as int]);
                        lemma_ascending_insert(keys, p as int, identity@);
                        assert(key_seq(self.entries@) =~= keys.insert(p as int, identity@));
                        assert(self.values() =~= vals.insert(p as int, operations@));
                        lemma_zip_insert(keys, vals, p as int, identity@, operations@);
                    }
                },
            }
        }
    }

    /// Adds every entry of `collection`, combining where keys meet.
    pub fn merge(&mut self, collection: Identities)
        requires
            old(self).wf(),
            collection.wf(),
        ensures
            final(self).wf(),
            final(self)@ == merge_identities(old(self)@, collection@),
    {
        let mut other = collection;
        let ghost keys = key_seq(other.entries@);
        let ghost vals = other.values();
        let ghost n = keys.len() as int;
        let ghost start = self@;
        proof {
            lemma_zip_empty(keys.subrange(n, n), vals.subrange(n, n));
            lemma_merge_with_empty(start, |x: Map<Seq<char>, Map<Seq<char>, EffectOrd>>, y: Map<Seq<char>, Map<Seq<char>, EffectOrd>>| merge_operations(x, y));
        }
        while other.entries.len() > 0
            invariant
                self.wf(),
                other.wf(),
                ascending(keys),
                keys.len() == vals.len() == n,
                other.entries@.len() <= n,
                key_seq(other.entries@) == keys.take(other.entries@.len() as int),
                other.values() == vals.take(other.entries@.len() as int),
                self@ == merge_identities(
                    start,
                    zip_map(
                        keys.subrange(other.entries@.len() as int, n),
                        vals.subrange(other.entries@.len() as int, n),
                    ),
                ),
            decreases other.entries.len(),
        {
            let ghost c = other.entries@.len() as int;
            let ghost before = other.entries@;
            let (k, e) = other.entries.pop().unwrap();
            proof {
                assert(e == before[c - 1].1);
                assert(k@ == keys.take(c)[c - 1]);
                assert(e@ == vals.take(c)[c - 1]);
                assert(other.entries@ =~= before.take(c - 1));
                assert(key_seq(other.entries@) =~= keys.take(c - 1));
                assert(other.values() =~= vals.take(c - 1));
                let sk = keys.subrange(c, n);
                let sv = vals.subrange(c, n);
                assert(keys.subrange(c - 1, n) =~= sk.insert(0, k@));
                assert(vals.subrange(c - 1, n) =~= sv.insert(0, e@));
                assert(ascending(sk.insert(0, k@)));
                lemma_zip_insert(sk, sv, 0, k@, e@);
                lemma_merge_with_insert(start, zip_map(sk, sv), k@, e@, |x: Map<Seq<char>, Map<Seq<char>, EffectOrd>>, y: Map<Seq<char>, Map<Seq<char>, EffectOrd>>| merge_operations(x, y));
                e.lemma_view_empty();
            }
            self.insert(k.as_str(), e);
        }
        proof {
            assert(keys.subrange(0, n) =~= keys);
            assert(vals.subrange(0, n) =~= vals);
        }
    }
}

} // verus!
