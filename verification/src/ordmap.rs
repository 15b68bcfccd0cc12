//! Ordered maps and sets: the keyed tables of the engines.
//!
//! A table is a vector of entries in strictly rising key order, so a walk
//! over it always meets the keys in order. What a table holds is a map from
//! the keys' views to the values.

use vstd::prelude::*;

use crate::text::{is_text_before, same_text};

verus! {

/// A key type with a strict total order on its views.
pub trait Key: View + Sized {
    spec fn before(a: Self::V, b: Self::V) -> bool;

    proof fn lemma_irreflexive(a: Self::V)
        ensures
            !Self::before(a, a),
    ;

    proof fn lemma_transitive(a: Self::V, b: Self::V, c: Self::V)
        requires
            Self::before(a, b),
            Self::before(b, c),
        ensures
            Self::before(a, c),
    ;

    proof fn lemma_total(a: Self::V, b: Self::V)
        ensures
            Self::before(a, b) || a == b || Self::before(b, a),
    ;

    fn is_before(&self, other: &Self) -> (r: bool)
        ensures
            r == Self::before(self@, other@),
    ;

    fn is_same(&self, other: &Self) -> (r: bool)
        ensures
            r == (self@ == other@),
    ;
}

impl Key for String {
    open spec fn before(a: Seq<char>, b: Seq<char>) -> bool {
        crate::text::text_before(a, b)
    }

    proof fn lemma_irreflexive(a: Seq<char>) {
        crate::text::lemma_text_before_irreflexive(a);
    }

    proof fn lemma_transitive(a: Seq<char>, b: Seq<char>, c: Seq<char>) {
        crate::text::lemma_text_before_transitive(a, b, c);
    }

    proof fn lemma_total(a: Seq<char>, b: Seq<char>) {
        crate::text::lemma_text_before_total(a, b);
    }

    fn is_before(&self, other: &Self) -> (r: bool) {
        is_text_before(self.as_str(), other.as_str())
    }

    fn is_same(&self, other: &Self) -> (r: bool) {
        same_text(self.as_str(), other.as_str())
    }
}

impl Key for u8 {
    open spec fn before(a: u8, b: u8) -> bool {
        a < b
    }

    proof fn lemma_irreflexive(a: u8) {
    }

    proof fn lemma_transitive(a: u8, b: u8, c: u8) {
    }

    proof fn lemma_total(a: u8, b: u8) {
    }

    fn is_before(&self, other: &Self) -> (r: bool) {
        *self < *other
    }

    fn is_same(&self, other: &Self) -> (r: bool) {
        *self == *other
    }
}

impl Key for u16 {
    open spec fn before(a: u16, b: u16) -> bool {
        a < b
    }

    proof fn lemma_irreflexive(a: u16) {
    }

    proof fn lemma_transitive(a: u16, b: u16, c: u16) {
    }

    proof fn lemma_total(a: u16, b: u16) {
    }

    fn is_before(&self, other: &Self) -> (r: bool) {
        *self < *other
    }

    fn is_same(&self, other: &Self) -> (r: bool) {
        *self == *other
    }
}

impl Key for u32 {
    open spec fn before(a: u32, b: u32) -> bool {
        a < b
    }

    proof fn lemma_irreflexive(a: u32) {
    }

    proof fn lemma_transitive(a: u32, b: u32, c: u32) {
    }

    proof fn lemma_total(a: u32, b: u32) {
    }

    fn is_before(&self, other: &Self) -> (r: bool) {
        *self < *other
    }

    fn is_same(&self, other: &Self) -> (r: bool) {
        *self == *other
    }
}

/// Pairs: the first half decides, the second where the first is the same.
impl<A: Key, B: Key> Key for (A, B) {
    open spec fn before(a: (A::V, B::V), b: (A::V, B::V)) -> bool {
        A::before(a.0, b.0) || (a.0 == b.0 && B::before(a.1, b.1))
    }

    proof fn lemma_irreflexive(a: (A::V, B::V)) {
        A::lemma_irreflexive(a.0);
        B::lemma_irreflexive(a.1);
    }

    proof fn lemma_transitive(a: (A::V, B::V), b: (A::V, B::V), c: (A::V, B::V)) {
        if A::before(a.0, b.0) && A::before(b.0, c.0) {
            A::lemma_transitive(a.0, b.0, c.0);
        }
        if B::before(a.1, b.1) && B::before(b.1, c.1) {
            B::lemma_transitive(a.1, b.1, c.1);
        }
    }

    proof fn lemma_total(a: (A::V, B::V), b: (A::V, B::V)) {
        A::lemma_total(a.0, b.0);
        B::lemma_total(a.1, b.1);
    }

    fn is_before(&self, other: &Self) -> (r: bool) {
        self.0.is_before(&other.0) || (self.0.is_same(&other.0) && self.1.is_before(&other.1))
    }

    fn is_same(&self, other: &Self) -> (r: bool) {
        self.0.is_same(&other.0) && self.1.is_same(&other.1)
    }
}

/// A table of entries in strictly rising key order.
#[verifier::reject_recursive_types(K)]
#[verifier::reject_recursive_types(T)]
#[derive(Debug, PartialEq, Eq)]
pub struct OrdMap<K: Key, T> {
    pub entries: Vec<(K, T)>,
}

/// Are the keys strictly rising?
pub open spec fn rising<K: Key, T>(s: Seq<(K, T)>) -> bool {
    forall|i: int, j: int|
        0 <= i < j < s.len() ==> K::before((#[trigger] s[i]).0@, (#[trigger] s[j]).0@)
}

/// Does the key stand in the entries?
pub open spec fn keyed<K: Key, T>(s: Seq<(K, T)>, k: K::V) -> bool {
    exists|i: int| 0 <= i < s.len() && (#[trigger] s[i]).0@ == k
}

/// The map that a run of entries stands for.
pub open spec fn map_of<K: Key, T>(s: Seq<(K, T)>) -> Map<K::V, T> {
    Map::new(
        |k: K::V| keyed(s, k),
        |k: K::V| s[choose|i: int| 0 <= i < s.len() && (#[trigger] s[i]).0@ == k].1,
    )
}

/// In rising entries a key stands at one place.
pub proof fn lemma_rising_unique<K: Key, T>(s: Seq<(K, T)>, i: int, j: int)
    requires
        rising(s),
        0 <= i < s.len(),
        0 <= j < s.len(),
        s[i].0@ == s[j].0@,
    ensures
        i == j,
{
    K::lemma_irreflexive(s[i].0@);
    if i < j {
        assert(K::before(s[i].0@, s[j].0@));
    }
    if j < i {
        assert(K::before(s[j].0@, s[i].0@));
    }
}

/// What the map holds under the key of an entry.
pub proof fn lemma_map_of_entry<K: Key, T>(s: Seq<(K, T)>, i: int)
    requires
        rising(s),
        0 <= i < s.len(),
    ensures
        map_of(s).dom().contains(s[i].0@),
        map_of(s)[s[i].0@] == s[i].1,
{
    let k = s[i].0@;
    let c = choose|j: int| 0 <= j < s.len() && (#[trigger] s[j]).0@ == k;
    lemma_rising_unique(s, i, c);
}

impl<K: Key, T> View for OrdMap<K, T> {
    type V = Map<K::V, T>;

    open spec fn view(&self) -> Map<K::V, T> {
        map_of(self.entries@)
    }
}

impl<K: Key, T> OrdMap<K, T> {
    /// The keys are strictly rising.
    pub open spec fn wf(&self) -> bool {
        rising(self.entries@)
    }

    pub fn new() -> (m: Self)
        ensures
            m.wf(),
            m.entries@.len() == 0,
            m@ == Map::<K::V, T>::empty(),
    {
        let m = OrdMap { entries: Vec::new() };
        assert(m@ =~= Map::<K::V, T>::empty());
        m
    }

    /// Where the key stands, or where it would have to be put.
    fn place(&self, key: &K) -> (r: (usize, bool))
        requires
            self.wf(),
        ensures
            r.0 <= self.entries@.len(),
            forall|i: int| 0 <= i < r.0 ==> K::before((#[trigger] self.entries@[i]).0@, key@),
            r.1 ==> r.0 < self.entries@.len() && self.entries@[r.0 as int].0@ == key@,
            !r.1 ==> forall|i: int|
                r.0 <= i < self.entries@.len() ==> K::before(key@, (#[trigger] self.entries@[i]).0@),
    {
        let mut i: usize = 0;
        while i < self.entries.len()
            invariant
                self.wf(),
                i <= self.entries@.len(),
                forall|j: int| 0 <= j < i ==> K::before((#[trigger] self.entries@[j]).0@, key@),
            decreases self.entries@.len() - i,
        {
            if self.entries[i].0.is_same(key) {
                return (i, true);
            }
            if key.is_before(&self.entries[i].0) {
                assert forall|j: int| i <= j < self.entries@.len() implies K::before(
                    key@,
                    (#[trigger] self.entries@[j]).0@,
                ) by {
                    if j > i {
                        K::lemma_transitive(
                            key@,
                            self.entries@[i as int].0@,
                            self.entries@[j].0@,
                        );
                    }
                }
                return (i, false);
            }
            proof {
                K::lemma_total(self.entries@[i as int].0@, key@);
            }
            i = i + 1;
        }
        (i, false)
    }

    /// Where the key stands.
    pub fn find(&self, key: &K) -> (r: Option<usize>)
        requires
            self.wf(),
        ensures
            match r {
                Some(i) => i < self.entries@.len() && self.entries@[i as int].0@ == key@
                    && self@.dom().contains(key@) && self@[key@] == self.entries@[i as int].1,
                None => !self@.dom().contains(key@) && forall|i: int|
                    0 <= i < self.entries@.len() ==> (#[trigger] self.entries@[i]).0@ != key@,
            },
    {
        let (i, found) = self.place(key);
        proof {
            K::lemma_irreflexive(key@);
            if found {
                lemma_map_of_entry(self.entries@, i as int);
            } else {
                assert forall|j: int| 0 <= j < self.entries@.len() implies (
                #[trigger] self.entries@[j]).0@ != key@ by {}
            }
        }
        if found {
            Some(i)
        } else {
            None
        }
    }

    pub fn contains(&self, key: &K) -> (r: bool)
        requires
            self.wf(),
        ensures
            r == self@.dom().contains(key@),
    {
        self.find(key).is_some()
    }

    pub fn get(&self, key: &K) -> (r: Option<&T>)
        requires
            self.wf(),
        ensures
            match r {
                Some(v) => self@.dom().contains(key@) && *v == self@[key@],
                None => !self@.dom().contains(key@),
            },
    {
        match self.find(key) {
            Some(i) => Some(&self.entries[i].1),
            None => None,
        }
    }

    /// Put a value under a key; what stood there comes back.
    pub fn insert(&mut self, key: K, value: T) -> (r: Option<T>)
        requires
            old(self).wf(),
        ensures
            final(self).wf(),
            final(self)@ == old(self)@.insert(key@, value),
            match r {
                Some(v) => old(self)@.dom().contains(key@) && v == old(self)@[key@],
                None => !old(self)@.dom().contains(key@),
            },
    {
        let ghost before = self.entries@;
        let (i, found) = self.place(&key);
        let ghost k = key@;
        proof {
            K::lemma_irreflexive(k);
        }
        if found {
            let out = self.entries.remove(i);
            self.entries.insert(i, (key, value));
            let ghost after = self.entries@;
            proof {
                assert(after =~= before.update(i as int, (key, value)));
                assert(rising(after)) by {
                    assert forall|a: int, b: int| 0 <= a < b < after.len() implies K::before(
                        (#[trigger] after[a]).0@,
                        (#[trigger] after[b]).0@,
                    ) by {
                        assert(before[a].0@ == after[a].0@ && before[b].0@ == after[b].0@);
                    }
                }
                lemma_map_of_entry(before, i as int);
                lemma_map_insert(before, after, i as int, i as int, key, value);
            }
            Some(out.1)
        } else {
            self.entries.insert(i, (key, value));
            let ghost after = self.entries@;
            proof {
                assert(after =~= before.insert(i as int, (key, value)));
                assert(rising(after)) by {
                    assert forall|a: int, b: int| 0 <= a < b < after.len() implies K::before(
                        (#[trigger] after[a]).0@,
                        (#[trigger] after[b]).0@,
                    ) by {
                        let x = if a < i { a } else { a - 1 };
                        let y = if b < i { b } else { b - 1 };
                        if a != i && b != i {
                            assert(after[a] == before[x] && after[b] == before[y]);
                        } else if a == i {
                            assert(after[b] == before[y]);
                        } else {
                            assert(after[a] == before[x]);
                        }
                    }
                }
                assert(!keyed(before, k)) by {
                    assert forall|j: int| 0 <= j < before.len() implies (
                    #[trigger] before[j]).0@ != k by {}
                }
                lemma_map_insert(before, after, i as int, -1, key, value);
            }
            None
        }
    }

    /// Take a key out; what stood under it comes back.
    pub fn remove(&mut self, key: &K) -> (r: Option<T>)
        requires
            old(self).wf(),
        ensures
            final(self).wf(),
            final(self)@ == old(self)@.remove(key@),
            match r {
                Some(v) => old(self)@.dom().contains(key@) && v == old(self)@[key@],
                None => !old(self)@.dom().contains(key@),
            },
    {
        let ghost before = self.entries@;
        match self.find(key) {
            Some(i) => {
                let out = self.entries.remove(i);
                let ghost after = self.entries@;
                proof {
                    lemma_rising_remove(before, i as int);
                }
                Some(out.1)
            },
            None => {
                assert(self@ =~= self@.remove(key@));
                None
            },
        }
    }

    /// Drop every entry.
    pub fn clear(&mut self)
        ensures
            final(self).wf(),
            final(self).entries@.len() == 0,
            final(self)@ == Map::<K::V, T>::empty(),
    {
        self.entries.clear();
        assert(self@ =~= Map::<K::V, T>::empty());
    }
}

/// Entries with one key put in stand for the map with that key put in.
proof fn lemma_map_insert<K: Key, T>(
    before: Seq<(K, T)>,
    after: Seq<(K, T)>,
    i: int,
    at: int,
    key: K,
    value: T,
)
    requires
        rising(before),
        rising(after),
        at == i ==> 0 <= i < before.len() && before[i].0@ == key@ && after == before.update(
            i,
            (key, value),
        ),
        at != i ==> 0 <= i <= before.len() && after == before.insert(i, (key, value)) && !keyed(
            before,
            key@,
        ),
    ensures
        map_of(after) == map_of(before).insert(key@, value),
{
    let m = map_of(before).insert(key@, value);
    let n = map_of(after);
    assert(after[i] == (key, value));
    lemma_map_of_entry(after, i);
    assert forall|k: K::V| #[trigger] n.dom().contains(k) <==> m.dom().contains(k) by {
        if n.dom().contains(k) && k != key@ {
            let j = choose|j: int| 0 <= j < after.len() && (#[trigger] after[j]).0@ == k;
            if at == i || j < i {
                assert(before[j].0@ == k);
            } else {
                assert(before[j - 1].0@ == k);
            }
        }
        if m.dom().contains(k) && k != key@ {
            let j = choose|j: int| 0 <= j < before.len() && (#[trigger] before[j]).0@ == k;
            if at == i || j < i {
                assert(after[j].0@ == k);
            } else {
                assert(after[j + 1].0@ == k);
            }
        }
    }
    assert forall|k: K::V| #[trigger] n.dom().contains(k) implies n[k] == m[k] by {
        if k != key@ {
            let j = choose|j: int| 0 <= j < after.len() && (#[trigger] after[j]).0@ == k;
            lemma_map_of_entry(after, j);
            if at == i || j < i {
                assert(before[j] == after[j]);
                lemma_map_of_entry(before, j);
            } else {
                assert(before[j - 1] == after[j]);
                lemma_map_of_entry(before, j - 1);
            }
        }
    }
    assert(n =~= m);
}

/// Entries without one of them stand for the map without its key.
pub proof fn lemma_rising_remove<K: Key, T>(s: Seq<(K, T)>, i: int)
    requires
        rising(s),
        0 <= i < s.len(),
    ensures
        rising(s.remove(i)),
        map_of(s.remove(i)) == map_of(s).remove(s[i].0@),
{
    let after = s.remove(i);
    assert forall|a: int, b: int| 0 <= a < b < after.len() implies K::before(
        (#[trigger] after[a]).0@,
        (#[trigger] after[b]).0@,
    ) by {
        let x = if a < i { a } else { a + 1 };
        let y = if b < i { b } else { b + 1 };
        assert(after[a] == s[x] && after[b] == s[y]);
    }
    let m = map_of(s).remove(s[i].0@);
    let n = map_of(after);
    assert forall|k: K::V| #[trigger] n.dom().contains(k) <==> m.dom().contains(k) by {
        if n.dom().contains(k) {
            let j = choose|j: int| 0 <= j < after.len() && (#[trigger] after[j]).0@ == k;
            let x = if j < i { j } else { j + 1 };
            assert(after[j] == s[x]);
            assert(s[x].0@ == k);
            if k == s[i].0@ {
                lemma_rising_unique(s, i, x);
            }
        }
        if m.dom().contains(k) {
            let j = choose|j: int| 0 <= j < s.len() && (#[trigger] s[j]).0@ == k;
            let x = if j < i { j } else { j - 1 };
            assert(j != i);
            assert(after[x] == s[j]);
        }
    }
    assert forall|k: K::V| #[trigger] n.dom().contains(k) implies n[k] == m[k] by {
        let j = choose|j: int| 0 <= j < after.len() && (#[trigger] after[j]).0@ == k;
        let x = if j < i { j } else { j + 1 };
        lemma_map_of_entry(after, j);
        assert(after[j] == s[x]);
        lemma_map_of_entry(s, x);
    }
    assert(n =~= m);
}

/// A set of strings.
pub type TextSet = OrdMap<String, ()>;

/// The set of some names.
pub open spec fn name_set(names: Seq<Seq<char>>) -> Set<Seq<char>> {
    Set::new(|k: Seq<char>| names.contains(k))
}

impl OrdMap<String, ()> {
    /// The set of the names in a list.
    pub fn of_names(names: &Vec<String>) -> (r: Self)
        ensures
            r.wf(),
            r@.dom() == name_set(names.deep_view()),
    {
        let ghost all = names.deep_view();
        let mut r: OrdMap<String, ()> = OrdMap::new();
        let mut i: usize = 0;
        assert(r@.dom() =~= name_set(all.take(0)));
        while i < names.len()
            invariant
                i <= names@.len(),
                all == names.deep_view(),
                r.wf(),
                r@.dom() == name_set(all.take(i as int)),
            decreases names@.len() - i,
        {
            let ghost before = r@.dom();
            r.insert(names[i].clone(), ());
            proof {
                let front = all.take(i as int);
                let next = all.take(i + 1);
                assert(next =~= front.push(all[i as int]));
                assert(names@[i as int]@ == all[i as int]);
                assert forall|k: Seq<char>| r@.dom().contains(k) <==> next.contains(k) by {
                    if front.contains(k) {
                        let j = choose|j: int| 0 <= j < front.len() && front[j] == k;
                        assert(next[j] == k);
                    }
                    if k == all[i as int] {
                        assert(next[i as int] == k);
                    }
                    if next.contains(k) && k != all[i as int] {
                        let j = choose|j: int| 0 <= j < next.len() && next[j] == k;
                        assert(front[j] == k);
                    }
                }
                assert(r@.dom() =~= name_set(next));
            }
            i = i + 1;
        }
        assert(all.take(i as int) =~= all);
        r
    }

    /// Is a string in the set?
    pub fn has(&self, name: &str) -> (r: bool)
        requires
            self.wf(),
        ensures
            r == self@.dom().contains(name@),
    {
        let key = name.to_owned();
        self.contains(&key)
    }

    /// The names of this set that stand in another, or those that do not.
    pub fn picked(&self, other: &Self, inside: bool) -> (r: Self)
        requires
            self.wf(),
            other.wf(),
        ensures
            r.wf(),
            r@.dom() == picked_names(self@.dom(), other@.dom(), inside),
    {
        let mut r: OrdMap<String, ()> = OrdMap::new();
        let mut i: usize = 0;
        assert(r@.dom() =~= Set::<Seq<char>>::empty());
        while i < self.entries.len()
            invariant
                self.wf(),
                other.wf(),
                r.wf(),
                i <= self.entries@.len(),
                forall|k: Seq<char>| #[trigger]
                    r@.dom().contains(k) <==> (has_key(self.entries@, i as int, k)
                        && other@.dom().contains(k) == inside),
            decreases self.entries@.len() - i,
        {
            if other.contains(&self.entries[i].0) == inside {
                r.insert(self.entries[i].0.clone(), ());
            }
            proof {
                lemma_has_key_next(self.entries@, i as int);
            }
            i = i + 1;
        }
        assert(r@.dom() =~= picked_names(self@.dom(), other@.dom(), inside));
        r
    }

    /// The set without one name.
    pub fn without(&self, name: &str) -> (r: Self)
        requires
            self.wf(),
        ensures
            r.wf(),
            r@.dom() == self@.dom().remove(name@),
    {
        let mut one: OrdMap<String, ()> = OrdMap::new();
        one.insert(name.to_owned(), ());
        let r = self.picked(&one, false);
        assert(r@.dom() =~= self@.dom().remove(name@));
        r
    }

    /// Put every name of another set in.
    pub fn extend(&mut self, other: &Self)
        requires
            old(self).wf(),
            other.wf(),
        ensures
            final(self).wf(),
            final(self)@.dom() == old(self)@.dom().union(other@.dom()),
    {
        let ghost before = self@.dom();
        let mut i: usize = 0;
        while i < other.entries.len()
            invariant
                self.wf(),
                other.wf(),
                i <= other.entries@.len(),
                forall|k: Seq<char>| #[trigger]
                    self@.dom().contains(k) <==> (before.contains(k) || has_key(
                        other.entries@,
                        i as int,
                        k,
                    )),
            decreases other.entries@.len() - i,
        {
            self.insert(other.entries[i].0.clone(), ());
            proof {
                lemma_has_key_next(other.entries@, i as int);
            }
            i = i + 1;
        }
        assert(self@.dom() =~= before.union(other@.dom()));
    }

    /// The names in order.
    pub fn names(&self) -> (r: Vec<String>)
        requires
            self.wf(),
        ensures
            lists(r.deep_view(), self@.dom()),
    {
        let mut r: Vec<String> = Vec::new();
        let mut i: usize = 0;
        while i < self.entries.len()
            invariant
                self.wf(),
                i <= self.entries@.len(),
                r@.len() == i,
                forall|j: int| 0 <= j < i ==> (#[trigger] r@[j])@ == self.entries@[j].0@,
            decreases self.entries@.len() - i,
        {
            r.push(self.entries[i].0.clone());
            i = i + 1;
        }
        proof {
            let s = r.deep_view();
            assert forall|i: int, j: int| 0 <= i < j < s.len() implies crate::text::text_before(
                #[trigger] s[i],
                #[trigger] s[j],
            ) by {
                assert(s[i] == self.entries@[i].0@ && s[j] == self.entries@[j].0@);
                assert(String::before(self.entries@[i].0@, self.entries@[j].0@));
            }
            assert forall|k: Seq<char>| s.contains(k) <==> self@.dom().contains(k) by {
                if s.contains(k) {
                    let j = choose|j: int| 0 <= j < s.len() && s[j] == k;
                    assert(self.entries@[j].0@ == k);
                }
                if self@.dom().contains(k) {
                    let j = choose|j: int|
                        0 <= j < self.entries@.len() && (#[trigger] self.entries@[j]).0@ == k;
                    assert(s[j] == k);
                }
            }
            assert(name_set(s) =~= self@.dom());
        }
        r
    }

    pub fn copy(&self) -> (r: Self)
        requires
            self.wf(),
        ensures
            r.wf(),
            r@.dom() == self@.dom(),
    {
        let nothing: OrdMap<String, ()> = OrdMap::new();
        let r = self.picked(&nothing, false);
        assert(r@.dom() =~= self@.dom());
        r
    }
}

impl<T> OrdMap<String, T> {
    /// The names that are keys.
    pub fn key_set(&self) -> (r: OrdMap<String, ()>)
        requires
            self.wf(),
        ensures
            r.wf(),
            r@.dom() == self@.dom(),
    {
        let mut r: OrdMap<String, ()> = OrdMap::new();
        let mut i: usize = 0;
        while i < self.entries.len()
            invariant
                self.wf(),
                r.wf(),
                i <= self.entries@.len(),
                forall|k: Seq<char>| #[trigger]
                    r@.dom().contains(k) <==> has_key(self.entries@, i as int, k),
            decreases self.entries@.len() - i,
        {
            r.insert(self.entries[i].0.clone(), ());
            proof {
                lemma_has_key_next(self.entries@, i as int);
            }
            i = i + 1;
        }
        assert(r@.dom() =~= self@.dom());
        r
    }
}

/// The names of a set that stand in another, or those that do not.
pub open spec fn picked_names(
    set: Set<Seq<char>>,
    other: Set<Seq<char>>,
    inside: bool,
) -> Set<Seq<char>> {
    Set::new(|k: Seq<char>| set.contains(k) && other.contains(k) == inside)
}

/// A list holds the names of a set, each once, in rising order.
pub open spec fn lists(s: Seq<Seq<char>>, set: Set<Seq<char>>) -> bool {
    &&& forall|i: int, j: int|
        0 <= i < j < s.len() ==> crate::text::text_before(#[trigger] s[i], #[trigger] s[j])
    &&& name_set(s) == set
}

/// Only one list holds the names of a set in rising order.
pub proof fn lemma_lists_unique(a: Seq<Seq<char>>, b: Seq<Seq<char>>, set: Set<Seq<char>>)
    requires
        lists(a, set),
        lists(b, set),
    ensures
        a == b,
    decreases a.len(),
{
    if a.len() == 0 {
        if b.len() > 0 {
            assert(b.contains(b[0]));
            assert(name_set(b).contains(b[0]));
            assert(a.contains(b[0]));
        }
        assert(a =~= b);
    } else {
        let x = a.last();
        assert(a.contains(x));
        assert(name_set(a).contains(x));
        assert(b.contains(x));
        let y = b.last();
        assert(b.contains(y));
        assert(name_set(b).contains(y));
        assert(a.contains(y));
        let i = choose|i: int| 0 <= i < b.len() && b[i] == x;
        let j = choose|j: int| 0 <= j < a.len() && a[j] == y;
        if x != y {
            assert(crate::text::text_before(b[i], b[b.len() - 1]));
            assert(crate::text::text_before(a[j], a[a.len() - 1]));
            crate::text::lemma_text_before_transitive(x, y, x);
            crate::text::lemma_text_before_irreflexive(x);
        }
        let rest = set.remove(x);
        lemma_lists_front(a, set);
        lemma_lists_front(b, set);
        lemma_lists_unique(a.drop_last(), b.drop_last(), rest);
        assert(a =~= a.drop_last().push(x));
        assert(b =~= b.drop_last().push(x));
    }
}

proof fn lemma_lists_front(a: Seq<Seq<char>>, set: Set<Seq<char>>)
    requires
        lists(a, set),
        a.len() > 0,
    ensures
        lists(a.drop_last(), set.remove(a.last())),
{
    let f = a.drop_last();
    assert forall|k: Seq<char>| f.contains(k) <==> (set.contains(k) && k != a.last()) by {
        if f.contains(k) {
            let i = choose|i: int| 0 <= i < f.len() && f[i] == k;
            assert(a[i] == k);
            assert(a.contains(k));
            assert(name_set(a).contains(k));
            assert(crate::text::text_before(a[i], a[a.len() - 1]));
            crate::text::lemma_text_before_irreflexive(k);
        }
        if set.contains(k) && k != a.last() {
            assert(name_set(a).contains(k));
            let i = choose|i: int| 0 <= i < a.len() && a[i] == k;
            assert(f[i] == k);
        }
    }
    assert(name_set(f) =~= set.remove(a.last()));
}

/// One of the first `n` entries has the key.
pub open spec fn has_key<K: Key, T>(s: Seq<(K, T)>, n: int, k: K::V) -> bool {
    exists|i: int| 0 <= i < n && (#[trigger] s[i]).0@ == k
}

pub proof fn lemma_has_key_next<K: Key, T>(s: Seq<(K, T)>, n: int)
    requires
        0 <= n < s.len(),
    ensures
        forall|k: K::V| #[trigger] has_key(s, n + 1, k) <==> (has_key(s, n, k) || s[n].0@ == k),
{
    assert forall|k: K::V| #[trigger] has_key(s, n + 1, k) <==> (has_key(s, n, k) || s[n].0@ == k)
        by {
        if has_key(s, n, k) {
            let i = choose|i: int| 0 <= i < n && (#[trigger] s[i]).0@ == k;
            assert(0 <= i < n + 1 && s[i].0@ == k);
        }
        if s[n].0@ == k {
            assert(0 <= n < n + 1 && s[n].0@ == k);
        }
    }
}

/// The part of a map that a rule keeps.
pub open spec fn kept<A, T>(m: Map<A, T>, rule: spec_fn(A, T) -> bool) -> Map<A, T> {
    Map::new(|k: A| m.dom().contains(k) && rule(k, m[k]), |k: A| m[k])
}

impl<K: Key, T> OrdMap<K, T> {
    /// Keep the entries that a rule keeps, and drop the others.
    pub fn retain<F: Fn(&K, &T) -> bool>(
        &mut self,
        keep: F,
        rule: Ghost<spec_fn(K::V, T) -> bool>,
    )
        requires
            old(self).wf(),
            forall|k: K, t: T| keep.requires((&k, &t)),
            forall|k: K, t: T, r: bool| #[trigger]
                keep.ensures((&k, &t), r) ==> r == (rule@)(k@, t),
        ensures
            final(self).wf(),
            final(self)@ == kept(old(self)@, rule@),
            final(self).entries@.len() <= old(self).entries@.len(),
            final(self).entries@.len() == old(self).entries@.len() ==> final(self).entries@
                == old(self).entries@,
    {
        let ghost before = self@;
        let ghost all = self.entries@;
        let mut i: usize = 0;
        while i < self.entries.len()
            invariant
                self.wf(),
                i <= self.entries@.len() <= all.len(),
                self.entries@.len() == all.len() ==> self.entries@ == all,
                forall|k: K, t: T| keep.requires((&k, &t)),
                forall|k: K, t: T, r: bool| #[trigger]
                    keep.ensures((&k, &t), r) ==> r == (rule@)(k@, t),
                forall|k: K::V| #[trigger]
                    self@.dom().contains(k) ==> before.dom().contains(k) && self@[k] == before[k],
                forall|k: K::V| #[trigger]
                    before.dom().contains(k) ==> self@.dom().contains(k) || !(rule@)(k, before[k]),
                forall|j: int|
                    0 <= j < i ==> (rule@)(
                        (#[trigger] self.entries@[j]).0@,
                        self.entries@[j].1,
                    ),
            decreases self.entries@.len() - i,
        {
            let ghost now = self.entries@;
            let ghost m = self@;
            proof {
                lemma_map_of_entry(now, i as int);
            }
            if keep(&self.entries[i].0, &self.entries[i].1) {
                i = i + 1;
            } else {
                let gone = self.entries.remove(i);
                proof {
                    lemma_rising_remove(now, i as int);
                    assert(self.entries@ =~= now.remove(i as int));
                    let key = now[i as int].0@;
                    assert(self@ == m.remove(key));
                    assert forall|k: K::V| #[trigger] self@.dom().contains(k) implies (
                    before.dom().contains(k) && self@[k] == before[k]) by {
                        assert(m.dom().contains(k));
                        assert(m.remove(key)[k] == m[k]);
                    }
                    assert forall|j: int| 0 <= j < i implies (rule@)(
                        (#[trigger] self.entries@[j]).0@,
                        self.entries@[j].1,
                    ) by {
                        assert(self.entries@[j] == now[j]);
                    }
                }
            }
        }
        proof {
            assert forall|k: K::V| #[trigger] self@.dom().contains(k) implies (rule@)(
                k,
                before[k],
            ) by {
                let j = choose|j: int|
                    0 <= j < self.entries@.len() && (#[trigger] self.entries@[j]).0@ == k;
                lemma_map_of_entry(self.entries@, j);
            }
            assert(self@ =~= kept(before, rule@));
        }
    }

    /// Does every key of this table stand in the other?
    fn within<U>(&self, other: &OrdMap<K, U>) -> (r: bool)
        requires
            self.wf(),
            other.wf(),
        ensures
            r == self@.dom().subset_of(other@.dom()),
    {
        let mut i: usize = 0;
        while i < self.entries.len()
            invariant
                self.wf(),
                other.wf(),
                i <= self.entries@.len(),
                forall|j: int|
                    0 <= j < i ==> other@.dom().contains((#[trigger] self.entries@[j]).0@),
            decreases self.entries@.len() - i,
        {
            if !other.contains(&self.entries[i].0) {
                proof {
                    lemma_map_of_entry(self.entries@, i as int);
                }
                return false;
            }
            i = i + 1;
        }
        true
    }

    /// Do two tables hold the same keys?
    pub fn same_keys<U>(&self, other: &OrdMap<K, U>) -> (r: bool)
        requires
            self.wf(),
            other.wf(),
        ensures
            r == (self@.dom() == other@.dom()),
    {
        let r = self.within(other) && other.within(self);
        proof {
            if r {
                assert(self@.dom() =~= other@.dom());
            }
        }
        r
    }
}

} // verus!
