//! A map from texts to values that keeps its keys in order.

use vstd::prelude::*;

use crate::text::chars_of;

verus! {

// ---------------------------------------------------------------------------------------------
// The order of texts

/// `a` stands before `b` in the order of their characters, which is that of their UTF-8 bytes.
pub open spec fn text_before(a: Seq<char>, b: Seq<char>) -> bool
    decreases a.len(),
{
    if b.len() == 0 {
        false
    } else if a.len() == 0 {
        true
    } else if a[0] == b[0] {
        text_before(a.skip(1), b.skip(1))
    } else {
        a[0] < b[0]
    }
}

/// Texts are ordered by their first difference: the lower character comes first, and a text comes
/// before all that begin with it.
pub proof fn the_first_difference_decides(
    front: Seq<char>,
    x: char,
    a: Seq<char>,
    y: char,
    b: Seq<char>,
)
    ensures
        x < y ==> text_before(front + seq![x] + a, front + seq![y] + b),
        x < y ==> !text_before(front + seq![y] + b, front + seq![x] + a),
        text_before(front, front + seq![x] + a),
        !text_before(front + seq![x] + a, front),
    decreases front.len(),
{
    let left = front + seq![x] + a;
    let right = front + seq![y] + b;
    if front.len() > 0 {
        let rest = front.skip(1);
        the_first_difference_decides(rest, x, a, y, b);
        assert(left.skip(1) =~= rest + seq![x] + a);
        assert(right.skip(1) =~= rest + seq![y] + b);
        assert(left[0] == front[0] && right[0] == front[0]);
    }
}

pub proof fn lemma_before_irreflexive(a: Seq<char>)
    ensures
        !text_before(a, a),
    decreases a.len(),
{
    if a.len() > 0 {
        lemma_before_irreflexive(a.skip(1));
    }
}

pub proof fn lemma_before_transitive(a: Seq<char>, b: Seq<char>, c: Seq<char>)
    requires
        text_before(a, b),
        text_before(b, c),
    ensures
        text_before(a, c),
    decreases a.len(),
{
    if a.len() > 0 && a[0] == b[0] && b[0] == c[0] {
        lemma_before_transitive(a.skip(1), b.skip(1), c.skip(1));
    }
}

pub proof fn lemma_before_total(a: Seq<char>, b: Seq<char>)
    ensures
        text_before(a, b) || a == b || text_before(b, a),
    decreases a.len(),
{
    if a.len() == 0 {
        if b.len() == 0 {
            assert(a =~= b);
        }
    } else if b.len() > 0 && a[0] == b[0] {
        lemma_before_total(a.skip(1), b.skip(1));
        if a.skip(1) == b.skip(1) {
            assert(a.skip(1).len() == b.skip(1).len());
            assert forall|i: int| 0 <= i < a.len() implies a[i] == b[i] by {
                if i > 0 {
                    assert(a[i] == a.skip(1)[i - 1]);
                    assert(b[i] == b.skip(1)[i - 1]);
                }
            }
            assert(a =~= b);
        }
    }
}

/// How one text stands to another in the order of texts.
#[derive(Clone, Copy, Debug, PartialEq, Eq, Structural)]
pub enum Side {
    Before,
    Same,
    After,
}

pub open spec fn side_of(a: Seq<char>, b: Seq<char>) -> Side {
    if a == b {
        Side::Same
    } else if text_before(a, b) {
        Side::Before
    } else {
        Side::After
    }
}

/// How `a` stands to `b`.
pub fn side(a: &str, b: &str) -> (r: Side)
    ensures
        r == side_of(a@, b@),
        r == Side::After ==> text_before(b@, a@),
{
    let left = chars_of(a);
    let right = chars_of(b);
    let mut i: usize = 0;
    assert(a@.skip(0) =~= a@);
    assert(b@.skip(0) =~= b@);
    proof {
        lemma_before_total(a@, b@);
        lemma_before_irreflexive(a@);
    }
    while i < left.len() && i < right.len()
        invariant
            left@ == a@,
            right@ == b@,
            i <= left@.len(),
            i <= right@.len(),
            forall|j: int| 0 <= j < i ==> a@[j] == b@[j],
            text_before(a@.skip(i as int), b@.skip(i as int)) == text_before(a@, b@),
            text_before(a@, b@) || a@ == b@ || text_before(b@, a@),
            !text_before(a@, a@),
        decreases left.len() - i,
    {
        if left[i] != right[i] {
            return if left[i] < right[i] {
                Side::Before
            } else {
                Side::After
            };
        }
        assert(a@.skip(i as int).skip(1) =~= a@.skip(i + 1));
        assert(b@.skip(i as int).skip(1) =~= b@.skip(i + 1));
        i += 1;
    }
    if left.len() == right.len() {
        assert(a@ =~= b@);
        Side::Same
    } else if left.len() < right.len() {
        Side::Before
    } else {
        Side::After
    }
}

// ---------------------------------------------------------------------------------------------
// The map

/// The keys run upwards.
pub open spec fn ascending<V>(list: Seq<(Seq<char>, V)>) -> bool {
    forall|i: int, j: int|
        0 <= i < j < list.len() ==> text_before((#[trigger] list[i]).0, (#[trigger] list[j]).0)
}

pub open spec fn has_key<V>(list: Seq<(Seq<char>, V)>, key: Seq<char>) -> bool {
    exists|i: int| 0 <= i < list.len() && (#[trigger] list[i]).0 == key
}

pub open spec fn key_position<V>(list: Seq<(Seq<char>, V)>, key: Seq<char>) -> int {
    choose|i: int| 0 <= i < list.len() && (#[trigger] list[i]).0 == key
}

/// The map that a list of keys and values stands for.
pub open spec fn map_of<V>(list: Seq<(Seq<char>, V)>) -> Map<Seq<char>, V> {
    Map::new(|k: Seq<char>| has_key(list, k), |k: Seq<char>| list[key_position(list, k)].1)
}

/// In a list whose keys run upwards every entry is found under its key.
pub proof fn lemma_map_of<V>(list: Seq<(Seq<char>, V)>, i: int)
    requires
        ascending(list),
        0 <= i < list.len(),
    ensures
        map_of(list).contains_key(list[i].0),
        map_of(list)[list[i].0] == list[i].1,
        key_position(list, list[i].0) == i,
{
    let key = list[i].0;
    assert(has_key(list, key));
    let k = key_position(list, key);
    if k < i {
        assert(text_before(list[k].0, list[i].0));
        lemma_before_irreflexive(key);
    } else if i < k {
        assert(text_before(list[i].0, list[k].0));
        lemma_before_irreflexive(key);
    }
}

/// The map has as many keys as the list has entries.
pub proof fn lemma_map_size<V>(list: Seq<(Seq<char>, V)>)
    requires
        ascending(list),
    ensures
        map_of(list).dom().finite(),
        map_of(list).dom().len() == list.len(),
{
    let keys = Seq::new(list.len(), |i: int| list[i].0);
    assert forall|i: int, j: int| 0 <= i < keys.len() && 0 <= j < keys.len() && i != j implies keys[i]
        != keys[j] by {
        lemma_before_irreflexive(keys[i]);
        if i < j {
            assert(text_before(list[i].0, list[j].0));
        } else {
            assert(text_before(list[j].0, list[i].0));
        }
    }
    keys.unique_seq_to_set();
    assert forall|k: Seq<char>| keys.to_set().contains(k) == #[trigger] map_of(list).dom().contains(
        k,
    ) by {
        if keys.contains(k) {
            let i = choose|i: int| 0 <= i < keys.len() && keys[i] == k;
            assert(list[i].0 == k);
        }
        if has_key(list, k) {
            let i = key_position(list, k);
            assert(keys[i] == k);
        }
    }
    assert(keys.to_set() =~= map_of(list).dom());
}

/// The texts run upwards.
pub open spec fn ascending_names(names: Seq<Seq<char>>) -> bool {
    forall|i: int, j: int|
        0 <= i < j < names.len() ==> text_before(#[trigger] names[i], #[trigger] names[j])
}

/// The texts of a finite set, in order.
pub open spec fn ordered_names(names: Set<Seq<char>>) -> Seq<Seq<char>> {
    choose|list: Seq<Seq<char>>| ascending_names(list) && list.to_set() == names
}

proof fn lemma_ordered_unique(a: Seq<Seq<char>>, b: Seq<Seq<char>>)
    requires
        ascending_names(a),
        ascending_names(b),
        a.to_set() == b.to_set(),
    ensures
        a == b,
    decreases a.len(),
{
    if a.len() == 0 {
        if b.len() > 0 {
            assert(b.to_set().contains(b[0]));
            assert(a.to_set().contains(b[0]));
        }
        assert(a =~= b);
    } else {
        assert(a.to_set().contains(a[0]));
        assert(b.to_set().contains(a[0]));
        assert(b.len() > 0);
        let x = a.last();
        let y = b.last();
        assert(a.to_set().contains(x));
        assert(b.to_set().contains(y));
        let i = choose|i: int| 0 <= i < b.len() && b[i] == x;
        let j = choose|j: int| 0 <= j < a.len() && a[j] == y;
        if x != y {
            assert(text_before(b[i], b[b.len() - 1]));
            assert(text_before(a[j], a[a.len() - 1]));
            lemma_before_transitive(x, y, x);
            lemma_before_irreflexive(x);
        }
        let c = a.drop_last();
        let d = b.drop_last();
        assert forall|t: Seq<char>| c.to_set().contains(t) == #[trigger] d.to_set().contains(t) by {
            if c.contains(t) {
                let k = choose|k: int| 0 <= k < c.len() && c[k] == t;
                assert(text_before(a[k], a[a.len() - 1]));
                lemma_before_irreflexive(x);
                assert(a.to_set().contains(a[k]));
                assert(b.to_set().contains(t));
                let m = choose|m: int| 0 <= m < b.len() && b[m] == t;
                assert(d[m] == t);
            }
            if d.contains(t) {
                let k = choose|k: int| 0 <= k < d.len() && d[k] == t;
                assert(text_before(b[k], b[b.len() - 1]));
                lemma_before_irreflexive(y);
                assert(b.to_set().contains(b[k]));
                assert(a.to_set().contains(t));
                let m = choose|m: int| 0 <= m < a.len() && a[m] == t;
                assert(c[m] == t);
            }
        }
        assert(c.to_set() =~= d.to_set());
        assert(ascending_names(c)) by {
            assert forall|p: int, q: int| 0 <= p < q < c.len() implies text_before(
                #[trigger] c[p],
                #[trigger] c[q],
            ) by {
                assert(c[p] == a[p] && c[q] == a[q]);
            }
        }
        assert(ascending_names(d)) by {
            assert forall|p: int, q: int| 0 <= p < q < d.len() implies text_before(
                #[trigger] d[p],
                #[trigger] d[q],
            ) by {
                assert(d[p] == b[p] && d[q] == b[q]);
            }
        }
        lemma_ordered_unique(c, d);
        assert(a =~= c.push(x));
        assert(b =~= d.push(y));
    }
}

/// The names of a finite set in order are the names of the set, each once, running upwards.
pub proof fn ordered_names_are_the_names(names: Set<Seq<char>>)
    requires
        exists|list: Seq<Seq<char>>| ascending_names(list) && #[trigger] list.to_set() == names,
    ensures
        forall|k: Seq<char>| names.contains(k) <==> ordered_names(names).contains(k),
        forall|i: int, j: int|
            0 <= i < j < ordered_names(names).len() ==> text_before(
                #[trigger] ordered_names(names)[i],
                #[trigger] ordered_names(names)[j],
            ),
{
    let list = ordered_names(names);
    assert(ascending_names(list) && list.to_set() == names);
    assert forall|k: Seq<char>| names.contains(k) <==> list.contains(k) by {
        assert(list.to_set().contains(k) == list.contains(k));
    }
}

/// The keys of a list.
pub open spec fn names_of<V>(list: Seq<(Seq<char>, V)>) -> Seq<Seq<char>> {
    Seq::new(list.len(), |i: int| list[i].0)
}

/// The keys of a list whose keys run upwards are the keys of its map, in order.
pub proof fn lemma_ordered_names<V>(list: Seq<(Seq<char>, V)>)
    requires
        ascending(list),
    ensures
        names_of(list) == ordered_names(map_of(list).dom()),
{
    let names = names_of(list);
    let keys = map_of(list).dom();
    assert forall|i: int, j: int| 0 <= i < j < names.len() implies text_before(
        #[trigger] names[i],
        #[trigger] names[j],
    ) by {
        assert(text_before(list[i].0, list[j].0));
    }
    assert forall|k: Seq<char>| names.to_set().contains(k) == #[trigger] keys.contains(k) by {
        if names.contains(k) {
            let i = choose|i: int| 0 <= i < names.len() && names[i] == k;
            assert(list[i].0 == k);
        }
        if has_key(list, k) {
            assert(names[key_position(list, k)] == k);
        }
    }
    assert(names.to_set() =~= keys);
    assert(ascending_names(names) && names.to_set() == keys);
    lemma_ordered_unique(names, ordered_names(keys));
}

/// A map from texts to values, ordered by its keys.
pub struct TextMap<V> {
    entries: Vec<(String, V)>,
}

spec fn pairs_of<V>(entries: Seq<(String, V)>) -> Seq<(Seq<char>, V)> {
    Seq::new(entries.len(), |i: int| (entries[i].0@, entries[i].1))
}

impl<V> TextMap<V> {
    /// The entries in the order of their keys.
    pub closed spec fn list(&self) -> Seq<(Seq<char>, V)> {
        pairs_of(self.entries@)
    }

    #[verifier::type_invariant]
    spec fn in_order(self) -> bool {
        ascending(self.list())
    }
}

impl<V> View for TextMap<V> {
    type V = Map<Seq<char>, V>;

    open spec fn view(&self) -> Map<Seq<char>, V> {
        map_of(self.list())
    }
}

impl<V> TextMap<V> {
    /// The empty map.
    pub fn new() -> (r: Self)
        ensures
            r.list() == Seq::<(Seq<char>, V)>::empty(),
            r@ == Map::<Seq<char>, V>::empty(),
    {
        let r = TextMap { entries: Vec::new() };
        assert(r.list() =~= Seq::<(Seq<char>, V)>::empty());
        assert(r@ =~= Map::<Seq<char>, V>::empty());
        r
    }

    /// How many entries there are.
    pub fn len(&self) -> (n: usize)
        ensures
            n == self.list().len(),
            ascending(self.list()),
    {
        proof {
            use_type_invariant(self);
        }
        self.entries.len()
    }

    pub fn is_empty(&self) -> (r: bool)
        ensures
            r == (self.list().len() == 0),
    {
        self.entries.len() == 0
    }

    /// The key at a position.
    pub fn key_at(&self, i: usize) -> (r: &String)
        requires
            i < self.list().len(),
        ensures
            r@ == self.list()[i as int].0,
    {
        &self.entries[i].0
    }

    /// The value at a position.
    pub fn value_at(&self, i: usize) -> (r: &V)
        requires
            i < self.list().len(),
        ensures
            *r == self.list()[i as int].1,
    {
        &self.entries[i].1
    }

    /// The first position whose key does not stand before `key`.
    fn lower_bound(&self, key: &str) -> (r: usize)
        ensures
            r <= self.list().len(),
            ascending(self.list()),
            forall|i: int| 0 <= i < r ==> text_before((#[trigger] self.list()[i]).0, key@),
            forall|i: int|
                r <= i < self.list().len() ==> !text_before((#[trigger] self.list()[i]).0, key@),
    {
        proof {
            use_type_invariant(self);
        }
        let ghost all = self.list();
        let mut low: usize = 0;
        let mut high: usize = self.entries.len();
        while low < high
            invariant
                low <= high <= all.len(),
                all == self.list(),
                all.len() == self.entries@.len(),
                ascending(all),
                forall|i: int| 0 <= i < low ==> text_before((#[trigger] all[i]).0, key@),
                forall|i: int| high <= i < all.len() ==> !text_before((#[trigger] all[i]).0, key@),
            decreases high - low,
        {
            let mid: usize = low + (high - low) / 2;
            assert(all[mid as int].0 == self.entries@[mid as int].0@);
            if side(self.entries[mid].0.as_str(), key) == Side::Before {
                assert forall|i: int| 0 <= i < mid + 1 implies text_before(
                    (#[trigger] all[i]).0,
                    key@,
                ) by {
                    if i < mid {
                        lemma_before_transitive(all[i].0, all[mid as int].0, key@);
                    }
                }
                low = mid + 1;
            } else {
                assert(!text_before(all[mid as int].0, key@)) by {
                    lemma_before_irreflexive(key@);
                }
                assert forall|i: int| mid <= i < all.len() implies !text_before(
                    (#[trigger] all[i]).0,
                    key@,
                ) by {
                    if i > mid && text_before(all[i].0, key@) {
                        lemma_before_transitive(all[mid as int].0, all[i].0, key@);
                    }
                }
                high = mid;
            }
        }
        low
    }

    /// The position of a key.
    pub fn find(&self, key: &str) -> (r: Option<usize>)
        ensures
            match r {
                Some(i) => i < self.list().len() && self.list()[i as int].0 == key@
                    && self@.contains_key(key@) && self@[key@] == self.list()[i as int].1,
                None => !self@.contains_key(key@),
            },
    {
        let k = self.lower_bound(key);
        let ghost all = self.list();
        if k < self.entries.len() && side(self.entries[k].0.as_str(), key) == Side::Same {
            assert(all[k as int].0 == self.entries@[k as int].0@);
            proof {
                lemma_map_of(all, k as int);
            }
            Some(k)
        } else {
            assert(!has_key(all, key@)) by {
                if has_key(all, key@) {
                    let i = key_position(all, key@);
                    assert(all[i].0 == key@);
                    if i < k {
                        lemma_before_irreflexive(key@);
                    } else if i > k {
                        assert(text_before(all[k as int].0, all[i].0));
                    } else {
                        assert(all[k as int].0 == self.entries@[k as int].0@);
                    }
                }
            }
            None
        }
    }

    /// The value under a key.
    pub fn get(&self, key: &str) -> (r: Option<&V>)
        ensures
            match r {
                Some(v) => self@.contains_key(key@) && *v == self@[key@],
                None => !self@.contains_key(key@),
            },
    {
        match self.find(key) {
            Some(i) => Some(&self.entries[i].1),
            None => None,
        }
    }

    pub fn contains_key(&self, key: &str) -> (r: bool)
        ensures
            r == self@.contains_key(key@),
    {
        self.find(key).is_some()
    }

    /// Takes a key out, where it is there.
    pub fn remove(&mut self, key: &str)
        ensures
            final(self)@ == old(self)@.remove(key@),
    {
        proof {
            use_type_invariant(&*self);
        }
        let ghost before = self.list();
        let ghost map = self@;
        match self.find(key) {
            Some(k) => {
                let mut entries: Vec<(String, V)> = Vec::new();
                std::mem::swap(&mut entries, &mut self.entries);
                entries.remove(k);
                let ghost after = before.remove(k as int);
                assert(pairs_of(entries@) =~= after);
                assert(ascending(after)) by {
                    assert forall|i: int, j: int| 0 <= i < j < after.len() implies text_before(
                        (#[trigger] after[i]).0,
                        (#[trigger] after[j]).0,
                    ) by {
                        let a = if i < k {
                            i
                        } else {
                            i + 1
                        };
                        let b = if j < k {
                            j
                        } else {
                            j + 1
                        };
                        assert(after[i] == before[a] && after[j] == before[b]);
                    }
                }
                proof {
                    assert forall|q: Seq<char>| map_of(after).contains_key(q)
                        == #[trigger] map.remove(key@).contains_key(q) && (map_of(
                        after,
                    ).contains_key(q) ==> map_of(after)[q] == map.remove(key@)[q]) by {
                        if has_key(after, q) {
                            let i = key_position(after, q);
                            let a = if i < k {
                                i
                            } else {
                                i + 1
                            };
                            assert(after[i] == before[a]);
                            lemma_map_of(after, i);
                            lemma_map_of(before, a);
                            if q == key@ {
                                lemma_map_of(before, k as int);
                            }
                        }
                        if has_key(before, q) && q != key@ {
                            let i = key_position(before, q);
                            let a = if i < k {
                                i
                            } else {
                                i - 1
                            };
                            assert(after[a] == before[i]);
                            lemma_map_of(after, a);
                        }
                    }
                    assert(map_of(after).dom() =~= map.remove(key@).dom());
                    assert(map_of(after) =~= map.remove(key@));
                }
                self.entries = entries;
            },
            None => {
                assert(self@.remove(key@) =~= self@);
            },
        }
    }

    /// Exchanges the value at a position for another one.
    pub fn exchange(&mut self, i: usize, value: &mut V)
        requires
            i < old(self).list().len(),
        ensures
            *final(value) == old(self).list()[i as int].1,
            final(self)@ == old(self)@.insert(old(self).list()[i as int].0, *old(value)),
    {
        proof {
            use_type_invariant(&*self);
        }
        let ghost before = self.list();
        let ghost after = before.update(i as int, (before[i as int].0, *value));
        let mut entries: Vec<(String, V)> = Vec::new();
        std::mem::swap(&mut entries, &mut self.entries);
        std::mem::swap(&mut entries[i].1, value);
        assert(pairs_of(entries@) =~= after);
        assert(ascending(after)) by {
            assert forall|a: int, b: int| 0 <= a < b < after.len() implies text_before(
                (#[trigger] after[a]).0,
                (#[trigger] after[b]).0,
            ) by {
                assert(after[a].0 == before[a].0);
                assert(after[b].0 == before[b].0);
            }
        }
        proof {
            lemma_insert_map(before, after, i as int, before[i as int].0, after[i as int].1);
        }
        self.entries = entries;
    }

    /// Puts a value under a key, in the place of one that stood there.
    pub fn insert(&mut self, key: String, value: V)
        ensures
            final(self)@ == old(self)@.insert(key@, value),
            final(self)@.dom().finite(),
    {
        let ghost before = self.list();
        let ghost name = key@;
        let k = self.lower_bound(key.as_str());
        let present: bool = k < self.entries.len() && side(
            self.entries[k].0.as_str(),
            key.as_str(),
        ) == Side::Same;
        let mut entries: Vec<(String, V)> = Vec::new();
        std::mem::swap(&mut entries, &mut self.entries);
        let ghost old_entries = entries@;
        assert(forall|i: int|
            0 <= i < before.len() ==> (#[trigger] before[i]) == (
                old_entries[i].0@,
                old_entries[i].1,
            ));
        if present {
            assert(before[k as int].0 == name);
            entries.set(k, (key, value));
            let ghost after = before.update(k as int, (name, value));
            assert(ascending(after)) by {
                assert forall|i: int, j: int| 0 <= i < j < after.len() implies text_before(
                    (#[trigger] after[i]).0,
                    (#[trigger] after[j]).0,
                ) by {
                    assert(after[i].0 == before[i].0);
                    assert(after[j].0 == before[j].0);
                }
            }
            proof {
                lemma_insert_map(before, after, k as int, name, value);
            }
            assert(pairs_of(entries@) =~= after);
            self.entries = entries;
            proof {
                lemma_map_size(after);
            }
        } else {
            entries.insert(k, (key, value));
            let ghost after = before.insert(k as int, (name, value));
            assert(ascending(after)) by {
                assert forall|i: int| k <= i < before.len() implies text_before(
                    name,
                    (#[trigger] before[i]).0,
                ) by {
                    lemma_before_total(before[i].0, name);
                    if before[i].0 == name {
                        if i > k {
                            assert(text_before(before[k as int].0, before[i].0));
                        } else {
                            assert(before[k as int].0 == old_entries[k as int].0@);
                        }
                    }
                }
                assert forall|i: int, j: int| 0 <= i < j < after.len() implies text_before(
                    (#[trigger] after[i]).0,
                    (#[trigger] after[j]).0,
                ) by {
                    if i < k {
                        assert(after[i] == before[i]);
                    } else if i > k {
                        assert(after[i] == before[i - 1]);
                    }
                    if j < k {
                        assert(after[j] == before[j]);
                    } else if j > k {
                        assert(after[j] == before[j - 1]);
                    }
                }
            }
            proof {
                lemma_insert_map(before, after, k as int, name, value);
            }
            assert(pairs_of(entries@) =~= after);
            self.entries = entries;
            proof {
                lemma_map_size(after);
            }
        }
    }
}

proof fn lemma_insert_map<V>(
    before: Seq<(Seq<char>, V)>,
    after: Seq<(Seq<char>, V)>,
    k: int,
    key: Seq<char>,
    value: V,
)
    requires
        ascending(before),
        ascending(after),
        0 <= k <= before.len(),
        (k < before.len() && before[k].0 == key && after == before.update(k, (key, value)))
            || after == before.insert(k, (key, value)),
    ensures
        map_of(after) == map_of(before).insert(key, value),
{
    let left = map_of(after);
    let right = map_of(before).insert(key, value);
    lemma_map_of(after, k);
    let replaced = after.len() == before.len();
    assert forall|q: Seq<char>| left.contains_key(q) == #[trigger] right.contains_key(q) && (
    left.contains_key(q) ==> left[q] == right[q]) by {
        if q != key {
            if has_key(before, q) {
                let i = key_position(before, q);
                lemma_map_of(before, i);
                if replaced || i < k {
                    assert(after[i] == before[i]);
                    lemma_map_of(after, i);
                } else {
                    assert(after[i + 1] == before[i]);
                    lemma_map_of(after, i + 1);
                }
            }
            if has_key(after, q) {
                let i = key_position(after, q);
                assert(i != k);
                if replaced || i < k {
                    assert(after[i] == before[i]);
                } else {
                    assert(after[i] == before[i - 1]);
                }
                assert(has_key(before, q));
            }
        }
    }
    assert(left =~= right);
}

} // verus!
