//! Values found by name.
use crate::text::same_str;
use vstd::prelude::*;

verus! {

/// Values under names, in the order in which the names were first given.
#[derive(Debug)]
pub struct Named<T> {
    pub entries: Vec<(String, T)>,
}

impl<T: DeepView> DeepView for Named<T> {
    type V = Seq<(Seq<char>, T::V)>;

    open spec fn deep_view(&self) -> Seq<(Seq<char>, T::V)> {
        Seq::new(
            self.entries@.len(),
            |i: int| (self.entries@[i].0@, self.entries@[i].1.deep_view()),
        )
    }
}

/// The value under a name.
pub open spec fn find<K, V>(s: Seq<(K, V)>, name: K) -> Option<V>
    decreases s.len(),
{
    if s.len() == 0 {
        None
    } else if s[0].0 == name {
        Some(s[0].1)
    } else {
        find(s.drop_first(), name)
    }
}

/// Whether there is a value under a name.
pub open spec fn has_name<K, V>(s: Seq<(K, V)>, name: K) -> bool {
    exists|i: int| 0 <= i < s.len() && (#[trigger] s[i]).0 == name
}

/// Whether every name is given once.
pub open spec fn names_distinct<K, V>(s: Seq<(K, V)>) -> bool {
    forall|i: int, j: int|
        0 <= i < j < s.len() ==> (#[trigger] s[i]).0 != (#[trigger] s[j]).0
}

/// The values after one has been put under a name, in place of what was there.
pub open spec fn with_value<K, V>(s: Seq<(K, V)>, name: K, value: V) -> Seq<(K, V)>
    decreases s.len(),
{
    if s.len() == 0 {
        seq![(name, value)]
    } else if s[0].0 == name {
        s.update(0, (name, value))
    } else {
        seq![s[0]] + with_value(s.drop_first(), name, value)
    }
}

pub proof fn lemma_find<K, V>(s: Seq<(K, V)>, name: K, i: int)
    requires
        0 <= i <= s.len(),
        forall|j: int| 0 <= j < i ==> (#[trigger] s[j]).0 != name,
        i < s.len() ==> s[i].0 == name,
    ensures
        find(s, name) == (if i < s.len() {
            Some(s[i].1)
        } else {
            None
        }),
        has_name(s, name) == (i < s.len()),
    decreases s.len(),
{
    if s.len() > 0 && s[0].0 != name {
        let t = s.drop_first();
        assert forall|j: int| 0 <= j < i - 1 implies (#[trigger] t[j]).0 != name by {
            assert(t[j] == s[j + 1]);
        }
        lemma_find(t, name, i - 1);
    }
    if i < s.len() {
        assert(s[i].0 == name);
    }
}

pub proof fn lemma_found_by_name<K, V>(s: Seq<(K, V)>, name: K)
    ensures
        find(s, name) is Some <==> has_name(s, name),
{
    lemma_position(s, name);
    lemma_find(s, name, position(s, name));
}

pub proof fn lemma_with_value<K, V>(s: Seq<(K, V)>, name: K, value: V, i: int)
    requires
        0 <= i <= s.len(),
        forall|j: int| 0 <= j < i ==> (#[trigger] s[j]).0 != name,
        i < s.len() ==> s[i].0 == name,
    ensures
        with_value(s, name, value) == (if i < s.len() {
            s.update(i, (name, value))
        } else {
            s.push((name, value))
        }),
    decreases s.len(),
{
    if s.len() > 0 && s[0].0 != name {
        let t = s.drop_first();
        assert forall|j: int| 0 <= j < i - 1 implies (#[trigger] t[j]).0 != name by {
            assert(t[j] == s[j + 1]);
        }
        lemma_with_value(t, name, value, i - 1);
        if i < s.len() {
            assert(seq![s[0]] + t.update(i - 1, (name, value)) =~= s.update(i, (name, value)));
        } else {
            assert(seq![s[0]] + t.push((name, value)) =~= s.push((name, value)));
        }
    } else if s.len() == 0 {
        assert(s.push((name, value)) =~= seq![(name, value)]);
    }
}

/// The position of the name, or the number of entries.
spec fn position<K, V>(s: Seq<(K, V)>, name: K) -> int
    decreases s.len(),
{
    if s.len() == 0 || s[0].0 == name {
        0
    } else {
        1 + position(s.drop_first(), name)
    }
}

proof fn lemma_position<K, V>(s: Seq<(K, V)>, name: K)
    ensures
        0 <= position(s, name) <= s.len(),
        forall|j: int| 0 <= j < position(s, name) ==> (#[trigger] s[j]).0 != name,
        position(s, name) < s.len() ==> s[position(s, name)].0 == name,
    decreases s.len(),
{
    if s.len() > 0 && s[0].0 != name {
        lemma_position(s.drop_first(), name);
        assert forall|j: int| 0 <= j < position(s, name) implies (#[trigger] s[j]).0 != name by {
            if j > 0 {
                assert(s[j] == s.drop_first()[j - 1]);
            }
        }
    }
}

/// What was put under a name is found under it, and what is under the other
/// names stays.
pub proof fn put_is_found<K, V>(s: Seq<(K, V)>, name: K, value: V, other: K)
    ensures
        find(with_value(s, name, value), name) == Some(value),
        other != name ==> find(with_value(s, name, value), other) == find(s, other),
    decreases s.len(),
{
    if s.len() == 0 {
        let t = seq![(name, value)];
        assert(t.drop_first() =~= s);
    } else if s[0].0 == name {
        assert(s.update(0, (name, value)).drop_first() =~= s.drop_first());
    } else {
        let t = with_value(s.drop_first(), name, value);
        put_is_found(s.drop_first(), name, value, other);
        assert((seq![s[0]] + t).drop_first() =~= t);
    }
}

/// Putting a value keeps the names distinct.
pub proof fn put_keeps_names_distinct<K, V>(s: Seq<(K, V)>, name: K, value: V)
    requires
        names_distinct(s),
    ensures
        names_distinct(with_value(s, name, value)),
{
    lemma_position(s, name);
    lemma_with_value(s, name, value, position(s, name));
}

impl<T: DeepView> Named<T> {
    /// No values.
    pub fn new() -> (r: Self)
        ensures
            r.deep_view() == Seq::<(Seq<char>, T::V)>::empty(),
    {
        let r = Named { entries: Vec::new() };
        assert(r.deep_view() =~= Seq::<(Seq<char>, T::V)>::empty());
        r
    }

    /// The number of values.
    pub fn len(&self) -> (r: usize)
        ensures
            r == self.deep_view().len(),
    {
        self.entries.len()
    }

    /// The position of a name, or the number of entries.
    pub fn index_of(&self, name: &str) -> (r: usize)
        ensures
            r <= self.deep_view().len(),
            forall|j: int| 0 <= j < r ==> (#[trigger] self.deep_view()[j]).0 != name@,
            r < self.deep_view().len() ==> self.deep_view()[r as int].0 == name@,
    {
        let mut i: usize = 0;
        while i < self.entries.len()
            invariant
                i <= self.entries@.len(),
                forall|j: int| 0 <= j < i ==> (#[trigger] self.deep_view()[j]).0 != name@,
            decreases self.entries@.len() - i,
        {
            if same_str(self.entries[i].0.as_str(), name) {
                return i;
            }
            i = i + 1;
        }
        i
    }

    /// The value under a name.
    pub fn get(&self, name: &str) -> (r: Option<&T>)
        ensures
            match r {
                Some(v) => find(self.deep_view(), name@) == Some(v.deep_view()),
                None => find(self.deep_view(), name@) is None,
            },
    {
        let i = self.index_of(name);
        proof {
            lemma_find(self.deep_view(), name@, i as int);
        }
        if i < self.entries.len() {
            Some(&self.entries[i].1)
        } else {
            None
        }
    }

    /// Whether there is a value under a name.
    pub fn contains(&self, name: &str) -> (r: bool)
        ensures
            r == has_name(self.deep_view(), name@),
    {
        let i = self.index_of(name);
        proof {
            lemma_find(self.deep_view(), name@, i as int);
        }
        i < self.entries.len()
    }

    /// Puts a value under a name, in place of what was there.
    pub fn insert(&mut self, name: String, value: T)
        ensures
            final(self).deep_view() == with_value(old(self).deep_view(), name@, value.deep_view()),
    {
        let i = self.index_of(name.as_str());
        let ghost before = self.deep_view();
        proof {
            lemma_with_value(before, name@, value.deep_view(), i as int);
        }
        if i < self.entries.len() {
            self.entries.set(i, (name, value));
            assert(self.deep_view() =~= before.update(i as int, (name@, value.deep_view())));
        } else {
            self.entries.push((name, value));
            assert(self.deep_view() =~= before.push((name@, value.deep_view())));
        }
    }
}

/// A value is found by its name, and by no other. A new name comes behind the
/// others; a known one keeps its place.
pub proof fn values_go_by_their_names<K, V>(s: Seq<(K, V)>, name: K, value: V, p: int)
    ensures
        (forall|i: int| 0 <= i < s.len() ==> (#[trigger] s[i]).0 != name) ==> find(s, name) is None
            && with_value(s, name, value) == s.push((name, value)),
        0 <= p < s.len() && s[p].0 == name && (forall|i: int| 0 <= i < p ==> (#[trigger] s[i]).0 != name)
            ==> find(s, name) == Some(s[p].1) && with_value(s, name, value) == s.update(
            p,
            (name, value),
        ),
    decreases s.len(),
{
    if s.len() == 0 {
        assert(seq![(name, value)] =~= s.push((name, value)));
    } else {
        let rest = s.drop_first();
        values_go_by_their_names(rest, name, value, p - 1);
        assert forall|i: int| 0 <= i < rest.len() implies #[trigger] rest[i] == s[i + 1] by {}
        if forall|i: int| 0 <= i < s.len() ==> (#[trigger] s[i]).0 != name {
            assert(s[0].0 != name);
            assert(seq![s[0]] + rest.push((name, value)) =~= s.push((name, value)));
        }
        if 0 <= p < s.len() && s[p].0 == name && (forall|i: int|
            0 <= i < p ==> (#[trigger] s[i]).0 != name) {
            if p > 0 {
                assert(s[0].0 != name);
                assert(rest[p - 1].0 == name);
                assert(seq![s[0]] + rest.update(p - 1, (name, value)) =~= s.update(p, (name, value)));
            }
        }
    }
}

} // verus!
