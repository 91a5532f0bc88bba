//! The attributes of an element: a mapping from names to values, kept in
//! ascending order of the names.

use vstd::prelude::*;
use crate::order::{
    compare, lemma_lex_asymmetric, lemma_lex_irreflexive, lemma_lex_total, lemma_lex_transitive,
    lex_le, lex_lt, Order,
};

verus! {

/// The mapping that a list of (name, value) pairs stands for. Where a name
/// occurs more than once, its last pair gives the value.
pub open spec fn map_of(pairs: Seq<(Seq<char>, Seq<char>)>) -> Map<Seq<char>, Seq<char>>
    decreases pairs.len(),
{
    if pairs.len() == 0 {
        Map::empty()
    } else {
        map_of(pairs.drop_last()).insert(pairs.last().0, pairs.last().1)
    }
}

/// A list of pairs stands for a mapping with finitely many names.
pub proof fn lemma_map_of_finite(pairs: Seq<(Seq<char>, Seq<char>)>)
    ensures
        map_of(pairs).dom().finite(),
    decreases pairs.len(),
{
    if pairs.len() > 0 {
        lemma_map_of_finite(pairs.drop_last());
    }
}

/// Whether each name comes strictly before the names behind it.
pub open spec fn strictly_ascending(names: Seq<Seq<char>>) -> bool {
    forall|i: int, j: int|
        0 <= i < j < names.len() ==> lex_lt(#[trigger] names[i], #[trigger] names[j])
}

/// Whether `k` is a name of the set that comes before all its others.
pub open spec fn is_least_name(names: Set<Seq<char>>, k: Seq<char>) -> bool {
    names.contains(k) && forall|o: Seq<char>| names.contains(o) ==> lex_le(k, o)
}

/// The least name of a set.
pub open spec fn least_name(names: Set<Seq<char>>) -> Seq<char> {
    choose|k: Seq<char>| is_least_name(names, k)
}

/// The names of a finite set, in ascending order.
pub open spec fn ascending(names: Set<Seq<char>>) -> Seq<Seq<char>>
    decreases names.len(),
    when names.finite()
    via ascending_decreases
{
    if names.len() == 0 {
        Seq::empty()
    } else {
        seq![least_name(names)] + ascending(names.remove(least_name(names)))
    }
}

#[via_fn]
proof fn ascending_decreases(names: Set<Seq<char>>) {
    if names.len() != 0 {
        lemma_least_name_exists(names);
    }
}

/// A finite set of names that is not empty has a least name.
pub proof fn lemma_least_name_exists(names: Set<Seq<char>>)
    requires
        names.finite(),
        names.len() > 0,
    ensures
        is_least_name(names, least_name(names)),
    decreases names.len(),
{
    let x = names.choose();
    let rest = names.remove(x);
    if rest.len() == 0 {
        assert forall|o: Seq<char>| names.contains(o) implies lex_le(x, o) by {
            if o != x {
                assert(rest.contains(o));
            }
        }
        assert(is_least_name(names, x));
    } else {
        lemma_least_name_exists(rest);
        let k = least_name(rest);
        lemma_lex_total(x, k);
        if lex_lt(x, k) {
            assert forall|o: Seq<char>| names.contains(o) implies lex_le(x, o) by {
                if o != x {
                    assert(rest.contains(o));
                    if k != o {
                        lemma_lex_transitive(x, k, o);
                    }
                }
            }
            assert(is_least_name(names, x));
        } else {
            assert forall|o: Seq<char>| names.contains(o) implies lex_le(k, o) by {
                if o != x {
                    assert(rest.contains(o));
                }
            }
            assert(is_least_name(names, k));
        }
    }
}

/// A list of names in strictly ascending order is the ascending order of
/// the set of its names.
pub proof fn lemma_ascending_of_sorted(names: Seq<Seq<char>>)
    requires
        strictly_ascending(names),
    ensures
        names.to_set().finite(),
        names.to_set().len() == names.len(),
        ascending(names.to_set()) == names,
    decreases names.len(),
{
    let set = names.to_set();
    vstd::seq_lib::seq_to_set_is_finite(names);
    if names.len() == 0 {
        assert(set =~= Set::empty());
    } else {
        let first = names[0];
        let tail = names.drop_first();
        assert(set.contains(first));
        assert forall|o: Seq<char>| set.contains(o) implies lex_le(first, o) by {
            let j = choose|j: int| 0 <= j < names.len() && names[j] == o;
            assert(j == 0 || lex_lt(names[0], names[j]));
        }
        assert(is_least_name(set, first));
        let k = least_name(set);
        assert(lex_le(k, first) && lex_le(first, k));
        if k != first {
            lemma_lex_asymmetric(k, first);
        }
        assert forall|i: int, j: int| 0 <= i < j < tail.len() implies lex_lt(
            #[trigger] tail[i],
            #[trigger] tail[j],
        ) by {
            assert(tail[i] == names[i + 1] && tail[j] == names[j + 1]);
        }
        assert(set.remove(first) =~= tail.to_set()) by {
            assert forall|o: Seq<char>| set.remove(first).contains(o) implies tail.to_set().contains(
                o,
            ) by {
                let j = choose|j: int| 0 <= j < names.len() && names[j] == o;
                assert(tail[j - 1] == o);
            }
            assert forall|o: Seq<char>| tail.to_set().contains(o) implies set.remove(
                first,
            ).contains(o) by {
                let j = choose|j: int| 0 <= j < tail.len() && tail[j] == o;
                assert(names[j + 1] == o);
                assert(lex_lt(names[0], names[j + 1]));
                lemma_lex_asymmetric(first, o);
            }
        }
        lemma_ascending_of_sorted(tail);
        assert(names =~= seq![first] + tail);
    }
}

/// What `ascending` is: the names of the set, each once, every one before
/// those behind it.
pub proof fn lemma_ascending(names: Set<Seq<char>>)
    requires
        names.finite(),
    ensures
        ascending(names).len() == names.len(),
        strictly_ascending(ascending(names)),
        ascending(names).to_set() == names,
    decreases names.len(),
{
    let listed = ascending(names);
    if names.len() == 0 {
        assert(listed.to_set() =~= names);
    } else {
        lemma_least_name_exists(names);
        let k = least_name(names);
        let rest = names.remove(k);
        lemma_ascending(rest);
        let tail = ascending(rest);
        assert(listed == seq![k] + tail);
        assert forall|i: int, j: int| 0 <= i < j < listed.len() implies lex_lt(
            #[trigger] listed[i],
            #[trigger] listed[j],
        ) by {
            assert(listed[j] == tail[j - 1]);
            assert(tail.to_set().contains(tail[j - 1]));
            if i == 0 {
                assert(lex_le(k, listed[j]));
            } else {
                assert(listed[i] == tail[i - 1]);
            }
        }
        assert(listed.to_set() =~= names) by {
            assert forall|o: Seq<char>| listed.to_set().contains(o) implies names.contains(o) by {
                let j = choose|j: int| 0 <= j < listed.len() && listed[j] == o;
                if j > 0 {
                    assert(tail[j - 1] == o);
                    assert(tail.to_set().contains(o));
                }
            }
            assert forall|o: Seq<char>| names.contains(o) implies listed.to_set().contains(o) by {
                if o == k {
                    assert(listed[0] == o);
                } else {
                    assert(rest.contains(o));
                    assert(tail.to_set().contains(o));
                    let j = choose|j: int| 0 <= j < tail.len() && tail[j] == o;
                    assert(listed[j + 1] == o);
                }
            }
        }
    }
}

/// The names of a list of pairs, in the order of the list.
spec fn names_of(pairs: Seq<(Seq<char>, Seq<char>)>) -> Seq<Seq<char>> {
    Seq::new(pairs.len(), |i: int| pairs[i].0)
}

/// What `map_of` holds for a list in which no name occurs twice.
proof fn lemma_map_of_sorted(pairs: Seq<(Seq<char>, Seq<char>)>)
    requires
        strictly_ascending(names_of(pairs)),
    ensures
        map_of(pairs).dom() == names_of(pairs).to_set(),
        forall|i: int| 0 <= i < pairs.len() ==> map_of(pairs)[#[trigger] pairs[i].0] == pairs[i].1,
    decreases pairs.len(),
{
    let names = names_of(pairs);
    if pairs.len() == 0 {
        assert(map_of(pairs).dom() =~= names.to_set());
    } else {
        let front = pairs.drop_last();
        let last = pairs.last();
        assert(names_of(front) =~= names.drop_last());
        assert forall|i: int, j: int| 0 <= i < j < names_of(front).len() implies lex_lt(
            #[trigger] names_of(front)[i],
            #[trigger] names_of(front)[j],
        ) by {
            assert(names_of(front)[i] == names[i] && names_of(front)[j] == names[j]);
        }
        lemma_map_of_sorted(front);
        assert(map_of(pairs).dom() =~= names.to_set()) by {
            assert forall|k: Seq<char>| map_of(pairs).dom().contains(k) implies names.to_set().contains(
                k,
            ) by {
                if k == last.0 {
                    assert(names[pairs.len() - 1] == k);
                } else {
                    let j = choose|j: int| 0 <= j < names_of(front).len() && names_of(front)[j] == k;
                    assert(names[j] == k);
                }
            }
            assert forall|k: Seq<char>| names.to_set().contains(k) implies map_of(
                pairs,
            ).dom().contains(k) by {
                let j = choose|j: int| 0 <= j < names.len() && names[j] == k;
                if j < pairs.len() - 1 {
                    assert(names_of(front)[j] == k);
                }
            }
        }
        assert forall|i: int| 0 <= i < pairs.len() implies map_of(pairs)[#[trigger] pairs[i].0]
            == pairs[i].1 by {
            if i < pairs.len() - 1 {
                assert(front[i] == pairs[i]);
                assert(lex_lt(names[i], names[pairs.len() - 1]));
                lemma_lex_asymmetric(names[i], names[pairs.len() - 1]);
            }
        }
    }
}

/// One attribute: a name and the value given to it.
#[derive(Debug)]
pub struct Attribute<'a> {
    pub name: String,
    pub value: &'a str,
}

impl<'a> View for Attribute<'a> {
    type V = (Seq<char>, Seq<char>);

    open spec fn view(&self) -> (Seq<char>, Seq<char>) {
        (self.name@, self.value@)
    }
}

/// The (name, value) pairs that a list of attributes holds.
spec fn pairs_of(entries: Seq<Attribute>) -> Seq<(Seq<char>, Seq<char>)> {
    Seq::new(entries.len(), |i: int| entries[i]@)
}

/// A mapping from attribute names to values. No name occurs twice, and the
/// entries are held in ascending order of their names, so that two mappings
/// with the same contents are laid out alike however they were filled.
///
/// Names are owned strings; values borrow from the text they were taken from.
#[derive(Debug)]
pub struct Attributes<'a> {
    entries: Vec<Attribute<'a>>,
}

impl<'a> View for Attributes<'a> {
    type V = Map<Seq<char>, Seq<char>>;

    closed spec fn view(&self) -> Map<Seq<char>, Seq<char>> {
        map_of(pairs_of(self.entries@))
    }
}

impl<'a> Attributes<'a> {
    #[verifier::type_invariant]
    spec fn names_ascend(&self) -> bool {
        strictly_ascending(names_of(pairs_of(self.entries@)))
    }

    /// There are finitely many attributes.
    pub proof fn lemma_finite(&self)
        ensures
            self@.dom().finite(),
    {
        lemma_map_of_finite(pairs_of(self.entries@));
    }

    /// The mapping without any attribute.
    pub fn new() -> (r: Self)
        ensures
            r@ == Map::<Seq<char>, Seq<char>>::empty(),
    {
        Attributes { entries: Vec::new() }
    }

    /// Gives `name` the value `value`, in place of the value it had, if any.
    pub fn insert(&mut self, name: String, value: &'a str)
        ensures
            final(self)@ == old(self)@.insert(name@, value@),
    {
        let mut taken = Attributes::new();
        core::mem::swap(self, &mut taken);
        proof {
            use_type_invariant(&taken);
        }
        let mut entries = taken.entries;
        place(&mut entries, name, value);
        *self = Attributes { entries };
    }

    /// The mapping that a list of pairs stands for: a later pair of a name
    /// replaces an earlier one.
    pub fn from_pairs(pairs: Vec<(String, &'a str)>) -> (r: Self)
        ensures
            r@ == map_of(listed(pairs@)),
    {
        let ghost all = listed(pairs@);
        let mut result = Attributes::new();
        assert(all.take(0) =~= Seq::empty());
        for pair in it: pairs
            invariant
                all == listed(it.seq()),
                result@ == map_of(all.take(it.index() as int)),
        {
            proof {
                let n = it.index() as int;
                assert(all.take(n + 1).drop_last() =~= all.take(n));
                assert(all.take(n + 1).last() == (pair.0@, pair.1@));
            }
            result.insert(pair.0, pair.1);
        }
        assert(all.take(all.len() as int) =~= all);
        result
    }

    /// How many attributes there are.
    pub fn len(&self) -> (n: usize)
        ensures
            self@.dom().finite(),
            n == self@.dom().len(),
    {
        proof {
            use_type_invariant(self);
            lemma_map_of_sorted(pairs_of(self.entries@));
            lemma_ascending_of_sorted(names_of(pairs_of(self.entries@)));
        }
        self.entries.len()
    }

    /// The attribute that stands at place `i` when the names are put in
    /// ascending order, if there are that many.
    pub fn nth(&self, i: usize) -> (r: Option<&Attribute<'a>>)
        ensures
            self@.dom().finite(),
            match r {
                Some(e) => {
                    &&& i < self@.dom().len()
                    &&& e.name@ == ascending(self@.dom())[i as int]
                    &&& e.value@ == self@[e.name@]
                },
                None => i >= self@.dom().len(),
            },
    {
        proof {
            use_type_invariant(self);
            lemma_map_of_sorted(pairs_of(self.entries@));
            lemma_ascending_of_sorted(names_of(pairs_of(self.entries@)));
        }
        if i < self.entries.len() {
            assert(pairs_of(self.entries@)[i as int] == self.entries@[i as int]@);
            Some(&self.entries[i])
        } else {
            None
        }
    }

    /// The value that `name` has, if it has one.
    pub fn get(&self, name: &str) -> (r: Option<&'a str>)
        ensures
            match r {
                Some(value) => self@.contains_key(name@) && self@[name@] == value@,
                None => !self@.contains_key(name@),
            },
    {
        let ghost names = names_of(pairs_of(self.entries@));
        let mut i: usize = 0;
        while i < self.entries.len()
            invariant
                0 <= i <= self.entries.len(),
                names == names_of(pairs_of(self.entries@)),
                forall|j: int| 0 <= j < i ==> #[trigger] names[j] != name@,
            decreases self.entries.len() - i,
        {
            match compare(self.entries[i].name.as_str(), name) {
                Order::Same => {
                    proof {
                        use_type_invariant(self);
                        lemma_map_of_sorted(pairs_of(self.entries@));
                        assert(pairs_of(self.entries@)[i as int] == self.entries@[i as int]@);
                        assert(names[i as int] == name@);
                    }
                    return Some(self.entries[i].value);
                },
                _ => {
                    proof {
                        lemma_lex_irreflexive(name@);
                    }
                    i = i + 1;
                },
            }
        }
        proof {
            use_type_invariant(self);
            lemma_map_of_sorted(pairs_of(self.entries@));
        }
        None
    }
}

/// The pairs of strings that a list of owned pairs holds.
pub open spec fn listed(pairs: Seq<(String, &str)>) -> Seq<(Seq<char>, Seq<char>)> {
    Seq::new(pairs.len(), |i: int| (pairs[i].0@, pairs[i].1@))
}

/// Puts the pair at its place in a list that ascends by name, in place of
/// the pair of the same name, if there is one.
fn place<'a>(entries: &mut Vec<Attribute<'a>>, name: String, value: &'a str)
    requires
        strictly_ascending(names_of(pairs_of(old(entries)@))),
    ensures
        strictly_ascending(names_of(pairs_of(final(entries)@))),
        map_of(pairs_of(final(entries)@)) == map_of(pairs_of(old(entries)@)).insert(
            name@,
            value@,
        ),
{
    let ghost before = pairs_of(entries@);
    let mut i: usize = 0;
    let mut found = false;
    while i < entries.len()
        invariant_except_break
            !found,
        invariant
            0 <= i <= entries.len(),
            pairs_of(entries@) == before,
            forall|j: int| 0 <= j < i ==> lex_lt(#[trigger] before[j].0, name@),
        ensures
            0 <= i <= entries.len(),
            pairs_of(entries@) == before,
            forall|j: int| 0 <= j < i ==> lex_lt(#[trigger] before[j].0, name@),
            found ==> i < before.len() && before[i as int].0 == name@,
            !found && i < before.len() ==> lex_lt(name@, before[i as int].0),
        decreases entries.len() - i,
    {
        match compare(entries[i].name.as_str(), name.as_str()) {
            Order::Before => {
                i = i + 1;
            },
            Order::Same => {
                found = true;
                break ;
            },
            Order::After => {
                break ;
            },
        }
    }
    let entry = Attribute { name, value };
    if found {
        entries.set(i, entry);
        proof {
            lemma_replace_pair(before, i as int, entry@.1);
            assert(pairs_of(entries@) =~= before.update(i as int, entry@));
        }
    } else {
        entries.insert(i, entry);
        proof {
            lemma_insert_pair(before, i as int, entry@);
            assert(pairs_of(entries@) =~= before.insert(i as int, entry@));
        }
    }
}

/// A new value in the place of a pair gives the name of the pair that value
/// and leaves the order of the names as it was.
proof fn lemma_replace_pair(before: Seq<(Seq<char>, Seq<char>)>, at: int, value: Seq<char>)
    requires
        strictly_ascending(names_of(before)),
        0 <= at < before.len(),
    ensures
        strictly_ascending(names_of(before.update(at, (before[at].0, value)))),
        map_of(before.update(at, (before[at].0, value))) == map_of(before).insert(
            before[at].0,
            value,
        ),
{
    let name = before[at].0;
    let after = before.update(at, (name, value));
    assert(names_of(after) =~= names_of(before));
    lemma_map_of_sorted(before);
    lemma_map_of_sorted(after);
    assert(names_of(before)[at] == name);
    assert forall|k: Seq<char>| map_of(after).dom().contains(k) implies #[trigger] map_of(after)[k]
        == map_of(before).insert(name, value)[k] by {
        let j = choose|j: int| 0 <= j < names_of(after).len() && names_of(after)[j] == k;
        assert(after[j].0 == k);
        if j != at {
            assert(before[j] == after[j]);
            if j < at {
                assert(lex_lt(names_of(before)[j], names_of(before)[at]));
                lemma_lex_asymmetric(k, name);
            } else {
                assert(lex_lt(names_of(before)[at], names_of(before)[j]));
                lemma_lex_asymmetric(name, k);
            }
        }
    }
    assert(map_of(after) =~= map_of(before).insert(name, value));
}

/// A pair put between the lesser names and the greater ones gives its name
/// its value and leaves the names in ascending order.
proof fn lemma_insert_pair(
    before: Seq<(Seq<char>, Seq<char>)>,
    at: int,
    pair: (Seq<char>, Seq<char>),
)
    requires
        strictly_ascending(names_of(before)),
        0 <= at <= before.len(),
        forall|j: int| 0 <= j < at ==> lex_lt(#[trigger] before[j].0, pair.0),
        at < before.len() ==> lex_lt(pair.0, before[at].0),
    ensures
        strictly_ascending(names_of(before.insert(at, pair))),
        map_of(before.insert(at, pair)) == map_of(before).insert(pair.0, pair.1),
{
    let after = before.insert(at, pair);
    let old_names = names_of(before);
    let new_names = names_of(after);
    assert forall|j: int| at <= j < before.len() implies lex_lt(pair.0, #[trigger] before[j].0) by {
        if j > at {
            assert(lex_lt(old_names[at], old_names[j]));
            lemma_lex_transitive(pair.0, before[at].0, before[j].0);
        }
    }
    assert forall|a: int, b: int| 0 <= a < b < new_names.len() implies lex_lt(
        #[trigger] new_names[a],
        #[trigger] new_names[b],
    ) by {
        let x = if a < at { a } else { a - 1 };
        let y = if b < at { b } else { b - 1 };
        if a != at {
            assert(new_names[a] == old_names[x]);
        }
        if b != at {
            assert(new_names[b] == old_names[y]);
        }
        if a != at && b != at {
            assert(lex_lt(old_names[x], old_names[y]));
        }
    }
    lemma_map_of_sorted(before);
    lemma_map_of_sorted(after);
    assert(after[at] == pair);
    assert forall|k: Seq<char>| map_of(after).dom().contains(k) implies map_of(before).insert(
        pair.0,
        pair.1,
    ).dom().contains(k) && #[trigger] map_of(after)[k] == map_of(before).insert(pair.0, pair.1)[k] by {
        let j = choose|j: int| 0 <= j < new_names.len() && new_names[j] == k;
        assert(after[j].0 == k);
        if j != at {
            let x = if j < at { j } else { j - 1 };
            assert(before[x] == after[j]);
            assert(old_names[x] == k);
            if x < at {
                lemma_lex_asymmetric(k, pair.0);
            } else {
                lemma_lex_asymmetric(pair.0, k);
            }
        }
    }
    assert forall|k: Seq<char>| map_of(before).insert(pair.0, pair.1).dom().contains(
        k,
    ) implies map_of(after).dom().contains(k) by {
        if k == pair.0 {
            assert(new_names[at] == k);
        } else {
            let x = choose|x: int| 0 <= x < old_names.len() && old_names[x] == k;
            let j = if x < at { x } else { x + 1 };
            assert(after[j] == before[x]);
            assert(new_names[j] == k);
        }
    }
    assert(map_of(after) =~= map_of(before).insert(pair.0, pair.1));
}

} // verus!
