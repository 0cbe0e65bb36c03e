//! Items grouped under names: each name once, names in increasing order,
//! the items of one name in the order in which they were appended.

use crate::name_order::{
    lemma_name_lt_irreflexive, lemma_name_lt_total, lemma_name_lt_transitive, name_lt, str_lt,
};
use vstd::prelude::*;

verus! {

/// One name and the items appended under it.
#[derive(Clone, Debug, PartialEq)]
struct Group<T> {
    name: String,
    items: Vec<T>,
}

/// A mapping from names to non-empty sequences of items, kept in the order
/// of the names.
#[derive(Debug, PartialEq)]
pub struct Groups<T> {
    entries: Vec<Group<T>>,
}

/// The groups of `keys`, one after the other.
pub open spec fn concat_groups<T>(keys: Seq<Seq<char>>, m: Map<Seq<char>, Seq<T>>) -> Seq<T>
    decreases keys.len(),
{
    if keys.len() == 0 {
        Seq::empty()
    } else {
        concat_groups(keys.drop_last(), m) + m[keys.last()]
    }
}

/// The sizes of the groups of `keys`, added up.
pub open spec fn total_size<T>(keys: Seq<Seq<char>>, m: Map<Seq<char>, Seq<T>>) -> nat
    decreases keys.len(),
{
    if keys.len() == 0 {
        0
    } else {
        total_size(keys.drop_last(), m) + m[keys.last()].len()
    }
}

/// The group of `name` in `m`, or the empty sequence where `m` has none.
pub open spec fn group_or_empty<T>(m: Map<Seq<char>, Seq<T>>, name: Seq<char>) -> Seq<T> {
    if m.contains_key(name) {
        m[name]
    } else {
        Seq::empty()
    }
}

/// `m` after `item` was appended under `name`.
pub open spec fn appended<T>(m: Map<Seq<char>, Seq<T>>, name: Seq<char>, item: T) -> Map<
    Seq<char>,
    Seq<T>,
> {
    m.insert(name, group_or_empty(m, name).push(item))
}

/// Concatenating groups yields as many items as the groups hold together.
pub proof fn lemma_concat_len<T>(keys: Seq<Seq<char>>, m: Map<Seq<char>, Seq<T>>)
    ensures
        concat_groups(keys, m).len() == total_size(keys, m),
    decreases keys.len(),
{
    if keys.len() > 0 {
        lemma_concat_len(keys.drop_last(), m);
    }
}

impl<T> View for Groups<T> {
    type V = Map<Seq<char>, Seq<T>>;

    closed spec fn view(&self) -> Map<Seq<char>, Seq<T>> {
        Map::new(
            |k: Seq<char>| self.has_entry(k),
            |k: Seq<char>| self.entries@[self.entry_index(k)].items@,
        )
    }
}

impl<T: Clone> Clone for Groups<T> {
    /// A copy under the same names, each group as long as it was.
    fn clone(&self) -> (r: Self)
        ensures
            r.wf(),
            r.keys() == self.keys(),
    {
        proof {
            use_type_invariant(self);
        }
        let mut entries: Vec<Group<T>> = Vec::new();
        let mut i: usize = 0;
        while i < self.entries.len()
            invariant
                self.wf(),
                i <= self.entries@.len(),
                entries@.len() == i,
                forall|j: int|
                    0 <= j < i ==> (#[trigger] entries@[j]).name@ == self.entries@[j].name@
                        && entries@[j].items@.len() == self.entries@[j].items@.len(),
            decreases self.entries@.len() - i,
        {
            let entry = &self.entries[i];
            entries.push(Group { name: entry.name.clone(), items: entry.items.clone() });
            i = i + 1;
        }
        proof {
            let r = Groups { entries };
            assert forall|a: int, b: int|
                #![trigger r.entries@[a], r.entries@[b]]
                0 <= a < b < r.entries@.len() implies name_lt(
                r.entries@[a].name@,
                r.entries@[b].name@,
            ) by {
                assert(name_lt(self.entries@[a].name@, self.entries@[b].name@));
            }
            assert forall|j: int| 0 <= j < r.entries@.len() implies (
            #[trigger] r.entries@[j]).items@.len() > 0 by {
                assert(self.entries@[j].items@.len() > 0);
            }
            assert(r.keys() =~= self.keys());
        }
        Groups { entries }
    }
}

impl<T> Groups<T> {
    /// The names, in the order in which they are kept.
    pub closed spec fn keys(&self) -> Seq<Seq<char>> {
        Seq::new(self.entries@.len(), |i: int| self.entries@[i].name@)
    }

    /// Names strictly increase, and no group is empty.
    #[verifier::type_invariant]
    pub closed spec fn wf(&self) -> bool {
        &&& forall|i: int, j: int|
            #![trigger self.entries@[i], self.entries@[j]]
            0 <= i < j < self.entries@.len() ==> name_lt(
                self.entries@[i].name@,
                self.entries@[j].name@,
            )
        &&& forall|i: int|
            0 <= i < self.entries@.len() ==> (#[trigger] self.entries@[i]).items@.len() > 0
    }

    /// All items, group after group in the order of the names.
    pub open spec fn flat(&self) -> Seq<T> {
        concat_groups(self.keys(), self@)
    }

    spec fn has_entry(&self, k: Seq<char>) -> bool {
        exists|i: int| 0 <= i < self.entries@.len() && (#[trigger] self.entries@[i]).name@ == k
    }

    spec fn entry_index(&self, k: Seq<char>) -> int {
        choose|i: int| 0 <= i < self.entries@.len() && (#[trigger] self.entries@[i]).name@ == k
    }

    proof fn lemma_entry(&self, i: int)
        requires
            self.wf(),
            0 <= i < self.entries@.len(),
        ensures
            self.has_entry(self.entries@[i].name@),
            self.entry_index(self.entries@[i].name@) == i,
            self@.contains_key(self.entries@[i].name@),
            self@[self.entries@[i].name@] == self.entries@[i].items@,
    {
        let k = self.entries@[i].name@;
        let j = self.entry_index(k);
        lemma_name_lt_irreflexive(k);
        if j < i {
            assert(name_lt(self.entries@[j].name@, self.entries@[i].name@));
        } else if i < j {
            assert(name_lt(self.entries@[i].name@, self.entries@[j].name@));
        }
    }

    /// The names strictly increase, and they are the names that have a group.
    pub proof fn lemma_keys(&self)
        requires
            self.wf(),
        ensures
            forall|i: int, j: int|
                0 <= i < j < self.keys().len() ==> name_lt(
                    #[trigger] self.keys()[i],
                    #[trigger] self.keys()[j],
                ),
            forall|k: Seq<char>| self@.contains_key(k) <==> self.keys().contains(k),
    {
        assert forall|i: int, j: int| 0 <= i < j < self.keys().len() implies name_lt(
            #[trigger] self.keys()[i],
            #[trigger] self.keys()[j],
        ) by {
            assert(name_lt(self.entries@[i].name@, self.entries@[j].name@));
        }
        assert forall|k: Seq<char>| self@.contains_key(k) <==> self.keys().contains(k) by {
            if self@.contains_key(k) {
                let i = self.entry_index(k);
                assert(self.keys()[i] == k);
            }
            if self.keys().contains(k) {
                let i = choose|i: int| 0 <= i < self.keys().len() && self.keys()[i] == k;
                assert(self.entries@[i].name@ == k);
            }
        }
    }

    /// No name has an empty group.
    pub proof fn lemma_groups_nonempty(&self)
        requires
            self.wf(),
        ensures
            forall|k: Seq<char>| self@.contains_key(k) ==> (#[trigger] self@[k]).len() > 0,
    {
        assert forall|k: Seq<char>| self@.contains_key(k) implies (#[trigger] self@[k]).len()
            > 0 by {
            let i = self.entry_index(k);
            assert(self.entries@[i].items@.len() > 0);
        }
    }

    /// No names, no items.
    pub fn new() -> (r: Self)
        ensures
            r.wf(),
            r@ == Map::<Seq<char>, Seq<T>>::empty(),
            r.keys() == Seq::<Seq<char>>::empty(),
    {
        let r = Groups { entries: Vec::new() };
        proof {
            assert(r@ =~= Map::<Seq<char>, Seq<T>>::empty());
            assert(r.keys() =~= Seq::<Seq<char>>::empty());
        }
        r
    }

    /// The first position whose name does not stand before `name`, found by
    /// halving the range in which it lies.
    fn lower_bound(&self, name: &str) -> (i: usize)
        ensures
            i <= self.entries@.len(),
            forall|j: int| 0 <= j < i ==> name_lt((#[trigger] self.entries@[j]).name@, name@),
            i < self.entries@.len() ==> !name_lt(self.entries@[i as int].name@, name@),
    {
        proof {
            use_type_invariant(self);
        }
        let mut lo: usize = 0;
        let mut hi: usize = self.entries.len();
        while lo < hi
            invariant
                self.wf(),
                lo <= hi <= self.entries@.len(),
                forall|j: int| 0 <= j < lo ==> name_lt((#[trigger] self.entries@[j]).name@, name@),
                forall|j: int|
                    hi <= j < self.entries@.len() ==> !name_lt(
                        (#[trigger] self.entries@[j]).name@,
                        name@,
                    ),
            decreases hi - lo,
        {
            let mid = lo + (hi - lo) / 2;
            if str_lt(self.entries[mid].name.as_str(), name) {
                proof {
                    assert forall|j: int| 0 <= j < mid + 1 implies name_lt(
                        (#[trigger] self.entries@[j]).name@,
                        name@,
                    ) by {
                        if j < mid {
                            assert(name_lt(
                                self.entries@[j].name@,
                                self.entries@[mid as int].name@,
                            ));
                            lemma_name_lt_transitive(
                                self.entries@[j].name@,
                                self.entries@[mid as int].name@,
                                name@,
                            );
                        }
                    }
                }
                lo = mid + 1;
            } else {
                proof {
                    assert forall|j: int| mid <= j < self.entries@.len() implies !name_lt(
                        (#[trigger] self.entries@[j]).name@,
                        name@,
                    ) by {
                        if mid < j && name_lt(self.entries@[j].name@, name@) {
                            assert(name_lt(
                                self.entries@[mid as int].name@,
                                self.entries@[j].name@,
                            ));
                            lemma_name_lt_transitive(
                                self.entries@[mid as int].name@,
                                self.entries@[j].name@,
                                name@,
                            );
                        }
                    }
                }
                hi = mid;
            }
        }
        lo
    }

    proof fn lemma_absent(&self, name: Seq<char>, i: int)
        requires
            self.wf(),
            0 <= i <= self.entries@.len(),
            forall|j: int| 0 <= j < i ==> name_lt((#[trigger] self.entries@[j]).name@, name),
            i < self.entries@.len() ==> name_lt(name, self.entries@[i].name@),
        ensures
            !self@.contains_key(name),
            forall|j: int|
                i <= j < self.entries@.len() ==> name_lt(name, (#[trigger] self.entries@[j]).name@),
    {
        assert forall|j: int| i <= j < self.entries@.len() implies name_lt(
            name,
            (#[trigger] self.entries@[j]).name@,
        ) by {
            if i < j {
                assert(name_lt(self.entries@[i].name@, self.entries@[j].name@));
                lemma_name_lt_transitive(name, self.entries@[i].name@, self.entries@[j].name@);
            }
        }
        lemma_name_lt_irreflexive(name);
        if self.has_entry(name) {
            let j = self.entry_index(name);
            assert(self.entries@[j].name@ == name);
        }
    }

    /// The group of `name`, where it has one.
    pub fn get(&self, name: &str) -> (r: Option<&Vec<T>>)
        ensures
            match r {
                Some(items) => self@.contains_key(name@) && items@ == self@[name@],
                None => !self@.contains_key(name@),
            },
    {
        proof {
            use_type_invariant(self);
        }
        let i = self.lower_bound(name);
        if i < self.entries.len() && !str_lt(name, self.entries[i].name.as_str()) {
            proof {
                lemma_name_lt_total(name@, self.entries@[i as int].name@);
                self.lemma_entry(i as int);
            }
            Some(&self.entries[i].items)
        } else {
            proof {
                self.lemma_absent(name@, i as int);
            }
            None
        }
    }

    /// Appends `item` to the group of `name`, which is created where `name`
    /// had none.
    pub fn append(&mut self, name: String, item: T)
        ensures
            final(self).wf(),
            final(self)@ == appended(old(self)@, name@, item),
    {
        proof {
            use_type_invariant(&*self);
        }
        let i = self.lower_bound(name.as_str());
        let found = i < self.entries.len() && !str_lt(
            name.as_str(),
            self.entries[i].name.as_str(),
        );
        let ghost before = *self;
        let mut entries: Vec<Group<T>> = Vec::new();
        core::mem::swap(&mut self.entries, &mut entries);
        if found {
            entries[i].items.push(item);
            proof {
                let after = Groups { entries };
                lemma_name_lt_total(name@, before.entries@[i as int].name@);
                before.lemma_entry(i as int);
                assert(forall|j: int|
                    0 <= j < after.entries@.len() ==> (#[trigger] after.entries@[j]).name@
                        == before.entries@[j].name@);
                assert forall|a: int, b: int|
                    #![trigger after.entries@[a], after.entries@[b]]
                    0 <= a < b < after.entries@.len() implies name_lt(
                    after.entries@[a].name@,
                    after.entries@[b].name@,
                ) by {
                    assert(name_lt(before.entries@[a].name@, before.entries@[b].name@));
                }
                assert(after.wf());
                assert forall|k: Seq<char>| before.has_entry(k) == after.has_entry(k) by {
                    if before.has_entry(k) {
                        let j = before.entry_index(k);
                        assert(after.entries@[j].name@ == k);
                    }
                    if after.has_entry(k) {
                        let j = after.entry_index(k);
                        assert(before.entries@[j].name@ == k);
                    }
                }
                assert forall|k: Seq<char>| after.has_entry(k) implies #[trigger] after@[k]
                    == appended(before@, name@, item)[k] by {
                    let j = after.entry_index(k);
                    after.lemma_entry(j);
                    before.lemma_entry(j);
                }
                assert(after@ =~= appended(before@, name@, item));
            }
        } else {
            let mut items: Vec<T> = Vec::new();
            items.push(item);
            entries.insert(i, Group { name, items });
            proof {
                let after = Groups { entries };
                before.lemma_absent(name@, i as int);
                assert forall|a: int, b: int|
                    #![trigger after.entries@[a], after.entries@[b]]
                    0 <= a < b < after.entries@.len() implies name_lt(
                    after.entries@[a].name@,
                    after.entries@[b].name@,
                ) by {
                    if b < i {
                        assert(name_lt(before.entries@[a].name@, before.entries@[b].name@));
                    } else if b == i {
                        assert(name_lt(before.entries@[a].name@, name@));
                    } else if a < i {
                        assert(name_lt(before.entries@[a].name@, before.entries@[b - 1].name@));
                    } else if a == i {
                        assert(name_lt(name@, before.entries@[b - 1].name@));
                    } else {
                        assert(name_lt(
                            before.entries@[a - 1].name@,
                            before.entries@[b - 1].name@,
                        ));
                    }
                }
                assert forall|j: int| 0 <= j < after.entries@.len() implies (
                #[trigger] after.entries@[j]).items@.len() > 0 by {
                    if j < i {
                        assert(before.entries@[j].items@.len() > 0);
                    } else if j > i {
                        assert(before.entries@[j - 1].items@.len() > 0);
                    }
                }
                assert(after.wf());
                assert forall|k: Seq<char>|
                    after.has_entry(k) == (before.has_entry(k) || k == name@) by {
                    if before.has_entry(k) {
                        let j = before.entry_index(k);
                        if j < i {
                            assert(after.entries@[j].name@ == k);
                        } else {
                            assert(after.entries@[j + 1].name@ == k);
                        }
                    }
                    if k == name@ {
                        assert(after.entries@[i as int].name@ == k);
                    }
                    if after.has_entry(k) && k != name@ {
                        let j = after.entry_index(k);
                        if j < i {
                            assert(before.entries@[j].name@ == k);
                        } else {
                            assert(before.entries@[j - 1].name@ == k);
                        }
                    }
                }
                assert forall|k: Seq<char>| after.has_entry(k) implies #[trigger] after@[k]
                    == appended(before@, name@, item)[k] by {
                    let j = after.entry_index(k);
                    after.lemma_entry(j);
                    if j < i {
                        before.lemma_entry(j);
                    } else if j > i {
                        before.lemma_entry(j - 1);
                    } else {
                        assert(after.entries@[j].items@ =~= Seq::<T>::empty().push(item));
                    }
                }
                assert(after@ =~= appended(before@, name@, item));
            }
        }
        self.entries = entries;
    }

    /// Every item, group after group in the order of the names.
    pub fn values(&self) -> (r: Vec<&T>)
        ensures
            r@.len() == self.flat().len(),
            forall|k: int| 0 <= k < r@.len() ==> *(#[trigger] r@[k]) == self.flat()[k],
    {
        proof {
            use_type_invariant(self);
        }
        let mut out: Vec<&T> = Vec::new();
        let mut i: usize = 0;
        while i < self.entries.len()
            invariant
                self.wf(),
                i <= self.entries@.len(),
                out@.len() == concat_groups(self.keys().take(i as int), self@).len(),
                forall|k: int|
                    0 <= k < out@.len() ==> *(#[trigger] out@[k]) == concat_groups(
                        self.keys().take(i as int),
                        self@,
                    )[k],
            decreases self.entries@.len() - i,
        {
            let group = &self.entries[i].items;
            let ghost done = concat_groups(self.keys().take(i as int), self@);
            let mut j: usize = 0;
            while j < group.len()
                invariant
                    j <= group@.len(),
                    out@.len() == done.len() + j,
                    forall|k: int| 0 <= k < done.len() ==> *(#[trigger] out@[k]) == done[k],
                    forall|k: int| 0 <= k < j ==> *(#[trigger] out@[done.len() + k]) == group@[k],
                decreases group@.len() - j,
            {
                out.push(&group[j]);
                j = j + 1;
            }
            proof {
                self.lemma_entry(i as int);
                let next = self.keys().take(i as int + 1);
                assert(next.drop_last() =~= self.keys().take(i as int));
                assert(next.last() == self.entries@[i as int].name@);
                assert(concat_groups(next, self@) == done + group@);
                assert forall|k: int| 0 <= k < out@.len() implies *(#[trigger] out@[k]) == (done
                    + group@)[k] by {
                    if k >= done.len() {
                        assert(*out@[done.len() + (k - done.len())] == group@[k - done.len()]);
                    }
                }
            }
            i = i + 1;
        }
        proof {
            assert(self.keys().take(i as int) =~= self.keys());
        }
        out
    }
}

/// A walk over borrowed items: what is left of them, first to last.
pub struct Cursor<'a, T> {
    items: Vec<&'a T>,
    pos: usize,
}

impl<'a, T> View for Cursor<'a, T> {
    type V = Seq<T>;

    /// The items that are left.
    closed spec fn view(&self) -> Seq<T> {
        Seq::new((self.items@.len() - self.pos) as nat, |i: int| *self.items@[self.pos + i])
    }
}

impl<'a, T> Cursor<'a, T> {
    /// The position lies within the items.
    #[verifier::type_invariant]
    pub closed spec fn wf(&self) -> bool {
        self.pos <= self.items@.len()
    }

    /// A walk over all the items of `groups`.
    pub fn new(groups: &'a Groups<T>) -> (r: Self)
        ensures
            r.wf(),
            r@ == groups.flat(),
    {
        let r = Cursor { items: groups.values(), pos: 0 };
        proof {
            assert(r@ =~= groups.flat());
        }
        r
    }

    /// How many items are left.
    pub fn remaining(&self) -> (n: usize)
        ensures
            n == self@.len(),
    {
        proof {
            use_type_invariant(self);
        }
        self.items.len() - self.pos
    }

    /// Hands out the first item that is left, and steps past it.
    pub fn next(&mut self) -> (r: Option<&'a T>)
        ensures
            final(self).wf(),
            old(self)@.len() == 0 ==> r is None && final(self)@ == old(self)@,
            old(self)@.len() > 0 ==> r == Some(&old(self)@[0]) && final(self)@ == old(self)@.skip(
                1,
            ),
    {
        proof {
            use_type_invariant(&*self);
        }
        if self.pos < self.items.len() {
            let item = self.items[self.pos];
            self.pos = self.pos + 1;
            proof {
                assert(final(self)@ =~= old(self)@.skip(1));
            }
            Some(item)
        } else {
            None
        }
    }
}

} // verus!
