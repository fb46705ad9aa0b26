//! The alias table: a mapping from alias names to raw replacement text, with
//! unique keys and a remembered definition order for listing.
//!
//! The table's view is the [`Map`] from name to replacement text, built so
//! that the first entry holding a name wins; since [`AliasTable::insert`]
//! replaces an existing entry in place, names stay unique and definition
//! order is the order of first insertion.

use vstd::prelude::*;

verus! {

/// One alias definition: a name and its raw replacement text.
struct AliasEntry {
    name: String,
    value: String,
}

/// The alias table consumed by expansion and maintained by the alias builtin.
pub struct AliasTable {
    entries: Vec<AliasEntry>,
}

/// The mapping the entries stand for; an earlier entry wins over a later one
/// holding the same name.
spec fn entries_map(entries: Seq<AliasEntry>) -> Map<Seq<char>, Seq<char>>
    decreases entries.len(),
{
    if entries.len() == 0 {
        Map::empty()
    } else {
        entries_map(entries.drop_first()).insert(entries[0].name@, entries[0].value@)
    }
}

impl View for AliasTable {
    type V = Map<Seq<char>, Seq<char>>;

    closed spec fn view(&self) -> Map<Seq<char>, Seq<char>> {
        entries_map(self.entries@)
    }
}

proof fn lemma_entries_map_dom_finite(entries: Seq<AliasEntry>)
    ensures
        entries_map(entries).dom().finite(),
    decreases entries.len(),
{
    if entries.len() > 0 {
        lemma_entries_map_dom_finite(entries.drop_first());
    }
}

/// The domain of an alias table's mapping is always finite.
pub proof fn lemma_alias_table_dom_finite(table: &AliasTable)
    ensures
        table@.dom().finite(),
{
    lemma_entries_map_dom_finite(table.entries@);
}

proof fn lemma_entries_map_match_at(entries: Seq<AliasEntry>, name: Seq<char>, i: int)
    requires
        0 <= i < entries.len(),
        entries[i].name@ == name,
        forall|j: int| 0 <= j < i ==> #[trigger] entries[j].name@ != name,
    ensures
        entries_map(entries).contains_key(name),
        entries_map(entries)[name] == entries[i].value@,
    decreases i,
{
    if i > 0 {
        lemma_entries_map_match_at(entries.drop_first(), name, i - 1);
    }
}

proof fn lemma_entries_map_no_match(entries: Seq<AliasEntry>, name: Seq<char>)
    requires
        forall|j: int| 0 <= j < entries.len() ==> #[trigger] entries[j].name@ != name,
    ensures
        !entries_map(entries).contains_key(name),
    decreases entries.len(),
{
    if entries.len() > 0 {
        lemma_entries_map_no_match(entries.drop_first(), name);
    }
}

proof fn lemma_entries_map_update_at(entries: Seq<AliasEntry>, i: int, entry: AliasEntry)
    requires
        0 <= i < entries.len(),
        entries[i].name@ == entry.name@,
        forall|j: int| 0 <= j < i ==> #[trigger] entries[j].name@ != entry.name@,
    ensures
        entries_map(entries.update(i, entry)) == entries_map(entries).insert(
            entry.name@,
            entry.value@,
        ),
    decreases i,
{
    let updated = entries.update(i, entry);
    if i == 0 {
        assert(updated.drop_first() =~= entries.drop_first());
        assert(entries_map(updated) =~= entries_map(entries).insert(entry.name@, entry.value@));
    } else {
        lemma_entries_map_update_at(entries.drop_first(), i - 1, entry);
        assert(updated.drop_first() =~= entries.drop_first().update(i - 1, entry));
        assert(entries_map(updated) =~= entries_map(entries).insert(entry.name@, entry.value@));
    }
}

proof fn lemma_entries_map_push(entries: Seq<AliasEntry>, entry: AliasEntry)
    requires
        forall|j: int| 0 <= j < entries.len() ==> #[trigger] entries[j].name@ != entry.name@,
    ensures
        entries_map(entries.push(entry)) == entries_map(entries).insert(entry.name@, entry.value@),
    decreases entries.len(),
{
    let extended = entries.push(entry);
    if entries.len() == 0 {
        assert(extended.drop_first() =~= Seq::<AliasEntry>::empty());
        assert(extended[0] == entry);
        assert(entries_map(Seq::<AliasEntry>::empty()) == Map::<Seq<char>, Seq<char>>::empty());
        assert(entries_map(extended) == entries_map(extended.drop_first()).insert(
            extended[0].name@,
            extended[0].value@,
        ));
        assert(entries_map(extended) =~= entries_map(entries).insert(entry.name@, entry.value@));
    } else {
        lemma_entries_map_push(entries.drop_first(), entry);
        assert(extended.drop_first() =~= entries.drop_first().push(entry));
        assert(extended[0] == entries[0]);
        assert(entries_map(extended) =~= entries_map(entries).insert(entry.name@, entry.value@));
    }
}

impl AliasTable {
    /// The alias names in definition order.
    pub closed spec fn names(&self) -> Seq<Seq<char>> {
        self.entries@.map_values(|entry: AliasEntry| entry.name@)
    }

    /// Keys are unique: no alias name occurs twice.
    pub open spec fn wf(&self) -> bool {
        forall|i: int, j: int|
            #![trigger self.names()[i], self.names()[j]]
            0 <= i < j < self.names().len() ==> self.names()[i] != self.names()[j]
    }

    /// A fresh table defines nothing.
    pub fn new() -> (table: AliasTable)
        ensures
            table@ == Map::<Seq<char>, Seq<char>>::empty(),
            table.names() == Seq::<Seq<char>>::empty(),
            table.wf(),
    {
        let table = AliasTable { entries: Vec::new() };
        proof {
            assert(table@ =~= Map::<Seq<char>, Seq<char>>::empty());
            assert(table.names() =~= Seq::<Seq<char>>::empty());
        }
        table
    }

    /// How many aliases are defined.
    pub fn len(&self) -> (n: usize)
        ensures
            n == self.names().len(),
    {
        self.entries.len()
    }

    /// The name of the alias at the given position in definition order.
    pub fn name_at(&self, index: usize) -> (name: String)
        requires
            index < self.names().len(),
        ensures
            name@ == self.names()[index as int],
    {
        self.entries[index].name.clone()
    }

    /// The replacement text of the alias at the given position; on a table
    /// with unique keys it is the mapping's value for that position's name.
    pub fn value_at(&self, index: usize) -> (value: String)
        requires
            index < self.names().len(),
        ensures
            self.wf() ==> self@.contains_key(self.names()[index as int]) && value@ == self@[
                self.names()[index as int]
            ],
    {
        proof {
            if self.wf() {
                assert forall|j: int| 0 <= j < index as int implies #[trigger] self.entries@[j].name@
                    != self.names()[index as int] by {
                    assert(self.names()[j] == self.entries@[j].name@);
                }
                assert(self.entries@[index as int].name@ == self.names()[index as int]);
                lemma_entries_map_match_at(self.entries@, self.names()[index as int], index as int);
            }
        }
        self.entries[index].value.clone()
    }

    /// Look a name up: the mapping's value if the name is defined, nothing
    /// otherwise.
    pub fn get(&self, name: &String) -> (value: Option<String>)
        ensures
            match value {
                Some(v) => self@.contains_key(name@) && v@ == self@[name@],
                None => !self@.contains_key(name@),
            },
    {
        let count = self.entries.len();
        let mut index: usize = 0;
        while index < count
            invariant
                count == self.entries@.len(),
                index <= count,
                forall|j: int| 0 <= j < index ==> #[trigger] self.entries@[j].name@ != name@,
            decreases count - index,
        {
            if self.entries[index].name.eq(name) {
                proof {
                    lemma_entries_map_match_at(self.entries@, name@, index as int);
                }
                return Some(self.entries[index].value.clone());
            }
            index += 1;
        }
        proof {
            lemma_entries_map_no_match(self.entries@, name@);
        }
        None
    }

    /// Define or redefine an alias: the mapping gains the pair, a redefined
    /// name keeps its place in definition order, a new name goes last.
    pub fn insert(&mut self, name: String, value: String)
        ensures
            final(self)@ == old(self)@.insert(name@, value@),
            final(self).names() == if old(self).names().contains(name@) {
                old(self).names()
            } else {
                old(self).names().push(name@)
            },
            old(self).wf() ==> final(self).wf(),
    {
        let count = self.entries.len();
        let mut index: usize = 0;
        while index < count
            invariant
                self.entries@ == old(self).entries@,
                count == self.entries@.len(),
                index <= count,
                forall|j: int| 0 <= j < index ==> #[trigger] self.entries@[j].name@ != name@,
            decreases count - index,
        {
            if self.entries[index].name.eq(&name) {
                let ghost orig = self.entries@;
                let entry = AliasEntry { name, value };
                proof {
                    lemma_entries_map_update_at(orig, index as int, entry);
                }
                let _ = self.entries.remove(index);
                self.entries.insert(index, entry);
                proof {
                    assert(self.entries@ =~= orig.update(index as int, entry));
                    assert forall|k: int| 0 <= k < self.names().len() implies #[trigger] self.names()[k]
                        == old(self).names()[k] by {
                        assert(self.names()[k] == self.entries@[k].name@);
                        assert(old(self).names()[k] == orig[k].name@);
                    }
                    assert(self.names() =~= old(self).names());
                    assert(old(self).names().contains(name@)) by {
                        assert(old(self).names()[index as int] == orig[index as int].name@);
                        assert(old(self).names()[index as int] == name@);
                    }
                }
                return ;
            }
            index += 1;
        }
        let ghost orig = self.entries@;
        let entry = AliasEntry { name, value };
        proof {
            lemma_entries_map_push(orig, entry);
        }
        self.entries.push(entry);
        proof {
            assert forall|k: int| 0 <= k < self.names().len() implies #[trigger] self.names()[k]
                == orig.push(entry)[k].name@ by {
                assert(self.names()[k] == self.entries@[k].name@);
            }
            assert(self.names() =~= old(self).names().push(name@));
            assert(!old(self).names().contains(name@)) by {
                assert forall|j: int| 0 <= j < old(self).names().len() implies #[trigger] old(
                    self,
                ).names()[j] != name@ by {
                    assert(old(self).names()[j] == orig[j].name@);
                }
            }
            if old(self).wf() {
                assert forall|i: int, j: int|
                    #![trigger self.names()[i], self.names()[j]]
                    0 <= i < j < self.names().len() implies self.names()[i] != self.names()[j] by {
                    if j < self.names().len() - 1 {
                        assert(old(self).names()[i] != old(self).names()[j]);
                    } else {
                        assert(old(self).names()[i] != name@);
                    }
                }
                assert(self.wf());
            }
        }
    }
}

} // verus!
