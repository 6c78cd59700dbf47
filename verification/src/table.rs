//! A small table of values under names.

use vstd::prelude::*;

verus! {

/// Values under names, no name twice. The order of the entries means nothing.
#[derive(Debug)]
pub struct Table<V> {
    entries: Vec<(String, V)>,
}

impl<V> View for Table<V> {
    type V = Map<Seq<char>, V>;

    closed spec fn view(&self) -> Map<Seq<char>, V> {
        entries_map(self.entries@)
    }
}

/// `i` is where `name` stands.
spec fn stands<V>(entries: Seq<(String, V)>, name: Seq<char>, i: int) -> bool {
    0 <= i < entries.len() && entries[i].0@ == name
}

spec fn entries_map<V>(entries: Seq<(String, V)>) -> Map<Seq<char>, V> {
    Map::new(
        |name: Seq<char>| exists|i: int| stands(entries, name, i),
        |name: Seq<char>| entries[choose|i: int| stands(entries, name, i)].1,
    )
}

spec fn distinct<V>(entries: Seq<(String, V)>) -> bool {
    forall|i: int, j: int|
        0 <= i < j < entries.len() ==> #[trigger] entries[i].0@ != #[trigger] entries[j].0@
}

proof fn lemma_entry<V>(entries: Seq<(String, V)>, i: int)
    requires
        distinct(entries),
        0 <= i < entries.len(),
    ensures
        entries_map(entries).contains_key(entries[i].0@),
        entries_map(entries)[entries[i].0@] == entries[i].1,
{
    let name = entries[i].0@;
    assert(stands(entries, name, i));
    let j = choose|j: int| stands(entries, name, j);
    assert(stands(entries, name, j));
    if i < j {
        assert(entries[i].0@ != entries[j].0@);
    } else if j < i {
        assert(entries[j].0@ != entries[i].0@);
    }
}

proof fn lemma_pushed<V>(entries: Seq<(String, V)>, name: String, value: V)
    requires
        distinct(entries),
        !entries_map(entries).contains_key(name@),
    ensures
        distinct(entries.push((name, value))),
        entries_map(entries.push((name, value))) == entries_map(entries).insert(name@, value),
{
    let longer = entries.push((name, value));
    assert forall|i: int| 0 <= i < entries.len() implies #[trigger] entries[i].0@ != name@ by {
        lemma_entry(entries, i);
    }
    assert(distinct(longer));
    let m = entries_map(entries).insert(name@, value);
    let n = entries_map(longer);
    assert forall|k: Seq<char>|
        #![trigger n.dom().contains(k)]
        #![trigger m.dom().contains(k)]
        #![trigger n[k]]
        n.dom().contains(k) == m.dom().contains(k) && (m.dom().contains(k) ==> n[k] == m[k]) by {
        if n.dom().contains(k) {
            let i = choose|i: int| stands(longer, k, i);
            lemma_entry(longer, i);
            if i < entries.len() {
                lemma_entry(entries, i);
            }
        }
        if entries_map(entries).contains_key(k) {
            let i = choose|i: int| stands(entries, k, i);
            lemma_entry(entries, i);
            assert(longer[i] == entries[i]);
            lemma_entry(longer, i);
        }
        if k == name@ {
            lemma_entry(longer, entries.len() as int);
        }
    }
    assert(n =~= m);
}

proof fn lemma_removed<V>(entries: Seq<(String, V)>, at: int)
    requires
        distinct(entries),
        0 <= at < entries.len(),
    ensures
        distinct(entries.remove(at)),
        entries_map(entries.remove(at)) == entries_map(entries).remove(entries[at].0@),
{
    let shorter = entries.remove(at);
    assert(distinct(shorter));
    let m = entries_map(entries).remove(entries[at].0@);
    let n = entries_map(shorter);
    assert forall|k: Seq<char>|
        #![trigger n.dom().contains(k)]
        #![trigger m.dom().contains(k)]
        #![trigger n[k]]
        n.dom().contains(k) == m.dom().contains(k) && (m.dom().contains(k) ==> n[k] == m[k]) by {
        if n.dom().contains(k) {
            let i = choose|i: int| stands(shorter, k, i);
            lemma_entry(shorter, i);
            let j = if i < at {
                i
            } else {
                i + 1
            };
            assert(shorter[i] == entries[j]);
            lemma_entry(entries, j);
            lemma_entry(entries, at);
        }
        if m.contains_key(k) {
            let j = choose|j: int| stands(entries, k, j);
            lemma_entry(entries, j);
            let i = if j < at {
                j
            } else {
                j - 1
            };
            assert(shorter[i] == entries[j]);
            lemma_entry(shorter, i);
        }
    }
    assert(n =~= m);
}

impl<V> Table<V> {
    /// No name stands twice.
    pub closed spec fn wf(&self) -> bool {
        distinct(self.entries@)
    }

    /// An empty table.
    pub fn new() -> (r: Self)
        ensures
            r.wf(),
            r@ == Map::<Seq<char>, V>::empty(),
    {
        let r = Table { entries: Vec::new() };
        assert(r@ =~= Map::<Seq<char>, V>::empty());
        r
    }

    /// Where the name stands.
    fn find(&self, name: &str) -> (r: Option<usize>)
        requires
            self.wf(),
        ensures
            match r {
                Some(i) => i < self.entries@.len() && self.entries@[i as int].0@ == name@
                    && self@.contains_key(name@) && self@[name@] == self.entries@[i as int].1,
                None => !self@.contains_key(name@),
            },
    {
        let wanted: String = name.to_owned();
        let mut i: usize = 0;
        while i < self.entries.len()
            invariant
                i <= self.entries@.len(),
                self.wf(),
                wanted@ == name@,
                forall|k: int| 0 <= k < i ==> #[trigger] self.entries@[k].0@ != name@,
            decreases self.entries.len() - i,
        {
            if self.entries[i].0 == wanted {
                proof {
                    lemma_entry(self.entries@, i as int);
                }
                return Some(i);
            }
            i = i + 1;
        }
        None
    }

    /// The value under the name.
    pub fn get(&self, name: &str) -> (r: Option<&V>)
        requires
            self.wf(),
        ensures
            match r {
                Some(value) => self@.contains_key(name@) && self@[name@] == *value,
                None => !self@.contains_key(name@),
            },
    {
        match self.find(name) {
            Some(i) => Some(&self.entries[i].1),
            None => None,
        }
    }

    /// Takes the value under the name out of the table.
    pub fn remove(&mut self, name: &str) -> (r: Option<V>)
        requires
            old(self).wf(),
        ensures
            final(self).wf(),
            final(self)@ == old(self)@.remove(name@),
            r is Some ==> final(self).names().len() == old(self).names().len() - 1,
            match r {
                Some(value) => old(self)@.contains_key(name@) && old(self)@[name@] == value,
                None => !old(self)@.contains_key(name@),
            },
    {
        match self.find(name) {
            Some(i) => {
                proof {
                    lemma_removed(self.entries@, i as int);
                }
                let (_, value) = self.entries.remove(i);
                Some(value)
            },
            None => {
                assert(old(self)@.remove(name@) =~= old(self)@);
                None
            },
        }
    }

    /// Puts the value under the name, in place of the one that was there.
    pub fn insert(&mut self, name: &str, value: V)
        requires
            old(self).wf(),
        ensures
            final(self).wf(),
            final(self)@ == old(self)@.insert(name@, value),
    {
        let _ = self.remove(name);
        let key: String = name.to_owned();
        proof {
            lemma_pushed(self.entries@, key, value);
        }
        self.entries.push((key, value));
        assert(self@ =~= old(self)@.insert(name@, value));
    }

    /// How many names there are.
    pub fn len(&self) -> (n: usize)
        ensures
            n == self.names().len(),
    {
        self.entries.len()
    }

    /// The names, in the order in which [`Table::name`] counts them.
    pub closed spec fn names(&self) -> Seq<Seq<char>> {
        self.entries@.map_values(|e: (String, V)| e.0@)
    }

    /// The name that stands at `i`.
    pub fn name(&self, i: usize) -> (r: String)
        requires
            i < self.names().len(),
        ensures
            r@ == self.names()[i as int],
    {
        self.entries[i].0.clone()
    }

    /// The names are those of the values.
    pub proof fn lemma_names(&self)
        requires
            self.wf(),
        ensures
            forall|name: Seq<char>| self@.contains_key(name) <==> self.names().contains(name),
    {
        assert forall|name: Seq<char>| self@.contains_key(name) <==> self.names().contains(
            name,
        ) by {
            if self@.contains_key(name) {
                let i = choose|i: int| stands(self.entries@, name, i);
                assert(self.names()[i] == name);
            }
            if self.names().contains(name) {
                let i = choose|i: int| 0 <= i < self.names().len() && self.names()[i] == name;
                assert(stands(self.entries@, name, i));
            }
        }
    }
}

} // verus!
