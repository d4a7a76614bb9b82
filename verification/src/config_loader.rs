//! The configuration: a login name, and categories that each allow a list
//! of host names.

use crate::order::{
    ascending, compare, is_place, is_sorted_keys, lemma_ascending_distinct,
    lemma_ascending_insert, lemma_sorted_keys_unique, precedes, sorted_keys, Order,
};
use crate::text::{lemma_texts_push, texts};
use vstd::prelude::*;

verus! {

/// A category: its name and the host names that it allows.
#[derive(Debug)]
struct Category {
    name: String,
    hosts: Vec<String>,
}

/// The categories of a configuration, each name once, kept in lexical order
/// of the names.
#[derive(Debug)]
pub struct CategoryMap {
    entries: Vec<Category>,
}

/// The names of `entries`, in their order.
spec fn entry_names(entries: Seq<Category>) -> Seq<Seq<char>> {
    entries.map_values(|e: Category| e.name@)
}

/// The mapping that `entries` stands for: each name to the allow-list beside it.
spec fn entry_map(entries: Seq<Category>) -> Map<Seq<char>, Seq<Seq<char>>> {
    Map::new(
        |k: Seq<char>| entry_names(entries).contains(k),
        |k: Seq<char>| texts(entries[entry_names(entries).index_of(k)].hosts@),
    )
}

/// The allow-lists of `keys` in `m`, one after another.
pub open spec fn hosts_of(m: Map<Seq<char>, Seq<Seq<char>>>, keys: Seq<Seq<char>>) -> Seq<
    Seq<char>,
>
    decreases keys.len(),
{
    if keys.len() == 0 {
        Seq::empty()
    } else {
        hosts_of(m, keys.drop_last()) + m[keys.last()]
    }
}

/// The host names that some category of `m` allows.
pub open spec fn allowed_set(m: Map<Seq<char>, Seq<Seq<char>>>) -> Set<Seq<char>> {
    Set::new(|n: Seq<char>| exists|c: Seq<char>| m.dom().contains(c) && m[c].contains(n))
}

proof fn lemma_entry_at(entries: Seq<Category>, i: int)
    requires
        ascending(entry_names(entries)),
        0 <= i < entries.len(),
    ensures
        entry_names(entries).contains(entries[i].name@),
        entry_names(entries).index_of(entries[i].name@) == i,
        entry_map(entries).dom().contains(entries[i].name@),
        entry_map(entries)[entries[i].name@] == texts(entries[i].hosts@),
{
    let names = entry_names(entries);
    lemma_ascending_distinct(names);
    assert(names[i] == entries[i].name@);
    let j = names.index_of(entries[i].name@);
    assert(0 <= j < names.len() && names[j] == names[i]);
}

proof fn lemma_entry_keys(entries: Seq<Category>)
    requires
        ascending(entry_names(entries)),
    ensures
        is_sorted_keys(entry_names(entries), entry_map(entries).dom()),
        entry_names(entries) == sorted_keys(entry_map(entries).dom()),
        entry_map(entries).dom().finite(),
        entry_map(entries).dom().len() == entries.len(),
{
    let names = entry_names(entries);
    let dom = entry_map(entries).dom();
    assert(is_sorted_keys(names, dom));
    lemma_sorted_keys_unique(names, sorted_keys(dom), dom);
    lemma_ascending_distinct(names);
    names.unique_seq_to_set();
    assert(names.to_set() =~= dom);
}

/// Putting an entry in the place of one of the same name binds the name anew.
proof fn lemma_entry_replaced(entries: Seq<Category>, i: int, entry: Category)
    requires
        ascending(entry_names(entries)),
        0 <= i < entries.len(),
        entries[i].name@ == entry.name@,
    ensures
        ascending(entry_names(entries.update(i, entry))),
        entry_map(entries.update(i, entry)) == entry_map(entries).insert(
            entry.name@,
            texts(entry.hosts@),
        ),
{
    let after = entries.update(i, entry);
    assert(entry_names(after) =~= entry_names(entries));
    assert forall|k: Seq<char>| entry_map(after).dom().contains(k) implies entry_map(after)[k]
        == entry_map(entries).insert(entry.name@, texts(entry.hosts@))[k] by {
        let n = entry_names(after).index_of(k);
        lemma_entry_at(after, n);
        lemma_entry_at(entries, n);
        lemma_entry_at(entries, i);
    }
    lemma_entry_at(entries, i);
    assert(entry_map(after) =~= entry_map(entries).insert(entry.name@, texts(entry.hosts@)));
}

/// Putting an entry of a new name in the place of the name binds the name,
/// and keeps the order.
proof fn lemma_entry_inserted(entries: Seq<Category>, i: int, entry: Category)
    requires
        ascending(entry_names(entries)),
        is_place(entry_names(entries), entry.name@, i),
    ensures
        ascending(entry_names(entries.insert(i, entry))),
        entry_map(entries.insert(i, entry)) == entry_map(entries).insert(
            entry.name@,
            texts(entry.hosts@),
        ),
{
    let after = entries.insert(i, entry);
    let names0 = entry_names(entries);
    let names1 = entry_names(after);
    let key = entry.name@;
    assert(names1 =~= names0.insert(i, key));
    lemma_ascending_insert(names0, i, key);
    lemma_ascending_distinct(names1);
    assert forall|k: Seq<char>| entry_map(after).dom().contains(k) <==> entry_map(entries).insert(
        key,
        texts(entry.hosts@),
    ).dom().contains(k) by {
        if names1.contains(k) {
            let n = names1.index_of(k);
            if n < i {
                assert(names0[n] == k);
            } else if n > i {
                assert(names0[n - 1] == k);
            }
        }
        if names0.contains(k) {
            let n = names0.index_of(k);
            if n < i {
                assert(names1[n] == k);
            } else {
                assert(names1[n + 1] == k);
            }
        }
        if k == key {
            assert(names1[i] == k);
        }
    }
    assert forall|k: Seq<char>| entry_map(after).dom().contains(k) implies entry_map(after)[k]
        == entry_map(entries).insert(key, texts(entry.hosts@))[k] by {
        let n = names1.index_of(k);
        lemma_entry_at(after, n);
        assert(names1[i] == key);
        if n < i {
            assert(after[n] == entries[n]);
            lemma_entry_at(entries, n);
        } else if n > i {
            assert(after[n] == entries[n - 1]);
            lemma_entry_at(entries, n - 1);
        }
    }
    assert(entry_map(after) =~= entry_map(entries).insert(key, texts(entry.hosts@)));
}

/// A host name stands in the joined allow-lists of `keys` exactly when the
/// allow-list of one of the keys holds it.
pub proof fn lemma_hosts_of_contains(
    m: Map<Seq<char>, Seq<Seq<char>>>,
    keys: Seq<Seq<char>>,
    n: Seq<char>,
)
    ensures
        hosts_of(m, keys).contains(n) <==> exists|j: int|
            0 <= j < keys.len() && m[keys[j]].contains(n),
    decreases keys.len(),
{
    if keys.len() > 0 {
        let front = keys.drop_last();
        let last = m[keys.last()];
        lemma_hosts_of_contains(m, front, n);
        let joined = hosts_of(m, front) + last;
        assert(joined == hosts_of(m, keys));
        if joined.contains(n) {
            let i = choose|i: int| 0 <= i < joined.len() && joined[i] == n;
            if i < hosts_of(m, front).len() {
                assert(hosts_of(m, front)[i] == n);
                let j = choose|j: int| 0 <= j < front.len() && m[front[j]].contains(n);
                assert(m[keys[j]].contains(n));
            } else {
                assert(last[i - hosts_of(m, front).len()] == n);
                assert(m[keys[keys.len() - 1]].contains(n));
            }
        }
        if exists|j: int| 0 <= j < keys.len() && m[keys[j]].contains(n) {
            let j = choose|j: int| 0 <= j < keys.len() && m[keys[j]].contains(n);
            if j < front.len() {
                assert(m[front[j]].contains(n));
                let i = choose|i: int|
                    0 <= i < hosts_of(m, front).len() && hosts_of(m, front)[i] == n;
                assert(joined[i] == n);
            } else {
                let i = choose|i: int| 0 <= i < last.len() && last[i] == n;
                assert(joined[hosts_of(m, front).len() + i] == n);
            }
        }
    }
}

/// The joined allow-lists of all categories hold exactly the allowed host names.
pub proof fn lemma_hosts_of_allowed(m: Map<Seq<char>, Seq<Seq<char>>>, keys: Seq<Seq<char>>)
    requires
        is_sorted_keys(keys, m.dom()),
    ensures
        forall|n: Seq<char>| hosts_of(m, keys).contains(n) <==> allowed_set(m).contains(n),
{
    assert forall|n: Seq<char>| hosts_of(m, keys).contains(n) <==> allowed_set(m).contains(
        n,
    ) by {
        lemma_hosts_of_contains(m, keys, n);
        if hosts_of(m, keys).contains(n) {
            let j = choose|j: int| 0 <= j < keys.len() && m[keys[j]].contains(n);
            assert(keys.contains(keys[j]));
        }
        if allowed_set(m).contains(n) {
            let c = choose|c: Seq<char>| m.dom().contains(c) && m[c].contains(n);
            assert(keys.contains(c));
            let j = choose|j: int| 0 <= j < keys.len() && keys[j] == c;
            assert(m[keys[j]].contains(n));
        }
    }
}

impl View for CategoryMap {
    type V = Map<Seq<char>, Seq<Seq<char>>>;

    closed spec fn view(&self) -> Self::V {
        entry_map(self.entries@)
    }
}

impl CategoryMap {
    /// The names stand in lexical order, so none occurs twice.
    #[verifier::type_invariant]
    pub closed spec fn well_formed(&self) -> bool {
        ascending(entry_names(self.entries@))
    }

    /// The categories are finitely many.
    pub proof fn lemma_finite(self)
        requires
            self.well_formed(),
        ensures
            self@.dom().finite(),
    {
        lemma_entry_keys(self.entries@);
    }

    /// A map without categories.
    pub fn new() -> (m: Self)
        ensures
            m@ == Map::<Seq<char>, Seq<Seq<char>>>::empty(),
    {
        let m = CategoryMap { entries: Vec::new() };
        proof {
            assert(entry_names(m.entries@) =~= Seq::empty());
            assert(m@ =~= Map::<Seq<char>, Seq<Seq<char>>>::empty());
        }
        m
    }

    /// The number of categories.
    pub fn len(&self) -> (n: usize)
        ensures
            self@.dom().finite(),
            n == self@.dom().len(),
    {
        proof {
            use_type_invariant(self);
            lemma_entry_keys(self.entries@);
        }
        self.entries.len()
    }

    /// Whether the map holds no category.
    pub fn is_empty(&self) -> (b: bool)
        ensures
            b == (self@.dom() == Set::<Seq<char>>::empty()),
    {
        proof {
            use_type_invariant(self);
            lemma_entry_keys(self.entries@);
            if self.entries@.len() == 0 {
                assert(self@.dom() =~= Set::<Seq<char>>::empty());
            } else {
                lemma_entry_at(self.entries@, 0);
            }
        }
        self.entries.len() == 0
    }

    /// The allow-list of the category `name`, where there is one.
    pub fn get(&self, name: &str) -> (r: Option<&Vec<String>>)
        ensures
            match r {
                Some(hosts) => self@.dom().contains(name@) && texts(hosts@) == self@[name@],
                None => !self@.dom().contains(name@),
            },
    {
        proof {
            use_type_invariant(self);
        }
        let mut i: usize = 0;
        while i < self.entries.len()
            invariant
                i <= self.entries.len(),
                ascending(entry_names(self.entries@)),
                forall|j: int| 0 <= j < i ==> self.entries[j].name@ != name@,
            decreases self.entries.len() - i,
        {
            if compare(self.entries[i].name.as_str(), name) == Order::Same {
                proof {
                    lemma_entry_at(self.entries@, i as int);
                }
                return Some(&self.entries[i].hosts);
            }
            i += 1;
        }
        proof {
            let names = entry_names(self.entries@);
            if names.contains(name@) {
                let j = choose|j: int| 0 <= j < names.len() && names[j] == name@;
                assert(self.entries[j].name@ == name@);
            }
        }
        None
    }

    /// Whether there is a category `name`.
    pub fn contains_key(&self, name: &str) -> (b: bool)
        ensures
            b == self@.dom().contains(name@),
    {
        self.get(name).is_some()
    }

    /// The category names, in lexical order.
    pub fn keys(&self) -> (names: Vec<String>)
        ensures
            self@.dom().finite(),
            is_sorted_keys(texts(names@), self@.dom()),
            texts(names@) == sorted_keys(self@.dom()),
    {
        proof {
            use_type_invariant(self);
            lemma_entry_keys(self.entries@);
        }
        let mut names: Vec<String> = Vec::new();
        let mut i: usize = 0;
        while i < self.entries.len()
            invariant
                i <= self.entries.len(),
                texts(names@) == entry_names(self.entries@).take(i as int),
            decreases self.entries.len() - i,
        {
            let name = self.entries[i].name.clone();
            proof {
                lemma_texts_push(names@, name);
            }
            names.push(name);
            proof {
                assert(texts(names@) =~= entry_names(self.entries@).take(i + 1));
            }
            i += 1;
        }
        proof {
            assert(texts(names@) =~= entry_names(self.entries@));
        }
        names
    }

    /// The host names of all allow-lists, category after category in lexical
    /// order of the category names.
    pub fn host_names(&self) -> (names: Vec<String>)
        ensures
            texts(names@) == hosts_of(self@, sorted_keys(self@.dom())),
            forall|n: Seq<char>| texts(names@).contains(n) <==> allowed_set(self@).contains(n),
    {
        proof {
            use_type_invariant(self);
            lemma_entry_keys(self.entries@);
        }
        let ghost keys = entry_names(self.entries@);
        let mut names: Vec<String> = Vec::new();
        let mut i: usize = 0;
        while i < self.entries.len()
            invariant
                i <= self.entries.len(),
                ascending(entry_names(self.entries@)),
                keys == entry_names(self.entries@),
                texts(names@) == hosts_of(self@, keys.take(i as int)),
            decreases self.entries.len() - i,
        {
            let hosts = &self.entries[i].hosts;
            let ghost done = texts(names@);
            let mut j: usize = 0;
            while j < hosts.len()
                invariant
                    j <= hosts.len(),
                    texts(names@) == done + texts(hosts@).take(j as int),
                decreases hosts.len() - j,
            {
                let host = hosts[j].clone();
                proof {
                    lemma_texts_push(names@, host);
                }
                names.push(host);
                proof {
                    assert(texts(names@) =~= done + texts(hosts@).take(j + 1));
                }
                j += 1;
            }
            proof {
                lemma_entry_at(self.entries@, i as int);
                assert(texts(hosts@).take(j as int) =~= texts(hosts@));
                assert(keys.take(i + 1).drop_last() =~= keys.take(i as int));
                assert(keys.take(i + 1).last() == self.entries[i as int].name@);
            }
            i += 1;
        }
        proof {
            assert(keys.take(i as int) =~= keys);
            lemma_hosts_of_allowed(self@, keys);
        }
        names
    }

    /// Binds `name` to `hosts`, in place of what `name` was bound to before.
    pub fn insert(&mut self, name: String, hosts: Vec<String>)
        ensures
            final(self)@ == old(self)@.insert(name@, texts(hosts@)),
    {
        proof {
            use_type_invariant(&*self);
        }
        // The entries leave the map while they change, so that the map is
        // well-formed at every step.
        let mut entries: Vec<Category> = Vec::new();
        proof {
            assert(entry_names(entries@) =~= Seq::empty());
        }
        core::mem::swap(&mut self.entries, &mut entries);
        let ghost before = entries@;
        let mut i: usize = 0;
        let mut found = false;
        while i < entries.len()
            invariant_except_break
                !found,
            invariant
                i <= entries.len(),
                entries@ == before,
                forall|j: int| 0 <= j < i ==> precedes(before[j].name@, name@),
            ensures
                i <= entries.len(),
                entries@ == before,
                forall|j: int| 0 <= j < i ==> precedes(before[j].name@, name@),
                found ==> i < before.len() && before[i as int].name@ == name@,
                !found && i < before.len() ==> precedes(name@, before[i as int].name@),
            decreases entries.len() - i,
        {
            match compare(entries[i].name.as_str(), name.as_str()) {
                Order::Before => {
                    i += 1;
                },
                Order::Same => {
                    found = true;
                    break;
                },
                Order::After => {
                    break;
                },
            }
        }
        let entry = Category { name, hosts };
        if found {
            proof {
                lemma_entry_replaced(before, i as int, entry);
            }
            entries.set(i, entry);
        } else {
            proof {
                assert forall|j: int| 0 <= j < i implies precedes(
                    entry_names(before)[j],
                    entry.name@,
                ) by {
                    assert(entry_names(before)[j] == before[j].name@);
                }
                lemma_entry_inserted(before, i as int, entry);
            }
            entries.insert(i, entry);
        }
        core::mem::swap(&mut self.entries, &mut entries);
    }
}

/// The settings of a run: the remote login name and the categories.
#[derive(Debug)]
pub struct AppConfig {
    pub user: String,
    pub allowed: CategoryMap,
}

/// What an `AppConfig` holds: the login name as a text, and the categories
/// as a mapping from name to allow-list.
pub struct AppConfigView {
    pub user: Seq<char>,
    pub allowed: Map<Seq<char>, Seq<Seq<char>>>,
}

impl View for AppConfig {
    type V = AppConfigView;

    open spec fn view(&self) -> AppConfigView {
        AppConfigView { user: self.user@, allowed: self.allowed@ }
    }
}

/// The login name of a configuration that nobody has edited yet.
pub open spec fn default_user() -> Seq<char> {
    "default_user"@
}

impl Default for AppConfig {
    /// The configuration that stands in where none was written yet.
    fn default() -> (config: Self)
        ensures
            config@.user == default_user(),
            config@.allowed == Map::<Seq<char>, Seq<Seq<char>>>::empty(),
    {
        AppConfig { user: "default_user".to_owned(), allowed: CategoryMap::new() }
    }
}

} // verus!
