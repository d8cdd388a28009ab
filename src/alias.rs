use vstd::prelude::*;
use vstd::string::*;

verus! {

/// The map that a list of named entries stands for; a later entry overrides
/// an earlier one of the same name.
pub open spec fn entries_map<V>(s: Seq<(String, V)>) -> Map<Seq<char>, V>
    decreases s.len(),
{
    if s.len() == 0 {
        Map::empty()
    } else {
        entries_map(s.drop_last()).insert(s.last().0@, s.last().1)
    }
}

/// No two entries share a name.
pub open spec fn names_unique<V>(s: Seq<(String, V)>) -> bool {
    forall|i: int, j: int| 0 <= i < j < s.len() ==> s[i].0@ != s[j].0@
}

proof fn lemma_entries_map_index<V>(s: Seq<(String, V)>, i: int)
    requires
        names_unique(s),
        0 <= i < s.len(),
    ensures
        entries_map(s).contains_key(s[i].0@),
        entries_map(s)[s[i].0@] == s[i].1,
    decreases s.len(),
{
    if i < s.len() - 1 {
        lemma_entries_map_index(s.drop_last(), i);
    }
}

proof fn lemma_entries_map_domain<V>(s: Seq<(String, V)>, k: Seq<char>)
    requires
        entries_map(s).contains_key(k),
    ensures
        exists|i: int| 0 <= i < s.len() && s[i].0@ == k,
    decreases s.len(),
{
    if s.last().0@ != k {
        lemma_entries_map_domain(s.drop_last(), k);
        let i = choose|i: int| 0 <= i < s.len() - 1 && s.drop_last()[i].0@ == k;
        assert(s[i].0@ == k);
    }
}

proof fn lemma_entries_map_update<V>(s: Seq<(String, V)>, i: int, e: (String, V))
    requires
        names_unique(s),
        0 <= i < s.len(),
        e.0@ == s[i].0@,
    ensures
        entries_map(s.update(i, e)) == entries_map(s).insert(e.0@, e.1),
    decreases s.len(),
{
    let t = s.update(i, e);
    if i == s.len() - 1 {
        assert(t.drop_last() =~= s.drop_last());
        assert(entries_map(t) =~= entries_map(s).insert(e.0@, e.1));
    } else {
        lemma_entries_map_update(s.drop_last(), i, e);
        assert(t.drop_last() =~= s.drop_last().update(i, e));
        assert(s.last().0@ != e.0@);
        assert(entries_map(t) =~= entries_map(s).insert(e.0@, e.1));
    }
}

fn find<V>(entries: &Vec<(String, V)>, key: &String) -> (r: Option<usize>)
    ensures
        match r {
            Some(i) => i < entries@.len() && entries@[i as int].0@ == key@,
            None => forall|i: int| 0 <= i < entries@.len() ==> entries@[i].0@ != key@,
        },
{
    let mut i: usize = 0;
    while i < entries.len()
        invariant
            i <= entries@.len(),
            forall|j: int| 0 <= j < i ==> entries@[j].0@ != key@,
        decreases entries@.len() - i,
    {
        if entries[i].0 == *key {
            return Some(i);
        }
        i = i + 1;
    }
    None
}

/// A table of named entries (values or functions): one entry per name, and
/// inserting under a name that is present replaces its entry.
pub struct AliasTable<V> {
    entries: Vec<(String, V)>,
}

impl<V> View for AliasTable<V> {
    type V = Map<Seq<char>, V>;

    closed spec fn view(&self) -> Map<Seq<char>, V> {
        entries_map(self.entries@)
    }
}

impl<V> AliasTable<V> {
    #[verifier::type_invariant]
    closed spec fn inv(&self) -> bool {
        names_unique(self.entries@)
    }

    /// An empty table.
    pub fn new() -> (r: Self)
        ensures
            r@ == Map::<Seq<char>, V>::empty(),
    {
        AliasTable { entries: Vec::new() }
    }

    /// The entry under `key`, if there is one.
    pub fn get(&self, key: &str) -> (r: Option<&V>)
        ensures
            match r {
                Some(v) => self@.contains_key(key@) && *v == self@[key@],
                None => !self@.contains_key(key@),
            },
    {
        proof {
            use_type_invariant(self);
        }
        let k = String::from_str(key);
        match find(&self.entries, &k) {
            Some(i) => {
                proof {
                    lemma_entries_map_index(self.entries@, i as int);
                }
                Some(&self.entries[i].1)
            },
            None => {
                proof {
                    if self@.contains_key(key@) {
                        lemma_entries_map_domain(self.entries@, key@);
                    }
                }
                None
            },
        }
    }

    /// Whether an entry stands under `key`.
    pub fn contains(&self, key: &str) -> (r: bool)
        ensures
            r == self@.contains_key(key@),
    {
        self.get(key).is_some()
    }

    /// Puts `value` under `key`, replacing what stood there.
    pub fn insert(&mut self, key: String, value: V)
        ensures
            final(self)@ == old(self)@.insert(key@, value),
    {
        proof {
            use_type_invariant(&*self);
        }
        let mut entries: Vec<(String, V)> = Vec::new();
        std::mem::swap(&mut entries, &mut self.entries);
        match find(&entries, &key) {
            Some(i) => {
                proof {
                    lemma_entries_map_update(entries@, i as int, (key, value));
                }
                entries.set(i, (key, value));
            },
            None => {
                let ghost old_entries = entries@;
                entries.push((key, value));
                proof {
                    assert(entries@.drop_last() =~= old_entries);
                }
            },
        }
        self.entries = entries;
    }

    /// The number of names in the table.
    pub fn len(&self) -> (r: usize)
        ensures
            r == self@.len(),
    {
        proof {
            use_type_invariant(self);
            lemma_entries_map_len(self.entries@);
        }
        self.entries.len()
    }
}

proof fn lemma_entries_map_len<V>(s: Seq<(String, V)>)
    requires
        names_unique(s),
    ensures
        entries_map(s).len() == s.len(),
        entries_map(s).dom().finite(),
    decreases s.len(),
{
    if s.len() > 0 {
        lemma_entries_map_len(s.drop_last());
        if entries_map(s.drop_last()).contains_key(s.last().0@) {
            lemma_entries_map_domain(s.drop_last(), s.last().0@);
        }
    }
}

/// Looks a variable up in the scope of a call first, then in the session's
/// table.
pub fn lookup_var<'a, V>(local: &'a AliasTable<V>, global: &'a AliasTable<V>, name: &str) -> (r:
    Result<&'a V, String>)
    ensures
        local@.contains_key(name@) ==> (r matches Ok(v) && *v == local@[name@]),
        !local@.contains_key(name@) && global@.contains_key(name@) ==> (r matches Ok(v) && *v
            == global@[name@]),
        !local@.contains_key(name@) && !global@.contains_key(name@) ==> (r matches Err(e) && e@
            == "Variable "@ + name@ + " not found"@),
{
    match local.get(name) {
        Some(v) => Ok(v),
        None => match global.get(name) {
            Some(v) => Ok(v),
            None => {
                let mut msg = String::from_str("Variable ");
                msg.append(name);
                msg.append(" not found");
                Err(msg)
            },
        },
    }
}

/// Looks a function up by name.
pub fn lookup_function<'a, F>(table: &'a AliasTable<F>, name: &str) -> (r: Result<&'a F, String>)
    ensures
        table@.contains_key(name@) ==> (r matches Ok(f) && *f == table@[name@]),
        !table@.contains_key(name@) ==> (r matches Err(e) && e@ == "No such function: "@
            + name@),
{
    match table.get(name) {
        Some(f) => Ok(f),
        None => {
            let mut msg = String::from_str("No such function: ");
            msg.append(name);
            Err(msg)
        },
    }
}

} // verus!
