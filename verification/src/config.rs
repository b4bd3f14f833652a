//! Speaker display names: the mapping from a speaker identifier to the
//! name a user assigned to it. Renaming is pure metadata and never feeds
//! back into clustering. Reading and writing the store on disk is left to
//! the surrounding application; this type only owns the mapping.

use vstd::prelude::*;

verus! {

/// First-match lookup in an association list of name pairs.
pub open spec fn lookup(entries: Seq<(Seq<char>, Seq<char>)>, key: Seq<char>) -> Option<
    Seq<char>,
>
    decreases entries.len(),
{
    if entries.len() == 0 {
        None
    } else if entries[0].0 == key {
        Some(entries[0].1)
    } else {
        lookup(entries.drop_first(), key)
    }
}

/// A key matching nothing in a prefix is decided by the rest.
proof fn lemma_lookup_skip(entries: Seq<(Seq<char>, Seq<char>)>, key: Seq<char>, i: int)
    requires
        0 <= i <= entries.len(),
        forall|j: int| 0 <= j < i ==> (#[trigger] entries[j]).0 != key,
    ensures
        lookup(entries, key) == lookup(entries.skip(i), key),
    decreases i,
{
    if i > 0 {
        assert(entries.skip(0) =~= entries);
        lemma_lookup_skip(entries.drop_first(), key, i - 1);
        assert(entries.drop_first().skip(i - 1) =~= entries.skip(i));
    } else {
        assert(entries.skip(0) =~= entries);
    }
}

/// Lookup after appending a pair: the new pair answers only for its own
/// key, and only when that key was absent.
proof fn lemma_lookup_push(
    entries: Seq<(Seq<char>, Seq<char>)>,
    key: Seq<char>,
    value: Seq<char>,
    probe: Seq<char>,
)
    requires
        lookup(entries, key) is None,
    ensures
        lookup(entries.push((key, value)), probe) == if probe == key {
            Some(value)
        } else {
            lookup(entries, probe)
        },
    decreases entries.len(),
{
    let pushed = entries.push((key, value));
    if entries.len() == 0 {
        assert(pushed[0] == (key, value));
        assert(pushed.drop_first() =~= Seq::<(Seq<char>, Seq<char>)>::empty());
        if probe == key {
            assert(lookup(pushed, probe) == Some(value));
        } else {
            assert(lookup(pushed.drop_first(), probe) == None::<Seq<char>>);
            assert(lookup(pushed, probe) == None::<Seq<char>>);
            assert(lookup(entries, probe) == None::<Seq<char>>);
        }
    } else {
        assert(entries[0].0 != key);
        assert(pushed[0] == entries[0]);
        lemma_lookup_push(entries.drop_first(), key, value, probe);
        assert(pushed.drop_first() =~= entries.drop_first().push((key, value)));
        assert(lookup(pushed, probe) == if pushed[0].0 == probe {
            Some(pushed[0].1)
        } else {
            lookup(pushed.drop_first(), probe)
        });
        assert(lookup(entries, probe) == if entries[0].0 == probe {
            Some(entries[0].1)
        } else {
            lookup(entries.drop_first(), probe)
        });
    }
}

/// Lookup after overwriting the first match of `key`: that key now maps to
/// the new value, every other key is untouched.
proof fn lemma_lookup_update(
    entries: Seq<(Seq<char>, Seq<char>)>,
    i: int,
    value: Seq<char>,
    probe: Seq<char>,
)
    requires
        0 <= i < entries.len(),
        forall|j: int| 0 <= j < i ==> (#[trigger] entries[j]).0 != entries[i].0,
    ensures
        lookup(entries.update(i, (entries[i].0, value)), probe) == if probe == entries[i].0 {
            Some(value)
        } else {
            lookup(entries, probe)
        },
    decreases i,
{
    let key = entries[i].0;
    if i == 0 {
        assert(entries.update(0, (key, value))[0] == (key, value));
        assert(entries.update(0, (key, value)).drop_first() =~= entries.drop_first());
    } else {
        lemma_lookup_update(entries.drop_first(), i - 1, value, probe);
        assert(entries.update(i, (key, value)).drop_first() =~= entries.drop_first().update(
            i - 1,
            (key, value),
        ));
        assert(entries.drop_first()[i - 1] == entries[i]);
    }
}

/// The persistent mapping from speaker identifier to display name.
pub struct Config {
    speaker_names: Vec<(String, String)>,
}

impl Config {
    /// The stored pairs, as character sequences.
    pub closed spec fn entries(&self) -> Seq<(Seq<char>, Seq<char>)> {
        self.speaker_names@.map_values(|p: (String, String)| (p.0@, p.1@))
    }

    /// The name stored for a speaker identifier, if any.
    pub open spec fn name_of(&self, id: Seq<char>) -> Option<Seq<char>> {
        lookup(self.entries(), id)
    }

    /// An empty mapping.
    pub fn new() -> (c: Self)
        ensures
            forall|k: Seq<char>| c.name_of(k) is None,
    {
        let c = Config { speaker_names: Vec::new() };
        proof {
            assert(c.entries() =~= Seq::<(Seq<char>, Seq<char>)>::empty());
        }
        c
    }

    /// Stores a display name for a speaker identifier, replacing any name
    /// it already had; other identifiers keep theirs.
    pub fn set_speaker_name(&mut self, id: String, name: String) -> (r: ())
        ensures
            forall|k: Seq<char>| final (self).name_of(k) == if k == id@ {
                Some(name@)
            } else {
                old(self).name_of(k)
            },
    {
        let ghost oe = old(self).entries();
        let ghost idv = id@;
        let ghost namev = name@;
        let len: usize = self.speaker_names.len();
        let mut i: usize = 0;
        while i < len
            invariant
                0 <= i <= len,
                *self == *old(self),
                len == self.speaker_names@.len(),
                oe == self.entries(),
                idv == id@,
                namev == name@,
                forall|j: int| 0 <= j < i ==> (#[trigger] oe[j]).0 != idv,
            decreases len - i,
        {
            if self.speaker_names[i].0 == id {
                proof {
                    assert(oe[i as int].0 == idv);
                }
                let entry = (id, name);
                self.speaker_names.set(i, entry);
                proof {
                    assert(self.entries() =~= oe.update(i as int, (oe[i as int].0, namev)));
                    assert forall|k: Seq<char>| self.name_of(k) == (if k == idv {
                        Some(namev)
                    } else {
                        lookup(oe, k)
                    }) by {
                        lemma_lookup_update(oe, i as int, namev, k);
                    }
                }
                return ;
            }
            i = i + 1;
        }
        proof {
            lemma_lookup_skip(oe, idv, len as int);
            assert(oe.skip(len as int) =~= Seq::<(Seq<char>, Seq<char>)>::empty());
        }
        let entry = (id, name);
        self.speaker_names.push(entry);
        proof {
            assert(self.entries() =~= oe.push((idv, namev)));
            assert forall|k: Seq<char>| self.name_of(k) == (if k == idv {
                Some(namev)
            } else {
                lookup(oe, k)
            }) by {
                lemma_lookup_push(oe, idv, namev, k);
            }
        }
    }

    /// How many name pairs are stored.
    pub fn entry_count(&self) -> (n: usize)
        ensures
            n == self.entries().len(),
    {
        self.speaker_names.len()
    }

    /// Reads one stored pair by position.
    pub fn entry_at(&self, i: usize) -> (e: &(String, String))
        requires
            i < self.entries().len(),
        ensures
            (e.0@, e.1@) == self.entries()[i as int],
    {
        &self.speaker_names[i]
    }

    /// Returns the display name stored for a speaker identifier, or
    /// nothing when the identifier was never renamed.
    pub fn get_speaker_name(&self, id: &str) -> (r: Option<&String>)
        ensures
            match r {
                Some(n) => self.name_of(id@) == Some(n@),
                None => self.name_of(id@) is None,
            },
    {
        let key: String = String::from_str(id);
        let ghost oe = self.entries();
        let len: usize = self.speaker_names.len();
        let mut i: usize = 0;
        while i < len
            invariant
                0 <= i <= len,
                len == self.speaker_names@.len(),
                oe == self.entries(),
                key@ == id@,
                forall|j: int| 0 <= j < i ==> (#[trigger] oe[j]).0 != id@,
            decreases len - i,
        {
            if self.speaker_names[i].0 == key {
                proof {
                    lemma_lookup_skip(oe, id@, i as int);
                    assert(oe.skip(i as int)[0] == oe[i as int]);
                    assert(oe.skip(i as int).drop_first() =~= oe.skip(i + 1));
                }
                return Some(&self.speaker_names[i].1);
            }
            i = i + 1;
        }
        proof {
            lemma_lookup_skip(oe, id@, len as int);
            assert(oe.skip(len as int) =~= Seq::<(Seq<char>, Seq<char>)>::empty());
        }
        None
    }
}

} // verus!
