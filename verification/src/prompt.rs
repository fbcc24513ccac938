//! The structured result of classifying a command-line invocation, and the
//! parameter mapping it carries.

use vstd::prelude::*;

verus! {

/// The failures classification can report: an empty invocation carries no
/// program name, and a redirected standard input may fail to be drained.
#[derive(Clone, Copy, Debug, PartialEq, Eq, Structural)]
pub enum PromptError {
    MissingProgramName,
    PipedReadFailure,
}

/// The mapping built from a sequence of name/value-list entries, later
/// entries overwriting earlier ones with the same name.
spec fn map_of(entries: Seq<(String, Vec<String>)>) -> Map<Seq<char>, Seq<Seq<char>>>
    decreases entries.len(),
{
    if entries.len() == 0 {
        Map::empty()
    } else {
        map_of(entries.drop_last()).insert(entries.last().0@, entries.last().1.deep_view())
    }
}

/// A mapping from parameter names to the ordered list of values attached to
/// each, with unique names. Viewed as a `Map<Seq<char>, Seq<Seq<char>>>`.
pub struct Parameters {
    entries: Vec<(String, Vec<String>)>,
}

impl View for Parameters {
    type V = Map<Seq<char>, Seq<Seq<char>>>;

    closed spec fn view(&self) -> Map<Seq<char>, Seq<Seq<char>>> {
        map_of(self.entries@)
    }
}

impl Parameters {
    /// No two entries share a name, so the mapping determines the entries up
    /// to order and the entry count equals the mapping's size.
    pub closed spec fn wf(self) -> bool {
        forall|i: int, j: int|
            0 <= i < j < self.entries@.len() ==> self.entries@[i].0@ != self.entries@[j].0@
    }

    pub fn new() -> (r: Self)
        ensures
            r.wf(),
            r@ == Map::<Seq<char>, Seq<Seq<char>>>::empty(),
    {
        Parameters { entries: Vec::new() }
    }

    /// Bind `name` to `values`, discarding any values an earlier occurrence
    /// of the same name had collected.
    pub fn insert(&mut self, name: String, values: Vec<String>)
        requires
            old(self).wf(),
        ensures
            final(self).wf(),
            final(self)@ == old(self)@.insert(name@, values.deep_view()),
    {
        let ghost name_view = name@;
        let ghost values_view = values.deep_view();
        let mut i: usize = 0;
        let n = self.entries.len();
        while i < n
            invariant
                0 <= i <= n == self.entries@.len(),
                self.entries@ == old(self).entries@,
                old(self).wf(),
                name@ == name_view,
                values.deep_view() == values_view,
                forall|j: int| 0 <= j < i ==> self.entries@[j].0@ != name@,
            decreases n - i,
        {
            if self.entries[i].0 == name {
                proof {
                    lemma_map_of_remove(self.entries@, i as int);
                }
                self.entries.remove(i);
                self.entries.push((name, values));
                proof {
                    let shortened = old(self).entries@.remove(i as int);
                    assert(self.entries@.drop_last() =~= shortened);
                    assert(map_of(self.entries@) == map_of(shortened).insert(
                        name_view,
                        values_view,
                    ));
                    assert(map_of(self.entries@) =~= old(self)@.insert(name_view, values_view));
                    assert forall|p: int, q: int|
                        0 <= p < q < self.entries@.len() implies self.entries@[p].0@
                        != self.entries@[q].0@ by {
                        if q == self.entries@.len() - 1 {
                            assert(self.entries@[q].0@ == name_view);
                        }
                    }
                }
                return ;
            }
            i += 1;
        }
        proof {
            lemma_map_of_contains(old(self).entries@, name_view);
        }
        self.entries.push((name, values));
        proof {
            assert(self.entries@.drop_last() =~= old(self).entries@);
            assert(map_of(self.entries@) == old(self)@.insert(name_view, values_view));
            assert forall|p: int, q: int|
                0 <= p < q < self.entries@.len() implies self.entries@[p].0@
                != self.entries@[q].0@ by {
                if q == self.entries@.len() - 1 {
                    assert(self.entries@[q].0@ == name_view);
                }
            }
        }
    }

    /// Whether some entry is named `name`.
    pub fn contains_key(&self, name: &str) -> (r: bool)
        requires
            self.wf(),
        ensures
            r == self@.contains_key(name@),
    {
        let name_owned: String = name.to_owned();
        let mut i: usize = 0;
        let n = self.entries.len();
        proof {
            lemma_map_of_contains(self.entries@, name@);
        }
        while i < n
            invariant
                0 <= i <= n == self.entries@.len(),
                name_owned@ == name@,
                forall|j: int| 0 <= j < i ==> self.entries@[j].0@ != name@,
                self@.contains_key(name@) <==> exists|j: int|
                    0 <= j < self.entries@.len() && self.entries@[j].0@ == name@,
            decreases n - i,
        {
            if self.entries[i].0 == name_owned {
                return true;
            }
            i += 1;
        }
        false
    }

    /// The values attached to `name`, if some entry carries that name.
    pub fn get(&self, name: &str) -> (r: Option<&Vec<String>>)
        requires
            self.wf(),
        ensures
            match r {
                Some(values) => self@.contains_key(name@) && values.deep_view() == self@[name@],
                None => !self@.contains_key(name@),
            },
    {
        let name_owned: String = name.to_owned();
        let mut i: usize = 0;
        let n = self.entries.len();
        proof {
            lemma_map_of_contains(self.entries@, name@);
        }
        while i < n
            invariant
                0 <= i <= n == self.entries@.len(),
                name_owned@ == name@,
                self.wf(),
                forall|j: int| 0 <= j < i ==> self.entries@[j].0@ != name@,
                self@.contains_key(name@) <==> exists|j: int|
                    0 <= j < self.entries@.len() && self.entries@[j].0@ == name@,
            decreases n - i,
        {
            if self.entries[i].0 == name_owned {
                proof {
                    lemma_map_of_last_occurrence(self.entries@, i as int);
                }
                return Some(&self.entries[i].1);
            }
            i += 1;
        }
        None
    }

    /// How many distinct parameter names are mapped.
    pub fn len(&self) -> (n: usize)
        requires
            self.wf(),
        ensures
            n == self@.dom().len(),
            n == 0 <==> self@ == Map::<Seq<char>, Seq<Seq<char>>>::empty(),
    {
        proof {
            lemma_map_of_dom_len(self.entries@);
            if self.entries@.len() > 0 {
                assert(self@.contains_key(self.entries@.last().0@));
                assert(!Map::<Seq<char>, Seq<Seq<char>>>::empty().contains_key(
                    self.entries@.last().0@,
                ));
            } else {
                assert(self@ =~= Map::<Seq<char>, Seq<Seq<char>>>::empty());
            }
        }
        self.entries.len()
    }

    /// Whether no name is mapped at all.
    pub fn is_empty(&self) -> (r: bool)
        requires
            self.wf(),
        ensures
            r <==> self@ == Map::<Seq<char>, Seq<Seq<char>>>::empty(),
    {
        self.len() == 0
    }
}

/// A name occurs in `map_of(entries)` exactly when some entry carries it.
proof fn lemma_map_of_contains(entries: Seq<(String, Vec<String>)>, name: Seq<char>)
    ensures
        map_of(entries).contains_key(name) <==> exists|j: int|
            0 <= j < entries.len() && entries[j].0@ == name,
    decreases entries.len(),
{
    if entries.len() > 0 {
        lemma_map_of_contains(entries.drop_last(), name);
        if map_of(entries).contains_key(name) {
            if entries.last().0@ != name {
                let j = choose|j: int|
                    0 <= j < entries.drop_last().len() && entries.drop_last()[j].0@ == name;
                assert(entries[j].0@ == name);
            } else {
                assert(entries[entries.len() - 1].0@ == name);
            }
        }
        if exists|j: int| 0 <= j < entries.len() && entries[j].0@ == name {
            let j = choose|j: int| 0 <= j < entries.len() && entries[j].0@ == name;
            if j < entries.len() - 1 {
                assert(entries.drop_last()[j].0@ == name);
            }
        }
    }
}

/// With unique names, an entry that no later entry shadows gives the mapped
/// values of its name.
proof fn lemma_map_of_last_occurrence(entries: Seq<(String, Vec<String>)>, i: int)
    requires
        0 <= i < entries.len(),
        forall|j: int| i < j < entries.len() ==> entries[j].0@ != entries[i].0@,
    ensures
        map_of(entries).contains_key(entries[i].0@),
        map_of(entries)[entries[i].0@] == entries[i].1.deep_view(),
    decreases entries.len(),
{
    if i == entries.len() - 1 {
    } else {
        assert(forall|j: int|
            i < j < entries.drop_last().len() ==> entries.drop_last()[j].0@
                != entries.drop_last()[i].0@);
        lemma_map_of_last_occurrence(entries.drop_last(), i);
    }
}

/// With unique names, removing the entry named `k` removes `k` from the
/// mapping and changes nothing else.
proof fn lemma_map_of_remove(entries: Seq<(String, Vec<String>)>, i: int)
    requires
        0 <= i < entries.len(),
        forall|p: int, q: int| 0 <= p < q < entries.len() ==> entries[p].0@ != entries[q].0@,
    ensures
        map_of(entries.remove(i)) == map_of(entries).remove(entries[i].0@),
    decreases entries.len(),
{
    let k = entries[i].0@;
    if i == entries.len() - 1 {
        assert(entries.remove(i) =~= entries.drop_last());
        lemma_map_of_contains(entries.drop_last(), k);
        assert(forall|j: int| 0 <= j < entries.drop_last().len() ==> entries[j].0@ != k);
        assert(map_of(entries.drop_last()) =~= map_of(entries).remove(k));
    } else {
        assert(entries.remove(i).drop_last() =~= entries.drop_last().remove(i));
        assert(entries.remove(i).last() == entries.last());
        lemma_map_of_remove(entries.drop_last(), i);
        assert(map_of(entries.remove(i)) =~= map_of(entries).remove(k));
    }
}

/// With unique names, the mapping has exactly one name per entry.
proof fn lemma_map_of_dom_len(entries: Seq<(String, Vec<String>)>)
    requires
        forall|p: int, q: int| 0 <= p < q < entries.len() ==> entries[p].0@ != entries[q].0@,
    ensures
        map_of(entries).dom().finite(),
        map_of(entries).dom().len() == entries.len(),
    decreases entries.len(),
{
    if entries.len() > 0 {
        lemma_map_of_dom_len(entries.drop_last());
        lemma_map_of_contains(entries.drop_last(), entries.last().0@);
        assert(!map_of(entries.drop_last()).contains_key(entries.last().0@));
        assert(map_of(entries).dom() =~= map_of(entries.drop_last()).dom().insert(
            entries.last().0@,
        ));
    } else {
        assert(map_of(entries).dom() =~= Set::<Seq<char>>::empty());
    }
}

/// The structured form of one command-line invocation: the program name, the
/// text piped in through standard input if it was redirected, the positional
/// arguments if any were found, and the named parameters if any were found.
/// The optional fields are never present as empty containers: emptiness is
/// absence.
pub struct Prompt {
    pub program_name: String,
    pub content_piped: Option<String>,
    pub arguments: Option<Vec<String>>,
    pub parameters: Option<Parameters>,
}

impl Prompt {
    /// The optional fields hold only non-empty containers, and the parameter
    /// mapping keeps its names unique.
    pub open spec fn wf(self) -> bool {
        &&& match self.arguments {
            Some(arguments) => arguments@.len() > 0,
            None => true,
        }
        &&& match self.parameters {
            Some(parameters) => parameters.wf() && parameters@ != Map::<
                Seq<char>,
                Seq<Seq<char>>,
            >::empty(),
            None => true,
        }
    }
}

} // verus!
