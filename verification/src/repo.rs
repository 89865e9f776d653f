//! The document repository: parsed documents from an ordered list of
//! search roots.
//!
//! The surrounding program reads each root directory and hands over the
//! documents that parsed, keyed by their logical names; a file that is
//! absent or does not parse in some root simply has no entry for that
//! root.  A lookup demands that exactly one root holds the name: zero
//! is a not-found failure and two or more an ambiguity failure, so one
//! root can never silently shadow another's schema.

use crate::schema::interface::DataTypes;
use crate::schema::interface::Interface;
use crate::text::str_eq;
use crate::Error;
use vstd::prelude::*;

verus! {

/// Whether an association table holds `name`.
pub open spec fn assoc_has<T>(entries: Seq<(String, T)>, name: Seq<char>) -> bool {
    exists|i: int| 0 <= i < entries.len() && (#[trigger] entries[i].0@) == name
}

/// The first value under `name` in an association table.
pub open spec fn assoc_first<T>(entries: Seq<(String, T)>, name: Seq<char>) -> T
    decreases entries.len(),
{
    if entries.len() == 0 {
        arbitrary()
    } else if entries[0].0@ == name {
        entries[0].1
    } else {
        assoc_first(entries.drop_first(), name)
    }
}

pub proof fn lemma_assoc_first_at<T>(entries: Seq<(String, T)>, name: Seq<char>, i: int)
    requires
        0 <= i < entries.len(),
        entries[i].0@ == name,
        forall|j: int| 0 <= j < i ==> (#[trigger] entries[j].0@) != name,
    ensures
        assoc_first(entries, name) == entries[i].1,
    decreases i,
{
    if i > 0 {
        lemma_assoc_first_at(entries.drop_first(), name, i - 1);
    }
}

/// Finds the first entry under `name`, if any.
pub fn assoc_get<'a, T>(entries: &'a Vec<(String, T)>, name: &str) -> (res: Option<&'a T>)
    ensures
        match res {
            Some(x) => assoc_has(entries@, name@) && *x == assoc_first(entries@, name@),
            None => !assoc_has(entries@, name@),
        },
{
    let mut i: usize = 0;
    while i < entries.len()
        invariant
            0 <= i <= entries@.len(),
            forall|j: int| 0 <= j < i ==> (#[trigger] entries@[j].0@) != name@,
        decreases entries@.len() - i,
    {
        if str_eq(entries[i].0.as_str(), name) {
            proof {
                lemma_assoc_first_at(entries@, name@, i as int);
            }
            return Some(&entries[i].1);
        }
        i = i + 1;
    }
    None
}

/// The documents of one search root that parsed, by logical name.
#[derive(Debug, PartialEq)]
pub struct SearchRoot {
    /// Interface documents, from the root's interface directory.
    pub interfaces: Vec<(String, Interface)>,
    /// Data-type documents, from the root's type directory; a name may
    /// hold slashes, standing for a nested path.
    pub data_types: Vec<(String, DataTypes)>,
}

/// The interface tables of the roots, in root order.
pub open spec fn interface_tables(roots: Seq<SearchRoot>) -> Seq<Seq<(String, Interface)>> {
    roots.map_values(|r: SearchRoot| r.interfaces@)
}

/// The data-type tables of the roots, in root order.
pub open spec fn data_type_tables(roots: Seq<SearchRoot>) -> Seq<Seq<(String, DataTypes)>> {
    roots.map_values(|r: SearchRoot| r.data_types@)
}

/// In how many of the tables `name` appears.
pub open spec fn table_count<T>(tables: Seq<Seq<(String, T)>>, name: Seq<char>) -> nat
    decreases tables.len(),
{
    if tables.len() == 0 {
        0
    } else {
        table_count(tables.drop_last(), name) + (if assoc_has(tables.last(), name) {
            1nat
        } else {
            0nat
        })
    }
}

/// In how many roots the interface `name` appears.
pub open spec fn interface_count(roots: Seq<SearchRoot>, name: Seq<char>) -> nat {
    table_count(interface_tables(roots), name)
}

/// In how many roots the data-type document `name` appears.
pub open spec fn data_types_count(roots: Seq<SearchRoot>, name: Seq<char>) -> nat {
    table_count(data_type_tables(roots), name)
}

/// The interface document of the first root that holds `name`.
pub open spec fn repo_interface(roots: Seq<SearchRoot>, name: Seq<char>) -> Interface
    decreases roots.len(),
{
    if roots.len() == 0 {
        arbitrary()
    } else if assoc_has(roots[0].interfaces@, name) {
        assoc_first(roots[0].interfaces@, name)
    } else {
        repo_interface(roots.drop_first(), name)
    }
}

/// The data-type document of the first root that holds `name`.
pub open spec fn repo_data_types(roots: Seq<SearchRoot>, name: Seq<char>) -> DataTypes
    decreases roots.len(),
{
    if roots.len() == 0 {
        arbitrary()
    } else if assoc_has(roots[0].data_types@, name) {
        assoc_first(roots[0].data_types@, name)
    } else {
        repo_data_types(roots.drop_first(), name)
    }
}

proof fn lemma_repo_interface_at(roots: Seq<SearchRoot>, name: Seq<char>, w: int)
    requires
        0 <= w < roots.len(),
        assoc_has(roots[w].interfaces@, name),
        forall|k: int| 0 <= k < w ==> !assoc_has((#[trigger] roots[k]).interfaces@, name),
    ensures
        repo_interface(roots, name) == assoc_first(roots[w].interfaces@, name),
    decreases w,
{
    if w > 0 {
        lemma_repo_interface_at(roots.drop_first(), name, w - 1);
    }
}

proof fn lemma_repo_data_types_at(roots: Seq<SearchRoot>, name: Seq<char>, w: int)
    requires
        0 <= w < roots.len(),
        assoc_has(roots[w].data_types@, name),
        forall|k: int| 0 <= k < w ==> !assoc_has((#[trigger] roots[k]).data_types@, name),
    ensures
        repo_data_types(roots, name) == assoc_first(roots[w].data_types@, name),
    decreases w,
{
    if w > 0 {
        lemma_repo_data_types_at(roots.drop_first(), name, w - 1);
    }
}

/// The repository of all documents reachable in this run.
#[derive(Debug, PartialEq)]
pub struct YamlRepo {
    /// The search roots, in the order they are searched.
    pub roots: Vec<SearchRoot>,
}

impl YamlRepo {
    /// A repository over the given search roots.
    pub fn new(roots: Vec<SearchRoot>) -> (r: Self)
        ensures
            r.roots == roots,
    {
        YamlRepo { roots }
    }

    /// The interface document under `name`.  Succeeds if and only if
    /// exactly one root holds the name, and then returns that root's
    /// document; zero roots are a not-found failure and several an
    /// ambiguity failure, each naming the document.
    pub fn get_interface<'a>(&'a self, name: &str) -> (res: Result<&'a Interface, Error>)
        ensures
            match res {
                Ok(i) => {
                    &&& table_count(interface_tables(self.roots@), name@) == 1
                    &&& *i == repo_interface(self.roots@, name@)
                    &&& forall|k: int|
                        0 <= k < self.roots@.len() && assoc_has(
                            (#[trigger] self.roots@[k]).interfaces@,
                            name@,
                        ) ==> *i == assoc_first(self.roots@[k].interfaces@, name@)
                },
                Err(e) => {
                    &&& e matches Error::NotFound(m) ==> (table_count(
                        interface_tables(self.roots@),
                        name@,
                    ) == 0 && m@ == name@)
                    &&& e matches Error::Ambiguous(m) ==> (table_count(
                        interface_tables(self.roots@),
                        name@,
                    ) >= 2 && m@ == name@)
                    &&& (e is NotFound || e is Ambiguous)
                },
            },
    {
        let ghost tables = interface_tables(self.roots@);
        let mut i: usize = 0;
        let mut found: Option<usize> = None;
        while i < self.roots.len()
            invariant
                tables == interface_tables(self.roots@),
                tables.len() == self.roots@.len(),
                0 <= i <= self.roots@.len(),
                match found {
                    Some(w) => {
                        &&& 0 <= w < i
                        &&& assoc_has(self.roots@[w as int].interfaces@, name@)
                        &&& table_count(tables.take(i as int), name@) == 1
                        &&& forall|k: int|
                            0 <= k < i && k != w ==> !assoc_has(
                                (#[trigger] self.roots@[k]).interfaces@,
                                name@,
                            )
                    },
                    None => {
                        &&& table_count(tables.take(i as int), name@) == 0
                        &&& forall|k: int|
                            0 <= k < i ==> !assoc_has(
                                (#[trigger] self.roots@[k]).interfaces@,
                                name@,
                            )
                    },
                },
            decreases self.roots@.len() - i,
        {
            proof {
                assert(tables.take(i + 1 as int).drop_last() =~= tables.take(i as int));
                assert(tables.take(i + 1 as int).last() == self.roots@[i as int].interfaces@);
            }
            let has = match assoc_get(&self.roots[i].interfaces, name) {
                Some(_) => true,
                None => false,
            };
            if has {
                if found.is_some() {
                    proof {
                        let w = found->0 as int;
                        assert(table_count(tables.take(i + 1 as int), name@) == 2);
                        lemma_table_count_prefix_le(tables, i + 1 as int, name@);
                    }
                    return Err(Error::Ambiguous(name.to_owned()));
                }
                found = Some(i);
            }
            i = i + 1;
        }
        proof {
            assert(tables.take(self.roots@.len() as int) =~= tables);
        }
        match found {
            None => Err(Error::NotFound(name.to_owned())),
            Some(w) => {
                proof {
                    lemma_repo_interface_at(self.roots@, name@, w as int);
                }
                match assoc_get(&self.roots[w].interfaces, name) {
                    Some(x) => Ok(x),
                    None => unreached(),
                }
            },
        }
    }

    /// The data-type document under `name`, with the same contract as
    /// the interface lookup.
    pub fn get_data_types<'a>(&'a self, name: &str) -> (res: Result<&'a DataTypes, Error>)
        ensures
            match res {
                Ok(d) => {
                    &&& table_count(data_type_tables(self.roots@), name@) == 1
                    &&& *d == repo_data_types(self.roots@, name@)
                    &&& forall|k: int|
                        0 <= k < self.roots@.len() && assoc_has(
                            (#[trigger] self.roots@[k]).data_types@,
                            name@,
                        ) ==> *d == assoc_first(self.roots@[k].data_types@, name@)
                },
                Err(e) => {
                    &&& e matches Error::NotFound(m) ==> (table_count(
                        data_type_tables(self.roots@),
                        name@,
                    ) == 0 && m@ == name@)
                    &&& e matches Error::Ambiguous(m) ==> (table_count(
                        data_type_tables(self.roots@),
                        name@,
                    ) >= 2 && m@ == name@)
                    &&& (e is NotFound || e is Ambiguous)
                },
            },
    {
        let ghost tables = data_type_tables(self.roots@);
        let mut i: usize = 0;
        let mut found: Option<usize> = None;
        while i < self.roots.len()
            invariant
                tables == data_type_tables(self.roots@),
                tables.len() == self.roots@.len(),
                0 <= i <= self.roots@.len(),
                match found {
                    Some(w) => {
                        &&& 0 <= w < i
                        &&& assoc_has(self.roots@[w as int].data_types@, name@)
                        &&& table_count(tables.take(i as int), name@) == 1
                        &&& forall|k: int|
                            0 <= k < i && k != w ==> !assoc_has(
                                (#[trigger] self.roots@[k]).data_types@,
                                name@,
                            )
                    },
                    None => {
                        &&& table_count(tables.take(i as int), name@) == 0
                        &&& forall|k: int|
                            0 <= k < i ==> !assoc_has(
                                (#[trigger] self.roots@[k]).data_types@,
                                name@,
                            )
                    },
                },
            decreases self.roots@.len() - i,
        {
            proof {
                assert(tables.take(i + 1 as int).drop_last() =~= tables.take(i as int));
                assert(tables.take(i + 1 as int).last() == self.roots@[i as int].data_types@);
            }
            let has = match assoc_get(&self.roots[i].data_types, name) {
                Some(_) => true,
                None => false,
            };
            if has {
                if found.is_some() {
                    proof {
                        assert(table_count(tables.take(i + 1 as int), name@) == 2);
                        lemma_table_count_prefix_le(tables, i + 1 as int, name@);
                    }
                    return Err(Error::Ambiguous(name.to_owned()));
                }
                found = Some(i);
            }
            i = i + 1;
        }
        proof {
            assert(tables.take(self.roots@.len() as int) =~= tables);
        }
        match found {
            None => Err(Error::NotFound(name.to_owned())),
            Some(w) => {
                proof {
                    lemma_repo_data_types_at(self.roots@, name@, w as int);
                }
                match assoc_get(&self.roots[w].data_types, name) {
                    Some(x) => Ok(x),
                    None => unreached(),
                }
            },
        }
    }
}

/// A prefix never counts more tables than the whole.
proof fn lemma_table_count_prefix_le<T>(tables: Seq<Seq<(String, T)>>, i: int, name: Seq<char>)
    requires
        0 <= i <= tables.len(),
    ensures
        table_count(tables.take(i), name) <= table_count(tables, name),
    decreases tables.len() - i,
{
    if i < tables.len() {
        lemma_table_count_prefix_le(tables, i + 1, name);
        assert(tables.take(i + 1).drop_last() =~= tables.take(i));
        assert(table_count(tables.take(i), name) <= table_count(tables.take(i + 1), name));
    } else {
        assert(tables.take(i) =~= tables);
    }
}

} // verus!
