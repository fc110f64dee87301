//! The registry of builtins: named constants and named native operations.

use crate::names::{distinct, last_index, lemma_last_index, name_views};
use crate::values::Value;
use vstd::prelude::*;

verus! {

/// What a name is registered as.
pub enum BuiltinValue<B> {
    /// A value that is known before the program runs.
    Constant(Value),
    /// A native operation.
    Builtin(B),
}

/// Where a registered name is found.
#[derive(Clone, Copy, Debug, PartialEq, Eq)]
pub enum BuiltinId {
    /// In the constant table, at this index.
    Constant(usize),
    /// In the builtin table, at this index.
    Builtin(usize),
}

/// A name was registered twice.
#[derive(Debug, PartialEq, Eq)]
pub struct NameCollision {
    /// The name, as it stands at its second registration.
    pub name: String,
}

/// The tables that a list of registrations gives: the constants and the
/// builtins, each with its names beside it, and for every name its place.
pub struct BuiltinMaps<B> {
    name_id_map: Vec<(String, BuiltinId)>,
    builtin_table: Vec<B>,
    constant_table: Vec<Value>,
    builtin_name_table: Vec<String>,
    constant_name_table: Vec<String>,
}

/// The names of a list of registrations, in order.
pub open spec fn entry_names<B>(entries: Seq<(String, BuiltinValue<B>)>) -> Seq<Seq<char>> {
    Seq::new(entries.len(), |i: int| entries[i].0@)
}

/// The constants among the registrations, in order.
pub open spec fn constants_in<B>(entries: Seq<(String, BuiltinValue<B>)>) -> Seq<Value>
    decreases entries.len(),
{
    if entries.len() == 0 {
        Seq::empty()
    } else {
        match entries.last().1 {
            BuiltinValue::Constant(v) => constants_in(entries.drop_last()).push(v),
            BuiltinValue::Builtin(_) => constants_in(entries.drop_last()),
        }
    }
}

/// The names of the constants among the registrations, in order.
pub open spec fn constant_names_in<B>(entries: Seq<(String, BuiltinValue<B>)>) -> Seq<Seq<char>>
    decreases entries.len(),
{
    if entries.len() == 0 {
        Seq::empty()
    } else {
        match entries.last().1 {
            BuiltinValue::Constant(_) => constant_names_in(entries.drop_last()).push(
                entries.last().0@,
            ),
            BuiltinValue::Builtin(_) => constant_names_in(entries.drop_last()),
        }
    }
}

/// The native operations among the registrations, in order.
pub open spec fn builtins_in<B>(entries: Seq<(String, BuiltinValue<B>)>) -> Seq<B>
    decreases entries.len(),
{
    if entries.len() == 0 {
        Seq::empty()
    } else {
        match entries.last().1 {
            BuiltinValue::Constant(_) => builtins_in(entries.drop_last()),
            BuiltinValue::Builtin(b) => builtins_in(entries.drop_last()).push(b),
        }
    }
}

/// The names of the native operations among the registrations, in order.
pub open spec fn builtin_names_in<B>(entries: Seq<(String, BuiltinValue<B>)>) -> Seq<Seq<char>>
    decreases entries.len(),
{
    if entries.len() == 0 {
        Seq::empty()
    } else {
        match entries.last().1 {
            BuiltinValue::Constant(_) => builtin_names_in(entries.drop_last()),
            BuiltinValue::Builtin(_) => builtin_names_in(entries.drop_last()).push(
                entries.last().0@,
            ),
        }
    }
}

/// The place that the registration at `k` gets: the next free index of the
/// table of its kind.
pub open spec fn id_at<B>(entries: Seq<(String, BuiltinValue<B>)>, k: int) -> BuiltinId {
    match entries[k].1 {
        BuiltinValue::Constant(_) => BuiltinId::Constant(
            constants_in(entries.take(k)).len() as usize,
        ),
        BuiltinValue::Builtin(_) => BuiltinId::Builtin(builtins_in(entries.take(k)).len() as usize),
    }
}

/// The places of all the registrations, in order.
pub open spec fn ids_in<B>(entries: Seq<(String, BuiltinValue<B>)>) -> Seq<BuiltinId> {
    Seq::new(entries.len(), |k: int| id_at(entries, k))
}

/// The name at `k` is the first that was registered before.
pub open spec fn first_collision(names: Seq<Seq<char>>, k: int) -> bool {
    &&& 0 <= k < names.len()
    &&& distinct(names.take(k))
    &&& exists|i: int| 0 <= i < k && names[i] == names[k]
}

impl<B> BuiltinMaps<B> {
    /// The registered names, in the order of registration.
    pub closed spec fn names(&self) -> Seq<Seq<char>> {
        Seq::new(self.name_id_map@.len(), |i: int| self.name_id_map@[i].0@)
    }

    /// The place of each registered name, in the order of registration.
    pub closed spec fn ids(&self) -> Seq<BuiltinId> {
        Seq::new(self.name_id_map@.len(), |i: int| self.name_id_map@[i].1)
    }

    /// The constant table.
    pub closed spec fn constants(&self) -> Seq<Value> {
        self.constant_table@
    }

    /// The name of each constant of the constant table.
    pub closed spec fn constant_names(&self) -> Seq<Seq<char>> {
        name_views(self.constant_name_table@)
    }

    /// The builtin table.
    pub closed spec fn builtins(&self) -> Seq<B> {
        self.builtin_table@
    }

    /// The name of each builtin of the builtin table.
    pub closed spec fn builtin_names(&self) -> Seq<Seq<char>> {
        name_views(self.builtin_name_table@)
    }

    /// No name is registered twice, each table is as long as its list of
    /// names, and each name's place lies in its table, under that name.
    pub open spec fn well_formed(&self) -> bool {
        &&& distinct(self.names())
        &&& self.ids().len() == self.names().len()
        &&& self.constant_names().len() == self.constants().len()
        &&& self.builtin_names().len() == self.builtins().len()
        &&& forall|k: int|
            0 <= k < self.names().len() ==> match #[trigger] self.ids()[k] {
                BuiltinId::Constant(i) => i < self.constants().len() && self.constant_names()[i as int]
                    == self.names()[k],
                BuiltinId::Builtin(i) => i < self.builtins().len() && self.builtin_names()[i as int]
                    == self.names()[k],
            }
    }

    /// The place that `name` is registered at.
    pub open spec fn lookup_spec(&self, name: Seq<char>) -> Option<BuiltinId> {
        match last_index(self.names(), name) {
            Some(k) => Some(self.ids()[k]),
            None => None,
        }
    }

    /// Every registered name has its place.
    pub proof fn lemma_names_have_ids(&self)
        ensures
            self.names().len() == self.ids().len(),
    {
    }

    /// The place that `name` is registered at, if it is registered.
    pub fn lookup(&self, name: &String) -> (r: Option<BuiltinId>)
        ensures
            r == self.lookup_spec(name@),
    {
        let mut i: usize = self.name_id_map.len();
        let ghost all = self.names();
        proof {
            assert(all.take(i as int) =~= all);
        }
        while i > 0
            invariant
                i <= self.name_id_map@.len(),
                all == self.names(),
                last_index(all, name@) == last_index(all.take(i as int), name@),
            decreases i,
        {
            proof {
                assert(all.take(i as int).drop_last() =~= all.take(i - 1));
            }
            if self.name_id_map[i - 1].0 == *name {
                return Some(self.name_id_map[i - 1].1);
            }
            i = i - 1;
        }
        proof {
            assert(all.take(0).len() == 0);
        }
        None
    }

    /// The constant table.
    pub fn constant_table(&self) -> (r: &Vec<Value>)
        ensures
            r@ == self.constants(),
    {
        &self.constant_table
    }

    /// The name of each constant of the constant table.
    pub fn constant_name_table(&self) -> (r: &Vec<String>)
        ensures
            name_views(r@) == self.constant_names(),
    {
        &self.constant_name_table
    }

    /// The name of each builtin of the builtin table.
    pub fn builtin_name_table(&self) -> (r: &Vec<String>)
        ensures
            name_views(r@) == self.builtin_names(),
    {
        &self.builtin_name_table
    }

    /// How many builtins the builtin table holds.
    pub fn builtin_count(&self) -> (r: usize)
        ensures
            r == self.builtins().len(),
    {
        self.builtin_table.len()
    }

    /// Takes the registry apart: the builtin table and the constant table.
    pub fn into_tables(self) -> (r: (Vec<B>, Vec<Value>))
        ensures
            r.0@ == self.builtins(),
            r.1@ == self.constants(),
    {
        (self.builtin_table, self.constant_table)
    }
}

/// Builds the tables from a list of registrations. Each constant and each
/// builtin gets the next free index of its table, in the order of the list.
/// A name that is registered twice is refused at its second registration.
pub fn generate_builtin_map<B>(values: Vec<(String, BuiltinValue<B>)>) -> (r: Result<
    BuiltinMaps<B>,
    NameCollision,
>)
    ensures
        match r {
            Ok(maps) => {
                &&& distinct(entry_names(values@))
                &&& maps.well_formed()
                &&& maps.names() == entry_names(values@)
                &&& maps.ids() == ids_in(values@)
                &&& maps.constants() == constants_in(values@)
                &&& maps.constant_names() == constant_names_in(values@)
                &&& maps.builtins() == builtins_in(values@)
                &&& maps.builtin_names() == builtin_names_in(values@)
            },
            Err(collision) => exists|k: int|
                #[trigger] first_collision(entry_names(values@), k) && collision.name@
                    == entry_names(values@)[k],
        },
{
    let ghost entries = values@;
    let ghost all = entry_names(entries);
    let mut maps = BuiltinMaps {
        name_id_map: Vec::new(),
        builtin_table: Vec::new(),
        constant_table: Vec::new(),
        builtin_name_table: Vec::new(),
        constant_name_table: Vec::new(),
    };
    proof {
        assert(entries.len() == values.len());
        assert(entries.take(entries.len() as int) =~= entries);
    }
    let mut pending = values;
    let mut rest: Vec<(String, BuiltinValue<B>)> = Vec::new();
    // Turn the list round, so that the registrations can be taken off its end
    // in their order.
    while pending.len() > 0
        invariant
            pending@.len() + rest@.len() == entries.len(),
            pending@ == entries.take(pending@.len() as int),
            forall|i: int| 0 <= i < rest@.len() ==> rest@[i] == entries[entries.len() - 1 - i],
        decreases pending@.len(),
    {
        let entry = pending.pop().unwrap();
        rest.push(entry);
        proof {
            assert(pending@ =~= entries.take(pending@.len() as int));
        }
    }
    let mut done: usize = 0;
    proof {
        assert(all.take(0) =~= Seq::<Seq<char>>::empty());
        assert(entries.take(0) =~= Seq::<(String, BuiltinValue<B>)>::empty());
        assert(maps.names() =~= all.take(0));
        assert(maps.ids() =~= ids_in(entries).take(0));
        assert(maps.constants() =~= constants_in(entries.take(0)));
        assert(maps.constant_names() =~= constant_names_in(entries.take(0)));
        assert(maps.builtins() =~= builtins_in(entries.take(0)));
        assert(maps.builtin_names() =~= builtin_names_in(entries.take(0)));
    }
    while rest.len() > 0
        invariant
            entries == values@,
            entries.len() <= usize::MAX,
            all == entry_names(entries),
            done + rest@.len() == entries.len(),
            forall|i: int| 0 <= i < rest@.len() ==> rest@[i] == entries[entries.len() - 1 - i],
            distinct(all.take(done as int)),
            maps.well_formed(),
            maps.names() == all.take(done as int),
            maps.ids() == ids_in(entries).take(done as int),
            maps.constants() == constants_in(entries.take(done as int)),
            maps.constant_names() == constant_names_in(entries.take(done as int)),
            maps.builtins() == builtins_in(entries.take(done as int)),
            maps.builtin_names() == builtin_names_in(entries.take(done as int)),
        decreases rest@.len(),
    {
        let (name, value) = rest.pop().unwrap();
        let ghost k = done as int;
        proof {
            assert(entries[k] == (name, value));
            assert(entries.take(k + 1).drop_last() =~= entries.take(k));
            assert(entries.take(k + 1).last() == entries[k]);
            assert(all[k] == name@);
            lemma_last_index(all.take(k), name@);
        }
        if maps.lookup(&name).is_some() {
            proof {
                let i = last_index(all.take(k), name@)->Some_0;
                assert(all.take(k)[i] == all[i]);
                assert(first_collision(all, k));
            }
            return Err(NameCollision { name });
        }
        let ghost old_maps = maps;
        let key = name.clone();
        let listed = name.clone();
        match value {
            BuiltinValue::Constant(val) => {
                let id = BuiltinId::Constant(maps.constant_table.len());
                maps.name_id_map.push((key, id));
                maps.constant_table.push(val);
                maps.constant_name_table.push(listed);
                proof {
                    assert(id == id_at(entries, k));
                    assert(maps.constant_names() =~= old_maps.constant_names().push(name@));
                    assert(maps.builtin_names() =~= old_maps.builtin_names());
                }
            },
            BuiltinValue::Builtin(func) => {
                let id = BuiltinId::Builtin(maps.builtin_table.len());
                maps.name_id_map.push((key, id));
                maps.builtin_table.push(func);
                maps.builtin_name_table.push(listed);
                proof {
                    assert(id == id_at(entries, k));
                    assert(maps.builtin_names() =~= old_maps.builtin_names().push(name@));
                    assert(maps.constant_names() =~= old_maps.constant_names());
                }
            },
        }
        proof {
            assert(maps.names() =~= old_maps.names().push(name@));
            assert(maps.names() =~= all.take(k + 1));
            assert(maps.ids() =~= old_maps.ids().push(id_at(entries, k)));
            assert(maps.ids() =~= ids_in(entries).take(k + 1));
            assert(distinct(all.take(k + 1))) by {
                let longer = all.take(k + 1);
                let shorter = all.take(k);
                assert forall|i: int, j: int| 0 <= i < j < longer.len() implies #[trigger] longer[i]
                    != #[trigger] longer[j] by {
                    if j < k {
                        assert(shorter[i] != shorter[j]);
                    } else {
                        assert(shorter[i] == all[i]);
                    }
                }
            }
            assert(maps.well_formed()) by {
                assert forall|j: int| 0 <= j < maps.names().len() implies match #[trigger] maps.ids()[j] {
                    BuiltinId::Constant(i) => i < maps.constants().len()
                        && maps.constant_names()[i as int] == maps.names()[j],
                    BuiltinId::Builtin(i) => i < maps.builtins().len() && maps.builtin_names()[i as int]
                        == maps.names()[j],
                } by {
                    if j < k {
                        assert(maps.ids()[j] == old_maps.ids()[j]);
                        assert(maps.names()[j] == old_maps.names()[j]);
                    }
                }
            }
        }
        done = done + 1;
    }
    proof {
        assert(entries.take(done as int) =~= entries);
        assert(all.take(done as int) =~= all);
        assert(ids_in(entries).take(done as int) =~= ids_in(entries));
    }
    Ok(maps)
}

} // verus!
