//! Finding a name in a list of names.

use vstd::prelude::*;

verus! {

/// The texts of a list of names.
pub open spec fn name_views(names: Seq<String>) -> Seq<Seq<char>> {
    Seq::new(names.len(), |i: int| names[i]@)
}

/// The place of the last occurrence of `name` in `names`.
pub open spec fn last_index(names: Seq<Seq<char>>, name: Seq<char>) -> Option<int>
    decreases names.len(),
{
    if names.len() == 0 {
        None
    } else if names.last() == name {
        Some(names.len() - 1)
    } else {
        last_index(names.drop_last(), name)
    }
}

/// No name occurs twice.
pub open spec fn distinct(names: Seq<Seq<char>>) -> bool {
    forall|i: int, j: int| 0 <= i < j < names.len() ==> names[i] != names[j]
}

/// What `last_index` finds is the last place at which the name stands, and
/// it finds nothing only where the name stands nowhere.
pub proof fn lemma_last_index(names: Seq<Seq<char>>, name: Seq<char>)
    ensures
        match last_index(names, name) {
            Some(k) => 0 <= k < names.len() && names[k] == name && forall|j: int|
                k < j < names.len() ==> names[j] != name,
            None => forall|j: int| 0 <= j < names.len() ==> names[j] != name,
        },
    decreases names.len(),
{
    if names.len() > 0 && names.last() != name {
        let shorter = names.drop_last();
        lemma_last_index(shorter, name);
        assert forall|j: int| 0 <= j < shorter.len() implies shorter[j] == names[j] by {}
        match last_index(shorter, name) {
            Some(k) => {
                assert(shorter[k] == names[k]);
                assert forall|j: int| k < j < names.len() implies names[j] != name by {
                    if j < shorter.len() {
                        assert(shorter[j] == names[j]);
                    }
                }
            },
            None => {
                assert forall|j: int| 0 <= j < names.len() implies names[j] != name by {
                    if j < shorter.len() {
                        assert(shorter[j] == names[j]);
                    }
                }
            },
        }
    }
}

/// The place of the last occurrence of `name` in `names`.
pub fn find_last(names: &Vec<String>, name: &String) -> (r: Option<usize>)
    ensures
        match r {
            Some(k) => last_index(name_views(names@), name@) == Some(k as int),
            None => last_index(name_views(names@), name@) is None,
        },
{
    let ghost all = name_views(names@);
    let mut i: usize = names.len();
    proof {
        assert(all.take(i as int) =~= all);
    }
    while i > 0
        invariant
            i <= names@.len(),
            all == name_views(names@),
            last_index(all, name@) == last_index(all.take(i as int), name@),
        decreases i,
    {
        proof {
            assert(all.take(i as int).drop_last() =~= all.take(i - 1));
        }
        if names[i - 1] == *name {
            return Some(i - 1);
        }
        i = i - 1;
    }
    proof {
        assert(all.take(0).len() == 0);
    }
    None
}

} // verus!
