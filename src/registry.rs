use vstd::prelude::*;
use crate::model::{ModuleInfo, names_of, position_of};

verus! {

/// The records that survive registration: each name keeps its first record.
pub open spec fn first_seen(ms: Seq<ModuleInfo>) -> Seq<ModuleInfo>
    decreases ms.len(),
{
    if ms.len() == 0 {
        seq![]
    } else {
        let kept = first_seen(ms.drop_last());
        if names_of(kept).contains(ms.last().name@) {
            kept
        } else {
            kept.push(ms.last())
        }
    }
}

/// The records whose name was already taken by an earlier one, in order.
pub open spec fn collisions_of(ms: Seq<ModuleInfo>) -> Seq<ModuleInfo>
    decreases ms.len(),
{
    if ms.len() == 0 {
        seq![]
    } else {
        let dropped = collisions_of(ms.drop_last());
        if names_of(first_seen(ms.drop_last())).contains(ms.last().name@) {
            dropped.push(ms.last())
        } else {
            dropped
        }
    }
}

/// The surviving records never share a name.
pub proof fn lemma_first_seen_unique(ms: Seq<ModuleInfo>)
    ensures
        names_of(first_seen(ms)).no_duplicates(),
    decreases ms.len(),
{
    if ms.len() > 0 {
        lemma_first_seen_unique(ms.drop_last());
        let kept = first_seen(ms.drop_last());
        if !names_of(kept).contains(ms.last().name@) {
            assert(names_of(kept.push(ms.last())) =~= names_of(kept).push(ms.last().name@));
        }
    }
}

/// The module records of one analysis run, keyed by name, in insertion order.
pub struct ModuleRegistry {
    modules: Vec<ModuleInfo>,
    collisions: Vec<ModuleInfo>,
}

impl ModuleRegistry {
    pub closed spec fn modules_view(&self) -> Seq<ModuleInfo> {
        self.modules@
    }

    pub closed spec fn collisions_view(&self) -> Seq<ModuleInfo> {
        self.collisions@
    }

    /// Registers the records in order; a record whose name is taken is set
    /// aside as a collision.
    pub fn register(records: Vec<ModuleInfo>) -> (r: Self)
        ensures
            r.modules_view() == first_seen(records@),
            r.collisions_view() == collisions_of(records@),
            names_of(r.modules_view()).no_duplicates(),
    {
        let ghost orig = records@;
        let total: usize = records.len();
        let mut rest = records;
        let mut modules: Vec<ModuleInfo> = Vec::new();
        let mut collisions: Vec<ModuleInfo> = Vec::new();
        let mut i: usize = 0;
        assert(orig.skip(0) =~= orig);
        while rest.len() > 0
            invariant
                i <= orig.len(),
                orig.len() == total,
                rest@ == orig.skip(i as int),
                rest@.len() == orig.len() - i,
                modules@ == first_seen(orig.take(i as int)),
                collisions@ == collisions_of(orig.take(i as int)),
            decreases rest@.len(),
        {
            let m = rest.remove(0);
            assert(orig.take(i + 1).drop_last() =~= orig.take(i as int));
            assert(orig.skip(i as int + 1) =~= orig.skip(i as int).remove(0));
            assert(m == orig[i as int]);
            assert(orig.take(i + 1).last() == orig[i as int]);
            match position_of(&modules, &m.name) {
                Some(k) => {
                    assert(names_of(modules@)[k as int] == m.name@);
                    collisions.push(m);
                },
                None => {
                    modules.push(m);
                },
            }
            i = i + 1;
        }
        assert(orig.take(i as int) =~= orig);
        proof {
            lemma_first_seen_unique(orig);
        }
        ModuleRegistry { modules, collisions }
    }

    /// The registered modules, in insertion order.
    pub fn all(&self) -> (r: &Vec<ModuleInfo>)
        ensures
            r@ == self.modules_view(),
    {
        &self.modules
    }

    /// The records set aside because their name was taken.
    pub fn collisions(&self) -> (r: &Vec<ModuleInfo>)
        ensures
            r@ == self.collisions_view(),
    {
        &self.collisions
    }

    /// The module called `name`, if one is registered.
    pub fn lookup(&self, name: &String) -> (r: Option<&ModuleInfo>)
        ensures
            match r {
                Some(m) => names_of(self.modules_view()).contains(name@) && m.name@ == name@
                    && self.modules_view().contains(*m),
                None => !names_of(self.modules_view()).contains(name@),
            },
    {
        match position_of(&self.modules, name) {
            Some(k) => {
                proof {
                    assert(names_of(self.modules@)[k as int] == name@);
                }
                Some(&self.modules[k])
            },
            None => None,
        }
    }

    /// Hands out the registered modules and the collisions.
    pub fn into_parts(self) -> (r: (Vec<ModuleInfo>, Vec<ModuleInfo>))
        ensures
            r.0@ == self.modules_view(),
            r.1@ == self.collisions_view(),
    {
        (self.modules, self.collisions)
    }
}

} // verus!
