//! The ident map: a bidirectional mapping between human-readable attribute
//! names and the entities that represent them. A pure value type: `add`
//! returns an extended map, overwriting an existing binding for the same
//! name (last writer wins).

use vstd::prelude::*;

use crate::value::{Entity, str_eq_exec};

verus! {

/// Name/entity bindings, at most one binding per name.
#[derive(Debug)]
pub struct IdentMap {
    pairs: Vec<(String, Entity)>,
}

/// First binding for `name` in an association sequence, if any.
pub open spec fn assoc_entity(s: Seq<(Seq<char>, int)>, name: Seq<char>) -> Option<int>
    decreases s.len(),
{
    if s.len() == 0 {
        Option::None
    } else if s[0].0 == name {
        Option::Some(s[0].1)
    } else {
        assoc_entity(s.drop_first(), name)
    }
}

/// The association with the first binding for `name` replaced in place (or
/// appended when absent).
pub open spec fn assoc_set(s: Seq<(Seq<char>, int)>, name: Seq<char>, e: int) -> Seq<
    (Seq<char>, int),
>
    decreases s.len(),
{
    if s.len() == 0 {
        seq![(name, e)]
    } else if s[0].0 == name {
        seq![(name, e)] + s.drop_first()
    } else {
        seq![s[0]] + assoc_set(s.drop_first(), name, e)
    }
}

/// First name bound to `entity` in an association sequence, if any.
pub open spec fn assoc_name(s: Seq<(Seq<char>, int)>, entity: int) -> Option<Seq<char>>
    decreases s.len(),
{
    if s.len() == 0 {
        Option::None
    } else if s[0].1 == entity {
        Option::Some(s[0].0)
    } else {
        assoc_name(s.drop_first(), entity)
    }
}

impl IdentMap {
    /// The bindings, in insertion order.
    pub closed spec fn iview(&self) -> Seq<(Seq<char>, int)> {
        self.pairs@.map_values(|p: (String, Entity)| (p.0@, p.1.0 as int))
    }

    /// Each name is bound at most once.
    pub open spec fn wf(&self) -> bool {
        forall|i: int, j: int|
            0 <= i < j < self.iview().len() ==> self.iview()[i].0 != self.iview()[j].0
    }

    pub open spec fn spec_entity(&self, name: Seq<char>) -> Option<int> {
        assoc_entity(self.iview(), name)
    }

    pub open spec fn spec_name(&self, entity: int) -> Option<Seq<char>> {
        assoc_name(self.iview(), entity)
    }

    /// The empty map.
    pub fn new() -> (r: IdentMap)
        ensures
            r.wf(),
            forall|n: Seq<char>| r.spec_entity(n) == Option::None::<int>,
            forall|e: int| r.spec_name(e) == Option::None::<Seq<char>>,
    {
        let r = IdentMap { pairs: Vec::new() };
        proof {
            assert(r.iview() =~= Seq::<(Seq<char>, int)>::empty());
        }
        r
    }

    /// The entity a name is bound to.
    pub fn get_entity(&self, name: &str) -> (r: Option<Entity>)
        ensures
            match r {
                Option::Some(e) => self.spec_entity(name@) == Option::Some(e.0 as int),
                Option::None => self.spec_entity(name@) == Option::None::<int>,
            },
    {
        let n = self.pairs.len();
        let mut i: usize = 0;
        proof {
            assert(self.iview().skip(0) =~= self.iview());
        }
        while i < n
            invariant
                i <= n,
                n == self.iview().len(),
                n == self.pairs@.len(),
                assoc_entity(self.iview(), name@) == assoc_entity(
                    self.iview().skip(i as int),
                    name@,
                ),
            decreases n - i,
        {
            proof {
                assert(self.iview().skip(i as int)[0] == self.iview()[i as int]);
                assert(self.iview().skip(i as int).drop_first() =~= self.iview().skip(i + 1));
            }
            if str_eq_exec(self.pairs[i].0.as_str(), name) {
                return Option::Some(self.pairs[i].1);
            }
            i = i + 1;
        }
        Option::None
    }

    /// The first name bound to an entity.
    pub fn get_name(&self, entity: Entity) -> (r: Option<&String>)
        ensures
            match r {
                Option::Some(s) => self.spec_name(entity.0 as int) == Option::Some(s@),
                Option::None => self.spec_name(entity.0 as int) == Option::None::<Seq<char>>,
            },
    {
        let n = self.pairs.len();
        let mut i: usize = 0;
        proof {
            assert(self.iview().skip(0) =~= self.iview());
        }
        while i < n
            invariant
                i <= n,
                n == self.iview().len(),
                n == self.pairs@.len(),
                assoc_name(self.iview(), entity.0 as int) == assoc_name(
                    self.iview().skip(i as int),
                    entity.0 as int,
                ),
            decreases n - i,
        {
            proof {
                assert(self.iview().skip(i as int)[0] == self.iview()[i as int]);
                assert(self.iview().skip(i as int).drop_first() =~= self.iview().skip(i + 1));
            }
            if self.pairs[i].1.0 == entity.0 {
                return Option::Some(&self.pairs[i].0);
            }
            i = i + 1;
        }
        Option::None
    }

    /// The index of the binding for `name`, if any.
    fn find_name(&self, name: &str) -> (r: Option<usize>)
        ensures
            match r {
                Option::Some(i) => i < self.iview().len() && self.iview()[i as int].0 == name@
                    && forall|j: int| 0 <= j < i ==> self.iview()[j].0 != name@,
                Option::None => forall|j: int|
                    0 <= j < self.iview().len() ==> self.iview()[j].0 != name@,
            },
    {
        let n = self.pairs.len();
        let mut i: usize = 0;
        while i < n
            invariant
                i <= n,
                n == self.pairs@.len(),
                forall|j: int| 0 <= j < i ==> self.iview()[j].0 != name@,
            decreases n - i,
        {
            if str_eq_exec(self.pairs[i].0.as_str(), name) {
                return Option::Some(i);
            }
            i = i + 1;
        }
        Option::None
    }

    /// The map extended (or overwritten) with `name -> entity`.
    pub fn add(&self, name: String, entity: Entity) -> (r: IdentMap)
        requires
            self.wf(),
        ensures
            r.wf(),
            r.iview() == assoc_set(self.iview(), name@, entity.0 as int),
            r.spec_entity(name@) == Option::Some(entity.0 as int),
            forall|n: Seq<char>| n != name@ ==> r.spec_entity(n) == self.spec_entity(n),
            forall|i: int|
                0 <= i < r.iview().len() ==> ((#[trigger] r.iview()[i]).1 == entity.0 as int
                    || exists|j: int|
                    0 <= j < self.iview().len() && (#[trigger] self.iview()[j]).1
                        == r.iview()[i].1),
            self.spec_entity(name@) == Option::Some(entity.0 as int) ==> r.iview()
                == self.iview(),
    {
        let mut out = self.clone();
        match self.find_name(name.as_str()) {
            Option::Some(i) => {
                out.pairs.remove(i);
                out.pairs.insert(i, (name, entity));
                proof {
                    assert(out.iview() =~= self.iview().update(
                        i as int,
                        (name@, entity.0 as int),
                    ));
                    lemma_assoc_update(self.iview(), i as int, (name@, entity.0 as int));
                    assert(forall|p: int, q: int|
                        0 <= p < q < out.iview().len() ==> out.iview()[p].0 != out.iview()[q].0);
                    assert forall|p: int| 0 <= p < out.iview().len() implies ((
                    #[trigger] out.iview()[p]).1 == entity.0 as int || exists|j: int|
                        0 <= j < self.iview().len() && (#[trigger] self.iview()[j]).1
                            == out.iview()[p].1) by {
                        if p != i {
                            assert(self.iview()[p].1 == out.iview()[p].1);
                        }
                    }
                    lemma_assoc_first(self.iview(), i as int);
                    lemma_assoc_set_update(self.iview(), i as int, (name@, entity.0 as int));
                    if self.spec_entity(name@) == Option::Some(entity.0 as int) {
                        assert(self.iview()[i as int] == (name@, entity.0 as int));
                        assert(out.iview() =~= self.iview());
                    }
                }
            },
            Option::None => {
                out.pairs.push((name, entity));
                proof {
                    assert(out.iview() =~= self.iview().push((name@, entity.0 as int)));
                    lemma_assoc_push(self.iview(), (name@, entity.0 as int));
                    lemma_assoc_set_push(self.iview(), (name@, entity.0 as int));
                    assert forall|p: int| 0 <= p < out.iview().len() implies ((
                    #[trigger] out.iview()[p]).1 == entity.0 as int || exists|j: int|
                        0 <= j < self.iview().len() && (#[trigger] self.iview()[j]).1
                            == out.iview()[p].1) by {
                        if p < self.iview().len() {
                            assert(self.iview()[p].1 == out.iview()[p].1);
                        }
                    }
                    lemma_assoc_none(self.iview(), name@);
                }
            },
        }
        out
    }
}

/// Replacing the one binding of a name in place is `assoc_set`.
proof fn lemma_assoc_set_update(s: Seq<(Seq<char>, int)>, k: int, p: (Seq<char>, int))
    requires
        0 <= k < s.len(),
        s[k].0 == p.0,
        forall|j: int| 0 <= j < k ==> s[j].0 != p.0,
    ensures
        s.update(k, p) == assoc_set(s, p.0, p.1),
    decreases s.len(),
{
    let s2 = s.update(k, p);
    if k == 0 {
        assert(s2 =~= seq![p] + s.drop_first());
    } else {
        assert(forall|j: int| 0 <= j < s.drop_first().len() ==> s.drop_first()[j] == s[j + 1]);
        lemma_assoc_set_update(s.drop_first(), k - 1, p);
        assert(s.drop_first().update(k - 1, p) =~= s2.drop_first());
        assert(s2 =~= seq![s[0]] + s2.drop_first());
    }
}

/// Appending a fresh name is `assoc_set`.
proof fn lemma_assoc_set_push(s: Seq<(Seq<char>, int)>, p: (Seq<char>, int))
    requires
        forall|j: int| 0 <= j < s.len() ==> s[j].0 != p.0,
    ensures
        s.push(p) == assoc_set(s, p.0, p.1),
    decreases s.len(),
{
    if s.len() == 0 {
        assert(s.push(p) =~= seq![p]);
    } else {
        assert(forall|j: int| 0 <= j < s.drop_first().len() ==> s.drop_first()[j] == s[j + 1]);
        lemma_assoc_set_push(s.drop_first(), p);
        assert(s.push(p).drop_first() =~= s.drop_first().push(p));
        assert(s.push(p) =~= seq![s[0]] + s.push(p).drop_first());
    }
}

/// A found binding is what the lookup returns.
pub proof fn lemma_assoc_first(s: Seq<(Seq<char>, int)>, k: int)
    requires
        0 <= k < s.len(),
        forall|j: int| 0 <= j < k ==> s[j].0 != s[k].0,
    ensures
        assoc_entity(s, s[k].0) == Option::Some(s[k].1),
    decreases k,
{
    if k > 0 {
        assert(s.drop_first() =~= s.skip(1));
        assert(forall|j: int| 0 <= j < k - 1 ==> s.drop_first()[j] == s[j + 1]);
        lemma_assoc_first(s.drop_first(), k - 1);
    }
}

/// A name bound to nothing occurs nowhere.
pub proof fn lemma_assoc_none(s: Seq<(Seq<char>, int)>, name: Seq<char>)
    requires
        forall|j: int| 0 <= j < s.len() ==> s[j].0 != name,
    ensures
        assoc_entity(s, name) == Option::None::<int>,
    decreases s.len(),
{
    if s.len() > 0 {
        assert(forall|j: int| 0 <= j < s.drop_first().len() ==> s.drop_first()[j] == s[j + 1]);
        lemma_assoc_none(s.drop_first(), name);
    }
}

/// A successful lookup names some binding in the map.
pub proof fn lemma_assoc_mem(s: Seq<(Seq<char>, int)>, name: Seq<char>)
    ensures
        match assoc_entity(s, name) {
            Option::Some(e) => exists|i: int|
                0 <= i < s.len() && #[trigger] s[i] == (name, e),
            Option::None => true,
        },
    decreases s.len(),
{
    if s.len() > 0 {
        if s[0].0 == name {
            assert(s[0] == (name, s[0].1));
        } else {
            lemma_assoc_mem(s.drop_first(), name);
            if assoc_entity(s, name) is Some {
                let e = assoc_entity(s, name)->Some_0;
                let i = choose|i: int|
                    0 <= i < s.drop_first().len() && #[trigger] s.drop_first()[i] == (name, e);
                assert(s[i + 1] == (name, e));
            }
        }
    }
}

/// Overwriting the one binding of a name rebinds that name and no other.
proof fn lemma_assoc_update(s: Seq<(Seq<char>, int)>, k: int, p: (Seq<char>, int))
    requires
        0 <= k < s.len(),
        s[k].0 == p.0,
        forall|i: int, j: int| 0 <= i < j < s.len() ==> s[i].0 != s[j].0,
    ensures
        assoc_entity(s.update(k, p), p.0) == Option::Some(p.1),
        forall|n: Seq<char>| n != p.0 ==> assoc_entity(s.update(k, p), n) == assoc_entity(s, n),
    decreases s.len(),
{
    let s2 = s.update(k, p);
    if k == 0 {
        assert(s2[0] == p);
        assert(s2.drop_first() =~= s.drop_first());
        assert forall|n: Seq<char>| n != p.0 implies assoc_entity(s2, n) == assoc_entity(
            s,
            n,
        ) by {
            assert(assoc_entity(s2, n) == assoc_entity(s2.drop_first(), n));
            assert(assoc_entity(s, n) == assoc_entity(s.drop_first(), n));
        }
    } else {
        assert(s2[0] == s[0]);
        assert(s[0].0 != s[k].0);
        assert(s2.drop_first() =~= s.drop_first().update(k - 1, p));
        lemma_assoc_update(s.drop_first(), k - 1, p);
        assert forall|n: Seq<char>| n != p.0 implies assoc_entity(s2, n) == assoc_entity(
            s,
            n,
        ) by {
            if s[0].0 != n {
                assert(assoc_entity(s2, n) == assoc_entity(s2.drop_first(), n));
                assert(assoc_entity(s, n) == assoc_entity(s.drop_first(), n));
            }
        }
        assert(assoc_entity(s2, p.0) == assoc_entity(s2.drop_first(), p.0));
        assert(assoc_entity(s2.drop_first(), p.0) == Option::Some(p.1));
    }
}

/// Binding a fresh name adds that binding and disturbs no other.
proof fn lemma_assoc_push(s: Seq<(Seq<char>, int)>, p: (Seq<char>, int))
    requires
        forall|i: int| 0 <= i < s.len() ==> s[i].0 != p.0,
    ensures
        assoc_entity(s.push(p), p.0) == Option::Some(p.1),
        forall|n: Seq<char>| n != p.0 ==> assoc_entity(s.push(p), n) == assoc_entity(s, n),
    decreases s.len(),
{
    let s2 = s.push(p);
    if s.len() == 0 {
        assert(s2[0] == p);
        assert(s2.drop_first() =~= Seq::<(Seq<char>, int)>::empty());
        assert forall|n: Seq<char>| n != p.0 implies assoc_entity(s2, n) == assoc_entity(
            s,
            n,
        ) by {
            assert(assoc_entity(s2, n) == assoc_entity(s2.drop_first(), n));
        }
    } else {
        assert(s2[0] == s[0]);
        assert(s[0].0 != p.0);
        assert(s2.drop_first() =~= s.drop_first().push(p));
        lemma_assoc_push(s.drop_first(), p);
        assert(assoc_entity(s2, p.0) == assoc_entity(s2.drop_first(), p.0));
        assert forall|n: Seq<char>| n != p.0 implies assoc_entity(s2, n) == assoc_entity(
            s,
            n,
        ) by {
            if s[0].0 != n {
                assert(assoc_entity(s2, n) == assoc_entity(s2.drop_first(), n));
                assert(assoc_entity(s, n) == assoc_entity(s.drop_first(), n));
            }
        }
    }
}

impl Clone for IdentMap {
    fn clone(&self) -> (r: IdentMap)
        ensures
            r.iview() == self.iview(),
            r.wf() == self.wf(),
            forall|n: Seq<char>| r.spec_entity(n) == self.spec_entity(n),
            forall|e: int| r.spec_name(e) == self.spec_name(e),
    {
        let n = self.pairs.len();
        let mut out: Vec<(String, Entity)> = Vec::new();
        let mut i: usize = 0;
        while i < n
            invariant
                i <= n,
                n == self.pairs@.len(),
                out@.len() == i,
                forall|j: int|
                    0 <= j < i ==> (#[trigger] out@[j].0)@ == self.pairs@[j].0@ && out@[j].1
                        == self.pairs@[j].1,
            decreases n - i,
        {
            out.push((self.pairs[i].0.clone(), self.pairs[i].1));
            i = i + 1;
        }
        let r = IdentMap { pairs: out };
        proof {
            assert(r.iview() =~= self.iview());
        }
        r
    }
}

} // verus!
