//! Queries and unification. A query is `find ?vars where clauses`; a
//! clause matches records under a growing set of variable bindings, and
//! unification either rejects a record or yields exactly the new bindings
//! the match implies.

use vstd::prelude::*;

use crate::ident::IdentMap;
use crate::order::RecV;
use crate::value::{Entity, ValV, Value, str_eq_exec, value_eq};

verus! {

/// A free logic variable.
#[derive(Debug, Hash, PartialEq, Eq)]
pub struct Var {
    pub name: String,
}

impl View for Var {
    type V = Seq<char>;

    open spec fn view(&self) -> Seq<char> {
        self.name@
    }
}

impl Var {
    pub fn new(name: &str) -> (r: Var)
        ensures
            r@ == name@,
    {
        Var { name: name.to_owned() }
    }
}

impl Clone for Var {
    fn clone(&self) -> (r: Var)
        ensures
            r@ == self@,
    {
        Var { name: self.name.clone() }
    }
}

/// A clause position: a constant, or a variable to be bound.
#[derive(Debug, PartialEq, Eq)]
pub enum Term<T> {
    Bound(T),
    Unbound(Var),
}

/// The model of a term.
pub enum TermV<T> {
    B(T),
    U(Seq<char>),
}

/// A clause `(entity attribute value)`; the attribute is a name, resolved
/// against the ident map during matching.
#[derive(Debug, PartialEq, Eq)]
pub struct Clause {
    pub entity: Term<Entity>,
    pub attribute: Term<String>,
    pub value: Term<Value>,
}

/// The model of a clause.
pub struct ClauseV {
    pub e: TermV<nat>,
    pub a: TermV<Seq<char>>,
    pub v: TermV<ValV>,
}

impl View for Clause {
    type V = ClauseV;

    open spec fn view(&self) -> ClauseV {
        ClauseV {
            e: match &self.entity {
                Term::Bound(x) => TermV::B(x.0 as nat),
                Term::Unbound(var) => TermV::U(var@),
            },
            a: match &self.attribute {
                Term::Bound(x) => TermV::B(x@),
                Term::Unbound(var) => TermV::U(var@),
            },
            v: match &self.value {
                Term::Bound(x) => TermV::B(x@),
                Term::Unbound(var) => TermV::U(var@),
            },
        }
    }
}

impl Clause {
    pub fn new(e: Term<Entity>, a: Term<String>, v: Term<Value>) -> (r: Clause)
        ensures
            r == (Clause { entity: e, attribute: a, value: v }),
    {
        Clause { entity: e, attribute: a, value: v }
    }
}

/// A query: the variables to report, and the clauses all of which must
/// match.
#[derive(Debug, PartialEq)]
pub struct Query {
    pub find: Vec<Var>,
    pub clauses: Vec<Clause>,
}

impl Query {
    pub fn new(find: Vec<Var>, clauses: Vec<Clause>) -> (r: Query)
        ensures
            r.find == find,
            r.clauses == clauses,
    {
        Query { find, clauses }
    }
}

/// The model of a binding set: name/value pairs, first match binding.
pub type EnvV = Seq<(Seq<char>, ValV)>;

/// The first value bound to `name`, if any.
pub open spec fn env_get(env: EnvV, name: Seq<char>) -> Option<ValV>
    decreases env.len(),
{
    if env.len() == 0 {
        Option::None
    } else if env[0].0 == name {
        Option::Some(env[0].1)
    } else {
        env_get(env.drop_first(), name)
    }
}

/// Bind `name` to `v`, overwriting an existing binding in place or
/// appending a new one.
pub open spec fn env_set(env: EnvV, name: Seq<char>, v: ValV) -> EnvV
    decreases env.len(),
{
    if env.len() == 0 {
        seq![(name, v)]
    } else if env[0].0 == name {
        seq![(name, v)] + env.drop_first()
    } else {
        seq![env[0]] + env_set(env.drop_first(), name, v)
    }
}

/// A partial map from variables to values, in binding order, at most one
/// binding per variable.
#[derive(Debug, PartialEq)]
pub struct Binding {
    pairs: Vec<(Var, Value)>,
}

impl View for Binding {
    type V = EnvV;

    closed spec fn view(&self) -> EnvV {
        self.pairs@.map_values(|p: (Var, Value)| (p.0@, p.1@))
    }
}

impl Binding {
    /// The empty binding set.
    pub fn new() -> (r: Binding)
        ensures
            r@ == Seq::<(Seq<char>, ValV)>::empty(),
    {
        let r = Binding { pairs: Vec::new() };
        proof {
            assert(r@ =~= Seq::<(Seq<char>, ValV)>::empty());
        }
        r
    }

    /// The value a variable is bound to.
    pub fn get(&self, var: &Var) -> (r: Option<&Value>)
        ensures
            match r {
                Option::Some(v) => env_get(self@, var@) == Option::Some(v@),
                Option::None => env_get(self@, var@) == Option::None::<ValV>,
            },
    {
        let n = self.pairs.len();
        let mut i: usize = 0;
        proof {
            assert(self@.skip(0) =~= self@);
        }
        while i < n
            invariant
                i <= n,
                n == self.pairs@.len(),
                env_get(self@, var@) == env_get(self@.skip(i as int), var@),
            decreases n - i,
        {
            proof {
                assert(self@.skip(i as int)[0] == self@[i as int]);
                assert(self@.skip(i as int).drop_first() =~= self@.skip(i + 1));
            }
            if str_eq_exec(self.pairs[i].0.name.as_str(), var.name.as_str()) {
                return Option::Some(&self.pairs[i].1);
            }
            i = i + 1;
        }
        Option::None
    }

    /// Bind a variable, overwriting any existing binding for it.
    pub fn set(&mut self, var: &Var, value: Value)
        ensures
            final(self)@ == env_set(old(self)@, var@, value@),
    {
        let ghost env0 = self@;
        let n = self.pairs.len();
        let mut i: usize = 0;
        while i < n
            invariant
                i <= n,
                n == self.pairs@.len(),
                self@ == env0,
                env0 == old(self)@,
                forall|j: int| 0 <= j < i ==> env0[j].0 != var@,
            decreases n - i,
        {
            if str_eq_exec(self.pairs[i].0.name.as_str(), var.name.as_str()) {
                self.pairs.remove(i);
                self.pairs.insert(i, (var.clone(), value));
                proof {
                    assert(self@ =~= env0.update(i as int, (var@, value@)));
                    lemma_env_set_update(env0, i as int, var@, value@);
                }
                return ;
            }
            i = i + 1;
        }
        self.pairs.push((var.clone(), value));
        proof {
            assert(self@ =~= env0.push((var@, value@)));
            lemma_env_set_push(env0, var@, value@);
        }
    }

    /// Merge another binding set into this one, later bindings winning.
    pub fn extend(&mut self, other: &Binding)
        ensures
            final(self)@ == env_extend(old(self)@, other@),
    {
        let n = other.pairs.len();
        let mut i: usize = 0;
        proof {
            assert(other@.take(0) =~= Seq::<(Seq<char>, ValV)>::empty());
        }
        while i < n
            invariant
                i <= n,
                n == other.pairs@.len(),
                self@ == env_extend(old(self)@, other@.take(i as int)),
            decreases n - i,
        {
            let ghost pr = other@[i as int];
            self.set(&other.pairs[i].0, other.pairs[i].1.clone());
            proof {
                assert(other@.take(i + 1) =~= other@.take(i as int).push(pr));
                lemma_env_extend_push(old(self)@, other@.take(i as int), pr);
            }
            i = i + 1;
        }
        proof {
            assert(other@.take(n as int) =~= other@);
        }
    }

    /// The bindings whose variables occur in `find`, in binding order.
    pub fn project(&self, find: &Vec<Var>) -> (r: Binding)
        ensures
            r@ == env_project(self@, vars_view(find@)),
    {
        let ghost names = vars_view(find@);
        let n = self.pairs.len();
        let mut out: Vec<(Var, Value)> = Vec::new();
        let mut i: usize = 0;
        proof {
            let rb = Binding { pairs: out };
            assert(self@.skip(0) =~= self@);
        }
        while i < n
            invariant
                i <= n,
                n == self.pairs@.len(),
                names == vars_view(find@),
                env_project(self@, names) =~= (Binding { pairs: out })@ + env_project(
                    self@.skip(i as int),
                    names,
                ),
            decreases n - i,
        {
            let ghost out0 = (Binding { pairs: out })@;
            proof {
                assert(self@.skip(i as int)[0] == self@[i as int]);
                assert(self@.skip(i as int).drop_first() =~= self@.skip(i + 1));
            }
            if contains_var(find, &self.pairs[i].0) {
                out.push((self.pairs[i].0.clone(), self.pairs[i].1.clone()));
                proof {
                    let outv = (Binding { pairs: out })@;
                    assert(outv =~= out0.push(self@[i as int]));
                    assert(out0 + (seq![self@[i as int]] + env_project(self@.skip(i + 1), names))
                        =~= outv + env_project(self@.skip(i + 1), names));
                }
            }
            i = i + 1;
        }
        proof {
            assert(env_project(self@.skip(n as int), names) =~= Seq::<(Seq<char>, ValV)>::empty());
            assert((Binding { pairs: out })@ + Seq::<(Seq<char>, ValV)>::empty() =~= (Binding {
                pairs: out,
            })@);
        }
        Binding { pairs: out }
    }
}

impl Clone for Binding {
    fn clone(&self) -> (r: Binding)
        ensures
            r@ == self@,
    {
        let n = self.pairs.len();
        let mut out: Vec<(Var, Value)> = Vec::new();
        let mut i: usize = 0;
        while i < n
            invariant
                i <= n,
                n == self.pairs@.len(),
                out@.len() == i,
                forall|j: int|
                    0 <= j < i ==> (#[trigger] out@[j].0)@ == self.pairs@[j].0@ && out@[j].1@
                        == self.pairs@[j].1@,
            decreases n - i,
        {
            out.push((self.pairs[i].0.clone(), self.pairs[i].1.clone()));
            i = i + 1;
        }
        let r = Binding { pairs: out };
        proof {
            assert(r@ =~= self@);
        }
        r
    }
}

/// The names of a variable list.
pub open spec fn vars_view(vs: Seq<Var>) -> Seq<Seq<char>> {
    vs.map_values(|v: Var| v@)
}

/// Keep the pairs whose name occurs in `names`, in order.
pub open spec fn env_project(env: EnvV, names: Seq<Seq<char>>) -> EnvV
    decreases env.len(),
{
    if env.len() == 0 {
        Seq::empty()
    } else if names.contains(env[0].0) {
        seq![env[0]] + env_project(env.drop_first(), names)
    } else {
        env_project(env.drop_first(), names)
    }
}

/// Merge: bind every pair of `delta` over `env`, first pair first.
pub open spec fn env_extend(env: EnvV, delta: EnvV) -> EnvV
    decreases delta.len(),
{
    if delta.len() == 0 {
        env
    } else {
        env_extend(env_set(env, delta[0].0, delta[0].1), delta.drop_first())
    }
}

/// Whether a variable occurs in a list.
fn contains_var(vs: &Vec<Var>, var: &Var) -> (r: bool)
    ensures
        r == vars_view(vs@).contains(var@),
{
    let n = vs.len();
    let mut i: usize = 0;
    while i < n
        invariant
            i <= n,
            n == vs@.len(),
            forall|j: int| 0 <= j < i ==> vars_view(vs@)[j] != var@,
        decreases n - i,
    {
        if str_eq_exec(vs[i].name.as_str(), var.name.as_str()) {
            proof {
                assert(vars_view(vs@)[i as int] == var@);
            }
            return true;
        }
        i = i + 1;
    }
    proof {
        if vars_view(vs@).contains(var@) {
            let w = choose|w: int| 0 <= w < vars_view(vs@).len() && vars_view(vs@)[w] == var@;
        }
    }
    false
}

/// What unification yields: for each position, a bound term must equal the
/// record's field (attributes compared after name resolution); an unbound
/// variable already in the environment must agree with the field wrapped as
/// a value; an unseen variable becomes a new binding. The result is the
/// delta of new bindings alone, or nothing on a mismatch.
pub open spec fn spec_unify(im: IdentMap, env: EnvV, c: ClauseV, r: RecV) -> Option<EnvV> {
    let d1 = match c.e {
        TermV::B(e) => if e == r.e {
            Option::Some(Seq::<(Seq<char>, ValV)>::empty())
        } else {
            Option::None
        },
        TermV::U(n) => match env_get(env, n) {
            Option::Some(v) => if v == ValV::Ent(r.e) {
                Option::Some(Seq::<(Seq<char>, ValV)>::empty())
            } else {
                Option::None
            },
            Option::None => Option::Some(
                env_set(Seq::<(Seq<char>, ValV)>::empty(), n, ValV::Ent(r.e)),
            ),
        },
    };
    match d1 {
        Option::None => Option::None,
        Option::Some(da) => {
            let d2 = match c.a {
                TermV::B(a) => if im.spec_entity(a) == Option::Some(r.a as int) {
                    Option::Some(da)
                } else {
                    Option::None
                },
                TermV::U(n) => match env_get(env, n) {
                    Option::Some(v) => if v == ValV::Ent(r.a) {
                        Option::Some(da)
                    } else {
                        Option::None
                    },
                    Option::None => Option::Some(env_set(da, n, ValV::Ent(r.a))),
                },
            };
            match d2 {
                Option::None => Option::None,
                Option::Some(db) => match c.v {
                    TermV::B(v) => if v == r.v {
                        Option::Some(db)
                    } else {
                        Option::None
                    },
                    TermV::U(n) => match env_get(env, n) {
                        Option::Some(v) => if v == r.v {
                            Option::Some(db)
                        } else {
                            Option::None
                        },
                        Option::None => Option::Some(env_set(db, n, r.v)),
                    },
                },
            }
        },
    }
}

/// Attempt to unify a record and a clause with existing bindings. If the
/// bound fields of the clause match the record, every record field at an
/// unbound position becomes a new binding; a conflict with a bound field or
/// an existing binding fails. Returns the new bindings alone.
pub fn unify(env: &Binding, idents: &IdentMap, clause: &Clause, record: &crate::order::Record) -> (r:
    Option<Binding>)
    ensures
        match r {
            Option::Some(d) => spec_unify(*idents, env@, clause@, record@) == Option::Some(d@),
            Option::None => spec_unify(*idents, env@, clause@, record@) == Option::None::<EnvV>,
        },
{
    let mut new_info = Binding::new();
    match &clause.entity {
        Term::Bound(e) => {
            if e.0 != record.entity.0 {
                return Option::None;
            }
        },
        Term::Unbound(var) => {
            match env.get(var) {
                Option::Some(e) => {
                    if !value_eq(e, &Value::Entity(record.entity)) {
                        return Option::None;
                    }
                },
                Option::None => {
                    new_info.set(var, Value::Entity(record.entity));
                },
            }
        },
    }
    match &clause.attribute {
        Term::Bound(a) => {
            match idents.get_entity(a.as_str()) {
                Option::Some(e) => {
                    if e.0 != record.attribute.0 {
                        return Option::None;
                    }
                },
                Option::None => {
                    return Option::None;
                },
            }
        },
        Term::Unbound(var) => {
            match env.get(var) {
                Option::Some(e) => {
                    if !value_eq(e, &Value::Entity(record.attribute)) {
                        return Option::None;
                    }
                },
                Option::None => {
                    new_info.set(var, Value::Entity(record.attribute));
                },
            }
        },
    }
    match &clause.value {
        Term::Bound(v) => {
            if !value_eq(v, &record.value) {
                return Option::None;
            }
        },
        Term::Unbound(var) => {
            match env.get(var) {
                Option::Some(e) => {
                    if !value_eq(e, &record.value) {
                        return Option::None;
                    }
                },
                Option::None => {
                    new_info.set(var, record.value.clone());
                },
            }
        },
    }
    Option::Some(new_info)
}

/// Rebinding the one pair with this name is `env_set`.
proof fn lemma_env_set_update(env: EnvV, k: int, name: Seq<char>, v: ValV)
    requires
        0 <= k < env.len(),
        env[k].0 == name,
        forall|j: int| 0 <= j < k ==> env[j].0 != name,
    ensures
        env.update(k, (name, v)) == env_set(env, name, v),
    decreases env.len(),
{
    let s2 = env.update(k, (name, v));
    if k == 0 {
        assert(s2 =~= seq![(name, v)] + env.drop_first());
    } else {
        lemma_env_set_update(env.drop_first(), k - 1, name, v);
        assert(env.drop_first().update(k - 1, (name, v)) =~= s2.drop_first());
        assert(s2 =~= seq![env[0]] + s2.drop_first());
    }
}

/// Appending a fresh name is `env_set`.
proof fn lemma_env_set_push(env: EnvV, name: Seq<char>, v: ValV)
    requires
        forall|j: int| 0 <= j < env.len() ==> env[j].0 != name,
    ensures
        env.push((name, v)) == env_set(env, name, v),
    decreases env.len(),
{
    if env.len() == 0 {
        assert(env.push((name, v)) =~= seq![(name, v)]);
    } else {
        lemma_env_set_push(env.drop_first(), name, v);
        assert(env.push((name, v)).drop_first() =~= env.drop_first().push((name, v)));
        assert(env.push((name, v)) =~= seq![env[0]] + env.push((name, v)).drop_first());
    }
}

/// Extending by one more pair is one more `env_set`.
proof fn lemma_env_extend_push(env: EnvV, delta: EnvV, p: (Seq<char>, ValV))
    ensures
        env_extend(env, delta.push(p)) == env_set(env_extend(env, delta), p.0, p.1),
    decreases delta.len(),
{
    let d2 = delta.push(p);
    if delta.len() == 0 {
        assert(d2[0] == p);
        assert(d2.drop_first() =~= Seq::<(Seq<char>, ValV)>::empty());
        assert(env_extend(env, d2) == env_extend(
            env_set(env, d2[0].0, d2[0].1),
            d2.drop_first(),
        ));
        assert(env_extend(env_set(env, p.0, p.1), d2.drop_first()) == env_set(env, p.0, p.1));
        assert(env_extend(env, delta) == env);
    } else {
        assert(d2[0] == delta[0]);
        assert(d2.drop_first() =~= delta.drop_first().push(p));
        lemma_env_extend_push(env_set(env, delta[0].0, delta[0].1), delta.drop_first(), p);
        assert(env_extend(env, d2) == env_extend(
            env_set(env, d2[0].0, d2[0].1),
            d2.drop_first(),
        ));
        assert(env_extend(env, delta) == env_extend(
            env_set(env, delta[0].0, delta[0].1),
            delta.drop_first(),
        ));
    }
}

} // verus!
