//! The database: owner of the three indexes, the ident map and the
//! next-entity-id counter, over a node store. `transact` assigns entity
//! ids, stamps records with their transaction, updates all three indexes
//! and commits atomically; `query` evaluates conjunctive clauses by
//! iterative unification, picking the most selective index per clause.

use vstd::prelude::*;

use crate::ident::IdentMap;
use crate::index::{Index, filter_recs, lemma_wf_sorted, seq_insert, sorted_recs, lemma_seq_insert_elems};
use crate::order::{IndexOrder, RecV, Record, rec_lt, rec_lte, lemma_rec_lt_connected, recs_view};
use crate::query::{Binding, Clause, ClauseV, EnvV, Query, Term, TermV, Var, env_extend, env_get, env_project, spec_unify, unify, vars_view};
use crate::store::{DbContents, HeapStore, NodeV};
use crate::value::{Entity, ValV, Value};

verus! {

/// Everything that can go wrong at the public boundary.
#[derive(Debug, PartialEq, Eq)]
pub enum Error {
    /// A store URI matches no known scheme.
    InvalidUri,
    /// The underlying KV backend failed.
    StoreIO(String),
    /// A node referenced by a tree is absent: the store is corrupt.
    NotFound(u64),
    /// An attribute name has no entry in the ident map.
    InvalidAttribute(String),
    /// A term's resolved value does not fit its position.
    TypeMismatch,
    /// A declared but unsupported operation (retraction).
    Unimplemented,
    /// Raised by the parser, never by the core.
    ParseError,
}

/// The model of an error.
pub enum ErrV {
    InvalidUri,
    StoreIO(Seq<char>),
    NotFound(nat),
    InvalidAttribute(Seq<char>),
    TypeMismatch,
    Unimplemented,
    ParseError,
}

impl View for Error {
    type V = ErrV;

    open spec fn view(&self) -> ErrV {
        match self {
            Error::InvalidUri => ErrV::InvalidUri,
            Error::StoreIO(m) => ErrV::StoreIO(m@),
            Error::NotFound(k) => ErrV::NotFound(*k as nat),
            Error::InvalidAttribute(n) => ErrV::InvalidAttribute(n@),
            Error::TypeMismatch => ErrV::TypeMismatch,
            Error::Unimplemented => ErrV::Unimplemented,
            Error::ParseError => ErrV::ParseError,
        }
    }
}

/// Substitution of bound variables into a clause: an entity position takes
/// only entity values, an attribute position only string values; any value
/// fits the value position. A variable resolved to an incompatible value is
/// a type mismatch.
pub open spec fn spec_substitute(env: EnvV, c: ClauseV) -> Result<ClauseV, ErrV> {
    let e2 = match c.e {
        TermV::B(e) => Result::Ok(TermV::B(e)),
        TermV::U(n) => match env_get(env, n) {
            Option::Some(ValV::Ent(e)) => Result::Ok(TermV::B(e)),
            Option::Some(_) => Result::Err(ErrV::TypeMismatch),
            Option::None => Result::Ok(TermV::U(n)),
        },
    };
    let a2 = match c.a {
        TermV::B(a) => Result::Ok(TermV::B(a)),
        TermV::U(n) => match env_get(env, n) {
            Option::Some(ValV::Str(s)) => Result::Ok(TermV::B(s)),
            Option::Some(_) => Result::Err(ErrV::TypeMismatch),
            Option::None => Result::Ok(TermV::U(n)),
        },
    };
    let v2 = match c.v {
        TermV::B(v) => Result::Ok(TermV::B(v)),
        TermV::U(n) => match env_get(env, n) {
            Option::Some(v) => Result::Ok(TermV::B(v)),
            Option::None => Result::Ok(TermV::U(n)),
        },
    };
    match e2 {
        Result::Err(er) => Result::Err(er),
        Result::Ok(te) => match a2 {
            Result::Err(er) => Result::Err(er),
            Result::Ok(ta) => match v2 {
                Result::Err(er) => Result::Err(er),
                Result::Ok(tv) => Result::Ok(ClauseV { e: te, a: ta, v: tv }),
            },
        },
    }
}

impl Clause {
    /// Replace each variable bound in the environment by its value.
    pub fn substitute(&self, env: &Binding) -> (r: Result<Clause, Error>)
        ensures
            match r {
                Result::Ok(c) => spec_substitute(env@, self@) == Result::Ok::<ClauseV, ErrV>(c@),
                Result::Err(e) => spec_substitute(env@, self@) == Result::Err::<ClauseV, ErrV>(e@),
            },
    {
        let entity = match &self.entity {
            Term::Bound(e) => Term::Bound(*e),
            Term::Unbound(var) => {
                match env.get(var) {
                    Option::Some(val) => {
                        match val {
                            Value::Entity(e) => Term::Bound(*e),
                            _ => {
                                return Result::Err(Error::TypeMismatch);
                            },
                        }
                    },
                    Option::None => Term::Unbound(var.clone()),
                }
            },
        };
        let attribute = match &self.attribute {
            Term::Bound(a) => Term::Bound(a.clone()),
            Term::Unbound(var) => {
                match env.get(var) {
                    Option::Some(val) => {
                        match val {
                            Value::String(s) => Term::Bound(s.clone()),
                            _ => {
                                return Result::Err(Error::TypeMismatch);
                            },
                        }
                    },
                    Option::None => Term::Unbound(var.clone()),
                }
            },
        };
        let value = match &self.value {
            Term::Bound(v) => Term::Bound(v.clone()),
            Term::Unbound(var) => {
                match env.get(var) {
                    Option::Some(val) => Term::Bound(val.clone()),
                    Option::None => Term::Unbound(var.clone()),
                }
            },
        };
        Result::Ok(Clause { entity, attribute, value })
    }
}

/// The name that bootstraps everything: the attribute that binds names to
/// entities.
pub open spec fn db_ident_name() -> Seq<char> {
    "db:ident"@
}

/// The attribute under which each transaction records its instant.
pub open spec fn db_tx_instant_name() -> Seq<char> {
    "db:txInstant"@
}

/// A database over an in-memory node store.
pub struct Db {
    next_id: u64,
    idents: IdentMap,
    store: HeapStore,
    eav: Index,
    ave: Index,
    aev: Index,
}

impl Db {
    /// The records of the database, in EAVT order.
    pub closed spec fn records(&self) -> Seq<RecV> {
        self.eav.contents(self.store.nodes())
    }

    /// The records in AVET order.
    pub closed spec fn records_avet(&self) -> Seq<RecV> {
        self.ave.contents(self.store.nodes())
    }

    /// The records in AEVT order.
    pub closed spec fn records_aevt(&self) -> Seq<RecV> {
        self.aev.contents(self.store.nodes())
    }

    /// The ident map.
    pub closed spec fn imap(&self) -> IdentMap {
        self.idents
    }

    /// The next entity id to be assigned.
    pub closed spec fn nid(&self) -> nat {
        self.next_id as nat
    }

    /// Well-formedness: the three indexes are well-formed trees under their
    /// orders and hold the same records; every id on a record or in the
    /// ident map lies below the next id; the two bootstrap attributes are
    /// known.
    pub closed spec fn wf(&self) -> bool {
        &&& self.eav.order == IndexOrder::Eavt
        &&& self.ave.order == IndexOrder::Avet
        &&& self.aev.order == IndexOrder::Aevt
        &&& self.eav.wf(self.store.nodes())
        &&& self.ave.wf(self.store.nodes())
        &&& self.aev.wf(self.store.nodes())
        &&& self.records().to_multiset() == self.records_avet().to_multiset()
        &&& self.records().to_multiset() == self.records_aevt().to_multiset()
        &&& self.idents.wf()
        &&& (forall|i: int|
            0 <= i < self.records().len() ==> (#[trigger] self.records()[i]).e < self.nid()
                && self.records()[i].t < self.nid())
        &&& self.idents.spec_entity(db_ident_name()) is Some
        &&& self.idents.spec_entity(db_tx_instant_name()) is Some
        &&& self.nid() >= 3
    }
}

/// What a committed store satisfies: the three roots are well-formed trees
/// over the store holding one multiset of records, and the counter bounds
/// every id in sight. A zero counter marks a store never written: empty
/// roots and an empty ident map.
pub open spec fn store_wf(store: HeapStore) -> bool {
    let c = store.spec_contents();
    let eav = Index { root: c.eav, order: IndexOrder::Eavt };
    let ave = Index { root: c.ave, order: IndexOrder::Avet };
    let aev = Index { root: c.aev, order: IndexOrder::Aevt };
    &&& c.idents.wf()
    &&& eav.wf(store.nodes())
    &&& ave.wf(store.nodes())
    &&& aev.wf(store.nodes())
    &&& eav.contents(store.nodes()).to_multiset() == ave.contents(store.nodes()).to_multiset()
    &&& eav.contents(store.nodes()).to_multiset() == aev.contents(store.nodes()).to_multiset()
    &&& (forall|i: int|
        0 <= i < eav.contents(store.nodes()).len() ==> (#[trigger] eav.contents(
            store.nodes(),
        )[i]).e < c.next_id && eav.contents(store.nodes())[i].t < c.next_id)
    &&& (c.next_id == 0 ==> c.eav is None && c.ave is None && c.aev is None
        && c.idents.iview().len() == 0)
    &&& (c.next_id != 0 ==> c.next_id >= 3 && c.idents.spec_entity(db_ident_name()) is Some
        && c.idents.spec_entity(db_tx_instant_name()) is Some)
}

/// The working copy a transaction mutates: nothing is installed into the
/// database, nor committed, until every item has succeeded.
struct Staged {
    next_id: u64,
    idents: IdentMap,
    eav: Index,
    ave: Index,
    aev: Index,
}

impl Staged {
    spec fn recs(&self, nodes: Seq<NodeV>) -> Seq<RecV> {
        self.eav.contents(nodes)
    }

    /// The staged state as a transactional model.
    spec fn tview(&self, nodes: Seq<NodeV>) -> TxState {
        TxState {
            next_id: self.next_id as int,
            idents: self.idents.iview(),
            recs: self.eav.contents(nodes),
        }
    }

    spec fn wf(&self, nodes: Seq<NodeV>) -> bool {
        &&& self.eav.order == IndexOrder::Eavt
        &&& self.ave.order == IndexOrder::Avet
        &&& self.aev.order == IndexOrder::Aevt
        &&& self.eav.wf(nodes)
        &&& self.ave.wf(nodes)
        &&& self.aev.wf(nodes)
        &&& self.eav.contents(nodes).to_multiset() == self.ave.contents(nodes).to_multiset()
        &&& self.eav.contents(nodes).to_multiset() == self.aev.contents(nodes).to_multiset()
        &&& self.idents.wf()
        &&& (forall|i: int|
            0 <= i < self.eav.contents(nodes).len() ==> (#[trigger] self.eav.contents(nodes)[i]).e
                < self.next_id && self.eav.contents(nodes)[i].t < self.next_id)
        &&& self.idents.spec_entity(db_ident_name()) is Some
    }
}

/// What the internal add path does to the ident map: a record asserting
/// `db:ident` binds the named ident to the record's entity; one asserting
/// `db:ident` with anything but an ident value is a type mismatch.
pub open spec fn ident_extension(im: IdentMap, r: RecV) -> Result<Option<Seq<char>>, ErrV> {
    if im.spec_entity(db_ident_name()) == Option::Some(r.a as int) {
        match r.v {
            ValV::Id(s) => Result::Ok(Option::Some(s)),
            _ => Result::Err(ErrV::TypeMismatch),
        }
    } else {
        Result::Ok(Option::None)
    }
}

/// Insert one record into all three indexes, bump the id counter past the
/// record's entity, and extend the ident map when the record asserts an
/// ident.
fn stage_add(store: &mut HeapStore, st: &mut Staged, record: Record) -> (r: Result<(), Error>)
    requires
        old(st).wf(old(store).nodes()),
        record.entity.0 < u64::MAX,
        record.tx.0 < old(st).next_id || record.tx.0 <= record.entity.0,
    ensures
        final(store).spec_contents() == old(store).spec_contents(),
        old(store).nodes().len() <= final(store).nodes().len(),
        forall|i: int|
            0 <= i < old(store).nodes().len() ==> final(store).nodes()[i] == old(
                store,
            ).nodes()[i],
        match r {
            Result::Ok(()) => {
                &&& spec_add(old(st).tview(old(store).nodes()), record@) == Result::Ok::<
                    TxState,
                    ErrV,
                >(final(st).tview(final(store).nodes()))
                &&& final(st).wf(final(store).nodes())
                &&& final(st).recs(final(store).nodes()) == seq_insert(
                    IndexOrder::Eavt,
                    old(st).recs(old(store).nodes()),
                    record@,
                )
                &&& final(st).next_id as nat == (if record.entity.0 as nat >= old(st).next_id as nat {
                    record.entity.0 as nat + 1
                } else {
                    old(st).next_id as nat
                })
                &&& old(st).next_id <= final(st).next_id
                &&& ident_extension(old(st).idents, record@) matches Result::Ok(ext)
                &&& (match ext {
                    Option::Some(s) => final(st).idents.spec_entity(s) == Option::Some(
                        record.entity.0 as int,
                    ) && forall|n: Seq<char>|
                        n != s ==> final(st).idents.spec_entity(n) == old(st).idents.spec_entity(
                            n,
                        ),
                    Option::None => final(st).idents == old(st).idents,
                })
            },
            Result::Err(e) => e@ == ErrV::TypeMismatch && ident_extension(old(st).idents, record@)
                == Result::Err::<Option<Seq<char>>, ErrV>(ErrV::TypeMismatch) && spec_add(
                old(st).tview(old(store).nodes()),
                record@,
            ) == Result::Err::<TxState, ErrV>(ErrV::TypeMismatch),
        },
{
    let ghost nodes0 = store.nodes();
    let ghost rv = record@;
    if record.entity.0 >= st.next_id {
        st.next_id = record.entity.0 + 1;
    }
    let eav2 = st.eav.insert(store, &record);
    let ghost nodes1 = store.nodes();
    proof {
        crate::index::lemma_index_extend(st.ave, nodes0, nodes1);
        crate::index::lemma_index_extend(st.aev, nodes0, nodes1);
    }
    let ave2 = st.ave.insert(store, &record);
    let ghost nodes2 = store.nodes();
    proof {
        crate::index::lemma_index_extend(st.aev, nodes1, nodes2);
    }
    let aev2 = st.aev.insert(store, &record);
    let ghost nodes3 = store.nodes();
    st.eav = eav2;
    st.ave = ave2;
    st.aev = aev2;
    proof {
        crate::index::lemma_index_extend(old(st).eav, nodes0, nodes3);
        crate::index::lemma_index_extend(old(st).ave, nodes0, nodes3);
        crate::index::lemma_index_extend(old(st).aev, nodes0, nodes3);
        crate::index::lemma_index_extend(eav2, nodes1, nodes3);
        crate::index::lemma_index_extend(ave2, nodes2, nodes3);
        lemma_wf_sorted_index(old(st).eav, nodes0);
        lemma_wf_sorted_index(old(st).ave, nodes0);
        lemma_wf_sorted_index(old(st).aev, nodes0);
        lemma_seq_insert_elems(IndexOrder::Eavt, old(st).eav.contents(nodes0), rv);
        lemma_seq_insert_elems(IndexOrder::Avet, old(st).ave.contents(nodes0), rv);
        lemma_seq_insert_elems(IndexOrder::Aevt, old(st).aev.contents(nodes0), rv);
        lemma_insert_multiset_agree(
            old(st).eav.contents(nodes0),
            old(st).ave.contents(nodes0),
            IndexOrder::Eavt,
            IndexOrder::Avet,
            rv,
        );
        lemma_insert_multiset_agree(
            old(st).eav.contents(nodes0),
            old(st).aev.contents(nodes0),
            IndexOrder::Eavt,
            IndexOrder::Aevt,
            rv,
        );
    }
    // a record asserting db:ident extends the ident map
    let ident_attr = match st.idents.get_entity("db:ident") {
        Option::Some(e) => e,
        Option::None => {
            proof {
                assert(false);
            }
            Entity(0)
        },
    };
    if record.attribute.0 == ident_attr.0 {
        match record.value {
            Value::Ident(s) => {
                proof {
                    crate::ident::lemma_assoc_mem(st.idents.iview(), s@);
                }
                st.idents = st.idents.add(s, record.entity);
            },
            _ => {
                return Result::Err(Error::TypeMismatch);
            },
        }
    }
    Result::Ok(())
}

/// A user-level assertion: entity, attribute by name, value.
#[derive(Debug, PartialEq, Eq)]
pub struct Fact {
    pub entity: Entity,
    pub attribute: String,
    pub value: Value,
}

/// The model of a fact.
pub struct FactV {
    pub e: nat,
    pub a: Seq<char>,
    pub v: ValV,
}

impl View for Fact {
    type V = FactV;

    open spec fn view(&self) -> FactV {
        FactV { e: self.entity.0 as nat, a: self.attribute@, v: self.value@ }
    }
}

impl Fact {
    pub fn new(e: Entity, a: String, v: Value) -> (r: Fact)
        ensures
            r@ == (FactV { e: e.0 as nat, a: a@, v: v@ }),
    {
        Fact { entity: e, attribute: a, value: v }
    }
}

impl Clone for Fact {
    fn clone(&self) -> (r: Fact)
        ensures
            r@ == self@,
    {
        Fact {
            entity: self.entity,
            attribute: self.attribute.clone(),
            value: self.value.clone(),
        }
    }
}

/// One item of a transaction.
#[derive(Debug, PartialEq, Eq)]
pub enum TxItem {
    Addition(Fact),
    Retraction(Fact),
    NewEntity(Vec<(String, Value)>),
}

/// A transaction: items applied in order, all or nothing.
#[derive(Debug, PartialEq, Eq)]
pub struct Tx {
    pub items: Vec<TxItem>,
}

/// What a successful transaction reports: the entities allocated for its
/// `NewEntity` items, in order.
#[derive(Debug, PartialEq, Eq)]
pub struct TxReport {
    pub new_entities: Vec<Entity>,
}

/// The model of a transaction item.
pub enum TxItemV {
    Add(FactV),
    Retract(FactV),
    New(Seq<(Seq<char>, ValV)>),
}

impl View for TxItem {
    type V = TxItemV;

    open spec fn view(&self) -> TxItemV {
        match self {
            TxItem::Addition(f) => TxItemV::Add(f@),
            TxItem::Retraction(f) => TxItemV::Retract(f@),
            TxItem::NewEntity(pairs) => TxItemV::New(
                pairs@.map_values(|p: (String, Value)| (p.0@, p.1@)),
            ),
        }
    }
}

/// The views of a transaction's items.
pub open spec fn items_view(items: Seq<TxItem>) -> Seq<TxItemV> {
    items.map_values(|it: TxItem| it@)
}

/// The views of an entity list.
pub open spec fn entities_view(es: Seq<Entity>) -> Seq<nat> {
    es.map_values(|e: Entity| e.0 as nat)
}

/// The model of the mutable database state a transaction works on: the id
/// counter, the ident bindings, and the records in EAVT order.
pub struct TxState {
    pub next_id: int,
    pub idents: Seq<(Seq<char>, int)>,
    pub recs: Seq<RecV>,
}

/// The model of a database's transactional state.
pub open spec fn db_state(db: Db) -> TxState {
    TxState { next_id: db.nid() as int, idents: db.imap().iview(), recs: db.records() }
}

/// What adding one record does: the counter is bumped past the record's
/// entity, the record is placed in sorted order (a duplicate changes
/// nothing), and a record asserting `db:ident` with an ident value binds
/// that name — with any other value it is a type mismatch.
pub open spec fn spec_add(st: TxState, r: RecV) -> Result<TxState, ErrV> {
    let nid2 = if r.e as int >= st.next_id {
        r.e as int + 1
    } else {
        st.next_id
    };
    let recs2 = seq_insert(IndexOrder::Eavt, st.recs, r);
    if crate::ident::assoc_entity(st.idents, db_ident_name()) == Option::Some(r.a as int) {
        match r.v {
            ValV::Id(s) => Result::Ok(
                TxState {
                    next_id: nid2,
                    idents: crate::ident::assoc_set(st.idents, s, r.e as int),
                    recs: recs2,
                },
            ),
            _ => Result::Err(ErrV::TypeMismatch),
        }
    } else {
        Result::Ok(TxState { next_id: nid2, idents: st.idents, recs: recs2 })
    }
}

/// One fact applied: its attribute name resolved through the ident map
/// (unknown names fail), the record stamped with the transaction entity.
pub open spec fn spec_apply_fact(st: TxState, f: FactV, tx_e: nat) -> Result<TxState, ErrV> {
    match crate::ident::assoc_entity(st.idents, f.a) {
        Option::None => Result::Err(ErrV::InvalidAttribute(f.a)),
        Option::Some(attr) => spec_add(st, RecV { e: f.e, a: attr as nat, v: f.v, t: tx_e }),
    }
}

/// The pairs of one new-entity item applied in order, all against the one
/// freshly allocated entity.
pub open spec fn spec_apply_pairs(
    st: TxState,
    e: nat,
    pairs: Seq<(Seq<char>, ValV)>,
    tx_e: nat,
) -> Result<TxState, ErrV>
    decreases pairs.len(),
{
    if pairs.len() == 0 {
        Result::Ok(st)
    } else {
        match spec_apply_fact(st, FactV { e, a: pairs[0].0, v: pairs[0].1 }, tx_e) {
            Result::Err(er) => Result::Err(er),
            Result::Ok(st2) => spec_apply_pairs(st2, e, pairs.drop_first(), tx_e),
        }
    }
}

/// The items of a transaction applied in order: an addition emits its
/// record; a new-entity item allocates the next id and emits one record per
/// pair; a retraction is unimplemented. The second result lists the freshly
/// allocated entities in item order.
pub open spec fn spec_apply_items(st: TxState, items: Seq<TxItemV>, tx_e: nat) -> Result<
    (TxState, Seq<nat>),
    ErrV,
>
    decreases items.len(),
{
    if items.len() == 0 {
        Result::Ok((st, Seq::empty()))
    } else {
        match items[0] {
            TxItemV::Add(f) => match spec_apply_fact(st, f, tx_e) {
                Result::Err(er) => Result::Err(er),
                Result::Ok(st2) => spec_apply_items(st2, items.drop_first(), tx_e),
            },
            TxItemV::Retract(_) => Result::Err(ErrV::Unimplemented),
            TxItemV::New(pairs) => {
                let e = st.next_id;
                let st1 = TxState { next_id: st.next_id + 1, idents: st.idents, recs: st.recs };
                match spec_apply_pairs(st1, e as nat, pairs, tx_e) {
                    Result::Err(er) => Result::Err(er),
                    Result::Ok(st2) => match spec_apply_items(st2, items.drop_first(), tx_e) {
                        Result::Err(er) => Result::Err(er),
                        Result::Ok(rest) => Result::Ok((rest.0, seq![e as nat] + rest.1)),
                    },
                }
            },
        }
    }
}

/// The whole effect of a transaction on a database state: the transaction
/// entity is the old counter; first the transaction-instant record (its
/// timestamp `now` is the one thing the clock decides), then every item in
/// order; any failure discards everything.
pub open spec fn spec_transact(st0: TxState, items: Seq<TxItemV>, now: nat) -> Result<
    (TxState, Seq<nat>),
    ErrV,
> {
    let tx_e = st0.next_id;
    let st1 = TxState { next_id: st0.next_id + 1, idents: st0.idents, recs: st0.recs };
    match crate::ident::assoc_entity(st0.idents, db_tx_instant_name()) {
        Option::None => Result::Err(ErrV::InvalidAttribute(db_tx_instant_name())),
        Option::Some(attr) => match spec_add(
            st1,
            RecV { e: tx_e as nat, a: attr as nat, v: ValV::Time(now), t: tx_e as nat },
        ) {
            Result::Err(er) => Result::Err(er),
            Result::Ok(st2) => spec_apply_items(st2, items, tx_e as nat),
        },
    }
}

impl Db {
    /// Load a database from a store, seeding the ident map with the
    /// bootstrap binding. A store never written (counter zero) is
    /// bootstrapped: the three reserved records are inserted, so that
    /// `db:ident` and `db:txInstant` are themselves known attributes.
    pub fn new(store: HeapStore) -> (r: Result<Db, Error>)
        requires
            store_wf(store),
        ensures
            match r {
                Result::Ok(db) => {
                    &&& db.wf()
                    &&& db.imap().spec_entity(db_ident_name()) == Option::Some(1int)
                    &&& db.spec_store().spec_contents() == store.spec_contents()
                    &&& (store.spec_contents().next_id == 0 ==> {
                        &&& db.imap().spec_entity(db_tx_instant_name()) == Option::Some(2int)
                        &&& db.nid() == 3
                        &&& (exists|now: nat|
                            db.records() == seq![
                                RecV { e: 0, a: 2, v: ValV::Time(now), t: 0 },
                                RecV { e: 1, a: 1, v: ValV::Id(db_ident_name()), t: 0 },
                                RecV { e: 2, a: 1, v: ValV::Id(db_tx_instant_name()), t: 0 },
                            ])
                    })
                    &&& (store.spec_contents().next_id != 0 ==> {
                        let c = store.spec_contents();
                        &&& db.nid() == c.next_id as nat
                        &&& db.records() == (Index {
                            root: c.eav,
                            order: IndexOrder::Eavt,
                        }).contents(store.nodes())
                        &&& db.records_avet() == (Index {
                            root: c.ave,
                            order: IndexOrder::Avet,
                        }).contents(store.nodes())
                        &&& (c.idents.spec_entity(db_ident_name()) == Option::Some(1int)
                            ==> db.imap().iview() == c.idents.iview())
                        &&& (forall|n: Seq<char>|
                            n != db_ident_name() ==> db.imap().spec_entity(n)
                                == c.idents.spec_entity(n))
                    })
                },
                Result::Err(_) => false,
            },
    {
        let mut store = store;
        let contents = store.get_contents();
        let idents = contents.idents.add("db:ident".to_owned(), Entity(1));
        let mut st = Staged {
            next_id: contents.next_id,
            idents,
            eav: Index::new(contents.eav, IndexOrder::Eavt),
            ave: Index::new(contents.ave, IndexOrder::Avet),
            aev: Index::new(contents.aev, IndexOrder::Aevt),
        };
        proof {
            reveal_strlit("db:ident");
            reveal_strlit("db:txInstant");
            assert(db_ident_name().len() == 8);
            assert(db_tx_instant_name().len() == 12);
            assert(db_ident_name() != db_tx_instant_name());
            assert(st.wf(store.nodes()));
        }
        if st.next_id == 0 {
            // initial transaction entity
            let recb0 = Record::new(
                Entity(0),
                Entity(2),
                Value::Timestamp(now_seconds()),
                Entity(0),
            );
            let ghost bv0 = recb0@;
            let ghost empty0 = st.recs(store.nodes());
            let r1 = stage_add(&mut store, &mut st, recb0);
            // entity for the db:ident attribute
            let recb1 = Record::new(
                Entity(1),
                Entity(1),
                Value::Ident("db:ident".to_owned()),
                Entity(0),
            );
            let ghost bv1 = recb1@;
            let r2 = stage_add(&mut store, &mut st, recb1);
            // entity for the db:txInstant attribute
            let recb2 = Record::new(
                Entity(2),
                Entity(1),
                Value::Ident("db:txInstant".to_owned()),
                Entity(0),
            );
            let ghost bv2 = recb2@;
            let r3 = stage_add(&mut store, &mut st, recb2);
            proof {
                assert(r1 is Ok && r2 is Ok && r3 is Ok);
                assert(st.next_id == 3);
                // the three bootstrap records, in entity order
                assert(empty0 =~= Seq::<RecV>::empty());
                let o = IndexOrder::Eavt;
                let s1 = seq_insert(o, empty0, bv0);
                let s2 = seq_insert(o, s1, bv1);
                let s3 = seq_insert(o, s2, bv2);
                assert(s1 =~= seq![bv0]);
                assert(rec_lt(o, bv0, bv1) && rec_lt(o, bv0, bv2) && rec_lt(o, bv1, bv2));
                assert(s2 =~= seq![bv0, bv1]) by {
                    assert(s1[0] == bv0);
                    assert(s1.drop_first() =~= Seq::<RecV>::empty());
                    assert(seq_insert(o, Seq::<RecV>::empty(), bv1) =~= seq![bv1]);
                    assert(seq![bv0] + seq![bv1] =~= seq![bv0, bv1]);
                }
                assert(s3 =~= seq![bv0, bv1, bv2]) by {
                    assert(s2[0] == bv0);
                    assert(s2.drop_first() =~= seq![bv1]);
                    assert(seq_insert(o, seq![bv1], bv2) =~= seq![bv1, bv2]) by {
                        assert(seq![bv1].drop_first() =~= Seq::<RecV>::empty());
                        assert(seq_insert(o, Seq::<RecV>::empty(), bv2) =~= seq![bv2]);
                        assert(seq![bv1] + seq![bv2] =~= seq![bv1, bv2]);
                    }
                    assert(seq![bv0] + seq![bv1, bv2] =~= seq![bv0, bv1, bv2]);
                }
                assert(st.recs(store.nodes()) == s3);
            }
        }
        Result::Ok(
            Db {
                next_id: st.next_id,
                idents: st.idents,
                store,
                eav: st.eav,
                ave: st.ave,
                aev: st.aev,
            },
        )
    }

    /// The ident map: which names denote which attribute entities.
    pub fn idents(&self) -> (r: &IdentMap)
        ensures
            *r == self.imap(),
    {
        &self.idents
    }

    /// The next entity id to be assigned.
    pub fn next_id(&self) -> (r: u64)
        ensures
            r as nat == self.nid(),
    {
        self.next_id
    }

    /// A copy of the backing store, as last committed.
    pub fn store(&self) -> (r: &HeapStore)
        ensures
            *r == self.spec_store(),
    {
        &self.store
    }

    /// The backing store.
    pub closed spec fn spec_store(&self) -> HeapStore {
        self.store
    }

    /// Save the db metadata (index root nodes, ident map, entity id state)
    /// to storage: the one mutable blob is atomically replaced.
    fn save_contents(&mut self)
        requires
            old(self).wf(),
        ensures
            final(self).wf(),
            *final(self) == (Db { store: final(self).store, ..*old(self) }),
            final(self).committed(),
            store_wf(final(self).spec_store()),
            final(self).records() == old(self).records(),
            final(self).records_avet() == old(self).records_avet(),
    {
        let contents = DbContents {
            next_id: self.next_id,
            idents: self.idents.clone(),
            eav: self.eav.root,
            ave: self.ave.root,
            aev: self.aev.root,
        };
        proof {
            reveal_strlit("db:ident");
            reveal_strlit("db:txInstant");
        }
        self.store.set_contents(contents);
    }

    /// The committed root blob names exactly the live state.
    pub closed spec fn committed(&self) -> bool {
        let c = self.store.spec_contents();
        &&& c.next_id == self.next_id
        &&& c.idents.iview() == self.idents.iview()
        &&& c.eav == self.eav.root
        &&& c.ave == self.ave.root
        &&& c.aev == self.aev.root
    }
}

/// Relies on std::time::SystemTime::now for the transaction instant;
/// nothing is assumed of the value, and a clock before the epoch reads as
/// zero.
#[verifier::external_body]
fn now_seconds() -> u64 {
    match std::time::SystemTime::now().duration_since(std::time::UNIX_EPOCH) {
        Ok(d) => d.as_secs(),
        Err(_) => 0,
    }
}

/// Sortedness of an index's contents, lifted from its well-formedness.
proof fn lemma_wf_sorted_index(ix: Index, nodes: Seq<NodeV>)
    requires
        ix.wf(nodes),
    ensures
        sorted_recs(ix.order, ix.contents(nodes)),
{
    match ix.root {
        Option::Some(r) => lemma_wf_sorted(nodes, r as int, ix.order),
        Option::None => {},
    }
}

/// The result set of a query: the variables asked for, and one binding set
/// per solution, in index scan order.
#[derive(Debug, PartialEq)]
pub struct QueryResult(pub Vec<Var>, pub Vec<Binding>);

/// The views of a clause list.
pub open spec fn clauses_view(cs: Seq<Clause>) -> Seq<ClauseV> {
    cs.map_values(|c: Clause| c@)
}

/// The views of a binding list.
pub open spec fn bindings_view(bs: Seq<Binding>) -> Seq<EnvV> {
    bs.map_values(|b: Binding| b@)
}

/// The records a clause matches under a binding, per the index-selection
/// table: a known attribute and value scan the AVET index; a known entity
/// and attribute scan the EAVT index; anything else is a full EAVT scan
/// filtered by the unifier. An unknown attribute name is an error, as is a
/// substitution that resolves a variable against its position's type.
pub open spec fn clause_records(
    im: IdentMap,
    eavt: Seq<RecV>,
    avet: Seq<RecV>,
    env: EnvV,
    c: ClauseV,
) -> Result<Seq<RecV>, ErrV> {
    match spec_substitute(env, c) {
        Result::Err(e) => Result::Err(e),
        Result::Ok(ec) => match (ec.e, ec.a, ec.v) {
            (TermV::U(_), TermV::B(a), TermV::B(v)) => match im.spec_entity(a) {
                Option::Some(attr) => Result::Ok(
                    filter_recs(avet, |rv: RecV| rv.a == attr && rv.v == v),
                ),
                Option::None => Result::Err(ErrV::InvalidAttribute(a)),
            },
            (TermV::B(e), TermV::B(a), TermV::U(_)) => match im.spec_entity(a) {
                Option::Some(attr) => Result::Ok(
                    filter_recs(eavt, |rv: RecV| rv.e == e && rv.a == attr),
                ),
                Option::None => Result::Err(ErrV::InvalidAttribute(a)),
            },
            _ => Result::Ok(filter_recs(eavt, |rv: RecV| spec_unify(im, env, c, rv) is Some)),
        },
    }
}

/// The bindings one clause yields from one environment over a record run:
/// for each matching record, the environment extended with the new
/// bindings.
pub open spec fn matches_of(im: IdentMap, env: EnvV, c: ClauseV, rs: Seq<RecV>) -> Seq<EnvV>
    decreases rs.len(),
{
    if rs.len() == 0 {
        Seq::empty()
    } else {
        let rest = matches_of(im, env, c, rs.drop_first());
        match spec_unify(im, env, c, rs[0]) {
            Option::Some(d) => seq![env_extend(env, d)] + rest,
            Option::None => rest,
        }
    }
}

/// One environment refined through one clause.
pub open spec fn eval_env(
    im: IdentMap,
    eavt: Seq<RecV>,
    avet: Seq<RecV>,
    c: ClauseV,
    env: EnvV,
) -> Result<Seq<EnvV>, ErrV> {
    match clause_records(im, eavt, avet, env, c) {
        Result::Err(e) => Result::Err(e),
        Result::Ok(rs) => Result::Ok(matches_of(im, env, c, rs)),
    }
}

/// Every environment refined through one clause, in order; the first
/// failure aborts.
pub open spec fn eval_envs(
    im: IdentMap,
    eavt: Seq<RecV>,
    avet: Seq<RecV>,
    c: ClauseV,
    envs: Seq<EnvV>,
) -> Result<Seq<EnvV>, ErrV>
    decreases envs.len(),
{
    if envs.len() == 0 {
        Result::Ok(Seq::empty())
    } else {
        match eval_env(im, eavt, avet, c, envs[0]) {
            Result::Err(e) => Result::Err(e),
            Result::Ok(hd) => match eval_envs(im, eavt, avet, c, envs.drop_first()) {
                Result::Err(e) => Result::Err(e),
                Result::Ok(tl) => Result::Ok(hd + tl),
            },
        }
    }
}

/// Iterative refinement: each clause in declaration order maps the current
/// environments to the next.
pub open spec fn eval_clauses(
    im: IdentMap,
    eavt: Seq<RecV>,
    avet: Seq<RecV>,
    cs: Seq<ClauseV>,
    envs: Seq<EnvV>,
) -> Result<Seq<EnvV>, ErrV>
    decreases cs.len(),
{
    if cs.len() == 0 {
        Result::Ok(envs)
    } else {
        match eval_envs(im, eavt, avet, cs[0], envs) {
            Result::Err(e) => Result::Err(e),
            Result::Ok(next) => eval_clauses(im, eavt, avet, cs.drop_first(), next),
        }
    }
}

/// Each solution projected onto the find list.
pub open spec fn project_all(envs: Seq<EnvV>, names: Seq<Seq<char>>) -> Seq<EnvV> {
    envs.map_values(|e: EnvV| env_project(e, names))
}

/// Filtering by a stronger predicate is insensitive to an earlier filter by
/// a weaker one.
proof fn lemma_filter_subsume(s: Seq<RecV>, p1: spec_fn(RecV) -> bool, p2: spec_fn(RecV) -> bool)
    requires
        forall|rv: RecV| #[trigger] p2(rv) ==> p1(rv),
    ensures
        filter_recs(filter_recs(s, p1), p2) == filter_recs(s, p2),
    decreases s.len(),
{
    if s.len() == 0 {
    } else {
        lemma_filter_subsume(s.drop_first(), p1, p2);
        if p1(s[0]) {
            let t = filter_recs(s.drop_first(), p1);
            assert(filter_recs(s, p1) == seq![s[0]] + t);
            assert((seq![s[0]] + t)[0] == s[0]);
            assert((seq![s[0]] + t).drop_first() =~= t);
        }
    }
}

impl Db {
    /// The records matching a clause under a binding, scanning the most
    /// selective index the clause's shape allows.
    pub fn records_matching(&self, clause: &Clause, binding: &Binding) -> (r: Result<
        Vec<Record>,
        Error,
    >)
        requires
            self.wf(),
        ensures
            match r {
                Result::Ok(v) => clause_records(
                    self.imap(),
                    self.records(),
                    self.records_avet(),
                    binding@,
                    clause@,
                ) == Result::Ok::<Seq<RecV>, ErrV>(recs_view(v@)),
                Result::Err(e) => clause_records(
                    self.imap(),
                    self.records(),
                    self.records_avet(),
                    binding@,
                    clause@,
                ) == Result::Err::<Seq<RecV>, ErrV>(e@),
            },
    {
        let expanded = match clause.substitute(binding) {
            Result::Ok(c) => c,
            Result::Err(e) => {
                return Result::Err(e);
            },
        };
        match (&expanded.entity, &expanded.attribute, &expanded.value) {
            // ?e a v: scan the AVET index from (0, a, v, 0)
            (Term::Unbound(_), Term::Bound(a), Term::Bound(v)) => {
                match self.idents.get_entity(a.as_str()) {
                    Option::Some(attr) => {
                        let range_start = Record::new(Entity(0), attr, v.clone(), Entity(0));
                        let scanned = self.ave.scan_range_from(&self.store, &range_start);
                        let ghost lower = range_start@;
                        let ghost attrn = attr.0 as nat;
                        let ghost vv = v@;
                        let out = filter_attr_value(scanned, attr, v);
                        proof {
                            let p1 = |rv: RecV| !rec_lt(IndexOrder::Avet, rv, lower);
                            let p2 = |rv: RecV| rv.a == attrn && rv.v == vv;
                            assert forall|rv: RecV| #[trigger] p2(rv) implies p1(rv) by {
                                assert(rec_lte(IndexOrder::Avet, lower, rv));
                                lemma_rec_lt_connected(IndexOrder::Avet, lower, rv);
                            }
                            lemma_filter_subsume(self.records_avet(), p1, p2);
                        }
                        Result::Ok(out)
                    },
                    Option::None => Result::Err(Error::InvalidAttribute(a.clone())),
                }
            },
            // e a ?v: scan the EAVT index from (e, a, "", 0); the empty
            // string is the least value of all
            (Term::Bound(e), Term::Bound(a), Term::Unbound(_)) => {
                match self.idents.get_entity(a.as_str()) {
                    Option::Some(attr) => {
                        let range_start = Record::new(
                            *e,
                            attr,
                            Value::String(String::new()),
                            Entity(0),
                        );
                        let scanned = self.eav.scan_range_from(&self.store, &range_start);
                        let ghost lower = range_start@;
                        let ghost en = e.0 as nat;
                        let ghost attrn = attr.0 as nat;
                        let out = filter_entity_attr(scanned, *e, attr);
                        proof {
                            let p1 = |rv: RecV| !rec_lt(IndexOrder::Eavt, rv, lower);
                            let p2 = |rv: RecV| rv.e == en && rv.a == attrn;
                            assert forall|rv: RecV| #[trigger] p2(rv) implies p1(rv) by {
                                assert(lower.v == ValV::Str(Seq::<char>::empty()));
                                crate::value::lemma_val_lt_connected(lower.v, rv.v);
                                assert(!crate::value::val_lt(rv.v, lower.v)) by {
                                    match rv.v {
                                        ValV::Str(sv) => {
                                            assert(!crate::value::str_lt(
                                                sv,
                                                Seq::<char>::empty(),
                                            ));
                                        },
                                        _ => {},
                                    }
                                }
                                assert(rec_lte(IndexOrder::Eavt, lower, rv));
                                lemma_rec_lt_connected(IndexOrder::Eavt, lower, rv);
                            }
                            lemma_filter_subsume(self.records(), p1, p2);
                        }
                        Result::Ok(out)
                    },
                    Option::None => Result::Err(Error::InvalidAttribute(a.clone())),
                }
            },
            // fallthrough: scan the whole EAVT index, filtered by the
            // unifier; correct for every clause shape, just slower
            _ => {
                let all = self.eav.scan(&self.store);
                let out = filter_unifiable(all, &self.idents, clause, binding);
                Result::Ok(out)
            },
        }
    }
}

/// Keep the records with the given attribute and value.
fn filter_attr_value(all: Vec<Record>, attr: Entity, v: &Value) -> (out: Vec<Record>)
    ensures
        recs_view(out@) == filter_recs(
            recs_view(all@),
            |rv: RecV| rv.a == attr.0 as nat && rv.v == v@,
        ),
{
    let ghost s = recs_view(all@);
    let ghost pred = |rv: RecV| rv.a == attr.0 as nat && rv.v == v@;
    let n = all.len();
    let mut out: Vec<Record> = Vec::new();
    let mut i: usize = 0;
    proof {
        assert(s.skip(0) =~= s);
        assert(recs_view(out@) =~= Seq::<RecV>::empty());
    }
    while i < n
        invariant
            i <= n,
            n == all@.len(),
            s == recs_view(all@),
            pred == (|rv: RecV| rv.a == attr.0 as nat && rv.v == v@),
            filter_recs(s, pred) =~= recs_view(out@) + filter_recs(s.skip(i as int), pred),
        decreases n - i,
    {
        let ghost out0 = out@;
        proof {
            assert(s.skip(i as int)[0] == s[i as int]);
            assert(s.skip(i as int).drop_first() =~= s.skip(i + 1));
        }
        if all[i].attribute.0 == attr.0 && crate::value::value_eq(&all[i].value, v) {
            out.push(all[i].clone());
            proof {
                crate::index::lemma_recs_view_push(out0, out@[out0.len() as int]);
                assert(out@ =~= out0.push(out@[out0.len() as int]));
                assert(recs_view(out@) =~= recs_view(out0) + seq![s[i as int]]);
            }
        }
        i = i + 1;
    }
    proof {
        assert(filter_recs(s.skip(n as int), pred) =~= Seq::<RecV>::empty());
        assert(recs_view(out@) + Seq::<RecV>::empty() =~= recs_view(out@));
    }
    out
}

/// Keep the records with the given entity and attribute.
fn filter_entity_attr(all: Vec<Record>, e: Entity, attr: Entity) -> (out: Vec<Record>)
    ensures
        recs_view(out@) == filter_recs(
            recs_view(all@),
            |rv: RecV| rv.e == e.0 as nat && rv.a == attr.0 as nat,
        ),
{
    let ghost s = recs_view(all@);
    let ghost pred = |rv: RecV| rv.e == e.0 as nat && rv.a == attr.0 as nat;
    let n = all.len();
    let mut out: Vec<Record> = Vec::new();
    let mut i: usize = 0;
    proof {
        assert(s.skip(0) =~= s);
        assert(recs_view(out@) =~= Seq::<RecV>::empty());
    }
    while i < n
        invariant
            i <= n,
            n == all@.len(),
            s == recs_view(all@),
            pred == (|rv: RecV| rv.e == e.0 as nat && rv.a == attr.0 as nat),
            filter_recs(s, pred) =~= recs_view(out@) + filter_recs(s.skip(i as int), pred),
        decreases n - i,
    {
        let ghost out0 = out@;
        proof {
            assert(s.skip(i as int)[0] == s[i as int]);
            assert(s.skip(i as int).drop_first() =~= s.skip(i + 1));
        }
        if all[i].entity.0 == e.0 && all[i].attribute.0 == attr.0 {
            out.push(all[i].clone());
            proof {
                crate::index::lemma_recs_view_push(out0, out@[out0.len() as int]);
                assert(out@ =~= out0.push(out@[out0.len() as int]));
                assert(recs_view(out@) =~= recs_view(out0) + seq![s[i as int]]);
            }
        }
        i = i + 1;
    }
    proof {
        assert(filter_recs(s.skip(n as int), pred) =~= Seq::<RecV>::empty());
        assert(recs_view(out@) + Seq::<RecV>::empty() =~= recs_view(out@));
    }
    out
}

/// Keep the records the unifier accepts under the binding.
fn filter_unifiable(all: Vec<Record>, idents: &IdentMap, clause: &Clause, binding: &Binding) -> (out:
    Vec<Record>)
    ensures
        recs_view(out@) == filter_recs(
            recs_view(all@),
            |rv: RecV| spec_unify(*idents, binding@, clause@, rv) is Some,
        ),
{
    let ghost s = recs_view(all@);
    let ghost pred = |rv: RecV| spec_unify(*idents, binding@, clause@, rv) is Some;
    let n = all.len();
    let mut out: Vec<Record> = Vec::new();
    let mut i: usize = 0;
    proof {
        assert(s.skip(0) =~= s);
        assert(recs_view(out@) =~= Seq::<RecV>::empty());
    }
    while i < n
        invariant
            i <= n,
            n == all@.len(),
            s == recs_view(all@),
            pred == (|rv: RecV| spec_unify(*idents, binding@, clause@, rv) is Some),
            filter_recs(s, pred) =~= recs_view(out@) + filter_recs(s.skip(i as int), pred),
        decreases n - i,
    {
        let ghost out0 = out@;
        proof {
            assert(s.skip(i as int)[0] == s[i as int]);
            assert(s.skip(i as int).drop_first() =~= s.skip(i + 1));
        }
        let keep = match unify(binding, idents, clause, &all[i]) {
            Option::Some(_) => true,
            Option::None => false,
        };
        if keep {
            out.push(all[i].clone());
            proof {
                crate::index::lemma_recs_view_push(out0, out@[out0.len() as int]);
                assert(out@ =~= out0.push(out@[out0.len() as int]));
                assert(recs_view(out@) =~= recs_view(out0) + seq![s[i as int]]);
            }
        }
        i = i + 1;
    }
    proof {
        assert(filter_recs(s.skip(n as int), pred) =~= Seq::<RecV>::empty());
        assert(recs_view(out@) + Seq::<RecV>::empty() =~= recs_view(out@));
    }
    out
}

impl Db {
    /// Apply a transaction: allocate its transaction entity, stamp it with
    /// the instant, apply every item in order, and commit atomically. On
    /// any failure nothing is installed and nothing is committed: the
    /// database and the committed contents are exactly as before.
    pub fn transact(&mut self, tx: Tx) -> (r: Result<TxReport, Error>)
        requires
            old(self).wf(),
            old(self).nid() + 2 * tx.items@.len() + 2 <= u64::MAX,
            forall|i: int|
                0 <= i < tx.items@.len() ==> ((#[trigger] tx.items@[i]) matches TxItem::Addition(f)
                    ==> f.entity.0 + 2 * tx.items@.len() + 2 <= u64::MAX),
        ensures
            final(self).wf(),
            match r {
                Result::Ok(report) => {
                    &&& (exists|now: nat|
                        {
                            &&& #[trigger] spec_transact(
                                db_state(*old(self)),
                                items_view(tx.items@),
                                now,
                            ) matches Result::Ok(res)
                            &&& final(self).records() == res.0.recs
                            &&& final(self).nid() as int == res.0.next_id
                            &&& final(self).imap().iview() == res.0.idents
                            &&& entities_view(report.new_entities@) == res.1
                        })
                    &&& old(self).nid() < final(self).nid()
                    &&& forall|k: int|
                        0 <= k < report.new_entities@.len() ==> old(self).nid() < ((
                        #[trigger] report.new_entities@[k]).0 as nat) && ((report.new_entities@[
                        k]).0 as nat) < final(self).nid()
                    &&& final(self).committed()
                    &&& store_wf(final(self).spec_store())
                    &&& (forall|rv: RecV|
                        old(self).records().contains(rv) ==> final(self).records().contains(rv))
                },
                Result::Err(e) => {
                    &&& (exists|now: nat|
                        #[trigger] spec_transact(db_state(*old(self)), items_view(tx.items@), now)
                            == Result::Err::<(TxState, Seq<nat>), ErrV>(e@))
                    &&& final(self).records() == old(self).records()
                    &&& final(self).records_avet() == old(self).records_avet()
                    &&& final(self).nid() == old(self).nid()
                    &&& final(self).imap() == old(self).imap()
                    &&& final(self).spec_store().spec_contents() == old(
                        self,
                    ).spec_store().spec_contents()
                    &&& (e@ is InvalidAttribute || e@ is TypeMismatch || e@ is Unimplemented)
                },
            },
    {
        let ghost nodes_entry = self.store.nodes();
        let mut st = Staged {
            next_id: self.next_id,
            idents: self.idents.clone(),
            eav: self.eav,
            ave: self.ave,
            aev: self.aev,
        };
        let mut new_entities: Vec<Entity> = Vec::new();
        let tx_entity = Entity(st.next_id);
        st.next_id = st.next_id + 1;
        let attr = match st.idents.get_entity("db:txInstant") {
            Option::Some(a) => a,
            Option::None => {
                proof {
                    assert(false);
                }
                Entity(0)
            },
        };
        let rec0 = Record::new(tx_entity, attr, Value::Timestamp(now_seconds()), tx_entity);
        let ghost rv0 = rec0@;
        let ghost nid0 = old(self).nid();
        let ghost st0v = db_state(*old(self));
        let ghost itemsv = items_view(tx.items@);
        let ghost now_v = rv0.v->Time_0;
        let ghost pre0 = st.tview(self.store.nodes());
        proof {
            // the staged state before the instant record is the spec's st1
            assert(pre0 == (TxState {
                next_id: st0v.next_id + 1,
                idents: st0v.idents,
                recs: st0v.recs,
            }));
            assert(rv0 == (RecV {
                e: nid0,
                a: attr.0 as nat,
                v: ValV::Time(now_v),
                t: nid0,
            }));
        }
        let r0 = stage_add(&mut self.store, &mut st, rec0);
        proof {
            // the fold agrees with the staged instant record
            assert(crate::ident::assoc_entity(st0v.idents, db_tx_instant_name()) == Option::Some(
                attr.0 as int,
            ));
            match &r0 {
                Result::Ok(()) => {
                    assert(spec_transact(st0v, itemsv, now_v) == spec_apply_items(
                        st.tview(self.store.nodes()),
                        itemsv,
                        nid0,
                    ));
                },
                Result::Err(e) => {
                    assert(spec_transact(st0v, itemsv, now_v) == Result::Err::<
                        (TxState, Seq<nat>),
                        ErrV,
                    >(e@));
                },
            }
        }
        if let Result::Err(e) = r0 {
            proof {
                lemma_tx_abort(*old(self), *self, nodes_entry);
            }
            return Result::Err(e);
        }
        proof {
            lemma_wf_sorted_index(old(self).eav, nodes_entry);
            crate::index::lemma_insert_keeps(IndexOrder::Eavt, old(self).records(), rv0);
            assert(itemsv.skip(0) =~= itemsv);
            assert(entities_view(Seq::<Entity>::empty()) =~= Seq::<nat>::empty());
        }
        let items_len = tx.items.len();
        let mut i: usize = 0;
        while i < items_len
            invariant
                i <= items_len,
                items_len == tx.items@.len(),
                old(self).wf(),
                nodes_entry == old(self).spec_store().nodes(),
                st.wf(self.store.nodes()),
                nodes_entry.len() <= self.store.nodes().len(),
                forall|k: int|
                    0 <= k < nodes_entry.len() ==> self.store.nodes()[k] == nodes_entry[k],
                self.store.spec_contents() == old(self).spec_store().spec_contents(),
                self.eav == old(self).eav && self.ave == old(self).ave && self.aev == old(
                    self,
                ).aev,
                self.next_id == old(self).next_id && self.idents == old(self).idents,
                old(self).eav.wf(nodes_entry) && old(self).ave.wf(nodes_entry) && old(
                    self,
                ).aev.wf(nodes_entry),
                old(self).eav.order == IndexOrder::Eavt && old(self).ave.order == IndexOrder::Avet
                    && old(self).aev.order == IndexOrder::Aevt,
                nid0 == old(self).nid(),
                tx_entity.0 as nat == nid0,
                nid0 < st.next_id as nat,
                st.next_id as nat + 2 * (items_len - i) <= u64::MAX,
                forall|j: int|
                    0 <= j < tx.items@.len() ==> ((#[trigger] tx.items@[j])
                        matches TxItem::Addition(f) ==> f.entity.0 + 2 * (items_len - i)
                        <= u64::MAX),
                forall|k: int|
                    0 <= k < new_entities@.len() ==> nid0 < ((#[trigger] new_entities@[k]).0
                        as nat) && ((new_entities@[k]).0 as nat) < st.next_id as nat,
                forall|rv: RecV|
                    old(self).records().contains(rv) ==> st.recs(self.store.nodes()).contains(rv),
                st.idents.spec_entity(db_tx_instant_name()) is Some,
                st0v == db_state(*old(self)),
                itemsv == items_view(tx.items@),
                spec_transact(st0v, itemsv, now_v) == (match spec_apply_items(
                    st.tview(self.store.nodes()),
                    itemsv.skip(i as int),
                    nid0,
                ) {
                    Result::Ok(res) => Result::Ok::<(TxState, Seq<nat>), ErrV>(
                        (res.0, entities_view(new_entities@) + res.1),
                    ),
                    Result::Err(er) => Result::Err::<(TxState, Seq<nat>), ErrV>(er),
                }),
            decreases items_len - i,
        {
            let item = &tx.items[i];
            proof {
                assert(itemsv.skip(i as int)[0] == itemsv[i as int]);
                assert(itemsv[i as int] == tx.items@[i as int]@);
                assert(itemsv.skip(i as int).drop_first() =~= itemsv.skip(i + 1));
            }
            match item {
                TxItem::Addition(f) => {
                    proof {
                        assert(itemsv[i as int] == TxItemV::Add(f@));
                    }
                    let fattr = match st.idents.get_entity(f.attribute.as_str()) {
                        Option::Some(a) => a,
                        Option::None => {
                            proof {
                                assert(spec_apply_fact(
                                    st.tview(self.store.nodes()),
                                    f@,
                                    nid0,
                                ) == Result::Err::<TxState, ErrV>(
                                    ErrV::InvalidAttribute(f.attribute@),
                                ));
                                lemma_tx_abort(*old(self), *self, nodes_entry);
                            }
                            return Result::Err(Error::InvalidAttribute(f.attribute.clone()));
                        },
                    };
                    let rec = Record::new(f.entity, fattr, f.value.clone(), tx_entity);
                    let ghost pre = st.recs(self.store.nodes());
                    let ghost rvx = rec@;
                    proof {
                        lemma_wf_sorted_index(st.eav, self.store.nodes());
                        assert(spec_apply_fact(st.tview(self.store.nodes()), f@, nid0) == spec_add(
                            st.tview(self.store.nodes()),
                            rvx,
                        ));
                    }
                    match stage_add(&mut self.store, &mut st, rec) {
                        Result::Ok(()) => {
                            proof {
                                crate::index::lemma_insert_keeps(IndexOrder::Eavt, pre, rvx);
                            }
                        },
                        Result::Err(e) => {
                            proof {
                                lemma_tx_abort(*old(self), *self, nodes_entry);
                            }
                            return Result::Err(e);
                        },
                    }
                },
                TxItem::NewEntity(pairs) => {
                    let ghost pairsv = pairs@.map_values(|p: (String, Value)| (p.0@, p.1@));
                    let ghost st_pre = st.tview(self.store.nodes());
                    proof {
                        assert(itemsv[i as int] == TxItemV::New(pairsv));
                    }
                    let entity = Entity(st.next_id);
                    st.next_id = st.next_id + 1;
                    let ghost st_one = st.tview(self.store.nodes());
                    proof {
                        assert(st_one == (TxState {
                            next_id: st_pre.next_id + 1,
                            idents: st_pre.idents,
                            recs: st_pre.recs,
                        }));
                        assert(pairsv.skip(0) =~= pairsv);
                    }
                    let pairs_len = pairs.len();
                    let mut j: usize = 0;
                    while j < pairs_len
                        invariant
                            j <= pairs_len,
                            pairs_len == pairs@.len(),
                            old(self).wf(),
                            nodes_entry == old(self).spec_store().nodes(),
                            st.wf(self.store.nodes()),
                            nodes_entry.len() <= self.store.nodes().len(),
                            forall|k: int|
                                0 <= k < nodes_entry.len() ==> self.store.nodes()[k]
                                    == nodes_entry[k],
                            self.store.spec_contents() == old(
                                self,
                            ).spec_store().spec_contents(),
                            self.eav == old(self).eav && self.ave == old(self).ave && self.aev
                                == old(self).aev,
                            self.next_id == old(self).next_id && self.idents == old(self).idents,
                            old(self).eav.wf(nodes_entry) && old(self).ave.wf(nodes_entry) && old(
                                self,
                            ).aev.wf(nodes_entry),
                            old(self).eav.order == IndexOrder::Eavt && old(self).ave.order
                                == IndexOrder::Avet && old(self).aev.order == IndexOrder::Aevt,
                            nid0 == old(self).nid(),
                            tx_entity.0 as nat == nid0,
                            entity.0 < st.next_id,
                            nid0 <= entity.0 as nat,
                            st.next_id as nat + 2 * (items_len - i) - 1 <= u64::MAX,
                            forall|rv: RecV|
                                old(self).records().contains(rv) ==> st.recs(
                                    self.store.nodes(),
                                ).contains(rv),
                            st.idents.spec_entity(db_tx_instant_name()) is Some,
                            st.next_id == entity.0 + 1,
                            st0v == db_state(*old(self)),
                            itemsv == items_view(tx.items@),
                            i < itemsv.len(),
                            itemsv[i as int] == TxItemV::New(pairsv),
                            pairsv == pairs@.map_values(|p: (String, Value)| (p.0@, p.1@)),
                            itemsv.skip(i as int).drop_first() =~= itemsv.skip(i + 1),
                            itemsv.skip(i as int)[0] == itemsv[i as int],
                            st_pre.next_id == entity.0 as int,
                            spec_transact(st0v, itemsv, now_v) == (match spec_apply_items(
                                st_pre,
                                itemsv.skip(i as int),
                                nid0,
                            ) {
                                Result::Ok(res) => Result::Ok::<(TxState, Seq<nat>), ErrV>(
                                    (res.0, entities_view(new_entities@) + res.1),
                                ),
                                Result::Err(er) => Result::Err::<(TxState, Seq<nat>), ErrV>(er),
                            }),
                            st_one == (TxState {
                                next_id: st_pre.next_id + 1,
                                idents: st_pre.idents,
                                recs: st_pre.recs,
                            }),
                            spec_apply_pairs(st_one, entity.0 as nat, pairsv, nid0) == (
                            match spec_apply_pairs(
                                st.tview(self.store.nodes()),
                                entity.0 as nat,
                                pairsv.skip(j as int),
                                nid0,
                            ) {
                                Result::Ok(st2) => Result::Ok::<TxState, ErrV>(st2),
                                Result::Err(er) => Result::Err::<TxState, ErrV>(er),
                            }),
                        decreases pairs_len - j,
                    {
                        proof {
                            assert(pairsv.skip(j as int)[0] == pairsv[j as int]);
                            assert(pairsv[j as int] == (pairs@[j as int].0@, pairs@[
                                j as int].1@));
                            assert(pairsv.skip(j as int).drop_first() =~= pairsv.skip(j + 1));
                        }
                        let fattr = match st.idents.get_entity(pairs[j].0.as_str()) {
                            Option::Some(a) => a,
                            Option::None => {
                                proof {
                                    assert(spec_apply_fact(
                                        st.tview(self.store.nodes()),
                                        FactV {
                                            e: entity.0 as nat,
                                            a: pairsv[j as int].0,
                                            v: pairsv[j as int].1,
                                        },
                                        nid0,
                                    ) == Result::Err::<TxState, ErrV>(
                                        ErrV::InvalidAttribute(pairs@[j as int].0@),
                                    ));
                                    lemma_tx_abort(*old(self), *self, nodes_entry);
                                }
                                return Result::Err(
                                    Error::InvalidAttribute(pairs[j].0.clone()),
                                );
                            },
                        };
                        let rec = Record::new(entity, fattr, pairs[j].1.clone(), tx_entity);
                        let ghost pre = st.recs(self.store.nodes());
                        let ghost rvx = rec@;
                        proof {
                            lemma_wf_sorted_index(st.eav, self.store.nodes());
                            assert(spec_apply_fact(
                                st.tview(self.store.nodes()),
                                FactV {
                                    e: entity.0 as nat,
                                    a: pairsv[j as int].0,
                                    v: pairsv[j as int].1,
                                },
                                nid0,
                            ) == spec_add(st.tview(self.store.nodes()), rvx));
                        }
                        match stage_add(&mut self.store, &mut st, rec) {
                            Result::Ok(()) => {
                                proof {
                                    crate::index::lemma_insert_keeps(IndexOrder::Eavt, pre, rvx);
                                }
                            },
                            Result::Err(e) => {
                                proof {
                                    lemma_tx_abort(*old(self), *self, nodes_entry);
                                }
                                return Result::Err(e);
                            },
                        }
                        j = j + 1;
                    }
                    proof {
                        assert(pairsv.skip(pairs_len as int).len() == 0);
                        assert(spec_apply_pairs(st_one, entity.0 as nat, pairsv, nid0)
                            == Result::Ok::<TxState, ErrV>(st.tview(self.store.nodes())));
                    }
                    let ghost ne0 = new_entities@;
                    new_entities.push(entity);
                    proof {
                        assert(entities_view(new_entities@) =~= entities_view(ne0).push(
                            entity.0 as nat,
                        ));
                        assert(entities_view(ne0).push(entity.0 as nat) =~= entities_view(ne0)
                            + seq![entity.0 as nat]);
                        let rest = spec_apply_items(
                            st.tview(self.store.nodes()),
                            itemsv.skip(i + 1),
                            nid0,
                        );
                        if rest is Ok {
                            assert(entities_view(ne0) + (seq![entity.0 as nat] + rest->Ok_0.1)
                                =~= (entities_view(ne0) + seq![entity.0 as nat]) + rest->Ok_0.1);
                        }
                    }
                },
                TxItem::Retraction(_) => {
                    proof {
                        lemma_tx_abort(*old(self), *self, nodes_entry);
                    }
                    return Result::Err(Error::Unimplemented);
                },
            }
            i = i + 1;
        }
        // every item succeeded: install the staged state and commit
        self.next_id = st.next_id;
        self.idents = st.idents;
        self.eav = st.eav;
        self.ave = st.ave;
        self.aev = st.aev;
        self.save_contents();
        Result::Ok(TxReport { new_entities })
    }
}

impl Db {
    /// Evaluate a query against the current snapshot: refine the singleton
    /// empty binding through each clause in order, then project each
    /// solution onto the find list. Queries never mutate state.
    pub fn query(&self, query: &Query) -> (r: Result<QueryResult, Error>)
        requires
            self.wf(),
        ensures
            match r {
                Result::Ok(qr) => {
                    &&& eval_clauses(
                        self.imap(),
                        self.records(),
                        self.records_avet(),
                        clauses_view(query.clauses@),
                        seq![Seq::<(Seq<char>, ValV)>::empty()],
                    ) matches Result::Ok(envs) && bindings_view(qr.1@) == project_all(
                        envs,
                        vars_view(query.find@),
                    )
                    &&& vars_view(qr.0@) == vars_view(query.find@)
                },
                Result::Err(e) => eval_clauses(
                    self.imap(),
                    self.records(),
                    self.records_avet(),
                    clauses_view(query.clauses@),
                    seq![Seq::<(Seq<char>, ValV)>::empty()],
                ) == Result::Err::<Seq<EnvV>, ErrV>(e@),
            },
    {
        let ghost im = self.imap();
        let ghost eavt = self.records();
        let ghost avet = self.records_avet();
        let ghost cs = clauses_view(query.clauses@);
        let ghost init = seq![Seq::<(Seq<char>, ValV)>::empty()];
        let mut bindings: Vec<Binding> = Vec::new();
        bindings.push(Binding::new());
        proof {
            assert(bindings_view(bindings@) =~= init);
            assert(cs.skip(0) =~= cs);
        }
        let ncl = query.clauses.len();
        let mut ci: usize = 0;
        while ci < ncl
            invariant
                ci <= ncl,
                ncl == query.clauses@.len(),
                self.wf(),
                im == self.imap(),
                eavt == self.records(),
                avet == self.records_avet(),
                cs == clauses_view(query.clauses@),
                init == seq![Seq::<(Seq<char>, ValV)>::empty()],
                eval_clauses(im, eavt, avet, cs, init) == eval_clauses(
                    im,
                    eavt,
                    avet,
                    cs.skip(ci as int),
                    bindings_view(bindings@),
                ),
            decreases ncl - ci,
        {
            let ghost cv = query.clauses@[ci as int]@;
            proof {
                assert(cs.skip(ci as int)[0] == cv);
                assert(cs.skip(ci as int).drop_first() =~= cs.skip(ci + 1));
            }
            let mut new_bindings: Vec<Binding> = Vec::new();
            let nb = bindings.len();
            let mut bi: usize = 0;
            proof {
                assert(bindings_view(bindings@).skip(0) =~= bindings_view(bindings@));
                assert(bindings_view(new_bindings@) =~= Seq::<EnvV>::empty());
            }
            while bi < nb
                invariant
                    bi <= nb,
                    nb == bindings@.len(),
                    self.wf(),
                    im == self.imap(),
                    eavt == self.records(),
                    avet == self.records_avet(),
                    cv == query.clauses@[ci as int]@,
                    ci < query.clauses@.len(),
                    cs == clauses_view(query.clauses@),
                    init == seq![Seq::<(Seq<char>, ValV)>::empty()],
                    eval_clauses(im, eavt, avet, cs, init) == eval_clauses(
                        im,
                        eavt,
                        avet,
                        cs.skip(ci as int),
                        bindings_view(bindings@),
                    ),
                    eval_envs(im, eavt, avet, cv, bindings_view(bindings@)) == (match eval_envs(
                        im,
                        eavt,
                        avet,
                        cv,
                        bindings_view(bindings@).skip(bi as int),
                    ) {
                        Result::Ok(tl) => Result::Ok::<Seq<EnvV>, ErrV>(
                            bindings_view(new_bindings@) + tl,
                        ),
                        Result::Err(e) => Result::Err::<Seq<EnvV>, ErrV>(e),
                    }),
                decreases nb - bi,
            {
                let ghost env = bindings@[bi as int]@;
                proof {
                    assert(bindings_view(bindings@).skip(bi as int)[0] == env);
                    assert(bindings_view(bindings@).skip(bi as int).drop_first() =~= bindings_view(
                        bindings@,
                    ).skip(bi + 1));
                }
                let rs = match self.records_matching(&query.clauses[ci], &bindings[bi]) {
                    Result::Ok(rs) => rs,
                    Result::Err(e) => {
                        proof {
                            assert(eval_env(im, eavt, avet, cv, env) == Result::Err::<
                                Seq<EnvV>,
                                ErrV,
                            >(e@));
                            assert(eval_envs(
                                im,
                                eavt,
                                avet,
                                cv,
                                bindings_view(bindings@).skip(bi as int),
                            ) == Result::Err::<Seq<EnvV>, ErrV>(e@));
                            assert(eval_envs(im, eavt, avet, cv, bindings_view(bindings@))
                                == Result::Err::<Seq<EnvV>, ErrV>(e@));
                            let tail = cs.skip(ci as int);
                            assert(tail[0] == cs[ci as int]);
                            assert(cs[ci as int] == query.clauses@[ci as int]@);
                            assert(tail.len() > 0 && tail[0] == cv);
                            assert(eval_clauses(im, eavt, avet, tail, bindings_view(bindings@)) == (
                            match eval_envs(im, eavt, avet, tail[0], bindings_view(bindings@)) {
                                Result::Err(e2) => Result::Err::<Seq<EnvV>, ErrV>(e2),
                                Result::Ok(next) => eval_clauses(
                                    im,
                                    eavt,
                                    avet,
                                    tail.drop_first(),
                                    next,
                                ),
                            }));
                        }
                        return Result::Err(e);
                    },
                };
                let ghost rsv = recs_view(rs@);
                let nr = rs.len();
                let mut ri: usize = 0;
                let ghost nb0 = bindings_view(new_bindings@);
                proof {
                    assert(rsv.skip(0) =~= rsv);
                }
                while ri < nr
                    invariant
                        ri <= nr,
                        nr == rs@.len(),
                        rsv == recs_view(rs@),
                        im == self.imap(),
                        env == bindings@[bi as int]@,
                        bi < bindings@.len(),
                        cv == query.clauses@[ci as int]@,
                        ci < query.clauses@.len(),
                        nb0 + matches_of(im, env, cv, rsv) =~= bindings_view(new_bindings@)
                            + matches_of(im, env, cv, rsv.skip(ri as int)),
                    decreases nr - ri,
                {
                    proof {
                        assert(rsv.skip(ri as int)[0] == rsv[ri as int]);
                        assert(rsv.skip(ri as int).drop_first() =~= rsv.skip(ri + 1));
                    }
                    match unify(&bindings[bi], &self.idents, &query.clauses[ci], &rs[ri]) {
                        Option::Some(d) => {
                            let mut new_env = bindings[bi].clone();
                            new_env.extend(&d);
                            let ghost nbv0 = bindings_view(new_bindings@);
                            let ghost nev = new_env@;
                            new_bindings.push(new_env);
                            proof {
                                assert(bindings_view(new_bindings@) =~= nbv0.push(nev));
                                assert(nbv0.push(nev) =~= nbv0 + seq![nev]);
                                assert(nb0 + matches_of(im, env, cv, rsv) =~= bindings_view(
                                    new_bindings@,
                                ) + matches_of(im, env, cv, rsv.skip(ri + 1)));
                            }
                        },
                        Option::None => {},
                    }
                    ri = ri + 1;
                }
                proof {
                    assert(matches_of(im, env, cv, rsv.skip(nr as int)) =~= Seq::<EnvV>::empty());
                    assert(nb0 + matches_of(im, env, cv, rsv) =~= bindings_view(new_bindings@));
                    assert(eval_env(im, eavt, avet, cv, env) == Result::Ok::<Seq<EnvV>, ErrV>(
                        matches_of(im, env, cv, rsv),
                    ));
                    let tl = eval_envs(
                        im,
                        eavt,
                        avet,
                        cv,
                        bindings_view(bindings@).skip(bi + 1),
                    );
                    if tl is Ok {
                        assert(nb0 + (matches_of(im, env, cv, rsv) + tl->Ok_0) =~= (nb0
                            + matches_of(im, env, cv, rsv)) + tl->Ok_0);
                    }
                }
                bi = bi + 1;
            }
            proof {
                assert(bindings_view(bindings@).skip(nb as int).len() == 0);
                assert(eval_envs(im, eavt, avet, cv, bindings_view(bindings@).skip(nb as int))
                    == Result::Ok::<Seq<EnvV>, ErrV>(Seq::<EnvV>::empty()));
                assert(bindings_view(new_bindings@) + Seq::<EnvV>::empty() =~= bindings_view(
                    new_bindings@,
                ));
            }
            bindings = new_bindings;
            ci = ci + 1;
        }
        proof {
            assert(cs.skip(ncl as int).len() == 0);
        }
        // project each solution onto the find list
        let ghost names = vars_view(query.find@);
        let mut results: Vec<Binding> = Vec::new();
        let nfin = bindings.len();
        let mut k: usize = 0;
        proof {
            assert(bindings_view(results@) =~= project_all(
                bindings_view(bindings@).take(0),
                names,
            ));
        }
        while k < nfin
            invariant
                k <= nfin,
                nfin == bindings@.len(),
                names == vars_view(query.find@),
                bindings_view(results@) =~= project_all(
                    bindings_view(bindings@).take(k as int),
                    names,
                ),
            decreases nfin - k,
        {
            let ghost res0 = bindings_view(results@);
            let pb = bindings[k].project(&query.find);
            let ghost pbv = pb@;
            results.push(pb);
            proof {
                assert(bindings_view(results@) =~= res0.push(pbv));
                assert(bindings_view(bindings@).take(k + 1) =~= bindings_view(bindings@).take(
                    k as int,
                ).push(bindings@[k as int]@));
                assert(project_all(bindings_view(bindings@).take(k + 1), names) =~= project_all(
                    bindings_view(bindings@).take(k as int),
                    names,
                ).push(env_project(bindings@[k as int]@, names)));
            }
            k = k + 1;
        }
        let found = clone_vars(&query.find);
        proof {
            assert(bindings_view(bindings@).take(nfin as int) =~= bindings_view(bindings@));
        }
        Result::Ok(QueryResult(found, results))
    }
}

/// A copy of a variable list, names preserved.
fn clone_vars(vs: &Vec<Var>) -> (out: Vec<Var>)
    ensures
        vars_view(out@) == vars_view(vs@),
{
    let n = vs.len();
    let mut out: Vec<Var> = Vec::new();
    let mut i: usize = 0;
    while i < n
        invariant
            i <= n,
            n == vs@.len(),
            out@.len() == i,
            forall|j: int| 0 <= j < i ==> (#[trigger] out@[j])@ == vs@[j]@,
        decreases n - i,
    {
        out.push(vs[i].clone());
        i = i + 1;
    }
    proof {
        assert(vars_view(out@) =~= vars_view(vs@));
    }
    out
}

/// Every entity id and transaction id on a stored record lies strictly
/// below the next id to be assigned.
pub proof fn lemma_ids_below_next(db: &Db)
    requires
        db.wf(),
    ensures
        forall|i: int|
            0 <= i < db.records().len() ==> (#[trigger] db.records()[i]).e < db.nid()
                && db.records()[i].t < db.nid(),
{
}

/// A store location: which backend a URI names, and the address within it.
#[derive(Debug, PartialEq, Eq)]
pub enum StoreUri {
    Mem,
    Sqlite(String),
    Cassandra(String),
}

/// The model of a store location.
pub enum StoreUriV {
    Mem,
    Sqlite(Seq<char>),
    Cassandra(Seq<char>),
}

impl View for StoreUri {
    type V = StoreUriV;

    open spec fn view(&self) -> StoreUriV {
        match self {
            StoreUri::Mem => StoreUriV::Mem,
            StoreUri::Sqlite(p) => StoreUriV::Sqlite(p@),
            StoreUri::Cassandra(c) => StoreUriV::Cassandra(c@),
        }
    }
}

/// The scheme a URI names: the in-memory store, an embedded SQL file at a
/// path, or a wide-column cluster at a contact point; the payload is the
/// text after the scheme. Anything else is no store URI.
pub open spec fn spec_store_uri(s: Seq<char>) -> Option<StoreUriV> {
    if s.len() >= "logos:mem://"@.len() && s.subrange(0, "logos:mem://"@.len() as int)
        == "logos:mem://"@ {
        Option::Some(StoreUriV::Mem)
    } else if s.len() >= "logos:sqlite://"@.len() && s.subrange(
        0,
        "logos:sqlite://"@.len() as int,
    ) == "logos:sqlite://"@ {
        Option::Some(StoreUriV::Sqlite(s.skip("logos:sqlite://"@.len() as int)))
    } else if s.len() >= "logos:cass://"@.len() && s.subrange(0, "logos:cass://"@.len() as int)
        == "logos:cass://"@ {
        Option::Some(StoreUriV::Cassandra(s.skip("logos:cass://"@.len() as int)))
    } else {
        Option::None
    }
}

/// Decide which backend a store URI names; `InvalidUri` exactly when no
/// scheme matches.
pub fn parse_store_uri(uri: &str) -> (r: Result<StoreUri, Error>)
    ensures
        match r {
            Result::Ok(u) => spec_store_uri(uri@) == Option::Some(u@),
            Result::Err(e) => e@ is InvalidUri && spec_store_uri(uri@) is None,
        },
{
    let cs = crate::parser::to_chars(uri);
    proof {
        reveal_strlit("logos:mem://");
        reveal_strlit("logos:sqlite://");
        reveal_strlit("logos:cass://");
        assert("logos:mem://"@.len() == 12);
        assert("logos:sqlite://"@.len() == 15);
        assert("logos:cass://"@.len() == 13);
    }
    if prefix_matches(&cs, "logos:mem://") {
        return Result::Ok(StoreUri::Mem);
    }
    if prefix_matches(&cs, "logos:sqlite://") {
        let rest = crate::parser::string_from_chars(&cs, 15, cs.len());
        proof {
            assert(cs@.subrange(15, cs@.len() as int) =~= uri@.skip(15));
        }
        return Result::Ok(StoreUri::Sqlite(rest));
    }
    if prefix_matches(&cs, "logos:cass://") {
        let rest = crate::parser::string_from_chars(&cs, 13, cs.len());
        proof {
            assert(cs@.subrange(13, cs@.len() as int) =~= uri@.skip(13));
        }
        return Result::Ok(StoreUri::Cassandra(rest));
    }
    Result::Err(Error::InvalidUri)
}

/// Whether the characters start with the given word.
fn prefix_matches(cs: &Vec<char>, w: &str) -> (r: bool)
    ensures
        r == (cs@.len() >= w@.len() && cs@.subrange(0, w@.len() as int) == w@),
{
    let n = w.unicode_len();
    if cs.len() < n {
        return false;
    }
    let mut k: usize = 0;
    while k < n
        invariant
            k <= n,
            n == w@.len(),
            n <= cs@.len(),
            forall|m: int| 0 <= m < k ==> cs@[m] == w@[m],
        decreases n - k,
    {
        if cs[k] != w.get_char(k) {
            proof {
                if cs@.subrange(0, n as int) == w@ {
                    assert(cs@.subrange(0, n as int)[k as int] == w@[k as int]);
                }
            }
            return false;
        }
        k = k + 1;
    }
    proof {
        assert(cs@.subrange(0, n as int) =~= w@);
    }
    true
}

/// Two pointwise-equal predicates filter alike.
proof fn lemma_filter_cong(s: Seq<RecV>, p1: spec_fn(RecV) -> bool, p2: spec_fn(RecV) -> bool)
    requires
        forall|rv: RecV| #[trigger] p1(rv) == p2(rv),
    ensures
        filter_recs(s, p1) == filter_recs(s, p2),
    decreases s.len(),
{
    if s.len() > 0 {
        lemma_filter_cong(s.drop_first(), p1, p2);
    }
}

/// Unification reads the ident map only through its bindings.
proof fn lemma_unify_cong(im1: IdentMap, im2: IdentMap, env: EnvV, c: ClauseV, r: RecV)
    requires
        im1.iview() == im2.iview(),
    ensures
        spec_unify(im1, env, c, r) == spec_unify(im2, env, c, r),
{
}

/// So does matching a clause over a record run.
proof fn lemma_matches_cong(im1: IdentMap, im2: IdentMap, env: EnvV, c: ClauseV, rs: Seq<RecV>)
    requires
        im1.iview() == im2.iview(),
    ensures
        matches_of(im1, env, c, rs) == matches_of(im2, env, c, rs),
    decreases rs.len(),
{
    if rs.len() > 0 {
        lemma_unify_cong(im1, im2, env, c, rs[0]);
        lemma_matches_cong(im1, im2, env, c, rs.drop_first());
    }
}

/// And selecting the records a clause matches.
proof fn lemma_clause_records_cong(
    im1: IdentMap,
    im2: IdentMap,
    eavt: Seq<RecV>,
    avet: Seq<RecV>,
    env: EnvV,
    c: ClauseV,
)
    requires
        im1.iview() == im2.iview(),
    ensures
        clause_records(im1, eavt, avet, env, c) == clause_records(im2, eavt, avet, env, c),
{
    match spec_substitute(env, c) {
        Result::Err(_) => {},
        Result::Ok(ec) => match (ec.e, ec.a, ec.v) {
            (TermV::U(_), TermV::B(a), TermV::B(v)) => {},
            (TermV::B(e), TermV::B(a), TermV::U(_)) => {},
            _ => {
                let p1 = |rv: RecV| spec_unify(im1, env, c, rv) is Some;
                let p2 = |rv: RecV| spec_unify(im2, env, c, rv) is Some;
                assert forall|rv: RecV| #[trigger] p1(rv) == p2(rv) by {
                    lemma_unify_cong(im1, im2, env, c, rv);
                }
                lemma_filter_cong(eavt, p1, p2);
            },
        },
    }
}

/// And the evaluation of whole queries: the answers are a function of the
/// records, the ident bindings, and the query alone.
pub proof fn lemma_eval_clauses_cong(
    im1: IdentMap,
    im2: IdentMap,
    eavt: Seq<RecV>,
    avet: Seq<RecV>,
    cs: Seq<ClauseV>,
    envs: Seq<EnvV>,
)
    requires
        im1.iview() == im2.iview(),
    ensures
        eval_clauses(im1, eavt, avet, cs, envs) == eval_clauses(im2, eavt, avet, cs, envs),
    decreases cs.len(),
{
    if cs.len() > 0 {
        lemma_eval_envs_cong(im1, im2, eavt, avet, cs[0], envs);
        match eval_envs(im1, eavt, avet, cs[0], envs) {
            Result::Err(_) => {},
            Result::Ok(next) => {
                lemma_eval_clauses_cong(im1, im2, eavt, avet, cs.drop_first(), next);
            },
        }
    }
}

proof fn lemma_eval_envs_cong(
    im1: IdentMap,
    im2: IdentMap,
    eavt: Seq<RecV>,
    avet: Seq<RecV>,
    c: ClauseV,
    envs: Seq<EnvV>,
)
    requires
        im1.iview() == im2.iview(),
    ensures
        eval_envs(im1, eavt, avet, c, envs) == eval_envs(im2, eavt, avet, c, envs),
    decreases envs.len(),
{
    if envs.len() > 0 {
        lemma_clause_records_cong(im1, im2, eavt, avet, envs[0], c);
        match clause_records(im1, eavt, avet, envs[0], c) {
            Result::Err(_) => {},
            Result::Ok(rs) => {
                lemma_matches_cong(im1, im2, envs[0], c, rs);
            },
        }
        lemma_eval_envs_cong(im1, im2, eavt, avet, c, envs.drop_first());
    }
}

/// Reload idempotence: two databases holding one transactional view — the
/// same records under each order and the same ident bindings — evaluate
/// every query to the same answer. Together with the contract of `Db::new`
/// on an already-written store, a database reloaded from its committed
/// contents answers every query as the one that wrote them.
pub proof fn lemma_same_view_same_answers(db1: &Db, db2: &Db, cs: Seq<ClauseV>, envs: Seq<EnvV>)
    requires
        db1.records() == db2.records(),
        db1.records_avet() == db2.records_avet(),
        db1.imap().iview() == db2.imap().iview(),
    ensures
        eval_clauses(db1.imap(), db1.records(), db1.records_avet(), cs, envs) == eval_clauses(
            db2.imap(),
            db2.records(),
            db2.records_avet(),
            cs,
            envs,
        ),
{
    lemma_eval_clauses_cong(
        db1.imap(),
        db2.imap(),
        db1.records(),
        db1.records_avet(),
        cs,
        envs,
    );
}

/// Index agreement: for all inserted records, full scans of the three
/// indexes yield one and the same multiset of records.
pub proof fn lemma_index_agreement(db: &Db)
    requires
        db.wf(),
    ensures
        db.records().to_multiset() == db.records_avet().to_multiset(),
        db.records().to_multiset() == db.records_aevt().to_multiset(),
{
}

/// Ordering: within each index, any two records in scan order are strictly
/// increasing under that index's order — in particular every pair of
/// consecutive records is.
pub proof fn lemma_index_ordering(db: &Db)
    requires
        db.wf(),
    ensures
        sorted_recs(IndexOrder::Eavt, db.records()),
        sorted_recs(IndexOrder::Avet, db.records_avet()),
        sorted_recs(IndexOrder::Aevt, db.records_aevt()),
{
    lemma_wf_sorted_index(db.eav, db.spec_store().nodes());
    lemma_wf_sorted_index(db.ave, db.spec_store().nodes());
    lemma_wf_sorted_index(db.aev, db.spec_store().nodes());
}

/// A transaction that aborts leaves the database exactly as it was: the
/// staged state is discarded, and only unreachable nodes were added.
proof fn lemma_tx_abort(db0: Db, db1: Db, nodes_entry: Seq<NodeV>)
    requires
        db0.wf(),
        db1.eav == db0.eav && db1.ave == db0.ave && db1.aev == db0.aev,
        db1.nid() == db0.nid(),
        db1.imap() == db0.imap(),
        db0.eav.wf(nodes_entry) && db0.ave.wf(nodes_entry) && db0.aev.wf(nodes_entry),
        db1.spec_store().nodes().len() >= nodes_entry.len(),
        forall|k: int|
            0 <= k < nodes_entry.len() ==> db1.spec_store().nodes()[k] == nodes_entry[k],
        db0.eav.contents(nodes_entry) == db0.records(),
        db0.ave.contents(nodes_entry) == db0.records_avet(),
        db0.aev.contents(nodes_entry) == db0.records_aevt(),
        db0.eav.order == IndexOrder::Eavt && db0.ave.order == IndexOrder::Avet && db0.aev.order
            == IndexOrder::Aevt,
    ensures
        db1.wf(),
        db1.records() == db0.records(),
        db1.records_avet() == db0.records_avet(),
        db1.records_aevt() == db0.records_aevt(),
{
    crate::index::lemma_index_extend(db0.eav, nodes_entry, db1.spec_store().nodes());
    crate::index::lemma_index_extend(db0.ave, nodes_entry, db1.spec_store().nodes());
    crate::index::lemma_index_extend(db0.aev, nodes_entry, db1.spec_store().nodes());
}

/// Sorted insertion grows two sequences of equal multiset alike, whatever
/// their orders.
proof fn lemma_insert_multiset_agree(
    s1: Seq<RecV>,
    s2: Seq<RecV>,
    o1: IndexOrder,
    o2: IndexOrder,
    x: RecV,
)
    requires
        sorted_recs(o1, s1),
        sorted_recs(o2, s2),
        s1.to_multiset() == s2.to_multiset(),
    ensures
        seq_insert(o1, s1, x).to_multiset() == seq_insert(o2, s2, x).to_multiset(),
{
    broadcast use vstd::seq_lib::group_to_multiset_ensures;

    lemma_seq_insert_elems(o1, s1, x);
    lemma_seq_insert_elems(o2, s2, x);
    assert(s1.contains(x) <==> s1.to_multiset().count(x) > 0);
    assert(s2.contains(x) <==> s2.to_multiset().count(x) > 0);
}

} // verus!
