//! Records — the (entity, attribute, value, tx) quadruples the indexes
//! store — and the three sort orders over them. The transaction entity is
//! the final tiebreak in every order, so equal (entity, attribute, value)
//! assertions from different transactions coexist.

use vstd::prelude::*;

use crate::value::{Entity, ValV, Value, lemma_val_lt_connected, lemma_val_lt_trans, val_lt, value_eq, value_lt};

verus! {

/// The unit stored in the indexes. The `attribute` field is always an
/// entity in the ident role, never a name; `tx` names the transaction
/// entity that introduced the record.
#[derive(Debug, PartialEq, Eq)]
pub struct Record {
    pub entity: Entity,
    pub attribute: Entity,
    pub value: Value,
    pub tx: Entity,
}

/// The mathematical model of a `Record`.
pub struct RecV {
    pub e: nat,
    pub a: nat,
    pub v: ValV,
    pub t: nat,
}

impl View for Record {
    type V = RecV;

    open spec fn view(&self) -> RecV {
        RecV {
            e: self.entity.0 as nat,
            a: self.attribute.0 as nat,
            v: self.value@,
            t: self.tx.0 as nat,
        }
    }
}

impl Record {
    pub fn new(entity: Entity, attribute: Entity, value: Value, tx: Entity) -> (r: Record)
        ensures
            r@ == (RecV { e: entity.0 as nat, a: attribute.0 as nat, v: value@, t: tx.0 as nat }),
    {
        Record { entity, attribute, value, tx }
    }
}

impl Clone for Record {
    fn clone(&self) -> (r: Record)
        ensures
            r@ == self@,
    {
        Record {
            entity: self.entity,
            attribute: self.attribute,
            value: self.value.clone(),
            tx: self.tx,
        }
    }
}

/// The view of a sequence of records.
pub open spec fn recs_view(s: Seq<Record>) -> Seq<RecV> {
    s.map_values(|r: Record| r@)
}

/// Which permutation of the record fields an index sorts by.
#[derive(Debug, Clone, Copy, PartialEq, Eq, Structural)]
pub enum IndexOrder {
    Eavt,
    Aevt,
    Avet,
}

/// Order on the (value, tx) tail shared by EAVT and AEVT.
pub open spec fn vt_lt(v1: ValV, t1: nat, v2: ValV, t2: nat) -> bool {
    val_lt(v1, v2) || (v1 == v2 && t1 < t2)
}

/// The strict order an index keeps its records in: lexicographic over the
/// permutation of (entity, attribute, value, tx) the order names.
pub open spec fn rec_lt(o: IndexOrder, x: RecV, y: RecV) -> bool {
    match o {
        IndexOrder::Eavt => x.e < y.e || (x.e == y.e && (x.a < y.a || (x.a == y.a && vt_lt(
            x.v,
            x.t,
            y.v,
            y.t,
        )))),
        IndexOrder::Aevt => x.a < y.a || (x.a == y.a && (x.e < y.e || (x.e == y.e && vt_lt(
            x.v,
            x.t,
            y.v,
            y.t,
        )))),
        IndexOrder::Avet => x.a < y.a || (x.a == y.a && (val_lt(x.v, y.v) || (x.v == y.v && (x.e
            < y.e || (x.e == y.e && x.t < y.t))))),
    }
}

pub open spec fn rec_lte(o: IndexOrder, x: RecV, y: RecV) -> bool {
    rec_lt(o, x, y) || x == y
}

/// Each index order is a strict total order over record views.
pub proof fn lemma_rec_lt_connected(o: IndexOrder, x: RecV, y: RecV)
    ensures
        !rec_lt(o, x, y) && !rec_lt(o, y, x) ==> x == y,
        rec_lt(o, x, y) ==> !rec_lt(o, y, x),
        !rec_lt(o, x, x),
{
    lemma_val_lt_connected(x.v, y.v);
    lemma_val_lt_connected(x.v, x.v);
}

pub proof fn lemma_rec_lt_trans(o: IndexOrder, x: RecV, y: RecV, z: RecV)
    requires
        rec_lt(o, x, y),
        rec_lt(o, y, z),
    ensures
        rec_lt(o, x, z),
{
    lemma_val_lt_connected(x.v, y.v);
    lemma_val_lt_connected(y.v, z.v);
    if val_lt(x.v, y.v) && val_lt(y.v, z.v) {
        lemma_val_lt_trans(x.v, y.v, z.v);
    }
}

/// `x <= y < z` or `x < y <= z` gives `x < z`.
pub proof fn lemma_rec_lte_lt_trans(o: IndexOrder, x: RecV, y: RecV, z: RecV)
    requires
        rec_lte(o, x, y),
        rec_lt(o, y, z) || (rec_lte(o, y, z) && rec_lt(o, x, y)),
    ensures
        rec_lt(o, x, z) || (x == y && y == z),
{
    if rec_lt(o, x, y) && rec_lt(o, y, z) {
        lemma_rec_lt_trans(o, x, y, z);
    }
}

/// Decide `rec_lt` on records.
pub fn rec_lt_exec(o: IndexOrder, x: &Record, y: &Record) -> (r: bool)
    ensures
        r == rec_lt(o, x@, y@),
{
    match o {
        IndexOrder::Eavt => {
            if x.entity.0 != y.entity.0 {
                x.entity.0 < y.entity.0
            } else if x.attribute.0 != y.attribute.0 {
                x.attribute.0 < y.attribute.0
            } else {
                vt_lt_exec(x, y)
            }
        },
        IndexOrder::Aevt => {
            if x.attribute.0 != y.attribute.0 {
                x.attribute.0 < y.attribute.0
            } else if x.entity.0 != y.entity.0 {
                x.entity.0 < y.entity.0
            } else {
                vt_lt_exec(x, y)
            }
        },
        IndexOrder::Avet => {
            if x.attribute.0 != y.attribute.0 {
                x.attribute.0 < y.attribute.0
            } else if value_lt(&x.value, &y.value) {
                true
            } else if !value_eq(&x.value, &y.value) {
                false
            } else if x.entity.0 != y.entity.0 {
                x.entity.0 < y.entity.0
            } else {
                x.tx.0 < y.tx.0
            }
        },
    }
}

/// Decide the (value, tx) tail order.
fn vt_lt_exec(x: &Record, y: &Record) -> (r: bool)
    ensures
        r == vt_lt(x@.v, x@.t, y@.v, y@.t),
{
    if value_lt(&x.value, &y.value) {
        true
    } else if value_eq(&x.value, &y.value) {
        x.tx.0 < y.tx.0
    } else {
        false
    }
}

/// Decide equality of record views.
pub fn rec_eq_exec(x: &Record, y: &Record) -> (r: bool)
    ensures
        r == (x@ == y@),
{
    let r = x.entity.0 == y.entity.0 && x.attribute.0 == y.attribute.0 && x.tx.0 == y.tx.0
        && value_eq(&x.value, &y.value);
    proof {
        if r {
            assert(x@ == y@);
        }
    }
    r
}

} // verus!
