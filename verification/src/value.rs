//! Entities and values, and the total order over values that the sorted
//! indexes rely on: variants are ordered by a fixed tag order (strings
//! first, so that the empty string is the least value of all), and within
//! a variant by the natural order of its payload.

use vstd::prelude::*;

verus! {

/// A 64-bit entity identifier. Entities are opaque handles; some entities
/// additionally represent attributes (the "ident" role).
#[derive(Debug, PartialEq, Eq, Clone, Copy, Structural)]
pub struct Entity(pub u64);

/// A stored value: a tagged union over text, entity references, idents
/// (attribute names used as values) and transaction timestamps.
#[derive(Debug, PartialEq, Eq)]
pub enum Value {
    String(String),
    Entity(Entity),
    Ident(String),
    Timestamp(u64),
}

/// The mathematical model of a `Value`.
pub enum ValV {
    Str(Seq<char>),
    Ent(nat),
    Id(Seq<char>),
    Time(nat),
}

impl View for Value {
    type V = ValV;

    open spec fn view(&self) -> ValV {
        match self {
            Value::String(s) => ValV::Str(s@),
            Value::Entity(e) => ValV::Ent(e.0 as nat),
            Value::Ident(s) => ValV::Id(s@),
            Value::Timestamp(t) => ValV::Time(*t as nat),
        }
    }
}

impl Clone for Value {
    fn clone(&self) -> (r: Value)
        ensures
            r@ == self@,
    {
        match self {
            Value::String(s) => Value::String(s.clone()),
            Value::Entity(e) => Value::Entity(*e),
            Value::Ident(s) => Value::Ident(s.clone()),
            Value::Timestamp(t) => Value::Timestamp(*t),
        }
    }
}

/// Lexicographic order on character sequences; the empty sequence is least.
pub open spec fn str_lt(a: Seq<char>, b: Seq<char>) -> bool
    decreases a.len(),
{
    if b.len() == 0 {
        false
    } else if a.len() == 0 {
        true
    } else if (a[0] as int) < (b[0] as int) {
        true
    } else if (a[0] as int) == (b[0] as int) {
        str_lt(a.drop_first(), b.drop_first())
    } else {
        false
    }
}

/// The fixed tag order over value variants.
pub open spec fn val_tag(v: ValV) -> int {
    match v {
        ValV::Str(_) => 0,
        ValV::Ent(_) => 1,
        ValV::Id(_) => 2,
        ValV::Time(_) => 3,
    }
}

/// The total order over values: by tag, then by payload.
pub open spec fn val_lt(a: ValV, b: ValV) -> bool {
    if val_tag(a) != val_tag(b) {
        val_tag(a) < val_tag(b)
    } else {
        match (a, b) {
            (ValV::Str(x), ValV::Str(y)) => str_lt(x, y),
            (ValV::Ent(x), ValV::Ent(y)) => x < y,
            (ValV::Id(x), ValV::Id(y)) => str_lt(x, y),
            (ValV::Time(x), ValV::Time(y)) => x < y,
            _ => false,
        }
    }
}

/// `str_lt` is irreflexive-total: of two distinct sequences one is less.
pub proof fn lemma_str_lt_connected(a: Seq<char>, b: Seq<char>)
    ensures
        !str_lt(a, b) && !str_lt(b, a) ==> a == b,
        str_lt(a, b) ==> !str_lt(b, a),
        !str_lt(a, a),
    decreases a.len(),
{
    if a.len() > 0 && b.len() > 0 {
        lemma_str_lt_connected(a.drop_first(), b.drop_first());
        lemma_str_lt_connected(a.drop_first(), a.drop_first());
        if !str_lt(a, b) && !str_lt(b, a) {
            assert(a[0] as int == b[0] as int);
            assert(a[0] == b[0]);
            assert(a.drop_first() == b.drop_first());
            assert(a =~= seq![a[0]] + a.drop_first());
            assert(b =~= seq![b[0]] + b.drop_first());
        }
    } else {
        if a.len() > 0 {
            lemma_str_lt_connected(a.drop_first(), a.drop_first());
        }
        if !str_lt(a, b) && !str_lt(b, a) {
            assert(a.len() == 0 && b.len() == 0);
            assert(a =~= b);
        }
    }
}

/// `str_lt` is transitive.
pub proof fn lemma_str_lt_trans(a: Seq<char>, b: Seq<char>, c: Seq<char>)
    requires
        str_lt(a, b),
        str_lt(b, c),
    ensures
        str_lt(a, c),
    decreases a.len(),
{
    if a.len() > 0 && b.len() > 0 && c.len() > 0 {
        if (a[0] as int) == (b[0] as int) && (b[0] as int) == (c[0] as int) {
            lemma_str_lt_trans(a.drop_first(), b.drop_first(), c.drop_first());
        }
    }
}

/// `val_lt` is a strict total order: connected, antisymmetric, transitive.
pub proof fn lemma_val_lt_connected(a: ValV, b: ValV)
    ensures
        !val_lt(a, b) && !val_lt(b, a) ==> a == b,
        val_lt(a, b) ==> !val_lt(b, a),
        !val_lt(a, a),
{
    match (a, b) {
        (ValV::Str(x), ValV::Str(y)) => lemma_str_lt_connected(x, y),
        (ValV::Id(x), ValV::Id(y)) => lemma_str_lt_connected(x, y),
        _ => {},
    }
    match a {
        ValV::Str(x) => lemma_str_lt_connected(x, x),
        ValV::Id(x) => lemma_str_lt_connected(x, x),
        _ => {},
    }
}

pub proof fn lemma_val_lt_trans(a: ValV, b: ValV, c: ValV)
    requires
        val_lt(a, b),
        val_lt(b, c),
    ensures
        val_lt(a, c),
{
    match (a, b, c) {
        (ValV::Str(x), ValV::Str(y), ValV::Str(z)) => lemma_str_lt_trans(x, y, z),
        (ValV::Id(x), ValV::Id(y), ValV::Id(z)) => lemma_str_lt_trans(x, y, z),
        _ => {},
    }
}

/// Decide `str_lt` on string slices.
pub fn str_lt_exec(a: &str, b: &str) -> (r: bool)
    ensures
        r == str_lt(a@, b@),
{
    let la: usize = a.unicode_len();
    let lb: usize = b.unicode_len();
    let min: usize = if la < lb { la } else { lb };
    let mut i: usize = 0;
    proof {
        assert(a@.skip(0) =~= a@);
        assert(b@.skip(0) =~= b@);
    }
    while i < min
        invariant
            i <= min,
            min <= la && min <= lb,
            la == a@.len() && lb == b@.len(),
            str_lt(a@, b@) == str_lt(a@.skip(i as int), b@.skip(i as int)),
        decreases min - i,
    {
        let ca = a.get_char(i);
        let cb = b.get_char(i);
        proof {
            let sa = a@.skip(i as int);
            let sb = b@.skip(i as int);
            assert(sa[0] == a@[i as int]);
            assert(sb[0] == b@[i as int]);
            assert(sa.drop_first() =~= a@.skip(i + 1));
            assert(sb.drop_first() =~= b@.skip(i + 1));
        }
        if (ca as u32) < (cb as u32) {
            return true;
        }
        if (ca as u32) > (cb as u32) {
            return false;
        }
        i = i + 1;
    }
    proof {
        assert(a@.skip(la as int).len() == 0);
        assert(b@.skip(lb as int).len() == 0);
    }
    la < lb
}

/// Decide equality of string slices by their character sequences.
pub fn str_eq_exec(a: &str, b: &str) -> (r: bool)
    ensures
        r == (a@ == b@),
{
    let la: usize = a.unicode_len();
    let lb: usize = b.unicode_len();
    if la != lb {
        proof {
            assert(a@.len() != b@.len());
        }
        return false;
    }
    let mut i: usize = 0;
    while i < la
        invariant
            i <= la,
            la == a@.len() && la == b@.len(),
            forall|j: int| 0 <= j < i ==> a@[j] == b@[j],
        decreases la - i,
    {
        let ca = a.get_char(i);
        let cb = b.get_char(i);
        if ca != cb {
            return false;
        }
        i = i + 1;
    }
    proof {
        assert(a@ =~= b@);
    }
    true
}

/// Decide `val_lt` on values.
pub fn value_lt(a: &Value, b: &Value) -> (r: bool)
    ensures
        r == val_lt(a@, b@),
{
    match (a, b) {
        (Value::String(x), Value::String(y)) => str_lt_exec(x.as_str(), y.as_str()),
        (Value::Ident(x), Value::Ident(y)) => str_lt_exec(x.as_str(), y.as_str()),
        (Value::Entity(x), Value::Entity(y)) => x.0 < y.0,
        (Value::Timestamp(x), Value::Timestamp(y)) => x < y,
        _ => value_tag(a) < value_tag(b),
    }
}

/// Decide equality of values.
pub fn value_eq(a: &Value, b: &Value) -> (r: bool)
    ensures
        r == (a@ == b@),
{
    match (a, b) {
        (Value::String(x), Value::String(y)) => str_eq_exec(x.as_str(), y.as_str()),
        (Value::Ident(x), Value::Ident(y)) => str_eq_exec(x.as_str(), y.as_str()),
        (Value::Entity(x), Value::Entity(y)) => x.0 == y.0,
        (Value::Timestamp(x), Value::Timestamp(y)) => x == y,
        _ => false,
    }
}

/// The tag of a value under the fixed tag order.
fn value_tag(v: &Value) -> (r: u8)
    ensures
        r as int == val_tag(v@),
{
    match v {
        Value::String(_) => 0,
        Value::Entity(_) => 1,
        Value::Ident(_) => 2,
        Value::Timestamp(_) => 3,
    }
}

} // verus!
