//! The textual front end: queries (`find ?vars where clauses`),
//! transactions (`add (e attr value)`, `retract ...`, `{attr value ...}`),
//! and the two shell keywords. A recursive-descent reader over the input's
//! characters; any leftover input is a parse error.

use vstd::prelude::*;

use crate::db::{Error, Fact, FactV, Tx, TxItem, TxItemV, clauses_view, items_view};
use crate::query::{Clause, ClauseV, Query, Term, TermV, Var, vars_view};
use crate::value::{Entity, ValV, Value};

verus! {

/// Relies on String::push: appends exactly the one character.
pub assume_specification [ std::string::String::push ](s: &mut std::string::String, ch: char)
    ensures
        final(s)@ == old(s)@.push(ch),
;

/// The grammar, stated over character sequences: each function reads from a
/// position and yields the parsed value with the position after it, or
/// nothing. The executable readers below are proved equal to these.
pub open spec fn is_space_c(c: char) -> bool {
    c == ' ' || c == '\t' || c == '\n' || c == '\r'
}

pub open spec fn is_letter_c(c: char) -> bool {
    (97 <= c as int && c as int <= 122) || (65 <= c as int && c as int <= 90)
}

pub open spec fn is_digit_c(c: char) -> bool {
    48 <= c as int && c as int <= 57
}

/// The position after any whitespace at `i`.
pub open spec fn sp(s: Seq<char>, i: int) -> int
    decreases s.len() - i,
{
    if 0 <= i < s.len() && is_space_c(s[i]) {
        sp(s, i + 1)
    } else {
        i
    }
}

/// The position after a run of letters.
pub open spec fn scan_letters(s: Seq<char>, i: int) -> int
    decreases s.len() - i,
{
    if 0 <= i < s.len() && is_letter_c(s[i]) {
        scan_letters(s, i + 1)
    } else {
        i
    }
}

/// The position after a run of letters and colons.
pub open spec fn scan_ident(s: Seq<char>, i: int) -> int
    decreases s.len() - i,
{
    if 0 <= i < s.len() && (is_letter_c(s[i]) || s[i] == ':') {
        scan_ident(s, i + 1)
    } else {
        i
    }
}

/// The position after a run of non-quote characters.
pub open spec fn scan_nonquote(s: Seq<char>, i: int) -> int
    decreases s.len() - i,
{
    if 0 <= i < s.len() && s[i] != '"' {
        scan_nonquote(s, i + 1)
    } else {
        i
    }
}

/// The value of a digit run read left to right, failing where it outgrows
/// an entity id.
pub open spec fn num_scan(s: Seq<char>, i: int, acc: int) -> Option<(int, int)>
    decreases s.len() - i,
{
    if 0 <= i < s.len() && is_digit_c(s[i]) {
        let acc2 = acc * 10 + (s[i] as int - 48);
        if acc2 > 0xFFFF_FFFF_FFFF_FFFF {
            Option::None
        } else {
            num_scan(s, i + 1, acc2)
        }
    } else {
        Option::Some((acc, i))
    }
}

/// The word `w` stands at `i`.
pub open spec fn word_at(s: Seq<char>, i: int, w: Seq<char>) -> bool {
    0 <= i && i + w.len() <= s.len() && s.subrange(i, i + w.len()) == w
}

pub open spec fn spec_var(s: Seq<char>, i: int) -> Option<(Seq<char>, int)> {
    if 0 <= i < s.len() && s[i] == '?' {
        let e = scan_letters(s, i + 1);
        if e > i + 1 {
            Option::Some((s.subrange(i + 1, e), sp(s, e)))
        } else {
            Option::None
        }
    } else {
        Option::None
    }
}

pub open spec fn spec_number(s: Seq<char>, i: int) -> Option<(int, int)> {
    match num_scan(s, i, 0) {
        Option::None => Option::None,
        Option::Some((v, e)) => if e > i {
            Option::Some((v, e))
        } else {
            Option::None
        },
    }
}

pub open spec fn spec_string_lit(s: Seq<char>, i: int) -> Option<(Seq<char>, int)> {
    if 0 <= i < s.len() && s[i] == '"' {
        let e = scan_nonquote(s, i + 1);
        if e > i + 1 && e < s.len() {
            Option::Some((s.subrange(i + 1, e), e + 1))
        } else {
            Option::None
        }
    } else {
        Option::None
    }
}

pub open spec fn spec_ident(s: Seq<char>, i: int) -> Option<(Seq<char>, int)> {
    let e = scan_ident(s, i);
    if e > i && 0 <= i {
        Option::Some((s.subrange(i, e), sp(s, e)))
    } else {
        Option::None
    }
}

pub open spec fn spec_value(s: Seq<char>, i: int) -> Option<(ValV, int)> {
    match spec_string_lit(s, i) {
        Option::Some((t, j)) => Option::Some((ValV::Str(t), j)),
        Option::None => match spec_number(s, i) {
            Option::Some((v, j)) => Option::Some((ValV::Ent(v as nat), j)),
            Option::None => match spec_ident(s, i) {
                Option::Some((n, j)) => Option::Some((ValV::Id(n), j)),
                Option::None => Option::None,
            },
        },
    }
}

pub open spec fn spec_eterm(s: Seq<char>, i: int) -> Option<(TermV<nat>, int)> {
    match spec_var(s, i) {
        Option::Some((n, j)) => Option::Some((TermV::U(n), j)),
        Option::None => match spec_number(s, i) {
            Option::Some((v, j)) => Option::Some((TermV::B(v as nat), j)),
            Option::None => Option::None,
        },
    }
}

pub open spec fn spec_aterm(s: Seq<char>, i: int) -> Option<(TermV<Seq<char>>, int)> {
    match spec_var(s, i) {
        Option::Some((n, j)) => Option::Some((TermV::U(n), j)),
        Option::None => match spec_ident(s, i) {
            Option::Some((n, j)) => Option::Some((TermV::B(n), j)),
            Option::None => Option::None,
        },
    }
}

pub open spec fn spec_vterm(s: Seq<char>, i: int) -> Option<(TermV<ValV>, int)> {
    match spec_var(s, i) {
        Option::Some((n, j)) => Option::Some((TermV::U(n), j)),
        Option::None => match spec_value(s, i) {
            Option::Some((v, j)) => Option::Some((TermV::B(v), j)),
            Option::None => Option::None,
        },
    }
}

pub open spec fn spec_clause(s: Seq<char>, i: int) -> Option<(ClauseV, int)> {
    if 0 <= i < s.len() && s[i] == '(' {
        match spec_eterm(s, sp(s, i + 1)) {
            Option::None => Option::None,
            Option::Some((te, j1)) => match spec_aterm(s, sp(s, j1)) {
                Option::None => Option::None,
                Option::Some((ta, j2)) => match spec_vterm(s, sp(s, j2)) {
                    Option::None => Option::None,
                    Option::Some((tv, j3)) => {
                        let i4 = sp(s, j3);
                        if i4 < s.len() && s[i4] == ')' {
                            Option::Some((ClauseV { e: te, a: ta, v: tv }, sp(s, i4 + 1)))
                        } else {
                            Option::None
                        }
                    },
                },
            },
        }
    } else {
        Option::None
    }
}

pub open spec fn spec_fact(s: Seq<char>, i: int) -> Option<(FactV, int)> {
    if 0 <= i < s.len() && s[i] == '(' {
        match spec_number(s, sp(s, i + 1)) {
            Option::None => Option::None,
            Option::Some((e, j1)) => match spec_ident(s, sp(s, j1)) {
                Option::None => Option::None,
                Option::Some((a, j2)) => match spec_value(s, j2) {
                    Option::None => Option::None,
                    Option::Some((v, j3)) => {
                        let i4 = sp(s, j3);
                        if i4 < s.len() && s[i4] == ')' {
                            Option::Some((FactV { e: e as nat, a, v }, sp(s, i4 + 1)))
                        } else {
                            Option::None
                        }
                    },
                },
            },
        }
    } else {
        Option::None
    }
}

/// As many variables as stand at `i`, and the position after them.
pub open spec fn spec_vars(s: Seq<char>, i: int) -> (Seq<Seq<char>>, int)
    decreases s.len() - i,
{
    match spec_var(s, i) {
        Option::None => (Seq::empty(), i),
        Option::Some((n, j)) => if i < j <= s.len() {
            let rest = spec_vars(s, j);
            (seq![n] + rest.0, rest.1)
        } else {
            (seq![n], j)
        },
    }
}

/// As many clauses as stand at `i`.
pub open spec fn spec_clauses(s: Seq<char>, i: int) -> (Seq<ClauseV>, int)
    decreases s.len() - i,
{
    match spec_clause(s, i) {
        Option::None => (Seq::empty(), i),
        Option::Some((c, j)) => if i < j <= s.len() {
            let rest = spec_clauses(s, j);
            (seq![c] + rest.0, rest.1)
        } else {
            (seq![c], j)
        },
    }
}

/// The attribute/value pairs of a new-entity item; an ident without a value
/// after it fails the whole item.
pub open spec fn spec_pairs(s: Seq<char>, i: int) -> Option<(Seq<(Seq<char>, ValV)>, int)>
    decreases s.len() - i,
{
    match spec_ident(s, i) {
        Option::None => Option::Some((Seq::empty(), i)),
        Option::Some((n, j)) => match spec_value(s, j) {
            Option::None => Option::None,
            Option::Some((v, k)) => {
                let k2 = sp(s, k);
                if i < k2 <= s.len() {
                    match spec_pairs(s, k2) {
                        Option::None => Option::None,
                        Option::Some((rest, e)) => Option::Some((seq![(n, v)] + rest, e)),
                    }
                } else {
                    Option::Some((seq![(n, v)], k2))
                }
            },
        },
    }
}

pub open spec fn spec_new_entity(s: Seq<char>, i: int) -> Option<(Seq<(Seq<char>, ValV)>, int)> {
    if 0 <= i < s.len() && s[i] == '{' {
        match spec_pairs(s, sp(s, i + 1)) {
            Option::None => Option::None,
            Option::Some((ps, j)) => if ps.len() > 0 && j < s.len() && s[j] == '}' {
                Option::Some((ps, sp(s, j + 1)))
            } else {
                Option::None
            },
        }
    } else {
        Option::None
    }
}

pub open spec fn spec_tx_item(s: Seq<char>, i: int) -> Option<(TxItemV, int)> {
    let add_try = if word_at(s, i, "add"@) {
        spec_fact(s, sp(s, i + "add"@.len()))
    } else {
        Option::None
    };
    match add_try {
        Option::Some((f, j)) => Option::Some((TxItemV::Add(f), j)),
        Option::None => {
            let ret_try = if word_at(s, i, "retract"@) {
                spec_fact(s, sp(s, i + "retract"@.len()))
            } else {
                Option::None
            };
            match ret_try {
                Option::Some((f, j)) => Option::Some((TxItemV::Retract(f), j)),
                Option::None => match spec_new_entity(s, i) {
                    Option::Some((ps, j)) => Option::Some((TxItemV::New(ps), j)),
                    Option::None => Option::None,
                },
            }
        },
    }
}

/// As many transaction items as stand at `i`.
pub open spec fn spec_items(s: Seq<char>, i: int) -> (Seq<TxItemV>, int)
    decreases s.len() - i,
{
    match spec_tx_item(s, i) {
        Option::None => (Seq::empty(), i),
        Option::Some((it, j)) => if i < j <= s.len() {
            let rest = spec_items(s, j);
            (seq![it] + rest.0, rest.1)
        } else {
            (seq![it], j)
        },
    }
}

pub open spec fn spec_query_at(s: Seq<char>, i: int) -> Option<
    ((Seq<Seq<char>>, Seq<ClauseV>), int),
> {
    if word_at(s, i, "find"@) {
        let vs = spec_vars(s, sp(s, i + "find"@.len()));
        if vs.0.len() == 0 {
            Option::None
        } else if word_at(s, vs.1, "where"@) {
            let cl = spec_clauses(s, sp(s, vs.1 + "where"@.len()));
            if cl.0.len() == 0 {
                Option::None
            } else {
                Option::Some(((vs.0, cl.0), cl.1))
            }
        } else {
            Option::None
        }
    } else {
        Option::None
    }
}

pub open spec fn spec_tx_at(s: Seq<char>, i: int) -> Option<(Seq<TxItemV>, int)> {
    let items = spec_items(s, i);
    if items.0.len() == 0 {
        Option::None
    } else {
        Option::Some(items)
    }
}

/// A whole query line: leading whitespace, the query, nothing left over.
pub open spec fn spec_parse_query(s: Seq<char>) -> Option<(Seq<Seq<char>>, Seq<ClauseV>)> {
    match spec_query_at(s, sp(s, 0)) {
        Option::Some((q, j)) => if j == s.len() {
            Option::Some(q)
        } else {
            Option::None
        },
        Option::None => Option::None,
    }
}

/// A whole transaction line.
pub open spec fn spec_parse_tx(s: Seq<char>) -> Option<Seq<TxItemV>> {
    match spec_tx_at(s, sp(s, 0)) {
        Option::Some((t, j)) => if j == s.len() {
            Option::Some(t)
        } else {
            Option::None
        },
        Option::None => Option::None,
    }
}

/// The line is exactly the one keyword.
pub open spec fn spec_keyword(s: Seq<char>, w: Seq<char>) -> bool {
    let i0 = sp(s, 0);
    word_at(s, i0, w) && sp(s, i0 + w.len()) == s.len()
}

/// One parsed line of shell input.
#[derive(Debug)]
pub enum Input {
    Query(Query),
    Tx(Tx),
    SampleDb,
    Dump,
}

/// The characters of a string, for index-based reading.
pub(crate) fn to_chars(input: &str) -> (out: Vec<char>)
    ensures
        out@ == input@,
{
    let n = input.unicode_len();
    let mut out: Vec<char> = Vec::new();
    let mut i: usize = 0;
    while i < n
        invariant
            i <= n,
            n == input@.len(),
            out@ == input@.take(i as int),
        decreases n - i,
    {
        out.push(input.get_char(i));
        proof {
            assert(out@ =~= input@.take(i + 1));
        }
        i = i + 1;
    }
    proof {
        assert(input@.take(n as int) =~= input@);
    }
    out
}

/// The text of a character run.
pub(crate) fn string_from_chars(cs: &Vec<char>, from: usize, to: usize) -> (s: String)
    requires
        from <= to <= cs@.len(),
    ensures
        s@ == cs@.subrange(from as int, to as int),
{
    let mut s = String::new();
    let mut i: usize = from;
    proof {
        assert(s@ =~= cs@.subrange(from as int, from as int));
    }
    while i < to
        invariant
            from <= i <= to,
            to <= cs@.len(),
            s@ == cs@.subrange(from as int, i as int),
        decreases to - i,
    {
        s.push(cs[i]);
        proof {
            assert(s@ =~= cs@.subrange(from as int, i + 1));
        }
        i = i + 1;
    }
    s
}

/// An ASCII letter.
fn is_letter(c: char) -> (r: bool)
    ensures
        r == is_letter_c(c),
{
    let u = c as u32;
    proof {
        assert(c as u32 as int == c as int);
    }
    (97 <= u && u <= 122) || (65 <= u && u <= 90)
}

/// An ASCII digit.
fn is_digit(c: char) -> (r: bool)
    ensures
        r == is_digit_c(c),
{
    let u = c as u32;
    proof {
        assert(c as u32 as int == c as int);
    }
    48 <= u && u <= 57
}

/// Step past whitespace.
fn skip_spaces(cs: &Vec<char>, i: &mut usize)
    requires
        *old(i) <= cs@.len(),
    ensures
        *old(i) <= *final(i) <= cs@.len(),
        *final(i) as int == sp(cs@, *old(i) as int),
{
    while *i < cs.len() && (cs[*i] == ' ' || cs[*i] == '\t' || cs[*i] == '\n' || cs[*i] == '\r')
        invariant
            *old(i) <= *i <= cs@.len(),
            sp(cs@, *old(i) as int) == sp(cs@, *i as int),
        decreases cs@.len() - *i,
    {
        *i = *i + 1;
    }
}

/// A literal word, followed by whitespace skipping.
fn lex_word(cs: &Vec<char>, i: &mut usize, w: &str) -> (r: bool)
    requires
        *old(i) <= cs@.len(),
    ensures
        *old(i) <= *final(i) <= cs@.len(),
        r ==> *old(i) + w@.len() <= *final(i),
        r == word_at(cs@, *old(i) as int, w@),
        r && w@.len() > 0 ==> *final(i) as int == sp(cs@, *old(i) + w@.len()),
        !r ==> *final(i) == *old(i),
        r && w@.len() == 0 ==> *final(i) == *old(i),
{
    let n = w.unicode_len();
    let mut k: usize = 0;
    while k < n
        invariant
            k <= n,
            n == w@.len(),
            *i == *old(i),
            *old(i) <= cs@.len(),
            *i + k <= cs@.len(),
            forall|m: int| 0 <= m < k ==> cs@[*i + m] == w@[m],
        decreases n - k,
    {
        if k >= cs.len() - *i || cs[*i + k] != w.get_char(k) {
            proof {
                if word_at(cs@, *i as int, w@) {
                    assert(cs@.subrange(*i as int, *i + w@.len())[k as int] == w@[k as int]);
                }
            }
            return false;
        }
        k = k + 1;
    }
    proof {
        assert(cs@.subrange(*i as int, *i + n as int) =~= w@);
        assert(word_at(cs@, *i as int, w@));
    }
    if n == 0 {
        return true;
    }
    let total = cs.len();
    proof {
        assert(*i + n <= total);
    }
    *i = *i + n;
    skip_spaces(cs, i);
    true
}

/// A free variable: `?` then letters, then whitespace.
fn parse_var(cs: &Vec<char>, i: &mut usize) -> (r: Option<Var>)
    requires
        *old(i) <= cs@.len(),
    ensures
        *old(i) <= *final(i) <= cs@.len(),
        r is Some ==> *old(i) < *final(i),
        match r {
            Option::Some(v) => spec_var(cs@, *old(i) as int) == Option::Some(
                (v@, *final(i) as int),
            ),
            Option::None => spec_var(cs@, *old(i) as int) is None && *final(i) == *old(i),
        },
{
    let start = *i;
    if *i >= cs.len() || cs[*i] != '?' {
        return Option::None;
    }
    *i = *i + 1;
    let name_start = *i;
    while *i < cs.len() && is_letter(cs[*i])
        invariant
            name_start <= *i <= cs@.len(),
            name_start <= cs@.len(),
            start < name_start,
            start == *old(i),
            name_start == start + 1,
            scan_letters(cs@, name_start as int) == scan_letters(cs@, *i as int),
        decreases cs@.len() - *i,
    {
        *i = *i + 1;
    }
    proof {
        assert(scan_letters(cs@, name_start as int) == *i as int);
    }
    if *i == name_start {
        *i = start;
        return Option::None;
    }
    let name = string_from_chars(cs, name_start, *i);
    skip_spaces(cs, i);
    Option::Some(Var { name })
}

/// A number: digits, as an entity id. A value too large for an id is a
/// parse failure.
fn parse_number(cs: &Vec<char>, i: &mut usize) -> (r: Option<Entity>)
    requires
        *old(i) <= cs@.len(),
    ensures
        *old(i) <= *final(i) <= cs@.len(),
        r is Some ==> *old(i) < *final(i),
        match r {
            Option::Some(e) => spec_number(cs@, *old(i) as int) == Option::Some(
                (e.0 as int, *final(i) as int),
            ),
            Option::None => spec_number(cs@, *old(i) as int) is None && *final(i) == *old(i),
        },
{
    let start = *i;
    let mut n: u64 = 0;
    let mut ok = true;
    while *i < cs.len() && is_digit(cs[*i])
        invariant
            start <= *i <= cs@.len(),
            start == *old(i),
            ok,
            num_scan(cs@, start as int, 0) == num_scan(cs@, *i as int, n as int),
        decreases cs@.len() - *i,
    {
        let d = (cs[*i] as u32) - 48;
        proof {
            assert(cs@[*i as int] as u32 as int == cs@[*i as int] as int);
            assert(d as int == cs@[*i as int] as int - 48);
        }
        let ghost acc2 = n as int * 10 + (cs@[*i as int] as int - 48);
        if n > 0xFFFF_FFFF_FFFF_FFFFu64 / 10 {
            proof {
                assert(acc2 > 0xFFFF_FFFF_FFFF_FFFF);
            }
            ok = false;
        } else {
            n = n * 10;
            if n > 0xFFFF_FFFF_FFFF_FFFFu64 - (d as u64) {
                proof {
                    assert(acc2 > 0xFFFF_FFFF_FFFF_FFFF);
                }
                ok = false;
            } else {
                n = n + (d as u64);
                proof {
                    assert(n as int == acc2);
                }
            }
        }
        if !ok {
            proof {
                assert(num_scan(cs@, start as int, 0) is None);
            }
            *i = start;
            return Option::None;
        }
        *i = *i + 1;
    }
    proof {
        assert(num_scan(cs@, start as int, 0) == Option::Some((n as int, *i as int)));
    }
    if *i == start {
        return Option::None;
    }
    Option::Some(Entity(n))
}

/// A string literal: nonempty text between double quotes.
fn parse_string_lit(cs: &Vec<char>, i: &mut usize) -> (r: Option<Value>)
    requires
        *old(i) <= cs@.len(),
    ensures
        *old(i) <= *final(i) <= cs@.len(),
        r is Some ==> *old(i) < *final(i),
        match r {
            Option::Some(v) => spec_string_lit(cs@, *old(i) as int) matches Option::Some(p)
                && v@ == ValV::Str(p.0) && *final(i) as int == p.1,
            Option::None => spec_string_lit(cs@, *old(i) as int) is None && *final(i) == *old(i),
        },
{
    let start = *i;
    if *i >= cs.len() || cs[*i] != '"' {
        return Option::None;
    }
    *i = *i + 1;
    let text_start = *i;
    while *i < cs.len() && cs[*i] != '"'
        invariant
            text_start <= *i <= cs@.len(),
            start < text_start,
            start == *old(i),
            text_start == start + 1,
            scan_nonquote(cs@, text_start as int) == scan_nonquote(cs@, *i as int),
        decreases cs@.len() - *i,
    {
        *i = *i + 1;
    }
    proof {
        assert(scan_nonquote(cs@, text_start as int) == *i as int);
    }
    if *i == text_start || *i >= cs.len() {
        *i = start;
        return Option::None;
    }
    let text = string_from_chars(cs, text_start, *i);
    *i = *i + 1;
    Option::Some(Value::String(text))
}

/// An ident: letters and colons, then whitespace.
fn parse_ident(cs: &Vec<char>, i: &mut usize) -> (r: Option<String>)
    requires
        *old(i) <= cs@.len(),
    ensures
        *old(i) <= *final(i) <= cs@.len(),
        r is Some ==> *old(i) < *final(i),
        match r {
            Option::Some(n) => spec_ident(cs@, *old(i) as int) == Option::Some(
                (n@, *final(i) as int),
            ),
            Option::None => spec_ident(cs@, *old(i) as int) is None && *final(i) == *old(i),
        },
{
    let start = *i;
    while *i < cs.len() && (is_letter(cs[*i]) || cs[*i] == ':')
        invariant
            start <= *i <= cs@.len(),
            start == *old(i),
            scan_ident(cs@, start as int) == scan_ident(cs@, *i as int),
        decreases cs@.len() - *i,
    {
        *i = *i + 1;
    }
    proof {
        assert(scan_ident(cs@, start as int) == *i as int);
    }
    if *i == start {
        return Option::None;
    }
    let name = string_from_chars(cs, start, *i);
    skip_spaces(cs, i);
    Option::Some(name)
}

/// A value: a string literal, a number (an entity id), or an ident.
fn parse_value(cs: &Vec<char>, i: &mut usize) -> (r: Option<Value>)
    requires
        *old(i) <= cs@.len(),
    ensures
        *old(i) <= *final(i) <= cs@.len(),
        r is Some ==> *old(i) < *final(i),
        match r {
            Option::Some(v) => spec_value(cs@, *old(i) as int) == Option::Some(
                (v@, *final(i) as int),
            ),
            Option::None => spec_value(cs@, *old(i) as int) is None && *final(i) == *old(i),
        },
{
    match parse_string_lit(cs, i) {
        Option::Some(v) => {
            return Option::Some(v);
        },
        Option::None => {},
    }
    match parse_number(cs, i) {
        Option::Some(e) => {
            return Option::Some(Value::Entity(e));
        },
        Option::None => {},
    }
    match parse_ident(cs, i) {
        Option::Some(s) => Option::Some(Value::Ident(s)),
        Option::None => Option::None,
    }
}

/// A clause: `(` entity-term ident-term value-term `)`.
fn parse_clause(cs: &Vec<char>, i: &mut usize) -> (r: Option<Clause>)
    requires
        *old(i) <= cs@.len(),
    ensures
        *old(i) <= *final(i) <= cs@.len(),
        r is Some ==> *old(i) < *final(i),
        match r {
            Option::Some(c) => spec_clause(cs@, *old(i) as int) == Option::Some(
                (c@, *final(i) as int),
            ),
            Option::None => spec_clause(cs@, *old(i) as int) is None && *final(i) == *old(i),
        },
{
    let start = *i;
    if *i >= cs.len() || cs[*i] != '(' {
        return Option::None;
    }
    *i = *i + 1;
    skip_spaces(cs, i);
    let entity = match parse_var(cs, i) {
        Option::Some(v) => Term::Unbound(v),
        Option::None => {
            match parse_number(cs, i) {
                Option::Some(e) => Term::Bound(e),
                Option::None => {
                    *i = start;
                    return Option::None;
                },
            }
        },
    };
    skip_spaces(cs, i);
    let attribute = match parse_var(cs, i) {
        Option::Some(v) => Term::Unbound(v),
        Option::None => {
            match parse_ident(cs, i) {
                Option::Some(s) => Term::Bound(s),
                Option::None => {
                    *i = start;
                    return Option::None;
                },
            }
        },
    };
    skip_spaces(cs, i);
    let value = match parse_var(cs, i) {
        Option::Some(v) => Term::Unbound(v),
        Option::None => {
            match parse_value(cs, i) {
                Option::Some(v) => Term::Bound(v),
                Option::None => {
                    *i = start;
                    return Option::None;
                },
            }
        },
    };
    skip_spaces(cs, i);
    if *i >= cs.len() || cs[*i] != ')' {
        *i = start;
        return Option::None;
    }
    *i = *i + 1;
    skip_spaces(cs, i);
    Option::Some(Clause { entity, attribute, value })
}

/// A fact: `(` number ident value `)`.
fn parse_fact(cs: &Vec<char>, i: &mut usize) -> (r: Option<Fact>)
    requires
        *old(i) <= cs@.len(),
    ensures
        *old(i) <= *final(i) <= cs@.len(),
        r is Some ==> *old(i) < *final(i),
        match r {
            Option::Some(f) => spec_fact(cs@, *old(i) as int) == Option::Some(
                (f@, *final(i) as int),
            ),
            Option::None => spec_fact(cs@, *old(i) as int) is None && *final(i) == *old(i),
        },
{
    let start = *i;
    if *i >= cs.len() || cs[*i] != '(' {
        return Option::None;
    }
    *i = *i + 1;
    skip_spaces(cs, i);
    let entity = match parse_number(cs, i) {
        Option::Some(e) => e,
        Option::None => {
            *i = start;
            return Option::None;
        },
    };
    skip_spaces(cs, i);
    let attribute = match parse_ident(cs, i) {
        Option::Some(s) => s,
        Option::None => {
            *i = start;
            return Option::None;
        },
    };
    let value = match parse_value(cs, i) {
        Option::Some(v) => v,
        Option::None => {
            *i = start;
            return Option::None;
        },
    };
    skip_spaces(cs, i);
    if *i >= cs.len() || cs[*i] != ')' {
        *i = start;
        return Option::None;
    }
    *i = *i + 1;
    skip_spaces(cs, i);
    Option::Some(Fact { entity, attribute, value })
}

/// A new-entity item: `{` (ident value)+ `}`.
/// The views of the collected attribute/value pairs.
pub open spec fn pairs_vv(ps: Seq<(String, Value)>) -> Seq<(Seq<char>, ValV)> {
    ps.map_values(|p: (String, Value)| (p.0@, p.1@))
}

fn parse_new_entity(cs: &Vec<char>, i: &mut usize) -> (r: Option<TxItem>)
    requires
        *old(i) <= cs@.len(),
    ensures
        *old(i) <= *final(i) <= cs@.len(),
        r is Some ==> *old(i) < *final(i),
        match r {
            Option::Some(it) => spec_new_entity(cs@, *old(i) as int) matches Option::Some(p)
                && it@ == TxItemV::New(p.0) && *final(i) as int == p.1,
            Option::None => spec_new_entity(cs@, *old(i) as int) is None && *final(i) == *old(i),
        },
{
    let start = *i;
    if *i >= cs.len() || cs[*i] != '{' {
        return Option::None;
    }
    *i = *i + 1;
    skip_spaces(cs, i);
    let ghost i0 = *i as int;
    let mut pairs: Vec<(String, Value)> = Vec::new();
    proof {
        assert(pairs_vv(pairs@) =~= Seq::<(Seq<char>, ValV)>::empty());
    }
    loop
        invariant
            start < *i,
            *i <= cs@.len(),
            start == *old(i),
            i0 == sp(cs@, start + 1),
            start + 1 <= cs@.len(),
            0 <= start < cs@.len() && cs@[start as int] == '{',
            spec_pairs(cs@, i0) == (match spec_pairs(cs@, *i as int) {
                Option::None => Option::None::<(Seq<(Seq<char>, ValV)>, int)>,
                Option::Some(rest) => Option::Some((pairs_vv(pairs@) + rest.0, rest.1)),
            }),
        ensures
            spec_ident(cs@, *i as int) is None,
            spec_pairs(cs@, i0) == Option::Some((pairs_vv(pairs@), *i as int)),
        decreases cs@.len() - *i,
    {
        let name = match parse_ident(cs, i) {
            Option::Some(s) => s,
            Option::None => {
                proof {
                    assert(pairs_vv(pairs@) + Seq::<(Seq<char>, ValV)>::empty() =~= pairs_vv(
                        pairs@,
                    ));
                }
                break ;
            },
        };
        let value = match parse_value(cs, i) {
            Option::Some(v) => v,
            Option::None => {
                *i = start;
                return Option::None;
            },
        };
        skip_spaces(cs, i);
        let ghost ps0 = pairs@;
        pairs.push((name, value));
        proof {
            assert(pairs_vv(pairs@) =~= pairs_vv(ps0).push((name@, value@)));
            assert(pairs_vv(ps0).push((name@, value@)) =~= pairs_vv(ps0) + seq![(name@, value@)]);
            let tailp = spec_pairs(cs@, *i as int);
            if tailp is Some {
                assert(pairs_vv(ps0) + (seq![(name@, value@)] + tailp->Some_0.0) =~= pairs_vv(
                    pairs@,
                ) + tailp->Some_0.0);
            }
        }
    }
    if pairs.len() == 0 {
        proof {
            assert(pairs_vv(pairs@).len() == 0);
        }
        *i = start;
        return Option::None;
    }
    if *i >= cs.len() || cs[*i] != '}' {
        *i = start;
        return Option::None;
    }
    *i = *i + 1;
    skip_spaces(cs, i);
    Option::Some(TxItem::NewEntity(pairs))
}

/// One transaction item: an addition, a retraction, or a new entity.
fn parse_tx_item(cs: &Vec<char>, i: &mut usize) -> (r: Option<TxItem>)
    requires
        *old(i) <= cs@.len(),
    ensures
        *old(i) <= *final(i) <= cs@.len(),
        r is Some ==> *old(i) < *final(i),
        match r {
            Option::Some(it) => spec_tx_item(cs@, *old(i) as int) == Option::Some(
                (it@, *final(i) as int),
            ),
            Option::None => spec_tx_item(cs@, *old(i) as int) is None && *final(i) == *old(i),
        },
{
    proof {
        reveal_strlit("add");
        reveal_strlit("retract");
        assert("add"@.len() == 3);
        assert("retract"@.len() == 7);
    }
    let start = *i;
    if lex_word(cs, i, "add") {
        match parse_fact(cs, i) {
            Option::Some(f) => {
                return Option::Some(TxItem::Addition(f));
            },
            Option::None => {
                *i = start;
            },
        }
    }
    if lex_word(cs, i, "retract") {
        match parse_fact(cs, i) {
            Option::Some(f) => {
                return Option::Some(TxItem::Retraction(f));
            },
            Option::None => {
                *i = start;
            },
        }
    }
    parse_new_entity(cs, i)
}

/// Parse a query: `find` var+ `where` clause+, consuming all input.
pub fn parse_query(input: &str) -> (r: Result<Query, Error>)
    ensures
        match r {
            Result::Ok(q) => spec_parse_query(input@) == Option::Some(
                (vars_view(q.find@), clauses_view(q.clauses@)),
            ),
            Result::Err(e) => e@ is ParseError && spec_parse_query(input@) is None,
        },
{
    let cs = to_chars(input);
    let mut i: usize = 0;
    skip_spaces(&cs, &mut i);
    match parse_query_at(&cs, &mut i) {
        Option::Some(q) => {
            if i == cs.len() {
                Result::Ok(q)
            } else {
                Result::Err(Error::ParseError)
            }
        },
        Option::None => Result::Err(Error::ParseError),
    }
}

/// Parse a transaction: tx-item+, consuming all input.
pub fn parse_tx(input: &str) -> (r: Result<Tx, Error>)
    ensures
        match r {
            Result::Ok(t) => spec_parse_tx(input@) == Option::Some(items_view(t.items@)),
            Result::Err(e) => e@ is ParseError && spec_parse_tx(input@) is None,
        },
{
    let cs = to_chars(input);
    let mut i: usize = 0;
    skip_spaces(&cs, &mut i);
    match parse_tx_at(&cs, &mut i) {
        Option::Some(t) => {
            if i == cs.len() {
                Result::Ok(t)
            } else {
                Result::Err(Error::ParseError)
            }
        },
        Option::None => Result::Err(Error::ParseError),
    }
}

/// Parse any shell input: a query, a transaction, or one of the keywords
/// `test` (load the sample data) and `dump`, tried in that order.
pub fn parse_input(input: &str) -> (r: Result<Input, Error>)
    ensures
        match r {
            Result::Ok(Input::Query(q)) => spec_parse_query(input@) == Option::Some(
                (vars_view(q.find@), clauses_view(q.clauses@)),
            ),
            Result::Ok(Input::Tx(t)) => spec_parse_query(input@) is None && spec_parse_tx(input@)
                == Option::Some(items_view(t.items@)),
            Result::Ok(Input::SampleDb) => spec_parse_query(input@) is None && spec_parse_tx(
                input@,
            ) is None && spec_keyword(input@, "test"@),
            Result::Ok(Input::Dump) => spec_parse_query(input@) is None && spec_parse_tx(input@)
                is None && !spec_keyword(input@, "test"@) && spec_keyword(input@, "dump"@),
            Result::Err(e) => e@ is ParseError && spec_parse_query(input@) is None
                && spec_parse_tx(input@) is None && !spec_keyword(input@, "test"@)
                && !spec_keyword(input@, "dump"@),
        },
{
    let cs = to_chars(input);
    let mut i: usize = 0;
    skip_spaces(&cs, &mut i);
    match parse_query_at(&cs, &mut i) {
        Option::Some(q) => {
            if i == cs.len() {
                return Result::Ok(Input::Query(q));
            }
        },
        Option::None => {},
    }
    let mut i: usize = 0;
    skip_spaces(&cs, &mut i);
    match parse_tx_at(&cs, &mut i) {
        Option::Some(t) => {
            if i == cs.len() {
                return Result::Ok(Input::Tx(t));
            }
        },
        Option::None => {},
    }
    proof {
        reveal_strlit("test");
        reveal_strlit("dump");
        assert("test"@.len() == 4);
        assert("dump"@.len() == 4);
    }
    let mut i: usize = 0;
    skip_spaces(&cs, &mut i);
    if lex_word(&cs, &mut i, "test") && i == cs.len() {
        return Result::Ok(Input::SampleDb);
    }
    let mut i: usize = 0;
    skip_spaces(&cs, &mut i);
    if lex_word(&cs, &mut i, "dump") && i == cs.len() {
        return Result::Ok(Input::Dump);
    }
    Result::Err(Error::ParseError)
}

/// The query body.
fn parse_query_at(cs: &Vec<char>, i: &mut usize) -> (r: Option<Query>)
    requires
        *old(i) <= cs@.len(),
    ensures
        *old(i) <= *final(i) <= cs@.len(),
        match r {
            Option::Some(q) => spec_query_at(cs@, *old(i) as int) == Option::Some(
                ((vars_view(q.find@), clauses_view(q.clauses@)), *final(i) as int),
            ),
            Option::None => spec_query_at(cs@, *old(i) as int) is None && *final(i) == *old(i),
        },
{
    proof {
        reveal_strlit("find");
        reveal_strlit("where");
        assert("find"@.len() == 4);
        assert("where"@.len() == 5);
    }
    let start = *i;
    if !lex_word(cs, i, "find") {
        return Option::None;
    }
    let ghost iv = *i as int;
    let mut find: Vec<Var> = Vec::new();
    proof {
        assert(vars_view(find@) =~= Seq::<Seq<char>>::empty());
    }
    loop
        invariant
            start <= *i,
            *i <= cs@.len(),
            start == *old(i),
            spec_vars(cs@, iv).0 =~= vars_view(find@) + spec_vars(cs@, *i as int).0,
            spec_vars(cs@, iv).1 == spec_vars(cs@, *i as int).1,
        ensures
            spec_vars(cs@, iv).0 =~= vars_view(find@),
            spec_vars(cs@, iv).1 == *i as int,
            start <= *i <= cs@.len(),
            start == *old(i),
        decreases cs@.len() - *i,
    {
        match parse_var(cs, i) {
            Option::Some(v) => {
                let ghost f0 = find@;
                let ghost vv = v@;
                find.push(v);
                proof {
                    assert(vars_view(find@) =~= vars_view(f0).push(vv));
                    assert(vars_view(f0).push(vv) =~= vars_view(f0) + seq![vv]);
                    let rest = spec_vars(cs@, *i as int);
                    assert(vars_view(f0) + (seq![vv] + rest.0) =~= vars_view(find@) + rest.0);
                }
            },
            Option::None => {
                proof {
                    assert(vars_view(find@) + Seq::<Seq<char>>::empty() =~= vars_view(find@));
                }
                break ;
            },
        }
    }
    if find.len() == 0 {
        proof {
            assert(vars_view(find@).len() == 0);
            assert(spec_vars(cs@, iv).0.len() == 0);
        }
        *i = start;
        return Option::None;
    }
    if !lex_word(cs, i, "where") {
        *i = start;
        return Option::None;
    }
    let ghost ic = *i as int;
    let mut clauses: Vec<Clause> = Vec::new();
    proof {
        assert(clauses_view(clauses@) =~= Seq::<ClauseV>::empty());
    }
    loop
        invariant
            start <= *i,
            *i <= cs@.len(),
            spec_clauses(cs@, ic).0 =~= clauses_view(clauses@) + spec_clauses(cs@, *i as int).0,
            spec_clauses(cs@, ic).1 == spec_clauses(cs@, *i as int).1,
        ensures
            spec_clauses(cs@, ic).0 =~= clauses_view(clauses@),
            spec_clauses(cs@, ic).1 == *i as int,
            start <= *i <= cs@.len(),
        decreases cs@.len() - *i,
    {
        match parse_clause(cs, i) {
            Option::Some(c) => {
                let ghost c0 = clauses@;
                let ghost cv = c@;
                clauses.push(c);
                proof {
                    assert(clauses_view(clauses@) =~= clauses_view(c0).push(cv));
                    assert(clauses_view(c0).push(cv) =~= clauses_view(c0) + seq![cv]);
                    let rest = spec_clauses(cs@, *i as int);
                    assert(clauses_view(c0) + (seq![cv] + rest.0) =~= clauses_view(clauses@)
                        + rest.0);
                }
            },
            Option::None => {
                proof {
                    assert(clauses_view(clauses@) + Seq::<ClauseV>::empty() =~= clauses_view(
                        clauses@,
                    ));
                }
                break ;
            },
        }
    }
    if clauses.len() == 0 {
        proof {
            assert(clauses_view(clauses@).len() == 0);
            assert(spec_clauses(cs@, ic).0.len() == 0);
        }
        *i = start;
        return Option::None;
    }
    Option::Some(Query { find, clauses })
}

/// The transaction body.
fn parse_tx_at(cs: &Vec<char>, i: &mut usize) -> (r: Option<Tx>)
    requires
        *old(i) <= cs@.len(),
    ensures
        *old(i) <= *final(i) <= cs@.len(),
        match r {
            Option::Some(t) => spec_tx_at(cs@, *old(i) as int) == Option::Some(
                (items_view(t.items@), *final(i) as int),
            ),
            Option::None => spec_tx_at(cs@, *old(i) as int) is None && *final(i) == *old(i),
        },
{
    let start = *i;
    let mut items: Vec<TxItem> = Vec::new();
    proof {
        assert(items_view(items@) =~= Seq::<TxItemV>::empty());
    }
    loop
        invariant
            start <= *i,
            *i <= cs@.len(),
            start == *old(i),
            spec_items(cs@, start as int).0 =~= items_view(items@) + spec_items(
                cs@,
                *i as int,
            ).0,
            spec_items(cs@, start as int).1 == spec_items(cs@, *i as int).1,
        ensures
            spec_items(cs@, start as int).0 =~= items_view(items@),
            spec_items(cs@, start as int).1 == *i as int,
            start <= *i <= cs@.len(),
            start == *old(i),
        decreases cs@.len() - *i,
    {
        match parse_tx_item(cs, i) {
            Option::Some(it) => {
                let ghost t0 = items@;
                let ghost tv = it@;
                items.push(it);
                proof {
                    assert(items_view(items@) =~= items_view(t0).push(tv));
                    assert(items_view(t0).push(tv) =~= items_view(t0) + seq![tv]);
                    let rest = spec_items(cs@, *i as int);
                    assert(items_view(t0) + (seq![tv] + rest.0) =~= items_view(items@) + rest.0);
                }
            },
            Option::None => {
                proof {
                    assert(items_view(items@) + Seq::<TxItemV>::empty() =~= items_view(items@));
                }
                break ;
            },
        }
    }
    if items.len() == 0 {
        proof {
            assert(items_view(items@).len() == 0);
            assert(spec_items(cs@, start as int).0.len() == 0);
        }
        *i = start;
        return Option::None;
    }
    Option::Some(Tx { items })
}

} // verus!
