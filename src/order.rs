//! Lexicographic order on finished-good codes and on chains of them.
use crate::finished_good::FinishedGood;
use vstd::prelude::*;

verus! {

/// `a` sorts before `b`, character by character.
pub open spec fn code_lt(a: Seq<char>, b: Seq<char>) -> bool
    decreases a.len(),
{
    if a.len() == 0 {
        b.len() > 0
    } else if b.len() == 0 {
        false
    } else if a[0] != b[0] {
        (a[0] as u32) < (b[0] as u32)
    } else {
        code_lt(a.drop_first(), b.drop_first())
    }
}

/// Chain `a` sorts before chain `b`, code by code.
pub open spec fn chain_lt(a: Seq<Seq<char>>, b: Seq<Seq<char>>) -> bool
    decreases a.len(),
{
    if a.len() == 0 {
        b.len() > 0
    } else if b.len() == 0 {
        false
    } else if a[0] != b[0] {
        code_lt(a[0], b[0])
    } else {
        chain_lt(a.drop_first(), b.drop_first())
    }
}

pub proof fn lemma_code_lt_irreflexive(a: Seq<char>)
    ensures
        !code_lt(a, a),
    decreases a.len(),
{
    if a.len() > 0 {
        lemma_code_lt_irreflexive(a.drop_first());
    }
}

pub proof fn lemma_code_lt_total(a: Seq<char>, b: Seq<char>)
    requires
        a != b,
    ensures
        code_lt(a, b) || code_lt(b, a),
    decreases a.len(),
{
    if a.len() > 0 && b.len() > 0 && a[0] == b[0] {
        if a.drop_first() == b.drop_first() {
            assert(a == seq![a[0]] + a.drop_first());
            assert(b == seq![b[0]] + b.drop_first());
        }
        lemma_code_lt_total(a.drop_first(), b.drop_first());
    } else if a.len() > 0 && b.len() > 0 {
        vstd::utf8::char_u32_cast(a[0], a[0] as u32);
        vstd::utf8::char_u32_cast(b[0], b[0] as u32);
    } else if a.len() == 0 && b.len() == 0 {
        assert(a =~= b);
    }
}

pub proof fn lemma_code_lt_transitive(a: Seq<char>, b: Seq<char>, c: Seq<char>)
    requires
        code_lt(a, b),
        code_lt(b, c),
    ensures
        code_lt(a, c),
    decreases a.len(),
{
    if a.len() > 0 && a[0] == b[0] && b[0] == c[0] {
        lemma_code_lt_transitive(a.drop_first(), b.drop_first(), c.drop_first());
    }
}

pub proof fn lemma_chain_lt_irreflexive(a: Seq<Seq<char>>)
    ensures
        !chain_lt(a, a),
    decreases a.len(),
{
    if a.len() > 0 {
        lemma_chain_lt_irreflexive(a.drop_first());
    }
}

pub proof fn lemma_chain_lt_total(a: Seq<Seq<char>>, b: Seq<Seq<char>>)
    requires
        a != b,
    ensures
        chain_lt(a, b) || chain_lt(b, a),
    decreases a.len(),
{
    if a.len() > 0 && b.len() > 0 {
        if a[0] == b[0] {
            if a.drop_first() == b.drop_first() {
                assert(a == seq![a[0]] + a.drop_first());
                assert(b == seq![b[0]] + b.drop_first());
            }
            lemma_chain_lt_total(a.drop_first(), b.drop_first());
        } else {
            lemma_code_lt_total(a[0], b[0]);
        }
    } else if a.len() == 0 && b.len() == 0 {
        assert(a =~= b);
    }
}

pub proof fn lemma_chain_lt_transitive(a: Seq<Seq<char>>, b: Seq<Seq<char>>, c: Seq<Seq<char>>)
    requires
        chain_lt(a, b),
        chain_lt(b, c),
    ensures
        chain_lt(a, c),
    decreases a.len(),
{
    if a.len() > 0 {
        if a[0] == b[0] && b[0] == c[0] {
            lemma_chain_lt_transitive(a.drop_first(), b.drop_first(), c.drop_first());
        } else if a[0] != b[0] && b[0] != c[0] {
            lemma_code_lt_transitive(a[0], b[0], c[0]);
            if a[0] == c[0] {
                lemma_code_lt_irreflexive(a[0]);
            }
        }
    }
}

/// Compares two codes.
pub fn fg_lt(a: &FinishedGood, b: &FinishedGood) -> (r: bool)
    ensures
        r == code_lt(a@, b@),
{
    let sa = a.code.as_str();
    let sb = b.code.as_str();
    let na = sa.unicode_len();
    let nb = sb.unicode_len();
    let mut i: usize = 0;
    assert(a@.skip(0) == a@ && b@.skip(0) == b@);
    while i < na && i < nb
        invariant
            na == a@.len(),
            nb == b@.len(),
            sa@ == a@,
            sb@ == b@,
            i <= na,
            i <= nb,
            code_lt(a@, b@) == code_lt(a@.skip(i as int), b@.skip(i as int)),
        decreases na - i,
    {
        let ca = sa.get_char(i);
        let cb = sb.get_char(i);
        assert(a@.skip(i as int)[0] == ca);
        assert(b@.skip(i as int)[0] == cb);
        if ca != cb {
            return (ca as u32) < (cb as u32);
        }
        assert(a@.skip(i as int).drop_first() == a@.skip(i + 1));
        assert(b@.skip(i as int).drop_first() == b@.skip(i + 1));
        i = i + 1;
    }
    i == na && i < nb
}

pub open spec fn chain_view(c: Seq<FinishedGood>) -> Seq<Seq<char>> {
    c.map_values(|f: FinishedGood| f@)
}

/// Compares two chains.
pub fn chain_before(a: &Vec<FinishedGood>, b: &Vec<FinishedGood>) -> (r: bool)
    ensures
        r == chain_lt(chain_view(a@), chain_view(b@)),
{
    let ghost va = chain_view(a@);
    let ghost vb = chain_view(b@);
    let mut i: usize = 0;
    assert(va.skip(0) == va && vb.skip(0) == vb);
    while i < a.len() && i < b.len()
        invariant
            va == chain_view(a@),
            vb == chain_view(b@),
            i <= a@.len(),
            i <= b@.len(),
            chain_lt(va, vb) == chain_lt(va.skip(i as int), vb.skip(i as int)),
        decreases a@.len() - i,
    {
        assert(va.skip(i as int)[0] == a@[i as int]@);
        assert(vb.skip(i as int)[0] == b@[i as int]@);
        if a[i] != b[i] {
            return fg_lt(&a[i], &b[i]);
        }
        assert(va.skip(i as int).drop_first() == va.skip(i + 1));
        assert(vb.skip(i as int).drop_first() == vb.skip(i + 1));
        i = i + 1;
    }
    i == a.len() && i < b.len()
}

} // verus!
