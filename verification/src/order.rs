//! The order of attribute names: strings compared character by character.

use vstd::prelude::*;
use vstd::std_specs::iter::IteratorSpec;

verus! {

/// Whether `a` comes strictly before `b` in lexicographic order: at the first
/// place where they differ `a` has the smaller character, or `a` ends there
/// and `b` goes on.
pub open spec fn lex_lt(a: Seq<char>, b: Seq<char>) -> bool
    decreases a.len(),
{
    if b.len() == 0 {
        false
    } else if a.len() == 0 {
        true
    } else if a[0] != b[0] {
        a[0] < b[0]
    } else {
        lex_lt(a.drop_first(), b.drop_first())
    }
}

/// Whether `a` is `b` or comes before it.
pub open spec fn lex_le(a: Seq<char>, b: Seq<char>) -> bool {
    a == b || lex_lt(a, b)
}

/// No string comes before itself.
pub proof fn lemma_lex_irreflexive(a: Seq<char>)
    ensures
        !lex_lt(a, a),
    decreases a.len(),
{
    if a.len() > 0 {
        lemma_lex_irreflexive(a.drop_first());
    }
}

/// What comes before a string comes before all that the string comes before.
pub proof fn lemma_lex_transitive(a: Seq<char>, b: Seq<char>, c: Seq<char>)
    requires
        lex_lt(a, b),
        lex_lt(b, c),
    ensures
        lex_lt(a, c),
    decreases a.len(),
{
    if a.len() > 0 && a[0] == b[0] && b[0] == c[0] {
        lemma_lex_transitive(a.drop_first(), b.drop_first(), c.drop_first());
    }
}

/// Of two different strings one comes before the other.
pub proof fn lemma_lex_total(a: Seq<char>, b: Seq<char>)
    ensures
        a == b || lex_lt(a, b) || lex_lt(b, a),
    decreases a.len(),
{
    if a.len() == 0 || b.len() == 0 {
        if a.len() == 0 && b.len() == 0 {
            assert(a =~= b);
        }
    } else if a[0] == b[0] {
        lemma_lex_total(a.drop_first(), b.drop_first());
        if a.drop_first() == b.drop_first() {
            assert(a =~= seq![a[0]] + a.drop_first());
            assert(b =~= seq![b[0]] + b.drop_first());
        }
    }
}

/// Of two strings at most one comes before the other.
pub proof fn lemma_lex_asymmetric(a: Seq<char>, b: Seq<char>)
    requires
        lex_lt(a, b),
    ensures
        !lex_lt(b, a),
        a != b,
{
    if lex_lt(b, a) {
        lemma_lex_transitive(a, b, a);
    }
    lemma_lex_irreflexive(a);
}

/// How two strings stand to each other.
pub enum Order {
    Before,
    Same,
    After,
}

/// Compares two strings character by character.
pub fn compare(a: &str, b: &str) -> (r: Order)
    ensures
        r is Before <==> lex_lt(a@, b@),
        r is Same <==> a@ == b@,
        r is After <==> lex_lt(b@, a@),
{
    let mut left = a.chars();
    let mut right = b.chars();
    let ghost mut done: int = 0;
    loop
        invariant
            0 <= done <= a@.len(),
            done <= b@.len(),
            left.remaining() == a@.skip(done),
            right.remaining() == b@.skip(done),
            lex_lt(a@, b@) <==> lex_lt(a@.skip(done), b@.skip(done)),
            lex_lt(b@, a@) <==> lex_lt(b@.skip(done), a@.skip(done)),
            a@ == b@ <==> a@.skip(done) == b@.skip(done),
        decreases a@.len() - done,
    {
        let x = left.next();
        let y = right.next();
        proof {
            lemma_lex_irreflexive(a@.skip(done));
        }
        match (x, y) {
            (None, None) => {
                assert(a@.skip(done) =~= b@.skip(done));
                return Order::Same;
            },
            (None, Some(_)) => {
                return Order::Before;
            },
            (Some(_), None) => {
                return Order::After;
            },
            (Some(p), Some(q)) => {
                if p < q {
                    proof {
                        lemma_lex_asymmetric(a@.skip(done), b@.skip(done));
                    }
                    return Order::Before;
                } else if q < p {
                    proof {
                        lemma_lex_asymmetric(b@.skip(done), a@.skip(done));
                    }
                    return Order::After;
                }
                proof {
                    let sa = a@.skip(done);
                    let sb = b@.skip(done);
                    assert(sa.drop_first() =~= a@.skip(done + 1));
                    assert(sb.drop_first() =~= b@.skip(done + 1));
                    assert(sa =~= seq![sa[0]] + sa.drop_first());
                    assert(sb =~= seq![sb[0]] + sb.drop_first());
                    done = done + 1;
                }
            },
        }
    }
}

} // verus!
