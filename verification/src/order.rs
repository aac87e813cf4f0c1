//! Lexicographic order on sequences, over any strict total order on the elements.
use vstd::prelude::*;

verus! {

/// `less` is a strict total order.
pub open spec fn strict_total_order<T>(less: spec_fn(T, T) -> bool) -> bool {
    &&& forall|x: T| !#[trigger] less(x, x)
    &&& forall|x: T, y: T, z: T| #[trigger]
        less(x, y) && #[trigger] less(y, z) ==> less(x, z)
    &&& forall|x: T, y: T| x == y || #[trigger] less(x, y) || less(y, x)
}

/// `a` comes before `b` in dictionary order: at the first place where they differ the element of
/// `a` is the smaller one, or `a` ends there.
pub open spec fn lex_less<T>(less: spec_fn(T, T) -> bool, a: Seq<T>, b: Seq<T>) -> bool
    decreases b.len(),
{
    if b.len() == 0 {
        false
    } else if a.len() == 0 {
        true
    } else if a[0] == b[0] {
        lex_less(less, a.drop_first(), b.drop_first())
    } else {
        less(a[0], b[0])
    }
}

/// No sequence comes before itself.
pub proof fn lemma_lex_irreflexive<T>(less: spec_fn(T, T) -> bool, a: Seq<T>)
    ensures
        !lex_less(less, a, a),
    decreases a.len(),
{
    if a.len() > 0 {
        lemma_lex_irreflexive(less, a.drop_first());
    }
}

/// Dictionary order is transitive.
pub proof fn lemma_lex_transitive<T>(
    less: spec_fn(T, T) -> bool,
    a: Seq<T>,
    b: Seq<T>,
    c: Seq<T>,
)
    requires
        strict_total_order(less),
        lex_less(less, a, b),
        lex_less(less, b, c),
    ensures
        lex_less(less, a, c),
    decreases c.len(),
{
    if a.len() > 0 && a[0] == b[0] && b[0] == c[0] {
        lemma_lex_transitive(less, a.drop_first(), b.drop_first(), c.drop_first());
    }
}

/// Of two different sequences one comes before the other.
pub proof fn lemma_lex_total<T>(less: spec_fn(T, T) -> bool, a: Seq<T>, b: Seq<T>)
    requires
        strict_total_order(less),
    ensures
        a == b || lex_less(less, a, b) || lex_less(less, b, a),
    decreases a.len(),
{
    if a.len() == 0 {
        assert(b.len() == 0 ==> a =~= b);
    } else if b.len() > 0 && a[0] == b[0] {
        lemma_lex_total(less, a.drop_first(), b.drop_first());
        if a.drop_first() == b.drop_first() {
            assert(a =~= seq![a[0]] + a.drop_first());
            assert(b =~= seq![b[0]] + b.drop_first());
        }
    }
}

/// A proper prefix comes before what it is a prefix of.
pub proof fn lemma_lex_prefix<T>(less: spec_fn(T, T) -> bool, a: Seq<T>, b: Seq<T>)
    requires
        a.is_prefix_of(b),
        a.len() < b.len(),
    ensures
        lex_less(less, a, b),
    decreases a.len(),
{
    if a.len() > 0 {
        assert(a[0] == b.subrange(0, a.len() as int)[0]);
        assert(a.drop_first() =~= b.drop_first().subrange(0, a.len() - 1)) by {
            assert forall|i: int| 0 <= i < a.len() - 1 implies a.drop_first()[i]
                == b.drop_first()[i] by {
                assert(a[i + 1] == b.subrange(0, a.len() as int)[i + 1]);
            }
        }
        lemma_lex_prefix(less, a.drop_first(), b.drop_first());
    }
}

/// Where two sequences share their first `n` elements, the rest decides.
pub proof fn lemma_lex_skip<T>(less: spec_fn(T, T) -> bool, a: Seq<T>, b: Seq<T>, n: int)
    requires
        0 <= n <= a.len(),
        n <= b.len(),
        forall|i: int| 0 <= i < n ==> a[i] == b[i],
    ensures
        lex_less(less, a, b) == lex_less(less, a.skip(n), b.skip(n)),
    decreases n,
{
    if n == 0 {
        assert(a.skip(0) =~= a);
        assert(b.skip(0) =~= b);
    } else {
        lemma_lex_skip(less, a, b, n - 1);
        let (x, y) = (a.skip(n - 1), b.skip(n - 1));
        assert(x[0] == a[n - 1] && y[0] == b[n - 1]);
        assert(x.drop_first() =~= a.skip(n));
        assert(y.drop_first() =~= b.skip(n));
    }
}

} // verus!
