//! The order of `String`s (lexicographic by character), strictly sorted
//! sequences of strings, and insertion into them.
use vstd::prelude::*;

verus! {

/// `a` comes before `b` in the order of `String`s: lexicographic, character by
/// character by code point, a proper prefix first.
pub open spec fn lex_lt(a: Seq<char>, b: Seq<char>) -> bool
    decreases a.len(),
{
    if a.len() == 0 {
        b.len() > 0
    } else if b.len() == 0 {
        false
    } else if a[0] != b[0] {
        (a[0] as int) < (b[0] as int)
    } else {
        lex_lt(a.drop_first(), b.drop_first())
    }
}

/// Every element comes before every later one.
pub open spec fn strictly_sorted(q: Seq<Seq<char>>) -> bool {
    forall|i: int, j: int| 0 <= i < j < q.len() ==> lex_lt(#[trigger] q[i], #[trigger] q[j])
}

/// The elements of a finite set of strings, in increasing order.
pub open spec fn sorted_of(s: Set<Seq<char>>) -> Seq<Seq<char>> {
    choose|q: Seq<Seq<char>>| strictly_sorted(q) && q.to_set() == s
}

pub proof fn lemma_lex_irreflexive(a: Seq<char>)
    ensures
        !lex_lt(a, a),
    decreases a.len(),
{
    if a.len() > 0 {
        lemma_lex_irreflexive(a.drop_first());
    }
}

pub proof fn lemma_lex_transitive(a: Seq<char>, b: Seq<char>, c: Seq<char>)
    requires
        lex_lt(a, b),
        lex_lt(b, c),
    ensures
        lex_lt(a, c),
    decreases a.len(),
{
    if a.len() > 0 && b.len() > 0 && c.len() > 0 {
        if a[0] == b[0] && b[0] == c[0] {
            lemma_lex_transitive(a.drop_first(), b.drop_first(), c.drop_first());
        }
    }
}

pub proof fn lemma_lex_asymmetric(a: Seq<char>, b: Seq<char>)
    requires
        lex_lt(a, b),
    ensures
        !lex_lt(b, a),
    decreases a.len(),
{
    if a.len() > 0 && b.len() > 0 && a[0] == b[0] {
        lemma_lex_asymmetric(a.drop_first(), b.drop_first());
    }
}

pub proof fn lemma_lex_total(a: Seq<char>, b: Seq<char>)
    ensures
        a == b || lex_lt(a, b) || lex_lt(b, a),
    decreases a.len(),
{
    if a.len() == 0 {
        if b.len() == 0 {
            assert(a =~= b);
        }
    } else if b.len() == 0 {
    } else if a[0] != b[0] {
    } else {
        let a1 = a.drop_first();
        let b1 = b.drop_first();
        lemma_lex_total(a1, b1);
        if a1 == b1 {
            assert forall|k: int| 0 <= k < a.len() implies a[k] == b[k] by {
                if k > 0 {
                    assert(a[k] == a1[k - 1]);
                    assert(b[k] == b1[k - 1]);
                }
            }
            assert(a =~= b);
        }
    }
}

proof fn lemma_sorted_drop_first(q: Seq<Seq<char>>)
    requires
        strictly_sorted(q),
        q.len() > 0,
    ensures
        strictly_sorted(q.drop_first()),
        q.drop_first().to_set() == q.to_set().remove(q[0]),
{
    assert forall|i: int, j: int| 0 <= i < j < q.drop_first().len() implies lex_lt(
        #[trigger] q.drop_first()[i],
        #[trigger] q.drop_first()[j],
    ) by {
        assert(lex_lt(q[i + 1], q[j + 1]));
    }
    assert forall|x: Seq<char>| q.drop_first().to_set().contains(x) <==> q.to_set().remove(
        q[0],
    ).contains(x) by {
        if q.drop_first().to_set().contains(x) {
            let k = choose|k: int| 0 <= k < q.drop_first().len() && q.drop_first()[k] == x;
            assert(q[k + 1] == x);
            assert(lex_lt(q[0], q[k + 1]));
            lemma_lex_irreflexive(q[0]);
            assert(q.contains(x));
        }
        if q.to_set().remove(q[0]).contains(x) {
            let k = choose|k: int| 0 <= k < q.len() && q[k] == x;
            assert(k != 0);
            assert(q.drop_first()[k - 1] == x);
        }
    }
    assert(q.drop_first().to_set() =~= q.to_set().remove(q[0]));
}

/// Two strictly sorted sequences with the same elements are equal.
pub proof fn lemma_sorted_unique(a: Seq<Seq<char>>, b: Seq<Seq<char>>)
    requires
        strictly_sorted(a),
        strictly_sorted(b),
        a.to_set() == b.to_set(),
    ensures
        a == b,
    decreases a.len(),
{
    if a.len() == 0 {
        if b.len() > 0 {
            assert(b.to_set().contains(b[0]));
        }
        assert(a =~= b);
    } else {
        assert(a.to_set().contains(a[0]));
        assert(b.len() > 0);
        assert(b.to_set().contains(b[0]));
        let j = choose|j: int| 0 <= j < b.len() && b[j] == a[0];
        let i = choose|i: int| 0 <= i < a.len() && a[i] == b[0];
        if j > 0 {
            assert(lex_lt(b[0], b[j]));
            if i > 0 {
                assert(lex_lt(a[0], a[i]));
                lemma_lex_asymmetric(a[0], a[i]);
            } else {
                lemma_lex_irreflexive(a[0]);
            }
        }
        assert(a[0] == b[0]);
        lemma_sorted_drop_first(a);
        lemma_sorted_drop_first(b);
        lemma_sorted_unique(a.drop_first(), b.drop_first());
        assert(a =~= seq![a[0]] + a.drop_first());
        assert(b =~= seq![b[0]] + b.drop_first());
    }
}

/// A strictly sorted sequence is the sorted form of its set of elements.
pub proof fn lemma_sorted_of(q: Seq<Seq<char>>)
    requires
        strictly_sorted(q),
    ensures
        sorted_of(q.to_set()) == q,
{
    let r = sorted_of(q.to_set());
    assert(strictly_sorted(r) && r.to_set() == q.to_set());
    lemma_sorted_unique(r, q);
}

/// Whether `a` comes before `b` in the order of `String`s.
pub fn lex_less(a: &[char], b: &[char]) -> (r: bool)
    ensures
        r == lex_lt(a@, b@),
{
    let mut i: usize = 0;
    assert(a@.skip(0) =~= a@);
    assert(b@.skip(0) =~= b@);
    assert(a@.subrange(0, 0) =~= b@.subrange(0, 0));
    while i < a.len() && i < b.len()
        invariant
            i <= a@.len(),
            i <= b@.len(),
            a@.subrange(0, i as int) == b@.subrange(0, i as int),
            lex_lt(a@, b@) == lex_lt(a@.skip(i as int), b@.skip(i as int)),
        decreases a@.len() - i,
    {
        if a[i] != b[i] {
            return a[i] < b[i];
        }
        assert(a@.skip(i as int).drop_first() =~= a@.skip(i + 1));
        assert(b@.skip(i as int).drop_first() =~= b@.skip(i + 1));
        assert(a@.subrange(0, i + 1) =~= a@.subrange(0, i as int).push(a@[i as int]));
        assert(b@.subrange(0, i + 1) =~= b@.subrange(0, i as int).push(b@[i as int]));
        i = i + 1;
    }
    i == a.len() && i < b.len()
}

/// Inserts `x` into the strictly sorted `v`, unless it is already there.
pub fn insert_sorted(v: &mut Vec<Vec<char>>, x: Vec<char>)
    requires
        strictly_sorted(old(v).deep_view()),
    ensures
        strictly_sorted(final(v).deep_view()),
        final(v).deep_view().to_set() == old(v).deep_view().to_set().insert(x@),
{
    let ghost old_v = v.deep_view();
    let mut i: usize = 0;
    while i < v.len() && lex_less(&v[i], &x)
        invariant
            v.deep_view() == old_v,
            i <= v@.len(),
            forall|k: int| 0 <= k < i ==> lex_lt(#[trigger] old_v[k], x@),
        decreases v@.len() - i,
    {
        assert(old_v[i as int] == v@[i as int]@);
        i = i + 1;
    }
    if i < v.len() && crate::text::chars_eq(&v[i], &x) {
        assert(old_v[i as int] == v@[i as int]@);
        assert(old_v.contains(x@));
        assert(old_v.to_set().contains(x@));
        assert(old_v.to_set().insert(x@) =~= old_v.to_set());
        return;
    }
    proof {
        if i < old_v.len() {
            assert(old_v[i as int] == v@[i as int]@);
            lemma_lex_total(old_v[i as int], x@);
        }
    }
    let ghost old_raw = v@;
    let ghost xv = x@;
    v.insert(i, x);
    let ghost nv = v.deep_view();
    assert forall|k: int| 0 <= k < nv.len() implies nv[k] == old_v.insert(i as int, xv)[k] by {
        if k < i {
            assert(nv[k] == old_raw[k]@);
        } else if k > i {
            assert(nv[k] == old_raw[k - 1]@);
        }
    }
    assert(nv =~= old_v.insert(i as int, x@));
    assert forall|a: int, b: int| 0 <= a < b < nv.len() implies lex_lt(
        #[trigger] nv[a],
        #[trigger] nv[b],
    ) by {
        if b < i {
            assert(lex_lt(old_v[a], old_v[b]));
        } else if b == i {
            assert(lex_lt(old_v[a], x@));
        } else if a == i {
            assert(lex_lt(x@, old_v[i as int]));
            if b - 1 > i {
                assert(lex_lt(old_v[i as int], old_v[b - 1]));
                lemma_lex_transitive(x@, old_v[i as int], old_v[b - 1]);
            }
        } else if a < i {
            assert(lex_lt(old_v[a], x@));
            if i < old_v.len() {
                assert(lex_lt(x@, old_v[i as int]));
                lemma_lex_transitive(old_v[a], x@, old_v[i as int]);
                if b - 1 > i {
                    assert(lex_lt(old_v[i as int], old_v[b - 1]));
                    lemma_lex_transitive(old_v[a], old_v[i as int], old_v[b - 1]);
                }
            }
        } else {
            assert(lex_lt(old_v[a - 1], old_v[b - 1]));
        }
    }
    assert forall|y: Seq<char>| nv.to_set().contains(y) <==> old_v.to_set().insert(x@).contains(
        y,
    ) by {
        if nv.to_set().contains(y) {
            let k = choose|k: int| 0 <= k < nv.len() && nv[k] == y;
            if k < i {
                assert(old_v[k] == y);
            } else if k > i {
                assert(old_v[k - 1] == y);
            }
        }
        if old_v.to_set().contains(y) {
            let k = choose|k: int| 0 <= k < old_v.len() && old_v[k] == y;
            if k < i {
                assert(nv[k] == y);
            } else {
                assert(nv[k + 1] == y);
            }
        }
        if y == x@ {
            assert(nv[i as int] == y);
        }
    }
    assert(nv.to_set() =~= old_v.to_set().insert(x@));
}

} // verus!
