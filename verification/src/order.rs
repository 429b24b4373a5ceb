//! The order of names, and the listing of a finite set of names in that
//! order. Names are ordered as strings are: character by character, by code
//! point, a proper prefix before what it is a prefix of.

use vstd::prelude::*;
use vstd::string::StrSliceExecFns;

verus! {

/// `a` comes before `b`.
pub open spec fn name_less(a: Seq<char>, b: Seq<char>) -> bool
    decreases a.len(),
{
    if b.len() == 0 {
        false
    } else if a.len() == 0 {
        true
    } else if a[0] != b[0] {
        (a[0] as int) < (b[0] as int)
    } else {
        name_less(a.drop_first(), b.drop_first())
    }
}

/// Each name comes before all that follow it; so none occurs twice.
pub open spec fn strictly_sorted(names: Seq<Seq<char>>) -> bool {
    forall|i: int, j: int| 0 <= i < j < names.len() ==> name_less(names[i], names[j])
}

/// No name comes before itself.
pub proof fn lemma_name_less_irreflexive(a: Seq<char>)
    ensures
        !name_less(a, a),
    decreases a.len(),
{
    if a.len() > 0 {
        lemma_name_less_irreflexive(a.drop_first());
    }
}

/// Of two different names one comes before the other.
pub proof fn lemma_name_less_total(a: Seq<char>, b: Seq<char>)
    ensures
        a == b || name_less(a, b) || name_less(b, a),
    decreases a.len(),
{
    if a.len() == 0 || b.len() == 0 {
        if a.len() == 0 && b.len() == 0 {
            assert(a =~= b);
        }
    } else if a[0] == b[0] {
        lemma_name_less_total(a.drop_first(), b.drop_first());
        if a.drop_first() == b.drop_first() {
            assert(a =~= seq![a[0]] + a.drop_first());
            assert(b =~= seq![b[0]] + b.drop_first());
        }
    } else {
        assert(a[0] as int != b[0] as int);
    }
}

/// What comes before a name comes before all that the name comes before.
pub proof fn lemma_name_less_transitive(a: Seq<char>, b: Seq<char>, c: Seq<char>)
    requires
        name_less(a, b),
        name_less(b, c),
    ensures
        name_less(a, c),
    decreases a.len(),
{
    if a.len() > 0 {
        if a[0] == b[0] && b[0] == c[0] {
            lemma_name_less_transitive(a.drop_first(), b.drop_first(), c.drop_first());
        }
    }
}

/// Two sorted sequences that hold the same names are the same sequence.
pub proof fn lemma_sorted_unique(a: Seq<Seq<char>>, b: Seq<Seq<char>>)
    requires
        strictly_sorted(a),
        strictly_sorted(b),
        forall|x: Seq<char>| a.contains(x) == b.contains(x),
    ensures
        a == b,
    decreases a.len(),
{
    if a.len() == 0 {
        if b.len() > 0 {
            assert(b.contains(b[0]));
        }
        assert(a =~= b);
    } else {
        assert(a.contains(a.last()));
        if b.len() == 0 {
            let k = choose|k: int| 0 <= k < b.len() && b[k] == a.last();
        }
        assert(b.contains(b.last()));
        let i = choose|i: int| 0 <= i < a.len() && a[i] == b.last();
        let j = choose|j: int| 0 <= j < b.len() && b[j] == a.last();
        lemma_name_less_irreflexive(a.last());
        lemma_name_less_irreflexive(b.last());
        if a.last() != b.last() {
            assert(name_less(a[i], a.last()));
            assert(name_less(b[j], b.last()));
            lemma_name_less_transitive(a.last(), b.last(), a.last());
        }
        assert forall|x: Seq<char>| a.drop_last().contains(x) == b.drop_last().contains(x) by {
            lemma_name_less_irreflexive(x);
            if a.drop_last().contains(x) {
                let p = choose|p: int| 0 <= p < a.drop_last().len() && a.drop_last()[p] == x;
                assert(a[p] == x);
                assert(name_less(a[p], a.last()));
                assert(a.contains(x));
                let q = choose|q: int| 0 <= q < b.len() && b[q] == x;
                assert(b.drop_last()[q] == x);
            }
            if b.drop_last().contains(x) {
                let p = choose|p: int| 0 <= p < b.drop_last().len() && b.drop_last()[p] == x;
                assert(b[p] == x);
                assert(name_less(b[p], b.last()));
                assert(b.contains(x));
                let q = choose|q: int| 0 <= q < a.len() && a[q] == x;
                assert(a.drop_last()[q] == x);
            }
        }
        lemma_sorted_unique(a.drop_last(), b.drop_last());
        assert(a =~= a.drop_last().push(a.last()));
        assert(b =~= b.drop_last().push(b.last()));
    }
}

/// A sorted sequence with one more name after it, which all its names come
/// before, is sorted.
proof fn lemma_sorted_push(q: Seq<Seq<char>>, v: Seq<char>)
    requires
        strictly_sorted(q),
        forall|k: int| 0 <= k < q.len() ==> name_less(q[k], v),
    ensures
        strictly_sorted(q.push(v)),
{
}

/// What a sequence holds after one more name is what it held and the name.
pub proof fn lemma_push_members(q: Seq<Seq<char>>, v: Seq<char>, n: Seq<char>)
    ensures
        q.push(v).contains(n) <==> q.contains(n) || n == v,
{
    if q.push(v).contains(n) {
        let k = choose|k: int| 0 <= k < q.push(v).len() && q.push(v)[k] == n;
        if k < q.len() {
            assert(q[k] == n);
        }
    }
    if q.contains(n) {
        let k = choose|k: int| 0 <= k < q.len() && q[k] == n;
        assert(q.push(v)[k] == n);
    }
    if n == v {
        assert(q.push(v)[q.len() as int] == n);
    }
}

/// A sorted sequence with one more name put at its place.
proof fn sorted_with(q: Seq<Seq<char>>, v: Seq<char>) -> (r: Seq<Seq<char>>)
    requires
        strictly_sorted(q),
        !q.contains(v),
    ensures
        strictly_sorted(r),
        forall|n: Seq<char>| r.contains(n) <==> q.contains(n) || n == v,
    decreases q.len(),
{
    if q.len() == 0 {
        let r = q.push(v);
        assert forall|n: Seq<char>| r.contains(n) <==> q.contains(n) || n == v by {
            lemma_push_members(q, v, n);
        }
        r
    } else if name_less(q.last(), v) {
        let r = q.push(v);
        assert forall|k: int| 0 <= k < q.len() implies name_less(q[k], v) by {
            if k < q.len() - 1 {
                lemma_name_less_transitive(q[k], q.last(), v);
            }
        }
        lemma_sorted_push(q, v);
        assert forall|n: Seq<char>| r.contains(n) <==> q.contains(n) || n == v by {
            lemma_push_members(q, v, n);
        }
        r
    } else {
        let front = q.drop_last();
        assert forall|n: Seq<char>| front.contains(n) implies q.contains(n) by {
            let k = choose|k: int| 0 <= k < front.len() && front[k] == n;
            assert(q[k] == n);
        }
        let r0 = sorted_with(front, v);
        let r = r0.push(q.last());
        assert(q.contains(q.last()));
        lemma_name_less_total(q.last(), v);
        assert forall|k: int| 0 <= k < r0.len() implies name_less(r0[k], q.last()) by {
            assert(r0.contains(r0[k]));
            if r0[k] != v {
                let at = choose|at: int| 0 <= at < front.len() && front[at] == r0[k];
                assert(name_less(q[at], q[q.len() - 1]));
            }
        }
        lemma_sorted_push(r0, q.last());
        assert forall|n: Seq<char>| r.contains(n) <==> q.contains(n) || n == v by {
            lemma_push_members(r0, q.last(), n);
            assert(q =~= front.push(q.last()));
            lemma_push_members(front, q.last(), n);
        }
        r
    }
}

/// A set of names that are all among the names of a sequence can be listed
/// in the order of names.
pub proof fn sorted_listing(names: Seq<Seq<char>>, s: Set<Seq<char>>) -> (q: Seq<Seq<char>>)
    requires
        forall|n: Seq<char>| s.contains(n) ==> names.contains(n),
    ensures
        strictly_sorted(q),
        forall|n: Seq<char>| q.contains(n) == s.contains(n),
    decreases names.len(),
{
    if names.len() == 0 {
        let q = Seq::<Seq<char>>::empty();
        assert forall|n: Seq<char>| q.contains(n) == s.contains(n) by {
            if s.contains(n) {
                assert(names.contains(n));
            }
        }
        q
    } else {
        let v = names.last();
        let front = names.drop_last();
        let rest = s.remove(v);
        assert forall|n: Seq<char>| rest.contains(n) implies front.contains(n) by {
            assert(names.contains(n));
            let k = choose|k: int| 0 <= k < names.len() && names[k] == n;
            assert(front[k] == n);
        }
        let q0 = sorted_listing(front, rest);
        if s.contains(v) {
            let q = sorted_with(q0, v);
            assert forall|n: Seq<char>| q.contains(n) == s.contains(n) by {
                assert(q0.contains(n) == rest.contains(n));
            }
            q
        } else {
            assert forall|n: Seq<char>| q0.contains(n) == s.contains(n) by {
                assert(q0.contains(n) == rest.contains(n));
            }
            q0
        }
    }
}

/// Whether `a` comes before `b`.
pub fn name_before(a: &str, b: &str) -> (before: bool)
    ensures
        before == name_less(a@, b@),
{
    let a_len = a.unicode_len();
    let b_len = b.unicode_len();
    let mut i: usize = 0;
    assert(a@.skip(0) =~= a@ && b@.skip(0) =~= b@);
    while i < a_len && i < b_len
        invariant
            i <= a_len,
            i <= b_len,
            a_len == a@.len(),
            b_len == b@.len(),
            name_less(a@, b@) == name_less(a@.skip(i as int), b@.skip(i as int)),
        decreases a_len - i,
    {
        let x = a.get_char(i);
        let y = b.get_char(i);
        proof {
            assert(a@.skip(i as int).drop_first() =~= a@.skip(i + 1));
            assert(b@.skip(i as int).drop_first() =~= b@.skip(i + 1));
        }
        if x != y {
            return x < y;
        }
        i += 1;
    }
    i < b_len
}

/// Puts `name` into the sorted `names` at its place, unless it is there.
pub fn insert_sorted(names: &mut Vec<String>, name: String)
    requires
        strictly_sorted(old(names).deep_view()),
    ensures
        strictly_sorted(final(names).deep_view()),
        forall|x: Seq<char>|
            final(names).deep_view().contains(x) <==> old(names).deep_view().contains(x) || x
                == name@,
{
    let ghost before = names.deep_view();
    let mut at: usize = 0;
    while at < names.len() && name_before(names[at].as_str(), name.as_str())
        invariant
            at <= names.len(),
            names.deep_view() == before,
            forall|k: int| 0 <= k < at ==> name_less(before[k], name@),
        decreases names.len() - at,
    {
        at += 1;
    }
    if at < names.len() && names[at] == name {
        assert(before[at as int] == name@);
        return ;
    }
    names.insert(at, name);
    proof {
        let after = names.deep_view();
        assert(after =~= before.insert(at as int, name@));
        assert forall|i: int, j: int| 0 <= i < j < after.len() implies name_less(
            after[i],
            after[j],
        ) by {
            if j == at {
            } else if i == at {
                lemma_name_less_total(before[at as int], name@);
                if j - 1 > at {
                    lemma_name_less_transitive(name@, before[at as int], before[j - 1]);
                }
            } else {
                let i0 = if i < at { i } else { i - 1 };
                let j0 = if j < at { j } else { j - 1 };
                assert(name_less(before[i0], before[j0]));
            }
        }
        assert forall|x: Seq<char>| after.contains(x) <==> before.contains(x) || x == name@ by {
            if after.contains(x) {
                let k = choose|k: int| 0 <= k < after.len() && after[k] == x;
                if k < at {
                    assert(before[k] == x);
                } else if k > at {
                    assert(before[k - 1] == x);
                }
            }
            if before.contains(x) {
                let k = choose|k: int| 0 <= k < before.len() && before[k] == x;
                if k < at {
                    assert(after[k] == x);
                } else {
                    assert(after[k + 1] == x);
                }
            }
            if x == name@ {
                assert(after[at as int] == x);
            }
        }
    }
}

/// Puts every name of `more` into the sorted `names`.
pub fn insert_all(names: &mut Vec<String>, more: &[String])
    requires
        strictly_sorted(old(names).deep_view()),
    ensures
        strictly_sorted(final(names).deep_view()),
        forall|x: Seq<char>|
            final(names).deep_view().contains(x) <==> old(names).deep_view().contains(x)
                || more.deep_view().contains(x),
{
    let ghost before = names.deep_view();
    let ghost adding = more.deep_view();
    let mut i: usize = 0;
    while i < more.len()
        invariant
            i <= more.len(),
            adding == more.deep_view(),
            strictly_sorted(names.deep_view()),
            forall|x: Seq<char>|
                names.deep_view().contains(x) <==> before.contains(x) || adding.take(
                    i as int,
                ).contains(x),
        decreases more.len() - i,
    {
        let ghost held = names.deep_view();
        let name = more[i].clone();
        assert(name@ == adding[i as int]);
        insert_sorted(names, name);
        proof {
            let shorter = adding.take(i as int);
            let longer = adding.take(i + 1);
            assert forall|x: Seq<char>|
                names.deep_view().contains(x) <==> before.contains(x) || longer.contains(x) by {
                assert(held.contains(x) <==> before.contains(x) || shorter.contains(x));
                if longer.contains(x) {
                    let k = choose|k: int| 0 <= k < longer.len() && longer[k] == x;
                    if k < i {
                        assert(shorter[k] == x);
                    }
                }
                if shorter.contains(x) {
                    let k = choose|k: int| 0 <= k < shorter.len() && shorter[k] == x;
                    assert(longer[k] == x);
                }
                if x == adding[i as int] {
                    assert(longer[i as int] == x);
                }
            }
        }
        i += 1;
    }
    assert(adding.len() == more.len());
    assert(adding.take(i as int) =~= adding);
}

} // verus!
