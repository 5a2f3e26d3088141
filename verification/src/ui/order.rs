//! Stable insertion sort, stated once and shared by the paint order and
//! focus traversal.
use vstd::prelude::*;

verus! {

/// `t` with `x` placed after every entry that may stay before it.
pub open spec fn insert_by<A>(t: Seq<A>, x: A, le: spec_fn(A, A) -> bool) -> Seq<A>
    decreases t.len(),
{
    if t.len() == 0 {
        seq![x]
    } else if le(t.last(), x) {
        t.push(x)
    } else {
        insert_by(t.drop_last(), x, le).push(t.last())
    }
}

/// The stable insertion sort of `s` by `le`.
pub open spec fn sort_by<A>(s: Seq<A>, le: spec_fn(A, A) -> bool) -> Seq<A>
    decreases s.len(),
{
    if s.len() == 0 {
        s
    } else {
        insert_by(sort_by(s.drop_last(), le), s.last(), le)
    }
}

/// Inserting before the first entry that `x` must precede.
pub proof fn lemma_insert_at<A>(t: Seq<A>, x: A, le: spec_fn(A, A) -> bool, j: int)
    requires
        0 <= j <= t.len(),
        forall|m: int| j <= m < t.len() ==> !le(#[trigger] t[m], x),
        j == 0 || le(t[j - 1], x),
    ensures
        insert_by(t, x, le) == t.take(j).push(x) + t.skip(j),
    decreases t.len(),
{
    if t.len() == j {
        assert(t.take(j) =~= t);
        assert(t.skip(j) =~= Seq::<A>::empty());
        if j == 0 {
            assert(t.take(j).push(x) + t.skip(j) =~= seq![x]);
        } else {
            assert(t.take(j).push(x) + t.skip(j) =~= t.push(x));
        }
    } else {
        assert(!le(t[t.len() - 1], x));
        let d = t.drop_last();
        lemma_insert_at(d, x, le, j);
        assert(d.take(j) =~= t.take(j));
        assert((d.take(j).push(x) + d.skip(j)).push(t.last()) =~= t.take(j).push(x) + t.skip(j));
    }
}

/// Sorting keeps the length, and a property of every entry.
pub proof fn lemma_sort_keeps<A>(s: Seq<A>, le: spec_fn(A, A) -> bool, p: spec_fn(A) -> bool)
    requires
        forall|i: int| 0 <= i < s.len() ==> p(#[trigger] s[i]),
    ensures
        sort_by(s, le).len() == s.len(),
        forall|i: int| 0 <= i < sort_by(s, le).len() ==> p(#[trigger] sort_by(s, le)[i]),
    decreases s.len(),
{
    if s.len() > 0 {
        let d = s.drop_last();
        assert forall|i: int| 0 <= i < d.len() implies p(#[trigger] d[i]) by {
            assert(p(s[i]));
        }
        lemma_sort_keeps(d, le, p);
        assert(p(s[s.len() - 1]));
        lemma_insert_keeps(sort_by(d, le), s.last(), le, p);
    }
}

proof fn lemma_insert_keeps<A>(t: Seq<A>, x: A, le: spec_fn(A, A) -> bool, p: spec_fn(A) -> bool)
    requires
        forall|i: int| 0 <= i < t.len() ==> p(#[trigger] t[i]),
        p(x),
    ensures
        insert_by(t, x, le).len() == t.len() + 1,
        forall|i: int| 0 <= i < insert_by(t, x, le).len() ==> p(#[trigger] insert_by(t, x, le)[i]),
    decreases t.len(),
{
    if t.len() > 0 && !le(t.last(), x) {
        let d = t.drop_last();
        assert forall|i: int| 0 <= i < d.len() implies p(#[trigger] d[i]) by {
            assert(p(t[i]));
        }
        lemma_insert_keeps(d, x, le, p);
        assert(p(t[t.len() - 1]));
    }
}

/// Whether `le` orders every pair one way or the other, transitively.
pub open spec fn total_preorder<A>(le: spec_fn(A, A) -> bool) -> bool {
    &&& forall|a: A, b: A| #[trigger] le(a, b) || le(b, a)
    &&& forall|a: A, b: A, c: A| #[trigger] le(a, b) && #[trigger] le(b, c) ==> le(a, c)
}

/// Inserting keeps every entry of `t` and adds `x`.
proof fn lemma_insert_contains<A>(t: Seq<A>, x: A, le: spec_fn(A, A) -> bool)
    ensures
        insert_by(t, x, le).contains(x),
        forall|i: int| 0 <= i < t.len() ==> insert_by(t, x, le).contains(#[trigger] t[i]),
    decreases t.len(),
{
    if t.len() == 0 {
        assert(seq![x][0] == x);
    } else if le(t.last(), x) {
        assert(t.push(x)[t.len() as int] == x);
        assert forall|i: int| 0 <= i < t.len() implies insert_by(t, x, le).contains(#[trigger] t[i]) by {
            assert(t.push(x)[i] == t[i]);
        }
    } else {
        let d = t.drop_last();
        lemma_insert_contains(d, x, le);
        let r = insert_by(d, x, le);
        let k = choose|k: int| 0 <= k < r.len() && r[k] == x;
        assert(r.push(t.last())[k] == x);
        assert forall|i: int| 0 <= i < t.len() implies insert_by(t, x, le).contains(#[trigger] t[i]) by {
            if i == t.len() - 1 {
                assert(r.push(t.last())[r.len() as int] == t[i]);
            } else {
                assert(d[i] == t[i]);
                assert(r.contains(d[i]));
                let m = choose|m: int| 0 <= m < r.len() && r[m] == d[i];
                assert(r.push(t.last())[m] == t[i]);
            }
        }
    }
}

/// Sorting keeps every entry.
pub proof fn lemma_sort_contains<A>(s: Seq<A>, le: spec_fn(A, A) -> bool)
    ensures
        forall|i: int| 0 <= i < s.len() ==> sort_by(s, le).contains(#[trigger] s[i]),
    decreases s.len(),
{
    if s.len() > 0 {
        let d = s.drop_last();
        lemma_sort_contains(d, le);
        let r = sort_by(d, le);
        lemma_insert_contains(r, s.last(), le);
        assert forall|i: int| 0 <= i < s.len() implies sort_by(s, le).contains(#[trigger] s[i]) by {
            if i < s.len() - 1 {
                assert(d[i] == s[i]);
                assert(r.contains(d[i]));
                let m = choose|m: int| 0 <= m < r.len() && r[m] == d[i];
                assert(insert_by(r, s.last(), le).contains(r[m]));
            }
        }
    }
}

/// Inserting into an ordered list by a total preorder keeps it ordered.
proof fn lemma_insert_sorted<A>(t: Seq<A>, x: A, le: spec_fn(A, A) -> bool)
    requires
        total_preorder(le),
        forall|i: int, j: int| 0 <= i < j < t.len() ==> le(#[trigger] t[i], #[trigger] t[j]),
    ensures
        forall|i: int, j: int|
            0 <= i < j < insert_by(t, x, le).len() ==> le(#[trigger] insert_by(t, x, le)[i], #[trigger] insert_by(t, x, le)[j]),
    decreases t.len(),
{
    if t.len() == 0 {
    } else if le(t.last(), x) {
        let r = t.push(x);
        assert forall|i: int, j: int| 0 <= i < j < r.len() implies le(#[trigger] r[i], #[trigger] r[j]) by {
            if j == t.len() {
                if i < t.len() - 1 {
                    assert(le(t[i], t[t.len() - 1]));
                }
            } else {
                assert(r[i] == t[i] && r[j] == t[j]);
            }
        }
    } else {
        let d = t.drop_last();
        let last = t.last();
        assert(le(x, last));
        assert forall|i: int, j: int| 0 <= i < j < d.len() implies le(#[trigger] d[i], #[trigger] d[j]) by {
            assert(d[i] == t[i] && d[j] == t[j]);
        }
        lemma_insert_sorted(d, x, le);
        let below = |y: A| le(y, last);
        assert forall|i: int| 0 <= i < d.len() implies below(#[trigger] d[i]) by {
            assert(d[i] == t[i]);
            assert(le(t[i], t[t.len() - 1]));
        }
        lemma_insert_keeps(d, x, le, below);
        let r = insert_by(d, x, le);
        let out = r.push(last);
        assert forall|i: int, j: int| 0 <= i < j < out.len() implies le(#[trigger] out[i], #[trigger] out[j]) by {
            if j == r.len() {
                assert(below(r[i]));
            } else {
                assert(out[i] == r[i] && out[j] == r[j]);
            }
        }
    }
}

/// Sorting by a total preorder leaves every entry ordered before each later
/// one.
pub proof fn lemma_sort_sorted<A>(s: Seq<A>, le: spec_fn(A, A) -> bool)
    requires
        total_preorder(le),
    ensures
        forall|i: int, j: int| 0 <= i < j < sort_by(s, le).len() ==> le(#[trigger] sort_by(s, le)[i], #[trigger] sort_by(s, le)[j]),
    decreases s.len(),
{
    if s.len() > 0 {
        lemma_sort_sorted(s.drop_last(), le);
        lemma_insert_sorted(sort_by(s.drop_last(), le), s.last(), le);
    }
}

} // verus!
