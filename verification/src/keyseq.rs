use vstd::prelude::*;

verus! {

/// The keys appear in non-decreasing order.
pub open spec fn sorted(s: Seq<i64>) -> bool {
    forall|i: int, j: int| 0 <= i <= j < s.len() ==> s[i] <= s[j]
}

/// `s` with `x` inserted before the first key greater than `x`. On a
/// sorted sequence this is the unique sorted position, with `x` placed
/// after any equal keys already present.
pub open spec fn seq_insert(s: Seq<i64>, x: i64) -> Seq<i64>
    decreases s.len(),
{
    if s.len() == 0 {
        seq![x]
    } else if x < s.first() {
        seq![x] + s
    } else {
        seq![s.first()] + seq_insert(s.drop_first(), x)
    }
}

/// `s` with the first occurrence of `x` removed; `s` unchanged when `x`
/// does not occur.
pub open spec fn seq_remove(s: Seq<i64>, x: i64) -> Seq<i64>
    decreases s.len(),
{
    if s.len() == 0 {
        s
    } else if s.first() == x {
        s.drop_first()
    } else {
        seq![s.first()] + seq_remove(s.drop_first(), x)
    }
}

/// Splitting a sorted sequence at one key: the two sides are sorted and
/// every key on the left is at most `a`, every key on the right at least
/// `a` -- and conversely.
pub proof fn lemma_sorted_split(l: Seq<i64>, a: i64, r: Seq<i64>)
    ensures
        sorted(l + seq![a] + r) <==> (sorted(l) && sorted(r) && (forall|i: int|
            0 <= i < l.len() ==> #[trigger] l[i] <= a) && (forall|i: int|
            0 <= i < r.len() ==> a <= #[trigger] r[i])),
{
    let s = l + seq![a] + r;
    assert(forall|i: int| 0 <= i < l.len() ==> s[i] == l[i]);
    assert(s[l.len() as int] == a);
    assert(forall|i: int| 0 <= i < r.len() ==> s[l.len() + 1 + i] == r[i]);
    if sorted(l) && sorted(r) && (forall|i: int| 0 <= i < l.len() ==> #[trigger] l[i] <= a)
        && (forall|i: int| 0 <= i < r.len() ==> a <= #[trigger] r[i]) {
        assert forall|i: int, j: int| 0 <= i <= j < s.len() implies s[i] <= s[j] by {
            if j < l.len() {
            } else if i > l.len() {
                assert(s[i] == r[i - l.len() - 1]);
                assert(s[j] == r[j - l.len() - 1]);
            } else if i < l.len() && j == l.len() {
            } else if i == l.len() && j > l.len() {
            } else if i < l.len() && j > l.len() {
                assert(s[i] <= a);
                assert(a <= s[j]);
            }
        }
    }
}

/// What `seq_insert` holds: one key longer, it contains `x`, and its keys
/// are those of `s` together with `x`.
pub proof fn lemma_seq_insert_props(s: Seq<i64>, x: i64)
    ensures
        seq_insert(s, x).len() == s.len() + 1,
        seq_insert(s, x).contains(x),
        forall|y: i64| #[trigger] seq_insert(s, x).contains(y) <==> (y == x || s.contains(y)),
    decreases s.len(),
{
    broadcast use vstd::seq_lib::group_seq_properties;

    if s.len() == 0 {
        assert(seq_insert(s, x) == seq![x]);
        assert(seq![x][0] == x);
        assert(seq![x].contains(x));
        assert forall|y: i64| #[trigger] seq_insert(s, x).contains(y) implies (y == x
            || s.contains(y)) by {
            let i = choose|i: int| 0 <= i < seq_insert(s, x).len() && seq_insert(s, x)[i] == y;
            assert(i == 0);
        }
    } else if x < s.first() {
        assert(seq_insert(s, x) == seq![x] + s);
        assert((seq![x] + s)[0] == x);
        assert forall|y: i64| #[trigger] seq_insert(s, x).contains(y) implies (y == x
            || s.contains(y)) by {
            let i = choose|i: int| 0 <= i < seq_insert(s, x).len() && seq_insert(s, x)[i] == y;
            if i > 0 {
                assert(s[i - 1] == y);
            }
        }
        assert forall|y: i64| (y == x || s.contains(y)) implies #[trigger] seq_insert(
            s,
            x,
        ).contains(y) by {
            if y == x {
                assert(seq_insert(s, x)[0] == y);
            } else {
                let i = choose|i: int| 0 <= i < s.len() && s[i] == y;
                assert(seq_insert(s, x)[i + 1] == y);
            }
        }
    } else {
        let rest = s.drop_first();
        lemma_seq_insert_props(rest, x);
        assert(seq_insert(s, x) == seq![s.first()] + seq_insert(rest, x));
        assert(s == seq![s.first()] + rest);
        assert forall|y: i64| #[trigger] seq_insert(s, x).contains(y) implies (y == x
            || s.contains(y)) by {
            let i = choose|i: int| 0 <= i < seq_insert(s, x).len() && seq_insert(s, x)[i] == y;
            if i == 0 {
                assert(s[0] == y);
            } else {
                assert(seq_insert(rest, x)[i - 1] == y);
                assert(seq_insert(rest, x).contains(y));
                if y != x {
                    let j = choose|j: int| 0 <= j < rest.len() && rest[j] == y;
                    assert(s[j + 1] == y);
                }
            }
        }
        assert forall|y: i64| (y == x || s.contains(y)) implies #[trigger] seq_insert(
            s,
            x,
        ).contains(y) by {
            if y == x || rest.contains(y) {
                assert(seq_insert(rest, x).contains(y));
                let j = choose|j: int|
                    0 <= j < seq_insert(rest, x).len() && seq_insert(rest, x)[j] == y;
                assert(seq_insert(s, x)[j + 1] == y);
            } else {
                let i = choose|i: int| 0 <= i < s.len() && s[i] == y;
                if i == 0 {
                    assert(seq_insert(s, x)[0] == y);
                } else {
                    assert(rest[i - 1] == y);
                }
            }
        }
        assert(seq_insert(s, x).contains(x));
    }
}

/// Inserting into a sorted sequence keeps it sorted.
pub proof fn lemma_seq_insert_sorted(s: Seq<i64>, x: i64)
    requires
        sorted(s),
    ensures
        sorted(seq_insert(s, x)),
    decreases s.len(),
{
    if s.len() == 0 {
    } else if x < s.first() {
        let t = seq![x] + s;
        assert forall|i: int, j: int| 0 <= i <= j < t.len() implies t[i] <= t[j] by {
            if i == 0 && j > 0 {
                assert(t[j] == s[j - 1]);
                assert(s[0] <= s[j - 1]);
            } else if i > 0 {
                assert(t[i] == s[i - 1]);
                assert(t[j] == s[j - 1]);
            }
        }
    } else {
        let rest = s.drop_first();
        assert(forall|i: int| 0 <= i < rest.len() ==> rest[i] == s[i + 1]);
        assert(sorted(rest));
        lemma_seq_insert_sorted(rest, x);
        lemma_seq_insert_props(rest, x);
        let t = seq![s.first()] + seq_insert(rest, x);
        assert forall|i: int, j: int| 0 <= i <= j < t.len() implies t[i] <= t[j] by {
            if i == 0 && j > 0 {
                let y = seq_insert(rest, x)[j - 1];
                assert(seq_insert(rest, x).contains(y));
                if y == x {
                    assert(s.first() <= x);
                } else {
                    assert(rest.contains(y));
                    let k = choose|k: int| 0 <= k < rest.len() && rest[k] == y;
                    assert(s[0] <= s[k + 1]);
                }
            }
        }
    }
}

/// When every key of `s` is at least `x`, the insertion point is the
/// front.
pub proof fn lemma_seq_insert_prepend(s: Seq<i64>, x: i64)
    requires
        forall|i: int| 0 <= i < s.len() ==> x <= #[trigger] s[i],
    ensures
        seq_insert(s, x) == seq![x] + s,
    decreases s.len(),
{
    if s.len() == 0 {
        assert(seq_insert(s, x) =~= seq![x] + s);
    } else if x < s.first() {
    } else {
        let rest = s.drop_first();
        assert(forall|i: int| 0 <= i < rest.len() ==> x <= #[trigger] rest[i]);
        lemma_seq_insert_prepend(rest, x);
        assert(s.first() == x);
        assert(seq_insert(s, x) == seq![x] + (seq![x] + rest));
        assert(seq![x] + (seq![x] + rest) =~= seq![x] + s);
    }
}

/// An insertion below the middle key happens in the left part.
pub proof fn lemma_seq_insert_left(l: Seq<i64>, a: i64, r: Seq<i64>, x: i64)
    requires
        x < a,
    ensures
        seq_insert(l + seq![a] + r, x) == seq_insert(l, x) + seq![a] + r,
    decreases l.len(),
{
    let s = l + seq![a] + r;
    if l.len() == 0 {
        assert(s.first() == a);
        assert(seq_insert(s, x) == seq![x] + s);
        assert(seq![x] + s =~= seq_insert(l, x) + seq![a] + r);
    } else if x < l.first() {
        assert(s.first() == l.first());
        assert(seq_insert(s, x) == seq![x] + s);
        assert(seq_insert(l, x) == seq![x] + l);
        assert(seq![x] + s =~= (seq![x] + l) + seq![a] + r);
    } else {
        assert(s.first() == l.first());
        assert(s.drop_first() =~= l.drop_first() + seq![a] + r);
        lemma_seq_insert_left(l.drop_first(), a, r, x);
        assert(seq_insert(s, x) == seq![s.first()] + (seq_insert(l.drop_first(), x) + seq![a] + r));
        assert(seq_insert(l, x) == seq![l.first()] + seq_insert(l.drop_first(), x));
        assert(seq![s.first()] + (seq_insert(l.drop_first(), x) + seq![a] + r) =~= seq_insert(l, x)
            + seq![a] + r);
    }
}

/// An insertion at or above the middle key happens in the right part,
/// provided no key on the left exceeds `x`.
pub proof fn lemma_seq_insert_right(l: Seq<i64>, a: i64, r: Seq<i64>, x: i64)
    requires
        a <= x,
        forall|i: int| 0 <= i < l.len() ==> #[trigger] l[i] <= x,
    ensures
        seq_insert(l + seq![a] + r, x) == l + seq![a] + seq_insert(r, x),
    decreases l.len(),
{
    let s = l + seq![a] + r;
    if l.len() == 0 {
        assert(s.first() == a);
        assert(!(x < s.first()));
        assert(s.drop_first() =~= r);
        assert(seq_insert(s, x) == seq![a] + seq_insert(r, x));
        assert(seq![a] + seq_insert(r, x) =~= l + seq![a] + seq_insert(r, x));
    } else {
        assert(s.first() == l.first());
        assert(l[0] <= x);
        assert(!(x < s.first()));
        assert(s.drop_first() =~= l.drop_first() + seq![a] + r);
        assert(forall|i: int| 0 <= i < l.drop_first().len() ==> #[trigger] l.drop_first()[i] == l[i
            + 1]);
        lemma_seq_insert_right(l.drop_first(), a, r, x);
        assert(seq_insert(s, x) == seq![l.first()] + (l.drop_first() + seq![a] + seq_insert(r, x)));
        assert(seq![l.first()] + (l.drop_first() + seq![a] + seq_insert(r, x)) =~= l + seq![a]
            + seq_insert(r, x));
    }
}

/// What `seq_remove` holds: nothing changes when `x` is absent, one key
/// fewer when present, and no new key appears.
pub proof fn lemma_seq_remove_props(s: Seq<i64>, x: i64)
    ensures
        !s.contains(x) ==> seq_remove(s, x) == s,
        s.contains(x) ==> seq_remove(s, x).len() + 1 == s.len(),
        forall|y: i64| #[trigger] seq_remove(s, x).contains(y) ==> s.contains(y),
    decreases s.len(),
{
    broadcast use vstd::seq_lib::group_seq_properties;

    if s.len() == 0 {
    } else if s.first() == x {
        assert(s[0] == x);
        assert(s.contains(x));
        assert forall|y: i64| #[trigger] seq_remove(s, x).contains(y) implies s.contains(y) by {
            let i = choose|i: int| 0 <= i < s.drop_first().len() && s.drop_first()[i] == y;
            assert(s[i + 1] == y);
        }
    } else {
        let rest = s.drop_first();
        lemma_seq_remove_props(rest, x);
        assert(s == seq![s.first()] + rest);
        if !s.contains(x) {
            assert(forall|i: int| 0 <= i < rest.len() ==> rest[i] == s[i + 1]);
            assert(!rest.contains(x)) by {
                if rest.contains(x) {
                    let i = choose|i: int| 0 <= i < rest.len() && rest[i] == x;
                    assert(s[i + 1] == x);
                }
            }
            assert(seq_remove(s, x) == seq![s.first()] + rest);
            assert(seq![s.first()] + rest =~= s);
        } else {
            assert(rest.contains(x)) by {
                let i = choose|i: int| 0 <= i < s.len() && s[i] == x;
                assert(i != 0);
                assert(rest[i - 1] == x);
            }
        }
        assert forall|y: i64| #[trigger] seq_remove(s, x).contains(y) implies s.contains(y) by {
            let t = seq![s.first()] + seq_remove(rest, x);
            let i = choose|i: int| 0 <= i < t.len() && t[i] == y;
            if i == 0 {
                assert(s[0] == y);
            } else {
                assert(seq_remove(rest, x)[i - 1] == y);
                assert(seq_remove(rest, x).contains(y));
                assert(rest.contains(y));
                let j = choose|j: int| 0 <= j < rest.len() && rest[j] == y;
                assert(s[j + 1] == y);
            }
        }
    }
}

/// Removing a key from a sorted sequence keeps it sorted.
pub proof fn lemma_seq_remove_sorted(s: Seq<i64>, x: i64)
    requires
        sorted(s),
    ensures
        sorted(seq_remove(s, x)),
    decreases s.len(),
{
    if s.len() == 0 {
    } else if s.first() == x {
        assert(forall|i: int| 0 <= i < s.drop_first().len() ==> s.drop_first()[i] == s[i + 1]);
    } else {
        let rest = s.drop_first();
        assert(forall|i: int| 0 <= i < rest.len() ==> rest[i] == s[i + 1]);
        assert(sorted(rest));
        lemma_seq_remove_sorted(rest, x);
        lemma_seq_remove_props(rest, x);
        let t = seq![s.first()] + seq_remove(rest, x);
        assert forall|i: int, j: int| 0 <= i <= j < t.len() implies t[i] <= t[j] by {
            if i == 0 && j > 0 {
                let y = seq_remove(rest, x)[j - 1];
                assert(seq_remove(rest, x).contains(y));
                assert(rest.contains(y));
                let k = choose|k: int| 0 <= k < rest.len() && rest[k] == y;
                assert(s[0] <= s[k + 1]);
            }
        }
    }
}

/// A removal of a key below the middle one happens in the left part,
/// provided no key on the right is below `a`.
pub proof fn lemma_seq_remove_left(l: Seq<i64>, a: i64, r: Seq<i64>, x: i64)
    requires
        x < a,
        forall|i: int| 0 <= i < r.len() ==> a <= #[trigger] r[i],
    ensures
        seq_remove(l + seq![a] + r, x) == seq_remove(l, x) + seq![a] + r,
    decreases l.len(),
{
    let s = l + seq![a] + r;
    if l.len() == 0 {
        assert(s.first() == a);
        assert(s.first() != x);
        assert(s.drop_first() =~= r);
        assert(!r.contains(x)) by {
            if r.contains(x) {
                let i = choose|i: int| 0 <= i < r.len() && r[i] == x;
            }
        }
        lemma_seq_remove_props(r, x);
        assert(seq_remove(s, x) == seq![a] + r);
        assert(seq![a] + r =~= seq_remove(l, x) + seq![a] + r);
    } else if l.first() == x {
        assert(s.first() == x);
        assert(seq_remove(s, x) == s.drop_first());
        assert(seq_remove(l, x) == l.drop_first());
        assert(s.drop_first() =~= l.drop_first() + seq![a] + r);
    } else {
        assert(s.first() == l.first());
        assert(s.drop_first() =~= l.drop_first() + seq![a] + r);
        lemma_seq_remove_left(l.drop_first(), a, r, x);
        assert(seq_remove(s, x) == seq![l.first()] + (seq_remove(l.drop_first(), x) + seq![a] + r));
        assert(seq_remove(l, x) == seq![l.first()] + seq_remove(l.drop_first(), x));
        assert(seq![l.first()] + (seq_remove(l.drop_first(), x) + seq![a] + r) =~= seq_remove(l, x)
            + seq![a] + r);
    }
}

/// A removal of a key above the middle one happens in the right part,
/// provided no key on the left exceeds `a`.
pub proof fn lemma_seq_remove_right(l: Seq<i64>, a: i64, r: Seq<i64>, x: i64)
    requires
        a < x,
        forall|i: int| 0 <= i < l.len() ==> #[trigger] l[i] <= a,
    ensures
        seq_remove(l + seq![a] + r, x) == l + seq![a] + seq_remove(r, x),
    decreases l.len(),
{
    let s = l + seq![a] + r;
    if l.len() == 0 {
        assert(s.first() == a);
        assert(s.first() != x);
        assert(s.drop_first() =~= r);
        assert(seq_remove(s, x) == seq![a] + seq_remove(r, x));
        assert(seq![a] + seq_remove(r, x) =~= l + seq![a] + seq_remove(r, x));
    } else {
        assert(s.first() == l.first());
        assert(l[0] <= a);
        assert(s.first() != x);
        assert(s.drop_first() =~= l.drop_first() + seq![a] + r);
        assert(forall|i: int| 0 <= i < l.drop_first().len() ==> #[trigger] l.drop_first()[i] == l[i
            + 1]);
        lemma_seq_remove_right(l.drop_first(), a, r, x);
        assert(seq_remove(s, x) == seq![l.first()] + (l.drop_first() + seq![a] + seq_remove(r, x)));
        assert(seq![l.first()] + (l.drop_first() + seq![a] + seq_remove(r, x)) =~= l + seq![a]
            + seq_remove(r, x));
    }
}

/// Removing the middle key itself: with the left part sorted and none of
/// its keys above `a`, the first occurrence removed is interchangeable
/// with the middle one, and the two parts join.
pub proof fn lemma_seq_remove_at(l: Seq<i64>, a: i64, r: Seq<i64>)
    requires
        sorted(l),
        forall|i: int| 0 <= i < l.len() ==> #[trigger] l[i] <= a,
    ensures
        seq_remove(l + seq![a] + r, a) == l + r,
    decreases l.len(),
{
    let s = l + seq![a] + r;
    if l.len() == 0 {
        assert(s.first() == a);
        assert(seq_remove(s, a) == s.drop_first());
        assert(s.drop_first() =~= l + r);
    } else if l.first() == a {
        assert(s.first() == a);
        assert(seq_remove(s, a) == s.drop_first());
        assert(forall|i: int| 0 <= i < l.len() ==> #[trigger] l[i] == a) by {
            assert(forall|i: int| 0 < i < l.len() ==> l[0] <= #[trigger] l[i]);
        }
        assert(s.drop_first() =~= l.drop_first() + seq![a] + r);
        assert(l.drop_first() + seq![a] + r =~= l + r);
    } else {
        assert(s.first() == l.first());
        assert(s.first() != a);
        assert(s.drop_first() =~= l.drop_first() + seq![a] + r);
        assert(forall|i: int| 0 <= i < l.drop_first().len() ==> #[trigger] l.drop_first()[i] == l[i
            + 1]);
        assert(sorted(l.drop_first()));
        lemma_seq_remove_at(l.drop_first(), a, r);
        assert(seq_remove(s, a) == seq![l.first()] + (l.drop_first() + r));
        assert(seq![l.first()] + (l.drop_first() + r) =~= l + r);
    }
}

/// Inserting a key into a sorted sequence and then removing it restores
/// the sequence exactly.
pub proof fn lemma_seq_insert_remove(s: Seq<i64>, x: i64)
    requires
        sorted(s),
    ensures
        seq_remove(seq_insert(s, x), x) == s,
    decreases s.len(),
{
    if s.len() == 0 {
        assert(seq_insert(s, x) == seq![x]);
        assert(seq![x].first() == x);
        assert(seq![x].drop_first() =~= s);
    } else if x < s.first() {
        assert(seq_insert(s, x) == seq![x] + s);
        assert((seq![x] + s).first() == x);
        assert((seq![x] + s).drop_first() =~= s);
    } else if s.first() == x {
        assert(forall|i: int| 0 <= i < s.len() ==> x <= #[trigger] s[i]) by {
            assert(forall|i: int| 0 < i < s.len() ==> s[0] <= #[trigger] s[i]);
        }
        lemma_seq_insert_prepend(s, x);
        assert((seq![x] + s).first() == x);
        assert((seq![x] + s).drop_first() =~= s);
    } else {
        let rest = s.drop_first();
        assert(forall|i: int| 0 <= i < rest.len() ==> rest[i] == s[i + 1]);
        assert(sorted(rest));
        lemma_seq_insert_remove(rest, x);
        assert(seq_insert(s, x) == seq![s.first()] + seq_insert(rest, x));
        let t = seq![s.first()] + seq_insert(rest, x);
        lemma_seq_insert_props(rest, x);
        assert(t.first() == s.first());
        assert(t.first() != x);
        assert(t.drop_first() =~= seq_insert(rest, x));
        assert(seq_remove(t, x) == seq![s.first()] + seq_remove(seq_insert(rest, x), x));
        assert(seq![s.first()] + rest =~= s);
    }
}


/// Membership in a split sequence: a key occurs in `l + [a] + r` exactly
/// when it is `a` or occurs in one of the parts.
pub proof fn lemma_contains_split(l: Seq<i64>, a: i64, r: Seq<i64>, x: i64)
    ensures
        (l + seq![a] + r).contains(x) <==> (x == a || l.contains(x) || r.contains(x)),
{
    let s = l + seq![a] + r;
    if s.contains(x) {
        let i = choose|i: int| 0 <= i < s.len() && s[i] == x;
        if i < l.len() {
            assert(l[i] == x);
        } else if i > l.len() {
            assert(r[i - l.len() - 1] == x);
        }
    }
    if x == a {
        assert(s[l.len() as int] == x);
    }
    if l.contains(x) {
        let i = choose|i: int| 0 <= i < l.len() && l[i] == x;
        assert(s[i] == x);
    }
    if r.contains(x) {
        let i = choose|i: int| 0 <= i < r.len() && r[i] == x;
        assert(s[l.len() + 1 + i] == x);
    }
}

} // verus!
