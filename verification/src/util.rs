//! Small sequence facts: counting unmarked entries of a visited array (the
//! termination measure of the graph walks) and first-occurrence removal.

use vstd::prelude::*;

verus! {

/// How many entries of a mark array are still `false`.
pub open spec fn count_false(s: Seq<bool>) -> nat
    decreases s.len(),
{
    if s.len() == 0 {
        0
    } else {
        count_false(s.drop_last()) + if s.last() {
            0nat
        } else {
            1nat
        }
    }
}

/// Marking one unmarked entry lowers the count by exactly one.
pub proof fn lemma_count_false_update(s: Seq<bool>, i: int)
    requires
        0 <= i < s.len(),
        !s[i],
    ensures
        count_false(s.update(i, true)) + 1 == count_false(s),
    decreases s.len(),
{
    let t = s.update(i, true);
    if i == s.len() - 1 {
        assert(t.drop_last() =~= s.drop_last());
        assert(t.last());
    } else {
        lemma_count_false_update(s.drop_last(), i);
        assert(t.drop_last() =~= s.drop_last().update(i, true));
        assert(t.last() == s.last());
    }
}

/// An unmarked entry keeps the count positive.
pub proof fn lemma_count_false_pos(s: Seq<bool>, i: int)
    requires
        0 <= i < s.len(),
        !s[i],
    ensures
        count_false(s) >= 1,
    decreases s.len(),
{
    if i < s.len() - 1 {
        lemma_count_false_pos(s.drop_last(), i);
    }
}

/// A fully unmarked array counts its whole length.
pub proof fn lemma_count_false_all(s: Seq<bool>)
    requires
        forall|k: int| 0 <= k < s.len() ==> !s[k],
    ensures
        count_false(s) == s.len(),
    decreases s.len(),
{
    if s.len() > 0 {
        lemma_count_false_all(s.drop_last());
    }
}

/// Pointwise more marks means no larger a count.
pub proof fn lemma_count_false_mono(s: Seq<bool>, t: Seq<bool>)
    requires
        s.len() == t.len(),
        forall|i: int| 0 <= i < s.len() && s[i] ==> t[i],
    ensures
        count_false(t) <= count_false(s),
    decreases s.len(),
{
    if s.len() > 0 {
        lemma_count_false_mono(s.drop_last(), t.drop_last());
        assert(s[s.len() - 1] ==> t[s.len() - 1]);
    }
}

/// How many entries are still `false` across a ragged two-level mark array.
pub open spec fn count_false2(ss: Seq<Seq<bool>>) -> nat
    decreases ss.len(),
{
    if ss.len() == 0 {
        0
    } else {
        count_false2(ss.drop_last()) + count_false(ss.last())
    }
}

/// Marking one unmarked entry of one row lowers the total by exactly one.
pub proof fn lemma_count_false2_update(ss: Seq<Seq<bool>>, u: int, i: int)
    requires
        0 <= u < ss.len(),
        0 <= i < ss[u].len(),
        !ss[u][i],
    ensures
        count_false2(ss.update(u, ss[u].update(i, true))) + 1 == count_false2(ss),
    decreases ss.len(),
{
    let tt = ss.update(u, ss[u].update(i, true));
    if u == ss.len() - 1 {
        assert(tt.drop_last() =~= ss.drop_last());
        lemma_count_false_update(ss[u], i);
        assert(tt.last() =~= ss[u].update(i, true));
    } else {
        lemma_count_false2_update(ss.drop_last(), u, i);
        assert(tt.drop_last() =~= ss.drop_last().update(u, ss[u].update(i, true)));
        assert(tt.last() =~= ss.last());
    }
}

/// The two-level view of a vector of mark rows.
pub open spec fn rows_view(vs: Seq<Vec<bool>>) -> Seq<Seq<bool>> {
    Seq::new(vs.len(), |k: int| vs[k]@)
}

/// The sequence with the first occurrence of `x` removed (unchanged when `x`
/// does not occur).
pub open spec fn remove_first<T>(s: Seq<T>, x: T) -> Seq<T>
    decreases s.len(),
{
    if s.len() == 0 {
        s
    } else if s.first() == x {
        s.drop_first()
    } else {
        seq![s.first()] + remove_first(s.drop_first(), x)
    }
}

/// Appending a fresh element and removing it again restores the sequence.
pub proof fn lemma_remove_first_of_pushed<T>(s: Seq<T>, x: T)
    requires
        !s.contains(x),
    ensures
        remove_first(s.push(x), x) =~= s,
    decreases s.len(),
{
    let p = s.push(x);
    if s.len() == 0 {
        assert(p.first() == x);
        assert(p.drop_first() =~= s);
    } else {
        assert(p.first() == s.first());
        assert(p.first() != x);
        assert(p.drop_first() =~= s.drop_first().push(x));
        assert(!s.drop_first().contains(x)) by {
            if s.drop_first().contains(x) {
                let k = choose|k: int| 0 <= k < s.drop_first().len() && s.drop_first()[k] == x;
                assert(s[k + 1] == x);
            }
        }
        lemma_remove_first_of_pushed(s.drop_first(), x);
        assert(remove_first(p, x) =~= seq![s.first()] + s.drop_first());
    }
}

/// Removing an element that occurs at position `i`, and nowhere earlier,
/// removes exactly that position.
pub proof fn lemma_remove_first_at<T>(s: Seq<T>, x: T, i: int)
    requires
        0 <= i < s.len(),
        s[i] == x,
        forall|j: int| 0 <= j < i ==> s[j] != x,
    ensures
        remove_first(s, x) =~= s.remove(i),
    decreases s.len(),
{
    if i == 0 {
        assert(s.first() == x);
        assert(s.drop_first() =~= s.remove(0));
    } else {
        assert(s.first() != x);
        assert(forall|j: int| 0 <= j < i - 1 ==> s.drop_first()[j] == s[j + 1]);
        lemma_remove_first_at(s.drop_first(), x, i - 1);
        assert(remove_first(s, x) =~= seq![s.first()] + s.drop_first().remove(i - 1));
        assert((seq![s.first()] + s.drop_first().remove(i - 1)) =~= s.remove(i));
    }
}

/// On a duplicate-free sequence, removal removes exactly the one occurrence.
pub proof fn lemma_remove_first_props<T>(s: Seq<T>, x: T)
    requires
        s.no_duplicates(),
    ensures
        remove_first(s, x).no_duplicates(),
        !remove_first(s, x).contains(x),
        forall|y: T| y != x ==> (remove_first(s, x).contains(y) <==> s.contains(y)),
    decreases s.len(),
{
    lemma_remove_first_len(s, x);
    if s.contains(x) {
        let i = choose|i: int| 0 <= i < s.len() && s[i] == x;
        assert(forall|j: int| 0 <= j < s.len() && j != i ==> s[j] != x);
        let i2 = choose|i2: int|
            0 <= i2 < s.len() && s[i2] == x && forall|j: int| 0 <= j < i2 ==> s[j] != x;
        assert(s[i2] == x && forall|j: int| 0 <= j < i2 ==> s[j] != x) by {
            if forall|j: int| 0 <= j < i ==> s[j] != x {
                assert(s[i] == x && forall|j: int| 0 <= j < i ==> s[j] != x);
            }
        }
        lemma_remove_first_at(s, x, i2);
        let t = s.remove(i2);
        assert(t.no_duplicates()) by {
            assert forall|a: int, b: int|
                0 <= a < t.len() && 0 <= b < t.len() && a != b implies t[a] != t[b] by {
                let a2 = if a < i2 { a } else { a + 1 };
                let b2 = if b < i2 { b } else { b + 1 };
                assert(s[a2] != s[b2]);
            }
        }
        assert(!t.contains(x)) by {
            if t.contains(x) {
                let k = choose|k: int| 0 <= k < t.len() && t[k] == x;
                let k2 = if k < i2 { k } else { k + 1 };
                assert(s[k2] == x && k2 != i2);
                assert(s[i2] == x);
            }
        }
        assert forall|y: T| y != x implies (t.contains(y) <==> s.contains(y)) by {
            if t.contains(y) {
                let k = choose|k: int| 0 <= k < t.len() && t[k] == y;
                let k2 = if k < i2 { k } else { k + 1 };
                assert(s[k2] == y);
            }
            if s.contains(y) {
                let k = choose|k: int| 0 <= k < s.len() && s[k] == y;
                assert(k != i2);
                if k < i2 {
                    assert(t[k] == y);
                } else {
                    assert(t[k - 1] == y);
                }
            }
        }
    } else {
        assert(remove_first(s, x) =~= s);
        assert(!s.contains(x));
    }
}

/// Removal never grows a sequence and removes at most one element.
pub proof fn lemma_remove_first_len<T>(s: Seq<T>, x: T)
    ensures
        s.contains(x) ==> remove_first(s, x).len() == s.len() - 1,
        !s.contains(x) ==> remove_first(s, x) =~= s,
    decreases s.len(),
{
    if s.len() > 0 {
        if s.first() == x {
            assert(s.contains(x)) by {
                assert(s[0] == x);
            }
        } else {
            lemma_remove_first_len(s.drop_first(), x);
            assert(s.contains(x) ==> s.drop_first().contains(x)) by {
                if s.contains(x) {
                    let k = choose|k: int| 0 <= k < s.len() && s[k] == x;
                    assert(k != 0);
                    assert(s.drop_first()[k - 1] == x);
                }
            }
            assert(s.drop_first().contains(x) ==> s.contains(x)) by {
                if s.drop_first().contains(x) {
                    let k = choose|k: int| 0 <= k < s.drop_first().len() && s.drop_first()[k] == x;
                    assert(s[k + 1] == x);
                }
            }
            if !s.contains(x) {
                assert(remove_first(s, x) =~= seq![s.first()] + s.drop_first());
                assert((seq![s.first()] + s.drop_first()) =~= s);
            }
        }
    }
}

} // verus!
