use vstd::prelude::*;

verus! {

/// The number of `true` entries of `r`.
pub open spec fn count_true(r: Seq<bool>) -> nat
    decreases r.len(),
{
    if r.len() == 0 {
        0
    } else {
        count_true(r.drop_last()) + if r.last() { 1nat } else { 0nat }
    }
}

/// The number of `true` entries of all rows of `m`.
pub open spec fn count_marks(m: Seq<Vec<bool>>) -> nat
    decreases m.len(),
{
    if m.len() == 0 {
        0
    } else {
        count_marks(m.drop_last()) + count_true(m.last()@)
    }
}

pub proof fn lemma_count_true_le(r: Seq<bool>)
    ensures
        count_true(r) <= r.len(),
    decreases r.len(),
{
    if r.len() > 0 {
        lemma_count_true_le(r.drop_last());
    }
}

pub proof fn lemma_count_true_set(r: Seq<bool>, i: int)
    requires
        0 <= i < r.len(),
        !r[i],
    ensures
        count_true(r.update(i, true)) == count_true(r) + 1,
    decreases r.len(),
{
    let r2 = r.update(i, true);
    if i == r.len() - 1 {
        assert(r2.drop_last() =~= r.drop_last());
    } else {
        assert(r2.drop_last() =~= r.drop_last().update(i, true));
        lemma_count_true_set(r.drop_last(), i);
    }
}

pub proof fn lemma_count_marks_le(m: Seq<Vec<bool>>, n: nat)
    requires
        forall|i: int| 0 <= i < m.len() ==> (#[trigger] m[i])@.len() == n,
    ensures
        count_marks(m) <= m.len() * n,
    decreases m.len(),
{
    if m.len() > 0 {
        lemma_count_marks_le(m.drop_last(), n);
        lemma_count_true_le(m.last()@);
        assert(m.len() * n == (m.len() - 1) * n + n) by (nonlinear_arith);
    }
}

pub proof fn lemma_count_marks_set(m: Seq<Vec<bool>>, p: int, row: Vec<bool>)
    requires
        0 <= p < m.len(),
        count_true(row@) == count_true(m[p]@) + 1,
    ensures
        count_marks(m.update(p, row)) == count_marks(m) + 1,
    decreases m.len(),
{
    let m2 = m.update(p, row);
    if p == m.len() - 1 {
        assert(m2.drop_last() =~= m.drop_last());
    } else {
        assert(m2.drop_last() =~= m.drop_last().update(p, row));
        lemma_count_marks_set(m.drop_last(), p, row);
    }
}


/// Turning entries off, and no entry on, does not raise the count; turning one off lowers it.
pub proof fn lemma_count_true_sub(a: Seq<bool>, b: Seq<bool>)
    requires
        a.len() == b.len(),
        forall|i: int| 0 <= i < a.len() && #[trigger] a[i] ==> b[i],
    ensures
        count_true(a) <= count_true(b),
        (exists|i: int| 0 <= i < a.len() && !a[i] && #[trigger] b[i]) ==> count_true(a) < count_true(b),
    decreases a.len(),
{
    if a.len() > 0 {
        let a2 = a.drop_last();
        let b2 = b.drop_last();
        assert forall|i: int| 0 <= i < a2.len() && #[trigger] a2[i] implies b2[i] by {
            assert(a[i] == a2[i]);
        }
        lemma_count_true_sub(a2, b2);
        if exists|i: int| 0 <= i < a.len() && !a[i] && #[trigger] b[i] {
            let i = choose|i: int| 0 <= i < a.len() && !a[i] && #[trigger] b[i];
            if i < a.len() - 1 {
                assert(!a2[i] && b2[i]);
            }
        }
    }
}

/// Replacing a row changes the count by the difference of the rows.
pub proof fn lemma_count_marks_update(m: Seq<Vec<bool>>, p: int, row: Vec<bool>)
    requires
        0 <= p < m.len(),
    ensures
        count_marks(m.update(p, row)) + count_true(m[p]@) == count_marks(m) + count_true(row@),
    decreases m.len(),
{
    let m2 = m.update(p, row);
    if p == m.len() - 1 {
        assert(m2.drop_last() =~= m.drop_last());
    } else {
        assert(m2.drop_last() =~= m.drop_last().update(p, row));
        lemma_count_marks_update(m.drop_last(), p, row);
    }
}

/// Whether two vectors of flags are equal.
pub fn same_flags(a: &Vec<bool>, b: &Vec<bool>) -> (res: bool)
    ensures
        res == (a@ == b@),
{
    if a.len() != b.len() {
        return false;
    }
    let mut i: usize = 0;
    while i < a.len()
        invariant
            a@.len() == b@.len(),
            i <= a@.len(),
            forall|k: int| 0 <= k < i ==> a@[k] == b@[k],
        decreases a@.len() - i,
    {
        if a[i] != b[i] {
            return false;
        }
        i = i + 1;
    }
    assert(a@ =~= b@);
    true
}
} // verus!
