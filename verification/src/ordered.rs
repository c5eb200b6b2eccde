use vstd::prelude::*;

verus! {

/// The keys of the entry sequence are strictly ascending: the sequence
/// represents an ordered map, iterated from the smallest key up.
pub open spec fn keyed_wf<V>(s: Seq<(u32, V)>) -> bool {
    forall|i: int, j: int| 0 <= i < j < s.len() ==> s[i].0 < s[j].0
}

/// The finite map that an entry sequence represents. Later entries win, so on
/// a well-formed (duplicate-free) sequence every entry is represented.
pub open spec fn keyed_model<V>(s: Seq<(u32, V)>) -> Map<u32, V>
    decreases s.len(),
{
    if s.len() == 0 {
        Map::empty()
    } else {
        keyed_model(s.drop_last()).insert(s.last().0, s.last().1)
    }
}

/// On a duplicate-free sequence the model holds exactly the entries of the
/// sequence: its domain is the set of keys, and each key maps to the value
/// stored beside it.
pub proof fn lemma_keyed_model<V>(s: Seq<(u32, V)>)
    requires
        keyed_wf(s),
    ensures
        forall|k: u32|
            #[trigger] keyed_model(s).dom().contains(k) ==> exists|i: int|
                0 <= i < s.len() && s[i].0 == k,
        forall|i: int|
            0 <= i < s.len() ==> keyed_model(s).dom().contains(#[trigger] s[i].0) && keyed_model(
                s,
            )[s[i].0] == s[i].1,
    decreases s.len(),
{
    if s.len() > 0 {
        let d = s.drop_last();
        assert(forall|i: int| 0 <= i < d.len() ==> d[i] == s[i]);
        assert(keyed_wf(d));
        lemma_keyed_model(d);
        assert(forall|i: int| 0 <= i < s.len() - 1 ==> (#[trigger] s[i].0) != s.last().0);
        assert(forall|i: int|
            0 <= i < s.len() ==> keyed_model(s).dom().contains(#[trigger] s[i].0) && keyed_model(
                s,
            )[s[i].0] == s[i].1) by {
            assert(forall|i: int|
                0 <= i < s.len() - 1 ==> keyed_model(d).dom().contains(#[trigger] s[i].0)
                    && keyed_model(d)[s[i].0] == s[i].1);
        }
        assert forall|k: u32| #[trigger] keyed_model(s).dom().contains(k) implies exists|i: int|
            0 <= i < s.len() && s[i].0 == k by {
            if k == s.last().0 {
                assert(s[s.len() - 1].0 == k);
            } else {
                assert(keyed_model(d).dom().contains(k));
                let i = choose|i: int| 0 <= i < d.len() && d[i].0 == k;
                assert(s[i].0 == k);
            }
        }
    }
}

/// A well-formed sequence's model has one element per entry.
pub proof fn lemma_keyed_model_len<V>(s: Seq<(u32, V)>)
    requires
        keyed_wf(s),
    ensures
        keyed_model(s).dom().finite(),
        keyed_model(s).dom().len() == s.len(),
    decreases s.len(),
{
    if s.len() > 0 {
        let d = s.drop_last();
        assert(forall|i: int| 0 <= i < d.len() ==> d[i] == s[i]);
        assert(keyed_wf(d));
        lemma_keyed_model_len(d);
        lemma_keyed_model(d);
        assert(forall|i: int| 0 <= i < s.len() - 1 ==> (#[trigger] s[i].0) != s.last().0);
        assert(!keyed_model(d).dom().contains(s.last().0));
    }
}

/// Inserting an entry at its sorted position keeps the sequence well formed
/// and inserts the binding into the model.
pub proof fn lemma_keyed_insert<V>(s: Seq<(u32, V)>, i: int, e: (u32, V))
    requires
        keyed_wf(s),
        0 <= i <= s.len(),
        forall|j: int| 0 <= j < i ==> s[j].0 < e.0,
        forall|j: int| i <= j < s.len() ==> s[j].0 > e.0,
    ensures
        keyed_wf(s.insert(i, e)),
        keyed_model(s.insert(i, e)) == keyed_model(s).insert(e.0, e.1),
{
    let t = s.insert(i, e);
    assert(forall|j: int| 0 <= j < i ==> t[j] == s[j]);
    assert(t[i] == e);
    assert(forall|j: int| i < j < t.len() ==> t[j] == s[j - 1]);
    assert(keyed_wf(t));
    lemma_keyed_model(s);
    lemma_keyed_model(t);
    assert forall|k: u32| #[trigger] keyed_model(t).dom().contains(k) implies keyed_model(
        s,
    ).insert(e.0, e.1).dom().contains(k) by {
        let j = choose|j: int| 0 <= j < t.len() && t[j].0 == k;
        if j < i {
            assert(s[j].0 == k);
        } else if j > i {
            assert(s[j - 1].0 == k);
        }
    }
    assert forall|k: u32| keyed_model(s).insert(e.0, e.1).dom().contains(k) implies #[trigger]
        keyed_model(t).dom().contains(k) by {
        if k == e.0 {
            assert(t[i].0 == k);
        } else {
            let j = choose|j: int| 0 <= j < s.len() && s[j].0 == k;
            if j < i {
                assert(t[j].0 == k);
            } else {
                assert(t[j + 1].0 == k);
            }
        }
    }
    assert forall|k: u32| #[trigger] keyed_model(t).dom().contains(k) implies keyed_model(t)[k]
        == keyed_model(s).insert(e.0, e.1)[k] by {
        let j = choose|j: int| 0 <= j < t.len() && t[j].0 == k;
        assert(keyed_model(t)[k] == t[j].1);
        if j < i {
            assert(s[j].0 == k && keyed_model(s)[k] == s[j].1);
        } else if j > i {
            assert(s[j - 1].0 == k && keyed_model(s)[k] == s[j - 1].1);
        }
    }
    assert(keyed_model(t) =~= keyed_model(s).insert(e.0, e.1));
}

/// Replacing the entry at a key keeps the sequence well formed and overwrites
/// the binding in the model.
pub proof fn lemma_keyed_update<V>(s: Seq<(u32, V)>, i: int, e: (u32, V))
    requires
        keyed_wf(s),
        0 <= i < s.len(),
        s[i].0 == e.0,
    ensures
        keyed_wf(s.update(i, e)),
        keyed_model(s.update(i, e)) == keyed_model(s).insert(e.0, e.1),
{
    let t = s.update(i, e);
    assert(forall|j: int| 0 <= j < t.len() && j != i ==> t[j] == s[j]);
    assert(t[i] == e);
    assert(keyed_wf(t));
    lemma_keyed_model(s);
    lemma_keyed_model(t);
    assert forall|k: u32| #[trigger] keyed_model(t).dom().contains(k) implies keyed_model(
        s,
    ).insert(e.0, e.1).dom().contains(k) by {
        let j = choose|j: int| 0 <= j < t.len() && t[j].0 == k;
        if j != i {
            assert(s[j].0 == k);
        }
    }
    assert forall|k: u32| keyed_model(s).insert(e.0, e.1).dom().contains(k) implies #[trigger]
        keyed_model(t).dom().contains(k) by {
        if k == e.0 {
            assert(t[i].0 == k);
        } else {
            let j = choose|j: int| 0 <= j < s.len() && s[j].0 == k;
            assert(t[j].0 == k);
        }
    }
    assert forall|k: u32| #[trigger] keyed_model(t).dom().contains(k) implies keyed_model(t)[k]
        == keyed_model(s).insert(e.0, e.1)[k] by {
        let j = choose|j: int| 0 <= j < t.len() && t[j].0 == k;
        assert(keyed_model(t)[k] == t[j].1);
        if j != i {
            assert(s[j].0 == k && keyed_model(s)[k] == s[j].1);
            assert(k != e.0) by {
                if j < i {
                    assert(s[j].0 < s[i].0);
                } else {
                    assert(s[i].0 < s[j].0);
                }
            }
        }
    }
    assert(keyed_model(t) =~= keyed_model(s).insert(e.0, e.1));
}

/// Taking an entry out keeps the sequence well formed and removes the
/// binding from the model.
pub proof fn lemma_keyed_remove<V>(s: Seq<(u32, V)>, i: int)
    requires
        keyed_wf(s),
        0 <= i < s.len(),
    ensures
        keyed_wf(s.remove(i)),
        keyed_model(s.remove(i)) == keyed_model(s).remove(s[i].0),
{
    let t = s.remove(i);
    assert(forall|j: int| 0 <= j < i ==> t[j] == s[j]);
    assert(forall|j: int| i <= j < t.len() ==> t[j] == s[j + 1]);
    assert(keyed_wf(t));
    lemma_keyed_model(s);
    lemma_keyed_model(t);
    assert forall|k: u32| #[trigger] keyed_model(t).dom().contains(k) implies keyed_model(
        s,
    ).remove(s[i].0).dom().contains(k) && keyed_model(t)[k] == keyed_model(s).remove(s[i].0)[k] by {
        let j = choose|j: int| 0 <= j < t.len() && t[j].0 == k;
        if j < i {
            assert(s[j].0 == k);
            assert(k != s[i].0);
        } else {
            assert(s[j + 1].0 == k);
            assert(k != s[i].0);
        }
    }
    assert forall|k: u32| keyed_model(s).remove(s[i].0).dom().contains(k) implies #[trigger]
        keyed_model(t).dom().contains(k) by {
        let j = choose|j: int| 0 <= j < s.len() && s[j].0 == k;
        assert(j != i);
        if j < i {
            assert(t[j].0 == k);
        } else {
            assert(t[j - 1].0 == k);
        }
    }
    assert(keyed_model(t) =~= keyed_model(s).remove(s[i].0));
}

/// Whether every key at or above `pivot` can be shifted by `offset` without
/// leaving the `u32` range.
pub open spec fn shift_ok<V>(m: Map<u32, V>, pivot: u32, offset: int) -> bool {
    forall|k: u32| m.dom().contains(k) && k >= pivot ==> 0 <= k + offset && k + offset <= u32::MAX
}

/// The map after shifting every key at or above `pivot` by `offset`. Keys
/// below the pivot keep their binding unless the shifted block slides over
/// them — the destination window, between `pivot + offset` and `pivot`, is
/// overwritten; shifted keys carry their binding along.
pub open spec fn shift_model<V>(m: Map<u32, V>, pivot: u32, offset: int) -> Map<u32, V> {
    Map::new(
        |k: u32| (m.dom().contains(k) && k < pivot && k < pivot + offset) || (k >= pivot + offset
            && 0 <= k - offset <= u32::MAX && (k - offset) as u32 >= pivot && m.dom().contains(
            (k - offset) as u32,
        )),
        |k: u32| if k >= pivot + offset && 0 <= k - offset <= u32::MAX && (k - offset) as u32
            >= pivot && m.dom().contains((k - offset) as u32) {
            m[(k - offset) as u32]
        } else {
            m[k]
        },
    )
}

/// Shift every key at or above `pivot` by `offset`, in place. Returns false,
/// changing nothing, exactly when a shifted key would leave the `u32` range;
/// otherwise the entries now represent `shift_model` of the old entries.
#[verifier::rlimit(50)]
pub(crate) fn shift_keys<V>(v: &mut Vec<(u32, V)>, pivot: u32, offset: i64) -> (ok: bool)
    requires
        keyed_wf(old(v)@),
    ensures
        keyed_wf(final(v)@),
        ok <==> shift_ok(keyed_model(old(v)@), pivot, offset as int),
        ok ==> keyed_model(final(v)@) == shift_model(keyed_model(old(v)@), pivot, offset as int),
        !ok ==> final(v)@ == old(v)@,
        forall|q: int|
            0 <= q < final(v)@.len() ==> exists|p: int|
                0 <= p < old(v)@.len() && (#[trigger] final(v)@[q]).1 == old(v)@[p].1,
        final(v)@.len() <= old(v)@.len(),
        ok && old(v)@.len() > 0 && (exists|p: int|
            0 <= p < old(v)@.len() && old(v)@[p].0 >= pivot) ==> final(v)@.len() > 0,
{
    let ghost s = old(v)@;
    let ghost m = keyed_model(s);
    proof {
        lemma_keyed_model(s);
    }
    let len = v.len();
    // The first entry at or above the pivot.
    let mut i: usize = len;
    while i > 0 && v[i - 1].0 >= pivot
        invariant
            i <= len,
            len == v@.len(),
            v@ == s,
            forall|j: int| i <= j < len ==> s[j].0 >= pivot,
        decreases i,
    {
        i = i - 1;
    }
    assert(forall|j: int| 0 <= j < i ==> s[j].0 < pivot) by {
        if i > 0 {
            assert(s[i - 1].0 < pivot);
        }
    }
    if i < len {
        // Something shifts: every shifted key must stay inside the range.
        let first = v[i].0;
        let last = v[len - 1].0;
        assert(m.dom().contains(first) && first >= pivot);
        if offset > u32::MAX as i64 || offset < -(u32::MAX as i64) {
            assert(!(0 <= first + offset && first + offset <= u32::MAX));
            return false;
        }
        if (first as i64) + offset < 0 || (last as i64) + offset > u32::MAX as i64 {
            proof {
                if (last as i64) + offset > u32::MAX as i64 {
                    assert(m.dom().contains(last) && last >= pivot);
                }
            }
            return false;
        }
        assert(shift_ok(m, pivot, offset as int)) by {
            assert forall|k: u32| m.dom().contains(k) && k >= pivot implies 0 <= k + offset && k
                + offset <= u32::MAX by {
                let p = choose|p: int| 0 <= p < s.len() && s[p].0 == k;
                assert(i <= p < s.len()) by {
                    if p < i {
                        assert(s[p].0 < pivot);
                    }
                }
                assert(first <= k) by {
                    if i < p {
                        assert(s[i as int].0 < s[p].0);
                    }
                }
                assert(k <= last) by {
                    if p < len - 1 {
                        assert(s[p].0 < s[len - 1].0);
                    }
                }
            }
        }
    } else {
        assert(shift_ok(m, pivot, offset as int)) by {
            assert forall|k: u32| m.dom().contains(k) && k >= pivot implies 0 <= k + offset && k
                + offset <= u32::MAX by {
                let p = choose|p: int| 0 <= p < s.len() && s[p].0 == k;
                assert(s[p].0 < pivot);
            }
        }
    }
    // Keys at or above the pivot all shift inside the range.
    assert(forall|j: int|
        i <= j < len ==> 0 <= s[j].0 + offset && s[j].0 + offset <= u32::MAX) by {
        assert forall|j: int| i <= j < len implies 0 <= s[j].0 + offset && s[j].0 + offset
            <= u32::MAX by {
            assert(m.dom().contains(s[j].0) && s[j].0 >= pivot);
        }
    }
    // The first entry at or above the floor of the destination window.
    let mut c: usize = i;
    if offset < -(u32::MAX as i64) {
        c = 0;
        assert(forall|j: int| c <= j < i ==> s[j].0 >= pivot as i64 + offset);
    } else if offset < 0 {
        while c > 0 && (v[c - 1].0 as i64) >= (pivot as i64) + offset
            invariant
                c <= i,
                i <= len,
                len == v@.len(),
                v@ == s,
                -(u32::MAX as i64) <= offset < 0,
                forall|j: int| c <= j < i ==> s[j].0 >= pivot as i64 + offset,
            decreases c,
        {
            c = c - 1;
        }
        assert(forall|j: int| 0 <= j < c ==> s[j].0 < pivot as i64 + offset) by {
            if c > 0 {
                assert(s[c - 1].0 < pivot as i64 + offset);
            }
        }
    }
    assert(forall|j: int| 0 <= j < c ==> s[j].0 < pivot as i64 + offset) by {
        if offset >= 0 {
            assert(forall|j: int| 0 <= j < c ==> s[j].0 < pivot);
        }
    }
    assert(forall|j: int| c <= j < i ==> s[j].0 >= pivot as i64 + offset) by {
        if offset >= 0 {
            assert(c == i);
        }
    }
    // Move the suffix at or above the pivot onto a stack, last entry first.
    let mut stack: Vec<(u32, V)> = Vec::new();
    while v.len() > i
        invariant
            i <= v@.len() <= s.len(),
            v@ == s.take(v@.len() as int),
            stack@.len() == s.len() - v@.len(),
            forall|q: int| 0 <= q < stack@.len() ==> stack@[q] == s[s.len() - 1 - q],
        decreases v@.len(),
    {
        let e = v.pop().unwrap();
        proof {
            assert(e == s[v@.len() as int]);
            assert(v@ =~= s.take(v@.len() as int));
        }
        stack.push(e);
    }
    // Drop the entries inside the destination window.
    while v.len() > c
        invariant
            c <= v@.len() <= i,
            i <= s.len(),
            v@ == s.take(v@.len() as int),
            stack@.len() == s.len() - i,
            forall|q: int| 0 <= q < stack@.len() ==> stack@[q] == s[s.len() - 1 - q],
        decreases v@.len(),
    {
        let e = v.pop();
        proof {
            assert(v@ =~= s.take(v@.len() as int));
        }
    }
    assert(forall|q: int| 0 <= q < c ==> v@[q] == s[q]);
    // Reinsert the moved entries at their shifted keys, in ascending order.
    while stack.len() > 0
        invariant
            c <= i <= s.len(),
            stack@.len() <= s.len() - i,
            v@.len() == c + ((s.len() - i) - stack@.len()),
            forall|q: int| 0 <= q < c ==> v@[q] == s[q],
            forall|q: int|
                c <= q < v@.len() ==> (#[trigger] v@[q]).0 == s[i + (q - c)].0 + offset && v@[q].1
                    == s[i + (q - c)].1,
            forall|q: int| 0 <= q < stack@.len() ==> stack@[q] == s[s.len() - 1 - q],
            forall|j: int| i <= j < s.len() ==> 0 <= s[j].0 + offset && s[j].0 + offset <= u32::MAX,
        decreases stack@.len(),
    {
        let ghost idx = s.len() - stack@.len();
        let e = stack.pop().unwrap();
        proof {
            assert(e == s[idx]);
            assert(i <= idx < s.len());
        }
        let nk = ((e.0 as i64) + offset) as u32;
        v.push((nk, e.1));
    }
    // The result: the kept prefix followed by the shifted block.
    let ghost t = v@;
    proof {
        lemma_shift_result(s, t, pivot, offset as int, i as int, c as int);
        assert forall|q: int| 0 <= q < t.len() implies exists|p: int|
            0 <= p < s.len() && (#[trigger] t[q]).1 == s[p].1 by {
            if q < c {
                assert(t[q].1 == s[q].1);
            } else {
                assert(t[q].1 == s[i + (q - c)].1);
            }
        }
        if s.len() > 0 && exists|p: int| 0 <= p < s.len() && s[p].0 >= pivot {
            let p = choose|p: int| 0 <= p < s.len() && s[p].0 >= pivot;
            assert(i < len) by {
                if i == len {
                    assert(s[p].0 < pivot);
                }
            }
        }
    }
    true
}

/// The kept prefix of an entry sequence followed by its shifted suffix is
/// ordered and represents `shift_model` of the original entries.
proof fn lemma_shift_result<V>(s: Seq<(u32, V)>, t: Seq<(u32, V)>, pivot: u32, offset: int, i: int, c: int)
    requires
        keyed_wf(s),
        0 <= c <= i <= s.len(),
        forall|j: int| 0 <= j < i ==> s[j].0 < pivot,
        forall|j: int| i <= j < s.len() ==> s[j].0 >= pivot,
        forall|j: int| 0 <= j < c ==> s[j].0 < pivot + offset,
        forall|j: int| c <= j < i ==> s[j].0 >= pivot + offset,
        forall|j: int| i <= j < s.len() ==> 0 <= s[j].0 + offset && s[j].0 + offset <= u32::MAX,
        t.len() == c + (s.len() - i),
        forall|q: int| 0 <= q < c ==> t[q] == s[q],
        forall|q: int|
            c <= q < t.len() ==> (#[trigger] t[q]).0 == s[i + (q - c)].0 + offset && t[q].1 == s[i
                + (q - c)].1,
    ensures
        keyed_wf(t),
        keyed_model(t) == shift_model(keyed_model(s), pivot, offset),
{
    let m = keyed_model(s);
    lemma_keyed_model(s);
    assert(keyed_wf(t)) by {
        assert forall|q1: int, q2: int| 0 <= q1 < q2 < t.len() implies t[q1].0 < t[q2].0 by {
            if q1 < c && q2 >= c {
                assert(t[q1].0 == s[q1].0);
                assert(t[q2].0 == s[i + (q2 - c)].0 + offset);
                assert(s[i + (q2 - c)].0 >= pivot);
                assert(s[q1].0 < pivot + offset);
            } else if q1 >= c {
                assert(s[i + (q1 - c)].0 < s[i + (q2 - c)].0);
            }
        }
    }
    lemma_keyed_model(t);
    assert forall|k: u32| #[trigger] keyed_model(t).dom().contains(k) implies shift_model(
        m,
        pivot,
        offset,
    ).dom().contains(k) && shift_model(m, pivot, offset)[k] == keyed_model(t)[k] by {
        let q = choose|q: int| 0 <= q < t.len() && t[q].0 == k;
        assert(keyed_model(t)[k] == t[q].1);
        if q < c {
            assert(t[q] == s[q]);
            assert(m.dom().contains(k) && m[k] == s[q].1);
            assert(k < pivot && k < pivot + offset);
            assert(!(k >= pivot + offset));
        } else {
            let p = i + (q - c);
            assert(t[q].0 == s[p].0 + offset && t[q].1 == s[p].1);
            assert(m.dom().contains(s[p].0) && m[s[p].0] == s[p].1);
            assert(s[p].0 >= pivot);
            assert(k - offset == s[p].0);
        }
    }
    assert forall|k: u32| shift_model(m, pivot, offset).dom().contains(k) implies #[trigger]
        keyed_model(t).dom().contains(k) by {
        if m.dom().contains(k) && k < pivot && k < pivot + offset {
            let p = choose|p: int| 0 <= p < s.len() && s[p].0 == k;
            assert(p < i) by {
                if p >= i {
                    assert(s[p].0 >= pivot);
                }
            }
            assert(p < c) by {
                if p >= c {
                    assert(s[p].0 >= pivot + offset);
                }
            }
            assert(t[p].0 == k);
        } else {
            let k0 = (k - offset) as u32;
            assert(m.dom().contains(k0) && k0 >= pivot);
            let p = choose|p: int| 0 <= p < s.len() && s[p].0 == k0;
            assert(p >= i) by {
                if p < i {
                    assert(s[p].0 < pivot);
                }
            }
            let q = c + (p - i);
            assert(t[q].0 == s[p].0 + offset);
            assert(t[q].0 == k);
        }
    }
    assert(keyed_model(t) =~= shift_model(m, pivot, offset));
}

/// Whether a key of the block at or above `pivot`, shifted by `offset`,
/// lands on `k`.
pub open spec fn landed<V>(m: Map<u32, V>, pivot: u32, offset: int, k: u32) -> bool {
    0 <= k - offset <= u32::MAX && (k - offset) as u32 >= pivot && m.dom().contains(
        (k - offset) as u32,
    )
}

/// The map after sliding every key at or above `pivot` by `offset` onto the
/// rest: a key below the pivot keeps its binding unless a shifted key lands
/// on it, and then the shifted binding wins.
pub open spec fn shift_merge_model<V>(m: Map<u32, V>, pivot: u32, offset: int) -> Map<u32, V> {
    Map::new(
        |k: u32| (m.dom().contains(k) && k < pivot) || landed(m, pivot, offset, k),
        |k: u32| if landed(m, pivot, offset, k) {
            m[(k - offset) as u32]
        } else {
            m[k]
        },
    )
}

/// The merge after only the landings whose source key lies below `bound`.
spec fn partial_merge<V>(m: Map<u32, V>, pivot: u32, offset: int, bound: int) -> Map<u32, V> {
    Map::new(
        |k: u32| (m.dom().contains(k) && k < pivot) || (landed(m, pivot, offset, k) && k - offset
            < bound),
        |k: u32| if landed(m, pivot, offset, k) && k - offset < bound {
            m[(k - offset) as u32]
        } else {
            m[k]
        },
    )
}

/// Slide every key at or above `pivot` by `offset` onto the rest of the
/// map, in place; shifted entries overwrite only the keys they land on.
/// Returns false, changing nothing, exactly when a shifted key would leave
/// the `u32` range.
#[verifier::rlimit(100)]
pub(crate) fn merge_shift_keys<V>(v: &mut Vec<(u32, V)>, pivot: u32, offset: i64) -> (ok: bool)
    requires
        keyed_wf(old(v)@),
    ensures
        keyed_wf(final(v)@),
        ok <==> shift_ok(keyed_model(old(v)@), pivot, offset as int),
        ok ==> keyed_model(final(v)@) == shift_merge_model(
            keyed_model(old(v)@),
            pivot,
            offset as int,
        ),
        !ok ==> final(v)@ == old(v)@,
        forall|q: int|
            0 <= q < final(v)@.len() ==> exists|p: int|
                0 <= p < old(v)@.len() && (#[trigger] final(v)@[q]).1 == old(v)@[p].1,
{
    let ghost s = old(v)@;
    let ghost m = keyed_model(s);
    proof {
        lemma_keyed_model(s);
    }
    let len = v.len();
    // The first entry at or above the pivot.
    let mut i: usize = len;
    while i > 0 && v[i - 1].0 >= pivot
        invariant
            i <= len,
            len == v@.len(),
            v@ == s,
            forall|j: int| i <= j < len ==> s[j].0 >= pivot,
        decreases i,
    {
        i = i - 1;
    }
    assert(forall|j: int| 0 <= j < i ==> s[j].0 < pivot) by {
        if i > 0 {
            assert(s[i - 1].0 < pivot);
        }
    }
    if i < len {
        // Something shifts: every shifted key must stay inside the range.
        let first = v[i].0;
        let last = v[len - 1].0;
        assert(m.dom().contains(first) && first >= pivot);
        if offset > u32::MAX as i64 || offset < -(u32::MAX as i64) {
            assert(!(0 <= first + offset && first + offset <= u32::MAX));
            return false;
        }
        if (first as i64) + offset < 0 || (last as i64) + offset > u32::MAX as i64 {
            proof {
                if (last as i64) + offset > u32::MAX as i64 {
                    assert(m.dom().contains(last) && last >= pivot);
                }
            }
            return false;
        }
        assert(shift_ok(m, pivot, offset as int)) by {
            assert forall|k: u32| m.dom().contains(k) && k >= pivot implies 0 <= k + offset && k
                + offset <= u32::MAX by {
                let p = choose|p: int| 0 <= p < s.len() && s[p].0 == k;
                assert(i <= p < s.len()) by {
                    if p < i {
                        assert(s[p].0 < pivot);
                    }
                }
                assert(first <= k) by {
                    if i < p {
                        assert(s[i as int].0 < s[p].0);
                    }
                }
                assert(k <= last) by {
                    if p < len - 1 {
                        assert(s[p].0 < s[len - 1].0);
                    }
                }
            }
        }
    } else {
        assert(shift_ok(m, pivot, offset as int)) by {
            assert forall|k: u32| m.dom().contains(k) && k >= pivot implies 0 <= k + offset && k
                + offset <= u32::MAX by {
                let p = choose|p: int| 0 <= p < s.len() && s[p].0 == k;
                assert(s[p].0 < pivot);
            }
        }
    }
    // Keys at or above the pivot all shift inside the range.
    assert(forall|j: int|
        i <= j < len ==> 0 <= s[j].0 + offset && s[j].0 + offset <= u32::MAX) by {
        assert forall|j: int| i <= j < len implies 0 <= s[j].0 + offset && s[j].0 + offset
            <= u32::MAX by {
            assert(m.dom().contains(s[j].0) && s[j].0 >= pivot);
        }
    }
    // Move the suffix at or above the pivot onto a stack, last entry first.
    let mut stack: Vec<(u32, V)> = Vec::new();
    while v.len() > i
        invariant
            i <= v@.len() <= s.len(),
            v@ == s.take(v@.len() as int),
            stack@.len() == s.len() - v@.len(),
            forall|q: int| 0 <= q < stack@.len() ==> stack@[q] == s[s.len() - 1 - q],
        decreases v@.len(),
    {
        let e = v.pop().unwrap();
        proof {
            assert(e == s[v@.len() as int]);
            assert(v@ =~= s.take(v@.len() as int));
        }
        stack.push(e);
    }
    proof {
        let d = s.take(i as int);
        assert(forall|q: int| 0 <= q < i ==> d[q] == s[q]);
        assert(keyed_wf(d));
        lemma_keyed_model(d);
        assert(keyed_model(d) =~= partial_merge(m, pivot, offset as int, pivot as int)) by {
            assert forall|k: u32| #[trigger] keyed_model(d).dom().contains(k) implies partial_merge(
                m,
                pivot,
                offset as int,
                pivot as int,
            ).dom().contains(k) && partial_merge(m, pivot, offset as int, pivot as int)[k]
                == keyed_model(d)[k] by {
                let q = choose|q: int| 0 <= q < d.len() && d[q].0 == k;
                assert(s[q].0 == k && q < i);
                assert(m.dom().contains(k) && m[k] == s[q].1 && k < pivot);
                assert(!(landed(m, pivot, offset as int, k) && k - offset < pivot));
            }
            assert forall|k: u32| partial_merge(m, pivot, offset as int, pivot as int).dom().contains(
                k,
            ) implies #[trigger] keyed_model(d).dom().contains(k) by {
                if landed(m, pivot, offset as int, k) && k - offset < pivot as int {
                    assert((k - offset) as u32 >= pivot);
                    assert(false);
                }
                let p = choose|p: int| 0 <= p < s.len() && s[p].0 == k;
                assert(p < i) by {
                    if p >= i {
                        assert(s[p].0 >= pivot);
                    }
                }
                assert(d[p].0 == k);
            }
        }
    }
    // Lay the moved entries back in, smallest landing first; each lands at
    // its sorted position and overwrites an exact collision.
    while stack.len() > 0
        invariant
            i <= s.len(),
            len == s.len(),
            stack@.len() <= s.len() - i,
            forall|q: int| 0 <= q < stack@.len() ==> stack@[q] == s[s.len() - 1 - q],
            forall|j: int| i <= j < len ==> 0 <= s[j].0 + offset && s[j].0 + offset <= u32::MAX,
            forall|j: int| i <= j < len ==> s[j].0 >= pivot,
            forall|j: int| 0 <= j < i ==> s[j].0 < pivot,
            keyed_wf(s),
            m == keyed_model(s),
            keyed_wf(v@),
            keyed_model(v@) == partial_merge(
                m,
                pivot,
                offset as int,
                if stack@.len() > 0 {
                    s[s.len() - stack@.len()].0 as int
                } else {
                    0x1_0000_0000
                },
            ),
            forall|q: int|
                0 <= q < v@.len() ==> exists|p: int|
                    0 <= p < s.len() && (#[trigger] v@[q]).1 == s[p].1,
        decreases stack@.len(),
    {
        let ghost idx = s.len() - stack@.len();
        let ghost bound0 = s[idx].0 as int;
        let e = stack.pop().unwrap();
        proof {
            assert(e == s[idx]);
            assert(i <= idx < s.len());
            lemma_keyed_model(s);
        }
        let nk = ((e.0 as i64) + offset) as u32;
        let ghost w = v@;
        let len2 = v.len();
        let mut p: usize = len2;
        while p > 0 && v[p - 1].0 >= nk
            invariant
                p <= len2,
                len2 == v@.len(),
                v@ == w,
                forall|j: int| p <= j < len2 ==> w[j].0 >= nk,
            decreases p,
        {
            p = p - 1;
        }
        assert(forall|j: int| 0 <= j < p ==> w[j].0 < nk) by {
            if p > 0 {
                assert(w[p - 1].0 < nk);
            }
        }
        if p < len2 && v[p].0 == nk {
            v.set(p, (nk, e.1));
            proof {
                lemma_keyed_update(w, p as int, (nk, e.1));
            }
        } else {
            proof {
                if p < len2 {
                    assert(forall|j: int| p < j < len2 ==> w[j].0 > w[p as int].0);
                }
            }
            v.insert(p, (nk, e.1));
            proof {
                lemma_keyed_insert(w, p as int, (nk, e.1));
            }
        }
        proof {
            assert(keyed_model(v@) == partial_merge(m, pivot, offset as int, bound0).insert(
                nk,
                s[idx].1,
            ));
            let nb: int = if stack@.len() > 0 {
                s[s.len() - stack@.len()].0 as int
            } else {
                0x1_0000_0000
            };
            // No landing's source key lies strictly between this one and the
            // next entry of the block.
            assert(keyed_model(v@) =~= partial_merge(m, pivot, offset as int, nb)) by {
                assert forall|k: u32|
                    #[trigger] partial_merge(m, pivot, offset as int, nb).dom().contains(k)
                        <==> partial_merge(m, pivot, offset as int, bound0).insert(
                        nk,
                        s[idx].1,
                    ).dom().contains(k) by {
                    if landed(m, pivot, offset as int, k) && k - offset < nb && k - offset
                        >= bound0 && k != nk {
                        let k0 = (k - offset) as u32;
                        let j = choose|j: int| 0 <= j < s.len() && s[j].0 == k0;
                        assert(j >= i) by {
                            if j < i {
                                assert(s[j].0 < pivot);
                            }
                        }
                        assert(j != idx);
                        assert(j > idx) by {
                            if j < idx {
                                assert(s[j].0 < s[idx].0);
                            }
                        }
                        assert(idx + 1 <= j);
                        assert(stack@.len() > 0) by {
                            if stack@.len() == 0 {
                                assert(j <= s.len() - 1);
                                assert(s[idx].0 < s[j].0);
                                assert(false);
                            }
                        }
                        assert(s[idx + 1].0 <= s[j].0) by {
                            if idx + 1 < j {
                                assert(s[idx + 1].0 < s[j].0);
                            }
                        }
                        assert(false);
                    }
                    if k == nk {
                        assert(landed(m, pivot, offset as int, k) && k - offset < nb);
                    }
                }
                assert forall|k: u32|
                    #[trigger] partial_merge(m, pivot, offset as int, nb).dom().contains(
                        k,
                    ) implies partial_merge(m, pivot, offset as int, nb)[k] == partial_merge(
                        m,
                        pivot,
                        offset as int,
                        bound0,
                    ).insert(nk, s[idx].1)[k] by {
                    if k == nk {
                        assert(landed(m, pivot, offset as int, k));
                        assert((k - offset) as u32 == s[idx].0);
                        assert(m[(k - offset) as u32] == s[idx].1);
                    } else if landed(m, pivot, offset as int, k) && k - offset < nb && k - offset
                        >= bound0 {
                        assert(false);
                    }
                }
            }
            assert forall|q: int| 0 <= q < v@.len() implies exists|p2: int|
                0 <= p2 < s.len() && (#[trigger] v@[q]).1 == s[p2].1 by {
                if p < len2 && w[p as int].0 == nk {
                    if q != p {
                        assert(v@[q] == w[q]);
                    } else {
                        assert(v@[q].1 == s[idx].1);
                    }
                } else {
                    if q < p {
                        assert(v@[q] == w[q]);
                    } else if q > p {
                        assert(v@[q] == w[q - 1]);
                    } else {
                        assert(v@[q].1 == s[idx].1);
                    }
                }
            }
        }
    }
    proof {
        assert(keyed_model(v@) =~= shift_merge_model(m, pivot, offset as int)) by {
            assert(forall|k: u32|
                #[trigger] landed(m, pivot, offset as int, k) ==> k - offset < 0x1_0000_0000);
        }
    }
    true
}

/// Two well-formed entry sequences with the same model are the same sequence:
/// the ordered representation is canonical.
pub proof fn lemma_keyed_canonical<V>(s1: Seq<(u32, V)>, s2: Seq<(u32, V)>)
    requires
        keyed_wf(s1),
        keyed_wf(s2),
        keyed_model(s1) == keyed_model(s2),
    ensures
        s1 =~= s2,
    decreases s1.len(),
{
    lemma_keyed_model_len(s1);
    lemma_keyed_model_len(s2);
    lemma_keyed_model(s1);
    lemma_keyed_model(s2);
    if s1.len() == 0 {
        assert(s2.len() == 0);
    } else {
        // The largest key of the shared domain is the last entry of each.
        let l1 = s1.last();
        let l2 = s2.last();
        assert(keyed_model(s2).dom().contains(l1.0));
        let j = choose|j: int| 0 <= j < s2.len() && s2[j].0 == l1.0;
        assert(keyed_model(s1).dom().contains(l2.0));
        let i = choose|i: int| 0 <= i < s1.len() && s1[i].0 == l2.0;
        // l1.0 <= l2.0 and l2.0 <= l1.0, since each key occurs in the other
        // sequence and the last key is the greatest.
        assert(j < s2.len() - 1 ==> s2[j].0 < l2.0);
        assert(i < s1.len() - 1 ==> s1[i].0 < l1.0);
        assert(l1.0 == l2.0);
        assert(l1.1 == keyed_model(s1)[l1.0]);
        assert(l2.1 == keyed_model(s2)[l2.0]);
        let d1 = s1.drop_last();
        let d2 = s2.drop_last();
        assert(forall|i: int| 0 <= i < d1.len() ==> d1[i] == s1[i]);
        assert(forall|i: int| 0 <= i < d2.len() ==> d2[i] == s2[i]);
        assert(keyed_wf(d1));
        assert(keyed_wf(d2));
        lemma_keyed_model(d1);
        lemma_keyed_model(d2);
        assert(keyed_model(d1) =~= keyed_model(s1).remove(l1.0)) by {
            assert(forall|i: int| 0 <= i < d1.len() ==> (#[trigger] d1[i].0) != l1.0);
            assert(keyed_model(s1) == keyed_model(d1).insert(l1.0, l1.1));
            assert(!keyed_model(d1).dom().contains(l1.0));
        }
        assert(keyed_model(d2) =~= keyed_model(s2).remove(l2.0)) by {
            assert(forall|i: int| 0 <= i < d2.len() ==> (#[trigger] d2[i].0) != l2.0);
            assert(keyed_model(s2) == keyed_model(d2).insert(l2.0, l2.1));
            assert(!keyed_model(d2).dom().contains(l2.0));
        }
        lemma_keyed_canonical(d1, d2);
        assert(s1 =~= d1.push(l1));
        assert(s2 =~= d2.push(l2));
    }
}

} // verus!
