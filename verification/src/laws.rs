use vstd::prelude::*;

use crate::ordered::{landed, shift_merge_model, shift_model, shift_ok};

verus! {

/// Shifting by zero is a no-op: `offset_columns` and `offset_lines` with a
/// zero offset leave the ordered map exactly as it was.
pub proof fn lemma_shift_zero_identity<V>(m: Map<u32, V>, pivot: u32)
    ensures
        shift_model(m, pivot, 0) == m,
        shift_merge_model(m, pivot, 0) == m,
{
    assert forall|k: u32| #[trigger] landed(m, pivot, 0, k) implies m.dom().contains(k) && m[(k
        - 0) as u32] == m[k] by {
        assert((k - 0) as u32 == k);
    }
    assert(shift_model(m, pivot, 0) =~= m) by {
        assert forall|k: u32| m.dom().contains(k) implies #[trigger] shift_model(
            m,
            pivot,
            0,
        ).dom().contains(k) by {
            if k >= pivot {
                assert((k - 0) as u32 == k);
                assert(landed(m, pivot, 0, k));
            }
        }
    }
    assert(shift_merge_model(m, pivot, 0) =~= m) by {
        assert forall|k: u32| m.dom().contains(k) implies #[trigger] shift_merge_model(
            m,
            pivot,
            0,
        ).dom().contains(k) by {
            if k >= pivot {
                assert((k - 0) as u32 == k);
                assert(landed(m, pivot, 0, k));
            }
        }
    }
}

/// Shifting columns right by `k` and then left by `k` from the moved pivot
/// restores the map: an upward shift slides over nothing, and the downward
/// shift retraces it exactly.
pub proof fn lemma_shift_there_and_back<V>(m: Map<u32, V>, pivot: u32, k: int)
    requires
        k >= 0,
        pivot + k <= u32::MAX,
        shift_ok(m, pivot, k),
    ensures
        shift_ok(shift_model(m, pivot, k), (pivot + k) as u32, -k),
        shift_model(shift_model(m, pivot, k), (pivot + k) as u32, -k) == m,
{
    let m1 = shift_model(m, pivot, k);
    let p2 = (pivot + k) as u32;
    assert forall|y: u32| m1.dom().contains(y) && y >= p2 implies 0 <= y + (-k) && y + (-k)
        <= u32::MAX by {
        if !(m.dom().contains(y) && y < pivot && y < pivot + k) {
            assert((y - k) as u32 >= pivot);
        }
    }
    assert(shift_model(m1, p2, -k) =~= m) by {
        assert forall|y: u32| #[trigger] shift_model(m1, p2, -k).dom().contains(y) implies m.dom()
            .contains(y) && shift_model(m1, p2, -k)[y] == m[y] by {
            if y >= p2 + (-k) && 0 <= y - (-k) <= u32::MAX && (y + k) as u32 >= p2
                && m1.dom().contains((y + k) as u32) {
                let z = (y + k) as u32;
                assert(m1[z] == m[(z - k) as u32]);
                assert((z - k) as u32 == y);
            } else {
                assert(m1.dom().contains(y));
                assert(m.dom().contains(y) && y < pivot && y < pivot + k) by {
                    if !(m.dom().contains(y) && y < pivot && y < pivot + k) {
                        assert((y - k) as u32 >= pivot);
                        assert(y >= pivot + k);
                        assert(y >= p2 + (-k) && 0 <= y - (-k));
                        assert(m.dom().contains((y - k) as u32));
                        assert(y + k <= u32::MAX) by {
                            assert((y - k) as u32 + k <= u32::MAX);
                        }
                        assert(m1.dom().contains((y + k) as u32)) by {
                            let x = (y - k) as u32;
                            assert(landed(m, pivot, k, y));
                            assert(false) by {
                                assert(y >= pivot + k || (y < pivot + k && y < pivot));
                            }
                        }
                        assert(false);
                    }
                }
                assert(m1[y] == m[y]);
            }
        }
        assert forall|y: u32| m.dom().contains(y) implies #[trigger] shift_model(
            m1,
            p2,
            -k,
        ).dom().contains(y) by {
            if y < pivot {
                assert(m1.dom().contains(y) && y < p2 && y < p2 + (-k));
            } else {
                assert(0 <= y + k && y + k <= u32::MAX);
                let z = (y + k) as u32;
                assert(landed(m, pivot, k, z));
                assert(z >= pivot + k);
                assert(m1.dom().contains(z));
                assert(z >= p2 && 0 <= z - k <= u32::MAX && (z - k) as u32 == y);
                assert(landed(m1, p2, -k, y)) by {
                    assert((y - (-k)) as u32 == z);
                }
            }
        }
    }
}

/// Shifting lines down by `k` and then up by `k` from the moved pivot
/// restores the map, as long as the first shift lands on nothing: the
/// merged shift overwrites only what it lands on, and here it lands on
/// empty keys alone.
pub proof fn lemma_merge_shift_there_and_back<V>(m: Map<u32, V>, pivot: u32, k: int)
    requires
        k >= 0,
        pivot + k <= u32::MAX,
        shift_ok(m, pivot, k),
    ensures
        shift_ok(shift_merge_model(m, pivot, k), (pivot + k) as u32, -k),
        shift_merge_model(shift_merge_model(m, pivot, k), (pivot + k) as u32, -k) == m,
{
    let m1 = shift_merge_model(m, pivot, k);
    let p2 = (pivot + k) as u32;
    assert forall|y: u32| m1.dom().contains(y) && y >= p2 implies 0 <= y + (-k) && y + (-k)
        <= u32::MAX by {
        if !(m.dom().contains(y) && y < pivot) {
            assert(landed(m, pivot, k, y));
            assert((y - k) as u32 >= pivot);
        }
    }
    assert(shift_merge_model(m1, p2, -k) =~= m) by {
        assert forall|y: u32| #[trigger] shift_merge_model(m1, p2, -k).dom().contains(
            y,
        ) implies m.dom().contains(y) && shift_merge_model(m1, p2, -k)[y] == m[y] by {
            if landed(m1, p2, -k, y) {
                let z = (y + k) as u32;
                assert(m1.dom().contains(z) && z >= p2);
                assert(landed(m, pivot, k, z)) by {
                    if m.dom().contains(z) && z < pivot {
                        assert(z >= p2);
                    }
                }
                assert(m1[z] == m[(z - k) as u32]);
                assert((z - k) as u32 == y);
            } else {
                assert(m1.dom().contains(y) && y < p2);
                assert(m.dom().contains(y) && y < pivot) by {
                    if landed(m, pivot, k, y) {
                        assert((y - k) as u32 >= pivot);
                        assert(y >= pivot + k);
                    }
                }
                assert(m1[y] == m[y]) by {
                    if landed(m, pivot, k, y) {
                        assert(y >= pivot + k);
                    }
                }
            }
        }
        assert forall|y: u32| m.dom().contains(y) implies #[trigger] shift_merge_model(
            m1,
            p2,
            -k,
        ).dom().contains(y) by {
            if y < pivot {
                assert(m1.dom().contains(y)) by {
                    assert(m.dom().contains(y) && y < pivot);
                }
                assert(y < p2);
                assert(!landed(m1, p2, -k, y) ==> m1.dom().contains(y) && y < p2);
            } else {
                assert(0 <= y + k && y + k <= u32::MAX);
                let z = (y + k) as u32;
                assert(landed(m, pivot, k, z));
                assert(m1.dom().contains(z));
                assert(z >= p2);
                assert(landed(m1, p2, -k, y)) by {
                    assert((y - (-k)) as u32 == z);
                }
            }
        }
    }
}

} // verus!
