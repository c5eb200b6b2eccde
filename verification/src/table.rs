use vstd::prelude::*;

verus! {

/// Whether the table holds the string.
pub open spec fn table_contains(t: Seq<Seq<char>>, s: Seq<char>) -> bool {
    exists|i: int| 0 <= i < t.len() && t[i] == s
}

/// The first index of the string in the table; the table's length when the
/// string is absent.
pub open spec fn table_index(t: Seq<Seq<char>>, s: Seq<char>) -> int
    decreases t.len(),
{
    if t.len() == 0 {
        0
    } else if t.first() == s {
        0
    } else {
        1 + table_index(t.drop_first(), s)
    }
}

/// The table after registering a string: unchanged when the string is already
/// there, extended by it at the end otherwise.
pub open spec fn table_add(t: Seq<Seq<char>>, s: Seq<char>) -> Seq<Seq<char>> {
    if table_contains(t, s) {
        t
    } else {
        t.push(s)
    }
}

/// The table after registering each string of a list, in order.
pub open spec fn table_add_all(t: Seq<Seq<char>>, xs: Seq<Seq<char>>) -> Seq<Seq<char>>
    decreases xs.len(),
{
    if xs.len() == 0 {
        t
    } else {
        table_add_all(table_add(t, xs.first()), xs.drop_first())
    }
}

/// The indices at which the strings of a list come to sit when registered in
/// order.
pub open spec fn table_indexes(t: Seq<Seq<char>>, xs: Seq<Seq<char>>) -> Seq<int>
    decreases xs.len(),
{
    if xs.len() == 0 {
        Seq::empty()
    } else {
        seq![table_index(t, xs.first())] + table_indexes(table_add(t, xs.first()), xs.drop_first())
    }
}

/// Registering a list yields one index per string of the list.
pub proof fn lemma_table_indexes_len(t: Seq<Seq<char>>, xs: Seq<Seq<char>>)
    ensures
        table_indexes(t, xs).len() == xs.len(),
    decreases xs.len(),
{
    if xs.len() > 0 {
        lemma_table_indexes_len(table_add(t, xs.first()), xs.drop_first());
    }
}

/// `table_index` finds the first occurrence, or the length when absent.
pub proof fn lemma_table_index(t: Seq<Seq<char>>, s: Seq<char>)
    ensures
        0 <= table_index(t, s) <= t.len(),
        table_contains(t, s) <==> table_index(t, s) < t.len(),
        table_index(t, s) < t.len() ==> t[table_index(t, s)] == s,
        forall|j: int| 0 <= j < table_index(t, s) ==> t[j] != s,
    decreases t.len(),
{
    if t.len() > 0 && t.first() != s {
        let d = t.drop_first();
        lemma_table_index(d, s);
        assert(forall|i: int| 0 <= i < d.len() ==> d[i] == t[i + 1]);
        if table_contains(t, s) {
            let i = choose|i: int| 0 <= i < t.len() && t[i] == s;
            assert(i != 0) by {
                assert(t[0] == t.first());
            }
            assert(d[i - 1] == s);
            assert(table_contains(d, s));
        }
        if table_contains(d, s) {
            let i = choose|i: int| 0 <= i < d.len() && d[i] == s;
            assert(t[i + 1] == s);
            assert(table_contains(t, s));
        }
        assert forall|j: int| 0 <= j < table_index(t, s) implies t[j] != s by {
            if j == 0 {
                assert(t[0] == t.first());
            } else {
                assert(d[j - 1] != s);
                assert(t[j] == d[j - 1]);
            }
        }
    }
}

/// Appending a fresh string puts it at the end, where `table_index` finds it.
pub proof fn lemma_table_index_push(t: Seq<Seq<char>>, s: Seq<char>)
    requires
        !table_contains(t, s),
    ensures
        table_index(t.push(s), s) == t.len(),
    decreases t.len(),
{
    if t.len() == 0 {
        assert(t.push(s).first() == s);
    } else {
        assert(t.first() != s) by {
            assert(t[0] == t.first());
        }
        assert(t.push(s).first() == t.first());
        let d = t.drop_first();
        assert(!table_contains(d, s)) by {
            assert(forall|i: int| 0 <= i < d.len() ==> d[i] == t[i + 1]);
            if table_contains(d, s) {
                let i = choose|i: int| 0 <= i < d.len() && d[i] == s;
                assert(t[i + 1] == s);
            }
        }
        lemma_table_index_push(d, s);
        assert(t.push(s).drop_first() =~= d.push(s));
    }
}

/// Registering a string never rewrites what the table already holds: the old
/// table is a prefix of the new one, which holds the string.
pub proof fn lemma_table_add_facts(t: Seq<Seq<char>>, s: Seq<char>)
    ensures
        t.is_prefix_of(table_add(t, s)),
        t.len() <= table_add(t, s).len() <= t.len() + 1,
        table_contains(table_add(t, s), s),
        table_index(table_add(t, s), s) == table_index(t, s),
        table_add(t, s)[table_index(t, s)] == s,
        table_index(t, s) < table_add(t, s).len(),
{
    lemma_table_index(t, s);
    if table_contains(t, s) {
        assert(t.is_prefix_of(t)) by {
            assert(t =~= t.take(t.len() as int));
        }
    } else {
        assert(t =~= t.push(s).take(t.len() as int));
        lemma_table_index_push(t, s);
        assert(t.push(s)[t.len() as int] == s);
    }
}

/// Registering the same string twice changes nothing the second time: the
/// table is unchanged and the lookup lands on the same index.
pub proof fn lemma_table_add_dedup(t: Seq<Seq<char>>, s: Seq<char>)
    ensures
        table_add(table_add(t, s), s) == table_add(t, s),
        table_index(table_add(t, s), s) == table_index(t, s),
{
    lemma_table_add_facts(t, s);
    lemma_table_add_facts(table_add(t, s), s);
}

/// Registering a list one string at a time, left to right, is registering the
/// whole list.
pub proof fn lemma_table_add_all_snoc(t: Seq<Seq<char>>, xs: Seq<Seq<char>>, x: Seq<char>)
    ensures
        table_add_all(t, xs.push(x)) == table_add(table_add_all(t, xs), x),
        table_indexes(t, xs.push(x)) == table_indexes(t, xs).push(
            table_index(table_add_all(t, xs), x),
        ),
    decreases xs.len(),
{
    let ys = xs.push(x);
    if xs.len() == 0 {
        assert(ys.first() == x);
        assert(ys.drop_first() =~= Seq::<Seq<char>>::empty());
        assert(table_add_all(t, ys) == table_add_all(table_add(t, x), ys.drop_first()));
        assert(table_add_all(table_add(t, x), ys.drop_first()) == table_add(t, x));
        assert(table_add_all(t, xs) == t);
        assert(table_indexes(t, ys) == seq![table_index(t, x)] + table_indexes(
            table_add(t, x),
            ys.drop_first(),
        ));
        assert(table_indexes(table_add(t, x), ys.drop_first()) == Seq::<int>::empty());
        assert(table_indexes(t, xs) == Seq::<int>::empty());
        assert(table_indexes(t, ys) =~= table_indexes(t, xs).push(
            table_index(table_add_all(t, xs), x),
        ));
    } else {
        assert(ys.first() == xs.first());
        assert(ys.drop_first() =~= xs.drop_first().push(x));
        let tb = table_add(t, xs.first());
        lemma_table_add_all_snoc(tb, xs.drop_first(), x);
        assert(table_add_all(t, ys) == table_add_all(tb, ys.drop_first()));
        assert(table_add_all(t, xs) == table_add_all(tb, xs.drop_first()));
        assert(table_indexes(t, ys) == seq![table_index(t, ys.first())] + table_indexes(
            tb,
            ys.drop_first(),
        ));
        assert(table_indexes(t, xs) == seq![table_index(t, xs.first())] + table_indexes(
            tb,
            xs.drop_first(),
        ));
        assert(table_indexes(t, ys) =~= table_indexes(t, xs).push(
            table_index(table_add_all(t, xs), x),
        ));
    }
}

/// Look a string up in the table, appending it if it is absent; return its
/// index. This is the shared engine of the `sources` and `names` tables.
pub(crate) fn table_register(v: &mut Vec<String>, s: String) -> (r: u32)
    requires
        old(v)@.len() < u32::MAX as usize,
    ensures
        final(v).deep_view() == table_add(old(v).deep_view(), s@),
        r as int == table_index(old(v).deep_view(), s@),
        r < final(v)@.len(),
        final(v).deep_view()[r as int] == s@,
        old(v).deep_view().is_prefix_of(final(v).deep_view()),
        old(v)@.len() <= final(v)@.len() <= old(v)@.len() + 1,
{
    let ghost t = old(v).deep_view();
    proof {
        lemma_table_index(t, s@);
        lemma_table_add_facts(t, s@);
    }
    let len = v.len();
    let mut j: usize = 0;
    while j < len
        invariant
            j <= len,
            len == v@.len(),
            len < u32::MAX as usize,
            v@ == old(v)@,
            t == v.deep_view(),
            forall|k: int| 0 <= k < j ==> t[k] != s@,
        decreases len - j,
    {
        assert(t[j as int] == v@[j as int]@);
        if v[j].eq(&s) {
            proof {
                assert(t[j as int] == s@);
                lemma_table_index(t, s@);
                let ti = table_index(t, s@);
                if ti < j as int {
                    assert(t[ti] != s@);
                    assert(t[ti] == s@);
                } else if ti > j as int {
                    assert(t[j as int] != s@);
                }
                assert(ti == j as int);
                assert(table_contains(t, s@));
            }
            return j as u32;
        }
        assert(t[j as int] != s@);
        j += 1;
    }
    proof {
        assert(!table_contains(t, s@)) by {
            if table_contains(t, s@) {
                let i = choose|i: int| 0 <= i < t.len() && t[i] == s@;
                assert(t[i] != s@);
            }
        }
        assert(table_index(t, s@) == t.len()) by {
            lemma_table_index(t, s@);
        }
    }
    v.push(s);
    proof {
        assert(v.deep_view() =~= t.push(s@));
    }
    len as u32
}

/// The tables only ever grow: registering a list of strings leaves every
/// existing entry where it was, so indices never change meaning.
pub proof fn lemma_table_add_all_grows(t: Seq<Seq<char>>, xs: Seq<Seq<char>>)
    ensures
        t.is_prefix_of(table_add_all(t, xs)),
        t.len() <= table_add_all(t, xs).len(),
    decreases xs.len(),
{
    if xs.len() == 0 {
        assert(t =~= table_add_all(t, xs).take(t.len() as int));
    } else {
        let tb = table_add(t, xs.first());
        lemma_table_add_facts(t, xs.first());
        lemma_table_add_all_grows(tb, xs.drop_first());
        let u = table_add_all(t, xs);
        assert(u == table_add_all(tb, xs.drop_first()));
        assert(forall|i: int| 0 <= i < t.len() ==> t[i] == tb[i]);
        assert(forall|i: int| 0 <= i < tb.len() ==> tb[i] == u[i]) by {
            assert(tb =~= u.take(tb.len() as int));
        }
        assert(t =~= u.take(t.len() as int));
    }
}

} // verus!
