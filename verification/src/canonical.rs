use vstd::prelude::*;

verus! {

/// Lexicographic order on character sequences, characters compared by code point. This is
/// the order of `str` (whose bytewise UTF-8 order agrees with code point order).
pub open spec fn lex_lt(a: Seq<char>, b: Seq<char>) -> bool
    decreases a.len(),
{
    if a.len() == 0 {
        b.len() > 0
    } else if b.len() == 0 {
        false
    } else if a[0] != b[0] {
        a[0] < b[0]
    } else {
        lex_lt(a.drop_first(), b.drop_first())
    }
}

/// No sequence is before itself.
pub proof fn lemma_lex_irreflexive(a: Seq<char>)
    ensures
        !lex_lt(a, a),
    decreases a.len(),
{
    if a.len() > 0 {
        lemma_lex_irreflexive(a.drop_first());
    }
}

/// Of two different sequences, one is before the other.
pub proof fn lemma_lex_trichotomy(a: Seq<char>, b: Seq<char>)
    ensures
        lex_lt(a, b) || lex_lt(b, a) || a == b,
        !(lex_lt(a, b) && lex_lt(b, a)),
    decreases a.len(),
{
    if a.len() > 0 && b.len() > 0 {
        lemma_lex_trichotomy(a.drop_first(), b.drop_first());
        if a[0] == b[0] && a.drop_first() == b.drop_first() {
            assert(a =~= seq![a[0]] + a.drop_first());
            assert(b =~= seq![b[0]] + b.drop_first());
        }
    } else if a.len() == 0 && b.len() == 0 {
        assert(a =~= b);
    }
}

/// The order is transitive.
pub proof fn lemma_lex_transitive(a: Seq<char>, b: Seq<char>, c: Seq<char>)
    requires
        lex_lt(a, b),
        lex_lt(b, c),
    ensures
        lex_lt(a, c),
    decreases a.len(),
{
    if a.len() > 0 && b.len() > 0 && c.len() > 0 {
        if a[0] == b[0] && b[0] == c[0] {
            lemma_lex_transitive(a.drop_first(), b.drop_first(), c.drop_first());
        }
    }
}

/// Every element is strictly less than every later one.
pub open spec fn strictly_sorted(s: Seq<Seq<char>>) -> bool {
    forall|i: int, j: int| 0 <= i < j < s.len() ==> lex_lt(#[trigger] s[i], #[trigger] s[j])
}

/// Two sequences hold the same elements, ignoring order and repetition.
pub open spec fn same_elements(a: Seq<Seq<char>>, b: Seq<Seq<char>>) -> bool {
    forall|x: Seq<char>| a.contains(x) <==> b.contains(x)
}

/// The distinct elements of `xs`, in increasing order.
pub open spec fn sorted_distinct(xs: Seq<Seq<char>>) -> Seq<Seq<char>> {
    choose|ys: Seq<Seq<char>>| strictly_sorted(ys) && same_elements(ys, xs)
}

/// At most one strictly increasing sequence holds a given set of elements.
pub proof fn lemma_sorted_unique(a: Seq<Seq<char>>, b: Seq<Seq<char>>)
    requires
        strictly_sorted(a),
        strictly_sorted(b),
        same_elements(a, b),
    ensures
        a == b,
    decreases a.len(),
{
    if a.len() == 0 {
        if b.len() > 0 {
            assert(b.contains(b[0]));
        }
        assert(a =~= b);
    } else {
        assert(a.contains(a[0]));
        assert(b.contains(a[0]));
        let k = choose|k: int| 0 <= k < b.len() && b[k] == a[0];
        assert(b.contains(b[0]));
        assert(a.contains(b[0]));
        let m = choose|m: int| 0 <= m < a.len() && a[m] == b[0];
        if k > 0 {
            assert(lex_lt(b[0], b[k]));
            if m > 0 {
                assert(lex_lt(a[0], a[m]));
                lemma_lex_trichotomy(a[0], b[0]);
            } else {
                lemma_lex_irreflexive(a[0]);
            }
        }
        assert(a[0] == b[0]);
        let a1 = a.drop_first();
        let b1 = b.drop_first();
        assert forall|x: Seq<char>| a1.contains(x) <==> b1.contains(x) by {
            if a1.contains(x) {
                let i = choose|i: int| 0 <= i < a1.len() && a1[i] == x;
                assert(a.contains(x));
                assert(lex_lt(a[0], a[i + 1]));
                lemma_lex_irreflexive(x);
                let j = choose|j: int| 0 <= j < b.len() && b[j] == x;
                assert(j != 0);
                assert(b1[j - 1] == x);
            }
            if b1.contains(x) {
                let i = choose|i: int| 0 <= i < b1.len() && b1[i] == x;
                assert(b.contains(x));
                assert(lex_lt(b[0], b[i + 1]));
                lemma_lex_irreflexive(x);
                let j = choose|j: int| 0 <= j < a.len() && a[j] == x;
                assert(j != 0);
                assert(a1[j - 1] == x);
            }
        }
        assert forall|i: int, j: int| 0 <= i < j < a1.len() implies lex_lt(#[trigger] a1[i], #[trigger] a1[j]) by {
            assert(a1[i] == a[i + 1] && a1[j] == a[j + 1]);
        }
        assert forall|i: int, j: int| 0 <= i < j < b1.len() implies lex_lt(#[trigger] b1[i], #[trigger] b1[j]) by {
            assert(b1[i] == b[i + 1] && b1[j] == b[j + 1]);
        }
        lemma_sorted_unique(a1, b1);
        assert(a =~= b) by {
            assert forall|i: int| 0 <= i < a.len() implies a[i] == b[i] by {
                if i > 0 {
                    assert(a[i] == a1[i - 1]);
                    assert(b[i] == b1[i - 1]);
                }
            }
        }
    }
}

/// A strictly increasing sequence with the elements of `xs` is the value of `sorted_distinct`.
pub proof fn lemma_sorted_distinct(xs: Seq<Seq<char>>, ys: Seq<Seq<char>>)
    requires
        strictly_sorted(ys),
        same_elements(ys, xs),
    ensures
        sorted_distinct(xs) == ys,
{
    let zs = sorted_distinct(xs);
    assert(strictly_sorted(zs) && same_elements(zs, xs));
    assert(same_elements(zs, ys));
    lemma_sorted_unique(zs, ys);
}

/// `ys` with `x` inserted in order, unless it is already there.
pub open spec fn insert_distinct(ys: Seq<Seq<char>>, x: Seq<char>) -> Seq<Seq<char>>
    decreases ys.len(),
{
    if ys.len() == 0 {
        seq![x]
    } else if ys[0] == x {
        ys
    } else if lex_lt(x, ys[0]) {
        seq![x] + ys
    } else {
        seq![ys[0]] + insert_distinct(ys.drop_first(), x)
    }
}

/// Insertion sort that drops duplicates.
pub open spec fn sort_distinct(xs: Seq<Seq<char>>) -> Seq<Seq<char>>
    decreases xs.len(),
{
    if xs.len() == 0 {
        Seq::empty()
    } else {
        insert_distinct(sort_distinct(xs.drop_last()), xs.last())
    }
}

/// Inserting into a strictly increasing sequence keeps it strictly increasing and adds exactly the new element.
proof fn lemma_insert_distinct(ys: Seq<Seq<char>>, x: Seq<char>)
    requires
        strictly_sorted(ys),
    ensures
        strictly_sorted(insert_distinct(ys, x)),
        forall|y: Seq<char>| #[trigger] insert_distinct(ys, x).contains(y) <==> (ys.contains(y) || y == x),
        insert_distinct(ys, x).len() > 0,
        insert_distinct(ys, x)[0] == x || (ys.len() > 0 && insert_distinct(ys, x)[0] == ys[0]),
    decreases ys.len(),
{
    let r = insert_distinct(ys, x);
    if ys.len() == 0 {
        assert forall|y: Seq<char>| #[trigger] r.contains(y) <==> (ys.contains(y) || y == x) by {
            if r.contains(y) {
                assert(r[0] == y);
            }
            if y == x {
                assert(r[0] == x);
            }
        }
    } else if ys[0] == x {
        assert forall|y: Seq<char>| #[trigger] r.contains(y) <==> (ys.contains(y) || y == x) by {
            if y == x {
                assert(ys[0] == y);
            }
        }
    } else if lex_lt(x, ys[0]) {
        assert forall|i: int, j: int| 0 <= i < j < r.len() implies lex_lt(#[trigger] r[i], #[trigger] r[j]) by {
            if i == 0 {
                if j > 1 {
                    assert(lex_lt(ys[0], ys[j - 1]));
                    lemma_lex_transitive(x, ys[0], ys[j - 1]);
                }
            } else {
                assert(r[i] == ys[i - 1] && r[j] == ys[j - 1]);
            }
        }
        assert forall|y: Seq<char>| #[trigger] r.contains(y) <==> (ys.contains(y) || y == x) by {
            if r.contains(y) {
                let i = choose|i: int| 0 <= i < r.len() && r[i] == y;
                if i > 0 {
                    assert(ys[i - 1] == y);
                }
            }
            if ys.contains(y) {
                let i = choose|i: int| 0 <= i < ys.len() && ys[i] == y;
                assert(r[i + 1] == y);
            }
            if y == x {
                assert(r[0] == y);
            }
        }
    } else {
        let t = ys.drop_first();
        assert forall|i: int, j: int| 0 <= i < j < t.len() implies lex_lt(#[trigger] t[i], #[trigger] t[j]) by {
            assert(t[i] == ys[i + 1] && t[j] == ys[j + 1]);
        }
        lemma_insert_distinct(t, x);
        let it = insert_distinct(t, x);
        lemma_lex_trichotomy(x, ys[0]);
        assert forall|i: int, j: int| 0 <= i < j < r.len() implies lex_lt(#[trigger] r[i], #[trigger] r[j]) by {
            if i == 0 {
                assert(r[j] == it[j - 1]);
                assert(it.contains(it[j - 1]));
                if it[j - 1] != x {
                    let k = choose|k: int| 0 <= k < t.len() && t[k] == it[j - 1];
                    assert(lex_lt(ys[0], ys[k + 1]));
                }
            } else {
                assert(r[i] == it[i - 1] && r[j] == it[j - 1]);
            }
        }
        assert forall|y: Seq<char>| #[trigger] r.contains(y) <==> (ys.contains(y) || y == x) by {
            if r.contains(y) {
                let i = choose|i: int| 0 <= i < r.len() && r[i] == y;
                if i > 0 {
                    assert(it[i - 1] == y);
                    assert(it.contains(y));
                    if t.contains(y) {
                        let k = choose|k: int| 0 <= k < t.len() && t[k] == y;
                        assert(ys[k + 1] == y);
                    }
                } else {
                    assert(ys[0] == y);
                }
            }
            if ys.contains(y) {
                let i = choose|i: int| 0 <= i < ys.len() && ys[i] == y;
                if i > 0 {
                    assert(t[i - 1] == y);
                    assert(it.contains(y));
                    let k = choose|k: int| 0 <= k < it.len() && it[k] == y;
                    assert(r[k + 1] == y);
                } else {
                    assert(r[0] == y);
                }
            }
            if y == x {
                assert(it.contains(x));
                let k = choose|k: int| 0 <= k < it.len() && it[k] == x;
                assert(r[k + 1] == y);
            }
        }
    }
}

/// `sort_distinct` gives a strictly increasing sequence of the same elements.
pub proof fn lemma_sort_distinct(xs: Seq<Seq<char>>)
    ensures
        strictly_sorted(sort_distinct(xs)),
        same_elements(sort_distinct(xs), xs),
    decreases xs.len(),
{
    if xs.len() > 0 {
        let init = xs.drop_last();
        lemma_sort_distinct(init);
        lemma_insert_distinct(sort_distinct(init), xs.last());
        assert forall|y: Seq<char>| sort_distinct(xs).contains(y) <==> xs.contains(y) by {
            if init.contains(y) {
                let i = choose|i: int| 0 <= i < init.len() && init[i] == y;
                assert(xs[i] == y);
            }
            if xs.contains(y) {
                let i = choose|i: int| 0 <= i < xs.len() && xs[i] == y;
                if i < xs.len() - 1 {
                    assert(init[i] == y);
                }
            }
            if y == xs.last() {
                assert(xs.contains(y));
            }
        }
    }
}

/// `sorted_distinct` is strictly increasing and holds exactly the elements of its argument.
pub proof fn lemma_sorted_distinct_props(xs: Seq<Seq<char>>)
    ensures
        strictly_sorted(sorted_distinct(xs)),
        same_elements(sorted_distinct(xs), xs),
{
    lemma_sort_distinct(xs);
    lemma_sorted_distinct(xs, sort_distinct(xs));
}

/// The parts joined with `sep` between consecutive parts.
pub open spec fn join(parts: Seq<Seq<char>>, sep: char) -> Seq<char>
    decreases parts.len(),
{
    if parts.len() == 0 {
        Seq::empty()
    } else if parts.len() == 1 {
        parts[0]
    } else {
        join(parts.drop_last(), sep) + seq![sep] + parts.last()
    }
}

} // verus!
