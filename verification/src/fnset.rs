use vstd::prelude::*;
use vstd::set_lib::lemma_len_subset;

verus! {

/// Whether `s` is strictly increasing: a set of ids listed in order.
pub open spec fn sorted(s: Seq<usize>) -> bool {
    forall|i: int, j: int| 0 <= i < j < s.len() ==> s[i] < s[j]
}

/// The ordered union of two ordered id lists.
pub open spec fn merge_ids(a: Seq<usize>, b: Seq<usize>) -> Seq<usize>
    decreases a.len() + b.len(),
{
    if a.len() == 0 {
        b
    } else if b.len() == 0 {
        a
    } else if a[0] < b[0] {
        seq![a[0]] + merge_ids(a.drop_first(), b)
    } else if b[0] < a[0] {
        seq![b[0]] + merge_ids(a, b.drop_first())
    } else {
        seq![a[0]] + merge_ids(a.drop_first(), b.drop_first())
    }
}

/// The ordered union holds exactly the ids of both lists, in order.
pub proof fn lemma_merge_ids(a: Seq<usize>, b: Seq<usize>)
    requires
        sorted(a),
        sorted(b),
    ensures
        sorted(merge_ids(a, b)),
        forall|x: usize| #[trigger] merge_ids(a, b).contains(x) <==> (a.contains(x) || b.contains(x)),
        merge_ids(a, b).len() > 0 ==> (merge_ids(a, b)[0] == a[0] || merge_ids(a, b)[0] == b[0]),
    decreases a.len() + b.len(),
{
    let m = merge_ids(a, b);
    if a.len() == 0 {
    } else if b.len() == 0 {
    } else {
        let (h, a2, b2) = if a[0] < b[0] {
            (a[0], a.drop_first(), b)
        } else if b[0] < a[0] {
            (b[0], a, b.drop_first())
        } else {
            (a[0], a.drop_first(), b.drop_first())
        };
        lemma_merge_ids(a2, b2);
        let r = merge_ids(a2, b2);
        assert(m == seq![h] + r);
        assert forall|x: usize| #[trigger] m.contains(x) <==> (a.contains(x) || b.contains(x)) by {
            if m.contains(x) {
                let i = choose|i: int| 0 <= i < m.len() && m[i] == x;
                if i > 0 {
                    assert(r[i - 1] == x);
                    assert(r.contains(x));
                    if a2.contains(x) {
                        let k = choose|k: int| 0 <= k < a2.len() && a2[k] == x;
                        assert(a.contains(x)) by {
                            if a2 == a.drop_first() {
                                assert(a[k + 1] == x);
                            }
                        }
                    }
                    if b2.contains(x) {
                        let k = choose|k: int| 0 <= k < b2.len() && b2[k] == x;
                        assert(b.contains(x)) by {
                            if b2 == b.drop_first() {
                                assert(b[k + 1] == x);
                            }
                        }
                    }
                } else {
                    assert(a[0] == x || b[0] == x);
                }
            }
            if a.contains(x) {
                let k = choose|k: int| 0 <= k < a.len() && a[k] == x;
                if x == h {
                    assert(m[0] == x);
                } else if k == 0 {
                    assert(a2 == a);
                    assert(r.contains(x));
                    assert(m[1 + r.index_of(x)] == x);
                } else {
                    if a2 == a.drop_first() {
                        assert(a2[k - 1] == x);
                    } else {
                        assert(a2[k] == x);
                    }
                    assert(r.contains(x));
                    assert(m[1 + r.index_of(x)] == x);
                }
            }
            if b.contains(x) {
                let k = choose|k: int| 0 <= k < b.len() && b[k] == x;
                if x == h {
                    assert(m[0] == x);
                } else if k == 0 {
                    assert(b2 == b);
                    assert(r.contains(x));
                    assert(m[1 + r.index_of(x)] == x);
                } else {
                    if b2 == b.drop_first() {
                        assert(b2[k - 1] == x);
                    } else {
                        assert(b2[k] == x);
                    }
                    assert(r.contains(x));
                    assert(m[1 + r.index_of(x)] == x);
                }
            }
        }
        assert(sorted(a2));
        assert(sorted(b2));
        assert forall|i: int, j: int| 0 <= i < j < m.len() implies m[i] < m[j] by {
            if i == 0 {
                assert(m[j] == r[j - 1]);
                assert(r.contains(r[j - 1]));
                let y = r[j - 1];
                if a2.contains(y) {
                    let k = choose|k: int| 0 <= k < a2.len() && a2[k] == y;
                    if a2 == a.drop_first() {
                        assert(a[k + 1] == y);
                    } else {
                        assert(a[k] == y);
                        assert(k > 0 || h < a[0]);
                    }
                }
                if b2.contains(y) {
                    let k = choose|k: int| 0 <= k < b2.len() && b2[k] == y;
                    if b2 == b.drop_first() {
                        assert(b[k + 1] == y);
                    } else {
                        assert(b[k] == y);
                        assert(k > 0 || h < b[0]);
                    }
                }
            } else {
                assert(m[i] == r[i - 1]);
                assert(m[j] == r[j - 1]);
            }
        }
    }
}

/// The ordered union of any two lists holds exactly the ids of both.
pub proof fn lemma_merge_ids_contains(a: Seq<usize>, b: Seq<usize>)
    ensures
        forall|x: usize| #[trigger] merge_ids(a, b).contains(x) <==> (a.contains(x) || b.contains(x)),
    decreases a.len() + b.len(),
{
    let m = merge_ids(a, b);
    if a.len() == 0 {
    } else if b.len() == 0 {
    } else {
        let (h, a2, b2) = if a[0] < b[0] {
            (a[0], a.drop_first(), b)
        } else if b[0] < a[0] {
            (b[0], a, b.drop_first())
        } else {
            (a[0], a.drop_first(), b.drop_first())
        };
        lemma_merge_ids_contains(a2, b2);
        let r = merge_ids(a2, b2);
        assert(m == seq![h] + r);
        assert forall|x: usize| #[trigger] m.contains(x) <==> (a.contains(x) || b.contains(x)) by {
            if m.contains(x) {
                let i = choose|i: int| 0 <= i < m.len() && m[i] == x;
                if i > 0 {
                    assert(r[i - 1] == x);
                    assert(r.contains(x));
                    if a2.contains(x) {
                        let k = choose|k: int| 0 <= k < a2.len() && a2[k] == x;
                        assert(a.contains(x)) by {
                            if a2 == a.drop_first() {
                                assert(a[k + 1] == x);
                            }
                        }
                    }
                    if b2.contains(x) {
                        let k = choose|k: int| 0 <= k < b2.len() && b2[k] == x;
                        assert(b.contains(x)) by {
                            if b2 == b.drop_first() {
                                assert(b[k + 1] == x);
                            }
                        }
                    }
                } else {
                    assert(a[0] == x || b[0] == x);
                }
            }
            if a.contains(x) {
                let k = choose|k: int| 0 <= k < a.len() && a[k] == x;
                if x == h {
                    assert(m[0] == x);
                } else if k == 0 {
                    assert(a2 == a);
                    assert(r.contains(x));
                    assert(m[1 + r.index_of(x)] == x);
                } else {
                    if a2 == a.drop_first() {
                        assert(a2[k - 1] == x);
                    } else {
                        assert(a2[k] == x);
                    }
                    assert(r.contains(x));
                    assert(m[1 + r.index_of(x)] == x);
                }
            }
            if b.contains(x) {
                let k = choose|k: int| 0 <= k < b.len() && b[k] == x;
                if x == h {
                    assert(m[0] == x);
                } else if k == 0 {
                    assert(b2 == b);
                    assert(r.contains(x));
                    assert(m[1 + r.index_of(x)] == x);
                } else {
                    if b2 == b.drop_first() {
                        assert(b2[k - 1] == x);
                    } else {
                        assert(b2[k] == x);
                    }
                    assert(r.contains(x));
                    assert(m[1 + r.index_of(x)] == x);
                }
            }
        }
    }
}

/// An ordered list of ids below `n` has at most `n` entries.
pub proof fn lemma_sorted_below_len(s: Seq<usize>, n: nat)
    requires
        sorted(s),
        forall|i: int| 0 <= i < s.len() ==> s[i] < n,
    ensures
        s.len() <= n,
{
    assert forall|i: int| 0 <= i < s.len() implies s[i] >= i by {
        lemma_sorted_at_least_index(s, i);
    }
    if s.len() > 0 {
        assert(s[s.len() - 1] >= s.len() - 1);
    }
}

proof fn lemma_sorted_at_least_index(s: Seq<usize>, i: int)
    requires
        sorted(s),
        0 <= i < s.len(),
    ensures
        s[i] >= i,
    decreases i,
{
    if i > 0 {
        lemma_sorted_at_least_index(s, i - 1);
    }
}

/// Two ordered lists with the same ids are the same list.
pub proof fn lemma_sorted_same_ids(a: Seq<usize>, b: Seq<usize>)
    requires
        sorted(a),
        sorted(b),
        forall|x: usize| #![trigger a.contains(x)] #![trigger b.contains(x)] a.contains(x) <==> b.contains(x),
    ensures
        a == b,
    decreases a.len(),
{
    if a.len() == 0 {
        if b.len() > 0 {
            assert(b.contains(b[0]));
        }
        assert(a =~= b);
    } else {
        assert(a.contains(a[0]));
        assert(b.len() > 0);
        assert(b.contains(b[0]));
        assert(a.contains(b[0]));
        assert(b.contains(a[0]));
        let ia = choose|k: int| 0 <= k < a.len() && a[k] == b[0];
        let ib = choose|k: int| 0 <= k < b.len() && b[k] == a[0];
        assert(a[0] <= b[0]) by {
            if ia > 0 {
                assert(a[0] < a[ia]);
            }
        }
        assert(b[0] <= a[0]) by {
            if ib > 0 {
                assert(b[0] < b[ib]);
            }
        }
        let a2 = a.drop_first();
        let b2 = b.drop_first();
        assert forall|x: usize| #[trigger] a2.contains(x) <==> b2.contains(x) by {
            if a2.contains(x) {
                let k = choose|k: int| 0 <= k < a2.len() && a2[k] == x;
                assert(a[k + 1] == x);
                assert(a.contains(x));
                assert(b.contains(x));
                let j = choose|j: int| 0 <= j < b.len() && b[j] == x;
                assert(x > a[0]);
                assert(j > 0);
                assert(b2[j - 1] == x);
            }
            if b2.contains(x) {
                let k = choose|k: int| 0 <= k < b2.len() && b2[k] == x;
                assert(b[k + 1] == x);
                assert(b.contains(x));
                assert(a.contains(x));
                let j = choose|j: int| 0 <= j < a.len() && a[j] == x;
                assert(x > b[0]);
                assert(j > 0);
                assert(a2[j - 1] == x);
            }
        }
        lemma_sorted_same_ids(a2, b2);
        assert(a =~= seq![a[0]] + a2);
        assert(b =~= seq![b[0]] + b2);
    }
}

/// An ordered list whose ids are all in another ordered list is no longer,
/// and strictly shorter unless the two are equal.
pub proof fn lemma_sorted_sub_len(a: Seq<usize>, b: Seq<usize>)
    requires
        sorted(a),
        sorted(b),
        forall|x: usize| #[trigger] a.contains(x) ==> b.contains(x),
    ensures
        a.len() <= b.len(),
        a != b ==> a.len() < b.len(),
{
    assert(a.no_duplicates());
    assert(b.no_duplicates());
    a.unique_seq_to_set();
    b.unique_seq_to_set();
    assert(a.to_set().subset_of(b.to_set()));
    lemma_len_subset(a.to_set(), b.to_set());
    if a != b {
        if forall|x: usize| #[trigger] b.contains(x) ==> a.contains(x) {
            lemma_sorted_same_ids(a, b);
        }
        let x = choose|x: usize| #[trigger] b.contains(x) && !a.contains(x);
        a.to_set().lemma_subset_not_in_lt(b.to_set(), x);
    }
}

/// The ordered union of two ordered id lists.
pub fn merge_id_vecs(a: &Vec<usize>, b: &Vec<usize>) -> (r: Vec<usize>)
    requires
        sorted(a@),
        sorted(b@),
    ensures
        r@ == merge_ids(a@, b@),
{
    let mut out: Vec<usize> = Vec::new();
    let mut i: usize = 0;
    let mut j: usize = 0;
    assert(a@.skip(0) =~= a@);
    assert(b@.skip(0) =~= b@);
    while i < a.len() || j < b.len()
        invariant
            i <= a.len(),
            j <= b.len(),
            out@ + merge_ids(a@.skip(i as int), b@.skip(j as int)) == merge_ids(a@, b@),
        decreases a.len() + b.len() - i - j,
    {
        let ghost sa = a@.skip(i as int);
        let ghost sb = b@.skip(j as int);
        let ghost o = out@;
        if i == a.len() {
            let x = b[j];
            proof {
                assert(sa.len() == 0);
                assert(sb =~= seq![x] + b@.skip(j + 1));
            }
            out.push(x);
            j = j + 1;
            assert(out@ + merge_ids(a@.skip(i as int), b@.skip(j as int)) =~= o + merge_ids(sa, sb));
        } else if j == b.len() {
            let x = a[i];
            proof {
                assert(sb.len() == 0);
                assert(sa =~= seq![x] + a@.skip(i + 1));
                assert(merge_ids(sa, sb) == sa);
                assert(merge_ids(a@.skip(i + 1), sb) == a@.skip(i + 1));
            }
            out.push(x);
            i = i + 1;
            assert(out@ + merge_ids(a@.skip(i as int), b@.skip(j as int)) =~= o + merge_ids(sa, sb));
        } else if a[i] < b[j] {
            let x = a[i];
            proof {
                assert(sa[0] == x && sb[0] == b@[j as int]);
                assert(sa.drop_first() =~= a@.skip(i + 1));
                assert(merge_ids(sa, sb) == seq![x] + merge_ids(a@.skip(i + 1), sb));
            }
            out.push(x);
            i = i + 1;
            assert(out@ + merge_ids(a@.skip(i as int), b@.skip(j as int)) =~= o + merge_ids(sa, sb));
        } else if b[j] < a[i] {
            let x = b[j];
            proof {
                assert(sa[0] == a@[i as int] && sb[0] == x);
                assert(sb.drop_first() =~= b@.skip(j + 1));
                assert(merge_ids(sa, sb) == seq![x] + merge_ids(sa, b@.skip(j + 1)));
            }
            out.push(x);
            j = j + 1;
            assert(out@ + merge_ids(a@.skip(i as int), b@.skip(j as int)) =~= o + merge_ids(sa, sb));
        } else {
            let x = a[i];
            proof {
                assert(sa[0] == x && sb[0] == b@[j as int]);
                assert(sa.drop_first() =~= a@.skip(i + 1));
                assert(sb.drop_first() =~= b@.skip(j + 1));
                assert(merge_ids(sa, sb) == seq![x] + merge_ids(a@.skip(i + 1), b@.skip(j + 1)));
            }
            out.push(x);
            i = i + 1;
            j = j + 1;
            assert(out@ + merge_ids(a@.skip(i as int), b@.skip(j as int)) =~= o + merge_ids(sa, sb));
        }
    }
    assert(merge_ids(a@.skip(i as int), b@.skip(j as int)) =~= Seq::<usize>::empty());
    assert(out@ + Seq::<usize>::empty() =~= out@);
    out
}

/// Whether two id lists are equal.
pub fn same_ids(a: &Vec<usize>, b: &Vec<usize>) -> (r: bool)
    ensures
        r == (a@ == b@),
{
    if a.len() != b.len() {
        return false;
    }
    let mut i: usize = 0;
    while i < a.len()
        invariant
            i <= a.len(),
            a.len() == b.len(),
            forall|k: int| 0 <= k < i ==> a@[k] == b@[k],
        decreases a.len() - i,
    {
        if a[i] != b[i] {
            return false;
        }
        i = i + 1;
    }
    assert(a@ =~= b@);
    true
}

/// A copy of an id list.
pub fn copy_ids(a: &Vec<usize>) -> (r: Vec<usize>)
    ensures
        r@ == a@,
{
    let mut out: Vec<usize> = Vec::new();
    let mut i: usize = 0;
    while i < a.len()
        invariant
            i <= a.len(),
            out@ == a@.take(i as int),
        decreases a.len() - i,
    {
        out.push(a[i]);
        assert(a@.take(i + 1) =~= a@.take(i as int).push(a@[i as int]));
        i = i + 1;
    }
    assert(a@.take(a.len() as int) =~= a@);
    out
}

} // verus!
