use vstd::prelude::*;

verus! {

/// Growing a prefix by one element adds exactly that element.
pub proof fn lemma_take_one_more<A>(s: Seq<A>, i: int)
    requires
        0 <= i < s.len(),
    ensures
        forall|v: A| #[trigger] s.take(i + 1).contains(v) <==> (s.take(i).contains(v) || v == s[i]),
{
    assert forall|v: A| #[trigger] s.take(i + 1).contains(v) <==> (s.take(i).contains(v) || v == s[i]) by {
        if s.take(i + 1).contains(v) {
            let j = choose|j: int| 0 <= j < i + 1 && #[trigger] s.take(i + 1)[j] == v;
            if j < i {
                assert(s.take(i)[j] == v);
            }
        }
        if s.take(i).contains(v) {
            let j = choose|j: int| 0 <= j < i && #[trigger] s.take(i)[j] == v;
            assert(s.take(i + 1)[j] == v);
        }
        if v == s[i] {
            assert(s.take(i + 1)[i] == v);
        }
    }
}

/// What `s.push(x)` contains, and when it stays free of repetition.
pub proof fn lemma_push_contains<A>(s: Seq<A>, x: A)
    ensures
        forall|v: A| #[trigger] s.push(x).contains(v) <==> (s.contains(v) || v == x),
        s.no_duplicates() && !s.contains(x) ==> s.push(x).no_duplicates(),
{
    assert forall|v: A| #[trigger] s.push(x).contains(v) <==> (s.contains(v) || v == x) by {
        if s.contains(v) {
            let j = choose|j: int| 0 <= j < s.len() && s[j] == v;
            assert(s.push(x)[j] == v);
        }
        if v == x {
            assert(s.push(x)[s.len() as int] == v);
        }
        if s.push(x).contains(v) {
            let j = choose|j: int| 0 <= j < s.len() + 1 && #[trigger] s.push(x)[j] == v;
            if j < s.len() {
                assert(s[j] == v);
            }
        }
    }
    if s.no_duplicates() && !s.contains(x) {
        assert forall|i: int, j: int| 0 <= i < j < s.push(x).len() implies s.push(x)[i] != s.push(x)[j] by {
            if j == s.len() {
                assert(s.push(x)[i] == s[i]);
            }
        }
    }
}

} // verus!
