use std::cmp::Ordering;
use vstd::prelude::*;
use vstd::string::StrSliceExecFns;

verus! {

/// Lexicographic order on labels, comparing characters by code point.
pub open spec fn label_lt(a: Seq<char>, b: Seq<char>) -> bool
    decreases a.len(),
{
    if a.len() == 0 {
        b.len() > 0
    } else if b.len() == 0 {
        false
    } else if a[0] != b[0] {
        a[0] < b[0]
    } else {
        label_lt(a.drop_first(), b.drop_first())
    }
}

/// The views of a sequence of strings.
pub open spec fn views(s: Seq<String>) -> Seq<Seq<char>> {
    s.map_values(|x: String| x@)
}

/// Strictly ascending under `label_lt`, hence without repeats.
pub open spec fn strictly_sorted_labels(s: Seq<Seq<char>>) -> bool {
    forall|i: int, j: int| 0 <= i < j < s.len() ==> label_lt(s[i], s[j])
}

pub open spec fn sorted_labels(s: Seq<Seq<char>>) -> bool {
    forall|i: int, j: int| 0 <= i < j < s.len() ==> !label_lt(s[j], s[i])
}

pub open spec fn strictly_sorted_ints(s: Seq<i64>) -> bool {
    forall|i: int, j: int| 0 <= i < j < s.len() ==> s[i] < s[j]
}

pub proof fn lemma_push_contains<A>(s: Seq<A>, a: A, x: A)
    ensures
        s.push(a).contains(x) <==> s.contains(x) || x == a,
{
    if s.contains(x) {
        let i = choose|i: int| 0 <= i < s.len() && s[i] == x;
        assert(s.push(a)[i] == x);
    }
    if x == a {
        assert(s.push(a)[s.len() as int] == x);
    }
    if s.push(a).contains(x) {
        let i = choose|i: int| 0 <= i < s.len() + 1 && s.push(a)[i] == x;
        if i < s.len() {
            assert(s[i] == x);
        }
    }
}

pub proof fn lemma_label_lt_irreflexive(a: Seq<char>)
    ensures
        !label_lt(a, a),
    decreases a.len(),
{
    if a.len() > 0 {
        lemma_label_lt_irreflexive(a.drop_first());
    }
}

pub proof fn lemma_label_lt_asymmetric(a: Seq<char>, b: Seq<char>)
    ensures
        label_lt(a, b) ==> !label_lt(b, a),
    decreases a.len(),
{
    if a.len() > 0 && b.len() > 0 && a[0] == b[0] {
        lemma_label_lt_asymmetric(a.drop_first(), b.drop_first());
    }
}

pub proof fn lemma_label_lt_transitive(a: Seq<char>, b: Seq<char>, c: Seq<char>)
    requires
        label_lt(a, b),
        label_lt(b, c),
    ensures
        label_lt(a, c),
    decreases a.len(),
{
    if a.len() > 0 && b.len() > 0 && c.len() > 0 && a[0] == b[0] && b[0] == c[0] {
        lemma_label_lt_transitive(a.drop_first(), b.drop_first(), c.drop_first());
    }
}

pub proof fn lemma_label_lt_total(a: Seq<char>, b: Seq<char>)
    ensures
        a != b ==> label_lt(a, b) || label_lt(b, a),
    decreases a.len(),
{
    if a.len() > 0 && b.len() > 0 {
        if a[0] == b[0] {
            lemma_label_lt_total(a.drop_first(), b.drop_first());
            if a.drop_first() == b.drop_first() {
                assert(a =~= seq![a[0]] + a.drop_first());
                assert(b =~= seq![b[0]] + b.drop_first());
            }
        }
    } else if a.len() == 0 && b.len() == 0 {
        assert(a =~= b);
    }
}

/// Relies on `Ord for str`: strings are ordered lexicographically, code
/// points by their positions in the code charts.
#[verifier::external_body]
fn compare_labels(a: &str, b: &str) -> (r: Ordering)
    ensures
        (r == Ordering::Less) == label_lt(a@, b@),
        (r == Ordering::Equal) == (a@ == b@),
        (r == Ordering::Greater) == label_lt(b@, a@),
{
    a.cmp(b)
}

/// Relies on `slice::sort`: it permutes the strings into ascending order of
/// `Ord for String`.
#[verifier::external_body]
fn sort_strings(v: &mut Vec<String>)
    ensures
        views(final(v)@).to_multiset() == views(old(v)@).to_multiset(),
        sorted_labels(views(final(v)@)),
{
    v.sort();
}

/// Relies on `slice::sort`: it permutes the integers into ascending order.
#[verifier::external_body]
fn sort_ints(v: &mut Vec<i64>)
    ensures
        final(v)@.to_multiset() == old(v)@.to_multiset(),
        forall|i: int, j: int| 0 <= i < j < final(v)@.len() ==> final(v)@[i] <= final(v)@[j],
{
    v.sort();
}

/// The distinct labels of `v`, in ascending order.
pub fn sorted_unique_labels(v: Vec<String>) -> (r: Vec<String>)
    ensures
        strictly_sorted_labels(views(r@)),
        forall|x: Seq<char>| views(r@).contains(x) <==> views(v@).contains(x),
{
    let mut v = v;
    let ghost before = views(v@);
    sort_strings(&mut v);
    proof {
        assert forall|x: Seq<char>| views(v@).contains(x) <==> before.contains(x) by {
            vstd::seq_lib::to_multiset_contains(views(v@), x);
            vstd::seq_lib::to_multiset_contains(before, x);
        }
    }
    let mut r: Vec<String> = Vec::new();
    let mut k: usize = 0;
    while k < v.len()
        invariant
            k <= v.len(),
            sorted_labels(views(v@)),
            strictly_sorted_labels(views(r@)),
            k == 0 <==> r@.len() == 0,
            k > 0 ==> r@.last()@ == v@[k - 1]@,
            forall|x: Seq<char>|
                views(r@).contains(x) <==> views(v@.take(k as int)).contains(x),
        decreases v.len() - k,
    {
        let fresh = if r.len() == 0 {
            true
        } else {
            !(r[r.len() - 1] == v[k])
        };
        let ghost old_r = views(r@);
        let ghost cur = v@[k as int]@;
        proof {
            assert(views(v@.take(k as int + 1)) =~= views(v@.take(k as int)).push(cur));
            if fresh && k > 0 {
                let last = v@[k - 1]@;
                assert(views(v@)[k - 1] == last);
                assert(views(v@)[k as int] == cur);
                assert(!label_lt(cur, last));
                lemma_label_lt_total(last, cur);
                assert(old_r[old_r.len() - 1] == last);
                assert forall|i: int| 0 <= i < old_r.len() implies label_lt(old_r[i], cur) by {
                    if i < old_r.len() - 1 {
                        lemma_label_lt_transitive(old_r[i], last, cur);
                    }
                }
            }
        }
        if fresh {
            r.push(v[k].clone());
            proof {
                assert(views(r@) =~= old_r.push(cur));
            }
        }
        proof {
            assert forall|x: Seq<char>| views(r@).contains(x) <==> views(v@.take(k as int + 1)).contains(
                x,
            ) by {
                lemma_push_contains(views(v@.take(k as int)), cur, x);
                lemma_push_contains(old_r, cur, x);
                if !fresh {
                    assert(views(r@)[r@.len() - 1] == cur);
                }
            }
        }
        k = k + 1;
    }
    proof {
        assert(v@.take(k as int) =~= v@);
    }
    r
}

/// The distinct integers of `v`, in ascending order.
pub fn sorted_unique_ints(v: Vec<i64>) -> (r: Vec<i64>)
    ensures
        strictly_sorted_ints(r@),
        forall|x: i64| r@.contains(x) <==> v@.contains(x),
{
    let mut v = v;
    let ghost before = v@;
    sort_ints(&mut v);
    proof {
        assert forall|x: i64| v@.contains(x) <==> before.contains(x) by {
            vstd::seq_lib::to_multiset_contains(v@, x);
            vstd::seq_lib::to_multiset_contains(before, x);
        }
    }
    let mut r: Vec<i64> = Vec::new();
    let mut k: usize = 0;
    while k < v.len()
        invariant
            k <= v.len(),
            forall|i: int, j: int| 0 <= i < j < v@.len() ==> v@[i] <= v@[j],
            strictly_sorted_ints(r@),
            k == 0 <==> r@.len() == 0,
            k > 0 ==> r@.last() == v@[k - 1],
            forall|x: i64| r@.contains(x) <==> v@.take(k as int).contains(x),
        decreases v.len() - k,
    {
        proof {
            assert(v@.take(k as int + 1) =~= v@.take(k as int).push(v@[k as int]));
            assert forall|x: i64| v@.take(k as int + 1).contains(x) <==> (v@.take(k as int).contains(
                x,
            ) || x == v@[k as int]) by {
                lemma_push_contains(v@.take(k as int), v@[k as int], x);
            }
        }
        let ghost old_r = r@;
        let fresh = r.len() == 0 || r[r.len() - 1] != v[k];
        if fresh {
            r.push(v[k]);
        }
        proof {
            assert forall|x: i64| r@.contains(x) <==> v@.take(k as int + 1).contains(x) by {
                lemma_push_contains(v@.take(k as int), v@[k as int], x);
                lemma_push_contains(old_r, v@[k as int], x);
                if !fresh {
                    assert(r@[r@.len() - 1] == v@[k as int]);
                }
            }
        }
        k = k + 1;
    }
    proof {
        assert(v@.take(k as int) =~= v@);
    }
    r
}

/// Position of `x` in the strictly ascending `labels`, or `None` when it is
/// not there.
pub fn find_label(labels: &Vec<String>, x: &str) -> (r: Option<usize>)
    requires
        strictly_sorted_labels(views(labels@)),
    ensures
        match r {
            Some(i) => i < labels@.len() && labels@[i as int]@ == x@,
            None => !views(labels@).contains(x@),
        },
{
    let mut lo: usize = 0;
    let mut hi: usize = labels.len();
    while lo < hi
        invariant
            lo <= hi <= labels@.len(),
            strictly_sorted_labels(views(labels@)),
            forall|i: int| 0 <= i < lo ==> label_lt(labels@[i]@, x@),
            forall|i: int| hi <= i < labels@.len() ==> label_lt(x@, labels@[i]@),
        decreases hi - lo,
    {
        let mid = lo + (hi - lo) / 2;
        let c = compare_labels(labels[mid].as_str(), x);
        match c {
            Ordering::Equal => {
                return Some(mid);
            },
            Ordering::Less => {
                proof {
                    assert forall|i: int| 0 <= i <= mid implies label_lt(labels@[i]@, x@) by {
                        if i < mid {
                            assert(views(labels@)[i] == labels@[i]@);
                            assert(views(labels@)[mid as int] == labels@[mid as int]@);
                            lemma_label_lt_transitive(labels@[i]@, labels@[mid as int]@, x@);
                        }
                    }
                }
                lo = mid + 1;
            },
            Ordering::Greater => {
                proof {
                    assert forall|i: int| mid <= i < labels@.len() implies label_lt(x@, labels@[i]@) by {
                        if i > mid {
                            assert(views(labels@)[i] == labels@[i]@);
                            assert(views(labels@)[mid as int] == labels@[mid as int]@);
                            lemma_label_lt_transitive(x@, labels@[mid as int]@, labels@[i]@);
                        }
                    }
                }
                hi = mid;
            },
        }
    }
    proof {
        if views(labels@).contains(x@) {
            let i = choose|i: int| 0 <= i < labels@.len() && views(labels@)[i] == x@;
            lemma_label_lt_irreflexive(x@);
        }
    }
    None
}

/// Whether the two texts are equal.
pub fn same_text(a: &str, b: &str) -> (r: bool)
    ensures
        r == (a@ == b@),
{
    let n = a.unicode_len();
    if n != b.unicode_len() {
        return false;
    }
    let mut i: usize = 0;
    while i < n
        invariant
            n == a@.len(),
            n == b@.len(),
            i <= n,
            forall|k: int| 0 <= k < i ==> a@[k] == b@[k],
        decreases n - i,
    {
        if a.get_char(i) != b.get_char(i) {
            return false;
        }
        i = i + 1;
    }
    proof {
        assert(a@ =~= b@);
    }
    true
}

} // verus!
