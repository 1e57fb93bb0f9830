//! Matching the image files of two directories into an ordered sequence of pairs.
use crate::listing::{dir_names, file_names, string_views, DirScan, ImageDir, ImageFile};
use crate::names::{
    contains, contains_text, join, join_path, lemma_name_lt_asymmetric,
    lemma_name_lt_irreflexive, lemma_name_lt_total, lemma_name_lt_transitive, name_less, name_lt,
};
use crate::{Error, ErrorView};
use vstd::prelude::*;

verus! {

/// One file name matched between the left and the right directory.
#[derive(Debug)]
pub struct Pair {
    pub title: String,
    pub left: String,
    pub right: String,
}

/// What a `Pair` is.
pub struct PairView {
    pub title: Seq<char>,
    pub left: Seq<char>,
    pub right: Seq<char>,
}

impl View for Pair {
    type V = PairView;

    open spec fn view(&self) -> PairView {
        PairView { title: self.title@, left: self.left@, right: self.right@ }
    }
}

impl Pair {
    pub fn new(title: String, left: String, right: String) -> (r: Self)
        ensures
            r@ == (PairView { title: title@, left: left@, right: right@ }),
    {
        Pair { title, left, right }
    }
}

/// Every name comes strictly before every later one: sorted, without duplicates.
pub open spec fn strictly_sorted(q: Seq<Seq<char>>) -> bool {
    forall|i: int, j: int| 0 <= i < j < q.len() ==> name_lt(#[trigger] q[i], #[trigger] q[j])
}

/// The names of a finite set in increasing order.
pub open spec fn sorted_names(s: Set<Seq<char>>) -> Seq<Seq<char>> {
    choose|q: Seq<Seq<char>>| strictly_sorted(q) && q.to_set() == s
}

/// Whether a name passes the optional substring filter.
pub open spec fn passes(filter: Option<Seq<char>>, name: Seq<char>) -> bool {
    match filter {
        Some(f) => contains_text(name, f),
        None => true,
    }
}

/// The names that are listed on either side and pass the filter.
pub open spec fn matched_names(
    left: Seq<Seq<char>>,
    right: Seq<Seq<char>>,
    filter: Option<Seq<char>>,
) -> Set<Seq<char>> {
    Set::new(|n: Seq<char>| (left.contains(n) || right.contains(n)) && passes(filter, n))
}

/// The pair of a name: titled by it, with its path in each directory.
pub open spec fn pair_of(left_dir: Seq<char>, right_dir: Seq<char>, name: Seq<char>) -> PairView {
    PairView { title: name, left: join_path(left_dir, name), right: join_path(right_dir, name) }
}

/// The pairs of two directories: one for each matched name, in increasing order.
pub open spec fn pairs_spec(
    left_dir: Seq<char>,
    left: Seq<Seq<char>>,
    right_dir: Seq<char>,
    right: Seq<Seq<char>>,
    filter: Option<Seq<char>>,
) -> Seq<PairView> {
    pairs_of_names(left_dir, right_dir, sorted_names(matched_names(left, right, filter)))
}

/// The pairs of a sequence of names, in its order.
pub open spec fn pairs_of_names(
    left_dir: Seq<char>,
    right_dir: Seq<char>,
    names: Seq<Seq<char>>,
) -> Seq<PairView> {
    names.map_values(|n: Seq<char>| pair_of(left_dir, right_dir, n))
}

pub open spec fn pair_views(v: Seq<Pair>) -> Seq<PairView> {
    v.map_values(|p: Pair| p@)
}

pub open spec fn filter_view(filter: Option<&str>) -> Option<Seq<char>> {
    match filter {
        Some(f) => Some(f@),
        None => None,
    }
}

/// The hard error of scanning two directories, if any: a side that is not a
/// directory (the left one first), then a side that could not be listed.
pub open spec fn scan_error(left: &ImageDir, right: &ImageDir) -> Option<ErrorView> {
    if left.scan is NotDirectory {
        Some(ErrorView::NotDirectory(left.path@))
    } else if right.scan is NotDirectory {
        Some(ErrorView::NotDirectory(right.path@))
    } else if left.scan is Unreadable || right.scan is Unreadable {
        Some(ErrorView::IoError)
    } else {
        None
    }
}

/// Two strictly sorted sequences of the same names are equal.
pub proof fn lemma_sorted_unique(a: Seq<Seq<char>>, b: Seq<Seq<char>>)
    requires
        strictly_sorted(a),
        strictly_sorted(b),
        a.to_set() == b.to_set(),
    ensures
        a == b,
    decreases a.len(),
{
    if a.len() == 0 {
        if b.len() > 0 {
            assert(b.to_set().contains(b[0]));
        }
        assert(a =~= b);
    } else {
        assert(a.to_set().contains(a[0]));
        assert(b.len() > 0);
        assert(b.to_set().contains(b[0]));
        let k = choose|k: int| 0 <= k < b.len() && b[k] == a[0];
        let m = choose|m: int| 0 <= m < a.len() && a[m] == b[0];
        if k > 0 && m > 0 {
            assert(name_lt(b[0], b[k]));
            assert(name_lt(a[0], a[m]));
            lemma_name_lt_asymmetric(a[0], b[0]);
        }
        assert(a[0] == b[0]);
        let a1 = a.drop_first();
        let b1 = b.drop_first();
        assert(strictly_sorted(a1)) by {
            assert forall|i: int, j: int| 0 <= i < j < a1.len() implies name_lt(
                a1[i],
                a1[j],
            ) by {
                assert(a1[i] == a[i + 1] && a1[j] == a[j + 1]);
            }
        }
        assert(strictly_sorted(b1)) by {
            assert forall|i: int, j: int| 0 <= i < j < b1.len() implies name_lt(
                b1[i],
                b1[j],
            ) by {
                assert(b1[i] == b[i + 1] && b1[j] == b[j + 1]);
            }
        }
        assert(a1.to_set() =~= b1.to_set()) by {
            assert forall|x: Seq<char>| a1.to_set().contains(x) implies b1.to_set().contains(x) by {
                let i = choose|i: int| 0 <= i < a1.len() && a1[i] == x;
                assert(a.contains(x)) by {
                    assert(a[i + 1] == x);
                }
                assert(b.to_set().contains(x));
                let j = choose|j: int| 0 <= j < b.len() && b[j] == x;
                assert(name_lt(a[0], a[i + 1]));
                if j == 0 {
                    lemma_name_lt_irreflexive(x);
                }
                assert(b1[j - 1] == x);
            }
            assert forall|x: Seq<char>| b1.to_set().contains(x) implies a1.to_set().contains(x) by {
                let i = choose|i: int| 0 <= i < b1.len() && b1[i] == x;
                assert(b.contains(x)) by {
                    assert(b[i + 1] == x);
                }
                assert(a.to_set().contains(x));
                let j = choose|j: int| 0 <= j < a.len() && a[j] == x;
                assert(name_lt(b[0], b[i + 1]));
                if j == 0 {
                    lemma_name_lt_irreflexive(x);
                }
                assert(a1[j - 1] == x);
            }
        }
        lemma_sorted_unique(a1, b1);
        assert(a =~= seq![a[0]] + a1);
        assert(b =~= seq![b[0]] + b1);
    }
}

/// A strictly sorted sequence is the sorted sequence of its names.
pub proof fn lemma_is_sorted_names(q: Seq<Seq<char>>, s: Set<Seq<char>>)
    requires
        strictly_sorted(q),
        q.to_set() == s,
    ensures
        sorted_names(s) == q,
{
    let c = sorted_names(s);
    assert(strictly_sorted(c) && c.to_set() == s);
    lemma_sorted_unique(c, q);
}

/// `x` put at its place in the strictly sorted `q`, unless `q` holds it.
pub open spec fn insert_sorted(q: Seq<Seq<char>>, x: Seq<char>) -> Seq<Seq<char>>
    decreases q.len(),
{
    if q.len() == 0 {
        seq![x]
    } else if q[0] == x {
        q
    } else if name_lt(x, q[0]) {
        seq![x] + q
    } else {
        seq![q[0]] + insert_sorted(q.drop_first(), x)
    }
}

proof fn lemma_insert_sorted(q: Seq<Seq<char>>, x: Seq<char>)
    requires
        strictly_sorted(q),
    ensures
        strictly_sorted(insert_sorted(q, x)),
        insert_sorted(q, x).to_set() == q.to_set().insert(x),
    decreases q.len(),
{
    let r = insert_sorted(q, x);
    if q.len() == 0 {
        assert(r.to_set() =~= q.to_set().insert(x)) by {
            assert(r[0] == x);
        }
    } else if q[0] == x {
        assert(q.to_set() =~= q.to_set().insert(x)) by {
            assert(q.contains(x));
        }
    } else if name_lt(x, q[0]) {
        assert forall|i: int, j: int| 0 <= i < j < r.len() implies name_lt(
            #[trigger] r[i],
            #[trigger] r[j],
        ) by {
            if i == 0 {
                assert(r[j] == q[j - 1]);
                if j > 1 {
                    lemma_name_lt_transitive(x, q[0], q[j - 1]);
                }
            } else {
                assert(r[i] == q[i - 1] && r[j] == q[j - 1]);
            }
        }
        assert forall|y: Seq<char>| #[trigger] r.to_set().contains(y) <==> q.to_set().insert(
            x,
        ).contains(y) by {
            if r.contains(y) {
                let k = choose|k: int| 0 <= k < r.len() && #[trigger] r[k] == y;
                if k > 0 {
                    assert(q[k - 1] == y);
                }
            }
            if q.contains(y) {
                let k = choose|k: int| 0 <= k < q.len() && #[trigger] q[k] == y;
                assert(r[k + 1] == y);
            }
            if y == x {
                assert(r[0] == y);
            }
        }
        assert(r.to_set() =~= q.to_set().insert(x));
    } else {
        lemma_name_lt_total(x, q[0]);
        let t = q.drop_first();
        assert(strictly_sorted(t)) by {
            assert forall|i: int, j: int| 0 <= i < j < t.len() implies name_lt(
                #[trigger] t[i],
                #[trigger] t[j],
            ) by {
                assert(t[i] == q[i + 1] && t[j] == q[j + 1]);
            }
        }
        lemma_insert_sorted(t, x);
        let rest = insert_sorted(t, x);
        assert(r == seq![q[0]] + rest);
        assert forall|i: int, j: int| 0 <= i < j < r.len() implies name_lt(
            #[trigger] r[i],
            #[trigger] r[j],
        ) by {
            if i == 0 {
                assert(r[j] == rest[j - 1]);
                assert(rest.to_set().contains(rest[j - 1]));
                if rest[j - 1] != x {
                    assert(t.contains(rest[j - 1]));
                    let k = choose|k: int| 0 <= k < t.len() && #[trigger] t[k] == rest[j - 1];
                    assert(q[k + 1] == t[k]);
                }
            } else {
                assert(r[i] == rest[i - 1] && r[j] == rest[j - 1]);
            }
        }
        assert forall|y: Seq<char>| #[trigger] r.to_set().contains(y) <==> q.to_set().insert(
            x,
        ).contains(y) by {
            if r.contains(y) {
                let k = choose|k: int| 0 <= k < r.len() && #[trigger] r[k] == y;
                if k > 0 {
                    assert(rest[k - 1] == y);
                    assert(rest.to_set().contains(y));
                    if y != x {
                        let m = choose|m: int| 0 <= m < t.len() && #[trigger] t[m] == y;
                        assert(q[m + 1] == y);
                    }
                }
            }
            if q.contains(y) {
                let k = choose|k: int| 0 <= k < q.len() && #[trigger] q[k] == y;
                if k == 0 {
                    assert(r[0] == y);
                } else {
                    assert(t[k - 1] == y);
                    assert(rest.to_set().contains(y));
                    let m = choose|m: int| 0 <= m < rest.len() && #[trigger] rest[m] == y;
                    assert(r[m + 1] == y);
                }
            }
            if y == x {
                assert(rest.to_set().contains(y));
                let m = choose|m: int| 0 <= m < rest.len() && #[trigger] rest[m] == y;
                assert(r[m + 1] == y);
            }
        }
        assert(r.to_set() =~= q.to_set().insert(x));
    }
}

/// The names of `s` sorted one by one.
pub open spec fn sort_names(s: Seq<Seq<char>>) -> Seq<Seq<char>>
    decreases s.len(),
{
    if s.len() == 0 {
        Seq::empty()
    } else {
        insert_sorted(sort_names(s.drop_last()), s.last())
    }
}

/// Every finite collection of names, given as a sequence, has its sorted sequence.
pub proof fn lemma_sorted_names_of(s: Seq<Seq<char>>)
    ensures
        strictly_sorted(sorted_names(s.to_set())),
        sorted_names(s.to_set()).to_set() == s.to_set(),
    decreases s.len(),
{
    lemma_sort_names(s);
    lemma_is_sorted_names(sort_names(s), s.to_set());
}

proof fn lemma_sort_names(s: Seq<Seq<char>>)
    ensures
        strictly_sorted(sort_names(s)),
        sort_names(s).to_set() == s.to_set(),
    decreases s.len(),
{
    if s.len() == 0 {
        assert(sort_names(s).to_set() =~= s.to_set());
    } else {
        let init = s.drop_last();
        lemma_sort_names(init);
        lemma_insert_sorted(sort_names(init), s.last());
        assert forall|y: Seq<char>| #[trigger] s.to_set().contains(y) <==> init.to_set().insert(
            s.last(),
        ).contains(y) by {
            if s.contains(y) {
                let k = choose|k: int| 0 <= k < s.len() && #[trigger] s[k] == y;
                if k < s.len() - 1 {
                    assert(init[k] == y);
                }
            }
            if init.contains(y) {
                let k = choose|k: int| 0 <= k < init.len() && #[trigger] init[k] == y;
                assert(s[k] == y);
            }
        }
        assert(s.to_set() =~= init.to_set().insert(s.last()));
    }
}

/// Pairing depends only on which names the directories hold, not on the order
/// in which they are listed; and a name held on both sides gives exactly one
/// pair.
pub proof fn lemma_pairing_order_independent(
    left_dir: Seq<char>,
    right_dir: Seq<char>,
    left1: Seq<Seq<char>>,
    right1: Seq<Seq<char>>,
    left2: Seq<Seq<char>>,
    right2: Seq<Seq<char>>,
    filter: Option<Seq<char>>,
)
    requires
        left1.to_set() == left2.to_set(),
        right1.to_set() == right2.to_set(),
    ensures
        pairs_spec(left_dir, left1, right_dir, right1, filter) == pairs_spec(
            left_dir,
            left2,
            right_dir,
            right2,
            filter,
        ),
        forall|n: Seq<char>|
            left1.contains(n) && right1.contains(n) && passes(filter, n) ==> {
                let ps = pairs_spec(left_dir, left1, right_dir, right1, filter);
                &&& exists|i: int| 0 <= i < ps.len() && #[trigger] ps[i].title == n
                &&& forall|i: int, j: int|
                    0 <= i < ps.len() && 0 <= j < ps.len() && #[trigger] ps[i].title == n
                        && #[trigger] ps[j].title == n ==> i == j
            },
{
    assert forall|n: Seq<char>| #[trigger] left1.contains(n) <==> left2.contains(n) by {
        assert(left1.to_set().contains(n) == left1.contains(n));
        assert(left2.to_set().contains(n) == left2.contains(n));
    }
    assert forall|n: Seq<char>| #[trigger] right1.contains(n) <==> right2.contains(n) by {
        assert(right1.to_set().contains(n) == right1.contains(n));
        assert(right2.to_set().contains(n) == right2.contains(n));
    }
    assert(matched_names(left1, right1, filter) =~= matched_names(left2, right2, filter));
    lemma_pairs_spec_names(left_dir, left1, right_dir, right1, filter);
    let ps = pairs_spec(left_dir, left1, right_dir, right1, filter);
    let names = sorted_names(matched_names(left1, right1, filter));
    assert forall|n: Seq<char>|
        left1.contains(n) && right1.contains(n) && passes(filter, n) implies {
        &&& exists|i: int| 0 <= i < ps.len() && #[trigger] ps[i].title == n
        &&& forall|i: int, j: int|
            0 <= i < ps.len() && 0 <= j < ps.len() && #[trigger] ps[i].title == n
                && #[trigger] ps[j].title == n ==> i == j
    } by {
        assert(matched_names(left1, right1, filter).contains(n));
        assert(names.to_set().contains(n));
        let k = choose|k: int| 0 <= k < names.len() && #[trigger] names[k] == n;
        assert(ps[k].title == n);
        assert forall|i: int, j: int|
            0 <= i < ps.len() && 0 <= j < ps.len() && #[trigger] ps[i].title == n
                && #[trigger] ps[j].title == n implies i == j by {
            if i < j {
                assert(name_lt(names[i], names[j]));
                lemma_name_lt_irreflexive(n);
            } else if j < i {
                assert(name_lt(names[j], names[i]));
                lemma_name_lt_irreflexive(n);
            }
        }
    }
}

/// The names of the pairs of two directories are sorted and are exactly the
/// matched names.
pub proof fn lemma_pairs_spec_names(
    left_dir: Seq<char>,
    left: Seq<Seq<char>>,
    right_dir: Seq<char>,
    right: Seq<Seq<char>>,
    filter: Option<Seq<char>>,
)
    ensures
        strictly_sorted(sorted_names(matched_names(left, right, filter))),
        sorted_names(matched_names(left, right, filter)).to_set() == matched_names(
            left,
            right,
            filter,
        ),
{
    let all = (left + right).filter(|n: Seq<char>| passes(filter, n));
    assert forall|n: Seq<char>| #[trigger] all.to_set().contains(n) <==> matched_names(
        left,
        right,
        filter,
    ).contains(n) by {
        let both = left + right;
        let pred = |n: Seq<char>| passes(filter, n);
        if all.contains(n) {
            let k = choose|k: int| 0 <= k < all.len() && #[trigger] all[k] == n;
            both.lemma_filter_pred(pred, k);
            both.lemma_filter_contains_rev(pred, n);
            let m = choose|m: int| 0 <= m < both.len() && #[trigger] both[m] == n;
            if m < left.len() {
                assert(left[m] == n);
            } else {
                assert(right[m - left.len()] == n);
            }
        }
        if matched_names(left, right, filter).contains(n) {
            if left.contains(n) {
                let m = choose|m: int| 0 <= m < left.len() && #[trigger] left[m] == n;
                assert(both[m] == n);
                both.lemma_filter_contains(pred, m);
            } else {
                let m = choose|m: int| 0 <= m < right.len() && #[trigger] right[m] == n;
                assert(both[left.len() + m] == n);
                both.lemma_filter_contains(pred, left.len() + m);
            }
        }
    }
    assert(all.to_set() =~= matched_names(left, right, filter));
    lemma_sorted_names_of(all);
}

/// A pair is made for a name if and only if one of the directories holds it
/// and it contains the filter text; without a filter, or with an empty one,
/// every name held on either side gets a pair.
pub proof fn lemma_filter_selects(
    left_dir: Seq<char>,
    left: Seq<Seq<char>>,
    right_dir: Seq<char>,
    right: Seq<Seq<char>>,
    filter: Option<Seq<char>>,
    n: Seq<char>,
)
    ensures
        ({
            let ps = pairs_spec(left_dir, left, right_dir, right, filter);
            exists|i: int| 0 <= i < ps.len() && #[trigger] ps[i].title == n
        }) <==> ((left.contains(n) || right.contains(n)) && (filter is None || contains_text(
            n,
            filter->Some_0,
        ))),
        filter is None || filter == Some(Seq::<char>::empty()) ==> passes(filter, n),
{
    lemma_pairs_spec_names(left_dir, left, right_dir, right, filter);
    let ps = pairs_spec(left_dir, left, right_dir, right, filter);
    let names = sorted_names(matched_names(left, right, filter));
    if exists|i: int| 0 <= i < ps.len() && #[trigger] ps[i].title == n {
        let i = choose|i: int| 0 <= i < ps.len() && #[trigger] ps[i].title == n;
        assert(names[i] == n);
        assert(names.to_set().contains(n));
    }
    if (left.contains(n) || right.contains(n)) && passes(filter, n) {
        assert(names.to_set().contains(n));
        let k = choose|k: int| 0 <= k < names.len() && #[trigger] names[k] == n;
        assert(ps[k].title == n);
    }
    if filter == Some(Seq::<char>::empty()) {
        let f = filter->Some_0;
        assert(n.subrange(0int, 0int + f.len()) =~= f);
    }
}

/// Inserts `name` at its place in the strictly sorted `out`, unless it is there.
pub(crate) fn insert_name(out: &mut Vec<String>, name: String)
    requires
        strictly_sorted(string_views(old(out)@)),
    ensures
        strictly_sorted(string_views(final(out)@)),
        string_views(final(out)@).to_set() == string_views(old(out)@).to_set().insert(name@),
{
    let ghost q = string_views(out@);
    let mut i: usize = 0;
    while i < out.len() && name_less(out[i].as_str(), name.as_str())
        invariant
            out@ == old(out)@,
            q == string_views(out@),
            i <= out.len(),
            forall|k: int| 0 <= k < i ==> name_lt(#[trigger] q[k], name@),
        decreases out.len() - i,
    {
        i = i + 1;
    }
    if i < out.len() && out[i] == name {
        assert(q.to_set() =~= q.to_set().insert(name@)) by {
            assert(q[i as int] == name@);
        }
        return;
    }
    proof {
        if i < out.len() {
            assert(q[i as int] != name@);
            lemma_name_lt_total(q[i as int], name@);
        }
    }
    out.insert(i, name);
    proof {
        let q2 = string_views(out@);
        assert(q2 =~= q.insert(i as int, name@));
        assert forall|a: int, b: int| 0 <= a < b < q2.len() implies name_lt(
            #[trigger] q2[a],
            #[trigger] q2[b],
        ) by {
            if b < i {
            } else if b == i {
                assert(q2[a] == q[a]);
            } else if a < i {
                assert(q2[b] == q[b - 1]);
                assert(q2[a] == q[a]);
                lemma_name_lt_transitive(q[a], name@, q[i as int]);
                if b - 1 > i {
                    lemma_name_lt_transitive(q[a], q[i as int], q[b - 1]);
                }
            } else if a == i {
                assert(q2[b] == q[b - 1]);
                if b - 1 > i {
                    lemma_name_lt_transitive(name@, q[i as int], q[b - 1]);
                }
            } else {
                assert(q2[a] == q[a - 1] && q2[b] == q[b - 1]);
            }
        }
        assert forall|x: Seq<char>| #[trigger] q2.to_set().contains(x) <==> q.to_set().insert(
            name@,
        ).contains(x) by {
            if q.contains(x) {
                let j = choose|j: int| 0 <= j < q.len() && q[j] == x;
                if j < i {
                    assert(q2[j] == x);
                } else {
                    assert(q2[j + 1] == x);
                }
            }
            if x == name@ {
                assert(q2[i as int] == x);
            }
            if q2.contains(x) {
                let j = choose|j: int| 0 <= j < q2.len() && q2[j] == x;
                if j < i {
                    assert(q[j] == x);
                } else if j > i {
                    assert(q[j - 1] == x);
                }
            }
        }
        assert(q2.to_set() =~= q.to_set().insert(name@));
    }
}


/// The names of `names` that pass the filter.
pub open spec fn passing(names: Seq<Seq<char>>, filter: Option<Seq<char>>) -> Set<Seq<char>> {
    Set::new(|n: Seq<char>| names.contains(n) && passes(filter, n))
}

proof fn lemma_passing_push(names: Seq<Seq<char>>, x: Seq<char>, filter: Option<Seq<char>>)
    ensures
        passing(names.push(x), filter) == if passes(filter, x) {
            passing(names, filter).insert(x)
        } else {
            passing(names, filter)
        },
{
    let p = names.push(x);
    assert forall|n: Seq<char>| p.contains(n) <==> (names.contains(n) || n == x) by {
        if p.contains(n) {
            let k = choose|k: int| 0 <= k < p.len() && #[trigger] p[k] == n;
            if k < names.len() {
                assert(names[k] == n);
            }
        }
        if names.contains(n) {
            let k = choose|k: int| 0 <= k < names.len() && #[trigger] names[k] == n;
            assert(p[k] == n);
        }
        if n == x {
            assert(p[names.len() as int] == n);
        }
    }
    if passes(filter, x) {
        assert(passing(p, filter) =~= passing(names, filter).insert(x));
    } else {
        assert(passing(p, filter) =~= passing(names, filter));
    }
}

/// Whether `name` passes the optional substring filter.
fn name_passes(name: &str, filter: Option<&str>) -> (r: bool)
    ensures
        r == passes(filter_view(filter), name@),
{
    match filter {
        Some(f) => contains(name, f),
        None => true,
    }
}

/// Adds to the strictly sorted `out` the names of `files` that pass the filter.
fn add_names(out: &mut Vec<String>, files: &Vec<ImageFile>, filter: Option<&str>)
    requires
        strictly_sorted(string_views(old(out)@)),
    ensures
        strictly_sorted(string_views(final(out)@)),
        string_views(final(out)@).to_set() == string_views(old(out)@).to_set().union(
            passing(file_names(files@), filter_view(filter)),
        ),
{
    let ghost start = string_views(out@).to_set();
    let ghost names = file_names(files@);
    let mut i: usize = 0;
    while i < files.len()
        invariant
            i <= files.len(),
            names == file_names(files@),
            strictly_sorted(string_views(out@)),
            string_views(out@).to_set() == start.union(
                passing(names.take(i as int), filter_view(filter)),
            ),
        decreases files.len() - i,
    {
        let ghost before = string_views(out@).to_set();
        assert(names.take(i + 1) =~= names.take(i as int).push(files@[i as int].name@));
        proof {
            lemma_passing_push(names.take(i as int), files@[i as int].name@, filter_view(filter));
        }
        if name_passes(files[i].name.as_str(), filter) {
            insert_name(out, files[i].name.clone());
        }
        assert(string_views(out@).to_set() =~= start.union(
            passing(names.take(i + 1), filter_view(filter)),
        ));
        i = i + 1;
    }
    assert(names.take(files.len() as int) =~= names);
}

/// Pairs the image files of two scanned directories by name: one pair for each
/// name found on either side that contains the filter text (when there is
/// one), in increasing order of names, each titled by its name and holding
/// its path in each directory. A directory that does not exist or could not be
/// listed is a hard error.
pub fn pairs_from_paths(left: &ImageDir, right: &ImageDir, filter_name: Option<&str>) -> (r: Result<
    Vec<Pair>,
    Error,
>)
    ensures
        scan_error(left, right).is_some() ==> r is Err && r->Err_0@ == scan_error(left, right).unwrap(),
        scan_error(left, right).is_none() ==> r is Ok && pair_views(r->Ok_0@) == pairs_spec(
            left.path@,
            dir_names(left),
            right.path@,
            dir_names(right),
            filter_view(filter_name),
        ),
{
    let (left_files, right_files) = match (&left.scan, &right.scan) {
        (DirScan::Files(l), DirScan::Files(r)) => (l, r),
        (DirScan::NotDirectory, _) => {
            return Err(Error::NotDirectory(left.path.clone()));
        },
        (_, DirScan::NotDirectory) => {
            return Err(Error::NotDirectory(right.path.clone()));
        },
        _ => {
            return Err(Error::IoError);
        },
    };
    let mut names: Vec<String> = Vec::new();
    add_names(&mut names, left_files, filter_name);
    add_names(&mut names, right_files, filter_name);
    let ghost filter = filter_view(filter_name);
    let ghost set = matched_names(dir_names(left), dir_names(right), filter);
    proof {
        assert(string_views(names@).to_set() =~= set);
        lemma_is_sorted_names(string_views(names@), set);
    }
    let ghost sorted = string_views(names@);
    let mut pairs: Vec<Pair> = Vec::new();
    let mut i: usize = 0;
    while i < names.len()
        invariant
            i <= names.len(),
            sorted == string_views(names@),
            pair_views(pairs@) == pairs_of_names(left.path@, right.path@, sorted.take(i as int)),
        decreases names.len() - i,
    {
        let pair = Pair::new(
            names[i].clone(),
            join(left.path.as_str(), names[i].as_str()),
            join(right.path.as_str(), names[i].as_str()),
        );
        assert(pair@ == pair_of(left.path@, right.path@, sorted[i as int]));
        let ghost before = pairs@;
        pairs.push(pair);
        assert(pair_views(pairs@) =~= pair_views(before).push(pair@));
        assert(sorted.take(i + 1) =~= sorted.take(i as int).push(sorted[i as int]));
        assert(pairs_of_names(left.path@, right.path@, sorted.take(i + 1)) =~= pairs_of_names(
            left.path@,
            right.path@,
            sorted.take(i as int),
        ).push(pair_of(left.path@, right.path@, sorted[i as int])));
        assert(pair_views(pairs@) =~= pairs_of_names(left.path@, right.path@, sorted.take(i + 1)));
        i = i + 1;
    }
    assert(sorted.take(names.len() as int) =~= sorted);
    Ok(pairs)
}

} // verus!
