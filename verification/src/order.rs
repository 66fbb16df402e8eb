//! Lists of strings: sorting, searching and copying.

use crate::text::{lemma_text_order, less, not_after, same, starts_with, texts, Text};
use vstd::hash_set::StringHashSet;
use vstd::prelude::*;
use vstd::relations::{sorted_by, total_ordering};

verus! {

/// Values that are put in order by what they hold.
pub trait Ordered: View + Sized {
    /// `a` does not come after `b`.
    spec fn leq(a: Self::V, b: Self::V) -> bool;

    proof fn lemma_total()
        ensures
            total_ordering(|a: Self::V, b: Self::V| Self::leq(a, b)),
    ;

    /// Whether `self` comes after `other`.
    fn after(&self, other: &Self) -> (r: bool)
        ensures
            r == !Self::leq(self@, other@),
    ;
}

impl Ordered for String {
    open spec fn leq(a: Text, b: Text) -> bool {
        not_after(a, b)
    }

    proof fn lemma_total() {
        lemma_text_order();
        assert((|a: Text, b: Text| not_after(a, b)) =~= (|a: Text, b: Text|
            <String as Ordered>::leq(a, b)));
    }

    fn after(&self, other: &Self) -> bool {
        less(other.as_str(), self.as_str())
    }
}

impl Ordered for (String, String) {
    open spec fn leq(a: (Text, Text), b: (Text, Text)) -> bool {
        if a.0 == b.0 {
            not_after(a.1, b.1)
        } else {
            not_after(a.0, b.0)
        }
    }

    proof fn lemma_total() {
        lemma_text_order();
        let t = |a: Text, b: Text| not_after(a, b);
        let p = |a: (Text, Text), b: (Text, Text)| <(String, String) as Ordered>::leq(a, b);
        assert forall|a: (Text, Text)| #[trigger] p(a, a) by {
            assert(t(a.1, a.1));
        }
        assert forall|a: (Text, Text), b: (Text, Text)| #[trigger] p(a, b) && #[trigger] p(b, a)
            implies a == b by {
            assert(t(a.0, b.0) || a.0 == b.0);
            assert(t(b.0, a.0) || a.0 == b.0);
            assert(a.0 == b.0 ==> t(a.1, b.1) && t(b.1, a.1));
        }
        assert forall|a: (Text, Text), b: (Text, Text)| #[trigger] p(a, b) || #[trigger] p(b, a) by {
            assert(t(a.0, b.0) || t(b.0, a.0));
            assert(t(a.1, b.1) || t(b.1, a.1));
        }
        assert forall|a: (Text, Text), b: (Text, Text), c: (Text, Text)| #[trigger]
            p(a, b) && #[trigger] p(b, c) implies p(a, c) by {
            assert(t(a.0, b.0) || a.0 == b.0);
            assert(t(b.0, c.0) || b.0 == c.0);
            if a.0 == c.0 {
                if a.0 == b.0 {
                    assert(t(a.1, b.1) && t(b.1, c.1));
                    assert(t(a.1, c.1));
                } else {
                    assert(t(b.0, a.0));
                }
            } else if a.0 != b.0 && b.0 != c.0 {
                assert(t(a.0, c.0));
            }
        }
    }

    fn after(&self, other: &Self) -> bool {
        if same(self.0.as_str(), other.0.as_str()) {
            less(other.1.as_str(), self.1.as_str())
        } else {
            less(other.0.as_str(), self.0.as_str())
        }
    }
}

/// What each value of a list holds.
pub open spec fn views<T: View>(v: Seq<T>) -> Seq<T::V> {
    v.map_values(|x: T| x@)
}

/// The same values, in order.
pub open spec fn sorted<T: Ordered>(v: Seq<T::V>) -> Seq<T::V> {
    v.sort_by(|a: T::V, b: T::V| T::leq(a, b))
}

/// Puts `x` behind the values of `r` that do not come after it.
fn insert_sorted<T: Ordered>(r: &mut Vec<T>, x: T)
    requires
        sorted_by(views(old(r)@), |a: T::V, b: T::V| T::leq(a, b)),
    ensures
        sorted_by(views(final(r)@), |a: T::V, b: T::V| T::leq(a, b)),
        views(final(r)@).to_multiset() == views(old(r)@).to_multiset().insert(x@),
{
    let ghost leq = |a: T::V, b: T::V| T::leq(a, b);
    let ghost was = views(r@);
    proof {
        T::lemma_total();
    }
    let mut i: usize = r.len();
    while i > 0 && r[i - 1].after(&x)
        invariant
            i <= r.len(),
            was == views(r@),
            leq == (|a: T::V, b: T::V| T::leq(a, b)),
            forall|j: int| i <= j < r.len() ==> !leq(#[trigger] was[j], x@),
        decreases i,
    {
        assert(was[i - 1] == r@[i - 1]@);
        i = i - 1;
    }
    proof {
        assert(leq == (|a: T::V, b: T::V| T::leq(a, b)));
        if i > 0 {
            assert(was[i - 1] == r@[i - 1]@);
            assert(leq(was[i - 1], x@));
        }
        was.to_multiset_ensures();
        assert forall|j: int| i <= j < was.len() implies leq(x@, #[trigger] was[j]) by {
            assert(leq(x@, was[j]) || leq(was[j], x@));
        }
        assert forall|j: int| 0 <= j < i implies leq(#[trigger] was[j], x@) by {
            if j < i - 1 {
                assert(leq(was[j], was[i - 1]));
            }
        }
    }
    r.insert(i, x);
    proof {
        let now = views(r@);
        assert(now =~= was.insert(i as int, x@));
        vstd::seq_lib::to_multiset_insert(was, i as int, x@);
        assert forall|a: int, b: int| 0 <= a < b < now.len() implies #[trigger] leq(
            now[a],
            now[b],
        ) by {
            let p = if a < i {
                a
            } else {
                a - 1
            };
            let q = if b < i {
                b
            } else {
                b - 1
            };
            if a == i {
                assert(now[b] == was[q]);
            } else if b == i {
                assert(now[a] == was[p]);
            } else {
                assert(now[a] == was[p] && now[b] == was[q]);
                assert(leq(was[p], was[q]));
            }
        }
    }
}

/// Computes `sorted`.
pub fn sort<T: Ordered>(v: Vec<T>) -> (r: Vec<T>)
    ensures
        views(r@) == sorted::<T>(views(v@)),
{
    let ghost all = views(v@);
    let ghost leq = |a: T::V, b: T::V| T::leq(a, b);
    let mut r: Vec<T> = Vec::new();
    let mut rest = v;
    proof {
        all.to_multiset_ensures();
        views(r@).to_multiset_ensures();
        assert(views(r@) =~= Seq::<T::V>::empty());
        assert(views(r@).to_multiset() =~= vstd::multiset::Multiset::<T::V>::empty());
        assert(views(r@).to_multiset().add(views(rest@).to_multiset()) =~= all.to_multiset());
    }
    while rest.len() > 0
        invariant
            sorted_by(views(r@), |a: T::V, b: T::V| T::leq(a, b)),
            views(r@).to_multiset().add(views(rest@).to_multiset()) == all.to_multiset(),
        decreases rest.len(),
    {
        let ghost r0 = views(r@);
        let ghost rest0 = views(rest@);
        let x = rest.pop().unwrap();
        insert_sorted(&mut r, x);
        proof {
            assert(views(rest@) =~= rest0.drop_last());
            assert(rest0 =~= rest0.drop_last().push(x@));
            rest0.drop_last().to_multiset_ensures();
            assert(rest0.to_multiset() =~= rest0.drop_last().to_multiset().insert(x@));
            assert(views(r@).to_multiset().add(views(rest@).to_multiset()) =~= all.to_multiset());
        }
    }
    proof {
        assert(views(rest@) =~= Seq::<T::V>::empty());
        views(rest@).to_multiset_ensures();
        assert(views(rest@).to_multiset() =~= vstd::multiset::Multiset::<T::V>::empty());
        assert(views(r@).to_multiset() =~= all.to_multiset());
        T::lemma_total();
        all.lemma_sort_by_ensures(leq);
        vstd::seq_lib::lemma_sorted_unique(views(r@), all.sort_by(leq), leq);
    }
    r
}

/// Sorting keeps which values there are, and how often each occurs.
pub proof fn lemma_sorted<T: Ordered>(v: Seq<T::V>)
    ensures
        sorted_by(sorted::<T>(v), |a: T::V, b: T::V| T::leq(a, b)),
        sorted::<T>(v).to_multiset() == v.to_multiset(),
        sorted::<T>(v).len() == v.len(),
        forall|x: T::V| #[trigger] sorted::<T>(v).contains(x) <==> v.contains(x),
{
    T::lemma_total();
    v.lemma_sort_by_ensures(|a: T::V, b: T::V| T::leq(a, b));
    v.to_multiset_ensures();
    sorted::<T>(v).to_multiset_ensures();
    assert forall|x: T::V| #[trigger] sorted::<T>(v).contains(x) == v.contains(x) by {
        assert(v.to_multiset().contains(x) == v.contains(x));
        assert(sorted::<T>(v).to_multiset().contains(x) == sorted::<T>(v).contains(x));
    }
}

/// The texts in order.
pub open spec fn in_order(v: Seq<Text>) -> Seq<Text> {
    sorted::<String>(v)
}

/// Sorts strings.
pub fn sort_strings(v: Vec<String>) -> (r: Vec<String>)
    ensures
        texts(r@) == in_order(texts(v@)),
{
    let r = sort(v);
    assert(texts(v@) =~= views(v@));
    assert(texts(r@) =~= views(r@));
    r
}

/// Whether a list holds a text.
pub fn contains(v: &Vec<String>, s: &str) -> (r: bool)
    ensures
        r == texts(v@).contains(s@),
{
    let mut i: usize = 0;
    while i < v.len()
        invariant
            i <= v.len(),
            forall|j: int| 0 <= j < i ==> (#[trigger] v@[j])@ != s@,
        decreases v.len() - i,
    {
        if same(v[i].as_str(), s) {
            assert(texts(v@)[i as int] == s@);
            return true;
        }
        i = i + 1;
    }
    assert(!texts(v@).contains(s@)) by {
        if texts(v@).contains(s@) {
            let j = texts(v@).index_of(s@);
            assert(v@[j]@ == s@);
        }
    }
    false
}

/// Where a list first holds a text.
pub fn position(v: &Vec<String>, s: &str) -> (r: Option<usize>)
    ensures
        match r {
            Some(i) => i < v.len() && v@[i as int]@ == s@ && forall|j: int|
                0 <= j < i ==> (#[trigger] v@[j])@ != s@,
            None => !texts(v@).contains(s@),
        },
{
    let mut i: usize = 0;
    while i < v.len()
        invariant
            i <= v.len(),
            forall|j: int| 0 <= j < i ==> (#[trigger] v@[j])@ != s@,
        decreases v.len() - i,
    {
        if same(v[i].as_str(), s) {
            return Some(i);
        }
        i = i + 1;
    }
    assert(!texts(v@).contains(s@)) by {
        if texts(v@).contains(s@) {
            let j = texts(v@).index_of(s@);
            assert(v@[j]@ == s@);
        }
    }
    None
}

/// Where a list first holds a text.
pub fn first_place(v: &Vec<String>, s: &str) -> (r: Option<usize>)
    ensures
        match r {
            Some(i) => i < v.len() && texts(v@).index_of_first(s@) == Some(i as int),
            None => texts(v@).index_of_first(s@) is None,
        },
{
    let r = position(v, s);
    proof {
        let all = texts(v@);
        all.index_of_first_ensures(s@);
        match r {
            Some(i) => {
                assert(all[i as int] == s@);
                let k = all.index_of_first(s@)->0;
                if k < i {
                    assert(v@[k]@ != s@);
                }
                if i < k {
                    assert(all[i as int] != s@);
                }
            },
            None => {},
        }
    }
    r
}

/// A copy of a list of strings.
pub fn copy(v: &Vec<String>) -> (r: Vec<String>)
    ensures
        texts(r@) == texts(v@),
{
    let mut r: Vec<String> = Vec::new();
    let mut i: usize = 0;
    while i < v.len()
        invariant
            i <= v.len(),
            r.len() == i,
            forall|j: int| 0 <= j < i ==> (#[trigger] r@[j])@ == v@[j]@,
        decreases v.len() - i,
    {
        r.push(v[i].clone());
        i = i + 1;
    }
    assert(texts(r@) =~= texts(v@));
    r
}

/// Whether two lists hold the same texts in the same order.
pub fn equal(a: &Vec<String>, b: &Vec<String>) -> (r: bool)
    ensures
        r == (texts(a@) == texts(b@)),
{
    if a.len() != b.len() {
        assert(texts(a@).len() != texts(b@).len());
        return false;
    }
    let mut i: usize = 0;
    while i < a.len()
        invariant
            i <= a.len(),
            a.len() == b.len(),
            forall|j: int| 0 <= j < i ==> (#[trigger] a@[j])@ == b@[j]@,
        decreases a.len() - i,
    {
        if !same(a[i].as_str(), b[i].as_str()) {
            assert(texts(a@)[i as int] != texts(b@)[i as int]);
            return false;
        }
        i = i + 1;
    }
    assert(texts(a@) =~= texts(b@));
    true
}

/// The texts that are not in `gone`.
pub open spec fn without_all(v: Seq<Text>, gone: Set<Text>) -> Seq<Text> {
    v.filter(|x: Text| !gone.contains(x))
}

/// The texts that are in `kept`.
pub open spec fn only(v: Seq<Text>, kept: Set<Text>) -> Seq<Text> {
    v.filter(|x: Text| kept.contains(x))
}

/// The texts that start with `prefix`.
pub open spec fn starting_with(v: Seq<Text>, prefix: Text) -> Seq<Text> {
    v.filter(|x: Text| prefix.is_prefix_of(x))
}

/// Filtering a list that is one element longer.
pub proof fn lemma_filter_step<T>(v: Seq<T>, i: int, p: spec_fn(T) -> bool)
    requires
        0 <= i < v.len(),
    ensures
        v.take(i + 1).filter(p) == if p(v[i]) {
            v.take(i).filter(p).push(v[i])
        } else {
            v.take(i).filter(p)
        },
{
    reveal(Seq::filter);
    assert(v.take(i + 1).drop_last() =~= v.take(i));
}

/// Computes `without_all`.
pub(crate) fn remove_all(v: &Vec<String>, gone: &StringHashSet) -> (r: Vec<String>)
    ensures
        texts(r@) == without_all(texts(v@), gone@),
{
    let ghost p = |x: Text| !gone@.contains(x);
    let ghost all = texts(v@);
    let mut r: Vec<String> = Vec::new();
    let mut i: usize = 0;
    proof {
        reveal(Seq::filter);
        assert(all.take(0).filter(p) =~= texts(r@));
    }
    while i < v.len()
        invariant
            i <= v.len(),
            all == texts(v@),
            p == (|x: Text| !gone@.contains(x)),
            texts(r@) == all.take(i as int).filter(p),
        decreases v.len() - i,
    {
        proof {
            lemma_filter_step(all, i as int, p);
        }
        let ghost was = texts(r@);
        if !gone.contains(v[i].as_str()) {
            r.push(v[i].clone());
            assert(texts(r@) =~= was.push(all[i as int]));
        }
        i = i + 1;
    }
    assert(all.take(all.len() as int) =~= all);
    r
}

/// Computes `only`.
pub(crate) fn keep_only(v: &Vec<String>, kept: &StringHashSet) -> (r: Vec<String>)
    ensures
        texts(r@) == only(texts(v@), kept@),
{
    let ghost p = |x: Text| kept@.contains(x);
    let ghost all = texts(v@);
    let mut r: Vec<String> = Vec::new();
    let mut i: usize = 0;
    proof {
        reveal(Seq::filter);
        assert(all.take(0).filter(p) =~= texts(r@));
    }
    while i < v.len()
        invariant
            i <= v.len(),
            all == texts(v@),
            p == (|x: Text| kept@.contains(x)),
            texts(r@) == all.take(i as int).filter(p),
        decreases v.len() - i,
    {
        proof {
            lemma_filter_step(all, i as int, p);
        }
        let ghost was = texts(r@);
        if kept.contains(v[i].as_str()) {
            r.push(v[i].clone());
            assert(texts(r@) =~= was.push(all[i as int]));
        }
        i = i + 1;
    }
    assert(all.take(all.len() as int) =~= all);
    r
}

/// Computes `starting_with`.
pub fn keep_prefixed(v: &Vec<String>, prefix: &str) -> (r: Vec<String>)
    ensures
        texts(r@) == starting_with(texts(v@), prefix@),
{
    let ghost p = |x: Text| prefix@.is_prefix_of(x);
    let ghost all = texts(v@);
    let mut r: Vec<String> = Vec::new();
    let mut i: usize = 0;
    proof {
        reveal(Seq::filter);
        assert(all.take(0).filter(p) =~= texts(r@));
    }
    while i < v.len()
        invariant
            i <= v.len(),
            all == texts(v@),
            p == (|x: Text| prefix@.is_prefix_of(x)),
            texts(r@) == all.take(i as int).filter(p),
        decreases v.len() - i,
    {
        proof {
            lemma_filter_step(all, i as int, p);
        }
        let ghost was = texts(r@);
        if starts_with(v[i].as_str(), prefix) {
            r.push(v[i].clone());
            assert(texts(r@) =~= was.push(all[i as int]));
        }
        i = i + 1;
    }
    assert(all.take(all.len() as int) =~= all);
    r
}

/// The first text of a set in the order of texts.
pub open spec fn least(s: Set<Text>) -> Text {
    choose|x: Text| s.contains(x) && forall|y: Text| #[trigger] s.contains(y) ==> not_after(x, y)
}

/// A text that no text of the set comes before is the least.
pub proof fn lemma_least(s: Set<Text>, x: Text)
    requires
        s.contains(x),
        forall|y: Text| #[trigger] s.contains(y) ==> not_after(x, y),
    ensures
        least(s) == x,
{
    lemma_text_order();
    let leq = |a: Text, b: Text| not_after(a, b);
    let l = least(s);
    assert(s.contains(l) && not_after(x, l) && not_after(l, x));
    assert(leq(x, l) && leq(l, x));
}

/// The least of a list of strings.
pub fn smallest(v: &Vec<String>) -> (r: String)
    requires
        v.len() > 0,
    ensures
        r@ == least(texts(v@).to_set()),
        texts(v@).contains(r@),
{
    let ghost all = texts(v@);
    proof {
        lemma_text_order();
    }
    let ghost leq = |a: Text, b: Text| not_after(a, b);
    let mut best: usize = 0;
    let mut i: usize = 1;
    assert(leq(all[0], all[0]));
    while i < v.len()
        invariant
            best < i <= v.len(),
            all == texts(v@),
            leq == (|a: Text, b: Text| not_after(a, b)),
            total_ordering(leq),
            forall|j: int| 0 <= j < i ==> leq(all[best as int], #[trigger] all[j]),
        decreases v.len() - i,
    {
        if less(v[i].as_str(), v[best].as_str()) {
            proof {
                let now = all[i as int];
                let was = all[best as int];
                assert(!leq(was, now));
                assert(leq(now, was));
                assert forall|j: int| 0 <= j < i + 1 implies leq(now, #[trigger] all[j]) by {
                    if j < i {
                        assert(leq(was, all[j]));
                    } else {
                        assert(leq(now, now));
                    }
                }
            }
            best = i;
        } else {
            assert(leq(all[best as int], all[i as int]));
        }
        i = i + 1;
    }
    proof {
        let x = all[best as int];
        assert(all.contains(x));
        assert forall|y: Text| #[trigger] all.to_set().contains(y) implies not_after(x, y) by {
            let j = all.index_of(y);
            assert(leq(x, all[j]));
        }
        lemma_least(all.to_set(), x);
    }
    v[best].clone()
}

/// The texts without those that occur before.
pub open spec fn distinct(v: Seq<Text>) -> Seq<Text>
    decreases v.len(),
{
    if v.len() == 0 {
        Seq::empty()
    } else {
        let done = distinct(v.drop_last());
        if v.drop_last().contains(v.last()) {
            done
        } else {
            done.push(v.last())
        }
    }
}

/// Computes `distinct`.
pub fn keep_first(v: &Vec<String>) -> (r: Vec<String>)
    ensures
        texts(r@) == distinct(texts(v@)),
{
    let ghost all = texts(v@);
    let mut seen = StringHashSet::new();
    let mut r: Vec<String> = Vec::new();
    let mut i: usize = 0;
    assert(all.take(0) =~= Seq::<Text>::empty());
    assert(texts(r@) =~= Seq::<Text>::empty());
    assert(all.take(0).to_set() =~= seen@);
    while i < v.len()
        invariant
            i <= v.len(),
            all == texts(v@),
            texts(r@) == distinct(all.take(i as int)),
            forall|x: Text| #[trigger] seen@.contains(x) <==> all.take(i as int).contains(x),
        decreases v.len() - i,
    {
        let ghost was = texts(r@);
        let ghost x = all[i as int];
        assert(all.take(i + 1).drop_last() =~= all.take(i as int));
        assert(all.take(i + 1) =~= all.take(i as int).push(x));
        proof {
            assert forall|y: Text| all.take(i + 1).contains(y) == (all.take(i as int).contains(y) || y
                == x) by {
                vstd::seq_lib::lemma_seq_contains_after_push(all.take(i as int), x, y);
            }
        }
        if seen.insert(v[i].clone()) {
            r.push(v[i].clone());
            assert(texts(r@) =~= was.push(x));
        }
        i = i + 1;
    }
    assert(all.take(all.len() as int) =~= all);
    r
}

/// `distinct` keeps which texts there are, each once.
pub proof fn lemma_distinct(v: Seq<Text>)
    ensures
        distinct(v).no_duplicates(),
        forall|x: Text| #[trigger] distinct(v).contains(x) <==> v.contains(x),
    decreases v.len(),
{
    if v.len() > 0 {
        let init = v.drop_last();
        lemma_distinct(init);
        assert(v =~= init.push(v.last()));
        assert forall|x: Text| #[trigger] distinct(v).contains(x) == v.contains(x) by {
            vstd::seq_lib::lemma_seq_contains_after_push(init, v.last(), x);
            vstd::seq_lib::lemma_seq_contains_after_push(distinct(init), v.last(), x);
        }
        assert(!distinct(init).contains(v.last()) || init.contains(v.last()));
    }
}

/// Two lists without repeats that hold the same texts are rearrangements of each
/// other.
pub proof fn lemma_same_members(a: Seq<Text>, b: Seq<Text>)
    requires
        a.no_duplicates(),
        b.no_duplicates(),
        forall|x: Text| #[trigger] a.contains(x) <==> b.contains(x),
    ensures
        a.to_multiset() == b.to_multiset(),
{
    a.lemma_multiset_has_no_duplicates();
    b.lemma_multiset_has_no_duplicates();
    a.to_multiset_ensures();
    b.to_multiset_ensures();
    assert forall|x: Text| a.to_multiset().count(x) == b.to_multiset().count(x) by {
        assert(a.to_multiset().contains(x) == a.contains(x));
        assert(b.to_multiset().contains(x) == b.contains(x));
    }
    assert(a.to_multiset() =~= b.to_multiset());
}

/// The texts of a set in order.
pub open spec fn listed(s: Set<Text>) -> Seq<Text> {
    in_order(s.to_seq())
}

proof fn lemma_to_seq(s: Set<Text>)
    requires
        s.finite(),
    ensures
        s.to_seq().no_duplicates(),
        s.to_seq().to_set() == s,
    decreases s.len(),
{
    s.lemma_to_seq_to_set_id();
    if s.len() != 0 {
        let x = s.choose();
        let rest = s.remove(x);
        lemma_to_seq(rest);
        let tail = rest.to_seq();
        assert(s.to_seq() =~= seq![x] + tail);
        assert forall|i: int, j: int| 0 <= i < j < s.to_seq().len() implies s.to_seq()[i]
            != s.to_seq()[j] by {
            assert(s.to_seq()[j] == tail[j - 1]);
            if i == 0 {
                assert(tail.to_set().contains(tail[j - 1]));
                assert(rest.contains(tail[j - 1]));
            } else {
                assert(s.to_seq()[i] == tail[i - 1]);
            }
        }
    }
}

/// A set's texts in order are those of any list without repeats that holds them.
pub proof fn lemma_listed(v: Seq<Text>)
    requires
        v.no_duplicates(),
    ensures
        listed(v.to_set()) == in_order(v),
{
    let s = v.to_set();
    lemma_to_seq(s);
    let w = s.to_seq();
    assert forall|x: Text| #[trigger] v.contains(x) == w.contains(x) by {
        assert(s.contains(x) == w.to_set().contains(x));
    }
    lemma_same_members(v, w);
    lemma_sorted::<String>(v);
    lemma_sorted::<String>(w);
    <String as Ordered>::lemma_total();
    vstd::seq_lib::lemma_sorted_unique(
        in_order(v),
        in_order(w),
        |a: Text, b: Text| <String as Ordered>::leq(a, b),
    );
}

/// A set's texts in order are the set's texts, each once.
pub proof fn lemma_listed_members(s: Set<Text>)
    requires
        s.finite(),
    ensures
        listed(s).no_duplicates(),
        forall|x: Text| #[trigger] listed(s).contains(x) <==> s.contains(x),
{
    lemma_to_seq(s);
    let w = s.to_seq();
    lemma_sorted::<String>(w);
    assert forall|x: Text| #[trigger] listed(s).contains(x) == s.contains(x) by {
        assert(w.to_set().contains(x) == w.contains(x));
    }
    w.lemma_multiset_has_no_duplicates();
    listed(s).lemma_multiset_has_no_duplicates_conv();
}

/// The strings of a list in order, each once.
pub fn list(v: &Vec<String>) -> (r: Vec<String>)
    ensures
        texts(r@) == listed(texts(v@).to_set()),
{
    let once = keep_first(v);
    proof {
        lemma_distinct(texts(v@));
        lemma_listed(texts(once@));
        assert(texts(once@).to_set() =~= texts(v@).to_set());
    }
    sort_strings(once)
}

} // verus!
