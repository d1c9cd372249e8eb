//! Sorted sets of strings and maps from strings to strings.
use crate::text::{
    copy_of, lemma_str_lt_irreflexive, lemma_str_lt_total, lemma_str_lt_transitive, str_eq, str_less,
    str_lt, views,
};
use vstd::prelude::*;

verus! {

/// Whether the strings of `s` stand in strictly increasing order.
pub open spec fn ordered(s: Seq<Seq<char>>) -> bool {
    forall|i: int, j: int| 0 <= i < j < s.len() ==> str_lt(#[trigger] s[i], #[trigger] s[j])
}

/// The strings of a finite set in increasing order.
pub open spec fn listed(x: Set<Seq<char>>) -> Seq<Seq<char>> {
    choose|s: Seq<Seq<char>>| ordered(s) && #[trigger] s.to_set() == x
}

proof fn lemma_ordered_last(a: Seq<Seq<char>>, b: Seq<Seq<char>>)
    requires
        ordered(a),
        ordered(b),
        a.to_set() == b.to_set(),
        a.len() > 0,
        b.len() > 0,
    ensures
        a.last() == b.last(),
{
    assert(a.to_set().contains(a.last()));
    assert(b.to_set().contains(b.last()));
    assert(b.to_set().contains(a.last()));
    assert(a.to_set().contains(b.last()));
    let j = choose|j: int| 0 <= j < b.len() && b[j] == a.last();
    let i = choose|i: int| 0 <= i < a.len() && a[i] == b.last();
    if j < b.len() - 1 {
        assert(str_lt(b[j], b[b.len() - 1]));
        if i < a.len() - 1 {
            assert(str_lt(a[i], a[a.len() - 1]));
            lemma_str_lt_transitive(a[i], a.last(), b.last());
        }
        lemma_str_lt_irreflexive(b.last());
    }
}

proof fn lemma_drop_last_set(a: Seq<Seq<char>>)
    requires
        ordered(a),
        a.len() > 0,
    ensures
        a.drop_last().to_set() == a.to_set().remove(a.last()),
        ordered(a.drop_last()),
{
    let d = a.drop_last();
    assert forall|x: Seq<char>| d.to_set().contains(x) <==> a.to_set().remove(a.last()).contains(x) by {
        if d.to_set().contains(x) {
            let k = choose|k: int| 0 <= k < d.len() && d[k] == x;
            assert(a[k] == x);
            assert(str_lt(a[k], a[a.len() - 1]));
            lemma_str_lt_irreflexive(x);
        }
        if a.to_set().remove(a.last()).contains(x) {
            let k = choose|k: int| 0 <= k < a.len() && a[k] == x;
            assert(d[k] == x);
        }
    }
    assert(d.to_set() =~= a.to_set().remove(a.last()));
}

/// A strictly increasing sequence is determined by its elements.
pub proof fn lemma_ordered_unique(a: Seq<Seq<char>>, b: Seq<Seq<char>>)
    requires
        ordered(a),
        ordered(b),
        a.to_set() == b.to_set(),
    ensures
        a == b,
    decreases a.len(),
{
    if a.len() == 0 {
        if b.len() > 0 {
            assert(b.to_set().contains(b[0]));
            assert(a.to_set().contains(b[0]));
        }
        assert(a =~= b);
    } else {
        assert(a.to_set().contains(a[0]));
        assert(b.to_set().contains(a[0]));
        lemma_ordered_last(a, b);
        lemma_drop_last_set(a);
        lemma_drop_last_set(b);
        lemma_ordered_unique(a.drop_last(), b.drop_last());
        assert(a == a.drop_last().push(a.last()));
        assert(b == b.drop_last().push(b.last()));
    }
}

/// A strictly increasing sequence lists its own elements.
pub proof fn lemma_listed(s: Seq<Seq<char>>)
    requires
        ordered(s),
    ensures
        listed(s.to_set()) == s,
{
    let t = listed(s.to_set());
    assert(ordered(t) && t.to_set() == s.to_set());
    lemma_ordered_unique(s, t);
}

/// Where a string that is not in `s` belongs.
proof fn lemma_place(s: Seq<Seq<char>>, k: Seq<char>) -> (at: int)
    requires
        ordered(s),
        !s.contains(k),
    ensures
        0 <= at <= s.len(),
        forall|i: int| 0 <= i < at ==> str_lt(#[trigger] s[i], k),
        forall|i: int| at <= i < s.len() ==> str_lt(k, #[trigger] s[i]),
    decreases s.len(),
{
    if s.len() == 0 {
        0
    } else {
        let d = s.drop_last();
        let last = s[s.len() - 1];
        assert(s.contains(last));
        lemma_str_lt_total(last, k);
        if str_lt(last, k) {
            assert forall|i: int| 0 <= i < s.len() implies str_lt(#[trigger] s[i], k) by {
                if i < s.len() - 1 {
                    assert(str_lt(s[i], last));
                    lemma_str_lt_transitive(s[i], last, k);
                }
            }
            s.len() as int
        } else {
            assert(!d.contains(k)) by {
                if d.contains(k) {
                    let i = choose|i: int| 0 <= i < d.len() && d[i] == k;
                    assert(s[i] == k);
                }
            }
            let at = lemma_place(d, k);
            assert forall|i: int| 0 <= i < at implies str_lt(#[trigger] s[i], k) by {
                assert(s[i] == d[i]);
            }
            assert forall|i: int| at <= i < s.len() implies str_lt(k, #[trigger] s[i]) by {
                if i < s.len() - 1 {
                    assert(s[i] == d[i]);
                }
            }
            at
        }
    }
}

/// The listing of a finite set is in order and holds its members.
pub proof fn lemma_listed_finite(x: Set<Seq<char>>)
    requires
        x.finite(),
    ensures
        ordered(listed(x)),
        listed(x).to_set() == x,
    decreases x.len(),
{
    if x.is_empty() {
        let s = Seq::<Seq<char>>::empty();
        assert(s.to_set() =~= x);
        lemma_listed(s);
    } else {
        let k = x.choose();
        let y = x.remove(k);
        lemma_listed_finite(y);
        let s = listed(y);
        assert(!s.contains(k)) by {
            if s.contains(k) {
                assert(s.to_set().contains(k));
            }
        }
        let at = lemma_place(s, k);
        lemma_insert_ordered(s, at, k);
        assert(y.insert(k) =~= x);
        lemma_listed(s.insert(at, k));
    }
}

/// Each string stands at one place only.
pub proof fn lemma_ordered_distinct(s: Seq<Seq<char>>, i: int, j: int)
    requires
        ordered(s),
        0 <= i < s.len(),
        0 <= j < s.len(),
        s[i] == s[j],
    ensures
        i == j,
{
    lemma_str_lt_irreflexive(s[i]);
}

/// How many strings of a strictly increasing vector come before `k`.
pub fn lower_bound(v: &Vec<String>, k: &str) -> (r: usize)
    requires
        ordered(views(v@)),
    ensures
        r <= v@.len(),
        forall|i: int| 0 <= i < r ==> str_lt(#[trigger] views(v@)[i], k@),
        forall|i: int| r <= i < v@.len() ==> !str_lt(#[trigger] views(v@)[i], k@),
{
    let mut lo: usize = 0;
    let mut hi: usize = v.len();
    while lo < hi
        invariant
            lo <= hi <= v@.len(),
            ordered(views(v@)),
            forall|i: int| 0 <= i < lo ==> str_lt(#[trigger] views(v@)[i], k@),
            forall|i: int| hi <= i < v@.len() ==> !str_lt(#[trigger] views(v@)[i], k@),
        decreases hi - lo,
    {
        let mid: usize = lo + (hi - lo) / 2;
        if str_less(v[mid].as_str(), k) {
            proof {
                assert(views(v@)[mid as int] == v@[mid as int]@);
                assert forall|i: int| 0 <= i < mid + 1 implies str_lt(
                    #[trigger] views(v@)[i],
                    k@,
                ) by {
                    if lo <= i < mid {
                        assert(str_lt(views(v@)[i], views(v@)[mid as int]));
                        lemma_str_lt_transitive(views(v@)[i], views(v@)[mid as int], k@);
                    }
                }
            }
            lo = mid + 1;
        } else {
            proof {
                assert(views(v@)[mid as int] == v@[mid as int]@);
                assert forall|i: int| mid <= i < v@.len() implies !str_lt(
                    #[trigger] views(v@)[i],
                    k@,
                ) by {
                    if mid < i && str_lt(views(v@)[i], k@) {
                        assert(str_lt(views(v@)[mid as int], views(v@)[i]));
                        lemma_str_lt_transitive(views(v@)[mid as int], views(v@)[i], k@);
                    }
                }
            }
            hi = mid;
        }
    }
    lo
}

/// Whether the string at a lower bound is the one looked for.
pub(crate) fn found_at(v: &Vec<String>, at: usize, k: &str) -> (r: bool)
    requires
        ordered(views(v@)),
        at <= v@.len(),
        forall|i: int| 0 <= i < at ==> str_lt(#[trigger] views(v@)[i], k@),
        forall|i: int| at <= i < v@.len() ==> !str_lt(#[trigger] views(v@)[i], k@),
    ensures
        r == views(v@).contains(k@),
        r ==> at < v@.len() && v@[at as int]@ == k@,
        !r ==> forall|i: int| at <= i < v@.len() ==> str_lt(k@, #[trigger] views(v@)[i]),
{
    let r = at < v.len() && str_eq(v[at].as_str(), k);
    proof {
        let s = views(v@);
        if r {
            assert(s[at as int] == k@);
        } else {
            assert forall|i: int| at <= i < v@.len() implies str_lt(k@, #[trigger] s[i]) by {
                if i == at {
                    lemma_str_lt_total(k@, s[i]);
                } else {
                    lemma_str_lt_total(k@, s[at as int]);
                    assert(str_lt(s[at as int], s[i]));
                    lemma_str_lt_transitive(k@, s[at as int], s[i]);
                }
            }
            if s.contains(k@) {
                let i = choose|i: int| 0 <= i < s.len() && s[i] == k@;
                lemma_str_lt_irreflexive(k@);
                assert(false);
            }
        }
    }
    r
}

/// Inserting a string between those before it and those after it keeps the order.
pub proof fn lemma_insert_ordered(s: Seq<Seq<char>>, at: int, k: Seq<char>)
    requires
        ordered(s),
        0 <= at <= s.len(),
        forall|i: int| 0 <= i < at ==> str_lt(#[trigger] s[i], k),
        forall|i: int| at <= i < s.len() ==> str_lt(k, #[trigger] s[i]),
    ensures
        ordered(s.insert(at, k)),
        s.insert(at, k).to_set() == s.to_set().insert(k),
{
    let t = s.insert(at, k);
    assert forall|i: int, j: int| 0 <= i < j < t.len() implies str_lt(
        #[trigger] t[i],
        #[trigger] t[j],
    ) by {
        let i0 = if i < at { i } else { i - 1 };
        let j0 = if j < at { j } else { j - 1 };
        if i != at {
            assert(t[i] == s[i0]);
        }
        if j != at {
            assert(t[j] == s[j0]);
        }
    }
    assert forall|x: Seq<char>| t.to_set().contains(x) <==> s.to_set().insert(k).contains(x) by {
        if t.to_set().contains(x) {
            let i = choose|i: int| 0 <= i < t.len() && t[i] == x;
            if i < at {
                assert(s[i] == x);
            } else if i > at {
                assert(s[i - 1] == x);
            }
        }
        if x == k {
            assert(t[at] == x);
        } else if s.to_set().contains(x) {
            let i = choose|i: int| 0 <= i < s.len() && s[i] == x;
            if i < at {
                assert(t[i] == x);
            } else {
                assert(t[i + 1] == x);
            }
        }
    }
    assert(t.to_set() =~= s.to_set().insert(k));
}

/// Removing a string keeps the order.
pub proof fn lemma_remove_ordered(s: Seq<Seq<char>>, at: int)
    requires
        ordered(s),
        0 <= at < s.len(),
    ensures
        ordered(s.remove(at)),
        s.remove(at).to_set() == s.to_set().remove(s[at]),
{
    let t = s.remove(at);
    assert forall|i: int, j: int| 0 <= i < j < t.len() implies str_lt(
        #[trigger] t[i],
        #[trigger] t[j],
    ) by {
        let i0 = if i < at { i } else { i + 1 };
        let j0 = if j < at { j } else { j + 1 };
        assert(t[i] == s[i0] && t[j] == s[j0]);
    }
    assert forall|x: Seq<char>| t.to_set().contains(x) <==> s.to_set().remove(s[at]).contains(x) by {
        if t.to_set().contains(x) {
            let i = choose|i: int| 0 <= i < t.len() && t[i] == x;
            let i0 = if i < at { i } else { i + 1 };
            assert(s[i0] == x);
            if x == s[at] {
                lemma_ordered_distinct(s, i0, at);
            }
        }
        if s.to_set().remove(s[at]).contains(x) {
            let i = choose|i: int| 0 <= i < s.len() && s[i] == x;
            let i0 = if i < at { i } else { i - 1 };
            assert(t[i0] == x);
        }
    }
    assert(t.to_set() =~= s.to_set().remove(s[at]));
}

/// A set of strings, kept in increasing order.
pub struct StringSet {
    items: Vec<String>,
}

impl View for StringSet {
    type V = Set<Seq<char>>;

    closed spec fn view(&self) -> Set<Seq<char>> {
        views(self.items@).to_set()
    }
}

impl StringSet {
    #[verifier::type_invariant]
    spec fn inv(self) -> bool {
        ordered(views(self.items@))
    }

    /// The set with no strings.
    pub fn new() -> (r: Self)
        ensures
            r@ == Set::<Seq<char>>::empty(),
    {
        let items: Vec<String> = Vec::new();
        let r = StringSet { items };
        assert(r@ =~= Set::<Seq<char>>::empty());
        r
    }

    /// The number of strings.
    pub fn len(&self) -> (r: usize)
        ensures
            r == listed(self@).len(),
            ordered(listed(self@)),
            listed(self@).to_set() == self@,
    {
        proof {
            use_type_invariant(self);
            lemma_listed(views(self.items@));
        }
        self.items.len()
    }

    pub fn is_empty(&self) -> (r: bool)
        ensures
            r == (self@ == Set::<Seq<char>>::empty()),
    {
        proof {
            if self.items@.len() == 0 {
                assert(self@ =~= Set::<Seq<char>>::empty());
            } else {
                assert(views(self.items@)[0] == self.items@[0]@);
                assert(self@.contains(self.items@[0]@));
            }
        }
        self.items.len() == 0
    }

    /// The string at place `i` of the increasing order.
    pub fn get(&self, i: usize) -> (r: &String)
        requires
            i < listed(self@).len(),
        ensures
            r@ == listed(self@)[i as int],
            self@.contains(r@),
    {
        proof {
            use_type_invariant(self);
            lemma_listed(views(self.items@));
            assert(views(self.items@)[i as int] == self.items@[i as int]@);
        }
        &self.items[i]
    }

    pub fn contains(&self, k: &str) -> (r: bool)
        ensures
            r == self@.contains(k@),
    {
        proof {
            use_type_invariant(self);
        }
        let at = lower_bound(&self.items, k);
        found_at(&self.items, at, k)
    }

    /// Add a string; true if it was not there.
    pub fn insert(&mut self, k: String) -> (r: bool)
        ensures
            final(self)@ == old(self)@.insert(k@),
            r == !old(self)@.contains(k@),
    {
        proof {
            use_type_invariant(&*self);
        }
        let at = lower_bound(&self.items, k.as_str());
        if found_at(&self.items, at, k.as_str()) {
            assert(self@.insert(k@) =~= self@);
            return false;
        }
        let mut items: Vec<String> = Vec::new();
        core::mem::swap(&mut items, &mut self.items);
        let ghost before = views(items@);
        let ghost key = k@;
        proof {
            lemma_insert_ordered(before, at as int, key);
        }
        items.insert(at, k);
        assert(views(items@) =~= before.insert(at as int, key));
        self.items = items;
        true
    }

    /// Remove a string; true if it was there.
    pub fn remove(&mut self, k: &str) -> (r: bool)
        ensures
            final(self)@ == old(self)@.remove(k@),
            r == old(self)@.contains(k@),
    {
        proof {
            use_type_invariant(&*self);
        }
        let at = lower_bound(&self.items, k);
        if !found_at(&self.items, at, k) {
            assert(self@.remove(k@) =~= self@);
            return false;
        }
        let mut items: Vec<String> = Vec::new();
        core::mem::swap(&mut items, &mut self.items);
        let ghost before = views(items@);
        proof {
            assert(before[at as int] == k@);
            lemma_remove_ordered(before, at as int);
        }
        let _ = items.remove(at);
        assert(views(items@) =~= before.remove(at as int));
        self.items = items;
        true
    }

    /// The members of a sequence of strings.
    pub fn from_vec(v: &Vec<String>) -> (r: Self)
        ensures
            r@ == views(v@).to_set(),
    {
        let mut r = StringSet::new();
        let mut i: usize = 0;
        assert(views(v@).take(0).to_set() =~= Set::<Seq<char>>::empty());
        while i < v.len()
            invariant
                i <= v@.len(),
                r@ == views(v@).take(i as int).to_set(),
            decreases v@.len() - i,
        {
            proof {
                lemma_take_set(views(v@), i as int);
            }
            let _ = r.insert(copy_of(v[i].as_str()));
            i += 1;
        }
        assert(views(v@).take(v@.len() as int) =~= views(v@));
        r
    }
}

/// One more element of a sequence is one more member of its set.
pub proof fn lemma_take_set(s: Seq<Seq<char>>, i: int)
    requires
        0 <= i < s.len(),
    ensures
        s.take(i + 1).to_set() == s.take(i).to_set().insert(s[i]),
{
    let a = s.take(i + 1);
    let b = s.take(i);
    assert forall|x: Seq<char>| a.to_set().contains(x) <==> b.to_set().insert(s[i]).contains(x) by {
        if a.to_set().contains(x) {
            let k = choose|k: int| 0 <= k < a.len() && a[k] == x;
            if k < i {
                assert(b[k] == x);
            }
        }
        if b.to_set().contains(x) {
            let k = choose|k: int| 0 <= k < b.len() && b[k] == x;
            assert(a[k] == x);
        }
        if x == s[i] {
            assert(a[i] == x);
        }
    }
    assert(a.to_set() =~= b.to_set().insert(s[i]));
}

} // verus!
