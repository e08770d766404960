//! A total order on the values stored in the crate's set-like collections.
//!
//! The collections of this crate (closed devices, open schedule entries,
//! known devices, exit interfaces) are vectors kept strictly sorted and
//! free of duplicates, so that a collection's value is determined by the
//! set of its elements.  This module provides the order itself: a
//! lexicographic order on strings by code point, and the [`OrderedItem`]
//! trait tying a spec-level strict order to an executable comparison.

use vstd::prelude::*;

verus! {

/// Result of a three-way comparison.
pub enum Cmp {
    Less,
    Equal,
    Greater,
}

/// Strict lexicographic order on character sequences by code point,
/// starting the comparison at position `i`.
pub open spec fn str_lt_from(a: Seq<char>, b: Seq<char>, i: int) -> bool
    decreases a.len() - i,
{
    if i >= b.len() {
        false
    } else if i >= a.len() {
        true
    } else if a[i] == b[i] {
        str_lt_from(a, b, i + 1)
    } else {
        (a[i] as u32) < (b[i] as u32)
    }
}

/// Strict lexicographic order on character sequences by code point.
/// This agrees with the byte order of the UTF-8 encodings.
pub open spec fn str_lt(a: Seq<char>, b: Seq<char>) -> bool {
    str_lt_from(a, b, 0)
}

/// The suffixes of `a` and `b` from position `i` on are equal.
pub open spec fn str_eq_from(a: Seq<char>, b: Seq<char>, i: int) -> bool {
    a.len() - i == b.len() - i && forall|j: int| i <= j < a.len() ==> a[j] == b[j]
}

/// Distinct characters have distinct code points.
proof fn lemma_char_code_injective(a: char, b: char)
    requires
        a != b,
    ensures
        (a as u32) != (b as u32),
{
}

proof fn lemma_str_trichotomy_from(a: Seq<char>, b: Seq<char>, i: int)
    requires
        0 <= i <= a.len(),
        0 <= i <= b.len(),
    ensures
        str_lt_from(a, b, i) || str_lt_from(b, a, i) || str_eq_from(a, b, i),
        str_lt_from(a, b, i) ==> !str_lt_from(b, a, i),
        str_eq_from(a, b, i) ==> !str_lt_from(a, b, i) && !str_lt_from(b, a, i),
    decreases a.len() - i,
{
    if i >= a.len() && i >= b.len() {
        assert(str_eq_from(a, b, i));
    } else if i >= a.len() {
        assert(str_lt_from(a, b, i));
    } else if i >= b.len() {
        assert(str_lt_from(b, a, i));
    } else if a[i] == b[i] {
        lemma_str_trichotomy_from(a, b, i + 1);
        assert(str_lt_from(a, b, i) == str_lt_from(a, b, i + 1));
        assert(str_lt_from(b, a, i) == str_lt_from(b, a, i + 1));
        if str_eq_from(a, b, i + 1) {
            assert(str_eq_from(a, b, i));
        }
        if str_eq_from(a, b, i) {
            assert(str_eq_from(a, b, i + 1));
        }
    } else {
        lemma_char_code_injective(a[i], b[i]);
        assert(!str_eq_from(a, b, i));
    }
}

/// Exactly one of `str_lt(a, b)`, `str_lt(b, a)`, `a == b` holds.
pub proof fn lemma_str_trichotomy(a: Seq<char>, b: Seq<char>)
    ensures
        str_lt(a, b) || str_lt(b, a) || a == b,
        str_lt(a, b) ==> !str_lt(b, a) && a != b,
        a == b ==> !str_lt(a, b),
{
    lemma_str_trichotomy_from(a, b, 0);
    if str_eq_from(a, b, 0) {
        assert(a =~= b);
    }
    if a == b {
        assert(str_eq_from(a, b, 0));
    }
}

proof fn lemma_str_transitive_from(a: Seq<char>, b: Seq<char>, c: Seq<char>, i: int)
    requires
        0 <= i <= a.len(),
        0 <= i <= b.len(),
        0 <= i <= c.len(),
        str_lt_from(a, b, i),
        str_lt_from(b, c, i),
    ensures
        str_lt_from(a, c, i),
    decreases a.len() - i,
{
    if i >= a.len() {
        // a is exhausted; b is longer than a at i, and c is longer than b or
        // differs above, so c is not exhausted at i.
    } else {
        if a[i] == b[i] && b[i] == c[i] {
            lemma_str_transitive_from(a, b, c, i + 1);
        }
    }
}

/// The order on character sequences is transitive.
pub proof fn lemma_str_transitive(a: Seq<char>, b: Seq<char>, c: Seq<char>)
    requires
        str_lt(a, b),
        str_lt(b, c),
    ensures
        str_lt(a, c),
{
    lemma_str_transitive_from(a, b, c, 0);
}

/// An element type with a strict total order on its views and an
/// executable three-way comparison deciding that order.
pub trait OrderedItem: View + Sized {
    /// Strict order on views.
    spec fn lt(a: Self::V, b: Self::V) -> bool;

    /// The order is a strict total order modulo view equality.
    proof fn lt_trichotomy(a: Self::V, b: Self::V)
        ensures
            Self::lt(a, b) || Self::lt(b, a) || a == b,
            Self::lt(a, b) ==> !Self::lt(b, a) && a != b,
            a == b ==> !Self::lt(a, b);

    /// The order is transitive.
    proof fn lt_transitive(a: Self::V, b: Self::V, c: Self::V)
        requires
            Self::lt(a, b),
            Self::lt(b, c),
        ensures
            Self::lt(a, c);

    /// Three-way comparison deciding the order on the views.
    fn cmp_items(&self, other: &Self) -> (c: Cmp)
        ensures
            match c {
                Cmp::Less => Self::lt(self@, other@),
                Cmp::Equal => self@ == other@,
                Cmp::Greater => Self::lt(other@, self@),
            };
}

/// The views of the elements of a sequence.
pub open spec fn views_of<K: View>(s: Seq<K>) -> Seq<K::V> {
    s.map_values(|k: K| k@)
}

/// The views of the elements, as a set.
pub open spec fn view_set<K: View>(s: Seq<K>) -> Set<K::V> {
    views_of(s).to_set()
}

/// The sequence of views is strictly increasing: sorted and duplicate-free.
pub open spec fn strictly_sorted<K: OrderedItem>(s: Seq<K::V>) -> bool {
    forall|i: int, j: int| 0 <= i < j < s.len() ==> K::lt(s[i], s[j])
}

/// Three-way comparison of two strings in the order of [`str_lt`].
pub fn str_compare(a: &str, b: &str) -> (c: Cmp)
    ensures
        match c {
            Cmp::Less => str_lt(a@, b@) && a@ != b@,
            Cmp::Equal => a@ == b@,
            Cmp::Greater => str_lt(b@, a@) && a@ != b@,
        },
{
    let alen = a.unicode_len();
    let blen = b.unicode_len();
    let mut i: usize = 0;
    loop
        invariant
            i <= alen,
            i <= blen,
            alen == a@.len(),
            blen == b@.len(),
            forall|j: int| 0 <= j < i ==> a@[j] == b@[j],
        decreases alen - i,
    {
        if i >= alen {
            if i >= blen {
                proof {
                    assert(a@ =~= b@);
                }
                return Cmp::Equal;
            } else {
                proof {
                    lemma_prefix_lt(a@, b@, i as int);
                    assert(a@.len() != b@.len());
                }
                return Cmp::Less;
            }
        } else if i >= blen {
            proof {
                lemma_prefix_lt(b@, a@, i as int);
                assert(a@.len() != b@.len());
            }
            return Cmp::Greater;
        } else {
            let ca = a.get_char(i);
            let cb = b.get_char(i);
            if ca == cb {
                i = i + 1;
            } else if (ca as u32) < (cb as u32) {
                proof {
                    lemma_diff_lt(a@, b@, i as int);
                    assert(a@[i as int] != b@[i as int]);
                }
                return Cmp::Less;
            } else {
                proof {
                    lemma_diff_lt(b@, a@, i as int);
                    assert(a@[i as int] != b@[i as int]);
                }
                return Cmp::Greater;
            }
        }
    }
}

/// If `a` and `b` agree below `i`, `a` is exhausted at `i` and `b` is not,
/// then `a` is less than `b`.
proof fn lemma_prefix_lt(a: Seq<char>, b: Seq<char>, i: int)
    requires
        0 <= i,
        i == a.len(),
        i < b.len(),
        forall|j: int| 0 <= j < i ==> a[j] == b[j],
    ensures
        str_lt(a, b),
{
    lemma_agree_lt_from(a, b, 0, i);
}

/// If `a` and `b` agree below `i` and differ at `i` with a smaller code
/// point in `a`, then `a` is less than `b`.
proof fn lemma_diff_lt(a: Seq<char>, b: Seq<char>, i: int)
    requires
        0 <= i < a.len(),
        i < b.len(),
        forall|j: int| 0 <= j < i ==> a[j] == b[j],
        a[i] != b[i],
        (a[i] as u32) < (b[i] as u32),
    ensures
        str_lt(a, b),
{
    lemma_agree_lt_from(a, b, 0, i);
}

/// `str_lt_from` at a position below which the strings agree reduces to
/// `str_lt_from` at the difference position `i`.
proof fn lemma_agree_lt_from(a: Seq<char>, b: Seq<char>, k: int, i: int)
    requires
        0 <= k <= i,
        i <= a.len(),
        i <= b.len(),
        forall|j: int| 0 <= j < i ==> a[j] == b[j],
        str_lt_from(a, b, i),
    ensures
        str_lt_from(a, b, k),
    decreases i - k,
{
    if k < i {
        lemma_agree_lt_from(a, b, k + 1, i);
    }
}

/// The elements of a strictly sorted sequence are pairwise distinct.
pub proof fn lemma_sorted_distinct<K: OrderedItem>(s: Seq<K::V>, i: int, j: int)
    requires
        strictly_sorted::<K>(s),
        0 <= i < j < s.len(),
    ensures
        s[i] != s[j],
{
    K::lt_trichotomy(s[i], s[j]);
}

/// Removing an element of a strictly sorted sequence keeps it sorted and
/// removes exactly that element from the set of elements.
pub proof fn lemma_sorted_remove<K: OrderedItem>(s: Seq<K::V>, i: int)
    requires
        strictly_sorted::<K>(s),
        0 <= i < s.len(),
    ensures
        strictly_sorted::<K>(s.remove(i)),
        s.remove(i).to_set() == s.to_set().remove(s[i]),
{
    let r = s.remove(i);
    assert forall|x: K::V| r.to_set().contains(x) implies s.to_set().remove(s[i]).contains(x) by {
        let p = choose|p: int| 0 <= p < r.len() && r[p] == x;
        let q = if p < i {
            p
        } else {
            p + 1
        };
        assert(s[q] == x);
        if q != i {
            if q < i {
                lemma_sorted_distinct::<K>(s, q, i);
            } else {
                lemma_sorted_distinct::<K>(s, i, q);
            }
        }
    };
    assert forall|x: K::V| s.to_set().remove(s[i]).contains(x) implies r.to_set().contains(x) by {
        let q = choose|q: int| 0 <= q < s.len() && s[q] == x;
        if q < i {
            assert(r[q] == x);
        } else {
            assert(q != i);
            assert(r[q - 1] == x);
        }
    };
    assert(s.remove(i).to_set() =~= s.to_set().remove(s[i]));
}

/// Two strictly sorted sequences with the same set of elements are equal.
pub proof fn lemma_sorted_canonical<K: OrderedItem>(s1: Seq<K::V>, s2: Seq<K::V>)
    requires
        strictly_sorted::<K>(s1),
        strictly_sorted::<K>(s2),
        s1.to_set() == s2.to_set(),
    ensures
        s1 == s2,
    decreases s1.len(),
{
    if s1.len() == 0 {
        if s2.len() > 0 {
            assert(s2.to_set().contains(s2[0]));
            assert(s1.contains(s2[0]));
            assert(false);
        }
        assert(s1 =~= s2);
    } else if s2.len() == 0 {
        assert(s1.to_set().contains(s1[0]));
        assert(s2.contains(s1[0]));
        assert(false);
    } else {
        let a = s1[0];
        let b = s2[0];
        if a != b {
            assert(s1.to_set().contains(a));
            assert(s2.contains(a));
            let j = choose|j: int| 0 <= j < s2.len() && s2[j] == a;
            assert(j != 0);
            assert(K::lt(b, a));
            assert(s2.to_set().contains(b));
            assert(s1.contains(b));
            let i = choose|i: int| 0 <= i < s1.len() && s1[i] == b;
            assert(i != 0);
            assert(K::lt(a, b));
            K::lt_trichotomy(a, b);
            assert(false);
        }
        let t1 = s1.remove(0);
        let t2 = s2.remove(0);
        lemma_sorted_remove::<K>(s1, 0);
        lemma_sorted_remove::<K>(s2, 0);
        lemma_sorted_canonical::<K>(t1, t2);
        assert forall|i: int| 0 <= i < s1.len() implies s1[i] == s2[i] by {
            if i > 0 {
                assert(t1[i - 1] == s1[i]);
                assert(t2[i - 1] == s2[i]);
            }
        }
        assert(s1 =~= s2);
    }
}

/// Insert `k` into the sorted duplicate-free vector `v`, keeping it
/// sorted.  If an element with the same view is present the vector is
/// left unchanged, as in a set.
pub fn set_insert<K: OrderedItem>(v: &mut Vec<K>, k: K)
    requires
        strictly_sorted::<K>(views_of(old(v)@)),
    ensures
        strictly_sorted::<K>(views_of(final(v)@)),
        view_set(final(v)@) == view_set(old(v)@).insert(k@),
{
    let mut i: usize = 0;
    loop
        invariant
            i <= v.len(),
            v@ == old(v)@,
            strictly_sorted::<K>(views_of(v@)),
            forall|j: int| 0 <= j < i ==> K::lt(views_of(v@)[j], k@),
        decreases v.len() - i,
    {
        if i == v.len() {
            v.push(k);
            proof {
                let vs = views_of(v@);
                let os = views_of(old(v)@);
                assert(vs =~= os.push(k@));
                assert forall|p: int, q: int| 0 <= p < q < vs.len() implies K::lt(
                    vs[p],
                    vs[q],
                ) by {}
                assert forall|x: K::V| vs.to_set().contains(x) implies os.to_set().insert(
                    k@,
                ).contains(x) by {
                    let p = choose|p: int| 0 <= p < vs.len() && vs[p] == x;
                    if p < os.len() {
                        assert(os[p] == x);
                        assert(os.contains(x));
                    }
                };
                assert forall|x: K::V| os.to_set().insert(k@).contains(x) implies vs.to_set()
                    .contains(x) by {
                    if x == k@ {
                        assert(vs[os.len() as int] == x);
                        assert(vs.contains(x));
                    } else {
                        let p = choose|p: int| 0 <= p < os.len() && os[p] == x;
                        assert(vs[p] == x);
                        assert(vs.contains(x));
                    }
                };
                assert(view_set(v@) =~= view_set(old(v)@).insert(k@));
            }
            return ;
        }
        let c = v[i].cmp_items(&k);
        match c {
            Cmp::Less => {
                i = i + 1;
            },
            Cmp::Equal => {
                proof {
                    assert(views_of(v@)[i as int] == k@);
                    assert(views_of(v@).contains(k@));
                    assert(view_set(v@).contains(k@));
                    assert(view_set(v@) =~= view_set(old(v)@).insert(k@));
                }
                return ;
            },
            Cmp::Greater => {
                proof {
                    assert(K::lt(k@, views_of(v@)[i as int]));
                }
                let ghost os = views_of(old(v)@);
                v.insert(i, k);
                proof {
                    let vs = views_of(v@);
                    assert(vs =~= os.insert(i as int, k@));
                    assert forall|p: int, q: int| 0 <= p < q < vs.len() implies K::lt(
                        vs[p],
                        vs[q],
                    ) by {
                        let ii = i as int;
                        if p == ii && q > ii {
                            if q > ii + 1 {
                                K::lt_transitive(k@, os[ii], os[q - 1]);
                            }
                        }
                    }
                    assert forall|x: K::V| view_set(v@).contains(x) implies view_set(
                        old(v)@,
                    ).insert(k@).contains(x) by {
                        let p = choose|p: int| 0 <= p < vs.len() && vs[p] == x;
                        if p < i as int {
                            assert(os[p] == x);
                            assert(os.contains(x));
                        } else if p > i as int {
                            assert(os[p - 1] == x);
                            assert(os.contains(x));
                        }
                    };
                    assert forall|x: K::V| view_set(old(v)@).insert(k@).contains(x) implies view_set(
                        v@,
                    ).contains(x) by {
                        if x == k@ {
                            assert(vs[i as int] == x);
                            assert(vs.contains(x));
                        } else {
                            let p = choose|p: int| 0 <= p < os.len() && os[p] == x;
                            if p < i as int {
                                assert(vs[p] == x);
                            } else {
                                assert(vs[p + 1] == x);
                            }
                            assert(vs.contains(x));
                        }
                    };
                    assert(view_set(v@) =~= view_set(old(v)@).insert(k@));
                }
                return ;
            },
        }
    }
}

/// Whether two sorted duplicate-free vectors hold the same set of
/// elements.
pub fn set_eq<K: OrderedItem>(a: &Vec<K>, b: &Vec<K>) -> (r: bool)
    requires
        strictly_sorted::<K>(views_of(a@)),
        strictly_sorted::<K>(views_of(b@)),
    ensures
        r == (view_set(a@) == view_set(b@)),
{
    if a.len() != b.len() {
        proof {
            if view_set(a@) == view_set(b@) {
                lemma_sorted_canonical::<K>(views_of(a@), views_of(b@));
                assert(views_of(a@).len() == views_of(b@).len());
                assert(false);
            }
        }
        return false;
    }
    let mut i: usize = 0;
    while i < a.len()
        invariant
            a.len() == b.len(),
            i <= a.len(),
            strictly_sorted::<K>(views_of(a@)),
            strictly_sorted::<K>(views_of(b@)),
            forall|j: int| 0 <= j < i ==> views_of(a@)[j] == views_of(b@)[j],
        decreases a.len() - i,
    {
        let c = a[i].cmp_items(&b[i]);
        match c {
            Cmp::Equal => {
                i = i + 1;
            },
            _ => {
                proof {
                    K::lt_trichotomy(a@[i as int]@, b@[i as int]@);
                    assert(views_of(a@)[i as int] != views_of(b@)[i as int]);
                    if view_set(a@) == view_set(b@) {
                        lemma_sorted_canonical::<K>(views_of(a@), views_of(b@));
                    }
                }
                return false;
            },
        }
    }
    proof {
        assert(views_of(a@) =~= views_of(b@));
        assert(view_set(a@) =~= view_set(b@));
    }
    true
}

/// Whether an element with the view of `k` occurs in `v`.
pub fn set_contains<K: OrderedItem>(v: &Vec<K>, k: &K) -> (r: bool)
    ensures
        r == view_set(v@).contains(k@),
{
    let mut i: usize = 0;
    while i < v.len()
        invariant
            i <= v.len(),
            forall|j: int| 0 <= j < i ==> views_of(v@)[j] != k@,
        decreases v.len() - i,
    {
        let c = v[i].cmp_items(k);
        match c {
            Cmp::Equal => {
                proof {
                    assert(views_of(v@)[i as int] == k@);
                    assert(views_of(v@).contains(k@));
                }
                return true;
            },
            _ => {
                proof {
                    if views_of(v@)[i as int] == k@ {
                        K::lt_trichotomy(v@[i as int]@, k@);
                        assert(false);
                    }
                }
                i = i + 1;
            },
        }
    }
    proof {
        if view_set(v@).contains(k@) {
            let p = choose|p: int| 0 <= p < views_of(v@).len() && views_of(v@)[p] == k@;
            assert(false);
        }
    }
    false
}

} // verus!
