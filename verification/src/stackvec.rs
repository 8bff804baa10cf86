//! A vector with a fixed capacity, stored inline.
//!
//! Operations that would exceed the capacity return `None` instead of
//! growing. Most of them take and return the vector by value.
use std::cmp::Ordering;
use vstd::prelude::*;
use vstd::std_specs::cmp::OrdSpec;
use vstd::std_specs::cmp::PartialEqSpec;

verus! {

broadcast use vstd::seq_lib::group_to_multiset_ensures, vstd::multiset::group_multiset_axioms;

/// `kept` and `dropped` split `s` by the answers of `f`: every element of
/// `kept` got `true`, every element of `dropped` got `false`, and together
/// they hold exactly the elements of `s`.
pub open spec fn split_by<T, F: Fn(T) -> bool>(f: F, s: Seq<T>, kept: Seq<T>, dropped: Seq<T>) -> bool {
    &&& forall|i: int| 0 <= i < kept.len() ==> f.ensures((kept[i],), true)
    &&& forall|i: int| 0 <= i < dropped.len() ==> f.ensures((dropped[i],), false)
    &&& s.to_multiset() == kept.to_multiset().add(dropped.to_multiset())
}

/// `f` gives each value one answer.
pub open spec fn answers_once<T, F: Fn(T) -> bool>(f: F) -> bool {
    forall|x: T| !(#[trigger] f.ensures((x,), true) && f.ensures((x,), false))
}

/// What keeping the elements on which `f` answers `true` makes of `v` from
/// index `i` on, where each element dropped is replaced by the last one:
/// the elements before `i` stay, the one at `i` stays and the walk moves on
/// when `f` answers `true` for it, and otherwise the last element moves
/// into its place and is looked at next.
pub open spec fn swap_retained<T, F: Fn(T) -> bool>(f: F, v: Seq<T>, i: int) -> Seq<T>
    decreases v.len() - i,
{
    if i < 0 || i >= v.len() {
        v
    } else if f.ensures((v[i],), true) {
        swap_retained(f, v, i + 1)
    } else {
        swap_retained(f, v.update(i, v.last()).drop_last(), i)
    }
}

/// `s` with every element removed that is equal (by `==` of `T`) to the last
/// element kept before it. On a sorted sequence this removes duplicates.
pub open spec fn dedup_seq<T: PartialEq>(s: Seq<T>) -> Seq<T>
    decreases s.len(),
{
    if s.len() == 0 {
        s
    } else {
        let d = dedup_seq(s.drop_last());
        if d.len() > 0 && s.last().eq_spec(&d.last()) {
            d
        } else {
            d.push(s.last())
        }
    }
}

/// `ord` orders values consistently: `a < b` exactly when `b > a`, and
/// `a <= b <= c` gives `a <= c`.
pub open spec fn total_preorder<T>(ord: spec_fn(T, T) -> Ordering) -> bool {
    &&& forall|a: T, b: T| #[trigger] ord(a, b) == Ordering::Less <==> ord(b, a) == Ordering::Greater
    &&& forall|a: T, b: T, c: T|
        #![trigger ord(a, b), ord(b, c)]
        ord(a, b) != Ordering::Greater && ord(b, c) != Ordering::Greater ==> ord(a, c)
            != Ordering::Greater
}

/// No element of `s` is greater, under `ord`, than a later one.
pub open spec fn sorted_by<T>(s: Seq<T>, ord: spec_fn(T, T) -> Ordering) -> bool {
    forall|p: int, q: int| 0 <= p < q < s.len() ==> #[trigger] ord(s[p], s[q]) != Ordering::Greater
}

/// The order that `Ord::cmp` computes on `T`.
pub open spec fn ord_of<T: Ord>() -> spec_fn(T, T) -> Ordering {
    |a: T, b: T| a.cmp_spec(&b)
}

/// `Ord::cmp` on `T` is described by its specification and is a total
/// order.
pub open spec fn is_total_order<T: Ord>() -> bool {
    &&& T::obeys_cmp_spec()
    &&& total_preorder(ord_of::<T>())
}

/// Bytes are totally ordered by `Ord::cmp`.
pub proof fn lemma_u8_total_order()
    ensures
        is_total_order::<u8>(),
{
}

/// The key that `f` gives `x`.
pub open spec fn key_of<T, K, F: Fn(&T) -> K>(f: &F, x: T) -> K {
    choose|k: K| (*f).ensures((&x,), k)
}

/// The order by the keys that `f` gives, compared with `Ord::cmp`.
pub open spec fn by_key<T, K: Ord, F: Fn(&T) -> K>(f: &F) -> spec_fn(T, T) -> Ordering {
    |a: T, b: T| key_of(f, a).cmp_spec(&key_of(f, b))
}

/// `f` gives every value one key.
pub open spec fn gives_one_key<T, K, F: Fn(&T) -> K>(f: &F) -> bool {
    &&& forall|x: T| (*f).requires((&x,))
    &&& forall|x: T, k: K| (*f).ensures((&x,), k) ==> k == key_of(f, x)
}

/// The answer of `compare` on `a` and `b`.
pub open spec fn answer_of<T, F: Fn(&T, &T) -> Ordering>(compare: &F, a: T, b: T) -> Ordering {
    choose|o: Ordering| (*compare).ensures((&a, &b), o)
}

/// The order that `compare` computes.
pub open spec fn answers<T, F: Fn(&T, &T) -> Ordering>(compare: &F) -> spec_fn(T, T) -> Ordering {
    |a: T, b: T| answer_of(compare, a, b)
}

/// `compare` gives one answer on each pair of values, and those answers
/// order values consistently.
pub open spec fn is_comparator<T, F: Fn(&T, &T) -> Ordering>(compare: &F) -> bool {
    &&& forall|a: T, b: T| (*compare).requires((&a, &b))
    &&& forall|a: T, b: T, o: Ordering| (*compare).ensures((&a, &b), o) ==> o == answer_of(compare, a, b)
    &&& total_preorder(answers(compare))
}

/// Removing `s[i]` by moving the last element into its place keeps every
/// other element.
proof fn lemma_swap_remove_multiset<T>(s: Seq<T>, i: int)
    requires
        0 <= i < s.len(),
    ensures
        s.to_multiset() == s.update(i, s.last()).drop_last().to_multiset().insert(s[i]),
{
    let u = s.update(i, s.last());
    assert(u.drop_last() == u.remove(u.len() - 1));
    assert(u.last() == s.last());
    assert(s.to_multiset().count(s[i]) > 0);
    assert(s.to_multiset() =~= u.drop_last().to_multiset().insert(s[i]));
}

/// Exchanging two elements keeps the multiset.
proof fn lemma_swap_multiset<T>(s: Seq<T>, i: int, j: int)
    requires
        0 <= i < s.len(),
        0 <= j < s.len(),
    ensures
        s.update(i, s[j]).update(j, s[i]).to_multiset() == s.to_multiset(),
{
    let u = s.update(i, s[j]);
    assert(s.to_multiset().count(s[i]) > 0);
    assert(u[j] == s[j] || i == j);
    assert(u.to_multiset().count(u[j]) > 0);
    assert(u.update(j, s[i]).to_multiset() =~= s.to_multiset());
}

/// Inline vector of at most `CAP` elements, `CAP` being at most 255.
///
/// Only the first `len` slots of `elems` are part of the vector.
#[derive(Copy, Debug, PartialEq, Eq, Hash)]
pub struct StackVec<T, const CAP: usize> {
    len: u8,
    elems: [T; CAP],
}

impl<T: Copy, const CAP: usize> Clone for StackVec<T, CAP> {
    fn clone(&self) -> (r: Self)
        ensures
            r == *self,
    {
        *self
    }
}

impl<T, const CAP: usize> View for StackVec<T, CAP> {
    type V = Seq<T>;

    /// The elements in order.
    closed spec fn view(&self) -> Seq<T> {
        self.elems@.subrange(0, self.len as int)
    }
}

impl<T, const CAP: usize> StackVec<T, CAP> {
    #[verifier::type_invariant]
    spec fn wf(self) -> bool {
        &&& self.len <= CAP
        &&& CAP <= 255
    }

    /// Every slot of the storage, the ones past the length included; the
    /// derived `==` and `Hash` look at all of them.
    pub closed spec fn storage(self) -> Seq<T> {
        self.elems@
    }

    /// Number of elements.
    pub fn len(&self) -> (n: usize)
        ensures
            n == self@.len(),
            n <= CAP <= 255,
            self.storage().len() == CAP,
            self@ == self.storage().take(n as int),
    {
        proof {
            use_type_invariant(self);
            assert(self@ =~= self.storage().take(self.len as int));
        }
        self.len as usize
    }

    /// Whether there are no elements.
    pub fn is_empty(&self) -> (b: bool)
        ensures
            b == (self@.len() == 0),
    {
        proof {
            use_type_invariant(self);
        }
        self.len == 0
    }

    /// The elements as a slice.
    pub fn as_slice(&self) -> (s: &[T])
        ensures
            s@ == self@,
    {
        proof {
            use_type_invariant(self);
        }
        let n = self.len as usize;
        &self.elems.as_slice()[0..n]
    }
}

impl<T: Copy, const CAP: usize> StackVec<T, CAP> {
    /// The element at `index`.
    pub fn get(&self, index: usize) -> (x: T)
        requires
            index < self@.len(),
        ensures
            x == self@[index as int],
    {
        proof {
            use_type_invariant(self);
        }
        self.elems[index]
    }

    /// Replaces the element at `index`.
    pub fn set(&mut self, index: usize, x: T)
        requires
            index < old(self)@.len(),
        ensures
            final(self)@ == old(self)@.update(index as int, x),
            final(self).storage() == old(self).storage().update(index as int, x),
    {
        proof {
            use_type_invariant(&*self);
        }
        self.elems[index] = x;
        assert(self@ =~= old(self)@.update(index as int, x));
    }

    /// Removes the element at `index`, moving the last element into its
    /// place.
    pub fn swap_remove(self, index: usize) -> (r: Self)
        requires
            index < self@.len(),
        ensures
            r@ == self@.update(index as int, self@.last()).drop_last(),
            r.storage() == self.storage().update(index as int, self@.last()),
    {
        proof {
            use_type_invariant(&self);
        }
        let mut v = self;
        let last = v.elems[(v.len - 1) as usize];
        v.elems[index] = last;
        v.len = v.len - 1;
        assert(v@ =~= self@.update(index as int, self@.last()).drop_last());
        v
    }
}

impl<T: Default + Copy, const CAP: usize> StackVec<T, CAP> {
    /// An empty vector.
    pub fn new() -> (v: Self)
        requires
            CAP <= 255,
        ensures
            v@ == Seq::<T>::empty(),
    {
        let v = StackVec { len: 0, elems: [T::default(); CAP] };
        assert(v@ =~= Seq::<T>::empty());
        v
    }

    /// Removes every element.
    pub fn clear(&mut self)
        ensures
            final(self)@ == Seq::<T>::empty(),
    {
        proof {
            use_type_invariant(&*self);
        }
        self.len = 0;
        let mut i: usize = 0;
        while i < CAP
            invariant
                self.len == 0,
                CAP <= 255,
            decreases CAP - i,
        {
            self.elems[i] = T::default();
            i = i + 1;
        }
        assert(self@ =~= Seq::<T>::empty());
    }

    /// Appends `elem`, or gives `None` when the vector is full.
    pub fn push(self, elem: T) -> (r: Option<Self>)
        ensures
            r is None <==> self@.len() == CAP,
            r matches Some(v) ==> v@ == self@.push(elem),
            r matches Some(v) ==> v.storage() == self.storage().update(self@.len() as int, elem),
    {
        proof {
            use_type_invariant(&self);
        }
        if self.len as usize >= CAP {
            return None;
        }
        let mut v = self;
        v.elems[v.len as usize] = elem;
        v.len = v.len + 1;
        assert(v@ =~= self@.push(elem));
        Some(v)
    }

    /// Removes and returns the last element, if any.
    pub fn pop(&mut self) -> (r: Option<T>)
        ensures
            old(self)@.len() == 0 ==> r is None && final(self)@ == old(self)@,
            old(self)@.len() > 0 ==> r == Some(old(self)@.last()) && final(self)@
                == old(self)@.drop_last(),
            old(self)@.len() == 0 ==> final(self).storage() == old(self).storage(),
            final(self).storage().len() == old(self).storage().len(),
            forall|i: int|
                0 <= i < old(self).storage().len() && i != old(self)@.len() - 1 ==> #[trigger] final(self).storage()[i]
                    == old(self).storage()[i],
    {
        proof {
            use_type_invariant(&*self);
        }
        if self.len == 0 {
            return None;
        }
        self.len = self.len - 1;
        let k = self.len as usize;
        let x = self.elems[k];
        self.elems[k] = T::default();
        assert(self@ =~= old(self)@.drop_last());
        Some(x)
    }

    /// Appends every element of `items`, or gives `None` when they do not
    /// all fit.
    pub fn extend(self, items: &[T]) -> (r: Option<Self>)
        ensures
            r is None <==> self@.len() + items@.len() > CAP,
            r matches Some(v) ==> v@ == self@ + items@,
    {
        proof {
            use_type_invariant(&self);
        }
        if items.len() > CAP - self.len as usize {
            return None;
        }
        let mut v = self;
        let mut i: usize = 0;
        while i < items.len()
            invariant
                i <= items@.len(),
                self@.len() + items@.len() <= CAP,
                v@ == self@ + items@.subrange(0, i as int),
            decreases items@.len() - i,
        {
            proof {
                use_type_invariant(&v);
            }
            match v.push(items[i]) {
                Some(w) => {
                    v = w;
                },
                None => {
                    return None;
                },
            }
            assert(items@.subrange(0, i + 1) =~= items@.subrange(0, i as int).push(items@[i as int]));
            i = i + 1;
        }
        assert(items@.subrange(0, items@.len() as int) =~= items@);
        Some(v)
    }

    /// A vector holding the elements of `items`, or `None` when they do not
    /// fit.
    pub fn from_slice(items: &[T]) -> (r: Option<Self>)
        requires
            CAP <= 255,
        ensures
            r is None <==> items@.len() > CAP,
            r matches Some(v) ==> v@ == items@,
    {
        let v = Self::new();
        let r = v.extend(items);
        proof {
            assert(Seq::<T>::empty() + items@ =~= items@);
        }
        r
    }

    /// A vector holding the elements of `items`, or `None` when they do not
    /// fit.
    pub fn from_iter(items: &[T]) -> (r: Option<Self>)
        requires
            CAP <= 255,
        ensures
            r is None <==> items@.len() > CAP,
            r matches Some(v) ==> v@ == items@,
    {
        Self::from_slice(items)
    }

    /// Appends the elements of `other`, or gives `None` when they do not
    /// all fit.
    pub fn extend_from_stackvec<const M: usize>(self, other: &StackVec<T, M>) -> (r: Option<Self>)
        ensures
            r is None <==> self@.len() + other@.len() > CAP,
            r matches Some(v) ==> v@ == self@ + other@,
    {
        self.extend(other.as_slice())
    }
}


impl<T: Default + Copy, const CAP: usize> StackVec<T, CAP> {
    /// The vector of the results of `f` on each element, in order.
    pub fn map<U: Default + Copy, F: Fn(T) -> U>(self, f: F) -> (r: StackVec<U, CAP>)
        requires
            forall|i: int| 0 <= i < self@.len() ==> f.requires((self@[i],)),
        ensures
            r@.len() == self@.len(),
            forall|i: int| 0 <= i < self@.len() ==> f.ensures((self@[i],), r@[i]),
    {
        proof {
            use_type_invariant(&self);
        }
        let n = self.len();
        let mut r = StackVec::<U, CAP>::new();
        let mut i: usize = 0;
        while i < n
            invariant
                n == self@.len(),
                n <= CAP,
                i <= n,
                r@.len() == i,
                forall|k: int| 0 <= k < self@.len() ==> f.requires((self@[k],)),
                forall|k: int| 0 <= k < i ==> f.ensures((self@[k],), r@[k]),
            decreases n - i,
        {
            let y = f(self.get(i));
            match r.push(y) {
                Some(w) => {
                    r = w;
                },
                None => {
                    return r;
                },
            }
            i = i + 1;
        }
        r
    }

    /// Keeps the elements on which `f` answers `true`. Each element dropped
    /// is replaced by the last one, which is looked at next, so the order is
    /// that of [`swap_retained`] when `f` gives each value one answer.
    pub fn retain_unsorted<F: Fn(T) -> bool>(self, f: F) -> (r: Self)
        requires
            forall|i: int| 0 <= i < self@.len() ==> f.requires((self@[i],)),
        ensures
            exists|dropped: Seq<T>| split_by(f, self@, r@, dropped),
            answers_once(f) ==> r@ == swap_retained(f, self@, 0),
    {
        let mut v = self;
        let mut i: usize = 0;
        let ghost mut dropped: Seq<T> = Seq::empty();
        proof {
            assert(self@.to_multiset() =~= v@.to_multiset().add(dropped.to_multiset()));
        }
        while i < v.len()
            invariant
                i <= v@.len(),
                forall|k: int| 0 <= k < v@.len() ==> f.requires((v@[k],)),
                forall|k: int| 0 <= k < i ==> f.ensures((v@[k],), true),
                forall|k: int| 0 <= k < dropped.len() ==> f.ensures((dropped[k],), false),
                self@.to_multiset() == v@.to_multiset().add(dropped.to_multiset()),
                answers_once(f) ==> swap_retained(f, self@, 0) == swap_retained(f, v@, i as int),
            decreases v@.len() - i,
        {
            let x = v.get(i);
            if f(x) {
                i = i + 1;
            } else {
                proof {
                    if answers_once(f) {
                        assert(!f.ensures((x,), true));
                    }
                }
                let ghost before = v@;
                v = v.swap_remove(i);
                proof {
                    lemma_swap_remove_multiset(before, i as int);
                    dropped = dropped.push(x);
                    assert(self@.to_multiset() =~= v@.to_multiset().add(dropped.to_multiset()));
                    assert forall|k: int| 0 <= k < v@.len() implies f.requires((v@[k],)) by {
                        if k == i {
                            assert(v@[k] == before[before.len() - 1]);
                        } else {
                            assert(v@[k] == before[k]);
                        }
                    }
                }
            }
        }
        assert(split_by(f, self@, v@, dropped));
        v
    }
}

impl<T: Ord + Eq + Copy, const CAP: usize> StackVec<T, CAP> {
    /// Drops every element equal to the last one kept before it. On a sorted
    /// vector this removes duplicates.
    pub fn deduped(self) -> (r: Self)
        requires
            T::obeys_eq_spec(),
        ensures
            r@ == dedup_seq(self@),
    {
        proof {
            use_type_invariant(&self);
        }
        let n = self.len();
        if n == 0 {
            assert(self@.len() == 0);
            return self;
        }
        let mut v = self;
        let mut write: usize = 1;
        let mut read: usize = 1;
        proof {
            let first = self@.subrange(0, 1);
            assert(first.drop_last() =~= Seq::<T>::empty());
            assert(dedup_seq(first.drop_last()).len() == 0);
            assert(dedup_seq(self@.subrange(0, 1)) =~= v@.subrange(0, 1));
        }
        while read < n
            invariant
                T::obeys_eq_spec(),
                n == self@.len() == v@.len(),
                1 <= write <= read <= n,
                v@.subrange(0, write as int) == dedup_seq(self@.subrange(0, read as int)),
                forall|k: int| read <= k < n ==> v@[k] == self@[k],
            decreases n - read,
        {
            let x = v.get(read);
            let last = v.get(write - 1);
            let ghost d = v@.subrange(0, write as int);
            proof {
                assert(self@.subrange(0, read + 1).drop_last() =~= self@.subrange(0, read as int));
                assert(self@.subrange(0, read + 1).last() == x);
                assert(d.last() == last);
            }
            if x != last {
                v.set(write, x);
                write = write + 1;
                assert(v@.subrange(0, write as int) =~= d.push(x));
            } else {
                assert(v@.subrange(0, write as int) =~= d);
            }
            read = read + 1;
        }
        assert(self@.subrange(0, n as int) =~= self@);
        let r = v.truncated(write);
        r
    }
}

impl<T, const CAP: usize> StackVec<T, CAP> {
    /// The first `n` elements.
    fn truncated(self, n: usize) -> (r: Self)
        requires
            n <= self@.len(),
        ensures
            r@ == self@.subrange(0, n as int),
    {
        proof {
            use_type_invariant(&self);
        }
        let mut v = self;
        v.len = n as u8;
        assert(v@ =~= self@.subrange(0, n as int));
        v
    }
}

/// `s[j]`, for an index held in a `usize`.
#[verifier::inline]
pub open spec fn seq_at<T>(s: Seq<T>, j: usize) -> T {
    s[j as int]
}

impl<T: Copy, const CAP: usize> StackVec<T, CAP> {
    /// Exchanges the elements at `j - 1` and `j`.
    fn swap_back(&mut self, j: usize)
        requires
            0 < j < old(self)@.len(),
        ensures
            final(self)@ == old(self)@.update(j - 1, old(self)@[j as int]).update(
                j as int,
                old(self)@[j - 1],
            ),
            final(self)@.to_multiset() == old(self)@.to_multiset(),
    {
        let a = self.get(j);
        let b = self.get(j - 1);
        self.set(j - 1, a);
        self.set(j, b);
        proof {
            lemma_swap_multiset(old(self)@, j - 1, j as int);
        }
    }

    /// Insertion sort under the order that `compare` computes, which `ord`
    /// describes.
    fn sorted_with<F: Fn(&T, &T) -> Ordering>(
        self,
        compare: F,
        Ghost(ord): Ghost<spec_fn(T, T) -> Ordering>,
    ) -> (r: Self)
        requires
            forall|a: T, b: T| compare.requires((&a, &b)),
            forall|a: T, b: T, o: Ordering| compare.ensures((&a, &b), o) ==> o == ord(a, b),
            total_preorder(ord),
        ensures
            r@.to_multiset() == self@.to_multiset(),
            sorted_by(r@, ord),
    {
        let n = self.len();
        let mut v = self;
        let mut i: usize = 0;
        while i < n
            invariant
                n == v@.len(),
                i <= n,
                forall|a: T, b: T| compare.requires((&a, &b)),
                forall|a: T, b: T, o: Ordering| compare.ensures((&a, &b), o) ==> o == ord(a, b),
                total_preorder(ord),
                v@.to_multiset() == self@.to_multiset(),
                forall|p: int, q: int| 0 <= p < q < i ==> #[trigger] ord(v@[p], v@[q]) != Ordering::Greater,
            decreases n - i,
        {
            let mut j: usize = i;
            let ghost x = seq_at(v@, i);
            loop
                invariant
                    n == v@.len(),
                    j <= i < n,
                    forall|a: T, b: T| compare.requires((&a, &b)),
                    forall|a: T, b: T, o: Ordering| compare.ensures((&a, &b), o) ==> o == ord(a, b),
                    total_preorder(ord),
                    v@.to_multiset() == self@.to_multiset(),
                    seq_at(v@, j) == x,
                    forall|p: int, q: int|
                        0 <= p < q <= i && p != j && q != j ==> #[trigger] ord(v@[p], v@[q])
                            != Ordering::Greater,
                    forall|q: int| j < q <= i ==> #[trigger] ord(x, v@[q]) == Ordering::Less,
                ensures
                    n == v@.len(),
                    j <= i < n,
                    v@.to_multiset() == self@.to_multiset(),
                    seq_at(v@, j) == x,
                    forall|p: int, q: int|
                        0 <= p < q <= i && p != j && q != j ==> #[trigger] ord(v@[p], v@[q])
                            != Ordering::Greater,
                    forall|q: int| j < q <= i ==> #[trigger] ord(x, v@[q]) == Ordering::Less,
                    j == 0 || ord(v@[j - 1], x) != Ordering::Greater,
                decreases j,
            {
                if j == 0 {
                    break;
                }
                let a = v.get(j);
                let b = v.get(j - 1);
                let o = compare(&a, &b);
                match o {
                    Ordering::Less => {},
                    _ => {
                        break;
                    },
                }
                let ghost before = v@;
                v.swap_back(j);
                proof {
                    assert forall|p: int, q: int|
                        0 <= p < q <= i && p != j - 1 && q != j - 1 implies #[trigger] ord(
                        v@[p],
                        v@[q],
                    ) != Ordering::Greater by {
                        if q == j {
                            assert(ord(before[p], before[j - 1]) != Ordering::Greater);
                        } else if p == j {
                            assert(ord(before[j - 1], before[q]) != Ordering::Greater);
                        } else {
                            assert(ord(before[p], before[q]) != Ordering::Greater);
                        }
                    }
                }
                j = j - 1;
            }
            proof {
                assert forall|p: int, q: int| 0 <= p < q < i + 1 implies #[trigger] ord(
                    v@[p],
                    v@[q],
                ) != Ordering::Greater by {
                    if q == j && p < j && p != j - 1 {
                        assert(ord(v@[p], v@[j - 1]) != Ordering::Greater);
                    }
                }
            }
            i = i + 1;
        }
        v
    }
}

impl<T: Copy, const CAP: usize> StackVec<T, CAP> {
    /// The same elements in ascending order.
    pub fn sorted_unstable(self) -> (r: Self)
        where
            T: Ord,
        requires
            is_total_order::<T>(),
        ensures
            r@.to_multiset() == self@.to_multiset(),
            sorted_by(r@, ord_of::<T>()),
    {
        let compare = |a: &T, b: &T| -> (o: Ordering)
            requires
                T::obeys_cmp_spec(),
            ensures
                o == (*a).cmp_spec(b),
            { a.cmp(b) };
        self.sorted_with(compare, Ghost(ord_of::<T>()))
    }

    /// The same elements in ascending order of the keys that `f` gives.
    pub fn sorted_unstable_by_key<K: Ord, F: Fn(&T) -> K>(self, f: F) -> (r: Self)
        requires
            gives_one_key(&f),
            is_total_order::<K>(),
        ensures
            r@.to_multiset() == self@.to_multiset(),
            sorted_by(r@, by_key(&f)),
    {
        let fr = &f;
        let compare = |a: &T, b: &T| -> (o: Ordering)
            requires
                gives_one_key(fr),
                K::obeys_cmp_spec(),
            ensures
                o == key_of(fr, *a).cmp_spec(&key_of(fr, *b)),
            {
                let ka = fr(a);
                let kb = fr(b);
                ka.cmp(&kb)
            };
        proof {
            let ko = ord_of::<K>();
            let ord = by_key(&f);
            assert forall|a: T, b: T| #[trigger] ord(a, b) == Ordering::Less <==> ord(b, a)
                == Ordering::Greater by {
                assert(ko(key_of(&f, a), key_of(&f, b)) == Ordering::Less <==> ko(key_of(&f, b), key_of(&f, a)) == Ordering::Greater);
            }
            assert forall|a: T, b: T, c: T|
                #![trigger ord(a, b), ord(b, c)]
                ord(a, b) != Ordering::Greater && ord(b, c) != Ordering::Greater implies ord(a, c)
                != Ordering::Greater by {
                assert(ko(key_of(&f, a), key_of(&f, b)) != Ordering::Greater && ko(key_of(&f, b), key_of(&f, c)) != Ordering::Greater ==> ko(key_of(&f, a), key_of(&f, c)) != Ordering::Greater);
            }
        }
        self.sorted_with(compare, Ghost(by_key(&f)))
    }

    /// The same elements in ascending order under `compare`.
    pub fn sorted_unstable_by<F: Fn(&T, &T) -> Ordering>(self, compare: F) -> (r: Self)
        requires
            is_comparator(&compare),
        ensures
            r@.to_multiset() == self@.to_multiset(),
            sorted_by(r@, answers(&compare)),
    {
        self.sorted_with(compare, Ghost(answers(&compare)))
    }
}

} // verus!
