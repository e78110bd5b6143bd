use vstd::prelude::*;
use core::cmp::Ordering;
use core::ops::{Index, Range};
use vstd::std_specs::cmp::{
    OrdSpec, PartialEqSpec, PartialEqSpecImpl, PartialOrdSpec, PartialOrdSpecImpl,
};
use vstd::std_specs::convert::FromSpecImpl;

verus! {

/// A vector of at most `LENGTH` elements that lives in an array: pushing into
/// a full vector changes nothing.
#[derive(Debug)]
pub struct StackVec<T, const LENGTH: usize> {
    elems: [T; LENGTH],
    length: usize,
}

impl<T, const LENGTH: usize> View for StackVec<T, LENGTH> {
    type V = Seq<T>;

    closed spec fn view(&self) -> Seq<T> {
        self.elems@.take(self.length as int)
    }
}

impl<T, const LENGTH: usize> StackVec<T, LENGTH> {
    #[verifier::type_invariant]
    spec fn type_inv(self) -> bool {
        self.length <= LENGTH
    }

    /// The empty vector.
    pub fn new() -> (vec: Self) where T: Copy + Default
        ensures
            vec@ == Seq::<T>::empty(),
    {
        let filler = T::default();
        let vec = Self { elems: [filler; LENGTH], length: 0 };
        assert(vec@ =~= Seq::<T>::empty());
        vec
    }

    /// The elements as a slice.
    pub fn as_slice(&self) -> (slice: &[T])
        ensures
            slice@ == self@,
    {
        proof {
            use_type_invariant(self);
        }
        let whole = self.elems.as_slice();
        let slice = vstd::slice::slice_subrange(whole, 0, self.length);
        assert(slice@ =~= self@);
        slice
    }

    /// The elements as a slice through which they can be changed.
    pub fn as_mut_slice(&mut self) -> (slice: &mut [T])
        ensures
            slice@ == old(self)@,
            final(slice)@ == final(self)@,
    {
        proof {
            use_type_invariant(&*self);
        }
        let length = self.length;
        let whole: &mut [T] = &mut self.elems;
        let (live, rest) = whole.split_at_mut(length);
        proof {
            assert(final(rest)@ == rest@);
            assert((final(live)@ + final(rest)@).len() == LENGTH);
            assert(final(live)@.len() == length);
            assert((final(live)@ + final(rest)@).subrange(0, length as int) =~= final(live)@);
        }
        live
    }

    /// Whether the vector holds no element.
    pub fn is_empty(&self) -> (empty: bool)
        ensures
            empty == (self@.len() == 0),
    {
        proof {
            use_type_invariant(self);
        }
        self.length == 0
    }

    /// The number of elements.
    pub fn len(&self) -> (n: usize)
        ensures
            n == self@.len(),
            n <= LENGTH,
    {
        proof {
            use_type_invariant(self);
        }
        self.length
    }

    /// Appends `element`, unless the vector is full.
    pub fn push(&mut self, element: T)
        ensures
            old(self)@.len() < LENGTH ==> final(self)@ == old(self)@.push(element),
            old(self)@.len() >= LENGTH ==> final(self)@ == old(self)@,
    {
        proof {
            use_type_invariant(&*self);
        }
        if self.length >= LENGTH {
            return ;
        }
        let ghost before = self@;
        self.elems[self.length] = element;
        self.length += 1;
        assert(self@ =~= before.push(element));
    }

    /// The element at `index`.
    pub fn get(&self, index: usize) -> (element: &T)
        requires
            index < self@.len(),
        ensures
            *element == self@[index as int],
    {
        proof {
            use_type_invariant(self);
        }
        &self.elems[index]
    }

    /// Walks the elements from the first to the last.
    pub fn iter(&self) -> (iter: StackVecIterator<'_, T, LENGTH>)
        ensures
            iter.remaining() == self@,
    {
        let iter = StackVecIterator { vec: self, position: 0 };
        proof {
            use_type_invariant(self);
            assert(iter.remaining() =~= self@);
        }
        iter
    }

    /// The vector of the elements of `values`, as far as they fit.
    pub fn from_slice(values: &[T]) -> (vec: Self) where T: Copy + Default
        ensures
            vec@ == if values@.len() <= LENGTH {
                values@
            } else {
                values@.take(LENGTH as int)
            },
    {
        let mut vec = Self::new();
        let mut i: usize = 0;
        while i < values.len()
            invariant
                i <= values@.len(),
                vec@ == if i <= LENGTH {
                    values@.take(i as int)
                } else {
                    values@.take(LENGTH as int)
                },
            decreases values@.len() - i,
        {
            proof {
                assert(values@.take(i + 1) =~= values@.take(i as int).push(values@[i as int]));
            }
            vec.push(values[i]);
            i += 1;
        }
        proof {
            assert(values@.take(values@.len() as int) =~= values@);
        }
        vec
    }

    /// Sorts the vector by what `less` says of two elements: an element
    /// moves before its neighbour as long as `less` says that it is the
    /// lesser one.
    pub fn sort_by<F: Fn(&T, &T) -> bool>(&mut self, less: F) where T: Copy
        requires
            forall|a: &T, b: &T| call_requires(less, (a, b)),
        ensures
            final(self)@.to_multiset() == old(self)@.to_multiset(),
            forall|i: int|
                0 < i < final(self)@.len() ==> in_order(
                    less,
                    #[trigger] final(self)@[i - 1],
                    final(self)@[i],
                ),
    {
        proof {
            use_type_invariant(&*self);
        }
        let n = self.length;
        let mut elems = self.elems;
        let ghost start = elems@.take(n as int);
        let mut i: usize = 1;
        while i < n
            invariant
                n <= LENGTH,
                n == self.length,
                1 <= i || n == 0,
                elems@.take(n as int).to_multiset() == start.to_multiset(),
                forall|a: &T, b: &T| call_requires(less, (a, b)),
                forall|k: int|
                    0 < k < i && k < n ==> in_order(less, #[trigger] elems@[k - 1], elems@[k]),
            decreases n - i,
        {
            let mut j: usize = i;
            let mut moving = true;
            while moving && j > 0
                invariant
                    j <= i < n <= LENGTH,
                    elems@.take(n as int).to_multiset() == start.to_multiset(),
                    forall|a: &T, b: &T| call_requires(less, (a, b)),
                    forall|k: int|
                        0 < k <= i && k != j ==> in_order(less, #[trigger] elems@[k - 1], elems@[k]),
                    !moving ==> j == 0 || in_order(less, elems@[j - 1], elems@[j as int]),
                    j < i ==> in_order(less, elems@[j as int], elems@[j + 1]),
                    0 < j < i && moving ==> in_order(less, elems@[j - 1], elems@[j + 1]),
                decreases j + if moving { 1int } else { 0int },
            {
                let left = elems[j - 1];
                let right = elems[j];
                if less(&right, &left) {
                    let ghost before = elems@;
                    elems[j - 1] = right;
                    elems[j] = left;
                    proof {
                        lemma_swap_multiset(before.take(n as int), j - 1, j as int);
                        assert(elems@.take(n as int) =~= before.take(n as int).update(
                            j - 1,
                            right,
                        ).update(j as int, left));
                    }
                    j -= 1;
                } else {
                    moving = false;
                }
            }
            i += 1;
        }
        let ghost before = *self;
        self.elems = elems;
        proof {
            assert(self@ =~= elems@.take(n as int));
            assert(before@ =~= start);
        }
    }

    /// Empties the vector.
    pub fn reset(&mut self)
        ensures
            final(self)@ == Seq::<T>::empty(),
    {
        self.length = 0;
        assert(self@ =~= Seq::<T>::empty());
    }
}

/// `less` has put `left` before `right`: it has said that `left` is the
/// lesser one, or that `right` is not.
pub open spec fn in_order<T, F: Fn(&T, &T) -> bool>(less: F, left: T, right: T) -> bool {
    call_ensures(less, (&left, &right), true) || call_ensures(less, (&right, &left), false)
}

/// Exchanging two elements of a list keeps what the list holds.
proof fn lemma_swap_multiset<T>(s: Seq<T>, i: int, j: int)
    requires
        0 <= i < j < s.len(),
    ensures
        s.update(i, s[j]).update(j, s[i]).to_multiset() == s.to_multiset(),
{
    broadcast use vstd::multiset::group_multiset_axioms;

    let once = s.update(i, s[j]);
    let swapped = once.update(j, s[i]);
    vstd::seq_lib::to_multiset_update(s, i, s[j]);
    vstd::seq_lib::to_multiset_update(once, j, s[i]);
    assert(once[j] == s[j]);
    s.to_multiset_ensures();
    assert(s.contains(s[i]));
    assert(s.contains(s[j]));
    let m = s.to_multiset();
    assert(m.count(s[i]) > 0);
    assert(m.count(s[j]) > 0);
    assert forall|x: T| swapped.to_multiset().count(x) == m.count(x) by {
        assert(once.to_multiset() == m.insert(s[j]).remove(s[i]));
        assert(swapped.to_multiset() == once.to_multiset().insert(s[i]).remove(s[j]));
    }
    assert(swapped.to_multiset() =~= s.to_multiset());
}

/// Walks a `StackVec` from its first element to its last.
pub struct StackVecIterator<'a, T, const LENGTH: usize> {
    vec: &'a StackVec<T, LENGTH>,
    position: usize,
}

impl<'a, T, const LENGTH: usize> StackVecIterator<'a, T, LENGTH> {
    #[verifier::type_invariant]
    spec fn type_inv(self) -> bool {
        self.position <= self.vec@.len()
    }

    /// The elements still to come, in the order in which they come.
    pub closed spec fn remaining(self) -> Seq<T> {
        self.vec@.skip(self.position as int)
    }

    /// The elements still to come.
    pub fn collect(self) -> (elements: Vec<T>) where T: Copy
        ensures
            elements@ == self.remaining(),
    {
        let mut iter = self;
        let mut elements: Vec<T> = Vec::new();
        proof {
            use_type_invariant(&iter);
        }
        loop
            invariant
                elements@ + iter.remaining() == self.remaining(),
            decreases iter.remaining().len(),
        {
            let ghost before = iter.remaining();
            match iter.next() {
                None => {
                    proof {
                        assert(elements@ + before =~= elements@);
                    }
                    return elements;
                },
                Some(element) => {
                    proof {
                        assert(elements@.push(*element) + before.drop_first() =~= elements@
                            + before);
                    }
                    elements.push(*element);
                },
            }
        }
    }

    /// The next element, if one is left.
    pub fn next(&mut self) -> (element: Option<&'a T>)
        ensures
            old(self).remaining().len() == 0 ==> element is None && final(self).remaining()
                == old(self).remaining(),
            old(self).remaining().len() > 0 ==> element == Some(&old(self).remaining()[0])
                && final(self).remaining() == old(self).remaining().drop_first(),
    {
        proof {
            use_type_invariant(&*self);
        }
        if self.position >= self.vec.len() {
            None
        } else {
            let element = self.vec.get(self.position);
            proof {
                assert(self.vec@.skip(self.position + 1) =~= self.vec@.skip(
                    self.position as int,
                ).drop_first());
            }
            self.position += 1;
            Some(element)
        }
    }
}

impl<T: Copy + Default, const LENGTH: usize, const ARR_LENGTH: usize> From<
    [T; ARR_LENGTH],
> for StackVec<T, LENGTH> {
    fn from(value: [T; ARR_LENGTH]) -> (vec: Self) {
        StackVec::from_slice(value.as_slice())
    }
}

impl<T: Copy + Default, const LENGTH: usize, const ARR_LENGTH: usize> FromSpecImpl<
    [T; ARR_LENGTH],
> for StackVec<T, LENGTH> {
    open spec fn obeys_from_spec() -> bool {
        false
    }

    open spec fn from_spec(value: [T; ARR_LENGTH]) -> Self {
        arbitrary()
    }
}

impl<T: Copy + Default, const LENGTH: usize, const ARR_LENGTH: usize> From<
    &[T; ARR_LENGTH],
> for StackVec<T, LENGTH> {
    fn from(value: &[T; ARR_LENGTH]) -> (vec: Self) {
        StackVec::from_slice(value.as_slice())
    }
}

impl<T: Copy + Default, const LENGTH: usize, const ARR_LENGTH: usize> FromSpecImpl<
    &[T; ARR_LENGTH],
> for StackVec<T, LENGTH> {
    open spec fn obeys_from_spec() -> bool {
        false
    }

    open spec fn from_spec(value: &[T; ARR_LENGTH]) -> Self {
        arbitrary()
    }
}

impl<T, const LENGTH: usize> Index<usize> for StackVec<T, LENGTH> {
    type Output = T;

    /// The element at `index`, which the vector holds.
    fn index(&self, index: usize) -> (element: &T)
        ensures
            *element == self@[index as int],
    {
        self.get(index)
    }
}

impl<T, const LENGTH: usize> vstd::std_specs::core::IndexSpecImpl<usize> for StackVec<T, LENGTH> {
    open spec fn index_req(&self, index: &usize) -> bool {
        *index < self@.len()
    }
}

impl<T, const LENGTH: usize> Index<Range<usize>> for StackVec<T, LENGTH> {
    type Output = [T];

    /// The elements from the place `index.start` up to, but not including,
    /// the place `index.end`.
    fn index(&self, index: Range<usize>) -> (elements: &[T])
        ensures
            elements@ == self@.subrange(index.start as int, index.end as int),
    {
        vstd::slice::slice_subrange(self.as_slice(), index.start, index.end)
    }
}

impl<T, const LENGTH: usize> vstd::std_specs::core::IndexSpecImpl<Range<usize>> for StackVec<T, LENGTH> {
    open spec fn index_req(&self, index: &Range<usize>) -> bool {
        index.start <= index.end <= self@.len()
    }
}

impl<T: PartialEq, const LENGTH: usize> PartialEq for StackVec<T, LENGTH> {
    fn eq(&self, other: &Self) -> (equal: bool) {
        if self.len() != other.len() {
            return false;
        }
        let n = self.len();
        let mut i: usize = 0;
        while i < n
            invariant
                i <= n,
                n == self@.len(),
                n == other@.len(),
                T::obeys_eq_spec() ==> forall|k: int|
                    0 <= k < i ==> (#[trigger] self@[k]).eq_spec(&other@[k]),
            decreases n - i,
        {
            if !(*self.get(i) == *other.get(i)) {
                return false;
            }
            i += 1;
        }
        true
    }
}

impl<T: PartialEq, const LENGTH: usize> PartialEqSpecImpl for StackVec<T, LENGTH> {
    open spec fn obeys_eq_spec() -> bool {
        T::obeys_eq_spec()
    }

    open spec fn eq_spec(&self, other: &Self) -> bool {
        &&& self@.len() == other@.len()
        &&& forall|k: int| 0 <= k < self@.len() ==> (#[trigger] self@[k]).eq_spec(&other@[k])
    }
}

/// How two sequences compare: by the first place at which their elements
/// are not equal, and by their lengths if there is none.
pub open spec fn lexicographic<T: PartialOrd>(a: Seq<T>, b: Seq<T>) -> Option<Ordering>
    decreases a.len(),
{
    if a.len() == 0 || b.len() == 0 {
        if a.len() < b.len() {
            Some(Ordering::Less)
        } else if a.len() == b.len() {
            Some(Ordering::Equal)
        } else {
            Some(Ordering::Greater)
        }
    } else {
        match a[0].partial_cmp_spec(&b[0]) {
            Some(Ordering::Equal) => lexicographic(a.drop_first(), b.drop_first()),
            other => other,
        }
    }
}

impl<T: PartialOrd, const LENGTH: usize> PartialOrd for StackVec<T, LENGTH> {
    fn partial_cmp(&self, other: &Self) -> (order: Option<Ordering>) {
        let n = self.len();
        let m = other.len();
        let mut i: usize = 0;
        proof {
            assert(self@.skip(0) =~= self@);
            assert(other@.skip(0) =~= other@);
        }
        while i < n && i < m
            invariant
                i <= n,
                i <= m,
                n == self@.len(),
                m == other@.len(),
                T::obeys_partial_cmp_spec() ==> lexicographic(self@, other@) == lexicographic(
                    self@.skip(i + 0),
                    other@.skip(i + 0),
                ),
            decreases n - i,
        {
            proof {
                assert(self@.skip(i + 0).drop_first() =~= self@.skip(i + 1));
                assert(other@.skip(i + 0).drop_first() =~= other@.skip(i + 1));
            }
            match self.get(i).partial_cmp(other.get(i)) {
                Some(Ordering::Equal) => {},
                order => {
                    return order;
                },
            }
            i += 1;
        }
        if n < m {
            Some(Ordering::Less)
        } else if n == m {
            Some(Ordering::Equal)
        } else {
            Some(Ordering::Greater)
        }
    }
}

impl<T: PartialOrd, const LENGTH: usize> PartialOrdSpecImpl for StackVec<T, LENGTH> {
    open spec fn obeys_partial_cmp_spec() -> bool {
        T::obeys_partial_cmp_spec()
    }

    open spec fn partial_cmp_spec(&self, other: &Self) -> Option<Ordering> {
        lexicographic(self@, other@)
    }
}

/// How two sequences of a totally ordered type compare: by the first place
/// at which their elements differ, and by their lengths if there is none.
pub open spec fn ordered<T: Ord>(a: Seq<T>, b: Seq<T>) -> Ordering
    decreases a.len(),
{
    if a.len() == 0 || b.len() == 0 {
        if a.len() < b.len() {
            Ordering::Less
        } else if a.len() == b.len() {
            Ordering::Equal
        } else {
            Ordering::Greater
        }
    } else {
        match a[0].cmp_spec(&b[0]) {
            Ordering::Equal => ordered(a.drop_first(), b.drop_first()),
            other => other,
        }
    }
}

impl<T: Ord, const LENGTH: usize> StackVec<T, LENGTH> {
    /// How the vector compares with `other`: by the first place at which
    /// they differ, and by their lengths if there is none.
    pub fn cmp(&self, other: &Self) -> (order: Ordering)
        ensures
            T::obeys_cmp_spec() ==> order == ordered(self@, other@),
    {
        let n = self.len();
        let m = other.len();
        let mut i: usize = 0;
        proof {
            assert(self@.skip(0) =~= self@);
            assert(other@.skip(0) =~= other@);
        }
        while i < n && i < m
            invariant
                i <= n,
                i <= m,
                n == self@.len(),
                m == other@.len(),
                T::obeys_cmp_spec() ==> ordered(self@, other@) == ordered(
                    self@.skip(i + 0),
                    other@.skip(i + 0),
                ),
            decreases n - i,
        {
            proof {
                assert(self@.skip(i + 0).drop_first() =~= self@.skip(i + 1));
                assert(other@.skip(i + 0).drop_first() =~= other@.skip(i + 1));
            }
            match self.get(i).cmp(other.get(i)) {
                Ordering::Equal => {},
                order => {
                    return order;
                },
            }
            i += 1;
        }
        if n < m {
            Ordering::Less
        } else if n == m {
            Ordering::Equal
        } else {
            Ordering::Greater
        }
    }
}

impl<T: Copy, const LENGTH: usize> Clone for StackVec<T, LENGTH> {
    fn clone(&self) -> (copy: Self)
        ensures
            copy == *self,
    {
        *self
    }
}

impl<T: Copy, const LENGTH: usize> Copy for StackVec<T, LENGTH> {

}

} // verus!
