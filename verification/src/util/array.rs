use vstd::prelude::*;

verus! {

/// `<[T; LENGTH] as TryFrom<Vec<T>>>::try_from` hands over the whole contents
/// of a vector as an array, where the vector has the length of the array, and
/// fails where it has another length.
#[verifier::external_body]
fn array_of_vec<T, const LENGTH: usize>(values: Vec<T>) -> (array: Option<[T; LENGTH]>)
    ensures
        array is Some <==> values@.len() == LENGTH,
        array matches Some(elements) ==> elements@ == values@,
{
    values.try_into().ok()
}

/// `<Vec<T> as From<[T; LENGTH]>>::from` hands over the elements of an array
/// as a vector, in their order.
#[verifier::external_body]
fn vec_of_array<T, const LENGTH: usize>(array: [T; LENGTH]) -> (values: Vec<T>)
    ensures
        values@ == array@,
{
    Vec::from(array)
}

/// The elements of `values`, the last one first.
fn reversed<T>(values: Vec<T>) -> (stack: Vec<T>)
    ensures
        stack@.len() == values@.len(),
        forall|i: int| 0 <= i < values@.len() ==> stack@[i] == values@[values@.len() - 1 - i],
{
    let mut values = values;
    let ghost whole = values@;
    let mut stack: Vec<T> = Vec::new();
    while values.len() > 0
        invariant
            values@.len() + stack@.len() == whole.len(),
            forall|i: int| 0 <= i < values@.len() ==> values@[i] == whole[i],
            forall|i: int| 0 <= i < stack@.len() ==> stack@[i] == whole[whole.len() - 1 - i],
        decreases values@.len(),
    {
        stack.push(values.pop().unwrap());
    }
    stack
}

/// The numbers from 0 up to `LENGTH`.
pub fn indexes<const LENGTH: usize>() -> (numbers: [usize; LENGTH])
    ensures
        forall|i: int| 0 <= i < LENGTH ==> numbers@[i] == i,
{
    let mut numbers = [0usize;LENGTH];
    let mut i: usize = 0;
    while i < LENGTH
        invariant
            i <= LENGTH,
            forall|k: int| 0 <= k < i ==> numbers@[k] == k,
        decreases LENGTH - i,
    {
        numbers[i] = i;
        i += 1;
    }
    numbers
}

/// Calls `mapper` on every element of `arr`, from the first to the last, and
/// returns the results in the order of the elements.
pub fn array_map<T, U, F: Fn(&T) -> U, const LENGTH: usize>(arr: &[T; LENGTH], mapper: F) -> (mapped:
    [U; LENGTH])
    requires
        forall|i: int| 0 <= i < LENGTH ==> call_requires(mapper, (&#[trigger] arr@[i],)),
    ensures
        forall|i: int| 0 <= i < LENGTH ==> call_ensures(mapper, (&arr@[i],), #[trigger] mapped@[i]),
{
    let mut results: Vec<U> = Vec::new();
    let mut i: usize = 0;
    while i < LENGTH
        invariant
            i <= LENGTH,
            results@.len() == i,
            forall|k: int| 0 <= k < LENGTH ==> call_requires(mapper, (&#[trigger] arr@[k],)),
            forall|k: int|
                0 <= k < i ==> call_ensures(mapper, (&arr@[k],), #[trigger] results@[k]),
        decreases LENGTH - i,
    {
        results.push(mapper(&arr[i]));
        i += 1;
    }
    array_of_vec(results).unwrap()
}

/// Calls `mapper` on every element of `arr`, from the first to the last, and
/// returns the results in the order of the elements.
pub fn into_array_map<T, U, F: Fn(T) -> U, const LENGTH: usize>(arr: [T; LENGTH], mapper: F) -> (mapped:
    [U; LENGTH])
    requires
        forall|i: int| 0 <= i < LENGTH ==> call_requires(mapper, (#[trigger] arr@[i],)),
    ensures
        forall|i: int| 0 <= i < LENGTH ==> call_ensures(mapper, (arr@[i],), #[trigger] mapped@[i]),
{
    let mut stack = reversed(vec_of_array(arr));
    let mut results: Vec<U> = Vec::new();
    let mut i: usize = 0;
    while i < LENGTH
        invariant
            i <= LENGTH,
            results@.len() == i,
            stack@.len() + i == LENGTH,
            forall|k: int| 0 <= k < stack@.len() ==> stack@[k] == arr@[LENGTH - 1 - k],
            forall|k: int| 0 <= k < LENGTH ==> call_requires(mapper, (#[trigger] arr@[k],)),
            forall|k: int| 0 <= k < i ==> call_ensures(mapper, (arr@[k],), #[trigger] results@[k]),
        decreases LENGTH - i,
    {
        results.push(mapper(stack.pop().unwrap()));
        i += 1;
    }
    array_of_vec(results).unwrap()
}

/// Calls `mapper` on the elements of `a1` and `a2` pair by pair, from the
/// first pair to the last, and returns the results in that order.
pub fn into_array_zip<T, U, F: Fn(T, T) -> U, const LENGTH: usize>(
    a1: [T; LENGTH],
    a2: [T; LENGTH],
    mapper: F,
) -> (zipped: [U; LENGTH])
    requires
        forall|i: int| 0 <= i < LENGTH ==> call_requires(mapper, (a1@[i], a2@[i])),
    ensures
        forall|i: int|
            0 <= i < LENGTH ==> call_ensures(mapper, (a1@[i], a2@[i]), #[trigger] zipped@[i]),
{
    let mut first = reversed(vec_of_array(a1));
    let mut second = reversed(vec_of_array(a2));
    let mut results: Vec<U> = Vec::new();
    let mut i: usize = 0;
    while i < LENGTH
        invariant
            i <= LENGTH,
            results@.len() == i,
            first@.len() + i == LENGTH,
            second@.len() + i == LENGTH,
            forall|k: int| 0 <= k < first@.len() ==> first@[k] == a1@[LENGTH - 1 - k],
            forall|k: int| 0 <= k < second@.len() ==> second@[k] == a2@[LENGTH - 1 - k],
            forall|k: int| 0 <= k < LENGTH ==> call_requires(mapper, (a1@[k], a2@[k])),
            forall|k: int|
                0 <= k < i ==> call_ensures(mapper, (a1@[k], a2@[k]), #[trigger] results@[k]),
        decreases LENGTH - i,
    {
        let a = first.pop().unwrap();
        let b = second.pop().unwrap();
        results.push(mapper(a, b));
        i += 1;
    }
    array_of_vec(results).unwrap()
}

/// An array of a length from 0 to 23.
#[derive(Debug, Clone, Copy, PartialEq, Eq, PartialOrd, Ord, Hash)]
pub enum MonomorphizedArray<T> {
    Len0([T; 0]),
    Len1([T; 1]),
    Len2([T; 2]),
    Len3([T; 3]),
    Len4([T; 4]),
    Len5([T; 5]),
    Len6([T; 6]),
    Len7([T; 7]),
    Len8([T; 8]),
    Len9([T; 9]),
    Len10([T; 10]),
    Len11([T; 11]),
    Len12([T; 12]),
    Len13([T; 13]),
    Len14([T; 14]),
    Len15([T; 15]),
    Len16([T; 16]),
    Len17([T; 17]),
    Len18([T; 18]),
    Len19([T; 19]),
    Len20([T; 20]),
    Len21([T; 21]),
    Len22([T; 22]),
    Len23([T; 23]),
}

impl<T> MonomorphizedArray<T> {
    /// The elements of the array.
    pub open spec fn elements(self) -> Seq<T> {
        match self {
            MonomorphizedArray::Len0(a) => a@,
            MonomorphizedArray::Len1(a) => a@,
            MonomorphizedArray::Len2(a) => a@,
            MonomorphizedArray::Len3(a) => a@,
            MonomorphizedArray::Len4(a) => a@,
            MonomorphizedArray::Len5(a) => a@,
            MonomorphizedArray::Len6(a) => a@,
            MonomorphizedArray::Len7(a) => a@,
            MonomorphizedArray::Len8(a) => a@,
            MonomorphizedArray::Len9(a) => a@,
            MonomorphizedArray::Len10(a) => a@,
            MonomorphizedArray::Len11(a) => a@,
            MonomorphizedArray::Len12(a) => a@,
            MonomorphizedArray::Len13(a) => a@,
            MonomorphizedArray::Len14(a) => a@,
            MonomorphizedArray::Len15(a) => a@,
            MonomorphizedArray::Len16(a) => a@,
            MonomorphizedArray::Len17(a) => a@,
            MonomorphizedArray::Len18(a) => a@,
            MonomorphizedArray::Len19(a) => a@,
            MonomorphizedArray::Len20(a) => a@,
            MonomorphizedArray::Len21(a) => a@,
            MonomorphizedArray::Len22(a) => a@,
            MonomorphizedArray::Len23(a) => a@,
        }
    }

    /// The elements of the array, as a slice.
    pub fn as_slice(&self) -> (slice: &[T])
        ensures
            slice@ == self.elements(),
            slice@.len() <= 23,
    {
        match self {
            MonomorphizedArray::Len0(a) => a.as_slice(),
            MonomorphizedArray::Len1(a) => a.as_slice(),
            MonomorphizedArray::Len2(a) => a.as_slice(),
            MonomorphizedArray::Len3(a) => a.as_slice(),
            MonomorphizedArray::Len4(a) => a.as_slice(),
            MonomorphizedArray::Len5(a) => a.as_slice(),
            MonomorphizedArray::Len6(a) => a.as_slice(),
            MonomorphizedArray::Len7(a) => a.as_slice(),
            MonomorphizedArray::Len8(a) => a.as_slice(),
            MonomorphizedArray::Len9(a) => a.as_slice(),
            MonomorphizedArray::Len10(a) => a.as_slice(),
            MonomorphizedArray::Len11(a) => a.as_slice(),
            MonomorphizedArray::Len12(a) => a.as_slice(),
            MonomorphizedArray::Len13(a) => a.as_slice(),
            MonomorphizedArray::Len14(a) => a.as_slice(),
            MonomorphizedArray::Len15(a) => a.as_slice(),
            MonomorphizedArray::Len16(a) => a.as_slice(),
            MonomorphizedArray::Len17(a) => a.as_slice(),
            MonomorphizedArray::Len18(a) => a.as_slice(),
            MonomorphizedArray::Len19(a) => a.as_slice(),
            MonomorphizedArray::Len20(a) => a.as_slice(),
            MonomorphizedArray::Len21(a) => a.as_slice(),
            MonomorphizedArray::Len22(a) => a.as_slice(),
            MonomorphizedArray::Len23(a) => a.as_slice(),
        }
    }
}

/// The elements of `elements` as an array of their number, where they are 23
/// at most.
pub fn monomorphize<T>(elements: Vec<T>) -> (array: Option<MonomorphizedArray<T>>)
    ensures
        array is Some <==> elements@.len() <= 23,
        array matches Some(a) ==> a.elements() == elements@,
{
    let len = elements.len();
    if len == 0 {
        Some(MonomorphizedArray::Len0(array_of_vec(elements).unwrap()))
    } else if len == 1 {
        Some(MonomorphizedArray::Len1(array_of_vec(elements).unwrap()))
    } else if len == 2 {
        Some(MonomorphizedArray::Len2(array_of_vec(elements).unwrap()))
    } else if len == 3 {
        Some(MonomorphizedArray::Len3(array_of_vec(elements).unwrap()))
    } else if len == 4 {
        Some(MonomorphizedArray::Len4(array_of_vec(elements).unwrap()))
    } else if len == 5 {
        Some(MonomorphizedArray::Len5(array_of_vec(elements).unwrap()))
    } else if len == 6 {
        Some(MonomorphizedArray::Len6(array_of_vec(elements).unwrap()))
    } else if len == 7 {
        Some(MonomorphizedArray::Len7(array_of_vec(elements).unwrap()))
    } else if len == 8 {
        Some(MonomorphizedArray::Len8(array_of_vec(elements).unwrap()))
    } else if len == 9 {
        Some(MonomorphizedArray::Len9(array_of_vec(elements).unwrap()))
    } else if len == 10 {
        Some(MonomorphizedArray::Len10(array_of_vec(elements).unwrap()))
    } else if len == 11 {
        Some(MonomorphizedArray::Len11(array_of_vec(elements).unwrap()))
    } else if len == 12 {
        Some(MonomorphizedArray::Len12(array_of_vec(elements).unwrap()))
    } else if len == 13 {
        Some(MonomorphizedArray::Len13(array_of_vec(elements).unwrap()))
    } else if len == 14 {
        Some(MonomorphizedArray::Len14(array_of_vec(elements).unwrap()))
    } else if len == 15 {
        Some(MonomorphizedArray::Len15(array_of_vec(elements).unwrap()))
    } else if len == 16 {
        Some(MonomorphizedArray::Len16(array_of_vec(elements).unwrap()))
    } else if len == 17 {
        Some(MonomorphizedArray::Len17(array_of_vec(elements).unwrap()))
    } else if len == 18 {
        Some(MonomorphizedArray::Len18(array_of_vec(elements).unwrap()))
    } else if len == 19 {
        Some(MonomorphizedArray::Len19(array_of_vec(elements).unwrap()))
    } else if len == 20 {
        Some(MonomorphizedArray::Len20(array_of_vec(elements).unwrap()))
    } else if len == 21 {
        Some(MonomorphizedArray::Len21(array_of_vec(elements).unwrap()))
    } else if len == 22 {
        Some(MonomorphizedArray::Len22(array_of_vec(elements).unwrap()))
    } else if len == 23 {
        Some(MonomorphizedArray::Len23(array_of_vec(elements).unwrap()))
    } else {
        None
    }
}

} // verus!
