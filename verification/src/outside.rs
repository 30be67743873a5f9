use core::sync::atomic::AtomicUsize;
use crossbeam::atomic::AtomicCell;
use crossbeam::utils::CachePadded;
use vstd::prelude::*;

verus! {

/// `crossbeam::utils::CachePadded`: a value on a cache line of its own.
#[verifier::external_type_specification]
#[verifier::external_body]
#[verifier::reject_recursive_types(T)]
pub struct ExCachePadded<T>(CachePadded<T>);

/// `crossbeam::atomic::AtomicCell`: a value that threads replace one after the other.
#[verifier::external_type_specification]
#[verifier::external_body]
#[verifier::reject_recursive_types(T)]
pub struct ExAtomicCell<T>(AtomicCell<T>);

/// The word that a padded word holds.
pub uninterp spec fn padded_word(padded: CachePadded<AtomicUsize>) -> AtomicUsize;

/// `CachePadded::new`: puts a word on a cache line of its own. The padded word holds that word.
#[verifier::external_body]
pub(crate) fn pad(word: AtomicUsize) -> (padded: CachePadded<AtomicUsize>)
    ensures
        padded_word(padded) == word,
{
    CachePadded::new(word)
}

/// `CachePadded::deref`: the word that a padded word holds.
#[verifier::external_body]
pub(crate) fn unpad(padded: &CachePadded<AtomicUsize>) -> (word: &AtomicUsize)
    ensures
        *word == padded_word(*padded),
{
    core::ops::Deref::deref(padded)
}

/// `AtomicCell::new`: a cell that starts out with `val`. Nothing is claimed of what the cell holds
/// later: any thread may replace it at any time.
pub assume_specification<T>[ AtomicCell::<T>::new ](val: T) -> AtomicCell<T>;

/// `AtomicCell::swap`: puts `val` into the cell and returns what was there before, which another
/// thread may have put in; nothing is claimed of it.
pub assume_specification<T>[ AtomicCell::<T>::swap ](cell: &AtomicCell<T>, val: T) -> T;

/// `core::hint::spin_loop`: tells the processor that the thread is waiting. It returns nothing, and
/// nothing is claimed of it.
pub assume_specification[ core::hint::spin_loop ]();

} // verus!
