//! Readers-writer locks.
//!
//! The lock is the one of the `spin` crate. What a lock holds at some moment depends on what all
//! threads do with it, so nothing is claimed here of the value that a guard gives access to:
//! what callers know of it is what its type guarantees of all its values.

use vstd::prelude::*;

verus! {

/// The lock of the `spin` crate.
#[verifier::external_type_specification]
#[verifier::external_body]
#[verifier::reject_recursive_types(T)]
#[verifier::reject_recursive_types(R)]
pub struct ExRwLock<T: ?Sized, R>(spin::rwlock::RwLock<T, R>);

/// The guard of a reader.
#[verifier::external_type_specification]
#[verifier::external_body]
#[verifier::reject_recursive_types(T)]
#[verifier::reject_recursive_types(R)]
pub struct ExRwLockReadGuard<'a, T: 'a + ?Sized, R>(spin::rwlock::RwLockReadGuard<'a, T, R>);

/// The guard of a writer.
#[verifier::external_type_specification]
#[verifier::external_body]
#[verifier::reject_recursive_types(T)]
#[verifier::reject_recursive_types(R)]
pub struct ExRwLockWriteGuard<'a, T: 'a + ?Sized, R>(spin::rwlock::RwLockWriteGuard<'a, T, R>);

/// The way in which the lock waits.
#[verifier::external_type_specification]
#[verifier::external_body]
pub struct ExSpin(spin::relax::Spin);

/// A lock that holds `value`. This is `spin::RwLock::new`. Nothing is claimed of the lock: what it
/// holds is not part of its value.
#[verifier::external_body]
pub(crate) fn new_lock<T>(value: T) -> (lock: spin::RwLock<T>) {
    spin::RwLock::new(value)
}

/// Waits until there is no writer, and keeps writers away. This is `spin::RwLock::read`. Nothing is
/// claimed of the guard: what the lock holds by now depends on other threads.
#[verifier::external_body]
pub(crate) fn lock_for_reading<T>(lock: &spin::RwLock<T>) -> (guard: spin::RwLockReadGuard<'_, T>) {
    lock.read()
}

/// Waits until there are no readers and no writer, and keeps both away. This is
/// `spin::RwLock::write`. Nothing is claimed of the guard: what the lock holds by now depends on
/// other threads.
#[verifier::external_body]
pub(crate) fn lock_for_writing<T>(
    lock: &spin::RwLock<T>,
) -> (guard: spin::RwLockWriteGuard<'_, T>) {
    lock.write()
}

/// The value that a reader's guard gives access to. This is the `Deref` of
/// `spin::RwLockReadGuard`. Nothing is claimed of the value beyond what its type guarantees.
#[verifier::external_body]
pub(crate) fn shared<'b, 'a, T>(guard: &'b spin::RwLockReadGuard<'a, T>) -> (value: &'b T) {
    &**guard
}

/// The value that a writer's guard gives access to. This is the `DerefMut` of
/// `spin::RwLockWriteGuard`. Nothing is claimed of the value beyond what its type guarantees.
#[verifier::external_body]
pub(crate) fn exclusive<'b, 'a, T>(
    guard: &'b mut spin::RwLockWriteGuard<'a, T>,
) -> (value: &'b mut T) {
    &mut **guard
}

} // verus!
