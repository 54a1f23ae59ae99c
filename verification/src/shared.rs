//! A value that one part of the program replaces while others read it.

use crate::config::{BudgetLimit, ParsedConfig, PolicyConfig, TenantLimits};
use arc_swap::ArcSwap;
use std::sync::Arc;
use vstd::prelude::*;

verus! {

/// An `arc_swap::ArcSwap`, which holds one value behind a pointer that is read
/// and replaced atomically. Other threads may replace the value between any two
/// reads, so nothing is said of what it holds at a given moment.
#[verifier::external_body]
#[verifier::reject_recursive_types(T)]
pub struct SwapCell<T> {
    inner: ArcSwap<T>,
}

/// The budgets that a cell holds at one time or another. A cell stands for one
/// place, whatever is in it, so this does not change as its value is replaced.
pub uninterp spec fn limits_held(cell: SwapCell<TenantLimits>) -> Set<Map<Seq<char>, BudgetLimit>>;

/// The configurations that a cell holds at one time or another.
pub uninterp spec fn configs_held(cell: SwapCell<ParsedConfig>) -> Set<
    (Map<Seq<char>, BudgetLimit>, Map<Seq<char>, PolicyConfig>),
>;

/// Calls `ArcSwap::from_pointee`, which makes a cell that holds `limits`, until
/// another value is stored in it.
#[verifier::external_body]
fn hold_limits(limits: TenantLimits) -> (cell: SwapCell<TenantLimits>)
    ensures
        limits_held(cell).contains(limits@),
{
    SwapCell { inner: ArcSwap::from_pointee(limits) }
}

/// Calls `ArcSwap::from_pointee`, which makes a cell that holds `config`, until
/// another value is stored in it.
#[verifier::external_body]
fn hold_config(config: ParsedConfig) -> (cell: SwapCell<ParsedConfig>)
    ensures
        configs_held(cell).contains(config@),
{
    SwapCell { inner: ArcSwap::from_pointee(config) }
}

/// Calls `ArcSwap::load_full`, which returns the value that the cell holds at that
/// moment: one of those that it holds at one time or another. Which of them depends
/// on the other threads, so that is not said.
#[verifier::external_body]
fn read_limits(cell: &SwapCell<TenantLimits>) -> (limits: Arc<TenantLimits>)
    ensures
        limits_held(*cell).contains(limits@),
{
    cell.inner.load_full()
}

/// Calls `ArcSwap::load_full`, as `read_limits` does.
#[verifier::external_body]
fn read_config(cell: &SwapCell<ParsedConfig>) -> (config: Arc<ParsedConfig>)
    ensures
        configs_held(*cell).contains(config@),
{
    cell.inner.load_full()
}

/// Calls `ArcSwap::swap`, which puts `limits` into the cell and returns what the
/// cell held before: both are among the values that it holds at one time or another.
#[verifier::external_body]
fn swap_limits(cell: &SwapCell<TenantLimits>, limits: Arc<TenantLimits>) -> (before: Arc<
    TenantLimits,
>)
    ensures
        set![before@, limits@].subset_of(limits_held(*cell)),
{
    cell.inner.swap(limits)
}

/// Calls `ArcSwap::swap`, as `swap_limits` does.
#[verifier::external_body]
fn swap_config(cell: &SwapCell<ParsedConfig>, config: Arc<ParsedConfig>) -> (before: Arc<
    ParsedConfig,
>)
    ensures
        set![before@, config@].subset_of(configs_held(*cell)),
{
    cell.inner.swap(config)
}

/// What is read and replaced in a cell.
pub trait Shareable: View + Sized {
    /// The values that a cell holds at one time or another.
    spec fn held_in(cell: SwapCell<Self>) -> Set<Self::V>;

    /// A cell that holds the value.
    fn into_cell(self) -> (cell: SwapCell<Self>)
        ensures
            Self::held_in(cell).contains(self@),
    ;

    /// The value that a cell holds at the moment.
    fn read(cell: &SwapCell<Self>) -> (value: Arc<Self>)
        ensures
            Self::held_in(*cell).contains(value@),
    ;

    /// Puts a value into a cell, in place of the one that is returned.
    fn replace(cell: &SwapCell<Self>, value: Arc<Self>) -> (before: Arc<Self>)
        ensures
            Self::held_in(*cell).contains(value@),
            Self::held_in(*cell).contains(before@),
    ;
}

impl Shareable for TenantLimits {
    open spec fn held_in(cell: SwapCell<Self>) -> Set<Self::V> {
        limits_held(cell)
    }

    fn into_cell(self) -> (cell: SwapCell<Self>) {
        hold_limits(self)
    }

    fn read(cell: &SwapCell<Self>) -> (value: Arc<Self>) {
        read_limits(cell)
    }

    fn replace(cell: &SwapCell<Self>, value: Arc<Self>) -> (before: Arc<Self>) {
        let before = swap_limits(cell, value);
        assert(set![before@, value@].contains(before@));
        assert(set![before@, value@].contains(value@));
        before
    }
}

impl Shareable for ParsedConfig {
    open spec fn held_in(cell: SwapCell<Self>) -> Set<Self::V> {
        configs_held(cell)
    }

    fn into_cell(self) -> (cell: SwapCell<Self>) {
        hold_config(self)
    }

    fn read(cell: &SwapCell<Self>) -> (value: Arc<Self>) {
        read_config(cell)
    }

    fn replace(cell: &SwapCell<Self>, value: Arc<Self>) -> (before: Arc<Self>) {
        let before = swap_config(cell, value);
        assert(set![before@, value@].contains(before@));
        assert(set![before@, value@].contains(value@));
        before
    }
}

impl<T: Shareable> SwapCell<T> {
    /// The value that the cell holds at the moment. Another thread may replace it
    /// at any time.
    pub fn load(&self) -> (value: Arc<T>)
        ensures
            T::held_in(*self).contains(value@),
    {
        T::read(self)
    }

    /// Puts `value` into the cell, in place of the one that it holds.
    pub fn store(&self, value: Arc<T>)
        ensures
            T::held_in(*self).contains(value@),
    {
        let _ = T::replace(self, value);
    }
}

/// A value to be read and replaced by several owners.
pub fn share<T: Shareable>(value: T) -> (cell: Arc<SwapCell<T>>)
    ensures
        T::held_in(*cell).contains(value@),
{
    Arc::new(value.into_cell())
}

} // verus!
