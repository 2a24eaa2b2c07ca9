//! Query configuration for listing the finished history: sort order,
//! pagination window and optional date filter.

use vstd::prelude::*;

use crate::dates::ListFilter;
use crate::entities::TimeBox;

verus! {

/// Sort direction over the boxes' start instants.
#[derive(Clone, Copy, PartialEq, Eq, Structural, Debug)]
pub enum SortOrder {
    Ascending,
    Descending,
}

/// One query's configuration: drop `skip` items, keep at most `take`,
/// after sorting in `order` and keeping only what `filter` selects.
#[derive(Clone, Copy, PartialEq, Eq, Structural, Debug)]
pub struct ListOptions {
    pub skip: usize,
    pub take: usize,
    pub order: SortOrder,
    pub filter: Option<ListFilter>,
}

impl ListOptions {
    /// The default window: newest first, first 25 items, no filter.
    pub fn new() -> (r: Self)
        ensures
            r == (ListOptions { skip: 0, take: 25, order: SortOrder::Descending, filter: None }),
    {
        ListOptions { skip: 0, take: 25, order: SortOrder::Descending, filter: None }
    }

    /// Replaces how many leading items are dropped.
    pub fn skip(self, skip: usize) -> (r: Self)
        ensures
            r == (ListOptions { skip, ..self }),
    {
        ListOptions { skip, ..self }
    }

    /// Replaces how many items are kept at most.
    pub fn take(self, take: usize) -> (r: Self)
        ensures
            r == (ListOptions { take, ..self }),
    {
        ListOptions { take, ..self }
    }

    /// Replaces the sort direction.
    pub fn order(self, order: SortOrder) -> (r: Self)
        ensures
            r == (ListOptions { order, ..self }),
    {
        ListOptions { order, ..self }
    }

    /// Points the window at page `page` of size `page_size`.
    pub fn page(self, page: usize, page_size: usize) -> (r: Self)
        requires
            page * page_size <= usize::MAX,
        ensures
            r == (ListOptions { skip: (page * page_size) as usize, take: page_size, ..self }),
    {
        ListOptions { skip: page * page_size, take: page_size, ..self }
    }

    /// Replaces the date filter.
    pub fn filter(self, filter: ListFilter) -> (r: Self)
        ensures
            r == (ListOptions { filter: Some(filter), ..self }),
    {
        ListOptions { filter: Some(filter), ..self }
    }
}

impl Default for ListOptions {
    fn default() -> (r: Self)
        ensures
            r == (ListOptions { skip: 0, take: 25, order: SortOrder::Descending, filter: None }),
    {
        ListOptions::new()
    }
}

/// What one query returns: the page of items, and the count of all
/// finished boxes independent of filter and pagination.
#[derive(Debug)]
pub struct ListResult {
    pub total: usize,
    pub items: Vec<TimeBox>,
}

} // verus!
