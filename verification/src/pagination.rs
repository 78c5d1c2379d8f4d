//! Pagination arithmetic: page counts and the window of item positions that
//! a page request selects.

use vstd::arithmetic::div_mod::{lemma_fundamental_div_mod, lemma_fundamental_div_mod_converse};
use vstd::prelude::*;

verus! {

/// A page request: 1-based page number and page size.
#[derive(Clone, Copy, Debug, PartialEq, Eq, Structural)]
pub struct Pagination {
    pub page: usize,
    pub per_page: usize,
}

impl Default for Pagination {
    /// The default window: the first page, fifty items per page.
    fn default() -> (r: Self)
        ensures
            r.page == 1,
            r.per_page == 50,
    {
        Pagination { page: 1, per_page: 50 }
    }
}

/// Number of pages needed to hold `total` items at `per_page` each:
/// the ceiling of `total / per_page`, and 0 when `per_page` is 0.
pub open spec fn spec_pages(total: int, per_page: int) -> int {
    if per_page <= 0 {
        0
    } else {
        (total + per_page - 1) / per_page
    }
}

/// First item position of the requested page, clamped to `total`.
/// Page numbers are 1-based; a page number of 0 is read as page 1.
pub open spec fn spec_window_start(total: int, page: int, per_page: int) -> int {
    let first = if page <= 1 {
        0
    } else {
        (page - 1) * per_page
    };
    if first > total {
        total
    } else {
        first
    }
}

/// Number of items on the requested page: `per_page`, or fewer on the
/// last page.
pub open spec fn spec_window_len(total: int, page: int, per_page: int) -> int {
    let start = spec_window_start(total, page, per_page);
    if per_page > total - start {
        total - start
    } else {
        per_page
    }
}

/// One page of items out of a larger result set, together with the
/// bookkeeping the caller needs to render further page links.
pub struct PagedResult<T> {
    pub items: Vec<T>,
    pub total: usize,
    pub page: usize,
    pub per_page: usize,
    pub pages: usize,
    pub time_ms: u128,
}

impl<T> PagedResult<T> {
    /// Wraps one page of `items` with its request and the page count for
    /// `total` items, which is the ceiling of `total / per_page`.
    pub fn new(items: Vec<T>, total: usize, pagination: &Pagination, time_ms: u128) -> (r: Self)
        ensures
            r.items == items,
            r.total == total,
            r.page == pagination.page,
            r.per_page == pagination.per_page,
            r.pages == spec_pages(total as int, pagination.per_page as int),
            r.time_ms == time_ms,
    {
        let pages = if pagination.per_page > 0 {
            let q = total / pagination.per_page;
            let rem = total % pagination.per_page;
            proof {
                let t = total as int;
                let pp = pagination.per_page as int;
                lemma_fundamental_div_mod(t, pp);
                assert(pp * (q as int) == (q as int) * pp) by (nonlinear_arith);
                if rem == 0 {
                    lemma_fundamental_div_mod_converse(t + pp - 1, pp, q as int, pp - 1);
                } else {
                    assert(pp * (q as int) >= q as int) by (nonlinear_arith)
                        requires pp >= 1 && q >= 0;
                    assert((q as int + 1) * pp == (q as int) * pp + pp) by (nonlinear_arith);
                    lemma_fundamental_div_mod_converse(t + pp - 1, pp, q as int + 1, rem - 1);
                }
            }
            if rem > 0 {
                q + 1
            } else {
                q
            }
        } else {
            0
        };
        PagedResult {
            items,
            total,
            page: pagination.page,
            per_page: pagination.per_page,
            pages,
            time_ms,
        }
    }
}

/// Computes the window of item positions selected by `pagination` out of
/// `total` items: the start position and the number of items on the page.
pub fn page_window(total: usize, pagination: &Pagination) -> (r: (usize, usize))
    ensures
        r.0 == spec_window_start(total as int, pagination.page as int, pagination.per_page as int),
        r.1 == spec_window_len(total as int, pagination.page as int, pagination.per_page as int),
        r.0 + r.1 <= total,
{
    let start = if pagination.page <= 1 {
        0
    } else {
        match (pagination.page - 1).checked_mul(pagination.per_page) {
            Some(first) => {
                if first > total {
                    total
                } else {
                    first
                }
            },
            None => total,
        }
    };
    let remaining = total - start;
    let len = if pagination.per_page > remaining {
        remaining
    } else {
        pagination.per_page
    };
    (start, len)
}

} // verus!
