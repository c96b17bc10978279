//! Pages of a long list.

use vstd::prelude::*;
use vstd::std_specs::convert::FromSpecImpl;

verus! {

/// The page shown where none is asked for.
pub const DEFAULT_PAGE: usize = 1;

/// The number of items on a page where none is asked for.
pub const DEFAULT_PER_PAGE: usize = 50;

/// A page as a request may name it: either part may be missing.
#[derive(Debug, Copy, Clone, Eq, PartialEq)]
pub struct OptionalPaging {
    pub page: Option<usize>,
    pub per_page: Option<usize>,
}

/// A page of a list: its number, counted from one, and the number of
/// items on each page.
#[derive(Debug, Copy, Clone, Eq, PartialEq, PartialOrd, Ord)]
pub struct Paging {
    pub page: usize,
    pub per_page: usize,
}

impl Default for Paging {
    fn default() -> (paging: Paging)
        ensures
            paging == (Paging { page: DEFAULT_PAGE, per_page: DEFAULT_PER_PAGE }),
    {
        Paging { page: DEFAULT_PAGE, per_page: DEFAULT_PER_PAGE }
    }
}

impl From<OptionalPaging> for Paging {
    fn from(paging: OptionalPaging) -> (filled: Paging) {
        Paging {
            page: match paging.page {
                Some(page) => page,
                None => DEFAULT_PAGE,
            },
            per_page: match paging.per_page {
                Some(per_page) => per_page,
                None => DEFAULT_PER_PAGE,
            },
        }
    }
}

impl FromSpecImpl<OptionalPaging> for Paging {
    open spec fn obeys_from_spec() -> bool {
        true
    }

    /// Every part that is missing takes its default.
    open spec fn from_spec(paging: OptionalPaging) -> Paging {
        Paging {
            page: match paging.page {
                Some(page) => page,
                None => DEFAULT_PAGE,
            },
            per_page: match paging.per_page {
                Some(per_page) => per_page,
                None => DEFAULT_PER_PAGE,
            },
        }
    }
}

/// The number of items that stand before page `page`. Page zero is taken
/// as page one.
pub open spec fn offset_of(page: int, per_page: int) -> int {
    if page <= 1 {
        0
    } else {
        (page - 1) * per_page
    }
}

/// The number of pages that `total` items fill, the last of them perhaps
/// only in part.
pub open spec fn pages_of(total: int, per_page: int) -> int
    recommends
        per_page > 0,
{
    (total + per_page - 1) / per_page
}

/// What the controls under a paged list show.
#[derive(Debug, Copy, Clone, Eq, PartialEq)]
pub struct PagingControls {
    /// The number of the last page.
    pub last_page: usize,
    /// The page that "previous" leads to.
    pub prev_page: usize,
    /// The page that "next" leads to.
    pub next_page: usize,
    /// Whether "first" and "previous" are switched off.
    pub at_first: bool,
    /// Whether "next" and "last" are switched off.
    pub at_last: bool,
}

impl Paging {
    /// The number of items that stand before this page.
    pub fn offset(&self) -> (offset: usize)
        requires
            offset_of(self.page as int, self.per_page as int) <= usize::MAX,
        ensures
            offset == offset_of(self.page as int, self.per_page as int),
    {
        if self.page <= 1 {
            0
        } else {
            (self.page - 1) * self.per_page
        }
    }

    /// The number of the last page of a list of `total` items.
    pub fn last_page(&self, total: usize) -> (last: usize)
        requires
            self.per_page > 0,
            total + self.per_page <= usize::MAX,
        ensures
            last == pages_of(total as int, self.per_page as int),
            last * self.per_page >= total,
            total > 0 ==> (last - 1) * self.per_page < total,
            total == 0 ==> last == 0,
    {
        let last = (total + self.per_page - 1) / self.per_page;
        proof {
            lemma_pages_of(total as int, self.per_page as int);
        }
        last
    }

    /// The part of a sorted list of `total` items that this page shows:
    /// the index of its first item and the index behind its last.
    pub fn window(&self, total: usize) -> (bounds: (usize, usize))
        requires
            offset_of(self.page as int, self.per_page as int) <= usize::MAX,
        ensures
            bounds.0 <= bounds.1 <= total,
            bounds.0 == vstd::math::min(offset_of(self.page as int, self.per_page as int), total as int),
            bounds.1 == vstd::math::min(bounds.0 + self.per_page, total as int),
    {
        let offset = self.offset();
        let start = if offset < total {
            offset
        } else {
            total
        };
        let end = if self.per_page < total - start {
            start + self.per_page
        } else {
            total
        };
        (start, end)
    }
}

/// The number of pages is the least that holds all items.
pub proof fn lemma_pages_of(total: int, per_page: int)
    requires
        total >= 0,
        per_page > 0,
    ensures
        pages_of(total, per_page) * per_page >= total,
        total > 0 ==> (pages_of(total, per_page) - 1) * per_page < total,
        total == 0 ==> pages_of(total, per_page) == 0,
{
    let pages = pages_of(total, per_page);
    let rest = (total + per_page - 1) % per_page;
    assert(total + per_page - 1 == per_page * pages + rest && 0 <= rest < per_page) by {
        vstd::arithmetic::div_mod::lemma_fundamental_div_mod(total + per_page - 1, per_page);
        vstd::arithmetic::div_mod::lemma_mod_bound(total + per_page - 1, per_page);
    }
    assert(pages * per_page == per_page * pages) by (nonlinear_arith);
    assert((pages - 1) * per_page == pages * per_page - per_page) by (nonlinear_arith);
    if total == 0 {
        assert(pages == 0) by (nonlinear_arith)
            requires
                per_page - 1 == per_page * pages + rest,
                0 <= rest < per_page,
        ;
    }
}

/// Works out what the controls under a paged list of `total_items` items
/// show while `paging` is the page on display.
pub fn paging_controls(paging: Paging, total_items: usize) -> (controls: PagingControls)
    requires
        paging.per_page > 0,
        paging.page < usize::MAX,
        total_items + paging.per_page <= usize::MAX,
    ensures
        controls.last_page == pages_of(total_items as int, paging.per_page as int),
        controls.prev_page == vstd::math::max(paging.page - 1, 1),
        controls.next_page == vstd::math::min(paging.page + 1, controls.last_page as int),
        controls.at_first == (paging.page == 1),
        controls.at_last == (paging.page == controls.last_page),
{
    let last_page = paging.last_page(total_items);
    let prev_page = if paging.page > 2 {
        paging.page - 1
    } else {
        1
    };
    let next_page = if paging.page + 1 < last_page {
        paging.page + 1
    } else {
        last_page
    };
    PagingControls {
        last_page,
        prev_page,
        next_page,
        at_first: paging.page == 1,
        at_last: paging.page == last_page,
    }
}

} // verus!
