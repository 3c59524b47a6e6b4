//! Paging through the stored point sets.
use vstd::prelude::*;

verus! {

/// The fields a client sends to create or rename a point set.
pub struct TspSetForm {
    pub label: String,
}

/// One page of items with the numbers that locate it among all pages.
pub struct PaginationResult<T> {
    pub items: Vec<T>,
    pub total_items: i64,
    /// 0-based index
    pub page: i64,
    pub page_size: i64,
    pub num_pages: i64,
}

/// The page size actually used: at least 1.
pub open spec fn effective_page_size_spec(page_size: i64) -> i64 {
    if page_size < 1 { 1 } else { page_size }
}

/// Quotient of `a / b` rounded toward zero.
pub open spec fn trunc_div(a: int, b: int) -> int {
    if a >= 0 { a / b } else { -((-a) / b) }
}

/// Remainder of `a / b` with the sign of `a`.
pub open spec fn trunc_rem(a: int, b: int) -> int {
    if a >= 0 { a % b } else { -((-a) % b) }
}

/// Number of pages: the quotient of the item count by the page size,
/// plus one when a partial page remains (the ceiling for counts of items).
pub open spec fn page_count_spec(total_items: int, page_size: int) -> int {
    trunc_div(total_items, page_size) + if trunc_rem(total_items, page_size) != 0 { 1int } else { 0int }
}

/// The page count is the least number of pages of `page_size` items that
/// holds all the items (no page for no items); for a negative count it is the
/// quotient rounded toward zero, plus one when the division leaves a
/// remainder.
pub proof fn lemma_page_count_laws(total_items: int, page_size: int)
    requires
        page_size >= 1,
    ensures
        total_items >= 0 ==> page_count_spec(total_items, page_size) >= 0,
        total_items >= 0 ==> page_count_spec(total_items, page_size) * page_size >= total_items,
        total_items >= 0 && page_count_spec(total_items, page_size) > 0 ==> (page_count_spec(total_items, page_size) - 1) * page_size < total_items,
        total_items < 0 && total_items % page_size == 0 ==> page_count_spec(total_items, page_size) * page_size == total_items,
        total_items < 0 && total_items % page_size != 0 ==> (page_count_spec(total_items, page_size) - 1) * page_size > total_items
            && (page_count_spec(total_items, page_size) - 2) * page_size < total_items,
{
    let c = page_count_spec(total_items, page_size);
    if total_items >= 0 {
        let q = total_items / page_size;
        let r = total_items % page_size;
        assert(total_items == q * page_size + r && 0 <= r < page_size && q >= 0) by (nonlinear_arith)
            requires
                q == total_items / page_size,
                r == total_items % page_size,
                total_items >= 0,
                page_size >= 1,
        ;
        if r != 0 {
            assert(c == q + 1);
            assert(c * page_size >= total_items && (c - 1) * page_size < total_items) by (nonlinear_arith)
                requires
                    c == q + 1,
                    total_items == q * page_size + r,
                    0 < r < page_size,
            ;
        } else {
            assert(c == q);
            assert(c * page_size >= total_items && (c > 0 ==> (c - 1) * page_size < total_items)) by (nonlinear_arith)
                requires
                    c == q,
                    total_items == q * page_size,
                    page_size >= 1,
                    q >= 0,
            ;
        }
    } else {
        let m = -total_items;
        let q = m / page_size;
        let r = m % page_size;
        assert(m == q * page_size + r && 0 <= r < page_size && q >= 0) by (nonlinear_arith)
            requires
                q == m / page_size,
                r == m % page_size,
                m > 0,
                page_size >= 1,
        ;
        if r == 0 {
            assert(total_items == (-q) * page_size + 0) by (nonlinear_arith)
                requires
                    m == q * page_size + r,
                    r == 0,
                    total_items == -m,
            ;
            vstd::arithmetic::div_mod::lemma_fundamental_div_mod_converse(total_items, page_size, -q, 0);
        } else {
            assert(total_items == (-q - 1) * page_size + (page_size - r)) by (nonlinear_arith)
                requires
                    m == q * page_size + r,
                    total_items == -m,
            ;
            vstd::arithmetic::div_mod::lemma_fundamental_div_mod_converse(
                total_items,
                page_size,
                -q - 1,
                page_size - r,
            );
        }
        if r != 0 {
            assert(c == -q + 1);
            assert((c - 1) * page_size > total_items && (c - 2) * page_size < total_items) by (nonlinear_arith)
                requires
                    c == -q + 1,
                    total_items == -(q * page_size + r),
                    0 < r < page_size,
            ;
        } else {
            assert(c == -q);
            assert(c * page_size == total_items) by (nonlinear_arith)
                requires
                    c == -q,
                    total_items == -(q * page_size),
            ;
        }
    }
}

/// The page size actually used: requests below 1 use 1.
pub fn effective_page_size(page_size: i64) -> (size: i64)
    ensures
        size == effective_page_size_spec(page_size),
        size >= 1,
{
    if page_size < 1 {
        1
    } else {
        page_size
    }
}

/// Offset of the first item of `page`.
pub fn page_offset(page: i64, page_size: i64) -> (offset: i64)
    requires
        i64::MIN <= page * page_size <= i64::MAX,
    ensures
        offset == page * page_size,
{
    page * page_size
}

/// Number of pages holding `total_items` items, `page_size` to a page.
pub fn page_count(total_items: i64, page_size: i64) -> (pages: i64)
    requires
        page_size >= 1,
    ensures
        pages == page_count_spec(total_items as int, page_size as int),
        total_items >= 0 ==> pages >= 0 && pages * page_size >= total_items && (pages > 0 ==> (pages - 1)
            * page_size < total_items),
        total_items < 0 && total_items % page_size == 0 ==> pages * page_size == total_items,
        total_items < 0 && total_items % page_size != 0 ==> (pages - 1) * page_size > total_items
            && (pages - 2) * page_size < total_items,
{
    let quotient = total_items / page_size;
    let remainder = total_items % page_size;
    if remainder != 0 {
        assert(quotient < i64::MAX) by (nonlinear_arith)
            requires
                quotient == trunc_div(total_items as int, page_size as int),
                remainder == trunc_rem(total_items as int, page_size as int),
                remainder != 0,
                page_size >= 1,
                total_items <= i64::MAX,
        ;
    }
    let pages = quotient + if remainder != 0 { 1 } else { 0 };
    proof {
        lemma_page_count_laws(total_items as int, page_size as int);
    }
    pages
}

impl<T> PaginationResult<T> {
    /// Assembles a page loaded with `page_size` items to a page, counting the
    /// pages that hold `total_items` items.
    pub fn new(items: Vec<T>, total_items: i64, page: i64, page_size: i64) -> (r: Self)
        requires
            page_size >= 1,
        ensures
            r.items@ == items@,
            r.total_items == total_items,
            r.page == page,
            r.page_size == page_size,
            r.num_pages == page_count_spec(total_items as int, page_size as int),
            total_items >= 0 ==> r.num_pages >= 0 && r.num_pages * page_size >= total_items && (r.num_pages
                > 0 ==> (r.num_pages - 1) * page_size < total_items),
    {
        let num_pages = page_count(total_items, page_size);
        PaginationResult { items, total_items, page, page_size, num_pages }
    }
}

} // verus!
