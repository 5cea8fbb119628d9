//! Paging of the bank map and of the hex preview.
use vstd::prelude::*;

verus! {

/// Rows of banks on one page of the bank map.
pub const BANK_MAP_ROWS: usize = 4;

/// Bytes shown on one page of the hex preview.
pub const HEX_PREVIEW_BYTES: usize = 512;

/// Banks per row of the bank map: 4 for small images, else 12.
pub open spec fn map_columns(bank_count: int) -> int {
    if bank_count <= 4 {
        4
    } else {
        12
    }
}

/// Number of pages of the bank map: enough for every bank, and at least one.
pub open spec fn map_pages(bank_count: int) -> int {
    let per_page = map_columns(bank_count) * BANK_MAP_ROWS;
    let pages = bank_count / per_page + if bank_count % per_page == 0 {
        0int
    } else {
        1int
    };
    if pages < 1 {
        1
    } else {
        pages
    }
}

/// One page of the bank map.
#[derive(Clone, Copy, Debug, PartialEq, Eq, Structural)]
pub struct MapPage {
    /// Banks per row.
    pub columns: usize,
    /// Banks per page.
    pub per_page: usize,
    /// Number of pages.
    pub total_pages: usize,
    /// The page shown (the requested one, or the last page if it was past it).
    pub page: usize,
    /// First bank on the page.
    pub start: usize,
    /// One past the last bank on the page.
    pub end: usize,
}

/// The page of the bank map to show when page `page` is asked for.
pub fn bank_map_page(bank_count: usize, page: usize) -> (view: MapPage)
    ensures
        view.columns == map_columns(bank_count as int),
        view.per_page == view.columns * BANK_MAP_ROWS,
        view.total_pages == map_pages(bank_count as int),
        view.page == (if page < view.total_pages {
            page as int
        } else {
            view.total_pages - 1
        }),
        view.start == view.page * view.per_page,
        view.end == (if view.start + view.per_page < bank_count {
            view.start + view.per_page
        } else {
            bank_count as int
        }),
        view.start <= view.end <= bank_count,
{
    let columns: usize = if bank_count <= 4 {
        4
    } else {
        12
    };
    let per_page = columns * BANK_MAP_ROWS;
    let whole = bank_count / per_page;
    let pages = whole + if bank_count % per_page == 0 {
        0
    } else {
        1
    };
    let total_pages = if pages < 1 {
        1
    } else {
        pages
    };
    let shown = if page < total_pages {
        page
    } else {
        total_pages - 1
    };
    proof {
        let p = per_page as int;
        let bc = bank_count as int;
        vstd::arithmetic::div_mod::lemma_fundamental_div_mod(bc, p);
        assert(shown <= total_pages - 1);
        if bc % p == 0 {
            if whole >= 1 {
                assert((shown as int) * p <= (whole - 1) * p) by (nonlinear_arith)
                    requires
                        shown <= whole - 1,
                        p > 0,
                ;
                assert((whole - 1) * p == whole * p - p) by (nonlinear_arith);
            } else {
                assert(shown == 0);
            }
            assert(shown * p <= bc || shown == 0);
        } else {
            assert((shown as int) * p <= whole * p) by (nonlinear_arith)
                requires
                    shown <= whole,
                    p > 0,
            ;
        }
        assert(p * (bc / p) == whole * p) by (nonlinear_arith)
            requires
                whole == bc / p,
        ;
        assert(shown * p <= bc);
    }
    let start = shown * per_page;
    let end = if bank_count - start > per_page {
        start + per_page
    } else {
        bank_count
    };
    MapPage { columns, per_page, total_pages, page: shown, start, end }
}

/// Offset of the last page of the hex preview of `data_len` bytes: the last
/// multiple of the page size that is still inside the data (0 when empty).
pub open spec fn last_window_start(data_len: int) -> int {
    (if data_len > 0 {
        data_len - 1
    } else {
        0
    }) / HEX_PREVIEW_BYTES as int * HEX_PREVIEW_BYTES as int
}

/// The part of a bank that the hex preview shows.
#[derive(Clone, Copy, Debug, PartialEq, Eq, Structural)]
pub struct HexWindow {
    /// First byte shown.
    pub start: usize,
    /// Number of bytes shown.
    pub len: usize,
    /// Offset of the last page.
    pub last_start: usize,
}

/// The window of the hex preview over `data_len` bytes when the preview is
/// at `offset`: the offset held to the last page, and at most a page of bytes.
pub fn hex_window(data_len: usize, offset: usize) -> (window: HexWindow)
    ensures
        window.last_start == last_window_start(data_len as int),
        window.start == (if offset < window.last_start {
            offset
        } else {
            window.last_start
        }),
        window.len == (if data_len - window.start < HEX_PREVIEW_BYTES {
            data_len - window.start
        } else {
            HEX_PREVIEW_BYTES as int
        }),
        window.start + window.len <= data_len,
{
    let before_end: usize = if data_len > 0 {
        data_len - 1
    } else {
        0
    };
    let pages = before_end / HEX_PREVIEW_BYTES;
    proof {
        vstd::arithmetic::div_mod::lemma_fundamental_div_mod(before_end as int, HEX_PREVIEW_BYTES as int);
        assert(pages * 512 <= before_end) by (nonlinear_arith)
            requires
                pages == before_end / 512,
                before_end as int == 512 * (before_end as int / 512) + before_end as int % 512,
                before_end as int % 512 >= 0,
        ;
    }
    let last_start = pages * HEX_PREVIEW_BYTES;
    let start = if offset < last_start {
        offset
    } else {
        last_start
    };
    let len = if data_len - start < HEX_PREVIEW_BYTES {
        data_len - start
    } else {
        HEX_PREVIEW_BYTES
    };
    HexWindow { start, len, last_start }
}

/// The hex preview offset one page back, stopping at 0.
pub fn hex_page_back(offset: usize) -> (back: usize)
    ensures
        back == (if offset < HEX_PREVIEW_BYTES {
            0
        } else {
            offset - HEX_PREVIEW_BYTES
        }),
{
    offset.saturating_sub(HEX_PREVIEW_BYTES)
}

/// The hex preview offset one page forward, stopping at the last page.
pub fn hex_page_forward(offset: usize, last_start: usize) -> (forward: usize)
    ensures
        forward == (if offset + HEX_PREVIEW_BYTES < last_start {
            offset + HEX_PREVIEW_BYTES
        } else {
            last_start as int
        }),
{
    if offset < last_start && last_start - offset > HEX_PREVIEW_BYTES {
        offset + HEX_PREVIEW_BYTES
    } else {
        last_start
    }
}

} // verus!
