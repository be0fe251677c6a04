//! A garden of plots, each growing one plant: fencing its regions.
//!
//! The price of the fence of a region is its area times its perimeter, or,
//! with the bulk discount, its area times its number of sides.

use crate::boundary::{perimeter, perimeter_of, side_count, sides_of};
use crate::grid::{Point, SparseGrid};
use crate::regions::{extract_regions, is_extraction, region_cells, Region};
use crate::text::{cells_of, char_grid, lines_of};
use vstd::prelude::*;

verus! {

/// A garden: the plant of each plot.
pub struct Garden {
    pub map: SparseGrid<char>,
}

/// Reads a garden from its map, one line for each row of plots.
pub fn get_garden_map(input: &str) -> (garden: Garden)
    requires
        input@.len() <= i32::MAX,
    ensures
        garden.map@ == cells_of(lines_of(input@)),
{
    Garden { map: char_grid(input) }
}

/// The price of fencing `parts`: for each part its area times its
/// perimeter.
pub open spec fn price_of(parts: Seq<Set<Point>>) -> nat
    decreases parts.len(),
{
    if parts.len() == 0 {
        0
    } else {
        price_of(parts.drop_last()) + parts.last().len() * perimeter_of(parts.last())
    }
}

/// The discount price of fencing `parts`: for each part its area times its
/// number of sides.
pub open spec fn side_price_of(parts: Seq<Set<Point>>) -> nat
    decreases parts.len(),
{
    if parts.len() == 0 {
        0
    } else {
        side_price_of(parts.drop_last()) + parts.last().len() * sides_of(parts.last())
    }
}

/// The price of the first parts is at most the price of all.
proof fn lemma_price_grows(parts: Seq<Set<Point>>, n: int)
    requires
        0 <= n <= parts.len(),
    ensures
        price_of(parts.take(n)) <= price_of(parts),
        side_price_of(parts.take(n)) <= side_price_of(parts),
    decreases parts.len(),
{
    if n == parts.len() {
        assert(parts.take(n) =~= parts);
    } else {
        lemma_price_grows(parts.drop_last(), n);
        assert(parts.drop_last().take(n) =~= parts.take(n));
    }
}

/// The price of fencing `regions`, or `None` where it does not fit in 128
/// bits. With `discount` a region is charged by its sides, else by its
/// perimeter.
pub fn fence_price(regions: &Vec<Region>, discount: bool) -> (total: Option<u128>)
    ensures
        !discount ==> match total {
            Some(t) => t == price_of(region_cells(regions@)),
            None => price_of(region_cells(regions@)) > u128::MAX,
        },
        discount ==> match total {
            Some(t) => t == side_price_of(region_cells(regions@)),
            None => side_price_of(region_cells(regions@)) > u128::MAX,
        },
{
    let ghost parts = region_cells(regions@);
    let mut total: u128 = 0;
    let mut i: usize = 0;
    assert(parts.take(0) =~= Seq::<Set<Point>>::empty());
    while i < regions.len()
        invariant
            i <= regions.len(),
            parts == region_cells(regions@),
            !discount ==> total == price_of(parts.take(i as int)),
            discount ==> total == side_price_of(parts.take(i as int)),
        decreases regions.len() - i,
    {
        let region = &regions[i];
        let area = region.area() as u128;
        let boundary = if discount {
            side_count(&region.cells)
        } else {
            perimeter(&region.cells)
        };
        proof {
            assert(parts.take(i + 1).drop_last() =~= parts.take(i as int));
            assert(parts.take(i + 1).last() == region.cells@);
            lemma_price_grows(parts, i + 1);
        }
        let price = match area.checked_mul(boundary) {
            Some(price) => price,
            None => {
                return None;
            },
        };
        total = match total.checked_add(price) {
            Some(total) => total,
            None => {
                return None;
            },
        };
        i += 1;
    }
    assert(parts.take(i as int) =~= parts);
    Some(total)
}

/// The price of fencing all regions of the garden, charged by perimeter, or
/// `None` where it does not fit in 128 bits.
pub fn total_price(garden: &Garden) -> (total: Option<u128>)
    ensures
        exists|regions: Seq<Region>| #[trigger]
            is_extraction(garden.map@, regions) && match total {
                Some(t) => t == price_of(region_cells(regions)),
                None => price_of(region_cells(regions)) > u128::MAX,
            },
{
    let regions = extract_regions(garden.map.duplicate());
    let total = fence_price(&regions, false);
    assert(is_extraction(garden.map@, regions@));
    total
}

/// The price of fencing all regions of the garden, charged by sides, or
/// `None` where it does not fit in 128 bits.
pub fn total_side_price(garden: &Garden) -> (total: Option<u128>)
    ensures
        exists|regions: Seq<Region>| #[trigger]
            is_extraction(garden.map@, regions) && match total {
                Some(t) => t == side_price_of(region_cells(regions)),
                None => side_price_of(region_cells(regions)) > u128::MAX,
            },
{
    let regions = extract_regions(garden.map.duplicate());
    let total = fence_price(&regions, true);
    assert(is_extraction(garden.map@, regions@));
    total
}

} // verus!
