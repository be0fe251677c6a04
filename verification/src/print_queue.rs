//! Page ordering rules and the updates that have to obey them.
//!
//! A rule `a|b` says that page `a` has to be printed before page `b`, where
//! an update holds both. An update gives each of its pages a position.

use crate::text::{
    chars_of, cut_once, find_height, lines, lines_of, map_height, parse_unsigned,
    parse_unsigned_list, rows, split_once, unsigned_list_of, unsigned_of,
};
use std::collections::HashMap;
use vstd::prelude::*;
use vstd::std_specs::iter::IteratorSpec;

verus! {

/// The rules: for each page the pages that have to come after it.
pub struct RuleSet {
    pub page_rules: HashMap<u32, Vec<u32>>,
}

/// Whether the `i`-th rule of the page `number` is broken by `update`: the
/// update holds both pages, and the page that has to come later comes
/// first.
pub open spec fn breaks(
    rules: Map<u32, Vec<u32>>,
    update: Map<u32, u32>,
    number: u32,
    i: int,
) -> bool {
    &&& update.contains_key(number)
    &&& rules.contains_key(number)
    &&& 0 <= i < rules[number]@.len()
    &&& update.contains_key(rules[number]@[i])
    &&& update[rules[number]@[i]] < update[number]
}

/// Whether `update` breaks none of `rules`.
pub open spec fn obeys(rules: Map<u32, Vec<u32>>, update: Map<u32, u32>) -> bool {
    forall|number: u32, i: int| !#[trigger] breaks(rules, update, number, i)
}

/// The pages of `update`, in the order in which the table yields them.
fn pages_of(update: &HashMap<u32, u32>) -> (pages: Vec<u32>)
    ensures
        pages@.no_duplicates(),
        pages@.to_set() == update@.dom(),
        pages@.len() == update@.dom().len(),
{
    broadcast use vstd::std_specs::hash::group_hash_axioms;

    let mut pages: Vec<u32> = Vec::new();
    let ghost all: Seq<u32> = update.keys().remaining().unref();
    for page in it: update.keys()
        invariant
            all == it.seq().unref(),
            pages@ == all.take(it.index()),
    {
        pages.push(*page);
    }
    assert(all.take(all.len() as int) == all);
    pages
}

/// The position of `page` in `update`, if the update holds the page.
fn position_of(update: &HashMap<u32, u32>, page: u32) -> (position: Option<u32>)
    ensures
        position == if update@.contains_key(page) {
            Some(update@[page])
        } else {
            None
        },
{
    broadcast use vstd::std_specs::hash::group_hash_axioms;

    match update.get(&page) {
        Some(position) => Some(*position),
        None => None,
    }
}

/// Whether `order` lists the pages of `update` by their positions: the
/// page at the place `i` has the position `i`, and every page of the update
/// is listed once.
pub open spec fn arranges(order: Seq<u32>, update: Map<u32, u32>) -> bool {
    &&& forall|i: int|
        0 <= i < order.len() ==> update.contains_key(#[trigger] order[i]) && update[order[i]] == i
    &&& forall|p: u32| #[trigger]
        update.contains_key(p) ==> update[p] < order.len() && order[update[p] as int] == p
}

/// Whether the positions of `update` are the numbers from 0 up to the
/// number of its pages, each given to one page.
pub open spec fn is_arrangement(update: Map<u32, u32>) -> bool {
    exists|order: Seq<u32>| arranges(order, update)
}

/// Whether `rank` shows that the pages `pages` can be put in an order that
/// obeys `rules`: wherever a rule puts one of the pages before another, the
/// first has the lower rank. No rank exceeds the number of pages. A rule
/// that puts a page before itself asks nothing.
pub open spec fn ranks(rules: Map<u32, Vec<u32>>, pages: Set<u32>, rank: Map<u32, nat>) -> bool {
    &&& forall|p: u32| #[trigger] pages.contains(p) ==> rank.contains_key(p) && rank[p] < pages.len()
    &&& forall|number: u32, i: int|
        pages.contains(number) && rules.contains_key(number) && 0 <= i < rules[number]@.len()
            && pages.contains(#[trigger] rules[number]@[i]) && rules[number]@[i] != number
            ==> rank[number] < rank[rules[number]@[i]]
}

/// Whether the pages `pages` can be put in an order that obeys `rules`: the
/// rules do not run in a circle.
pub open spec fn can_be_ordered(rules: Map<u32, Vec<u32>>, pages: Set<u32>) -> bool {
    exists|rank: Map<u32, nat>| ranks(rules, pages, rank)
}

/// The sum, over the first `n` places of `order`, of the place times the
/// rank of the page there. It grows with every exchange that brings a page
/// of lower rank before a page of higher rank.
spec fn weight(order: Seq<u32>, rank: Map<u32, nat>, n: int) -> int
    decreases n,
{
    if n <= 0 {
        0
    } else {
        weight(order, rank, n - 1) + (n - 1) * rank[order[n - 1]]
    }
}

/// Putting another page at one place changes the weight by the place times
/// the difference of the ranks.
proof fn lemma_weight_update(order: Seq<u32>, rank: Map<u32, nat>, n: int, k: int, page: u32)
    requires
        0 <= k < order.len(),
        0 <= n <= order.len(),
    ensures
        weight(order.update(k, page), rank, n) == weight(order, rank, n) + if k < n {
            k * (rank[page] - rank[order[k]])
        } else {
            0
        },
    decreases n,
{
    if n > 0 {
        lemma_weight_update(order, rank, n - 1, k, page);
        if k == n - 1 {
            assert(k * (rank[page] - rank[order[k]]) == k * rank[page] - k * rank[order[k]])
                by (nonlinear_arith);
        }
    }
}

/// The weight is never above the cube of the number of pages, where no rank
/// exceeds that number.
proof fn lemma_weight_bound(order: Seq<u32>, rank: Map<u32, nat>, n: int)
    requires
        0 <= n <= order.len(),
        forall|i: int| 0 <= i < order.len() ==> rank[#[trigger] order[i]] < order.len(),
    ensures
        0 <= weight(order, rank, n) <= n * order.len() * order.len(),
    decreases n,
{
    if n > 0 {
        lemma_weight_bound(order, rank, n - 1);
        let len = order.len() as int;
        let r = rank[order[n - 1]] as int;
        assert(0 <= (n - 1) * r <= len * len) by (nonlinear_arith)
            requires
                0 <= n - 1 < len,
                0 <= r < len,
        ;
        assert(n * len * len == (n - 1) * len * len + len * len) by (nonlinear_arith);
    } else {
        assert(n * order.len() * order.len() == 0) by (nonlinear_arith)
            requires
                n == 0,
        ;
    }
}

/// An arrangement lists each page once, and as many pages as the update
/// has.
proof fn lemma_arranged_size(order: Seq<u32>, update: Map<u32, u32>)
    requires
        arranges(order, update),
        update.dom().finite(),
    ensures
        order.no_duplicates(),
        order.to_set() == update.dom(),
        order.len() == update.dom().len(),
{
    assert(order.no_duplicates()) by {
        assert forall|i: int, j: int|
            0 <= i < order.len() && 0 <= j < order.len() && i != j implies order[i] != order[j] by {
            assert(update[order[i]] == i);
            assert(update[order[j]] == j);
        }
    }
    assert(order.to_set() =~= update.dom()) by {
        assert forall|p: u32| order.to_set().contains(p) <==> update.dom().contains(p) by {
            if update.contains_key(p) {
                assert(order[update[p] as int] == p);
            }
            if order.to_set().contains(p) {
                let i = choose|i: int| 0 <= i < order.len() && order[i] == p;
                assert(update.contains_key(order[i]));
            }
        }
    }
    order.unique_seq_to_set();
}

/// The pages of `update` by position, or `None` where the positions are not
/// the numbers from 0 up to the number of pages, each given once.
pub fn try_arrangement(update: &HashMap<u32, u32>) -> (order: Option<Vec<u32>>)
    ensures
        match order {
            Some(o) => arranges(o@, update@),
            None => !is_arrangement(update@),
        },
{
    broadcast use vstd::std_specs::hash::group_hash_axioms;

    let pages = pages_of(update);
    let mut order: Vec<u32> = Vec::new();
    let mut pos: usize = 0;
    while pos < pages.len()
        invariant
            pos <= pages.len(),
            pages@.to_set() == update@.dom(),
            pages@.len() == update@.dom().len(),
            order@.len() == pos,
            forall|i: int|
                0 <= i < pos ==> update@.contains_key(#[trigger] order@[i]) && update@[order@[i]] == i,
        decreases pages.len() - pos,
    {
        let mut k: usize = 0;
        let mut found: Option<u32> = None;
        while k < pages.len() && found.is_none()
            invariant
                k <= pages.len(),
                pos < pages.len(),
                pages@.to_set() == update@.dom(),
                found matches Some(page) ==> update@.contains_key(page) && update@[page] == pos,
                found is None ==> forall|j: int| 0 <= j < k ==> update@[#[trigger] pages@[j]] != pos,
            decreases pages.len() - k + if found is None { 1int } else { 0int },
        {
            let page = pages[k];
            assert(pages@.to_set().contains(pages@[k as int]));
            match position_of(update, page) {
                Some(position) => {
                    if position as usize == pos {
                        found = Some(page);
                    }
                },
                None => {},
            }
            k += 1;
        }
        match found {
            Some(page) => {
                order.push(page);
            },
            None => {
                proof {
                    if is_arrangement(update@) {
                        let witness = choose|order: Seq<u32>| arranges(order, update@);
                        lemma_arranged_size(witness, update@);
                        let page = witness[pos as int];
                        assert(update@.contains_key(page) && update@[page] == pos);
                        assert(pages@.to_set().contains(page));
                        let j = choose|j: int| 0 <= j < pages@.len() && pages@[j] == page;
                        assert(update@[pages@[j]] != pos);
                    }
                }
                return None;
            },
        }
        pos += 1;
    }
    proof {
        let list = order@;
        assert(list.no_duplicates()) by {
            assert forall|i: int, j: int|
                0 <= i < list.len() && 0 <= j < list.len() && i != j implies list[i] != list[j] by {
                assert(update@[list[i]] == i);
                assert(update@[list[j]] == j);
            }
        }
        list.unique_seq_to_set();
        assert(list.to_set().subset_of(update@.dom())) by {
            assert forall|p: u32| list.to_set().contains(p) implies update@.dom().contains(p) by {
                let i = choose|i: int| 0 <= i < list.len() && list[i] == p;
                assert(update@.contains_key(list[i]));
            }
        }
        vstd::seq_lib::seq_to_set_is_finite(list);
        vstd::set_lib::lemma_subset_equality(list.to_set(), update@.dom());
        assert forall|p: u32| #[trigger] update@.contains_key(p) implies update@[p] < list.len()
            && list[update@[p] as int] == p by {
            assert(list.to_set().contains(p));
            let i = choose|i: int| 0 <= i < list.len() && list[i] == p;
            assert(update@[list[i]] == i);
        }
    }
    Some(order)
}

/// The place of `page` in `order`, if it is listed.
fn place_of(order: &Vec<u32>, page: u32) -> (place: Option<usize>)
    ensures
        match place {
            Some(i) => i < order@.len() && order@[i as int] == page,
            None => !order@.contains(page),
        },
{
    let mut i: usize = 0;
    while i < order.len()
        invariant
            i <= order.len(),
            forall|j: int| 0 <= j < i ==> order@[j] != page,
        decreases order.len() - i,
    {
        if order[i] == page {
            return Some(i);
        }
        i += 1;
    }
    None
}

/// Whether, up to the place `upto`, no page of `order` stands behind a page
/// that a rule puts after it.
spec fn settled(rules: Map<u32, Vec<u32>>, order: Seq<u32>, upto: int) -> bool {
    forall|q: int, i: int, j: int|
        0 <= j < q < upto && q < order.len() && rules.contains_key(order[q]) && 0 <= i
            < rules[order[q]]@.len() ==> #[trigger] order[j] != #[trigger] rules[order[q]]@[i]
}

/// The update in which each page of `order` has its place as position.
fn positions(order: &Vec<u32>) -> (update: HashMap<u32, u32>)
    requires
        order@.no_duplicates(),
        order@.len() <= u32::MAX + 1,
    ensures
        arranges(order@, update@),
        update@.dom() == order@.to_set(),
{
    broadcast use vstd::std_specs::hash::group_hash_axioms;

    let mut update: HashMap<u32, u32> = HashMap::new();
    let mut i: usize = 0;
    while i < order.len()
        invariant
            i <= order.len(),
            order@.no_duplicates(),
            order@.len() <= u32::MAX + 1,
            forall|j: int|
                0 <= j < i ==> update@.contains_key(#[trigger] order@[j]) && update@[order@[j]] == j,
            forall|p: u32| #[trigger]
                update@.contains_key(p) ==> update@[p] < i && order@[update@[p] as int] == p,
        decreases order.len() - i,
    {
        update.insert(order[i], i as u32);
        i += 1;
    }
    assert(update@.dom() =~= order@.to_set()) by {
        assert forall|p: u32| update@.dom().contains(p) <==> order@.to_set().contains(p) by {
            if update@.contains_key(p) {
                assert(order@[update@[p] as int] == p);
            }
            if order@.to_set().contains(p) {
                let j = choose|j: int| 0 <= j < order@.len() && order@[j] == p;
                assert(update@.contains_key(order@[j]));
            }
        }
    }
    update
}

impl RuleSet {
    /// Whether `page_update` breaks none of the rules.
    pub fn is_update_valid(&self, page_update: &HashMap<u32, u32>) -> (valid: bool)
        ensures
            valid == obeys(self.page_rules@, page_update@),
    {
        broadcast use vstd::std_specs::hash::group_hash_axioms;

        let ghost rules = self.page_rules@;
        let ghost update = page_update@;
        let pages = pages_of(page_update);
        let mut k: usize = 0;
        while k < pages.len()
            invariant
                k <= pages.len(),
                rules == self.page_rules@,
                update == page_update@,
                pages@.to_set() == update.dom(),
                forall|j: int, i: int| 0 <= j < k ==> !#[trigger] breaks(rules, update, pages@[j], i),
            decreases pages.len() - k,
        {
            let number = pages[k];
            assert(pages@.to_set().contains(number));
            let position = match position_of(page_update, number) {
                Some(position) => position,
                None => {
                    assert(false);
                    0
                },
            };
            match self.page_rules.get(&number) {
                Some(page_rules) => {
                    let mut i: usize = 0;
                    while i < page_rules.len()
                        invariant
                            i <= page_rules.len(),
                            rules == self.page_rules@,
                            update == page_update@,
                            rules.contains_key(number),
                            rules[number] == *page_rules,
                            update.contains_key(number),
                            update[number] == position,
                            forall|j: int| 0 <= j < i ==> !#[trigger] breaks(rules, update, number, j),
                        decreases page_rules.len() - i,
                    {
                        match position_of(page_update, page_rules[i]) {
                            Some(other) => {
                                if other < position {
                                    assert(breaks(rules, update, number, i as int));
                                    return false;
                                }
                            },
                            None => {},
                        }
                        i += 1;
                    }
                },
                None => {},
            }
            k += 1;
        }
        proof {
            assert forall|number: u32, i: int| !#[trigger] breaks(rules, update, number, i) by {
                if update.contains_key(number) {
                    assert(pages@.to_set().contains(number));
                    let j = choose|j: int| 0 <= j < pages@.len() && pages@[j] == number;
                    assert(!breaks(rules, update, pages@[j], i));
                }
            }
        }
        true
    }

    /// Puts the pages of `page_update` in an order that breaks none of the
    /// rules: as long as a page stands behind a page that a rule puts after
    /// it, the two change places. `None` where the positions of the update
    /// are not the numbers from 0 up to the number of its pages, or where
    /// the rules run in a circle, so that no order obeys them.
    ///
    /// With rules that can be obeyed every exchange brings the pages nearer
    /// to an order that obeys them, so that there cannot be more exchanges
    /// than the cube of the number of pages; once that many have been made,
    /// the rules are known to run in a circle.
    pub fn try_fix_update_for_ruleset(&self, page_update: &HashMap<u32, u32>) -> (updated: Option<
        HashMap<u32, u32>,
    >)
        ensures
            match updated {
                Some(u) => {
                    &&& is_arrangement(page_update@)
                    &&& can_be_ordered(self.page_rules@, page_update@.dom())
                    &&& u@.dom() == page_update@.dom()
                    &&& is_arrangement(u@)
                    &&& obeys(self.page_rules@, u@)
                },
                None => !(is_arrangement(page_update@) && can_be_ordered(
                    self.page_rules@,
                    page_update@.dom(),
                )),
            },
    {
        broadcast use vstd::std_specs::hash::group_hash_axioms;

        let ghost rules = self.page_rules@;
        let ghost pages = page_update@.dom();
        let ghost orderable = can_be_ordered(rules, pages);
        let ghost rank = choose|rank: Map<u32, nat>| ranks(rules, pages, rank);
        let mut order = match try_arrangement(page_update) {
            Some(order) => order,
            None => {
                return None;
            },
        };
        let ghost n = order@.len() as int;
        proof {
            lemma_arranged_size(order@, page_update@);
            if n > 0 {
                assert(page_update@[order@[n - 1]] == n - 1);
            }
        }
        let size = order.len() as u128;
        assert(size * size <= 0x1_0000_0000 * 0x1_0000_0000 && size * size * size <= 0x1_0000_0000
            * 0x1_0000_0000 * 0x1_0000_0000) by (nonlinear_arith)
            requires
                0 <= size <= 0x1_0000_0000,
        ;
        let budget: u128 = size * size * size;
        let mut swaps: u128 = 0;
        let mut pos: usize = 0;
        proof {
            if orderable {
                assert forall|i: int| 0 <= i < order@.len() implies rank[#[trigger] order@[i]]
                    < order@.len() by {
                    assert(order@.to_set().contains(order@[i]));
                }
                lemma_weight_bound(order@, rank, n);
            }
        }
        while pos < order.len()
            invariant
                pos <= order.len(),
                rules == self.page_rules@,
                pages == page_update@.dom(),
                orderable == can_be_ordered(rules, pages),
                orderable ==> ranks(rules, pages, rank),
                is_arrangement(page_update@),
                order@.len() == n,
                n <= u32::MAX + 1,
                n == pages.len(),
                budget == n * n * n,
                swaps <= budget,
                order@.no_duplicates(),
                order@.to_set() == pages,
                orderable ==> swaps <= weight(order@, rank, n),
                settled(rules, order@, pos as int),
            decreases budget - swaps, n - pos,
        {
            let page = order[pos];
            let ghost before = order@;
            let mut swapped = false;
            match self.page_rules.get(&page) {
                Some(page_rules) => {
                    let mut i: usize = 0;
                    while i < page_rules.len() && !swapped
                        invariant
                            i <= page_rules.len(),
                            pos < order.len(),
                            page == before[pos as int],
                            rules == self.page_rules@,
                            rules.contains_key(page),
                            rules[page] == *page_rules,
                            orderable == can_be_ordered(rules, pages),
                            orderable ==> ranks(rules, pages, rank),
                            order@.len() == n,
                            n == pages.len(),
                            budget == n * n * n,
                            before.len() == n,
                            before.no_duplicates(),
                            before.to_set() == pages,
                            order@.no_duplicates(),
                            order@.to_set() == pages,
                            orderable ==> swaps <= weight(before, rank, n),
                            swaps <= budget,
                            pages == page_update@.dom(),
                            !swapped ==> order@ == before,
                            !swapped ==> forall|k: int, j: int|
                                0 <= k < i && 0 <= j < pos ==> #[trigger] before[j]
                                    != #[trigger] page_rules@[k],
                            swapped ==> swaps < budget,
                            swapped && orderable ==> weight(order@, rank, n) > weight(
                                before,
                                rank,
                                n,
                            ),
                        decreases page_rules.len() - i + if swapped { 0int } else { 1int },
                    {
                        let page_rule = page_rules[i];
                        match place_of(&order, page_rule) {
                            Some(prev) => {
                                if prev < pos {
                                    let ghost middle = before.update(prev as int, page);
                                    let ghost after = middle.update(pos as int, page_rule);
                                    proof {
                                        assert(pages.contains(page)) by {
                                            assert(before.to_set().contains(before[pos as int]));
                                        }
                                        assert(pages.contains(page_rule)) by {
                                            assert(before.to_set().contains(before[prev as int]));
                                        }
                                        assert(after.no_duplicates());
                                        assert(after.to_set() =~= pages) by {
                                            assert forall|p: u32|
                                                after.to_set().contains(p) <==> pages.contains(
                                                    p,
                                                ) by {
                                                if before.to_set().contains(p) {
                                                    let j = choose|j: int|
                                                        0 <= j < before.len() && before[j] == p;
                                                    if j == prev {
                                                        assert(after[pos as int] == p);
                                                    } else if j == pos {
                                                        assert(after[prev as int] == p);
                                                    } else {
                                                        assert(after[j] == p);
                                                    }
                                                }
                                                if after.to_set().contains(p) {
                                                    let j = choose|j: int|
                                                        0 <= j < after.len() && after[j] == p;
                                                    if j == prev {
                                                        assert(before[pos as int] == p);
                                                    } else if j == pos {
                                                        assert(before[prev as int] == p);
                                                    } else {
                                                        assert(before[j] == p);
                                                    }
                                                    assert(before.to_set().contains(p));
                                                }
                                            }
                                        }
                                        if orderable {
                                            assert(page_rule != page) by {
                                                assert(before[prev as int] == page_rule);
                                            }
                                            assert(rank[page] < rank[rules[page]@[i as int]]);
                                            lemma_weight_update(before, rank, n, prev as int, page);
                                            lemma_weight_update(
                                                middle,
                                                rank,
                                                n,
                                                pos as int,
                                                page_rule,
                                            );
                                            let low = rank[page] as int;
                                            let high = rank[page_rule] as int;
                                            assert(prev * (low - high) + pos * (high - low) > 0)
                                                by (nonlinear_arith)
                                                requires
                                                    0 <= prev < pos,
                                                    low < high,
                                            ;
                                            assert forall|k: int|
                                                0 <= k < after.len() implies rank[#[trigger] after[k]]
                                                < after.len() by {
                                                assert(after.to_set().contains(after[k]));
                                            }
                                            lemma_weight_bound(after, rank, n);
                                        }
                                    }
                                    if swaps == budget {
                                        // with rules that can be obeyed the
                                        // pages would weigh more than they can
                                        proof {
                                            if orderable {
                                                assert(weight(after, rank, n) > swaps);
                                                assert(weight(after, rank, n) <= n * n * n);
                                            }
                                        }
                                        return None;
                                    }
                                    order.set(prev, page);
                                    order.set(pos, page_rule);
                                    swapped = true;
                                    assert(order@ == after);
                                }
                            },
                            None => {},
                        }
                        i += 1;
                    }
                },
                None => {},
            }
            if swapped {
                swaps = swaps + 1;
                pos = 0;
                assert(settled(rules, order@, 1));
            } else {
                assert(settled(rules, order@, pos + 1));
            }
            pos += 1;
        }
        let updated = positions(&order);
        proof {
            assert(updated@.dom() =~= page_update@.dom());
            assert forall|number: u32, i: int| !#[trigger] breaks(rules, updated@, number, i) by {
                if breaks(rules, updated@, number, i) {
                    let q = updated@[number] as int;
                    let j = updated@[rules[number]@[i]] as int;
                    assert(order@[q] == number);
                    assert(order@[j] == rules[number]@[i]);
                    assert(order@[j] != rules[order@[q]]@[i]);
                }
            }
            lemma_obeyed_can_be_ordered(rules, order@, updated@);
        }
        Some(updated)
    }

    /// Puts the pages of `page_update` in an order that breaks none of the
    /// rules: as long as a page stands behind a page that a rule puts after
    /// it, the two change places.
    pub fn fix_update_for_ruleset(&self, page_update: &HashMap<u32, u32>) -> (updated: HashMap<
        u32,
        u32,
    >)
        requires
            is_arrangement(page_update@),
            can_be_ordered(self.page_rules@, page_update@.dom()),
        ensures
            updated@.dom() == page_update@.dom(),
            is_arrangement(updated@),
            obeys(self.page_rules@, updated@),
    {
        match self.try_fix_update_for_ruleset(page_update) {
            Some(updated) => updated,
            None => HashMap::new(),
        }
    }
}

/// Pages in an order that obeys the rules can be ordered: their places are
/// their ranks.
proof fn lemma_obeyed_can_be_ordered(
    rules: Map<u32, Vec<u32>>,
    order: Seq<u32>,
    update: Map<u32, u32>,
)
    requires
        arranges(order, update),
        update.dom().finite(),
        obeys(rules, update),
    ensures
        can_be_ordered(rules, update.dom()),
{
    lemma_arranged_size(order, update);
    let pages = update.dom();
    let rank = Map::<u32, nat>::new(|p: u32| pages.contains(p), |p: u32| update[p] as nat);
    assert forall|number: u32, i: int|
        pages.contains(number) && rules.contains_key(number) && 0 <= i < rules[number]@.len()
            && pages.contains(#[trigger] rules[number]@[i]) && rules[number]@[i] != number
            implies rank[number] < rank[rules[number]@[i]] by {
        let later = rules[number]@[i];
        assert(!breaks(rules, update, number, i));
        assert(order[update[later] as int] == later);
        assert(order[update[number] as int] == number);
    }
    assert(ranks(rules, pages, rank));
}

/// The rule that the line `line` writes: two pages with a `|` between
/// them.
pub open spec fn rule_of(line: Seq<char>) -> Option<(u32, u32)> {
    match cut_once(line, seq!['|']) {
        None => None,
        Some((left, right)) => match (
            unsigned_of(left, u32::MAX as nat),
            unsigned_of(right, u32::MAX as nat),
        ) {
            (Some(a), Some(b)) => Some((a as u32, b as u32)),
            _ => None,
        },
    }
}

/// The rules after the first `n` of `lines` have been read: for each page
/// the pages that have to come after it, in the order of the lines.
pub open spec fn rules_after(lines: Seq<Seq<char>>, n: int) -> Map<u32, Seq<u32>>
    decreases n,
{
    if n <= 0 {
        Map::empty()
    } else {
        let before = rules_after(lines, n - 1);
        match rule_of(lines[n - 1]) {
            None => before,
            Some((a, b)) => before.insert(
                a,
                (if before.contains_key(a) {
                    before[a]
                } else {
                    Seq::empty()
                }).push(b),
            ),
        }
    }
}

/// Whether the table `table` holds the rules `rules`.
pub open spec fn holds_rules(table: Map<u32, Vec<u32>>, rules: Map<u32, Seq<u32>>) -> bool {
    &&& forall|k: u32| table.contains_key(k) <==> rules.contains_key(k)
    &&& forall|k: u32| #[trigger] table.contains_key(k) ==> table[k]@ == rules[k]
}

/// The update that gives each of the first `n` pages of `pages` its place
/// as position; where a page is named twice, its last place counts.
pub open spec fn update_after(pages: Seq<u32>, n: int) -> Map<u32, u32>
    decreases n,
{
    if n <= 0 {
        Map::empty()
    } else {
        update_after(pages, n - 1).insert(pages[n - 1], (n - 1) as u32)
    }
}

/// The update that gives each page of `pages` its place as position.
pub fn to_update(pages: &Vec<u32>) -> (update: HashMap<u32, u32>)
    requires
        pages@.len() <= u32::MAX,
    ensures
        update@ == update_after(pages@, pages@.len() as int),
{
    broadcast use vstd::std_specs::hash::group_hash_axioms;

    let mut update: HashMap<u32, u32> = HashMap::new();
    let mut i: usize = 0;
    while i < pages.len()
        invariant
            i <= pages.len(),
            pages@.len() <= u32::MAX,
            update@ == update_after(pages@, i as int),
        decreases pages.len() - i,
    {
        update.insert(pages[i], i as u32);
        i += 1;
    }
    update
}

/// The page in the middle of `update`: one whose position is half the
/// number of pages, rounded down. `None` where no page has that position.
pub fn middle_page(update: &HashMap<u32, u32>) -> (page: Option<u32>)
    ensures
        match page {
            Some(p) => update@.contains_key(p) && update@[p] == update@.dom().len() / 2,
            None => forall|p: u32| #[trigger]
                update@.contains_key(p) ==> update@[p] != update@.dom().len() / 2,
        },
{
    broadcast use vstd::std_specs::hash::group_hash_axioms;

    let pages = pages_of(update);
    let middle = pages.len() / 2;
    let mut i: usize = 0;
    while i < pages.len()
        invariant
            i <= pages.len(),
            middle == update@.dom().len() / 2,
            pages@.to_set() == update@.dom(),
            forall|k: int| 0 <= k < i ==> update@[#[trigger] pages@[k]] != middle,
        decreases pages.len() - i,
    {
        assert(pages@.to_set().contains(pages@[i as int]));
        match position_of(update, pages[i]) {
            Some(position) => {
                if position as usize == middle {
                    return Some(pages[i]);
                }
            },
            None => {},
        }
        i += 1;
    }
    proof {
        assert forall|p: u32| #[trigger] update@.contains_key(p) implies update@[p] != middle by {
            assert(pages@.to_set().contains(p));
            let k = choose|k: int| 0 <= k < pages@.len() && pages@[k] == p;
            assert(update@[pages@[k]] != middle);
        }
    }
    None
}

/// The lines of `lines` that are not empty.
pub open spec fn filled(lines: Seq<Seq<char>>) -> Seq<Seq<char>>
    decreases lines.len(),
{
    if lines.len() == 0 {
        Seq::empty()
    } else if lines.last().len() == 0 {
        filled(lines.drop_last())
    } else {
        filled(lines.drop_last()).push(lines.last())
    }
}

/// Whether `lines` describe a print queue: rules up to the first empty
/// line, and after it lists of pages with commas between them.
pub open spec fn is_queue(lines: Seq<Seq<char>>) -> bool {
    let height = map_height(lines);
    let rest = filled(lines.skip(height));
    &&& forall|i: int| 0 <= i < height ==> rule_of(#[trigger] lines[i]) is Some
    &&& forall|i: int|
        0 <= i < rest.len() ==> unsigned_list_of(#[trigger] rest[i], ',', u32::MAX as nat) is Some
}

/// Whether `pages` holds the numbers of the line `line`.
pub open spec fn holds_pages(line: Seq<char>, pages: Seq<u32>) -> bool {
    &&& unsigned_list_of(line, ',', u32::MAX as nat) matches Some(list)
    &&& list.len() == pages.len()
    &&& forall|j: int| 0 <= j < list.len() ==> #[trigger] pages[j] as nat == list[j]
}

/// Whether `rules` and `updates` are what `lines` describe.
pub open spec fn holds_queue(lines: Seq<Seq<char>>, rules: RuleSet, updates: Seq<Vec<u32>>) -> bool {
    let height = map_height(lines);
    let rest = filled(lines.skip(height));
    &&& holds_rules(rules.page_rules@, rules_after(lines, height))
    &&& updates.len() == rest.len()
    &&& forall|i: int| 0 <= i < rest.len() ==> holds_pages(#[trigger] rest[i], updates[i]@)
}

/// Reads a rule from a line.
fn read_rule(line: &Vec<char>) -> (rule: Option<(u32, u32)>)
    ensures
        rule == rule_of(line@),
{
    let mut bar: Vec<char> = Vec::new();
    bar.push('|');
    assert(bar@ =~= seq!['|']);
    let (left, right) = match split_once(line, &bar) {
        Some(both) => both,
        None => {
            return None;
        },
    };
    let a = match parse_unsigned(&left, u32::MAX as u64) {
        Some(a) => a,
        None => {
            return None;
        },
    };
    let b = match parse_unsigned(&right, u32::MAX as u64) {
        Some(b) => b,
        None => {
            return None;
        },
    };
    Some((a as u32, b as u32))
}

/// Reads the rules and the updates of a print queue. `None` where a line
/// is neither.
pub fn read_queue(input: &str) -> (queue: Option<(RuleSet, Vec<Vec<u32>>)>)
    ensures
        match queue {
            Some((rules, updates)) => is_queue(lines_of(input@)) && holds_queue(
                lines_of(input@),
                rules,
                updates@,
            ),
            None => !is_queue(lines_of(input@)),
        },
{
    broadcast use vstd::std_specs::hash::group_hash_axioms;

    let text = chars_of(input);
    let all = lines(&text);
    let height = find_height(&all);
    let ghost whole = rows(all@);
    let mut page_rules: HashMap<u32, Vec<u32>> = HashMap::new();
    let mut i: usize = 0;
    while i < height
        invariant
            i <= height <= all.len(),
            whole == rows(all@),
            whole == lines_of(input@),
            height == map_height(whole),
            forall|k: int| 0 <= k < i ==> rule_of(#[trigger] whole[k]) is Some,
            holds_rules(page_rules@, rules_after(whole, i as int)),
        decreases height - i,
    {
        assert(whole[i as int] == all@[i as int]@);
        let (key, page_rule) = match read_rule(&all[i]) {
            Some(rule) => rule,
            None => {
                return None;
            },
        };
        let ghost before = rules_after(whole, i as int);
        let mut value = match page_rules.remove(&key) {
            Some(value) => value,
            None => Vec::new(),
        };
        value.push(page_rule);
        page_rules.insert(key, value);
        proof {
            let now = rules_after(whole, i + 1);
            assert forall|k: u32| page_rules@.contains_key(k) <==> now.contains_key(k) by {
                assert(before.contains_key(k) || k == key <==> now.contains_key(k));
            }
        }
        i += 1;
    }
    let mut updates: Vec<Vec<u32>> = Vec::new();
    let ghost tail = whole.skip(height as int);
    let mut j: usize = height;
    assert(tail.take(0) =~= Seq::<Seq<char>>::empty());
    while j < all.len()
        invariant
            height <= j <= all.len(),
            whole == rows(all@),
            whole == lines_of(input@),
            height == map_height(whole),
            tail == whole.skip(height as int),
            forall|k: int| 0 <= k < height ==> rule_of(#[trigger] whole[k]) is Some,
            updates@.len() == filled(tail.take(j - height)).len(),
            forall|k: int|
                0 <= k < updates@.len() ==> holds_pages(
                    #[trigger] filled(tail.take(j - height))[k],
                    updates@[k]@,
                ),
        decreases all.len() - j,
    {
        let line = &all[j];
        let ghost done = filled(tail.take(j - height));
        proof {
            assert(tail.take(j - height + 1).drop_last() =~= tail.take(j - height));
            assert(tail.take(j - height + 1).last() == line@);
        }
        if line.len() > 0 {
            let list = match parse_unsigned_list(line, ',', u32::MAX as u64) {
                Some(list) => list,
                None => {
                    proof {
                        let upto = filled(tail.take(j - height + 1));
                        lemma_filled_prefix(tail, j - height + 1);
                        assert(upto[done.len() as int] == line@);
                        assert(filled(tail)[done.len() as int] == line@);
                    }
                    return None;
                },
            };
            let mut pages: Vec<u32> = Vec::new();
            let mut k: usize = 0;
            while k < list.len()
                invariant
                    k <= list.len(),
                    pages@.len() == k,
                    forall|m: int| 0 <= m < list@.len() ==> #[trigger] list@[m] <= u32::MAX,
                    forall|m: int| 0 <= m < k ==> #[trigger] pages@[m] == list@[m],
                decreases list.len() - k,
            {
                pages.push(list[k] as u32);
                k += 1;
            }
            let ghost before = updates@;
            updates.push(pages);
            proof {
                let upto = filled(tail.take(j - height + 1));
                assert forall|m: int| 0 <= m < updates@.len() implies holds_pages(
                    #[trigger] upto[m],
                    updates@[m]@,
                ) by {
                    if m < before.len() {
                        assert(upto[m] == done[m]);
                        assert(updates@[m] == before[m]);
                    }
                }
            }
        }
        j += 1;
    }
    proof {
        assert(tail.take(j - height) =~= tail);
        let rest = filled(tail);
        assert forall|m: int| 0 <= m < rest.len() implies unsigned_list_of(
            #[trigger] rest[m],
            ',',
            u32::MAX as nat,
        ) is Some by {
            assert(holds_pages(rest[m], updates@[m]@));
        }
    }
    Some((RuleSet { page_rules }, updates))
}

/// The filled lines among the first lines are the first filled lines of
/// all.
proof fn lemma_filled_prefix(lines: Seq<Seq<char>>, n: int)
    requires
        0 <= n <= lines.len(),
    ensures
        filled(lines.take(n)).len() <= filled(lines).len(),
        forall|i: int|
            0 <= i < filled(lines.take(n)).len() ==> filled(lines)[i] == filled(lines.take(n))[i],
    decreases lines.len(),
{
    if n == lines.len() {
        assert(lines.take(n) =~= lines);
    } else {
        assert(lines.drop_last().take(n) =~= lines.take(n));
        lemma_filled_prefix(lines.drop_last(), n);
    }
}

/// What became of an update: whether it obeyed the rules as it came, and
/// the page in its middle, after it was put in order if it did not.
#[derive(Clone, Copy, Debug, PartialEq, Eq)]
pub struct Outcome {
    pub valid: bool,
    pub middle: u32,
}

/// Whether `outcome` is a right outcome for the pages `pages` under the
/// rules `rules`.
pub open spec fn is_outcome(rules: Map<u32, Vec<u32>>, pages: Seq<u32>, outcome: Outcome) -> bool {
    let update = update_after(pages, pages.len() as int);
    &&& outcome.valid == obeys(rules, update)
    &&& outcome.valid ==> update.contains_key(outcome.middle) && update[outcome.middle]
        == pages.len() / 2
    &&& !outcome.valid ==> exists|fixed: Map<u32, u32>| #[trigger]
        obeys(rules, fixed) && fixed.dom() == update.dom() && is_arrangement(fixed)
            && fixed.contains_key(outcome.middle) && fixed[outcome.middle] == pages.len() / 2
}

/// Pages that are all different are arranged by the update that gives each
/// its place.
proof fn lemma_update_arranges(pages: Seq<u32>, n: int)
    requires
        pages.no_duplicates(),
        0 <= n <= pages.len() <= u32::MAX,
    ensures
        arranges(pages.take(n), update_after(pages, n)),
        update_after(pages, n).dom() == pages.take(n).to_set(),
    decreases n,
{
    if n > 0 {
        lemma_update_arranges(pages, n - 1);
        let before = update_after(pages, n - 1);
        let now = update_after(pages, n);
        let list = pages.take(n);
        assert(!before.contains_key(pages[n - 1])) by {
            if before.contains_key(pages[n - 1]) {
                assert(pages.take(n - 1).to_set().contains(pages[n - 1]));
                let shorter = pages.take(n - 1);
                let j = choose|j: int| 0 <= j < shorter.len() && shorter[j] == pages[n - 1];
                assert(pages[j] == pages[n - 1]);
            }
        }
        assert forall|i: int| 0 <= i < list.len() implies now.contains_key(#[trigger] list[i])
            && now[list[i]] == i by {
            if i < n - 1 {
                assert(pages.take(n - 1)[i] == list[i]);
                assert(before.contains_key(pages.take(n - 1)[i]));
            }
        }
        assert forall|p: u32| #[trigger] now.contains_key(p) implies now[p] < list.len()
            && list[now[p] as int] == p by {
            if p != pages[n - 1] {
                assert(before.contains_key(p));
                assert(pages.take(n - 1)[before[p] as int] == p);
            }
        }
        assert(now.dom() =~= list.to_set()) by {
            assert forall|p: u32| now.dom().contains(p) <==> list.to_set().contains(p) by {
                if now.contains_key(p) {
                    assert(list[now[p] as int] == p);
                }
                if list.to_set().contains(p) {
                    let j = choose|j: int| 0 <= j < list.len() && list[j] == p;
                    assert(now.contains_key(list[j]));
                }
            }
        }
    } else {
        assert(update_after(pages, n).dom() =~= pages.take(n).to_set());
    }
}

/// The update of a list of pages holds the pages of the list.
proof fn lemma_update_pages(pages: Seq<u32>, n: int)
    requires
        0 <= n <= pages.len(),
    ensures
        update_after(pages, n).dom() == pages.take(n).to_set(),
        update_after(pages, n).dom().finite(),
    decreases n,
{
    vstd::seq_lib::seq_to_set_is_finite(pages.take(n));
    if n > 0 {
        lemma_update_pages(pages, n - 1);
        let now = update_after(pages, n);
        assert(now.dom() =~= pages.take(n).to_set()) by {
            assert forall|p: u32| now.dom().contains(p) <==> pages.take(n).to_set().contains(p) by {
                if pages.take(n - 1).to_set().contains(p) {
                    let shorter = pages.take(n - 1);
                    let j = choose|j: int| 0 <= j < shorter.len() && shorter[j] == p;
                    assert(pages.take(n)[j] == p);
                }
                if pages.take(n).to_set().contains(p) {
                    let longer = pages.take(n);
                    let j = choose|j: int| 0 <= j < longer.len() && longer[j] == p;
                    if j < n - 1 {
                        assert(pages.take(n - 1)[j] == p);
                        assert(pages.take(n - 1).to_set().contains(p));
                    }
                }
                if p == pages[n - 1] {
                    assert(pages.take(n)[n - 1] == p);
                }
            }
        }
    } else {
        assert(update_after(pages, n).dom() =~= pages.take(n).to_set());
    }
}

/// Whether the pages `pages` make an update that can be checked and put in
/// order: at least one page, none named twice, and rules that do not run in
/// a circle among them.
pub open spec fn can_be_processed(rules: Map<u32, Vec<u32>>, pages: Seq<u32>) -> bool {
    &&& 0 < pages.len() <= u32::MAX
    &&& pages.no_duplicates()
    &&& can_be_ordered(rules, pages.to_set())
}

/// Whether the pages `pages` could be processed, with the outcome
/// `outcome`.
pub open spec fn is_processed(rules: Map<u32, Vec<u32>>, pages: Seq<u32>, outcome: Outcome) -> bool {
    can_be_processed(rules, pages) && is_outcome(rules, pages, outcome)
}

impl RuleSet {
    /// Checks each of `updates` against the rules, puts those in order that
    /// break a rule, and notes for each the page in its middle. `None`
    /// where one of the updates is empty, names a page twice, or cannot be
    /// put in order because the rules run in a circle.
    pub fn process_rulesets(&self, updates: &Vec<Vec<u32>>) -> (outcomes: Option<Vec<Outcome>>)
        ensures
            match outcomes {
                Some(list) => list@.len() == updates@.len() && forall|i: int|
                    0 <= i < updates@.len() ==> #[trigger] is_processed(
                        self.page_rules@,
                        updates@[i]@,
                        list@[i],
                    ),
                None => exists|i: int|
                    0 <= i < updates@.len() && !can_be_processed(
                        self.page_rules@,
                        (#[trigger] updates@[i])@,
                    ),
            },
    {
        broadcast use vstd::std_specs::hash::group_hash_axioms;

        let mut outcomes: Vec<Outcome> = Vec::new();
        let mut i: usize = 0;
        while i < updates.len()
            invariant
                i <= updates.len(),
                outcomes@.len() == i,
                forall|k: int|
                    0 <= k < i ==> #[trigger] is_processed(
                        self.page_rules@,
                        updates@[k]@,
                        outcomes@[k],
                    ),
            decreases updates.len() - i,
        {
            let pages = &updates[i];
            let ghost list = pages@;
            assert(list == updates@[i as int]@);
            if pages.len() == 0 || pages.len() > u32::MAX as usize {
                return None;
            }
            let page_update = to_update(pages);
            proof {
                lemma_update_pages(list, list.len() as int);
                assert(list.take(list.len() as int) =~= list);
            }
            if page_update.len() != pages.len() {
                proof {
                    if list.no_duplicates() {
                        list.unique_seq_to_set();
                    }
                }
                return None;
            }
            proof {
                list.lemma_no_dup_set_cardinality();
                lemma_update_arranges(list, list.len() as int);
                assert(is_arrangement(page_update@));
                assert(page_update@.dom() == list.to_set());
            }
            let valid = self.is_update_valid(&page_update);
            let outcome = if valid {
                proof {
                    lemma_obeyed_can_be_ordered(self.page_rules@, list, page_update@);
                }
                let middle = match middle_page(&page_update) {
                    Some(middle) => middle,
                    None => {
                        proof {
                            let p = list[list.len() as int / 2];
                            assert(page_update@.contains_key(p));
                        }
                        0
                    },
                };
                Outcome { valid, middle }
            } else {
                let fixed = match self.try_fix_update_for_ruleset(&page_update) {
                    Some(fixed) => fixed,
                    None => {
                        return None;
                    },
                };
                let middle = match middle_page(&fixed) {
                    Some(middle) => middle,
                    None => {
                        proof {
                            let order = choose|order: Seq<u32>| arranges(order, fixed@);
                            lemma_arranged_size(order, fixed@);
                            let p = order[order.len() as int / 2];
                            assert(fixed@.contains_key(p));
                        }
                        0
                    },
                };
                assert(obeys(self.page_rules@, fixed@) && fixed@.dom() == page_update@.dom()
                    && is_arrangement(fixed@));
                Outcome { valid, middle }
            };
            assert(is_processed(self.page_rules@, list, outcome));
            let ghost before = outcomes@;
            outcomes.push(outcome);
            proof {
                assert forall|k: int| 0 <= k < i + 1 implies #[trigger] is_processed(
                    self.page_rules@,
                    updates@[k]@,
                    outcomes@[k],
                ) by {
                    if k < i {
                        assert(outcomes@[k] == before[k]);
                        assert(is_processed(self.page_rules@, updates@[k]@, before[k]));
                    }
                }
            }
            i += 1;
        }
        Some(outcomes)
    }
}

/// The sum of the middle pages of the first `n` outcomes whose updates
/// obeyed the rules as they came, or, with `fixed`, of those that did not.
pub open spec fn middles_of(outcomes: Seq<Outcome>, fixed: bool, n: int) -> int
    decreases n,
{
    if n <= 0 {
        0
    } else {
        middles_of(outcomes, fixed, n - 1) + if outcomes[n - 1].valid != fixed {
            outcomes[n - 1].middle as int
        } else {
            0
        }
    }
}

/// The sum of the middle pages of the updates that obeyed the rules as they
/// came, or, with `fixed`, of those that had to be put in order.
pub fn sum_middles(outcomes: &Vec<Outcome>, fixed: bool) -> (sum: u128)
    ensures
        sum == middles_of(outcomes@, fixed, outcomes@.len() as int),
{
    let mut sum: u128 = 0;
    let mut i: usize = 0;
    while i < outcomes.len()
        invariant
            i <= outcomes.len(),
            sum == middles_of(outcomes@, fixed, i as int),
            sum <= 0x1_0000_0000 * i,
        decreases outcomes.len() - i,
    {
        if outcomes[i].valid != fixed {
            sum = sum + outcomes[i].middle as u128;
        }
        i += 1;
    }
    sum
}

} // verus!
