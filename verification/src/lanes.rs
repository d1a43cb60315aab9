//! The lanes of a trace: one per table, or one per value of a column.

use crate::batch::{batch, batch_bounds, batch_count, count_batches};
use crate::json::{Json, JsonV};
use crate::keys::{Binding, BindingV};
use crate::order::{
    arrange, arranged, arranged_keeps, arranged_multiset, arranged_views, group_by_text, holders,
    holders_count, holders_have, holders_hold, ints, order, order_has_all, order_is_stable,
    precedes, sort_set, sorted_set, sorted_set_holds, strictly_sorted, Rank, RankV,
};
use crate::schema::answers_view;
use crate::text::{
    cat3, decimal, digits, join, joined, leaf, opt_text, pieces, same, text_less,
    text_less_irreflexive, trim, trimmed, views, Text,
};
use crate::trace::{
    block_of, bound_bindings, bound_in, build_block, lookup, off_path, scalar_text, text_under,
    Block, BlockV, SpecV, TraceSpec, MAX_BLOCKS,
};
use vstd::prelude::*;

verus! {

#[derive(Clone, Copy, Debug, PartialEq, Eq, Structural)]
pub enum LaneState {
    /// The key value was found here.
    Reached,
    /// The table carries the key, but not this value.
    Awaiting,
    /// The table does not carry the key, so its emptiness means nothing.
    OffPath,
    Failed(u8),
}

#[derive(Debug, PartialEq)]
pub struct Lane {
    /// A table, or a value of the chosen lane column.
    pub name: String,
    /// The key's column for a table lane, the source tables for another.
    pub detail: Option<String>,
    pub blocks: Vec<Block>,
    pub state: LaneState,
    pub error: Option<String>,
}

#[verifier::ext_equal]
pub ghost struct LaneV {
    pub name: Text,
    pub detail: Option<Text>,
    pub blocks: Seq<BlockV>,
    pub state: LaneState,
    pub error: Option<Text>,
}

impl View for Lane {
    type V = LaneV;

    open spec fn view(&self) -> LaneV {
        LaneV {
            name: self.name@,
            detail: opt_text(self.detail),
            blocks: views(self.blocks@),
            state: self.state,
            error: opt_text(self.error),
        }
    }
}

fn copy_opt(o: &Option<String>) -> (r: Option<String>)
    ensures
        opt_text(r) == opt_text(*o),
{
    match o {
        Some(s) => Some(s.clone()),
        None => None,
    }
}

fn copy_blocks(blocks: &Vec<Block>) -> (r: Vec<Block>)
    ensures
        views(r@) == views(blocks@),
{
    let mut out: Vec<Block> = Vec::new();
    let mut i: usize = 0;
    while i < blocks.len()
        invariant
            i <= blocks@.len(),
            out@.len() == i,
            forall|k: int| 0 <= k < i ==> (#[trigger] out@[k])@ == blocks@[k]@,
        decreases blocks@.len() - i,
    {
        out.push(blocks[i].clone());
        i = i + 1;
    }
    assert(views(out@) =~= views(blocks@));
    out
}

impl Clone for Lane {
    fn clone(&self) -> (r: Lane)
        ensures
            r@ == self@,
    {
        Lane {
            name: self.name.clone(),
            detail: copy_opt(&self.detail),
            blocks: copy_blocks(&self.blocks),
            state: self.state,
            error: copy_opt(&self.error),
        }
    }
}

// ── Times ─────────────────────────────────────────────────────────────────

/// The earliest time among blocks.
pub open spec fn earliest(blocks: Seq<BlockV>) -> Option<i64>
    decreases blocks.len(),
{
    if blocks.len() == 0 {
        None
    } else {
        match (earliest(blocks.drop_last()), blocks.last().at) {
            (Some(a), Some(b)) => Some(
                if b < a {
                    b
                } else {
                    a
                },
            ),
            (Some(a), None) => Some(a),
            (None, b) => b,
        }
    }
}

/// The latest time among blocks.
pub open spec fn latest(blocks: Seq<BlockV>) -> Option<i64>
    decreases blocks.len(),
{
    if blocks.len() == 0 {
        None
    } else {
        match (latest(blocks.drop_last()), blocks.last().at) {
            (Some(a), Some(b)) => Some(
                if b > a {
                    b
                } else {
                    a
                },
            ),
            (Some(a), None) => Some(a),
            (None, b) => b,
        }
    }
}

pub open spec fn or_never(at: Option<i64>) -> int {
    match at {
        Some(t) => t as int,
        None => i64::MAX as int,
    }
}

pub open spec fn block_rank(b: BlockV) -> RankV {
    RankV { first: or_never(b.at), second: 0, text: Seq::empty() }
}

/// Blocks by time, those without one last.
pub open spec fn timed(blocks: Seq<BlockV>) -> Seq<BlockV> {
    arranged(blocks, blocks.map_values(|b: BlockV| block_rank(b)))
}

impl Lane {
    pub fn first_at(&self) -> (r: Option<i64>)
        ensures
            r == earliest(self@.blocks),
    {
        let ghost bv = views(self.blocks@);
        let mut r: Option<i64> = None;
        let mut i: usize = 0;
        assert(bv.take(0) =~= Seq::empty());
        while i < self.blocks.len()
            invariant
                i <= self.blocks@.len(),
                bv == views(self.blocks@),
                r == earliest(bv.take(i as int)),
            decreases self.blocks@.len() - i,
        {
            assert(bv.take(i + 1).drop_last() =~= bv.take(i as int));
            assert(bv.take(i + 1).last() == self.blocks@[i as int]@);
            let at: Option<i64> = self.blocks[i].at;
            r = match (r, at) {
                (Some(a), Some(b)) => Some(
                    if b < a {
                        b
                    } else {
                        a
                    },
                ),
                (Some(a), None) => Some(a),
                (None, b) => b,
            };
            i = i + 1;
        }
        assert(bv.take(i as int) =~= bv);
        r
    }

    fn last_at(&self) -> (r: Option<i64>)
        ensures
            r == latest(self@.blocks),
    {
        let ghost bv = views(self.blocks@);
        let mut r: Option<i64> = None;
        let mut i: usize = 0;
        assert(bv.take(0) =~= Seq::empty());
        while i < self.blocks.len()
            invariant
                i <= self.blocks@.len(),
                bv == views(self.blocks@),
                r == latest(bv.take(i as int)),
            decreases self.blocks@.len() - i,
        {
            assert(bv.take(i + 1).drop_last() =~= bv.take(i as int));
            assert(bv.take(i + 1).last() == self.blocks@[i as int]@);
            let at: Option<i64> = self.blocks[i].at;
            r = match (r, at) {
                (Some(a), Some(b)) => Some(
                    if b > a {
                        b
                    } else {
                        a
                    },
                ),
                (Some(a), None) => Some(a),
                (None, b) => b,
            };
            i = i + 1;
        }
        assert(bv.take(i as int) =~= bv);
        r
    }
}

fn sort_blocks(blocks: Vec<Block>) -> (r: Vec<Block>)
    ensures
        views(r@) == timed(views(blocks@)),
{
    let ghost bv = views(blocks@);
    let mut ranks: Vec<Rank> = Vec::new();
    let mut i: usize = 0;
    while i < blocks.len()
        invariant
            i <= blocks@.len(),
            bv == views(blocks@),
            ranks@.len() == i,
            forall|k: int| 0 <= k < i ==> (#[trigger] ranks@[k])@ == block_rank(bv[k]),
        decreases blocks@.len() - i,
    {
        let first: i128 = match blocks[i].at {
            Some(t) => t as i128,
            None => i64::MAX as i128,
        };
        let rank = Rank { first, second: 0, text: String::new() };
        assert(rank@.text =~= Seq::empty());
        ranks.push(rank);
        i = i + 1;
    }
    assert(views(ranks@) =~= bv.map_values(|b: BlockV| block_rank(b)));
    proof {
        arranged_views(blocks@, views(ranks@));
    }
    arrange(blocks, &ranks)
}

// ── Order of lanes ────────────────────────────────────────────────────────

pub open spec fn state_rank(s: LaneState) -> int {
    match s {
        LaneState::Reached => 0,
        LaneState::Awaiting => 1,
        LaneState::Failed(_) => 2,
        LaneState::OffPath => 3,
    }
}

pub open spec fn lane_rank(l: LaneV) -> RankV {
    RankV { first: state_rank(l.state), second: or_never(earliest(l.blocks)), text: l.name }
}

/// Lanes as the path the data took: those reached by time, then those not
/// reached.
pub open spec fn sorted_lanes(lanes: Seq<LaneV>) -> Seq<LaneV> {
    arranged(lanes, lanes.map_values(|l: LaneV| lane_rank(l)))
}

fn lanes_in_order(lanes: Vec<Lane>) -> (r: Vec<Lane>)
    ensures
        views(r@) == sorted_lanes(views(lanes@)),
{
    let ghost lv = views(lanes@);
    let mut ranks: Vec<Rank> = Vec::new();
    let mut i: usize = 0;
    while i < lanes.len()
        invariant
            i <= lanes@.len(),
            lv == views(lanes@),
            ranks@.len() == i,
            forall|k: int| 0 <= k < i ==> (#[trigger] ranks@[k])@ == lane_rank(lv[k]),
        decreases lanes@.len() - i,
    {
        let first: i128 = match lanes[i].state {
            LaneState::Reached => 0,
            LaneState::Awaiting => 1,
            LaneState::Failed(_) => 2,
            LaneState::OffPath => 3,
        };
        let second: i128 = match lanes[i].first_at() {
            Some(t) => t as i128,
            None => i64::MAX as i128,
        };
        ranks.push(Rank { first, second, text: lanes[i].name.clone() });
        i = i + 1;
    }
    assert(views(ranks@) =~= lv.map_values(|l: LaneV| lane_rank(l)));
    proof {
        arranged_views(lanes@, views(ranks@));
    }
    arrange(lanes, &ranks)
}

/// Puts lanes in the order of the path the data took.
pub fn sort_lanes(lanes: &mut Vec<Lane>)
    ensures
        views(final(lanes)@) == sorted_lanes(views(old(lanes)@)),
{
    let mut taken: Vec<Lane> = Vec::new();
    std::mem::swap(&mut taken, lanes);
    *lanes = lanes_in_order(taken);
}

// ── Traces ────────────────────────────────────────────────────────────────

#[derive(Debug, PartialEq)]
pub struct Trace {
    pub value: String,
    pub key_label: String,
    pub lanes: Vec<Lane>,
    /// Earliest and latest times, when any were found.
    pub span: Option<(i64, i64)>,
    pub blocks_found: usize,
    /// The value was matched as a fragment.
    pub partial: bool,
    /// Distinct key values hit, with their row counts. More than one means
    /// that the timeline would mix unrelated flows.
    pub matches: Vec<(String, usize)>,
}

#[verifier::ext_equal]
pub ghost struct TraceV {
    pub value: Text,
    pub key_label: Text,
    pub lanes: Seq<LaneV>,
    pub span: Option<(i64, i64)>,
    pub blocks_found: int,
    pub partial: bool,
    pub matches: Seq<(Text, int)>,
}

pub open spec fn counted(v: Seq<(String, usize)>) -> Seq<(Text, int)> {
    Seq::new(v.len(), |i: int| (v[i].0@, v[i].1 as int))
}

impl View for Trace {
    type V = TraceV;

    open spec fn view(&self) -> TraceV {
        TraceV {
            value: self.value@,
            key_label: self.key_label@,
            lanes: views(self.lanes@),
            span: self.span,
            blocks_found: self.blocks_found as int,
            partial: self.partial,
            matches: counted(self.matches@),
        }
    }
}

impl Clone for Trace {
    fn clone(&self) -> (r: Trace)
        ensures
            r@ == self@,
    {
        let mut matches: Vec<(String, usize)> = Vec::new();
        let mut i: usize = 0;
        while i < self.matches.len()
            invariant
                i <= self.matches@.len(),
                matches@.len() == i,
                forall|k: int| 0 <= k < i ==> (#[trigger] matches@[k]).0@ == self.matches@[k].0@,
                forall|k: int| 0 <= k < i ==> (#[trigger] matches@[k]).1 == self.matches@[k].1,
            decreases self.matches@.len() - i,
        {
            matches.push((self.matches[i].0.clone(), self.matches[i].1));
            i = i + 1;
        }
        assert(counted(matches@) =~= counted(self.matches@));
        Trace {
            value: self.value.clone(),
            key_label: self.key_label.clone(),
            lanes: copy_lanes(&self.lanes),
            span: self.span,
            blocks_found: self.blocks_found,
            partial: self.partial,
            matches,
        }
    }
}

fn copy_lanes(lanes: &Vec<Lane>) -> (r: Vec<Lane>)
    ensures
        views(r@) == views(lanes@),
{
    let mut out: Vec<Lane> = Vec::new();
    let mut i: usize = 0;
    while i < lanes.len()
        invariant
            i <= lanes@.len(),
            out@.len() == i,
            forall|k: int| 0 <= k < i ==> (#[trigger] out@[k])@ == lanes@[k]@,
        decreases lanes@.len() - i,
    {
        out.push(lanes[i].clone());
        i = i + 1;
    }
    assert(views(out@) =~= views(lanes@));
    out
}

/// How many lanes are in a state.
pub open spec fn in_state(lanes: Seq<LaneV>, s: LaneState) -> nat
    decreases lanes.len(),
{
    if lanes.len() == 0 {
        0
    } else {
        in_state(lanes.drop_last(), s) + if lanes.last().state == s {
            1nat
        } else {
            0
        }
    }
}

/// The first block of that id in some blocks.
pub open spec fn block_index(blocks: Seq<BlockV>, id: Text) -> Option<int>
    decreases blocks.len(),
{
    if blocks.len() == 0 {
        None
    } else {
        match block_index(blocks.drop_last(), id) {
            Some(i) => Some(i),
            None => if blocks.last().id == id {
                Some(blocks.len() - 1)
            } else {
                None
            },
        }
    }
}

/// The first lane with a block of that id, and the first such block.
pub open spec fn found_at(lanes: Seq<LaneV>, id: Text) -> Option<(int, int)>
    decreases lanes.len(),
{
    if lanes.len() == 0 {
        None
    } else {
        match found_at(lanes.drop_last(), id) {
            Some(p) => Some(p),
            None => match block_index(lanes.last().blocks, id) {
                Some(j) => Some((lanes.len() - 1, j)),
                None => None,
            },
        }
    }
}

fn index_of_block(blocks: &Vec<Block>, id: &str) -> (r: Option<usize>)
    ensures
        match r {
            Some(i) => i < blocks@.len() && block_index(views(blocks@), id@) == Some(i as int),
            None => block_index(views(blocks@), id@) is None,
        },
{
    let ghost bv = views(blocks@);
    let mut r: Option<usize> = None;
    let mut i: usize = 0;
    assert(bv.take(0) =~= Seq::empty());
    while i < blocks.len()
        invariant
            i <= blocks@.len(),
            bv == views(blocks@),
            match r {
                Some(x) => x < i && block_index(bv.take(i as int), id@) == Some(x as int),
                None => block_index(bv.take(i as int), id@) is None,
            },
        decreases blocks@.len() - i,
    {
        assert(bv.take(i + 1).drop_last() =~= bv.take(i as int));
        assert(bv.take(i + 1).last() == blocks@[i as int]@);
        if r.is_none() && same(blocks[i].id.as_str(), id) {
            r = Some(i);
        }
        i = i + 1;
    }
    assert(bv.take(i as int) =~= bv);
    r
}

impl Trace {
    fn count_state(&self, s: LaneState) -> (r: usize)
        ensures
            r == in_state(self@.lanes, s),
    {
        let ghost lv = views(self.lanes@);
        let mut n: usize = 0;
        let mut i: usize = 0;
        assert(lv.take(0) =~= Seq::empty());
        while i < self.lanes.len()
            invariant
                i <= self.lanes@.len(),
                lv == views(self.lanes@),
                n <= i,
                n == in_state(lv.take(i as int), s),
            decreases self.lanes@.len() - i,
        {
            assert(lv.take(i + 1).drop_last() =~= lv.take(i as int));
            assert(lv.take(i + 1).last() == self.lanes@[i as int]@);
            if self.lanes[i].state == s {
                n = n + 1;
            }
            i = i + 1;
        }
        assert(lv.take(i as int) =~= lv);
        n
    }

    pub fn reached(&self) -> (r: usize)
        ensures
            r == in_state(self@.lanes, LaneState::Reached),
    {
        self.count_state(LaneState::Reached)
    }

    pub fn awaiting(&self) -> (r: usize)
        ensures
            r == in_state(self@.lanes, LaneState::Awaiting),
    {
        self.count_state(LaneState::Awaiting)
    }

    /// Resolves a card selection back to its lane and row.
    pub fn find_block(&self, id: &str) -> (r: Option<(&Lane, &Block)>)
        ensures
            match r {
                Some((l, b)) => found_at(self@.lanes, id@) matches Some((i, j)) && l@
                    == self@.lanes[i] && b@ == self@.lanes[i].blocks[j] && b@.id == id@,
                None => found_at(self@.lanes, id@) is None,
            },
    {
        let ghost lv = views(self.lanes@);
        let mut i: usize = 0;
        assert(lv.take(0) =~= Seq::empty());
        while i < self.lanes.len()
            invariant
                i <= self.lanes@.len(),
                lv == views(self.lanes@),
                found_at(lv.take(i as int), id@) is None,
            decreases self.lanes@.len() - i,
        {
            assert(lv.take(i + 1).drop_last() =~= lv.take(i as int));
            assert(lv.take(i + 1).last() == self.lanes@[i as int]@);
            if let Some(j) = index_of_block(&self.lanes[i].blocks, id) {
                proof {
                    found_stays(lv, i + 1, id@);
                    block_index_is(views(self.lanes@[i as int].blocks@), id@);
                    assert(lv[i as int] == self.lanes@[i as int]@);
                    assert(views(self.lanes@[i as int].blocks@)[j as int]
                        == self.lanes@[i as int].blocks@[j as int]@);
                }
                return Some((&self.lanes[i], &self.lanes[i].blocks[j]));
            }
            i = i + 1;
        }
        assert(lv.take(i as int) =~= lv);
        None
    }
}

proof fn found_stays(lanes: Seq<LaneV>, n: int, id: Text)
    requires
        0 <= n <= lanes.len(),
        found_at(lanes.take(n), id) is Some,
    ensures
        found_at(lanes, id) == found_at(lanes.take(n), id),
    decreases lanes.len() - n,
{
    if n < lanes.len() {
        assert(lanes.take(n + 1).drop_last() =~= lanes.take(n));
        found_stays(lanes, n + 1, id);
    } else {
        assert(lanes.take(n) =~= lanes);
    }
}

proof fn block_index_is(blocks: Seq<BlockV>, id: Text)
    ensures
        block_index(blocks, id) matches Some(i) ==> 0 <= i < blocks.len() && blocks[i].id == id,
    decreases blocks.len(),
{
    if blocks.len() > 0 {
        block_index_is(blocks.drop_last(), id);
    }
}

// ── Assembling ────────────────────────────────────────────────────────────

/// The rows of one answer that belong to a table.
pub open spec fn rows_tagged(rows: Seq<JsonV>, table: Text) -> Seq<JsonV>
    decreases rows.len(),
{
    if rows.len() == 0 {
        Seq::empty()
    } else {
        let before = rows_tagged(rows.drop_last(), table);
        if rows.last().text_at("__ais_lane"@) == Some(table) {
            before.push(rows.last())
        } else {
            before
        }
    }
}

/// The rows of a table, from all answers in order.
pub open spec fn table_rows(answers: Seq<Result<Seq<JsonV>, Text>>, table: Text) -> Seq<JsonV>
    decreases answers.len(),
{
    if answers.len() == 0 {
        Seq::empty()
    } else {
        let before = table_rows(answers.drop_last(), table);
        match answers.last() {
            Ok(rows) => before + rows_tagged(rows, table),
            Err(_) => before,
        }
    }
}

pub open spec fn binds(bound: Seq<BindingV>, table: Text) -> bool {
    exists|i: int| 0 <= i < bound.len() && (#[trigger] bound[i]).table == table
}

/// Why a table could not be read: the last of the first `n` batches that
/// covers it and failed.
pub open spec fn failure_among(
    bound: Seq<BindingV>,
    answers: Seq<Result<Seq<JsonV>, Text>>,
    table: Text,
    n: int,
) -> Option<Text>
    decreases n,
{
    if n <= 0 {
        None
    } else {
        match answers[n - 1] {
            Err(e) => if binds(batch(bound, n - 1), table) {
                Some(e)
            } else {
                failure_among(bound, answers, table, n - 1)
            },
            Ok(_) => failure_among(bound, answers, table, n - 1),
        }
    }
}

pub open spec fn batches_answered(bound: Seq<BindingV>, answers: Seq<Result<Seq<JsonV>, Text>>) -> int {
    if answers.len() <= batch_count(bound.len() as int) {
        answers.len() as int
    } else {
        batch_count(bound.len() as int)
    }
}

pub open spec fn failure_of(
    bound: Seq<BindingV>,
    answers: Seq<Result<Seq<JsonV>, Text>>,
    table: Text,
) -> Option<Text> {
    failure_among(bound, answers, table, batches_answered(bound, answers))
}

pub open spec fn block_id(table: Text, i: int) -> Text {
    table + "#"@ + digits(i as nat)
}

/// The cards of a table, in the order its rows came.
pub open spec fn row_blocks(rows: Seq<JsonV>, spec_: SpecV, b: BindingV) -> Seq<BlockV> {
    Seq::new(
        if rows.len() <= MAX_BLOCKS {
            rows.len()
        } else {
            MAX_BLOCKS as nat
        },
        |i: int| block_of(rows[i], spec_, b.table, b.field, block_id(b.table, i)),
    )
}

/// The rows that the lane of binding `i` shows. A table listed twice shows
/// them once.
pub open spec fn lane_rows(
    bound: Seq<BindingV>,
    answers: Seq<Result<Seq<JsonV>, Text>>,
    i: int,
) -> Seq<JsonV> {
    if binds(bound.take(i), bound[i].table) {
        Seq::empty()
    } else {
        table_rows(answers, bound[i].table)
    }
}

/// The lane of a table that carries the key.
pub open spec fn bound_lane(
    bound: Seq<BindingV>,
    answers: Seq<Result<Seq<JsonV>, Text>>,
    spec_: SpecV,
    i: int,
) -> LaneV {
    let b = bound[i];
    match failure_of(bound, answers, b.table) {
        Some(e) => LaneV {
            name: b.table,
            detail: Some(b.field),
            blocks: Seq::empty(),
            state: LaneState::Failed(0),
            error: Some(e),
        },
        None => {
            let blocks = timed(row_blocks(lane_rows(bound, answers, i), spec_, b));
            LaneV {
                name: b.table,
                detail: Some(b.field),
                blocks,
                state: if blocks.len() == 0 {
                    LaneState::Awaiting
                } else {
                    LaneState::Reached
                },
                error: None,
            }
        },
    }
}

/// The lane of a table that does not carry the key.
pub open spec fn off_lane(table: Text) -> LaneV {
    LaneV {
        name: table,
        detail: None,
        blocks: Seq::empty(),
        state: LaneState::OffPath,
        error: None,
    }
}

pub open spec fn table_lanes(
    tables: Seq<Text>,
    spec_: SpecV,
    answers: Seq<Result<Seq<JsonV>, Text>>,
) -> Seq<LaneV> {
    let bound = bound_in(tables, spec_.key.bindings);
    off_path(tables, spec_.key.bindings).map_values(|t: Text| off_lane(t)) + Seq::new(
        bound.len(),
        |i: int| bound_lane(bound, answers, spec_, i),
    )
}

/// All blocks, lane by lane.
pub open spec fn all_blocks(lanes: Seq<LaneV>) -> Seq<BlockV>
    decreases lanes.len(),
{
    if lanes.len() == 0 {
        Seq::empty()
    } else {
        all_blocks(lanes.drop_last()) + lanes.last().blocks
    }
}

pub open spec fn span_of(blocks: Seq<BlockV>) -> Option<(i64, i64)> {
    match (earliest(blocks), latest(blocks)) {
        (Some(a), Some(b)) => Some((a, b)),
        _ => None,
    }
}

/// The key values that blocks carry, in order.
pub open spec fn carried_values(blocks: Seq<BlockV>) -> Seq<Text>
    decreases blocks.len(),
{
    if blocks.len() == 0 {
        Seq::empty()
    } else {
        let before = carried_values(blocks.drop_last());
        if blocks.last().key_value.len() > 0 {
            before.push(blocks.last().key_value)
        } else {
            before
        }
    }
}

pub open spec fn value_counts(values: Seq<Text>) -> Seq<(Text, int)> {
    sorted_set(values).map_values(|v: Text| (v, holders(values, v).len() as int))
}

pub open spec fn match_rank(m: (Text, int)) -> RankV {
    RankV { first: -m.1, second: 0, text: m.0 }
}

/// The distinct values with how often each occurs, most first.
pub open spec fn matches_of(values: Seq<Text>) -> Seq<(Text, int)> {
    let counts = value_counts(values);
    arranged(counts, counts.map_values(|m: (Text, int)| match_rank(m)))
}

pub open spec fn at_most_usize(n: int) -> int {
    if n > usize::MAX {
        usize::MAX as int
    } else {
        n
    }
}

/// The trace that the answers to its queries make.
pub open spec fn trace_of(
    tables: Seq<Text>,
    spec_: SpecV,
    partial: bool,
    answers: Seq<Result<Seq<JsonV>, Text>>,
) -> TraceV {
    let lanes = sorted_lanes(table_lanes(tables, spec_, answers));
    let blocks = all_blocks(lanes);
    TraceV {
        value: spec_.value,
        key_label: spec_.key.label,
        lanes,
        span: span_of(blocks),
        blocks_found: at_most_usize(blocks.len() as int),
        partial,
        matches: matches_of(carried_values(blocks)),
    }
}

fn binds_table(bound: &Vec<Binding>, from: usize, to: usize, table: &str) -> (r: bool)
    requires
        from <= to <= bound@.len(),
    ensures
        r == binds(views(bound@).subrange(from as int, to as int), table@),
{
    let ghost part = views(bound@).subrange(from as int, to as int);
    let mut i: usize = from;
    while i < to
        invariant
            from <= i <= to <= bound@.len(),
            part == views(bound@).subrange(from as int, to as int),
            forall|k: int| 0 <= k < i - from ==> (#[trigger] part[k]).table != table@,
        decreases to - i,
    {
        assert(part[i - from] == bound@[i as int]@);
        if same(bound[i].table.as_str(), table) {
            return true;
        }
        i = i + 1;
    }
    false
}

fn find_failure(
    bound: &Vec<Binding>,
    answers: &Vec<Result<Vec<Json>, String>>,
    table: &str,
) -> (r: Option<String>)
    ensures
        opt_text(r) == failure_of(views(bound@), answers_view(answers@), table@),
{
    let ghost bv = views(bound@);
    let ghost av = answers_view(answers@);
    let count: usize = count_batches(bound.len());
    let total: usize = if answers.len() <= count {
        answers.len()
    } else {
        count
    };
    assert(bv.len() == bound@.len());
    let mut n: usize = total;
    while n > 0
        invariant
            n <= total,
            total <= answers@.len(),
            total <= batch_count(bound@.len() as int),
            bv == views(bound@),
            bv.len() == bound@.len(),
            av == answers_view(answers@),
            failure_of(bv, av, table@) == failure_among(bv, av, table@, n as int),
        decreases n,
    {
        n = n - 1;
        if let Err(e) = &answers[n] {
            assert(av[n as int] == Err::<Seq<JsonV>, Text>(e@));
            let (from, to) = batch_bounds(bound.len(), n);
            if binds_table(bound, from, to, table) {
                return Some(e.clone());
            }
        } else {
            assert(av[n as int] is Ok);
        }
    }
    None
}

fn blocks_for(
    answers: &Vec<Result<Vec<Json>, String>>,
    spec_: &TraceSpec,
    b: &Binding,
) -> (r: Vec<Block>)
    ensures
        views(r@) == row_blocks(table_rows(answers_view(answers@), b@.table), spec_@, b@),
{
    let ghost av = answers_view(answers@);
    let ghost bv = b@;
    let ghost sv = spec_@;
    let mut out: Vec<Block> = Vec::new();
    let ghost mut rows: Seq<JsonV> = Seq::empty();
    let mut a: usize = 0;
    assert(av.take(0) =~= Seq::empty());
    assert(views(out@) =~= row_blocks(rows, sv, bv));
    while a < answers.len()
        invariant
            a <= answers@.len(),
            av == answers_view(answers@),
            bv == b@,
            sv == spec_@,
            rows == table_rows(av.take(a as int), bv.table),
            views(out@) == row_blocks(rows, sv, bv),
        decreases answers@.len() - a,
    {
        assert(av.take(a + 1).drop_last() =~= av.take(a as int));
        assert(av.take(a + 1).last() == av[a as int]);
        if let Ok(found) = &answers[a] {
            let ghost fv = views(found@);
            assert(av[a as int] == Ok::<Seq<JsonV>, Text>(fv));
            let ghost start = rows;
            let mut i: usize = 0;
            assert(fv.take(0) =~= Seq::empty());
            assert(start + rows_tagged(fv.take(0), bv.table) =~= start);
            while i < found.len()
                invariant
                    i <= found@.len(),
                    fv == views(found@),
                    bv == b@,
                    sv == spec_@,
                    rows == start + rows_tagged(fv.take(i as int), bv.table),
                    views(out@) == row_blocks(rows, sv, bv),
                decreases found@.len() - i,
            {
                assert(fv.take(i + 1).drop_last() =~= fv.take(i as int));
                assert(fv.take(i + 1).last() == found@[i as int]@);
                let tagged: bool = match found[i].text_at("__ais_lane") {
                    Some(t) => same(t.as_str(), b.table.as_str()),
                    None => false,
                };
                if tagged {
                    let ghost before = rows;
                    proof {
                        rows = rows.push(found@[i as int]@);
                        assert(rows =~= start + rows_tagged(fv.take(i + 1), bv.table));
                    }
                    assert(views(out@).len() == out@.len());
                    if out.len() < MAX_BLOCKS {
                        let ghost so_far = views(out@);
                        let id = cat3(
                            b.table.as_str(),
                            "#",
                            decimal(out.len() as u128).as_str(),
                        );
                        let block = build_block(
                            &found[i],
                            spec_,
                            b.table.as_str(),
                            b.field.as_str(),
                            id.as_str(),
                        );
                        let ghost blv = block@;
                        out.push(block);
                        assert(views(out@) =~= so_far.push(blv));
                    }
                    assert(views(out@) =~= row_blocks(rows, sv, bv));
                }
                i = i + 1;
            }
            assert(fv.take(i as int) =~= fv);
        }
        a = a + 1;
    }
    assert(av.take(a as int) =~= av);
    out
}

fn off_lanes(tables: &Vec<String>, spec_: &TraceSpec) -> (r: Vec<Lane>)
    ensures
        views(r@) == off_path(views(tables@), spec_@.key.bindings).map_values(
            |t: Text| off_lane(t),
        ),
{
    let ghost tv = views(tables@);
    let ghost bs = spec_@.key.bindings;
    let mut out: Vec<Lane> = Vec::new();
    let mut i: usize = 0;
    assert(tv.take(0) =~= Seq::empty());
    assert(views(out@) =~= off_path(tv.take(0), bs).map_values(|t: Text| off_lane(t)));
    while i < tables.len()
        invariant
            i <= tables@.len(),
            tv == views(tables@),
            bs == spec_@.key.bindings,
            views(out@) == off_path(tv.take(i as int), bs).map_values(|t: Text| off_lane(t)),
        decreases tables@.len() - i,
    {
        assert(tv.take(i + 1).drop_last() =~= tv.take(i as int));
        assert(tv.take(i + 1).last() == tables@[i as int]@);
        if spec_.key.binding_for(tables[i].as_str()).is_none() {
            let ghost before = views(out@);
            let lane = Lane {
                name: tables[i].clone(),
                detail: None,
                blocks: Vec::new(),
                state: LaneState::OffPath,
                error: None,
            };
            assert(lane@ =~= off_lane(tv[i as int]));
            out.push(lane);
            assert(views(out@) =~= before.push(off_lane(tv[i as int])));
            assert(views(out@) =~= off_path(tv.take(i + 1), bs).map_values(|t: Text| off_lane(t)));
        }
        i = i + 1;
    }
    assert(tv.take(i as int) =~= tv);
    out
}

fn lane_for(
    bound: &Vec<Binding>,
    answers: &Vec<Result<Vec<Json>, String>>,
    spec_: &TraceSpec,
    i: usize,
) -> (r: Lane)
    requires
        i < bound@.len(),
    ensures
        r@ == bound_lane(views(bound@), answers_view(answers@), spec_@, i as int),
{
    let b = &bound[i];
    let ghost bv = views(bound@);
    let ghost av = answers_view(answers@);
    assert(bv[i as int] == b@);
    match find_failure(bound, answers, b.table.as_str()) {
        Some(e) => {
            let lane = Lane {
                name: b.table.clone(),
                detail: Some(b.field.clone()),
                blocks: Vec::new(),
                state: LaneState::Failed(0),
                error: Some(e),
            };
            assert(lane@ =~= bound_lane(bv, av, spec_@, i as int));
            lane
        },
        None => {
            let repeated = binds_table(bound, 0, i, b.table.as_str());
            assert(bv.subrange(0, i as int) =~= bv.take(i as int));
            let found: Vec<Block> = if repeated {
                let none: Vec<Block> = Vec::new();
                assert(views(none@) =~= row_blocks(Seq::empty(), spec_@, b@));
                none
            } else {
                blocks_for(answers, spec_, b)
            };
            let blocks = sort_blocks(found);
            assert(views(blocks@).len() == blocks@.len());
            let state = if blocks.len() == 0 {
                LaneState::Awaiting
            } else {
                LaneState::Reached
            };
            Lane {
                name: b.table.clone(),
                detail: Some(b.field.clone()),
                blocks,
                state,
                error: None,
            }
        },
    }
}

proof fn earliest_split(a: Seq<BlockV>, b: Seq<BlockV>)
    ensures
        earliest(a + b) == match (earliest(a), earliest(b)) {
            (Some(x), Some(y)) => Some(
                if y < x {
                    y
                } else {
                    x
                },
            ),
            (Some(x), None) => Some(x),
            (None, y) => y,
        },
        latest(a + b) == match (latest(a), latest(b)) {
            (Some(x), Some(y)) => Some(
                if y > x {
                    y
                } else {
                    x
                },
            ),
            (Some(x), None) => Some(x),
            (None, y) => y,
        },
    decreases b.len(),
{
    if b.len() == 0 {
        assert(a + b =~= a);
    } else {
        earliest_split(a, b.drop_last());
        assert((a + b).drop_last() =~= a + b.drop_last());
    }
}

fn span_over(lanes: &Vec<Lane>) -> (r: Option<(i64, i64)>)
    ensures
        r == span_of(all_blocks(views(lanes@))),
{
    let ghost lv = views(lanes@);
    let mut lo: Option<i64> = None;
    let mut hi: Option<i64> = None;
    let mut i: usize = 0;
    assert(lv.take(0) =~= Seq::empty());
    while i < lanes.len()
        invariant
            i <= lanes@.len(),
            lv == views(lanes@),
            lo == earliest(all_blocks(lv.take(i as int))),
            hi == latest(all_blocks(lv.take(i as int))),
        decreases lanes@.len() - i,
    {
        assert(lv.take(i + 1).drop_last() =~= lv.take(i as int));
        assert(lv.take(i + 1).last() == lanes@[i as int]@);
        proof {
            earliest_split(all_blocks(lv.take(i as int)), lanes@[i as int]@.blocks);
        }
        lo = match (lo, lanes[i].first_at()) {
            (Some(x), Some(y)) => Some(
                if y < x {
                    y
                } else {
                    x
                },
            ),
            (Some(x), None) => Some(x),
            (None, y) => y,
        };
        hi = match (hi, lanes[i].last_at()) {
            (Some(x), Some(y)) => Some(
                if y > x {
                    y
                } else {
                    x
                },
            ),
            (Some(x), None) => Some(x),
            (None, y) => y,
        };
        i = i + 1;
    }
    assert(lv.take(i as int) =~= lv);
    match (lo, hi) {
        (Some(a), Some(b)) => Some((a, b)),
        _ => None,
    }
}

proof fn carried_split(a: Seq<BlockV>, b: Seq<BlockV>)
    ensures
        carried_values(a + b) == carried_values(a) + carried_values(b),
    decreases b.len(),
{
    if b.len() == 0 {
        assert(a + b =~= a);
        assert(carried_values(a) + carried_values(b) =~= carried_values(a));
    } else {
        carried_split(a, b.drop_last());
        assert((a + b).drop_last() =~= a + b.drop_last());
        assert(carried_values(a + b) =~= carried_values(a) + carried_values(b));
    }
}

fn values_over(lanes: &Vec<Lane>) -> (r: Vec<String>)
    ensures
        views(r@) == carried_values(all_blocks(views(lanes@))),
{
    let ghost lv = views(lanes@);
    let mut out: Vec<String> = Vec::new();
    let mut i: usize = 0;
    assert(lv.take(0) =~= Seq::empty());
    assert(views(out@) =~= carried_values(all_blocks(lv.take(0))));
    while i < lanes.len()
        invariant
            i <= lanes@.len(),
            lv == views(lanes@),
            views(out@) == carried_values(all_blocks(lv.take(i as int))),
        decreases lanes@.len() - i,
    {
        let blocks = &lanes[i].blocks;
        let ghost bv = views(blocks@);
        let ghost before = views(out@);
        assert(lv.take(i + 1).drop_last() =~= lv.take(i as int));
        assert(lv.take(i + 1).last() == lanes@[i as int]@);
        let mut j: usize = 0;
        assert(bv.take(0) =~= Seq::empty());
        assert(before + carried_values(bv.take(0)) =~= before);
        while j < blocks.len()
            invariant
                j <= blocks@.len(),
                bv == views(blocks@),
                views(out@) == before + carried_values(bv.take(j as int)),
            decreases blocks@.len() - j,
        {
            assert(bv.take(j + 1).drop_last() =~= bv.take(j as int));
            assert(bv.take(j + 1).last() == blocks@[j as int]@);
            if !blocks[j].key_value.as_str().is_empty() {
                let ghost so_far = views(out@);
                out.push(blocks[j].key_value.clone());
                assert(views(out@) =~= so_far.push(bv[j as int].key_value));
                assert(views(out@) =~= before + carried_values(bv.take(j + 1)));
            }
            j = j + 1;
        }
        assert(bv.take(j as int) =~= bv);
        proof {
            carried_split(all_blocks(lv.take(i as int)), bv);
        }
        i = i + 1;
    }
    assert(lv.take(i as int) =~= lv);
    out
}

proof fn counted_arranged(v: Seq<(String, usize)>, ranks: Seq<RankV>)
    requires
        v.len() == ranks.len(),
    ensures
        counted(arranged(v, ranks)) == arranged(counted(v), ranks),
{
    crate::order::order_is_stable(ranks);
    let o = crate::order::order(ranks);
    assert(counted(arranged(v, ranks)) =~= arranged(counted(v), ranks)) by {
        assert forall|k: int| 0 <= k < o.len() implies (#[trigger] counted(arranged(v, ranks))[k])
            == counted(v)[o[k]] by {
            assert(0 <= o[k] < v.len());
        }
    }
}

fn count_matches(values: &Vec<String>) -> (r: Vec<(String, usize)>)
    ensures
        counted(r@) == matches_of(views(values@)),
{
    let ghost vv = views(values@);
    let (set, groups) = group_by_text(values);
    let names = set.into_items();
    let ghost nv = views(names@);
    let mut out: Vec<(String, usize)> = Vec::new();
    let mut ranks: Vec<Rank> = Vec::new();
    let mut i: usize = 0;
    assert(nv.len() == names@.len());
    while i < names.len()
        invariant
            i <= names@.len(),
            nv == views(names@),
            nv.len() == names@.len(),
            groups@.len() == nv.len(),
            forall|k: int|
                0 <= k < groups@.len() ==> ints((#[trigger] groups@[k])@) == holders(vv, nv[k]),
            out@.len() == i,
            ranks@.len() == i,
            forall|k: int| 0 <= k < i ==> (#[trigger] out@[k]).0@ == nv[k],
            forall|k: int| 0 <= k < i ==> (#[trigger] out@[k]).1 == holders(vv, nv[k]).len(),
            forall|k: int|
                0 <= k < i ==> (#[trigger] ranks@[k])@ == match_rank(
                    (nv[k], holders(vv, nv[k]).len() as int),
                ),
        decreases names@.len() - i,
    {
        let n: usize = groups[i].len();
        assert(ints(groups@[i as int]@).len() == n);
        out.push((names[i].clone(), n));
        ranks.push(Rank { first: -(n as i128), second: 0, text: names[i].clone() });
        i = i + 1;
    }
    assert(counted(out@) =~= value_counts(vv));
    assert(views(ranks@) =~= value_counts(vv).map_values(|m: (Text, int)| match_rank(m)));
    proof {
        counted_arranged(out@, views(ranks@));
    }
    arrange(out, &ranks)
}

fn count_blocks(lanes: &Vec<Lane>) -> (r: usize)
    ensures
        r == at_most_usize(all_blocks(views(lanes@)).len() as int),
{
    let ghost lv = views(lanes@);
    let mut total: u128 = 0;
    let mut i: usize = 0;
    assert(lv.take(0) =~= Seq::empty());
    while i < lanes.len()
        invariant
            i <= lanes@.len(),
            lv == views(lanes@),
            total == all_blocks(lv.take(i as int)).len(),
            total <= i * usize::MAX,
        decreases lanes@.len() - i,
    {
        assert(lv.take(i + 1).drop_last() =~= lv.take(i as int));
        assert(lv.take(i + 1).last() == lanes@[i as int]@);
        assert(views(lanes@[i as int].blocks@).len() == lanes@[i as int].blocks@.len());
        let n: usize = lanes[i].blocks.len();
        assert(i * usize::MAX + usize::MAX <= 0xffff_ffff_ffff_ffff * 0xffff_ffff_ffff_ffff
            + 0xffff_ffff_ffff_ffff) by (nonlinear_arith)
            requires
                i <= 0xffff_ffff_ffff_ffff,
                usize::MAX <= 0xffff_ffff_ffff_ffff,
        ;
        assert(i * usize::MAX + usize::MAX == (i + 1) * usize::MAX) by (nonlinear_arith);
        total = total + n as u128;
        i = i + 1;
    }
    assert(lv.take(i as int) =~= lv);
    if total > usize::MAX as u128 {
        usize::MAX
    } else {
        total as usize
    }
}

/// Puts a trace together from the answers to its queries. Lanes are always
/// tables here: another axis is a matter of display, see [`relane`].
pub fn assemble(
    tables: &Vec<String>,
    spec_: &TraceSpec,
    partial: bool,
    answers: &Vec<Result<Vec<Json>, String>>,
) -> (r: Trace)
    ensures
        r@ == trace_of(views(tables@), spec_@, partial, answers_view(answers@)),
{
    let ghost av = answers_view(answers@);
    let mut lanes = off_lanes(tables, spec_);
    let ghost off = views(lanes@);
    let bound = bound_bindings(tables, &spec_.key);
    let ghost bv = views(bound@);
    assert(bv.len() == bound@.len());
    let ghost all = Seq::new(bv.len(), |i: int| bound_lane(bv, av, spec_@, i));
    let mut i: usize = 0;
    assert(off + all.take(0) =~= off);
    while i < bound.len()
        invariant
            i <= bound@.len(),
            bv == views(bound@),
            bv.len() == bound@.len(),
            av == answers_view(answers@),
            all == Seq::new(bv.len(), |i: int| bound_lane(bv, av, spec_@, i)),
            views(lanes@) == off + all.take(i as int),
        decreases bound@.len() - i,
    {
        let ghost before = views(lanes@);
        let lane = lane_for(&bound, answers, spec_, i);
        let ghost lv = lane@;
        lanes.push(lane);
        assert(views(lanes@) =~= before.push(lv));
        assert(all[i as int] == lv);
        assert(views(lanes@) =~= off + all.take(i + 1));
        i = i + 1;
    }
    assert(all.take(i as int) =~= all);
    let lanes = lanes_in_order(lanes);
    let values = values_over(&lanes);
    Trace {
        value: spec_.value.clone(),
        key_label: spec_.key.label.clone(),
        span: span_over(&lanes),
        blocks_found: count_blocks(&lanes),
        partial,
        matches: count_matches(&values),
        lanes,
    }
}

// ── Exact, then fragment ──────────────────────────────────────────────────

/// Whether to look for the value as a fragment: nothing carries it exactly,
/// and there is something to look for.
pub fn needs_fragment(exact: &Trace, value: &str) -> (r: bool)
    ensures
        r == (exact@.blocks_found == 0 && trimmed(value@).len() > 0),
{
    exact.blocks_found == 0 && !trim(value).as_str().is_empty()
}

/// The trace to show of the two attempts. With nothing either way the exact
/// attempt is reported: its lanes describe the workspace rather than a
/// failed scan.
pub fn choose_trace(exact: Trace, fragment: Trace) -> (r: Trace)
    ensures
        r@ == if fragment@.blocks_found == 0 {
            exact@
        } else {
            fragment@
        },
{
    if fragment.blocks_found == 0 {
        exact
    } else {
        fragment
    }
}

// ── Another axis ──────────────────────────────────────────────────────────

pub open spec fn is_failed(s: LaneState) -> bool {
    s is Failed
}

/// The blocks of the lanes that could be read, lane by lane.
pub open spec fn readable_blocks(lanes: Seq<LaneV>) -> Seq<BlockV>
    decreases lanes.len(),
{
    if lanes.len() == 0 {
        Seq::empty()
    } else {
        let before = readable_blocks(lanes.drop_last());
        if is_failed(lanes.last().state) {
            before
        } else {
            before + lanes.last().blocks
        }
    }
}

/// The lanes that could not be read, in order.
pub open spec fn failed_lanes(lanes: Seq<LaneV>) -> Seq<LaneV>
    decreases lanes.len(),
{
    if lanes.len() == 0 {
        Seq::empty()
    } else {
        let before = failed_lanes(lanes.drop_last());
        if is_failed(lanes.last().state) {
            before.push(lanes.last())
        } else {
            before
        }
    }
}

/// What a block without a value for the column is filed under.
pub open spec fn unlabelled(lane_field: Text) -> Text {
    "(no "@ + pieces(lane_field, '.').last() + ")"@
}

/// The lane that a block belongs to.
pub open spec fn lane_name(b: BlockV, lane_field: Text) -> Text {
    match text_under(b.doc, lane_field) {
        Some(t) => t,
        None => unlabelled(lane_field),
    }
}

pub open spec fn lane_names(blocks: Seq<BlockV>, lane_field: Text) -> Seq<Text> {
    blocks.map_values(|b: BlockV| lane_name(b, lane_field))
}

/// The blocks that belong to a lane, by time.
pub open spec fn blocks_under(blocks: Seq<BlockV>, lane_field: Text, name: Text) -> Seq<BlockV> {
    timed(holders(lane_names(blocks, lane_field), name).map_values(|i: int| blocks[i]))
}

pub open spec fn sources(blocks: Seq<BlockV>) -> Seq<Text> {
    sorted_set(blocks.map_values(|b: BlockV| b.table))
}

pub open spec fn field_lane(blocks: Seq<BlockV>, name: Text) -> LaneV {
    LaneV {
        name,
        detail: if blocks.len() == 0 {
            None
        } else {
            Some(joined(sources(blocks), ", "@))
        },
        blocks,
        state: if blocks.len() == 0 {
            LaneState::Awaiting
        } else {
            LaneState::Reached
        },
        error: None,
    }
}

/// The names of the lanes: every stage known of, whether or not the value
/// reached it.
pub open spec fn axis(blocks: Seq<BlockV>, lane_field: Text, expected: Seq<Text>) -> Seq<Text> {
    sorted_set(expected + lane_names(blocks, lane_field))
}

/// Table lanes as lanes of a column's values. Lanes that could not be read
/// stay: an error is not the same as nothing here.
pub open spec fn regrouped(lanes: Seq<LaneV>, lane_field: Text, expected: Seq<Text>) -> Seq<LaneV> {
    let blocks = readable_blocks(lanes);
    axis(blocks, lane_field, expected).map_values(
        |n: Text| field_lane(blocks_under(blocks, lane_field, n), n),
    ) + failed_lanes(lanes)
}

/// A trace on another axis.
pub open spec fn relaned(base: TraceV, lane_field: Text, expected: Seq<Text>) -> TraceV {
    if lane_field.len() == 0 {
        base
    } else {
        TraceV { lanes: sorted_lanes(regrouped(base.lanes, lane_field, expected)), ..base }
    }
}

fn split_lanes(lanes: &Vec<Lane>) -> (r: (Vec<Block>, Vec<Lane>))
    ensures
        views(r.0@) == readable_blocks(views(lanes@)),
        views(r.1@) == failed_lanes(views(lanes@)),
{
    let ghost lv = views(lanes@);
    let mut blocks: Vec<Block> = Vec::new();
    let mut failed: Vec<Lane> = Vec::new();
    let mut i: usize = 0;
    assert(lv.take(0) =~= Seq::empty());
    assert(views(blocks@) =~= readable_blocks(lv.take(0)));
    assert(views(failed@) =~= failed_lanes(lv.take(0)));
    while i < lanes.len()
        invariant
            i <= lanes@.len(),
            lv == views(lanes@),
            views(blocks@) == readable_blocks(lv.take(i as int)),
            views(failed@) == failed_lanes(lv.take(i as int)),
        decreases lanes@.len() - i,
    {
        let lane = &lanes[i];
        assert(lv.take(i + 1).drop_last() =~= lv.take(i as int));
        assert(lv.take(i + 1).last() == lane@);
        let bad: bool = match lane.state {
            LaneState::Failed(_) => true,
            _ => false,
        };
        if bad {
            let ghost before = views(failed@);
            failed.push(lane.clone());
            assert(views(failed@) =~= before.push(lane@));
        } else {
            let ghost before = views(blocks@);
            let ghost bv = views(lane.blocks@);
            let mut j: usize = 0;
            assert(before + bv.take(0) =~= before);
            while j < lane.blocks.len()
                invariant
                    j <= lane.blocks@.len(),
                    bv == views(lane.blocks@),
                    views(blocks@) == before + bv.take(j as int),
                decreases lane.blocks@.len() - j,
            {
                let ghost so_far = views(blocks@);
                blocks.push(lane.blocks[j].clone());
                assert(views(blocks@) =~= so_far.push(bv[j as int]));
                assert(views(blocks@) =~= before + bv.take(j + 1));
                j = j + 1;
            }
            assert(bv.take(j as int) =~= bv);
        }
        i = i + 1;
    }
    assert(lv.take(i as int) =~= lv);
    (blocks, failed)
}

fn make_field_lane(blocks: Vec<Block>, name: String) -> (r: Lane)
    ensures
        r@ == field_lane(views(blocks@), name@),
{
    let ghost bv = views(blocks@);
    assert(bv.len() == blocks@.len());
    let detail: Option<String> = if blocks.len() == 0 {
        None
    } else {
        let mut tables: Vec<String> = Vec::new();
        let mut i: usize = 0;
        while i < blocks.len()
            invariant
                i <= blocks@.len(),
                bv == views(blocks@),
                tables@.len() == i,
                forall|k: int| 0 <= k < i ==> (#[trigger] tables@[k])@ == bv[k].table,
            decreases blocks@.len() - i,
        {
            tables.push(blocks[i].table.clone());
            i = i + 1;
        }
        assert(views(tables@) =~= bv.map_values(|b: BlockV| b.table));
        Some(join(&sort_set(&tables), ", "))
    };
    let state = if blocks.len() == 0 {
        LaneState::Awaiting
    } else {
        LaneState::Reached
    };
    Lane { name, detail, blocks, state, error: None }
}

/// Rebuilds table lanes into lanes of a column's values.
fn regroup(lanes: &Vec<Lane>, lane_field: &str, expected: &Vec<String>) -> (r: Vec<Lane>)
    ensures
        views(r@) == regrouped(views(lanes@), lane_field@, views(expected@)),
{
    let ghost ev = views(expected@);
    let (blocks, failed) = split_lanes(lanes);
    let ghost bv = views(blocks@);
    let fallback = cat3("(no ", leaf(lane_field).as_str(), ")");
    let mut names: Vec<String> = Vec::new();
    let mut every: Vec<String> = Vec::new();
    let mut e: usize = 0;
    while e < expected.len()
        invariant
            e <= expected@.len(),
            ev == views(expected@),
            every@.len() == e,
            forall|k: int| 0 <= k < e ==> (#[trigger] every@[k])@ == ev[k],
        decreases expected@.len() - e,
    {
        every.push(expected[e].clone());
        e = e + 1;
    }
    let mut i: usize = 0;
    while i < blocks.len()
        invariant
            i <= blocks@.len(),
            bv == views(blocks@),
            fallback@ == unlabelled(lane_field@),
            names@.len() == i,
            every@.len() == ev.len() + i,
            forall|k: int|
                0 <= k < i ==> (#[trigger] names@[k])@ == lane_name(bv[k], lane_field@),
            forall|k: int| 0 <= k < ev.len() ==> (#[trigger] every@[k])@ == ev[k],
            forall|k: int|
                ev.len() <= k < ev.len() + i ==> (#[trigger] every@[k])@ == lane_name(
                    bv[k - ev.len()],
                    lane_field@,
                ),
        decreases blocks@.len() - i,
    {
        assert(bv[i as int] == blocks@[i as int]@);
        let name: String = match lookup(&blocks[i].doc, lane_field) {
            Some(v) => match scalar_text(v) {
                Some(t) => t,
                None => fallback.clone(),
            },
            None => fallback.clone(),
        };
        names.push(name.clone());
        every.push(name);
        i = i + 1;
    }
    let ghost ln = lane_names(bv, lane_field@);
    assert(views(names@) =~= ln);
    assert(views(every@) =~= ev + ln);
    let (keys, groups) = group_by_text(&names);
    let titles = sort_set(&every);
    let ghost tv = views(titles@);
    proof {
        sorted_set_holds(ln);
    }
    let mut out: Vec<Lane> = Vec::new();
    let mut t: usize = 0;
    assert(tv.len() == titles@.len());
    while t < titles.len()
        invariant
            t <= titles@.len(),
            tv == views(titles@),
            bv == views(blocks@),
            ln == lane_names(bv, lane_field@),
            ln.len() == blocks@.len(),
            keys@ == sorted_set(ln),
            forall|x: Text| #[trigger] keys@.contains(x) <==> ln.contains(x),
            groups@.len() == keys@.len(),
            forall|k: int|
                0 <= k < groups@.len() ==> ints((#[trigger] groups@[k])@) == holders(ln, keys@[k]),
            out@.len() == t,
            forall|k: int|
                0 <= k < t ==> (#[trigger] out@[k])@ == field_lane(
                    blocks_under(bv, lane_field@, tv[k]),
                    tv[k],
                ),
        decreases titles@.len() - t,
    {
        let ghost name = tv[t as int];
        let ghost h = holders(ln, name);
        let mut mine: Vec<Block> = Vec::new();
        match keys.position(titles[t].as_str()) {
            Some(p) => {
                let g = &groups[p];
                proof {
                    assert(ints(groups@[p as int]@) == holders(ln, keys@[p as int]));
                    assert(ints(g@) == h);
                    holders_hold(ln, name);
                }
                let mut j: usize = 0;
                while j < g.len()
                    invariant
                        j <= g@.len(),
                        bv == views(blocks@),
                        h == ints(g@),
                        forall|k: int| 0 <= k < h.len() ==> 0 <= #[trigger] h[k] < blocks@.len(),
                        mine@.len() == j,
                        forall|k: int| 0 <= k < j ==> (#[trigger] mine@[k])@ == bv[h[k]],
                    decreases g@.len() - j,
                {
                    assert(h[j as int] == g@[j as int]);
                    mine.push(blocks[g[j]].clone());
                    j = j + 1;
                }
                assert(views(mine@) =~= h.map_values(|i: int| bv[i]));
            },
            None => {
                proof {
                    assert(!ln.contains(name));
                    holders_hold(ln, name);
                    if h.len() > 0 {
                        assert(0 <= h[0] < ln.len() && ln[h[0]] == name);
                    }
                }
                assert(views(mine@) =~= h.map_values(|i: int| bv[i]));
            },
        }
        let sorted = sort_blocks(mine);
        out.push(make_field_lane(sorted, titles[t].clone()));
        t = t + 1;
    }
    let ghost axis_lanes = axis(bv, lane_field@, ev).map_values(
        |n: Text| field_lane(blocks_under(bv, lane_field@, n), n),
    );
    assert(views(out@) =~= axis_lanes);
    let ghost fv = views(failed@);
    let mut f: usize = 0;
    assert(axis_lanes + fv.take(0) =~= axis_lanes);
    while f < failed.len()
        invariant
            f <= failed@.len(),
            fv == views(failed@),
            views(out@) == axis_lanes + fv.take(f as int),
        decreases failed@.len() - f,
    {
        let ghost before = views(out@);
        out.push(failed[f].clone());
        assert(views(out@) =~= before.push(fv[f as int]));
        assert(views(out@) =~= axis_lanes + fv.take(f + 1));
        f = f + 1;
    }
    assert(fv.take(f as int) =~= fv);
    out
}

/// Re-expresses a trace on a different axis, from what is already in hand.
/// An empty field gives the table lanes back, so the choice is reversible.
pub fn relane(base: &Trace, lane_field: &str, expected: &Vec<String>) -> (r: Trace)
    ensures
        r@ == relaned(base@, lane_field@, views(expected@)),
{
    let mut r = base.clone();
    if lane_field.is_empty() {
        return r;
    }
    let mut lanes = regroup(&base.lanes, lane_field, expected);
    sort_lanes(&mut lanes);
    r.lanes = lanes;
    r
}

// ── What holds of every trace ─────────────────────────────────────────────

/// Sorting lanes neither loses nor adds any, and puts those reached first,
/// then by time, then by name.
pub proof fn sorted_lanes_are_in_order(lanes: Seq<LaneV>)
    ensures
        sorted_lanes(lanes).len() == lanes.len(),
        forall|l: LaneV| #[trigger] sorted_lanes(lanes).contains(l) <==> lanes.contains(l),
        forall|i: int, j: int|
            0 <= i < j < lanes.len() ==> !crate::order::rank_before(
                lane_rank(#[trigger] sorted_lanes(lanes)[j]),
                lane_rank(#[trigger] sorted_lanes(lanes)[i]),
            ),
{
    let ranks = lanes.map_values(|l: LaneV| lane_rank(l));
    arranged_keeps(lanes, ranks);
    crate::order::order_is_stable(ranks);
    let o = crate::order::order(ranks);
    let r = sorted_lanes(lanes);
    assert forall|i: int, j: int| 0 <= i < j < lanes.len() implies !crate::order::rank_before(
        lane_rank(#[trigger] r[j]),
        lane_rank(#[trigger] r[i]),
    ) by {
        assert(crate::order::precedes(ranks, o[i], o[j]));
        assert(0 <= o[i] < lanes.len() && 0 <= o[j] < lanes.len());
        assert(ranks[o[i]] == lane_rank(r[i]) && ranks[o[j]] == lane_rank(r[j]));
    }
}

/// A lane that could not be read survives any change of axis.
pub proof fn relane_keeps_failures(
    base: TraceV,
    lane_field: Text,
    expected: Seq<Text>,
    lane: LaneV,
)
    requires
        base.lanes.contains(lane),
        is_failed(lane.state),
    ensures
        relaned(base, lane_field, expected).lanes.contains(lane),
{
    if lane_field.len() > 0 {
        failed_has(base.lanes, lane);
        let all = regrouped(base.lanes, lane_field, expected);
        let failed = failed_lanes(base.lanes);
        let k = choose|k: int| 0 <= k < failed.len() && failed[k] == lane;
        assert(all[all.len() - failed.len() + k] == lane);
        assert(all.contains(lane));
        sorted_lanes_are_in_order(all);
    }
}

proof fn failed_has(lanes: Seq<LaneV>, lane: LaneV)
    requires
        lanes.contains(lane),
        is_failed(lane.state),
    ensures
        failed_lanes(lanes).contains(lane),
    decreases lanes.len(),
{
    let i = choose|i: int| 0 <= i < lanes.len() && lanes[i] == lane;
    let r = failed_lanes(lanes);
    if i < lanes.len() - 1 {
        let short = lanes.drop_last();
        assert(short[i] == lane);
        failed_has(short, lane);
        let before = failed_lanes(short);
        let k = choose|k: int| 0 <= k < before.len() && before[k] == lane;
        assert(r[k] == lane);
    } else {
        assert(r[r.len() - 1] == lane);
    }
}

/// Every stage that is expected has a lane, reached or not.
pub proof fn relane_shows_expected(
    base: TraceV,
    lane_field: Text,
    expected: Seq<Text>,
    name: Text,
)
    requires
        lane_field.len() > 0,
        expected.contains(name),
    ensures
        exists|l: LaneV| #[trigger]
            relaned(base, lane_field, expected).lanes.contains(l) && l.name == name && (l.state
                == LaneState::Reached || l.state == LaneState::Awaiting),
{
    let blocks = readable_blocks(base.lanes);
    let names = lane_names(blocks, lane_field);
    let titles = axis(blocks, lane_field, expected);
    let all = regrouped(base.lanes, lane_field, expected);
    sorted_set_holds(expected + names);
    let i = choose|i: int| 0 <= i < expected.len() && expected[i] == name;
    assert((expected + names)[i] == name);
    assert((expected + names).contains(name));
    assert(titles.contains(name));
    let k = choose|k: int| 0 <= k < titles.len() && titles[k] == name;
    let l = field_lane(blocks_under(blocks, lane_field, name), name);
    assert(all[k] == l);
    assert(all.contains(l));
    sorted_lanes_are_in_order(all);
    assert(relaned(base, lane_field, expected).lanes.contains(l));
}

proof fn timed_keeps(blocks: Seq<BlockV>)
    ensures
        timed(blocks).len() == blocks.len(),
        forall|b: BlockV| #[trigger] timed(blocks).contains(b) <==> blocks.contains(b),
{
    arranged_keeps(blocks, blocks.map_values(|b: BlockV| block_rank(b)));
}

/// A change of axis loses no row: each block of a lane that could be read is
/// in the lane that its own value names.
pub proof fn relane_keeps_rows(base: TraceV, lane_field: Text, expected: Seq<Text>, b: BlockV)
    requires
        lane_field.len() > 0,
        readable_blocks(base.lanes).contains(b),
    ensures
        exists|l: LaneV| #[trigger]
            relaned(base, lane_field, expected).lanes.contains(l) && l.name == lane_name(
                b,
                lane_field,
            ) && l.blocks.contains(b) && l.state == LaneState::Reached,
{
    let blocks = readable_blocks(base.lanes);
    let names = lane_names(blocks, lane_field);
    let titles = axis(blocks, lane_field, expected);
    let all = regrouped(base.lanes, lane_field, expected);
    let name = lane_name(b, lane_field);
    let i = choose|i: int| 0 <= i < blocks.len() && blocks[i] == b;
    assert(names[i] == name);
    sorted_set_holds(expected + names);
    assert((expected + names)[expected.len() + i] == name);
    assert((expected + names).contains(name));
    assert(titles.contains(name));
    let k = choose|k: int| 0 <= k < titles.len() && titles[k] == name;
    holders_all(names, name, i);
    let h = holders(names, name);
    let list = h.map_values(|i: int| blocks[i]);
    let m = choose|m: int| 0 <= m < h.len() && h[m] == i;
    assert(list[m] == b);
    assert(list.contains(b));
    timed_keeps(list);
    let l = field_lane(blocks_under(blocks, lane_field, name), name);
    assert(l.blocks.contains(b));
    assert(all[k] == l);
    assert(all.contains(l));
    sorted_lanes_are_in_order(all);
    assert(relaned(base, lane_field, expected).lanes.contains(l));
}

proof fn holders_all(keys: Seq<Text>, k: Text, i: int)
    requires
        0 <= i < keys.len(),
        keys[i] == k,
    ensures
        holders(keys, k).contains(i),
    decreases keys.len(),
{
    let r = holders(keys, k);
    if i < keys.len() - 1 {
        let short = keys.drop_last();
        holders_all(short, k, i);
        let before = holders(short, k);
        let m = choose|m: int| 0 <= m < before.len() && before[m] == i;
        assert(r[m] == i);
    } else {
        assert(r[r.len() - 1] == i);
    }
}

/// How many holders some names have in all.
spec fn held_by(keys: Seq<Text>, names: Seq<Text>) -> nat
    decreases names.len(),
{
    if names.len() == 0 {
        0
    } else {
        held_by(keys, names.drop_last()) + holders(keys, names.last()).len()
    }
}

proof fn held_without(keys: Seq<Text>, names: Seq<Text>)
    requires
        keys.len() > 0,
        strictly_sorted(names),
    ensures
        held_by(keys, names) == held_by(keys.drop_last(), names) + if names.contains(keys.last()) {
            1nat
        } else {
            0
        },
    decreases names.len(),
{
    if names.len() > 0 {
        let short = names.drop_last();
        let k = keys.last();
        held_without(keys, short);
        text_less_irreflexive(k);
        if names.last() == k {
            assert(names[names.len() - 1] == k);
            if short.contains(k) {
                let i = choose|i: int| 0 <= i < short.len() && short[i] == k;
                assert(text_less(names[i], names[names.len() - 1]));
            }
        } else if names.contains(k) {
            let i = choose|i: int| 0 <= i < names.len() && names[i] == k;
            assert(short[i] == k);
        } else if short.contains(k) {
            let i = choose|i: int| 0 <= i < short.len() && short[i] == k;
            assert(names[i] == k);
        }
    }
}

proof fn held_all(keys: Seq<Text>, names: Seq<Text>)
    requires
        strictly_sorted(names),
        forall|i: int| 0 <= i < keys.len() ==> names.contains(#[trigger] keys[i]),
    ensures
        held_by(keys, names) == keys.len(),
    decreases keys.len(),
{
    if keys.len() > 0 {
        let short = keys.drop_last();
        assert forall|i: int| 0 <= i < short.len() implies names.contains(#[trigger] short[i]) by {
            assert(keys[i] == short[i]);
        }
        held_all(short, names);
        held_without(keys, names);
        assert(keys[keys.len() - 1] == keys.last());
    } else {
        assert(keys =~= Seq::empty());
        held_none(names);
    }
}

proof fn held_none(names: Seq<Text>)
    ensures
        held_by(Seq::empty(), names) == 0,
    decreases names.len(),
{
    if names.len() > 0 {
        held_none(names.drop_last());
    }
}

/// The lanes of a column's values hold, between them, each readable row
/// exactly once: as many as there are.
pub proof fn relane_counts_rows_once(lanes: Seq<LaneV>, lane_field: Text, expected: Seq<Text>)
    ensures
        all_blocks(
            axis(readable_blocks(lanes), lane_field, expected).map_values(
                |n: Text|
                    field_lane(blocks_under(readable_blocks(lanes), lane_field, n), n),
            ),
        ).len() == readable_blocks(lanes).len(),
{
    let blocks = readable_blocks(lanes);
    let names = lane_names(blocks, lane_field);
    let titles = axis(blocks, lane_field, expected);
    sorted_set_holds(expected + names);
    assert forall|i: int| 0 <= i < names.len() implies titles.contains(#[trigger] names[i]) by {
        assert((expected + names)[expected.len() + i] == names[i]);
        assert((expected + names).contains(names[i]));
    }
    held_all(names, titles);
    lanes_hold(blocks, lane_field, titles);
}

proof fn lanes_hold(blocks: Seq<BlockV>, lane_field: Text, titles: Seq<Text>)
    ensures
        all_blocks(
            titles.map_values(
                |n: Text| field_lane(blocks_under(blocks, lane_field, n), n),
            ),
        ).len() == held_by(lane_names(blocks, lane_field), titles),
    decreases titles.len(),
{
    let f = |n: Text| field_lane(blocks_under(blocks, lane_field, n), n);
    let ls = titles.map_values(f);
    if titles.len() > 0 {
        lanes_hold(blocks, lane_field, titles.drop_last());
        assert(ls.drop_last() =~= titles.drop_last().map_values(f));
        let n = titles.last();
        timed_keeps(holders(lane_names(blocks, lane_field), n).map_values(|i: int| blocks[i]));
        assert(ls.last() == field_lane(blocks_under(blocks, lane_field, n), n));
    }
}

/// Each table makes one lane, and only a table that does not carry the key
/// is off the path.
pub proof fn every_table_has_a_lane(
    tables: Seq<Text>,
    spec_: SpecV,
    partial: bool,
    answers: Seq<Result<Seq<JsonV>, Text>>,
)
    ensures
        trace_of(tables, spec_, partial, answers).lanes.len() == tables.len(),
        forall|l: LaneV| #[trigger]
            trace_of(tables, spec_, partial, answers).lanes.contains(l) ==> (l.state
                == LaneState::OffPath <==> crate::keys::binding_in(spec_.key.bindings, l.name)
                is None) && (l.state == LaneState::Reached <==> l.blocks.len() > 0) && (l.error
                is Some <==> is_failed(l.state)),
{
    let bs = spec_.key.bindings;
    let bound = bound_in(tables, bs);
    let off = off_path(tables, bs);
    let all = table_lanes(tables, spec_, answers);
    split_tables(tables, bs);
    sorted_lanes_are_in_order(all);
    let lanes = trace_of(tables, spec_, partial, answers).lanes;
    assert forall|l: LaneV| #[trigger] lanes.contains(l) implies (l.state == LaneState::OffPath
        <==> crate::keys::binding_in(bs, l.name) is None) && (l.state == LaneState::Reached
        <==> l.blocks.len() > 0) && (l.error is Some <==> is_failed(l.state)) by {
        assert(all.contains(l));
        let k = choose|k: int| 0 <= k < all.len() && all[k] == l;
        if k < off.len() {
            assert(l == off_lane(off[k]));
            assert(crate::keys::binding_in(bs, off[k]) is None);
        } else {
            let i = k - off.len();
            assert(l == bound_lane(bound, answers, spec_, i));
            assert(crate::keys::binding_in(bs, bound[i].table) is Some);
        }
    }
}

proof fn split_tables(tables: Seq<Text>, bindings: Seq<BindingV>)
    ensures
        bound_in(tables, bindings).len() + off_path(tables, bindings).len() == tables.len(),
        forall|i: int|
            0 <= i < off_path(tables, bindings).len() ==> crate::keys::binding_in(
                bindings,
                #[trigger] off_path(tables, bindings)[i],
            ) is None,
        forall|i: int|
            0 <= i < bound_in(tables, bindings).len() ==> crate::keys::binding_in(
                bindings,
                (#[trigger] bound_in(tables, bindings)[i]).table,
            ) is Some,
    decreases tables.len(),
{
    if tables.len() > 0 {
        let short = tables.drop_last();
        split_tables(short, bindings);
        let o = off_path(short, bindings);
        let b = bound_in(short, bindings);
        let oo = off_path(tables, bindings);
        let bb = bound_in(tables, bindings);
        assert forall|i: int| 0 <= i < oo.len() implies crate::keys::binding_in(
            bindings,
            #[trigger] oo[i],
        ) is None by {
            if i < o.len() {
                assert(oo[i] == o[i]);
            }
        }
        assert forall|i: int| 0 <= i < bb.len() implies crate::keys::binding_in(
            bindings,
            (#[trigger] bb[i]).table,
        ) is Some by {
            if i < b.len() {
                assert(bb[i] == b[i]);
            } else {
                binding_in_table(bindings, tables.last());
            }
        }
    }
}

proof fn binding_in_table(bindings: Seq<BindingV>, table: Text)
    ensures
        crate::keys::binding_in(bindings, table) matches Some(b) ==> b.table == table,
    decreases bindings.len(),
{
    if bindings.len() > 0 && bindings[0].table != table {
        binding_in_table(bindings.drop_first(), table);
    }
}

// ── The path the data took ────────────────────────────────────────────────

/// The earliest time is that of some block, and none is before it; there is
/// none exactly when no block has a time.
pub proof fn earliest_is_first(blocks: Seq<BlockV>)
    ensures
        match earliest(blocks) {
            Some(t) => (exists|i: int| 0 <= i < blocks.len() && (#[trigger] blocks[i]).at == Some(t))
                && forall|i: int|
                0 <= i < blocks.len() && (#[trigger] blocks[i]).at is Some ==> t <= blocks[i].at->0,
            None => forall|i: int| 0 <= i < blocks.len() ==> (#[trigger] blocks[i]).at is None,
        },
    decreases blocks.len(),
{
    if blocks.len() > 0 {
        let short = blocks.drop_last();
        earliest_is_first(short);
        assert(forall|i: int| 0 <= i < short.len() ==> #[trigger] short[i] == blocks[i]);
        assert forall|i: int| 0 <= i < blocks.len() && i < short.len() implies blocks[i]
            == #[trigger] short[i] by {}
        match earliest(short) {
            Some(t) => {
                let k = choose|k: int| 0 <= k < short.len() && (#[trigger] short[k]).at == Some(t);
                assert(blocks[k].at == Some(t));
                assert forall|i: int|
                    0 <= i < blocks.len() && (#[trigger] blocks[i]).at is Some implies earliest(
                    blocks,
                )->0 <= blocks[i].at->0 by {
                    if i < short.len() {
                        assert(short[i] == blocks[i]);
                    }
                }
            },
            None => {
                assert forall|i: int| 0 <= i < short.len() implies (#[trigger] blocks[i]).at
                    is None by {
                    assert(short[i] == blocks[i]);
                }
            },
        }
        assert(blocks[blocks.len() - 1] == blocks.last());
    }
}

/// The latest time is that of some block, and none is after it; there is
/// none exactly when no block has a time.
pub proof fn latest_is_last(blocks: Seq<BlockV>)
    ensures
        match latest(blocks) {
            Some(t) => (exists|i: int| 0 <= i < blocks.len() && (#[trigger] blocks[i]).at == Some(t))
                && forall|i: int|
                0 <= i < blocks.len() && (#[trigger] blocks[i]).at is Some ==> blocks[i].at->0 <= t,
            None => forall|i: int| 0 <= i < blocks.len() ==> (#[trigger] blocks[i]).at is None,
        },
    decreases blocks.len(),
{
    if blocks.len() > 0 {
        let short = blocks.drop_last();
        latest_is_last(short);
        match latest(short) {
            Some(t) => {
                let k = choose|k: int| 0 <= k < short.len() && (#[trigger] short[k]).at == Some(t);
                assert(blocks[k].at == Some(t));
                assert forall|i: int|
                    0 <= i < blocks.len() && (#[trigger] blocks[i]).at is Some implies blocks[i].at->0
                    <= latest(blocks)->0 by {
                    if i < short.len() {
                        assert(short[i] == blocks[i]);
                    }
                }
            },
            None => {
                assert forall|i: int| 0 <= i < short.len() implies (#[trigger] blocks[i]).at
                    is None by {
                    assert(short[i] == blocks[i]);
                }
            },
        }
        assert(blocks[blocks.len() - 1] == blocks.last());
    }
}

/// What it means for one lane to stand before another: the value was found
/// first, then awaited, then unreadable, then off the path; of two lanes that
/// it was found in, the one where it was first; else by name.
pub open spec fn in_path_order(l: LaneV, m: LaneV) -> bool {
    &&& m.state is Reached ==> l.state is Reached
    &&& m.state is Awaiting ==> l.state is Reached || l.state is Awaiting
    &&& m.state is Failed ==> !(l.state is OffPath)
    &&& l.state is Reached && m.state is Reached ==> forall|y: int|
        0 <= y < m.blocks.len() && (#[trigger] m.blocks[y]).at is Some && m.blocks[y].at->0
            < i64::MAX ==> exists|x: int|
            0 <= x < l.blocks.len() && (#[trigger] l.blocks[x]).at is Some && l.blocks[x].at->0
                <= m.blocks[y].at->0
    &&& l.state is Reached && m.state is Reached && earliest(l.blocks) == earliest(m.blocks)
        ==> !text_less(m.name, l.name)
    &&& l.state is Failed && m.state is Failed && l.blocks.len() == 0 && m.blocks.len() == 0
        ==> !text_less(m.name, l.name)
    &&& l.state is OffPath && m.state is OffPath && l.blocks.len() == 0 && m.blocks.len() == 0
        ==> !text_less(m.name, l.name)
    &&& l.state is Awaiting && m.state is Awaiting && l.blocks.len() == 0 && m.blocks.len() == 0
        ==> !text_less(m.name, l.name)
}

proof fn sorted_by_path(lanes: Seq<LaneV>, i: int, j: int)
    requires
        0 <= i < j < lanes.len(),
    ensures
        in_path_order(sorted_lanes(lanes)[i], sorted_lanes(lanes)[j]),
{
    sorted_lanes_are_in_order(lanes);
    let l = sorted_lanes(lanes)[i];
    let m = sorted_lanes(lanes)[j];
    assert(!crate::order::rank_before(lane_rank(m), lane_rank(l)));
    earliest_is_first(l.blocks);
    earliest_is_first(m.blocks);
    if l.state is Reached && m.state is Reached {
        assert forall|y: int|
            0 <= y < m.blocks.len() && (#[trigger] m.blocks[y]).at is Some && m.blocks[y].at->0
                < i64::MAX implies exists|x: int|
            0 <= x < l.blocks.len() && (#[trigger] l.blocks[x]).at is Some && l.blocks[x].at->0
                <= m.blocks[y].at->0 by {
            let t = earliest(m.blocks)->0;
            assert(t <= m.blocks[y].at->0);
            assert(or_never(earliest(l.blocks)) <= t);
            let x = choose|x: int|
                0 <= x < l.blocks.len() && (#[trigger] l.blocks[x]).at == earliest(l.blocks);
            assert(l.blocks[x].at->0 <= m.blocks[y].at->0);
        }
    }
}

/// The lanes of a trace stand as the path the data took, by the times of
/// their own blocks.
pub proof fn lanes_read_as_the_path(
    tables: Seq<Text>,
    spec_: SpecV,
    partial: bool,
    answers: Seq<Result<Seq<JsonV>, Text>>,
    i: int,
    j: int,
)
    requires
        0 <= i < j < trace_of(tables, spec_, partial, answers).lanes.len(),
    ensures
        in_path_order(
            trace_of(tables, spec_, partial, answers).lanes[i],
            trace_of(tables, spec_, partial, answers).lanes[j],
        ),
{
    let all = table_lanes(tables, spec_, answers);
    sorted_lanes_are_in_order(all);
    sorted_by_path(all, i, j);
}

/// So do the lanes of another axis.
pub proof fn relaned_lanes_read_as_the_path(
    base: TraceV,
    lane_field: Text,
    expected: Seq<Text>,
    i: int,
    j: int,
)
    requires
        lane_field.len() > 0,
        0 <= i < j < relaned(base, lane_field, expected).lanes.len(),
    ensures
        in_path_order(
            relaned(base, lane_field, expected).lanes[i],
            relaned(base, lane_field, expected).lanes[j],
        ),
{
    let all = regrouped(base.lanes, lane_field, expected);
    sorted_lanes_are_in_order(all);
    sorted_by_path(all, i, j);
}

/// Blocks stand by time: none before an earlier one, and none without a time
/// before one that has it.
pub open spec fn by_time(blocks: Seq<BlockV>) -> bool {
    forall|i: int, j: int|
        0 <= i < j < blocks.len() && (#[trigger] blocks[j]).at is Some && blocks[j].at->0 < i64::MAX
            ==> (#[trigger] blocks[i]).at is Some && blocks[i].at->0 <= blocks[j].at->0
}

proof fn timed_is_by_time(blocks: Seq<BlockV>)
    ensures
        by_time(timed(blocks)),
{
    let ranks = blocks.map_values(|b: BlockV| block_rank(b));
    let o = order(ranks);
    let r = timed(blocks);
    order_is_stable(ranks);
    assert forall|i: int, j: int|
        0 <= i < j < r.len() && (#[trigger] r[j]).at is Some && r[j].at->0 < i64::MAX implies (
    #[trigger] r[i]).at is Some && r[i].at->0 <= r[j].at->0 by {
        assert(precedes(ranks, o[i], o[j]));
        assert(0 <= o[i] < blocks.len() && 0 <= o[j] < blocks.len());
        assert(r[i] == blocks[o[i]] && r[j] == blocks[o[j]]);
    }
}

proof fn table_lane_of(
    tables: Seq<Text>,
    spec_: SpecV,
    partial: bool,
    answers: Seq<Result<Seq<JsonV>, Text>>,
    l: LaneV,
) -> (i: int)
    requires
        trace_of(tables, spec_, partial, answers).lanes.contains(l),
        !(l.state is OffPath),
    ensures
        0 <= i < bound_in(tables, spec_.key.bindings).len(),
        l == bound_lane(bound_in(tables, spec_.key.bindings), answers, spec_, i),
{
    let all = table_lanes(tables, spec_, answers);
    let off = off_path(tables, spec_.key.bindings);
    sorted_lanes_are_in_order(all);
    assert(all.contains(l));
    let k = choose|k: int| 0 <= k < all.len() && all[k] == l;
    if k < off.len() {
        assert(l == off_lane(off[k]));
    }
    k - off.len()
}

/// Within a lane the cards stand by time, and each is of a row that the
/// answer tagged with that lane's table.
pub proof fn cards_are_of_the_lanes_own_rows(
    tables: Seq<Text>,
    spec_: SpecV,
    partial: bool,
    answers: Seq<Result<Seq<JsonV>, Text>>,
    l: LaneV,
    b: BlockV,
)
    requires
        trace_of(tables, spec_, partial, answers).lanes.contains(l),
        l.blocks.contains(b),
    ensures
        by_time(l.blocks),
        b.table == l.name,
        b.doc.get("__ais_lane"@) == Some(JsonV::Text(l.name)),
        exists|a: int|
            0 <= a < answers.len() && (#[trigger] answers[a]) is Ok && answers[a]->Ok_0.contains(
                b.doc,
            ),
        l.detail is Some && b.key_value == (match crate::trace::text_under(
            b.doc,
            crate::text::lowered(l.detail->0),
        ) {
            Some(t) => t,
            None => Seq::empty(),
        }),
{
    every_table_has_a_lane(tables, spec_, partial, answers);
    let i = table_lane_of(tables, spec_, partial, answers, l);
    let bound = bound_in(tables, spec_.key.bindings);
    let rows = lane_rows(bound, answers, i);
    let made = row_blocks(rows, spec_, bound[i]);
    timed_is_by_time(made);
    timed_keeps(made);
    assert(made.contains(b));
    let k = choose|k: int| 0 <= k < made.len() && made[k] == b;
    assert(b.doc == rows[k]);
    table_rows_tagged(answers, bound[i].table, k);
}

proof fn rows_tagged_hold(rows: Seq<JsonV>, table: Text)
    ensures
        forall|k: int|
            0 <= k < rows_tagged(rows, table).len() ==> rows.contains(
                #[trigger] rows_tagged(rows, table)[k],
            ) && rows_tagged(rows, table)[k].get("__ais_lane"@) == Some(JsonV::Text(table)),
        rows_tagged(rows, table).len() == rows.filter(
            |r: JsonV| r.get("__ais_lane"@) == Some(JsonV::Text(table)),
        ).len(),
        forall|k: int|
            0 <= k < rows.len() && (#[trigger] rows[k]).get("__ais_lane"@) == Some(
                JsonV::Text(table),
            ) ==> rows_tagged(rows, table).contains(rows[k]),
    decreases rows.len(),
{
    reveal(Seq::filter);
    if rows.len() > 0 {
        let short = rows.drop_last();
        let before = rows_tagged(short, table);
        let r = rows_tagged(rows, table);
        rows_tagged_hold(short, table);
        assert(rows[rows.len() - 1] == rows.last());
        assert forall|k: int| 0 <= k < r.len() implies rows.contains(#[trigger] r[k])
            && r[k].get("__ais_lane"@) == Some(JsonV::Text(table)) by {
            if k < before.len() {
                assert(r[k] == before[k]);
                assert(short.contains(before[k]));
                let m = choose|m: int| 0 <= m < short.len() && short[m] == before[k];
                assert(rows[m] == before[k]);
            }
        }
        assert forall|k: int|
            0 <= k < rows.len() && (#[trigger] rows[k]).get("__ais_lane"@) == Some(
                JsonV::Text(table),
            ) implies r.contains(rows[k]) by {
            if k < short.len() {
                assert(short[k] == rows[k]);
                assert(before.contains(short[k]));
                let m = choose|m: int| 0 <= m < before.len() && before[m] == short[k];
                assert(r[m] == rows[k]);
            } else {
                assert(r[r.len() - 1] == rows[k]);
            }
        }
    }
}

proof fn table_rows_tagged(answers: Seq<Result<Seq<JsonV>, Text>>, table: Text, k: int)
    requires
        0 <= k < table_rows(answers, table).len(),
    ensures
        table_rows(answers, table)[k].get("__ais_lane"@) == Some(JsonV::Text(table)),
        exists|a: int|
            0 <= a < answers.len() && (#[trigger] answers[a]) is Ok && answers[a]->Ok_0.contains(
                table_rows(answers, table)[k],
            ),
    decreases answers.len(),
{
    let short = answers.drop_last();
    let before = table_rows(short, table);
    let r = table_rows(answers, table);
    if k < before.len() {
        table_rows_tagged(short, table, k);
        assert(r[k] == before[k]);
        let a = choose|a: int|
            0 <= a < short.len() && (#[trigger] short[a]) is Ok && short[a]->Ok_0.contains(
                before[k],
            );
        assert(answers[a] == short[a]);
    } else {
        let rows = answers.last()->Ok_0;
        rows_tagged_hold(rows, table);
        assert(r[k] == rows_tagged(rows, table)[k - before.len()]);
        assert(answers[answers.len() - 1] == answers.last());
    }
}

proof fn table_rows_have(answers: Seq<Result<Seq<JsonV>, Text>>, table: Text, a: int, row: JsonV)
    requires
        0 <= a < answers.len(),
        answers[a] is Ok,
        answers[a]->Ok_0.contains(row),
        row.get("__ais_lane"@) == Some(JsonV::Text(table)),
    ensures
        table_rows(answers, table).contains(row),
    decreases answers.len(),
{
    let short = answers.drop_last();
    let before = table_rows(short, table);
    let r = table_rows(answers, table);
    if a < short.len() {
        assert(short[a] == answers[a]);
        table_rows_have(short, table, a, row);
        let k = choose|k: int| 0 <= k < before.len() && before[k] == row;
        assert(r[k] == row);
    } else {
        let rows = answers.last()->Ok_0;
        rows_tagged_hold(rows, table);
        let m = choose|m: int| 0 <= m < rows.len() && rows[m] == row;
        assert(rows_tagged(rows, table).contains(rows[m]));
        let k = choose|k: int|
            0 <= k < rows_tagged(rows, table).len() && rows_tagged(rows, table)[k] == row;
        assert(r[before.len() + k] == row);
    }
}

/// No row is lost: where nothing failed and there is room for all of its
/// table's rows, a row is on a card of the table's lane.
pub proof fn every_row_is_on_a_card(
    tables: Seq<Text>,
    spec_: SpecV,
    partial: bool,
    answers: Seq<Result<Seq<JsonV>, Text>>,
    table: Text,
    a: int,
    row: JsonV,
)
    requires
        tables.contains(table),
        crate::keys::binding_in(spec_.key.bindings, table) is Some,
        forall|k: int| 0 <= k < answers.len() ==> (#[trigger] answers[k]) is Ok,
        0 <= a < answers.len(),
        answers[a]->Ok_0.contains(row),
        row.get("__ais_lane"@) == Some(JsonV::Text(table)),
        table_rows(answers, table).len() <= MAX_BLOCKS,
    ensures
        exists|l: LaneV, b: BlockV| #[trigger]
            trace_of(tables, spec_, partial, answers).lanes.contains(l) && l.name == table
                && l.state == LaneState::Reached && #[trigger] l.blocks.contains(b) && b.doc == row,
{
    let bs = spec_.key.bindings;
    let bound = bound_in(tables, bs);
    let i = first_bound(tables, bs, table);
    table_rows_have(answers, table, a, row);
    let rows = table_rows(answers, table);
    assert(lane_rows(bound, answers, i) == rows);
    never_failed(bound, answers, table, batches_answered(bound, answers));
    let made = row_blocks(rows, spec_, bound[i]);
    let k = choose|k: int| 0 <= k < rows.len() && rows[k] == row;
    assert(made[k].doc == row);
    assert(made.contains(made[k]));
    timed_keeps(made);
    let l = bound_lane(bound, answers, spec_, i);
    assert(l.blocks.contains(made[k]));
    let all = table_lanes(tables, spec_, answers);
    let off = off_path(tables, bs);
    assert(all[off.len() + i] == l);
    assert(all.contains(l));
    sorted_lanes_are_in_order(all);
    assert(trace_of(tables, spec_, partial, answers).lanes.contains(l));
}

proof fn never_failed(
    bound: Seq<BindingV>,
    answers: Seq<Result<Seq<JsonV>, Text>>,
    table: Text,
    n: int,
)
    requires
        n <= answers.len(),
        forall|k: int| 0 <= k < answers.len() ==> (#[trigger] answers[k]) is Ok,
    ensures
        failure_among(bound, answers, table, n) is None,
    decreases n,
{
    if n > 0 {
        assert(answers[n - 1] is Ok);
        never_failed(bound, answers, table, n - 1);
    }
}

/// The first binding of a table that carries the key.
proof fn first_bound(tables: Seq<Text>, bindings: Seq<BindingV>, table: Text) -> (i: int)
    requires
        tables.contains(table),
        crate::keys::binding_in(bindings, table) is Some,
    ensures
        0 <= i < bound_in(tables, bindings).len(),
        bound_in(tables, bindings)[i].table == table,
        !binds(bound_in(tables, bindings).take(i), table),
    decreases tables.len(),
{
    let short = tables.drop_last();
    let before = bound_in(short, bindings);
    let all = bound_in(tables, bindings);
    binding_in_table(bindings, tables.last());
    if short.contains(table) {
        let i = first_bound(short, bindings, table);
        assert(all.take(i) =~= before.take(i));
        i
    } else {
        let k = choose|k: int| 0 <= k < tables.len() && tables[k] == table;
        if k < short.len() {
            assert(short[k] == table);
        }
        assert(all.take(before.len() as int) =~= before);
        if binds(before, table) {
            let x = choose|x: int| 0 <= x < before.len() && (#[trigger] before[x]).table == table;
            bound_are_listed(short, bindings, x);
        }
        before.len() as int
    }
}

proof fn bound_are_listed(tables: Seq<Text>, bindings: Seq<BindingV>, i: int)
    requires
        0 <= i < bound_in(tables, bindings).len(),
    ensures
        tables.contains(bound_in(tables, bindings)[i].table),
        crate::keys::binding_in(bindings, bound_in(tables, bindings)[i].table) == Some(
            bound_in(tables, bindings)[i],
        ),
    decreases tables.len(),
{
    let short = tables.drop_last();
    let before = bound_in(short, bindings);
    binding_in_table(bindings, tables.last());
    if i < before.len() {
        bound_are_listed(short, bindings, i);
        let k = choose|k: int| 0 <= k < short.len() && short[k] == before[i].table;
        assert(tables[k] == before[i].table);
    } else {
        assert(tables[tables.len() - 1] == bound_in(tables, bindings)[i].table);
    }
}

/// A lane is of a table that was asked about, and names the column that
/// carries the key there; a table that carries it is never silently left
/// off the path.
pub proof fn lanes_name_the_keys_column(
    tables: Seq<Text>,
    spec_: SpecV,
    partial: bool,
    answers: Seq<Result<Seq<JsonV>, Text>>,
    l: LaneV,
)
    requires
        trace_of(tables, spec_, partial, answers).lanes.contains(l),
    ensures
        tables.contains(l.name),
        match crate::keys::binding_in(spec_.key.bindings, l.name) {
            Some(b) => l.detail == Some(b.field) && !(l.state is OffPath),
            None => l.detail is None && l.state is OffPath && l.blocks.len() == 0,
        },
{
    let bs = spec_.key.bindings;
    let all = table_lanes(tables, spec_, answers);
    let off = off_path(tables, bs);
    every_table_has_a_lane(tables, spec_, partial, answers);
    split_tables(tables, bs);
    sorted_lanes_are_in_order(all);
    assert(all.contains(l));
    let k = choose|k: int| 0 <= k < all.len() && all[k] == l;
    if k < off.len() {
        assert(l == off_lane(off[k]));
        off_are_listed(tables, bs, k);
    } else {
        bound_are_listed(tables, bs, k - off.len());
    }
}

proof fn off_are_listed(tables: Seq<Text>, bindings: Seq<BindingV>, i: int)
    requires
        0 <= i < off_path(tables, bindings).len(),
    ensures
        tables.contains(off_path(tables, bindings)[i]),
    decreases tables.len(),
{
    let short = tables.drop_last();
    let before = off_path(short, bindings);
    if i < before.len() {
        off_are_listed(short, bindings, i);
        let k = choose|k: int| 0 <= k < short.len() && short[k] == before[i];
        assert(tables[k] == before[i]);
    } else {
        assert(tables[tables.len() - 1] == off_path(tables, bindings)[i]);
    }
}

/// A lane says that it could not be read exactly when a batch that covers
/// its table failed, and then says why in the words of such a batch.
pub proof fn failures_are_those_of_the_tables_batch(
    tables: Seq<Text>,
    spec_: SpecV,
    partial: bool,
    answers: Seq<Result<Seq<JsonV>, Text>>,
    l: LaneV,
)
    requires
        trace_of(tables, spec_, partial, answers).lanes.contains(l),
        !(l.state is OffPath),
        answers.len() == batch_count(bound_in(tables, spec_.key.bindings).len() as int),
    ensures
        l.state is Failed <==> exists|n: int|
            0 <= n < answers.len() && (#[trigger] answers[n]) is Err && binds(
                batch(bound_in(tables, spec_.key.bindings), n),
                l.name,
            ),
        l.state is Failed ==> exists|n: int|
            0 <= n < answers.len() && #[trigger] answers[n] == Err::<Seq<JsonV>, Text>(
                l.error->0,
            ) && binds(batch(bound_in(tables, spec_.key.bindings), n), l.name),
        l.state is Failed ==> l.error is Some && l.blocks.len() == 0,
{
    let i = table_lane_of(tables, spec_, partial, answers, l);
    let bound = bound_in(tables, spec_.key.bindings);
    failure_is(bound, answers, l.name, answers.len() as int);
}

proof fn failure_is(
    bound: Seq<BindingV>,
    answers: Seq<Result<Seq<JsonV>, Text>>,
    table: Text,
    n: int,
)
    requires
        0 <= n <= answers.len(),
    ensures
        match failure_among(bound, answers, table, n) {
            Some(e) => exists|k: int|
                0 <= k < n && #[trigger] answers[k] == Err::<Seq<JsonV>, Text>(e) && binds(
                    batch(bound, k),
                    table,
                ),
            None => forall|k: int|
                0 <= k < n && (#[trigger] answers[k]) is Err ==> !binds(batch(bound, k), table),
        },
    decreases n,
{
    if n > 0 {
        failure_is(bound, answers, table, n - 1);
        match answers[n - 1] {
            Err(e) => {
                if binds(batch(bound, n - 1), table) {
                    assert(answers[n - 1] == Err::<Seq<JsonV>, Text>(e));
                }
            },
            Ok(_) => {},
        }
    }
}

// ── What a trace says of all its blocks ───────────────────────────────────

proof fn all_blocks_are(lanes: Seq<LaneV>, b: BlockV)
    ensures
        all_blocks(lanes).contains(b) <==> exists|i: int|
            0 <= i < lanes.len() && (#[trigger] lanes[i]).blocks.contains(b),
    decreases lanes.len(),
{
    if lanes.len() > 0 {
        let short = lanes.drop_last();
        let before = all_blocks(short);
        let more = lanes.last().blocks;
        let r = all_blocks(lanes);
        all_blocks_are(short, b);
        if r.contains(b) {
            let k = choose|k: int| 0 <= k < r.len() && r[k] == b;
            if k < before.len() {
                assert(before[k] == b);
                let i = choose|i: int| 0 <= i < short.len() && (#[trigger] short[i]).blocks.contains(b);
                assert(lanes[i] == short[i]);
            } else {
                assert(more[k - before.len()] == b);
                assert(lanes[lanes.len() - 1].blocks.contains(b));
            }
        }
        if exists|i: int| 0 <= i < lanes.len() && (#[trigger] lanes[i]).blocks.contains(b) {
            let i = choose|i: int| 0 <= i < lanes.len() && (#[trigger] lanes[i]).blocks.contains(b);
            if i < short.len() {
                assert(short[i] == lanes[i]);
                let k = choose|k: int| 0 <= k < before.len() && before[k] == b;
                assert(r[k] == b);
            } else {
                let k = choose|k: int| 0 <= k < more.len() && more[k] == b;
                assert(r[before.len() + k] == b);
            }
        }
    }
}

/// The span of a trace covers the time of every card in it, and begins and
/// ends with one; without any time there is none.
pub proof fn the_span_covers_every_card(
    tables: Seq<Text>,
    spec_: SpecV,
    partial: bool,
    answers: Seq<Result<Seq<JsonV>, Text>>,
)
    ensures
        ({
            let t = trace_of(tables, spec_, partial, answers);
            match t.span {
                Some((first, last)) => {
                    &&& forall|l: LaneV, b: BlockV|
                        #![trigger t.lanes.contains(l), l.blocks.contains(b)]
                        t.lanes.contains(l) && l.blocks.contains(b) && b.at is Some ==> first
                            <= b.at->0 <= last
                    &&& exists|l: LaneV, b: BlockV|
                        #![trigger t.lanes.contains(l), l.blocks.contains(b)]
                        t.lanes.contains(l) && l.blocks.contains(b) && b.at == Some(first)
                    &&& exists|l: LaneV, b: BlockV|
                        #![trigger t.lanes.contains(l), l.blocks.contains(b)]
                        t.lanes.contains(l) && l.blocks.contains(b) && b.at == Some(last)
                },
                None => forall|l: LaneV, b: BlockV|
                    #![trigger t.lanes.contains(l), l.blocks.contains(b)]
                    t.lanes.contains(l) && l.blocks.contains(b) ==> b.at is None,
            }
        }),
{
    let t = trace_of(tables, spec_, partial, answers);
    let blocks = all_blocks(t.lanes);
    earliest_is_first(blocks);
    latest_is_last(blocks);
    assert forall|l: LaneV, b: BlockV|
        #![trigger t.lanes.contains(l), l.blocks.contains(b)]
        t.lanes.contains(l) && l.blocks.contains(b) implies blocks.contains(b) by {
        let i = choose|i: int| 0 <= i < t.lanes.len() && t.lanes[i] == l;
        assert(t.lanes[i].blocks.contains(b));
        all_blocks_are(t.lanes, b);
    }
    match t.span {
        Some((first, last)) => {
            let x = choose|x: int| 0 <= x < blocks.len() && (#[trigger] blocks[x]).at == Some(first);
            let y = choose|y: int| 0 <= y < blocks.len() && (#[trigger] blocks[y]).at == Some(last);
            assert(blocks.contains(blocks[x]) && blocks.contains(blocks[y]));
            all_blocks_are(t.lanes, blocks[x]);
            all_blocks_are(t.lanes, blocks[y]);
            let i = choose|i: int|
                0 <= i < t.lanes.len() && (#[trigger] t.lanes[i]).blocks.contains(blocks[x]);
            let j = choose|j: int|
                0 <= j < t.lanes.len() && (#[trigger] t.lanes[j]).blocks.contains(blocks[y]);
            assert(t.lanes.contains(t.lanes[i]) && t.lanes[i].blocks.contains(blocks[x]));
            assert(t.lanes.contains(t.lanes[j]) && t.lanes[j].blocks.contains(blocks[y]));
            assert forall|l: LaneV, b: BlockV|
                #![trigger t.lanes.contains(l), l.blocks.contains(b)]
                t.lanes.contains(l) && l.blocks.contains(b) && b.at is Some implies first <= b.at->0
                <= last by {
                assert(blocks.contains(b));
                let k = choose|k: int| 0 <= k < blocks.len() && blocks[k] == b;
                assert(blocks[k].at is Some);
            }
        },
        None => {
            assert forall|l: LaneV, b: BlockV|
                #![trigger t.lanes.contains(l), l.blocks.contains(b)]
                t.lanes.contains(l) && l.blocks.contains(b) implies b.at is None by {
                assert(blocks.contains(b));
                let k = choose|k: int| 0 <= k < blocks.len() && blocks[k] == b;
                assert(blocks[k].at is None);
            }
        },
    }
}

proof fn carried_are(blocks: Seq<BlockV>, v: Text)
    requires
        v.len() > 0,
    ensures
        carried_values(blocks).filter(|x: Text| x == v).len() == blocks.filter(
            |b: BlockV| b.key_value == v,
        ).len(),
        carried_values(blocks).contains(v) <==> exists|i: int|
            0 <= i < blocks.len() && (#[trigger] blocks[i]).key_value == v,
    decreases blocks.len(),
{
    reveal(Seq::filter);
    if blocks.len() > 0 {
        let short = blocks.drop_last();
        carried_are(short, v);
        let before = carried_values(short);
        let r = carried_values(blocks);
        if blocks.last().key_value.len() > 0 {
            assert(r.drop_last() =~= before);
        }
        if r.contains(v) {
            let k = choose|k: int| 0 <= k < r.len() && r[k] == v;
            if k < before.len() {
                assert(before[k] == v);
                let i = choose|i: int| 0 <= i < short.len() && (#[trigger] short[i]).key_value == v;
                assert(blocks[i].key_value == v);
            } else {
                assert(blocks[blocks.len() - 1].key_value == v);
            }
        }
        if exists|i: int| 0 <= i < blocks.len() && (#[trigger] blocks[i]).key_value == v {
            let i = choose|i: int| 0 <= i < blocks.len() && (#[trigger] blocks[i]).key_value == v;
            if i < short.len() {
                assert(short[i].key_value == v);
                let k = choose|k: int| 0 <= k < before.len() && before[k] == v;
                assert(r[k] == v);
            } else {
                assert(r[r.len() - 1] == v);
            }
        }
    }
}

proof fn carried_say_something(blocks: Seq<BlockV>)
    ensures
        forall|i: int| 0 <= i < carried_values(blocks).len() ==> (#[trigger] carried_values(blocks)[i]).len() > 0,
    decreases blocks.len(),
{
    if blocks.len() > 0 {
        carried_say_something(blocks.drop_last());
        let before = carried_values(blocks.drop_last());
        let r = carried_values(blocks);
        assert forall|i: int| 0 <= i < r.len() implies (#[trigger] r[i]).len() > 0 by {
            if i < before.len() {
                assert(r[i] == before[i]);
            }
        }
    }
}

/// The values that a search hit are those that its cards carry, each once,
/// with how many cards carry it; the most common first.
pub proof fn matches_count_the_cards(
    tables: Seq<Text>,
    spec_: SpecV,
    partial: bool,
    answers: Seq<Result<Seq<JsonV>, Text>>,
)
    ensures
        ({
            let t = trace_of(tables, spec_, partial, answers);
            &&& forall|i: int|
                0 <= i < t.matches.len() ==> (#[trigger] t.matches[i]).0.len() > 0 && t.matches[i].1
                    == all_blocks(t.lanes).filter(
                    |b: BlockV| b.key_value == t.matches[i].0,
                ).len() && t.matches[i].1 > 0
            &&& forall|i: int, j: int|
                0 <= i < j < t.matches.len() ==> (#[trigger] t.matches[i]).1 > (
                #[trigger] t.matches[j]).1 || (t.matches[i].1 == t.matches[j].1 && text_less(
                    t.matches[i].0,
                    t.matches[j].0,
                ))
            &&& forall|b: BlockV| #[trigger]
                all_blocks(t.lanes).contains(b) && b.key_value.len() > 0 ==> exists|i: int|
                    0 <= i < t.matches.len() && (#[trigger] t.matches[i]).0 == b.key_value
            &&& t.partial == partial
            &&& t.value == spec_.value
            &&& t.key_label == spec_.key.label
            &&& t.blocks_found <= usize::MAX
            &&& all_blocks(t.lanes).len() <= usize::MAX ==> t.blocks_found == all_blocks(
                t.lanes,
            ).len()
        }),
{
    let t = trace_of(tables, spec_, partial, answers);
    let blocks = all_blocks(t.lanes);
    let values = carried_values(blocks);
    let set = sorted_set(values);
    let counts = value_counts(values);
    let ranks = counts.map_values(|m: (Text, int)| match_rank(m));
    let o = order(ranks);
    sorted_set_holds(values);
    order_is_stable(ranks);
    order_has_all(o, ranks);
    carried_say_something(blocks);
    assert(t.matches =~= o.map_values(|i: int| counts[i]));
    assert forall|i: int| 0 <= i < t.matches.len() implies (#[trigger] t.matches[i]).0.len() > 0
        && t.matches[i].1 == blocks.filter(|b: BlockV| b.key_value == t.matches[i].0).len()
        && t.matches[i].1 > 0 by {
        let v = set[o[i]];
        assert(0 <= o[i] < counts.len());
        assert(t.matches[i] == counts[o[i]]);
        assert(set.contains(v));
        assert(values.contains(v));
        let k = choose|k: int| 0 <= k < values.len() && values[k] == v;
        assert(values[k].len() > 0);
        carried_are(blocks, v);
        holders_count(values, v);
        holders_hold(values, v);
    }
    assert forall|i: int, j: int| 0 <= i < j < t.matches.len() implies (#[trigger] t.matches[i]).1 > (
    #[trigger] t.matches[j]).1 || (t.matches[i].1 == t.matches[j].1 && text_less(
        t.matches[i].0,
        t.matches[j].0,
    )) by {
        assert(precedes(ranks, o[i], o[j]));
        assert(0 <= o[i] < counts.len() && 0 <= o[j] < counts.len());
        assert(o[i] != o[j]);
        assert(t.matches[i] == counts[o[i]] && t.matches[j] == counts[o[j]]);
        if o[i] < o[j] {
            assert(text_less(set[o[i]], set[o[j]]));
        } else {
            assert(text_less(set[o[j]], set[o[i]]));
        }
        crate::text::text_less_total(set[o[i]], set[o[j]]);
    }
    assert forall|b: BlockV| #[trigger] blocks.contains(b) && b.key_value.len() > 0 implies exists|
        i: int,
    |
        0 <= i < t.matches.len() && (#[trigger] t.matches[i]).0 == b.key_value by {
        let k = choose|k: int| 0 <= k < blocks.len() && blocks[k] == b;
        assert(blocks[k].key_value == b.key_value);
        carried_are(blocks, b.key_value);
        assert(set.contains(b.key_value));
        let s = choose|s: int| 0 <= s < set.len() && set[s] == b.key_value;
        assert(o.contains(s));
        let i = choose|i: int| 0 <= i < o.len() && o[i] == s;
        assert(t.matches[i].0 == b.key_value);
    }
}

proof fn in_state_is(lanes: Seq<LaneV>, s: LaneState)
    ensures
        in_state(lanes, s) == lanes.filter(|l: LaneV| l.state == s).len(),
    decreases lanes.len(),
{
    reveal(Seq::filter);
    if lanes.len() > 0 {
        in_state_is(lanes.drop_last(), s);
    }
}

/// Lanes are counted by their own state.
pub proof fn lanes_are_counted_by_state(lanes: Seq<LaneV>)
    ensures
        in_state(lanes, LaneState::Reached) == lanes.filter(
            |l: LaneV| l.state == LaneState::Reached,
        ).len(),
        in_state(lanes, LaneState::Awaiting) == lanes.filter(
            |l: LaneV| l.state == LaneState::Awaiting,
        ).len(),
{
    in_state_is(lanes, LaneState::Reached);
    in_state_is(lanes, LaneState::Awaiting);
}

/// A selection resolves to a card of that id whenever there is one, and to
/// the first: no lane before it has one, nor any card before it in its lane.
pub proof fn selections_resolve_to_the_first_card(lanes: Seq<LaneV>, id: Text)
    ensures
        match found_at(lanes, id) {
            Some((i, j)) => {
                &&& 0 <= i < lanes.len()
                &&& 0 <= j < lanes[i].blocks.len()
                &&& lanes[i].blocks[j].id == id
                &&& forall|k: int| 0 <= k < j ==> (#[trigger] lanes[i].blocks[k]).id != id
                &&& forall|m: int, k: int|
                    0 <= m < i && 0 <= k < lanes[m].blocks.len() ==> (
                    #[trigger] lanes[m].blocks[k]).id != id
            },
            None => forall|m: int, k: int|
                0 <= m < lanes.len() && 0 <= k < lanes[m].blocks.len() ==> (
                #[trigger] lanes[m].blocks[k]).id != id,
        },
    decreases lanes.len(),
{
    if lanes.len() > 0 {
        let short = lanes.drop_last();
        selections_resolve_to_the_first_card(short, id);
        index_is_first(lanes.last().blocks, id);
        let n = lanes.len() - 1;
        assert(lanes[n] == lanes.last());
        match found_at(short, id) {
            Some((i, j)) => {
                assert(short[i] == lanes[i]);
                assert forall|k: int| 0 <= k < j implies (#[trigger] lanes[i].blocks[k]).id
                    != id by {
                    assert(short[i].blocks[k].id != id);
                }
                assert forall|m: int, k: int|
                    0 <= m < i && 0 <= k < lanes[m].blocks.len() implies (
                #[trigger] lanes[m].blocks[k]).id != id by {
                    assert(short[m] == lanes[m]);
                    assert(short[m].blocks[k].id != id);
                }
            },
            None => {
                assert forall|m: int, k: int|
                    0 <= m < n && 0 <= k < lanes[m].blocks.len() implies (
                #[trigger] lanes[m].blocks[k]).id != id by {
                    assert(short[m] == lanes[m]);
                    assert(short[m].blocks[k].id != id);
                }
                assert forall|k: int|
                    0 <= k < lanes[n].blocks.len() && block_index(
                        lanes.last().blocks,
                        id,
                    ) is None implies (#[trigger] lanes[n].blocks[k]).id != id by {
                    assert(lanes.last().blocks[k].id != id);
                }
            },
        }
    }
}

proof fn index_is_first(blocks: Seq<BlockV>, id: Text)
    ensures
        match block_index(blocks, id) {
            Some(i) => 0 <= i < blocks.len() && blocks[i].id == id && forall|k: int|
                0 <= k < i ==> (#[trigger] blocks[k]).id != id,
            None => forall|k: int| 0 <= k < blocks.len() ==> (#[trigger] blocks[k]).id != id,
        },
    decreases blocks.len(),
{
    if blocks.len() > 0 {
        let short = blocks.drop_last();
        index_is_first(short, id);
        assert forall|k: int| 0 <= k < short.len() implies short[k] == #[trigger] blocks[k] by {}
    }
}

// ── Another axis ──────────────────────────────────────────────────────────

/// A change of axis changes only the lanes, and none without a column.
pub proof fn relane_changes_only_the_lanes(base: TraceV, lane_field: Text, expected: Seq<Text>)
    ensures
        lane_field.len() == 0 ==> relaned(base, lane_field, expected) == base,
        ({
            let r = relaned(base, lane_field, expected);
            &&& r.value == base.value
            &&& r.key_label == base.key_label
            &&& r.span == base.span
            &&& r.blocks_found == base.blocks_found
            &&& r.partial == base.partial
            &&& r.matches == base.matches
        }),
{
}

/// A lane of another axis that could be read holds the cards whose own value
/// of the column is its name, by time; it is reached when it has one, and
/// says which tables they are from.
pub proof fn relaned_cards_are_under_their_own_value(
    base: TraceV,
    lane_field: Text,
    expected: Seq<Text>,
    l: LaneV,
)
    requires
        lane_field.len() > 0,
        relaned(base, lane_field, expected).lanes.contains(l),
        !(l.state is Failed),
    ensures
        by_time(l.blocks),
        l.error is None,
        l.state == if l.blocks.len() > 0 {
            LaneState::Reached
        } else {
            LaneState::Awaiting
        },
        forall|b: BlockV| #[trigger]
            l.blocks.contains(b) ==> readable_blocks(base.lanes).contains(b) && l.name == (
            match text_under(b.doc, lane_field) {
                Some(t) => t,
                None => "(no "@ + pieces(lane_field, '.').last() + ")"@,
            }),
        l.blocks.len() == 0 ==> l.detail is None && expected.contains(l.name),
        l.blocks.len() > 0 ==> exists|s: Seq<Text>|
            #![trigger joined(s, ", "@)]
            l.detail == Some(joined(s, ", "@)) && strictly_sorted(s) && forall|t: Text| #[trigger]
                s.contains(t) <==> exists|i: int|
                    0 <= i < l.blocks.len() && (#[trigger] l.blocks[i]).table == t,
{
    let blocks = readable_blocks(base.lanes);
    let names = lane_names(blocks, lane_field);
    let titles = axis(blocks, lane_field, expected);
    let all = regrouped(base.lanes, lane_field, expected);
    sorted_lanes_are_in_order(all);
    assert(all.contains(l));
    let k = choose|k: int| 0 <= k < all.len() && all[k] == l;
    if k >= titles.len() {
        failed_are_failed(base.lanes, k - titles.len());
    }
    let name = titles[k];
    let h = holders(names, name);
    let list = h.map_values(|i: int| blocks[i]);
    timed_is_by_time(list);
    timed_keeps(list);
    holders_hold(names, name);
    assert forall|b: BlockV| #[trigger] l.blocks.contains(b) implies blocks.contains(b) && l.name
        == lane_name(b, lane_field) by {
        assert(list.contains(b));
        let x = choose|x: int| 0 <= x < list.len() && list[x] == b;
        assert(names[h[x]] == name);
        assert(blocks[h[x]] == b);
    }
    let tables = l.blocks.map_values(|b: BlockV| b.table);
    let s = sorted_set(tables);
    sorted_set_holds(tables);
    assert forall|t: Text| #[trigger] s.contains(t) <==> exists|i: int|
        0 <= i < l.blocks.len() && (#[trigger] l.blocks[i]).table == t by {
        if tables.contains(t) {
            let i = choose|i: int| 0 <= i < tables.len() && tables[i] == t;
            assert(l.blocks[i].table == t);
        }
        if exists|i: int| 0 <= i < l.blocks.len() && (#[trigger] l.blocks[i]).table == t {
            let i = choose|i: int| 0 <= i < l.blocks.len() && (#[trigger] l.blocks[i]).table == t;
            assert(tables[i] == t);
        }
    }
    if l.blocks.len() > 0 {
        assert(l.detail == Some(joined(s, ", "@)));
    } else {
        sorted_set_holds(expected + names);
        assert(titles.contains(name));
        assert((expected + names).contains(name));
        let x = choose|x: int| 0 <= x < (expected + names).len() && (expected + names)[x] == name;
        if x >= expected.len() {
            holders_have(names, name, x - expected.len());
            assert(list.len() > 0);
        } else {
            assert(expected[x] == name);
        }
    }
}

proof fn failed_are_failed(lanes: Seq<LaneV>, k: int)
    requires
        0 <= k < failed_lanes(lanes).len(),
    ensures
        failed_lanes(lanes)[k].state is Failed,
    decreases lanes.len(),
{
    let before = failed_lanes(lanes.drop_last());
    if k < before.len() {
        failed_are_failed(lanes.drop_last(), k);
    }
}

/// The cards that a change of axis moves are those of every lane that could
/// be read.
pub proof fn readable_cards_are_of_lanes_not_failed(lanes: Seq<LaneV>, b: BlockV)
    ensures
        readable_blocks(lanes).contains(b) <==> exists|i: int|
            0 <= i < lanes.len() && !((#[trigger] lanes[i]).state is Failed)
                && lanes[i].blocks.contains(b),
    decreases lanes.len(),
{
    if lanes.len() > 0 {
        let short = lanes.drop_last();
        let before = readable_blocks(short);
        let more = lanes.last().blocks;
        let r = readable_blocks(lanes);
        readable_cards_are_of_lanes_not_failed(short, b);
        if r.contains(b) {
            let k = choose|k: int| 0 <= k < r.len() && r[k] == b;
            if k < before.len() {
                assert(before[k] == b);
                let i = choose|i: int|
                    0 <= i < short.len() && !((#[trigger] short[i]).state is Failed)
                        && short[i].blocks.contains(b);
                assert(lanes[i] == short[i]);
            } else {
                assert(more[k - before.len()] == b);
                assert(!(lanes[lanes.len() - 1].state is Failed));
            }
        }
        if exists|i: int|
            0 <= i < lanes.len() && !((#[trigger] lanes[i]).state is Failed)
                && lanes[i].blocks.contains(b) {
            let i = choose|i: int|
                0 <= i < lanes.len() && !((#[trigger] lanes[i]).state is Failed)
                    && lanes[i].blocks.contains(b);
            if i < short.len() {
                assert(short[i] == lanes[i]);
                let k = choose|k: int| 0 <= k < before.len() && before[k] == b;
                assert(r[k] == b);
            } else {
                let k = choose|k: int| 0 <= k < more.len() && more[k] == b;
                assert(r[before.len() + k] == b);
            }
        }
    }
}

/// Each row of a lane makes its own card, in order and two hundred at most,
/// under an id of its own.
pub proof fn rows_make_a_card_each(rows: Seq<JsonV>, spec_: SpecV, b: BindingV, i: int, j: int)
    ensures
        rows.len() <= 200 ==> row_blocks(rows, spec_, b).len() == rows.len(),
        rows.len() > 200 ==> row_blocks(rows, spec_, b).len() == 200,
        0 <= i < row_blocks(rows, spec_, b).len() ==> row_blocks(rows, spec_, b)[i].doc == rows[i],
        0 <= i < j < row_blocks(rows, spec_, b).len() ==> row_blocks(rows, spec_, b)[i].id
            != row_blocks(rows, spec_, b)[j].id,
{
    if 0 <= i < j < row_blocks(rows, spec_, b).len() {
        crate::text::digits_read_back(i as nat);
        crate::text::digits_read_back(j as nat);
        let head = b.table + "#"@;
        let x = block_id(b.table, i);
        let y = block_id(b.table, j);
        if x == y {
            assert(x.skip(head.len() as int) =~= digits(i as nat));
            assert(y.skip(head.len() as int) =~= digits(j as nat));
        }
    }
}

/// Cards of one time, or without any, keep the order of their rows. Gives
/// where two of them stood.
pub proof fn cards_of_one_time_keep_their_order(blocks: Seq<BlockV>, i: int, j: int) -> (at: (
    int,
    int,
))
    requires
        0 <= i < j < timed(blocks).len(),
        timed(blocks)[i].at == timed(blocks)[j].at,
    ensures
        0 <= at.0 < at.1 < blocks.len(),
        timed(blocks)[i] == blocks[at.0],
        timed(blocks)[j] == blocks[at.1],
{
    let ranks = blocks.map_values(|b: BlockV| block_rank(b));
    order_is_stable(ranks);
    let o = order(ranks);
    assert(precedes(ranks, o[i], o[j]));
    assert(0 <= o[i] < blocks.len() && 0 <= o[j] < blocks.len());
    crate::text::text_less_irreflexive(ranks[o[i]].text);
    (o[i], o[j])
}

/// A lane's cards are its rows' cards by time: each as often, none lost.
pub proof fn sorting_cards_loses_none(blocks: Seq<BlockV>)
    ensures
        timed(blocks).to_multiset() == blocks.to_multiset(),
        by_time(timed(blocks)),
{
    let ranks = blocks.map_values(|b: BlockV| block_rank(b));
    arranged_multiset(blocks, ranks);
    order_is_stable(ranks);
    let o = order(ranks);
    let r = timed(blocks);
    assert forall|i: int, j: int|
        0 <= i < j < r.len() && (#[trigger] r[j]).at is Some && r[j].at->0 < i64::MAX implies (
    #[trigger] r[i]).at is Some && r[i].at->0 <= r[j].at->0 by {
        assert(precedes(ranks, o[i], o[j]));
        assert(0 <= o[i] < blocks.len() && 0 <= o[j] < blocks.len());
    }
}


} // verus!
