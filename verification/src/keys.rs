//! Correlation keys: the groups of linked columns, each with the reasons to
//! trust or distrust it.

use crate::discover::{identifier_hint, name_suggests_identifier};
use crate::linking::{
    carriers, carriers_hold, collect_nodes, every_column_is_in_a_group, group_nodes,
    groups_have_one_root, groups_view, groups_within, index_values, key_groups, key_roots,
    name_keys, nodes_of, pool_has, spelling_or_values_put_columns_together, value_link, value_pool,
    values_connect_different_spellings, values_sorted, Node, NodeV,
};
use crate::order::{
    arrange, arranged, arranged_keeps, arranged_views, filter_holds, group_by_text, holders,
    holders_count, holders_have, holders_hold, ints, order, order_is_stable, precedes, sort_set,
    sorted_is_apart, sorted_set, sorted_set_holds, strictly_sorted, Rank, RankV, TextSet,
};
use crate::schema::{copy_texts, TableSchema, TableV, SHARE_ONE};
use crate::text::{
    byte_len, bytes_in, cat2, cat3, decimal, digits, join, joined, same, tally, tally_is_filter,
    text_before, text_less, text_less_irreflexive, text_less_transitive, views, Text,
};
use vstd::prelude::*;

verus! {

/// One table's participation in a key: which column carries it there.
#[derive(Debug, PartialEq)]
pub struct Binding {
    pub table: String,
    pub field: String,
    /// The declared KQL type; it decides whether a value can be compared
    /// directly.
    pub kind: String,
    pub seen_in: usize,
    pub sampled_rows: usize,
    pub distinct: usize,
}

#[verifier::ext_equal]
pub ghost struct BindingV {
    pub table: Text,
    pub field: Text,
    pub kind: Text,
    pub seen_in: int,
    pub sampled_rows: int,
    pub distinct: int,
}

impl View for Binding {
    type V = BindingV;

    open spec fn view(&self) -> BindingV {
        BindingV {
            table: self.table@,
            field: self.field@,
            kind: self.kind@,
            seen_in: self.seen_in as int,
            sampled_rows: self.sampled_rows as int,
            distinct: self.distinct as int,
        }
    }
}

impl Clone for Binding {
    fn clone(&self) -> (r: Binding)
        ensures
            r@ == self@,
    {
        Binding {
            table: self.table.clone(),
            field: self.field.clone(),
            kind: self.kind.clone(),
            seen_in: self.seen_in,
            sampled_rows: self.sampled_rows,
            distinct: self.distinct,
        }
    }
}

/// A reason to trust, or distrust, a candidate.
#[derive(Debug, PartialEq)]
pub struct Evidence {
    pub good: bool,
    pub text: String,
}

#[verifier::ext_equal]
pub ghost struct EvidenceV {
    pub good: bool,
    pub text: Text,
}

impl View for Evidence {
    type V = EvidenceV;

    open spec fn view(&self) -> EvidenceV {
        EvidenceV { good: self.good, text: self.text@ }
    }
}

#[derive(Debug, PartialEq)]
pub struct KeyCandidate {
    /// Stable identity of the group across rescans.
    pub id: String,
    pub label: String,
    pub bindings: Vec<Binding>,
    /// Tables where nothing in this group was sampled.
    pub missing: Vec<String>,
    /// Distinct values seen in more than one table: direct proof that the
    /// column links rows.
    pub shared_values: usize,
    /// The group spans more than one spelling, whatever the case of letters,
    /// so only the values connect it.
    pub cross_named: bool,
    pub id_shaped: bool,
    pub well_known: bool,
    /// Averages and score are in units of one part in [`SHARE_ONE`].
    pub avg_fill: u64,
    pub avg_distinct_ratio: u64,
    pub score: i128,
    pub evidence: Vec<Evidence>,
}

#[verifier::ext_equal]
pub ghost struct KeyV {
    pub id: Text,
    pub label: Text,
    pub bindings: Seq<BindingV>,
    pub missing: Seq<Text>,
    pub shared_values: int,
    pub cross_named: bool,
    pub id_shaped: bool,
    pub well_known: bool,
    pub avg_fill: int,
    pub avg_distinct_ratio: int,
    pub score: int,
    pub evidence: Seq<EvidenceV>,
}

impl View for KeyCandidate {
    type V = KeyV;

    open spec fn view(&self) -> KeyV {
        KeyV {
            id: self.id@,
            label: self.label@,
            bindings: views(self.bindings@),
            missing: views(self.missing@),
            shared_values: self.shared_values as int,
            cross_named: self.cross_named,
            id_shaped: self.id_shaped,
            well_known: self.well_known,
            avg_fill: self.avg_fill as int,
            avg_distinct_ratio: self.avg_distinct_ratio as int,
            score: self.score as int,
            evidence: views(self.evidence@),
        }
    }
}

impl Clone for Evidence {
    fn clone(&self) -> (r: Evidence)
        ensures
            r@ == self@,
    {
        Evidence { good: self.good, text: self.text.clone() }
    }
}

impl Clone for KeyCandidate {
    fn clone(&self) -> (r: KeyCandidate)
        ensures
            r@ == self@,
    {
        let mut bindings: Vec<Binding> = Vec::new();
        let mut i: usize = 0;
        while i < self.bindings.len()
            invariant
                i <= self.bindings@.len(),
                bindings@.len() == i,
                forall|k: int| 0 <= k < i ==> (#[trigger] bindings@[k])@ == self.bindings@[k]@,
            decreases self.bindings@.len() - i,
        {
            bindings.push(self.bindings[i].clone());
            i = i + 1;
        }
        assert(views(bindings@) =~= views(self.bindings@));
        let mut evidence: Vec<Evidence> = Vec::new();
        let mut j: usize = 0;
        while j < self.evidence.len()
            invariant
                j <= self.evidence@.len(),
                evidence@.len() == j,
                forall|k: int| 0 <= k < j ==> (#[trigger] evidence@[k])@ == self.evidence@[k]@,
            decreases self.evidence@.len() - j,
        {
            evidence.push(self.evidence[j].clone());
            j = j + 1;
        }
        assert(views(evidence@) =~= views(self.evidence@));
        KeyCandidate {
            id: self.id.clone(),
            label: self.label.clone(),
            bindings,
            missing: copy_texts(&self.missing),
            shared_values: self.shared_values,
            cross_named: self.cross_named,
            id_shaped: self.id_shaped,
            well_known: self.well_known,
            avg_fill: self.avg_fill,
            avg_distinct_ratio: self.avg_distinct_ratio,
            score: self.score,
            evidence,
        }
    }
}

/// The first binding of a table.
pub open spec fn binding_in(bindings: Seq<BindingV>, table: Text) -> Option<BindingV>
    decreases bindings.len(),
{
    if bindings.len() == 0 {
        None
    } else if bindings[0].table == table {
        Some(bindings[0])
    } else {
        binding_in(bindings.drop_first(), table)
    }
}

impl KeyCandidate {
    /// The column carrying this key in a table, if any.
    pub fn binding_for(&self, table: &str) -> (r: Option<&Binding>)
        ensures
            match r {
                Some(b) => binding_in(self@.bindings, table@) == Some(b@),
                None => binding_in(self@.bindings, table@) is None,
            },
    {
        let ghost all = views(self.bindings@);
        let mut i: usize = 0;
        assert(all.skip(0) =~= all);
        while i < self.bindings.len()
            invariant
                i <= self.bindings@.len(),
                all == views(self.bindings@),
                binding_in(all, table@) == binding_in(all.skip(i as int), table@),
            decreases self.bindings@.len() - i,
        {
            assert(all.skip(i as int)[0] == self.bindings@[i as int]@);
            assert(all.skip(i as int).drop_first() =~= all.skip(i + 1));
            if same(self.bindings[i].table.as_str(), table) {
                return Some(&self.bindings[i]);
            }
            i = i + 1;
        }
        None
    }
}

// ── One column per table ──────────────────────────────────────────────────

/// More selective, or as selective and fuller.
pub open spec fn outranks(a: NodeV, b: NodeV) -> bool {
    a.distinct > b.distinct || (a.distinct == b.distinct && a.seen_in > b.seen_in)
}

/// The first of the best among some nodes.
pub open spec fn best_of(nodes: Seq<NodeV>, list: Seq<int>) -> int
    decreases list.len(),
{
    if list.len() <= 1 {
        list[0]
    } else {
        let c = best_of(nodes, list.drop_last());
        if outranks(nodes[list.last()], nodes[c]) {
            list.last()
        } else {
            c
        }
    }
}

pub open spec fn member_tables(nodes: Seq<NodeV>, members: Seq<int>) -> Seq<Text> {
    members.map_values(|i: int| nodes[i].table)
}

/// The members that are in a table, in order.
pub open spec fn members_in(nodes: Seq<NodeV>, members: Seq<int>, table: Text) -> Seq<int> {
    holders(member_tables(nodes, members), table).map_values(|k: int| members[k])
}

/// One column per table, ascending by table: where a table contributes
/// several, the most selective one.
pub open spec fn chosen(nodes: Seq<NodeV>, members: Seq<int>) -> Seq<NodeV> {
    sorted_set(member_tables(nodes, members)).map_values(
        |t: Text| nodes[best_of(nodes, members_in(nodes, members, t))],
    )
}

proof fn best_is_member(nodes: Seq<NodeV>, list: Seq<int>)
    requires
        list.len() > 0,
    ensures
        list.contains(best_of(nodes, list)),
    decreases list.len(),
{
    if list.len() > 1 {
        best_is_member(nodes, list.drop_last());
        let c = best_of(nodes, list.drop_last());
        let k = choose|k: int| 0 <= k < list.drop_last().len() && list.drop_last()[k] == c;
        assert(list[k] == c);
        assert(list[list.len() - 1] == list.last());
    } else {
        assert(list[0] == best_of(nodes, list));
    }
}

fn choose_nodes(nodes: &Vec<Node>, members: &Vec<usize>) -> (r: Vec<Node>)
    requires
        values_sorted(views(nodes@)),
        forall|k: int| 0 <= k < members@.len() ==> 0 <= #[trigger] members@[k] < nodes@.len(),
    ensures
        views(r@) == chosen(views(nodes@), ints(members@)),
        values_sorted(views(r@)),
{
    let ghost nv = views(nodes@);
    let ghost mi = ints(members@);
    let mut tables: Vec<String> = Vec::new();
    let mut i: usize = 0;
    while i < members.len()
        invariant
            i <= members@.len(),
            nv == views(nodes@),
            mi == ints(members@),
            forall|k: int| 0 <= k < members@.len() ==> 0 <= #[trigger] members@[k] < nodes@.len(),
            tables@.len() == i,
            forall|k: int| 0 <= k < i ==> (#[trigger] tables@[k])@ == nv[mi[k]].table,
        decreases members@.len() - i,
    {
        tables.push(nodes[members[i]].table.clone());
        i = i + 1;
    }
    let ghost mt = member_tables(nv, mi);
    assert(views(tables@) =~= mt);
    let (set, groups) = group_by_text(&tables);
    proof {
        sorted_set_holds(mt);
    }
    let mut out: Vec<Node> = Vec::new();
    let mut g: usize = 0;
    while g < groups.len()
        invariant
            g <= groups@.len(),
            nv == views(nodes@),
            mi == ints(members@),
            mt == member_tables(nv, mi),
            values_sorted(nv),
            forall|k: int| 0 <= k < members@.len() ==> 0 <= #[trigger] members@[k] < nodes@.len(),
            set@ == sorted_set(mt),
            forall|x: Text| #[trigger] set@.contains(x) <==> mt.contains(x),
            groups@.len() == set@.len(),
            forall|k: int|
                0 <= k < groups@.len() ==> ints((#[trigger] groups@[k])@) == holders(mt, set@[k]),
            out@.len() == g,
            forall|k: int|
                0 <= k < g ==> (#[trigger] out@[k])@ == nv[best_of(nv, members_in(nv, mi, set@[k]))],
            forall|k: int| 0 <= k < g ==> strictly_sorted((#[trigger] out@[k])@.linkable),
        decreases groups@.len() - g,
    {
        let h = &groups[g];
        let ghost t = set@[g as int];
        let ghost hi = holders(mt, t);
        let ghost list = members_in(nv, mi, t);
        proof {
            assert(ints(h@) == hi);
            assert(hi.len() == h@.len());
            assert(set@.contains(t));
            holders_hold(mt, t);
            assert forall|k: int| 0 <= k < h@.len() implies 0 <= #[trigger] h@[k]
                < members@.len() by {
                assert(hi[k] == h@[k]);
            }
        }
        let mut best: usize = members[h[0]];
        let mut w: usize = 1;
        proof {
            assert(hi[0] == h@[0]);
            assert(list.take(1)[0] == best);
        }
        while w < h.len()
            invariant
                1 <= w <= h@.len(),
                nv == views(nodes@),
                mi == ints(members@),
                hi == ints(h@),
                list == hi.map_values(|k: int| mi[k]),
                forall|k: int|
                    0 <= k < members@.len() ==> 0 <= #[trigger] members@[k] < nodes@.len(),
                forall|k: int| 0 <= k < h@.len() ==> 0 <= #[trigger] h@[k] < members@.len(),
                best < nodes@.len(),
                best == best_of(nv, list.take(w as int)),
            decreases h@.len() - w,
        {
            let m: usize = members[h[w]];
            assert(hi[w as int] == h@[w as int]);
            assert(list.take(w + 1).drop_last() =~= list.take(w as int));
            assert(list.take(w + 1).last() == m);
            let a = &nodes[m];
            let b = &nodes[best];
            if a.distinct > b.distinct || (a.distinct == b.distinct && a.seen_in > b.seen_in) {
                best = m;
            }
            w = w + 1;
        }
        assert(list.take(w as int) =~= list);
        assert(strictly_sorted(nv[best as int].linkable));
        out.push(nodes[best].clone());
        g = g + 1;
    }
    assert(views(out@) =~= chosen(nv, mi));
    out
}

// ── What the columns show ─────────────────────────────────────────────────

pub open spec fn binding_of(n: NodeV) -> BindingV {
    BindingV {
        table: n.table,
        field: n.field,
        kind: n.kind,
        seen_in: n.seen_in,
        sampled_rows: n.sampled_rows,
        distinct: n.distinct,
    }
}

pub open spec fn fields_of(c: Seq<NodeV>) -> Seq<Text> {
    c.map_values(|n: NodeV| n.field)
}

/// How many values stand in more than one of the columns.
pub open spec fn shared_count(c: Seq<NodeV>) -> nat {
    tally(sorted_set(value_pool(c)), |v: Text| carriers(c, v).len() > 1)
}

pub open spec fn fill_total(c: Seq<NodeV>) -> int
    decreases c.len(),
{
    if c.len() == 0 {
        0
    } else {
        fill_total(c.drop_last()) + c.last().fill
    }
}

pub open spec fn ratio_total(c: Seq<NodeV>) -> int
    decreases c.len(),
{
    if c.len() == 0 {
        0
    } else {
        ratio_total(c.drop_last()) + c.last().distinct_ratio
    }
}

/// The average of a total over so many, rounded down.
pub open spec fn average(total: int, n: int) -> int {
    if n <= 0 {
        0
    } else {
        total / n
    }
}

pub open spec fn id_count(c: Seq<NodeV>) -> nat
    decreases c.len(),
{
    if c.len() == 0 {
        0
    } else {
        id_count(c.drop_last()) + if c.last().id_shaped {
            1nat
        } else {
            0
        }
    }
}

pub open spec fn any_well_known(c: Seq<NodeV>) -> bool {
    exists|i: int| 0 <= i < c.len() && (#[trigger] c[i]).well_known
}

pub open spec fn any_hint(c: Seq<NodeV>) -> bool {
    exists|i: int| 0 <= i < c.len() && identifier_hint((#[trigger] c[i]).name_key)
}

/// How many columns use a spelling.
pub open spec fn uses(c: Seq<NodeV>, name: Text) -> nat {
    holders(fields_of(c), name).len()
}

/// The spelling that most columns use, then the shortest; the last of
/// those in order.
pub open spec fn common_name(c: Seq<NodeV>, names: Seq<Text>) -> Text
    decreases names.len(),
{
    if names.len() == 0 {
        Seq::empty()
    } else if names.len() == 1 {
        names[0]
    } else {
        let best = common_name(c, names.drop_last());
        let n = names.last();
        if uses(c, n) > uses(c, best) || (uses(c, n) == uses(c, best) && byte_len(n) <= byte_len(
            best,
        )) {
            n
        } else {
            best
        }
    }
}

/// The least of some texts.
pub open spec fn least(s: Seq<Text>) -> Text
    decreases s.len(),
{
    if s.len() == 0 {
        Seq::empty()
    } else if s.len() == 1 {
        s[0]
    } else {
        let m = least(s.drop_last());
        if text_less(s.last(), m) {
            s.last()
        } else {
            m
        }
    }
}

pub open spec fn column_id(n: NodeV) -> Text {
    n.table + "\u{1}"@ + n.field
}

/// What a score is made of.
pub ghost struct Facts {
    pub reach: int,
    pub shared: int,
    pub cross_named: bool,
    pub well_known: bool,
    pub id_shaped: bool,
    pub avg_fill: int,
    pub avg_distinct: int,
    pub hint: bool,
}

pub open spec fn facts_of(c: Seq<NodeV>) -> Facts {
    Facts {
        reach: c.len() as int,
        shared: shared_count(c) as int,
        cross_named: sorted_set(name_keys(c)).len() > 1,
        well_known: any_well_known(c),
        id_shaped: id_count(c) * 2 > c.len(),
        avg_fill: average(fill_total(c), c.len() as int),
        avg_distinct: average(ratio_total(c), c.len() as int),
        hint: any_hint(c),
    }
}

pub open spec fn at_most(a: int, b: int) -> int {
    if a <= b {
        a
    } else {
        b
    }
}

/// Fewer than fifteen values in a hundred are different.
pub open spec fn status_like(f: Facts) -> bool {
    100 * f.avg_distinct < 15 * SHARE_ONE
}

pub open spec fn thinly_filled(f: Facts) -> bool {
    2 * f.avg_fill < SHARE_ONE
}

/// How good a key the facts make. Reach counts most, then proof of linking;
/// convention is worth less than proof, and a name least of all.
pub open spec fn score_of(f: Facts) -> int {
    3 * (at_most(f.reach, 6) - 1) * SHARE_ONE + (if f.shared > 0 {
        4 * SHARE_ONE + at_most(f.shared, 10) * (3 * SHARE_ONE / 10)
    } else {
        0
    }) + (if f.well_known {
        5 * SHARE_ONE / 2
    } else {
        0
    }) + (if f.id_shaped {
        3 * SHARE_ONE / 2
    } else {
        0
    }) - (if status_like(f) {
        5 * SHARE_ONE
    } else {
        0
    }) + 2 * f.avg_fill + (if f.hint && !f.well_known {
        SHARE_ONE as int
    } else {
        0
    })
}

/// A share in whole percent, halves to the even one.
pub open spec fn percent(share: int) -> int {
    let q = (100 * share) / (SHARE_ONE as int);
    let r = (100 * share) % (SHARE_ONE as int);
    if 2 * r > SHARE_ONE || (2 * r == SHARE_ONE && q % 2 == 1) {
        q + 1
    } else {
        q
    }
}

pub open spec fn remark(b: bool, good: bool, text: Text) -> Seq<EvidenceV> {
    if b {
        seq![EvidenceV { good, text }]
    } else {
        Seq::empty()
    }
}

/// The reasons behind a score, in order.
pub open spec fn reasons(f: Facts, names: Seq<Text>) -> Seq<EvidenceV> {
    remark(f.reach > 1, true, "present in "@ + digits(f.reach as nat) + " tables"@) + remark(
        f.reach <= 1,
        false,
        "only in one table — nothing to trace across"@,
    ) + remark(
        f.shared > 0,
        true,
        digits(f.shared as nat) + " values seen in more than one table"@,
    ) + remark(
        f.shared <= 0 && f.reach > 1,
        false,
        "no shared values in the sample — the link is unproven"@,
    ) + remark(
        f.shared > 0 && names.len() > 1,
        true,
        "same values under different names: "@ + joined(names, ", "@),
    ) + remark(f.well_known, true, "a standard Azure Monitor correlation column"@) + remark(
        f.id_shaped,
        true,
        "values look like identifiers"@,
    ) + remark(
        status_like(f),
        false,
        "only "@ + digits(percent(f.avg_distinct) as nat)
            + "% distinct values — looks like a status, not an id"@,
    ) + remark(
        thinly_filled(f),
        false,
        "set on only "@ + digits(percent(f.avg_fill) as nat) + "% of sampled rows"@,
    ) + remark(f.hint && !f.well_known, true, "name follows a common id convention"@)
}

/// The paths that are not among some tables, in order.
pub open spec fn absent(paths: Seq<Text>, tables: Seq<Text>) -> Seq<Text>
    decreases paths.len(),
{
    if paths.len() == 0 {
        Seq::empty()
    } else {
        let before = absent(paths.drop_last(), tables);
        if tables.contains(paths.last()) {
            before
        } else {
            before.push(paths.last())
        }
    }
}

/// The candidate that one column per table makes.
pub open spec fn candidate(c: Seq<NodeV>, paths: Seq<Text>) -> KeyV {
    let names = sorted_set(fields_of(c));
    let f = facts_of(c);
    KeyV {
        id: least(c.map_values(|n: NodeV| column_id(n))),
        label: common_name(c, names),
        bindings: c.map_values(|n: NodeV| binding_of(n)),
        missing: absent(paths, c.map_values(|n: NodeV| n.table)),
        shared_values: f.shared,
        cross_named: f.cross_named,
        id_shaped: f.id_shaped,
        well_known: f.well_known,
        avg_fill: f.avg_fill,
        avg_distinct_ratio: f.avg_distinct,
        score: score_of(f),
        evidence: reasons(f, names),
    }
}

pub open spec fn paths_of(schemas: Seq<TableV>) -> Seq<Text> {
    schemas.map_values(|t: TableV| t.table)
}

/// The keys of a workspace, before ranking.
pub open spec fn unranked_keys(schemas: Seq<TableV>) -> Seq<KeyV> {
    let nodes = nodes_of(schemas);
    key_groups(nodes).map_values(|g: Seq<int>| candidate(chosen(nodes, g), paths_of(schemas)))
}

/// Keys stand by score, best first, then by label.
pub open spec fn key_rank(k: KeyV) -> RankV {
    RankV { first: -k.score, second: 0, text: k.label }
}

/// The keys of a workspace, best first.
pub open spec fn ranked_keys(schemas: Seq<TableV>) -> Seq<KeyV> {
    let all = unranked_keys(schemas);
    arranged(all, all.map_values(|k: KeyV| key_rank(k)))
}

// ── Building candidates ───────────────────────────────────────────────────

fn count_shared(c: &Vec<Node>) -> (r: usize)
    requires
        values_sorted(views(c@)),
    ensures
        r == shared_count(views(c@)),
{
    let ghost cv = views(c@);
    let ghost p = |v: Text| carriers(cv, v).len() > 1;
    let (set, groups) = index_values(c);
    let mut r: usize = 0;
    let mut i: usize = 0;
    assert(set@.take(0) =~= Seq::empty());
    while i < groups.len()
        invariant
            i <= groups@.len(),
            r <= i,
            groups@.len() == set@.len(),
            p == |v: Text| carriers(cv, v).len() > 1,
            forall|k: int|
                0 <= k < groups@.len() ==> ints((#[trigger] groups@[k])@) == carriers(cv, set@[k]),
            r == tally(set@.take(i as int), p),
        decreases groups@.len() - i,
    {
        assert(set@.take(i + 1).drop_last() =~= set@.take(i as int));
        assert(ints(groups@[i as int]@).len() == groups@[i as int]@.len());
        assert(p(set@[i as int]) == (carriers(cv, set@[i as int]).len() > 1));
        if groups[i].len() > 1 {
            r = r + 1;
        }
        i = i + 1;
    }
    assert(set@.take(i as int) =~= set@);
    r
}

fn mean(total: u128, n: usize) -> (r: u64)
    requires
        total <= n * u64::MAX,
    ensures
        r == average(total as int, n as int),
{
    if n == 0 {
        return 0;
    }
    assert(total / (n as u128) <= u64::MAX) by (nonlinear_arith)
        requires
            total <= n * u64::MAX,
            n > 0,
    ;
    (total / (n as u128)) as u64
}

fn average_fill(c: &Vec<Node>) -> (r: u64)
    ensures
        r == average(fill_total(views(c@)), c@.len() as int),
{
    let ghost cv = views(c@);
    let n: usize = c.len();
    let mut total: u128 = 0;
    let mut i: usize = 0;
    assert(cv.take(0) =~= Seq::empty());
    while i < n
        invariant
            i <= n == c@.len(),
            cv == views(c@),
            total == fill_total(cv.take(i as int)),
            total <= i * u64::MAX,
        decreases n - i,
    {
        assert(cv.take(i + 1).drop_last() =~= cv.take(i as int));
        total = total + c[i].fill as u128;
        i = i + 1;
    }
    assert(cv.take(i as int) =~= cv);
    mean(total, n)
}

fn average_ratio(c: &Vec<Node>) -> (r: u64)
    ensures
        r == average(ratio_total(views(c@)), c@.len() as int),
{
    let ghost cv = views(c@);
    let n: usize = c.len();
    let mut total: u128 = 0;
    let mut i: usize = 0;
    assert(cv.take(0) =~= Seq::empty());
    while i < n
        invariant
            i <= n == c@.len(),
            cv == views(c@),
            total == ratio_total(cv.take(i as int)),
            total <= i * u64::MAX,
        decreases n - i,
    {
        assert(cv.take(i + 1).drop_last() =~= cv.take(i as int));
        total = total + c[i].distinct_ratio as u128;
        i = i + 1;
    }
    assert(cv.take(i as int) =~= cv);
    mean(total, n)
}

/// Whether most columns are identifiers, any is conventional, any is named
/// like one.
fn shape_of(c: &Vec<Node>) -> (r: (bool, bool, bool))
    ensures
        r.0 == (id_count(views(c@)) * 2 > c@.len()),
        r.1 == any_well_known(views(c@)),
        r.2 == any_hint(views(c@)),
{
    let ghost cv = views(c@);
    let mut ids: usize = 0;
    let mut well_known: bool = false;
    let mut hint: bool = false;
    let mut i: usize = 0;
    assert(cv.take(0) =~= Seq::empty());
    while i < c.len()
        invariant
            i <= c@.len(),
            cv == views(c@),
            ids <= i,
            ids == id_count(cv.take(i as int)),
            well_known == exists|k: int| 0 <= k < i && (#[trigger] cv[k]).well_known,
            hint == exists|k: int| 0 <= k < i && identifier_hint((#[trigger] cv[k]).name_key),
        decreases c@.len() - i,
    {
        assert(cv.take(i + 1).drop_last() =~= cv.take(i as int));
        assert(cv[i as int] == c@[i as int]@);
        if c[i].id_shaped {
            ids = ids + 1;
        }
        if c[i].well_known {
            well_known = true;
        }
        if name_suggests_identifier(c[i].name_key.as_str()) {
            hint = true;
        }
        i = i + 1;
    }
    assert(cv.take(i as int) =~= cv);
    ((ids as u128) * 2 > c.len() as u128, well_known, hint)
}

/// The spellings in use, ascending, and the most common one.
fn spellings(c: &Vec<Node>) -> (r: (Vec<String>, String))
    ensures
        views(r.0@) == sorted_set(fields_of(views(c@))),
        r.1@ == common_name(views(c@), views(r.0@)),
{
    let ghost cv = views(c@);
    let mut fields: Vec<String> = Vec::new();
    let mut i: usize = 0;
    while i < c.len()
        invariant
            i <= c@.len(),
            cv == views(c@),
            fields@.len() == i,
            forall|k: int| 0 <= k < i ==> (#[trigger] fields@[k])@ == cv[k].field,
        decreases c@.len() - i,
    {
        fields.push(c[i].field.clone());
        i = i + 1;
    }
    assert(views(fields@) =~= fields_of(cv));
    let (set, groups) = group_by_text(&fields);
    let names = set.into_items();
    let ghost nv = views(names@);
    let mut label: String = String::new();
    assert(label@ =~= Seq::empty());
    let mut at: usize = 0;
    let mut k: usize = 0;
    assert(nv.take(0) =~= Seq::empty());
    while k < names.len()
        invariant
            k <= names@.len(),
            nv == views(names@),
            groups@.len() == nv.len(),
            forall|j: int|
                0 <= j < groups@.len() ==> ints((#[trigger] groups@[j])@) == holders(
                    fields_of(cv),
                    nv[j],
                ),
            label@ == common_name(cv, nv.take(k as int)),
            k > 0 ==> at < k && label@ == nv[at as int],
        decreases names@.len() - k,
    {
        assert(nv.take(k + 1).drop_last() =~= nv.take(k as int));
        assert(nv.take(k + 1).last() == names@[k as int]@);
        if k == 0 {
            label = names[0].clone();
            at = 0;
            assert(nv.take(1)[0] == nv[0]);
        } else {
            let a: usize = groups[k].len();
            let b: usize = groups[at].len();
            assert(ints(groups@[k as int]@).len() == a);
            assert(ints(groups@[at as int]@).len() == b);
            if a > b || (a == b && bytes_in(names[k].as_str()) <= bytes_in(label.as_str())) {
                label = names[k].clone();
                at = k;
            }
        }
        k = k + 1;
    }
    assert(nv.take(k as int) =~= nv);
    (names, label)
}

fn least_id(c: &Vec<Node>) -> (r: String)
    ensures
        r@ == least(views(c@).map_values(|n: NodeV| column_id(n))),
{
    let ghost all = views(c@).map_values(|n: NodeV| column_id(n));
    let mut r: String = String::new();
    assert(r@ =~= Seq::empty());
    let mut i: usize = 0;
    assert(all.take(0) =~= Seq::empty());
    while i < c.len()
        invariant
            i <= c@.len(),
            all == views(c@).map_values(|n: NodeV| column_id(n)),
            r@ == least(all.take(i as int)),
        decreases c@.len() - i,
    {
        let id = cat3(c[i].table.as_str(), "\u{1}", c[i].field.as_str());
        assert(all.take(i + 1).drop_last() =~= all.take(i as int));
        assert(all.take(i + 1).last() == id@);
        assert(all[i as int] == column_id(c@[i as int]@));
        if i == 0 || text_before(id.as_str(), r.as_str()) {
            r = id;
            assert(i == 0 ==> all.take(1)[0] == r@);
        }
        i = i + 1;
    }
    assert(all.take(i as int) =~= all);
    r
}

fn score(
    reach: usize,
    shared: usize,
    well_known: bool,
    id_shaped: bool,
    avg_fill: u64,
    avg_distinct: u64,
    hint: bool,
    Ghost(f): Ghost<Facts>,
) -> (r: i128)
    requires
        f.reach == reach,
        f.shared == shared,
        f.well_known == well_known,
        f.id_shaped == id_shaped,
        f.avg_fill == avg_fill,
        f.avg_distinct == avg_distinct,
        f.hint == hint,
    ensures
        r == score_of(f),
        -40 * SHARE_ONE <= r,
{
    let one: i128 = SHARE_ONE as i128;
    let capped: i128 = if reach <= 6 {
        reach as i128
    } else {
        6
    };
    let mut r: i128 = 3 * (capped - 1) * one;
    if shared > 0 {
        let n: i128 = if shared <= 10 {
            shared as i128
        } else {
            10
        };
        assert(3 * SHARE_ONE / 10 == 69_837_768);
        r = r + 4 * one + n * 69_837_768;
    }
    if well_known {
        r = r + 5 * one / 2;
    }
    if id_shaped {
        r = r + 3 * one / 2;
    }
    if 100 * (avg_distinct as i128) < 15 * one {
        r = r - 5 * one;
    }
    r = r + 2 * (avg_fill as i128);
    if hint && !well_known {
        r = r + one;
    }
    r
}

fn percent_of(share: u64) -> (r: u128)
    ensures
        r == percent(share as int),
{
    let one: u128 = SHARE_ONE as u128;
    let q: u128 = (100 * (share as u128)) / one;
    let rest: u128 = (100 * (share as u128)) % one;
    if 2 * rest > one || (2 * rest == one && q % 2 == 1) {
        q + 1
    } else {
        q
    }
}

fn remark_on(out: &mut Vec<Evidence>, b: bool, good: bool, text: String)
    ensures
        views(final(out)@) == views(old(out)@) + remark(b, good, text@),
{
    let ghost before = views(out@);
    if b {
        let e = Evidence { good, text };
        let ghost ev = e@;
        out.push(e);
        assert(views(out@) =~= before + seq![ev]);
    } else {
        assert(views(out@) =~= before + Seq::<EvidenceV>::empty());
    }
}

fn reasons_for(
    reach: usize,
    shared: usize,
    well_known: bool,
    id_shaped: bool,
    avg_fill: u64,
    avg_distinct: u64,
    hint: bool,
    names: &Vec<String>,
    Ghost(f): Ghost<Facts>,
) -> (r: Vec<Evidence>)
    requires
        f.reach == reach,
        f.shared == shared,
        f.well_known == well_known,
        f.id_shaped == id_shaped,
        f.avg_fill == avg_fill,
        f.avg_distinct == avg_distinct,
        f.hint == hint,
    ensures
        views(r@) == reasons(f, views(names@)),
{
    let one: u128 = SHARE_ONE as u128;
    let mut out: Vec<Evidence> = Vec::new();
    let r = decimal(reach as u128);
    let s = decimal(shared as u128);
    remark_on(&mut out, reach > 1, true, cat3("present in ", r.as_str(), " tables"));
    assert(views(out@) =~= remark(
        f.reach > 1,
        true,
        "present in "@ + digits(f.reach as nat) + " tables"@,
    ));
    remark_on(
        &mut out,
        reach <= 1,
        false,
        "only in one table — nothing to trace across".to_owned(),
    );
    remark_on(&mut out, shared > 0, true, cat2(s.as_str(), " values seen in more than one table"));
    remark_on(
        &mut out,
        shared == 0 && reach > 1,
        false,
        "no shared values in the sample — the link is unproven".to_owned(),
    );
    assert(views(names@).len() == names@.len());
    remark_on(
        &mut out,
        shared > 0 && names.len() > 1,
        true,
        cat2("same values under different names: ", join(names, ", ").as_str()),
    );
    remark_on(
        &mut out,
        well_known,
        true,
        "a standard Azure Monitor correlation column".to_owned(),
    );
    remark_on(&mut out, id_shaped, true, "values look like identifiers".to_owned());
    remark_on(
        &mut out,
        100 * (avg_distinct as u128) < 15 * one,
        false,
        cat3(
            "only ",
            decimal(percent_of(avg_distinct)).as_str(),
            "% distinct values — looks like a status, not an id",
        ),
    );
    remark_on(
        &mut out,
        2 * (avg_fill as u128) < one,
        false,
        cat3("set on only ", decimal(percent_of(avg_fill)).as_str(), "% of sampled rows"),
    );
    remark_on(
        &mut out,
        hint && !well_known,
        true,
        "name follows a common id convention".to_owned(),
    );
    out
}

fn missing_from(paths: &Vec<String>, c: &Vec<Node>) -> (r: Vec<String>)
    ensures
        views(r@) == absent(views(paths@), views(c@).map_values(|n: NodeV| n.table)),
{
    let ghost all = views(paths@);
    let ghost tv = views(c@).map_values(|n: NodeV| n.table);
    let mut tables = TextSet::new();
    let mut j: usize = 0;
    assert(tv.take(0) =~= Seq::empty());
    while j < c.len()
        invariant
            j <= c@.len(),
            tv == views(c@).map_values(|n: NodeV| n.table),
            tables@ == sorted_set(tv.take(j as int)),
        decreases c@.len() - j,
    {
        assert(tv.take(j + 1).drop_last() =~= tv.take(j as int));
        tables.insert(c[j].table.clone());
        j = j + 1;
    }
    assert(tv.take(j as int) =~= tv);
    proof {
        sorted_set_holds(tv);
    }
    let mut out: Vec<String> = Vec::new();
    let mut i: usize = 0;
    assert(all.take(0) =~= Seq::empty());
    assert(views(out@) =~= Seq::<Text>::empty());
    while i < paths.len()
        invariant
            i <= paths@.len(),
            all == views(paths@),
            forall|x: Text| #[trigger] tables@.contains(x) <==> tv.contains(x),
            views(out@) == absent(all.take(i as int), tv),
        decreases paths@.len() - i,
    {
        assert(all.take(i + 1).drop_last() =~= all.take(i as int));
        if !tables.contains(paths[i].as_str()) {
            let ghost before = views(out@);
            out.push(paths[i].clone());
            assert(views(out@) =~= before.push(all[i as int]));
        }
        i = i + 1;
    }
    assert(all.take(i as int) =~= all);
    out
}

fn count_spellings(c: &Vec<Node>) -> (r: usize)
    ensures
        r == sorted_set(name_keys(views(c@))).len(),
{
    let ghost all = name_keys(views(c@));
    let mut keys: Vec<String> = Vec::new();
    let mut i: usize = 0;
    while i < c.len()
        invariant
            i <= c@.len(),
            all == name_keys(views(c@)),
            keys@.len() == i,
            forall|k: int| 0 <= k < i ==> (#[trigger] keys@[k])@ == all[k],
        decreases c@.len() - i,
    {
        keys.push(c[i].name_key.clone());
        i = i + 1;
    }
    assert(views(keys@) =~= all);
    let set = sort_set(&keys);
    assert(views(set@).len() == set@.len());
    set.len()
}

fn build_candidate(nodes: &Vec<Node>, members: &Vec<usize>, paths: &Vec<String>) -> (r: KeyCandidate)
    requires
        values_sorted(views(nodes@)),
        forall|k: int| 0 <= k < members@.len() ==> 0 <= #[trigger] members@[k] < nodes@.len(),
    ensures
        r@ == candidate(chosen(views(nodes@), ints(members@)), views(paths@)),
        r.score > i128::MIN,
{
    let c = choose_nodes(nodes, members);
    let ghost cv = views(c@);
    let ghost f = facts_of(cv);
    let reach: usize = c.len();
    let shared: usize = count_shared(&c);
    let avg_fill: u64 = average_fill(&c);
    let avg_distinct: u64 = average_ratio(&c);
    let (id_shaped, well_known, hint) = shape_of(&c);
    let (names, label) = spellings(&c);
    let cross_named = count_spellings(&c) > 1;
    let evidence = reasons_for(
        reach,
        shared,
        well_known,
        id_shaped,
        avg_fill,
        avg_distinct,
        hint,
        &names,
        Ghost(f),
    );
    let total: i128 = score(
        reach,
        shared,
        well_known,
        id_shaped,
        avg_fill,
        avg_distinct,
        hint,
        Ghost(f),
    );
    let mut bindings: Vec<Binding> = Vec::new();
    let mut i: usize = 0;
    while i < c.len()
        invariant
            i <= c@.len(),
            cv == views(c@),
            bindings@.len() == i,
            forall|k: int| 0 <= k < i ==> (#[trigger] bindings@[k])@ == binding_of(cv[k]),
        decreases c@.len() - i,
    {
        bindings.push(
            Binding {
                table: c[i].table.clone(),
                field: c[i].field.clone(),
                kind: c[i].kind.clone(),
                seen_in: c[i].seen_in,
                sampled_rows: c[i].sampled_rows,
                distinct: c[i].distinct,
            },
        );
        i = i + 1;
    }
    assert(views(bindings@) =~= cv.map_values(|n: NodeV| binding_of(n)));
    KeyCandidate {
        id: least_id(&c),
        label,
        bindings,
        missing: missing_from(paths, &c),
        shared_values: shared,
        cross_named,
        id_shaped,
        well_known,
        avg_fill,
        avg_distinct_ratio: avg_distinct,
        score: total,
        evidence,
    }
}

/// The keys of a workspace, best first.
pub fn key_candidates(schemas: &Vec<TableSchema>) -> (r: Vec<KeyCandidate>)
    ensures
        views(r@) == ranked_keys(views(schemas@)),
{
    let ghost sv = views(schemas@);
    let mut paths: Vec<String> = Vec::new();
    let mut i: usize = 0;
    while i < schemas.len()
        invariant
            i <= schemas@.len(),
            sv == views(schemas@),
            paths@.len() == i,
            forall|k: int| 0 <= k < i ==> (#[trigger] paths@[k])@ == sv[k].table,
        decreases schemas@.len() - i,
    {
        paths.push(schemas[i].path());
        i = i + 1;
    }
    assert(views(paths@) =~= paths_of(sv));
    let nodes = collect_nodes(schemas);
    let ghost nv = views(nodes@);
    let groups = group_nodes(&nodes);
    let ghost gv = groups_view(groups@);
    proof {
        crate::linking::groups_within(nv);
    }
    let mut found: Vec<KeyCandidate> = Vec::new();
    let mut ranks: Vec<Rank> = Vec::new();
    let mut g: usize = 0;
    while g < groups.len()
        invariant
            g <= groups@.len(),
            nv == views(nodes@),
            values_sorted(nv),
            gv == groups_view(groups@),
            views(paths@) == paths_of(sv),
            forall|a: int, b: int|
                0 <= a < gv.len() && 0 <= b < gv[a].len() ==> 0 <= #[trigger] gv[a][b] < nv.len(),
            found@.len() == g,
            ranks@.len() == g,
            forall|k: int|
                0 <= k < g ==> (#[trigger] found@[k])@ == candidate(
                    chosen(nv, gv[k]),
                    paths_of(sv),
                ),
            forall|k: int| 0 <= k < g ==> (#[trigger] ranks@[k])@ == key_rank(found@[k]@),
        decreases groups@.len() - g,
    {
        assert(gv[g as int] == ints(groups@[g as int]@));
        assert forall|k: int| 0 <= k < groups@[g as int]@.len() implies 0
            <= #[trigger] groups@[g as int]@[k] < nodes@.len() by {
            assert(gv[g as int][k] == groups@[g as int]@[k]);
        }
        let key = build_candidate(&nodes, &groups[g], &paths);
        let total: i128 = key.score;
        ranks.push(Rank { first: -total, second: 0, text: key.label.clone() });
        found.push(key);
        g = g + 1;
    }
    assert(views(found@) =~= unranked_keys(sv));
    assert(views(ranks@) =~= views(found@).map_values(|k: KeyV| key_rank(k)));
    proof {
        arranged_views(found@, views(ranks@));
    }
    arrange(found, &ranks)
}

// ── What holds of every key ───────────────────────────────────────────────

proof fn chosen_tables(nodes: Seq<NodeV>, members: Seq<int>)
    requires
        forall|k: int| 0 <= k < members.len() ==> 0 <= #[trigger] members[k] < nodes.len(),
    ensures
        chosen(nodes, members).map_values(|n: NodeV| n.table) == sorted_set(
            member_tables(nodes, members),
        ),
        forall|k: int|
            0 <= k < chosen(nodes, members).len() ==> nodes.contains(
                #[trigger] chosen(nodes, members)[k],
            ),
{
    let mt = member_tables(nodes, members);
    let tables = sorted_set(mt);
    let c = chosen(nodes, members);
    sorted_set_holds(mt);
    assert forall|k: int| 0 <= k < c.len() implies (#[trigger] c[k]).table == tables[k]
        && nodes.contains(c[k]) by {
        let t = tables[k];
        assert(tables.contains(t));
        holders_hold(mt, t);
        let list = members_in(nodes, members, t);
        best_is_member(nodes, list);
        let b = best_of(nodes, list);
        let w = choose|w: int| 0 <= w < list.len() && list[w] == b;
        let h = holders(mt, t);
        assert(0 <= h[w] < mt.len() && mt[h[w]] == t);
        assert(members[h[w]] == b);
        assert(0 <= members[h[w]] < nodes.len());
        assert(nodes[b] == c[k]);
    }
    assert(c.map_values(|n: NodeV| n.table) =~= tables);
}

proof fn absent_is(paths: Seq<Text>, tables: Seq<Text>)
    ensures
        forall|p: Text| #[trigger]
            absent(paths, tables).contains(p) <==> paths.contains(p) && !tables.contains(p),
    decreases paths.len(),
{
    let r = absent(paths, tables);
    if paths.len() > 0 {
        let short = paths.drop_last();
        let before = absent(short, tables);
        absent_is(short, tables);
        assert forall|p: Text| #[trigger] r.contains(p) <==> paths.contains(p) && !tables.contains(
            p,
        ) by {
            if r.contains(p) {
                let k = choose|k: int| 0 <= k < r.len() && r[k] == p;
                if k < before.len() {
                    assert(before[k] == p);
                    assert(before.contains(p));
                    let m = choose|m: int| 0 <= m < short.len() && short[m] == p;
                    assert(paths[m] == p);
                } else {
                    assert(paths[paths.len() - 1] == p);
                }
            }
            if paths.contains(p) && !tables.contains(p) {
                let m = choose|m: int| 0 <= m < paths.len() && paths[m] == p;
                if m < short.len() {
                    assert(short[m] == p);
                    assert(before.contains(p));
                    let k = choose|k: int| 0 <= k < before.len() && before[k] == p;
                    assert(r[k] == p);
                } else {
                    assert(r[r.len() - 1] == p);
                }
            }
        }
    }
}

/// The tables a key is bound in.
pub open spec fn bound_tables(k: KeyV) -> Seq<Text> {
    k.bindings.map_values(|b: BindingV| b.table)
}

proof fn group_of_key(schemas: Seq<TableV>, k: KeyV) -> (g: Seq<int>)
    requires
        ranked_keys(schemas).contains(k),
    ensures
        k == candidate(chosen(nodes_of(schemas), g), paths_of(schemas)),
        g.len() > 0,
        forall|i: int| 0 <= i < g.len() ==> 0 <= #[trigger] g[i] < nodes_of(schemas).len(),
{
    let all = unranked_keys(schemas);
    crate::order::arranged_keeps(all, all.map_values(|k: KeyV| key_rank(k)));
    assert(all.contains(k));
    let i = choose|i: int| 0 <= i < all.len() && all[i] == k;
    let nodes = nodes_of(schemas);
    groups_within(nodes);
    let g = key_groups(nodes)[i];
    assert(key_groups(nodes)[i].len() > 0);
    assert forall|j: int| 0 <= j < g.len() implies 0 <= #[trigger] g[j] < nodes.len() by {
        assert(0 <= key_groups(nodes)[i][j] < nodes.len());
    }
    g
}

/// A key binds each table at most once, in order, and at least one; a table
/// is missing from it exactly when it is not bound.
pub proof fn keys_bind_or_miss_every_table(schemas: Seq<TableV>, k: KeyV)
    requires
        ranked_keys(schemas).contains(k),
    ensures
        k.bindings.len() > 0,
        strictly_sorted(bound_tables(k)),
        forall|t: Text| #[trigger]
            k.missing.contains(t) <==> paths_of(schemas).contains(t) && !bound_tables(k).contains(t),
{
    let g = group_of_key(schemas, k);
    let nodes = nodes_of(schemas);
    let c = chosen(nodes, g);
    chosen_tables(nodes, g);
    let mt = member_tables(nodes, g);
    sorted_set_holds(mt);
    assert(bound_tables(k) =~= c.map_values(|n: NodeV| n.table));
    absent_is(paths_of(schemas), c.map_values(|n: NodeV| n.table));
    assert(mt[0] == nodes[g[0]].table);
    assert(mt.contains(mt[0]));
    assert(sorted_set(mt).contains(mt[0]));
}

proof fn chosen_is_member(nodes: Seq<NodeV>, members: Seq<int>, k: int) -> (m: int)
    requires
        0 <= k < chosen(nodes, members).len(),
    ensures
        members.contains(m),
        chosen(nodes, members)[k] == nodes[m],
{
    let mt = member_tables(nodes, members);
    let t = sorted_set(mt)[k];
    sorted_set_holds(mt);
    assert(sorted_set(mt).contains(t));
    holders_hold(mt, t);
    let list = members_in(nodes, members, t);
    best_is_member(nodes, list);
    let b = best_of(nodes, list);
    let w = choose|w: int| 0 <= w < list.len() && list[w] == b;
    let h = holders(mt, t);
    assert(0 <= h[w] < mt.len());
    assert(members[h[w]] == b);
    b
}

/// Where a key spans more than one spelling, only the values connect it: two
/// of its columns share telling values.
pub proof fn cross_named_keys_rest_on_values(nodes: Seq<NodeV>, g: int, paths: Seq<Text>)
    requires
        0 <= g < key_groups(nodes).len(),
        candidate(chosen(nodes, key_groups(nodes)[g]), paths).cross_named,
    ensures
        exists|a: int, b: int|
            0 <= a < nodes.len() && 0 <= b < nodes.len() && #[trigger] value_link(nodes, a, b)
                && key_roots(nodes)[a] == key_roots(nodes)[key_groups(nodes)[g][0]]
                && key_roots(nodes)[b] == key_roots(nodes)[key_groups(nodes)[g][0]],
{
    let members = key_groups(nodes)[g];
    let c = chosen(nodes, members);
    let keys = name_keys(c);
    let set = sorted_set(keys);
    groups_within(nodes);
    sorted_set_holds(keys);
    assert(text_less(set[0], set[1]));
    text_less_irreflexive(set[0]);
    assert(set.contains(set[0]) && set.contains(set[1]));
    assert(keys.contains(set[0]) && keys.contains(set[1]));
    let x = choose|x: int| 0 <= x < keys.len() && keys[x] == set[0];
    let y = choose|y: int| 0 <= y < keys.len() && keys[y] == set[1];
    let i = chosen_is_member(nodes, members, x);
    let j = chosen_is_member(nodes, members, y);
    let p = choose|p: int| 0 <= p < members.len() && members[p] == i;
    let q = choose|q: int| 0 <= q < members.len() && members[q] == j;
    assert(0 <= key_groups(nodes)[g][p] < nodes.len() && 0 <= key_groups(nodes)[g][q] < nodes.len());
    assert(key_groups(nodes)[g].len() > 0);
    assert(members.contains(members[0]));
    groups_have_one_root(nodes, g, i, j);
    groups_have_one_root(nodes, g, i, members[0]);
    values_connect_different_spellings(nodes, i, j);
}

proof fn nodes_are_own(schemas: Seq<TableV>)
    ensures
        forall|i: int|
            0 <= i < nodes_of(schemas).len() ==> !crate::discover::system_column(
                (#[trigger] nodes_of(schemas)[i]).field,
            ),
    decreases schemas.len(),
{
    if schemas.len() > 0 {
        let short = schemas.drop_last();
        nodes_are_own(short);
        let t = schemas.last();
        table_nodes_are_own(schemas.len() - 1, t, t.fields);
        let a = nodes_of(short);
        let b = crate::linking::table_nodes(schemas.len() - 1, t, t.fields);
        assert forall|i: int| 0 <= i < (a + b).len() implies !crate::discover::system_column(
            (#[trigger] (a + b)[i]).field,
        ) by {
            if i < a.len() {
                assert((a + b)[i] == a[i]);
            } else {
                assert((a + b)[i] == b[i - a.len()]);
            }
        }
    }
}

proof fn table_nodes_are_own(schema: int, t: TableV, fields: Seq<crate::schema::FieldV>)
    ensures
        forall|i: int|
            0 <= i < crate::linking::table_nodes(schema, t, fields).len()
                ==> !crate::discover::system_column(
                (#[trigger] crate::linking::table_nodes(schema, t, fields)[i]).field,
            ),
    decreases fields.len(),
{
    if fields.len() > 0 {
        table_nodes_are_own(schema, t, fields.drop_last());
        let before = crate::linking::table_nodes(schema, t, fields.drop_last());
        let r = crate::linking::table_nodes(schema, t, fields);
        assert forall|i: int| 0 <= i < r.len() implies !crate::discover::system_column(
            (#[trigger] r[i]).field,
        ) by {
            if i < before.len() {
                assert(r[i] == before[i]);
            }
        }
    }
}

/// A column injected into every table never carries a key.
pub proof fn system_columns_are_never_keys(schemas: Seq<TableV>, k: KeyV, i: int)
    requires
        ranked_keys(schemas).contains(k),
        0 <= i < k.bindings.len(),
    ensures
        !crate::discover::system_column(k.bindings[i].field),
{
    let g = group_of_key(schemas, k);
    let nodes = nodes_of(schemas);
    let c = chosen(nodes, g);
    chosen_tables(nodes, g);
    nodes_are_own(schemas);
    assert(nodes.contains(c[i]));
    let j = choose|j: int| 0 <= j < nodes.len() && nodes[j] == c[i];
    assert(k.bindings[i] == binding_of(c[i]));
}

/// All else equal, a key proven to link scores higher than one that only
/// carries a conventional name.
pub proof fn proof_outweighs_convention(proven: Facts, conventional: Facts)
    requires
        proven.shared > 0,
        conventional.shared <= 0,
        proven.reach == conventional.reach,
        proven.id_shaped == conventional.id_shaped,
        proven.avg_fill == conventional.avg_fill,
        proven.avg_distinct == conventional.avg_distinct,
        !proven.well_known,
        conventional.well_known,
    ensures
        score_of(proven) > score_of(conventional),
{
    assert(at_most(proven.shared, 10) * (3 * SHARE_ONE / 10) >= 0) by (nonlinear_arith)
        requires
            at_most(proven.shared, 10) >= 0,
            SHARE_ONE == 232_792_560,
    ;
}

/// All else equal, a name that merely follows an id convention never lifts a
/// key above one proven to link or one that is conventional.
pub proof fn names_decide_last(named: Facts, better: Facts)
    requires
        named.hint && !named.well_known,
        better.shared > 0 && named.shared <= 0 || better.shared == named.shared
            && better.well_known,
        named.reach == better.reach,
        named.id_shaped == better.id_shaped,
        named.avg_fill == better.avg_fill,
        named.avg_distinct == better.avg_distinct,
    ensures
        score_of(better) > score_of(named),
{
    if better.shared > 0 {
        assert(at_most(better.shared, 10) * (3 * SHARE_ONE / 10) >= 0) by (nonlinear_arith)
            requires
                at_most(better.shared, 10) >= 0,
                SHARE_ONE == 232_792_560,
        ;
    }
}

proof fn remark_added(before: Seq<EvidenceV>, good: bool, text: Text)
    ensures
        (before + remark(true, good, text)).contains(EvidenceV { good, text }),
{
    let s = before + remark(true, good, text);
    assert(s[before.len() as int] == (EvidenceV { good, text }));
}

proof fn remark_stays(before: Seq<EvidenceV>, after: Seq<EvidenceV>, e: EvidenceV)
    requires
        before.contains(e),
    ensures
        (before + after).contains(e),
{
    let k = choose|k: int| 0 <= k < before.len() && before[k] == e;
    assert((before + after)[k] == e);
}

/// Convention is always said, never silently applied; a link across tables
/// that nothing proves is said to be unproven, and then nothing is made of
/// the names.
pub proof fn reasons_are_given(f: Facts, names: Seq<Text>)
    ensures
        f.well_known ==> reasons(f, names).contains(
            EvidenceV { good: true, text: "a standard Azure Monitor correlation column"@ },
        ),
        f.shared <= 0 && f.reach > 1 ==> reasons(f, names).contains(
            EvidenceV {
                good: false,
                text: "no shared values in the sample — the link is unproven"@,
            },
        ),
        f.shared <= 0 ==> reasons(f, names) == reasons(f, Seq::empty()),
{
    let r1 = remark(f.reach > 1, true, "present in "@ + digits(f.reach as nat) + " tables"@);
    let r2 = remark(f.reach <= 1, false, "only in one table — nothing to trace across"@);
    let r3 = remark(
        f.shared > 0,
        true,
        digits(f.shared as nat) + " values seen in more than one table"@,
    );
    let unproven = "no shared values in the sample — the link is unproven"@;
    let r4 = remark(f.shared <= 0 && f.reach > 1, false, unproven);
    let r5 = remark(
        f.shared > 0 && names.len() > 1,
        true,
        "same values under different names: "@ + joined(names, ", "@),
    );
    let standard = "a standard Azure Monitor correlation column"@;
    let r6 = remark(f.well_known, true, standard);
    let r7 = remark(f.id_shaped, true, "values look like identifiers"@);
    let r8 = remark(
        status_like(f),
        false,
        "only "@ + digits(percent(f.avg_distinct) as nat)
            + "% distinct values — looks like a status, not an id"@,
    );
    let r9 = remark(
        thinly_filled(f),
        false,
        "set on only "@ + digits(percent(f.avg_fill) as nat) + "% of sampled rows"@,
    );
    let r10 = remark(f.hint && !f.well_known, true, "name follows a common id convention"@);
    let s3 = r1 + r2 + r3;
    let s4 = s3 + r4;
    let s5 = s4 + r5;
    let s6 = s5 + r6;
    let s7 = s6 + r7;
    let s8 = s7 + r8;
    let s9 = s8 + r9;
    if f.well_known {
        let e = EvidenceV { good: true, text: standard };
        remark_added(s5, true, standard);
        remark_stays(s6, r7, e);
        remark_stays(s7, r8, e);
        remark_stays(s8, r9, e);
        remark_stays(s9, r10, e);
    }
    if f.shared <= 0 && f.reach > 1 {
        let e = EvidenceV { good: false, text: unproven };
        remark_added(s3, false, unproven);
        remark_stays(s4, r5, e);
        remark_stays(s5, r6, e);
        remark_stays(s6, r7, e);
        remark_stays(s7, r8, e);
        remark_stays(s8, r9, e);
        remark_stays(s9, r10, e);
    }
}

// ── What a score is for ───────────────────────────────────────────────────

/// All else equal, a key whose columns have fewer than fifteen different
/// values in a hundred scores five units lower than one whose columns have
/// more: it is a status, not an identity.
pub proof fn a_status_costs_five(status: Facts, other: Facts)
    requires
        100 * status.avg_distinct < 15 * SHARE_ONE,
        100 * other.avg_distinct >= 15 * SHARE_ONE,
        status == (Facts { avg_distinct: status.avg_distinct, ..other }),
    ensures
        score_of(status) + 5 * SHARE_ONE == score_of(other),
        score_of(status) < score_of(other),
{
}

/// Among keys on the same side of that border, how different the values are
/// changes nothing.
pub proof fn selectivity_only_tells_a_status(a: Facts, b: Facts)
    requires
        100 * a.avg_distinct < 15 * SHARE_ONE <==> 100 * b.avg_distinct < 15 * SHARE_ONE,
        a == (Facts { avg_distinct: a.avg_distinct, ..b }),
    ensures
        score_of(a) == score_of(b),
{
}

/// Each further table adds three units, up to the sixth; more add nothing.
pub proof fn each_table_adds_three(fewer: Facts, more: Facts)
    requires
        more.reach == fewer.reach + 1,
        fewer == (Facts { reach: fewer.reach, ..more }),
    ensures
        fewer.reach < 6 ==> score_of(more) == score_of(fewer) + 3 * SHARE_ONE,
        fewer.reach >= 6 ==> score_of(more) == score_of(fewer),
{
    if fewer.reach < 6 {
        assert(3 * (more.reach - 1) * SHARE_ONE == 3 * (fewer.reach - 1) * SHARE_ONE + 3 * SHARE_ONE)
            by (nonlinear_arith)
            requires
                more.reach == fewer.reach + 1,
        ;
    }
}

/// Proof of linking adds four units, and three tenths for each value shared,
/// up to ten of them.
pub proof fn proof_adds_four_and_more(unproven: Facts, proven: Facts)
    requires
        unproven.shared == 0,
        proven.shared > 0,
        unproven == (Facts { shared: unproven.shared, ..proven }),
    ensures
        proven.shared <= 10 ==> 10 * score_of(proven) == 10 * score_of(unproven) + (40 + 3
            * proven.shared) * SHARE_ONE,
        proven.shared >= 10 ==> score_of(proven) == score_of(unproven) + 7 * SHARE_ONE,
{
    let s = proven.shared;
    assert(3 * SHARE_ONE / 10 == 69_837_768);
    assert(10 * (s * 69_837_768) == (3 * s) * 232_792_560) by (nonlinear_arith);
    assert((40 + 3 * s) * 232_792_560 == 40 * 232_792_560 + (3 * s) * 232_792_560)
        by (nonlinear_arith);
}

/// A conventional name adds two units and a half, and then a hint in the
/// name adds nothing; without it the hint adds one. Values that look like
/// identifiers add one and a half.
pub proof fn what_names_and_shapes_add(f: Facts)
    ensures
        2 * score_of(Facts { well_known: true, hint: false, ..f }) == 2 * score_of(
            Facts { well_known: false, hint: false, ..f },
        ) + 5 * SHARE_ONE,
        score_of(Facts { well_known: true, hint: true, ..f }) == score_of(
            Facts { well_known: true, hint: false, ..f },
        ),
        score_of(Facts { well_known: false, hint: true, ..f }) == score_of(
            Facts { well_known: false, hint: false, ..f },
        ) + SHARE_ONE,
        2 * score_of(Facts { id_shaped: true, ..f }) == 2 * score_of(
            Facts { id_shaped: false, ..f },
        ) + 3 * SHARE_ONE,
{
}

/// How full the columns are counts twice; a key with nothing to say for it
/// scores nothing.
pub proof fn fill_counts_twice(a: Facts, b: Facts)
    requires
        a == (Facts { avg_fill: a.avg_fill, ..b }),
    ensures
        score_of(a) - score_of(b) == 2 * (a.avg_fill - b.avg_fill),
        score_of(
            Facts {
                reach: 1,
                shared: 0,
                cross_named: false,
                well_known: false,
                id_shaped: false,
                avg_fill: 0,
                avg_distinct: SHARE_ONE as int,
                hint: false,
            },
        ) == 0,
{
}

// ── What the facts are read from ──────────────────────────────────────────

proof fn fill_sum(c: Seq<NodeV>)
    ensures
        fill_total(c) == c.map_values(|n: NodeV| n.fill).fold_left(0, |a: int, b: int| a + b),
    decreases c.len(),
{
    let s = c.map_values(|n: NodeV| n.fill);
    if c.len() > 0 {
        fill_sum(c.drop_last());
        assert(s.drop_last() =~= c.drop_last().map_values(|n: NodeV| n.fill));
    }
}

proof fn ratio_sum(c: Seq<NodeV>)
    ensures
        ratio_total(c) == c.map_values(|n: NodeV| n.distinct_ratio).fold_left(
            0,
            |a: int, b: int| a + b,
        ),
    decreases c.len(),
{
    let s = c.map_values(|n: NodeV| n.distinct_ratio);
    if c.len() > 0 {
        ratio_sum(c.drop_last());
        assert(s.drop_last() =~= c.drop_last().map_values(|n: NodeV| n.distinct_ratio));
    }
}

proof fn id_filter(c: Seq<NodeV>)
    ensures
        id_count(c) == c.filter(|n: NodeV| n.id_shaped).len(),
    decreases c.len(),
{
    reveal(Seq::filter);
    if c.len() > 0 {
        id_filter(c.drop_last());
    }
}

/// The facts of a key are those of its columns: as many tables as columns,
/// the averages of their own fills and selectivities rounded down, the shape
/// of more than half of them, and a name that any of them has.
pub proof fn facts_are_of_the_columns(c: Seq<NodeV>)
    requires
        c.len() > 0,
    ensures
        facts_of(c).reach == c.len(),
        ({
            let total = c.map_values(|n: NodeV| n.fill).fold_left(0, |a: int, b: int| a + b);
            facts_of(c).avg_fill * c.len() <= total < (facts_of(c).avg_fill + 1) * c.len()
        }),
        ({
            let total = c.map_values(|n: NodeV| n.distinct_ratio).fold_left(
                0,
                |a: int, b: int| a + b,
            );
            facts_of(c).avg_distinct * c.len() <= total < (facts_of(c).avg_distinct + 1) * c.len()
        }),
        facts_of(c).id_shaped <==> 2 * c.filter(|n: NodeV| n.id_shaped).len() > c.len(),
        facts_of(c).well_known <==> exists|i: int| 0 <= i < c.len() && (#[trigger] c[i]).well_known,
        facts_of(c).hint <==> exists|i: int|
            0 <= i < c.len() && identifier_hint((#[trigger] c[i]).name_key),
        facts_of(c).cross_named <==> exists|i: int, j: int|
            0 <= i < j < c.len() && (#[trigger] c[i]).name_key != (#[trigger] c[j]).name_key,
{
    fill_sum(c);
    ratio_sum(c);
    id_filter(c);
    let n = c.len() as int;
    assert(fill_total(c) / n * n <= fill_total(c) < (fill_total(c) / n + 1) * n)
        by (nonlinear_arith)
        requires
            n > 0,
    ;
    assert(ratio_total(c) / n * n <= ratio_total(c) < (ratio_total(c) / n + 1) * n)
        by (nonlinear_arith)
        requires
            n > 0,
    ;
    let keys = name_keys(c);
    let set = sorted_set(keys);
    sorted_set_holds(keys);
    if set.len() > 1 {
        text_less_irreflexive(set[0]);
        assert(text_less(set[0], set[1]));
        assert(set.contains(set[0]) && set.contains(set[1]));
        assert(keys.contains(set[0]) && keys.contains(set[1]));
        let x = choose|x: int| 0 <= x < keys.len() && keys[x] == set[0];
        let y = choose|y: int| 0 <= y < keys.len() && keys[y] == set[1];
        assert(c[x].name_key != c[y].name_key);
        if x < y {
            assert(c[x].name_key != c[y].name_key);
        } else {
            assert(c[y].name_key != c[x].name_key);
        }
    }
    if exists|i: int, j: int|
        0 <= i < j < c.len() && (#[trigger] c[i]).name_key != (#[trigger] c[j]).name_key {
        let (i, j) = choose|i: int, j: int|
            0 <= i < j < c.len() && (#[trigger] c[i]).name_key != (#[trigger] c[j]).name_key;
        assert(keys[i] == c[i].name_key && keys[j] == c[j].name_key);
        assert(keys.contains(keys[i]) && keys.contains(keys[j]));
        assert(set.contains(keys[i]) && set.contains(keys[j]));
    }
}

/// What proves a link: a value that two of the columns carry. There is one
/// exactly when the count is not none.
pub proof fn shared_values_are_in_two_columns(c: Seq<NodeV>)
    ensures
        facts_of(c).shared > 0 <==> exists|i: int, j: int, v: Text|
            0 <= i < j < c.len() && #[trigger] c[i].linkable.contains(v)
                && #[trigger] c[j].linkable.contains(v),
        exists|s: Seq<Text>| #[trigger]
            s.no_duplicates() && s.len() == facts_of(c).shared && forall|v: Text| #[trigger]
                s.contains(v) <==> exists|i: int, j: int|
                    0 <= i < j < c.len() && #[trigger] c[i].linkable.contains(v)
                        && #[trigger] c[j].linkable.contains(v),
{
    let pool = sorted_set(value_pool(c));
    let p = |v: Text| carriers(c, v).len() > 1;
    sorted_set_holds(value_pool(c));
    let s = pool.filter(p);
    tally_is_filter(pool, p);
    sorted_is_apart(pool);
    filter_holds(pool, p);
    assert forall|v: Text| #[trigger] s.contains(v) <==> exists|i: int, j: int|
        0 <= i < j < c.len() && #[trigger] c[i].linkable.contains(v)
            && #[trigger] c[j].linkable.contains(v) by {
        carriers_hold(c, v);
        let h = carriers(c, v);
        if s.contains(v) {
            assert(p(v));
            assert(h[0] < h[1]);
            assert(c[h[0]].linkable.contains(v) && c[h[1]].linkable.contains(v));
        }
        if exists|i: int, j: int|
            0 <= i < j < c.len() && #[trigger] c[i].linkable.contains(v)
                && #[trigger] c[j].linkable.contains(v) {
            let (i, j) = choose|i: int, j: int|
                0 <= i < j < c.len() && #[trigger] c[i].linkable.contains(v)
                    && #[trigger] c[j].linkable.contains(v);
            assert(h.contains(i) && h.contains(j));
            let x = choose|x: int| 0 <= x < h.len() && h[x] == i;
            let y = choose|y: int| 0 <= y < h.len() && h[y] == j;
            assert(p(v));
            let t = choose|t: int| 0 <= t < c[i].linkable.len() && c[i].linkable[t] == v;
            pool_has(c, i, t);
            assert(pool.contains(v));
        }
    }
    if s.len() > 0 {
        assert(s.contains(s[0]));
        let v = s[0];
        let (i, j) = choose|i: int, j: int|
            0 <= i < j < c.len() && #[trigger] c[i].linkable.contains(v)
                && #[trigger] c[j].linkable.contains(v);
        assert(c[i].linkable.contains(v) && c[j].linkable.contains(v));
    }
    if exists|i: int, j: int, v: Text|
        0 <= i < j < c.len() && #[trigger] c[i].linkable.contains(v)
            && #[trigger] c[j].linkable.contains(v) {
        let (i, j, v) = choose|i: int, j: int, v: Text|
            0 <= i < j < c.len() && #[trigger] c[i].linkable.contains(v)
                && #[trigger] c[j].linkable.contains(v);
        assert(c[i].linkable.contains(v) && c[j].linkable.contains(v));
        assert(s.contains(v));
    }
    assert(s.no_duplicates());
}

// ── Ranking ───────────────────────────────────────────────────────────────

/// Keys stand by score, the best first, and by label where scores are equal;
/// ranking neither loses nor adds any.
pub proof fn better_scores_stand_first(schemas: Seq<TableV>, i: int, j: int)
    requires
        0 <= i < j < ranked_keys(schemas).len(),
    ensures
        ranked_keys(schemas)[i].score >= ranked_keys(schemas)[j].score,
        ranked_keys(schemas)[i].score == ranked_keys(schemas)[j].score ==> !text_less(
            ranked_keys(schemas)[j].label,
            ranked_keys(schemas)[i].label,
        ),
        ranked_keys(schemas).len() == key_groups(nodes_of(schemas)).len(),
{
    let all = unranked_keys(schemas);
    let ranks = all.map_values(|k: KeyV| key_rank(k));
    order_is_stable(ranks);
    let o = order(ranks);
    assert(precedes(ranks, o[i], o[j]));
    assert(0 <= o[i] < all.len() && 0 <= o[j] < all.len());
}

/// Where a table has several columns of a key, the one bound has the most
/// different values, and among those the most rows.
pub proof fn the_most_selective_column_is_bound(nodes: Seq<NodeV>, members: Seq<int>, b: int, m: int)
    requires
        0 <= b < chosen(nodes, members).len(),
        members.contains(m),
        nodes[m].table == chosen(nodes, members)[b].table,
        forall|k: int| 0 <= k < members.len() ==> 0 <= #[trigger] members[k] < nodes.len(),
    ensures
        nodes[m].distinct <= chosen(nodes, members)[b].distinct,
        nodes[m].distinct == chosen(nodes, members)[b].distinct ==> nodes[m].seen_in <= chosen(
            nodes,
            members,
        )[b].seen_in,
        exists|k: int| 0 <= k < members.len() && nodes[#[trigger] members[k]] == chosen(nodes, members)[b],
{
    let mt = member_tables(nodes, members);
    let t = sorted_set(mt)[b];
    chosen_tables(nodes, members);
    assert(chosen(nodes, members).map_values(|n: NodeV| n.table)[b] == t);
    let x = choose|x: int| 0 <= x < members.len() && members[x] == m;
    assert(mt[x] == t);
    holders_have(mt, t, x);
    let h = holders(mt, t);
    let w = choose|w: int| 0 <= w < h.len() && h[w] == x;
    let list = members_in(nodes, members, t);
    assert(list[w] == m);
    best_outranks(nodes, list, w);
    let q = chosen_is_member(nodes, members, b);
    let y = choose|y: int| 0 <= y < members.len() && members[y] == q;
    assert(nodes[members[y]] == chosen(nodes, members)[b]);
}

proof fn best_outranks(nodes: Seq<NodeV>, list: Seq<int>, w: int)
    requires
        0 <= w < list.len(),
    ensures
        ({
            let a = nodes[list[w]];
            let b = nodes[best_of(nodes, list)];
            a.distinct < b.distinct || (a.distinct == b.distinct && a.seen_in <= b.seen_in)
        }),
    decreases list.len(),
{
    if list.len() > 1 && w < list.len() - 1 {
        best_outranks(nodes, list.drop_last(), w);
    }
}

/// A binding says of its table what the column's own sample shows.
pub proof fn bindings_are_the_columns(c: Seq<NodeV>, paths: Seq<Text>, i: int)
    requires
        0 <= i < c.len(),
    ensures
        candidate(c, paths).bindings.len() == c.len(),
        ({
            let b = candidate(c, paths).bindings[i];
            &&& b.table == c[i].table
            &&& b.field == c[i].field
            &&& b.kind == c[i].kind
            &&& b.seen_in == c[i].seen_in
            &&& b.sampled_rows == c[i].sampled_rows
            &&& b.distinct == c[i].distinct
        }),
{
}

proof fn common_name_is(c: Seq<NodeV>, names: Seq<Text>)
    requires
        names.len() > 0,
    ensures
        names.contains(common_name(c, names)),
        forall|i: int|
            0 <= i < names.len() ==> uses(c, #[trigger] names[i]) <= uses(c, common_name(c, names)),
        forall|i: int|
            0 <= i < names.len() && uses(c, #[trigger] names[i]) == uses(c, common_name(c, names))
                ==> byte_len(names[i]) >= byte_len(common_name(c, names)),
    decreases names.len(),
{
    let r = common_name(c, names);
    if names.len() > 1 {
        let short = names.drop_last();
        let best = common_name(c, short);
        common_name_is(c, short);
        let k = choose|k: int| 0 <= k < short.len() && short[k] == best;
        assert(names[k] == best);
        assert(names[names.len() - 1] == names.last());
        assert forall|i: int| 0 <= i < names.len() implies uses(c, #[trigger] names[i]) <= uses(
            c,
            r,
        ) by {
            if i < short.len() {
                assert(short[i] == names[i]);
            }
        }
        assert forall|i: int|
            0 <= i < names.len() && uses(c, #[trigger] names[i]) == uses(c, r) implies byte_len(
            names[i],
        ) >= byte_len(r) by {
            if i < short.len() {
                assert(short[i] == names[i]);
                if r != best {
                    assert(uses(c, names[i]) <= uses(c, best));
                }
            }
        }
    } else {
        assert(names[0] == r);
    }
}

/// A key goes by a spelling that some column has and that no other spelling
/// is used more often than; among equally common ones by none longer.
pub proof fn keys_go_by_their_common_name(c: Seq<NodeV>, paths: Seq<Text>, i: int)
    requires
        0 <= i < c.len(),
    ensures
        exists|j: int| 0 <= j < c.len() && (#[trigger] c[j]).field == candidate(c, paths).label,
        ({
            let label = candidate(c, paths).label;
            let often = fields_of(c).filter(|x: Text| x == label).len();
            let other = fields_of(c).filter(|x: Text| x == c[i].field).len();
            other < often || (other == often && byte_len(label) <= byte_len(c[i].field))
        }),
{
    let all = fields_of(c);
    let names = sorted_set(all);
    sorted_set_holds(all);
    assert(all[i] == c[i].field);
    assert(all.contains(c[i].field));
    assert(names.contains(c[i].field));
    common_name_is(c, names);
    let label = common_name(c, names);
    let k = choose|k: int| 0 <= k < names.len() && names[k] == c[i].field;
    assert(uses(c, names[k]) <= uses(c, label));
    holders_count(all, label);
    holders_count(all, c[i].field);
    assert(all.contains(label));
    let j = choose|j: int| 0 <= j < all.len() && all[j] == label;
    assert(c[j].field == label);
}

proof fn least_is(s: Seq<Text>)
    requires
        s.len() > 0,
    ensures
        s.contains(least(s)),
        forall|i: int| 0 <= i < s.len() ==> !text_less(#[trigger] s[i], least(s)),
    decreases s.len(),
{
    let r = least(s);
    text_less_irreflexive(r);
    if s.len() > 1 {
        let short = s.drop_last();
        least_is(short);
        let m = least(short);
        let k = choose|k: int| 0 <= k < short.len() && short[k] == m;
        assert(s[k] == m);
        assert(s[s.len() - 1] == s.last());
        assert forall|i: int| 0 <= i < s.len() implies !text_less(#[trigger] s[i], r) by {
            if i < short.len() {
                assert(short[i] == s[i]);
                if r != m && text_less(s[i], r) {
                    text_less_transitive(s[i], r, m);
                }
            }
        }
    } else {
        assert(s[0] == r);
    }
}

/// A key is known by the first of its columns, table then field.
pub proof fn keys_are_known_by_their_first_column(c: Seq<NodeV>, paths: Seq<Text>, i: int)
    requires
        0 <= i < c.len(),
    ensures
        exists|j: int|
            0 <= j < c.len() && candidate(c, paths).id == (#[trigger] c[j]).table + "\u{1}"@
                + c[j].field,
        !text_less(c[i].table + "\u{1}"@ + c[i].field, candidate(c, paths).id),
{
    let ids = c.map_values(|n: NodeV| column_id(n));
    least_is(ids);
    assert(ids[i] == c[i].table + "\u{1}"@ + c[i].field);
    let j = choose|j: int| 0 <= j < ids.len() && ids[j] == least(ids);
    assert(c[j].table + "\u{1}"@ + c[j].field == ids[j]);
}

// ── Evidence ──────────────────────────────────────────────────────────────

/// A percentage is the nearest whole one.
pub proof fn percentages_are_nearest(share: int)
    requires
        0 <= share,
    ensures
        -(SHARE_ONE as int) <= 2 * (percent(share) * SHARE_ONE - 100 * share) <= SHARE_ONE,
{
    let one = SHARE_ONE as int;
    let q = (100 * share) / one;
    let r = (100 * share) % one;
    assert(100 * share == q * one + r && 0 <= r < one) by (nonlinear_arith)
        requires
            one > 0,
            q == (100 * share) / one,
            r == (100 * share) % one,
    ;
    assert((q + 1) * one == q * one + one) by (nonlinear_arith);
}

/// As many reasons are given as there are.
pub proof fn every_reason_is_given_once(f: Facts, names: Seq<Text>)
    ensures
        reasons(f, names).len() == 1 + (if f.shared > 0 || f.reach > 1 {
            1int
        } else {
            0
        }) + (if f.shared > 0 && names.len() > 1 {
            1int
        } else {
            0
        }) + (if f.well_known {
            1int
        } else {
            0
        }) + (if f.id_shaped {
            1int
        } else {
            0
        }) + (if 100 * f.avg_distinct < 15 * SHARE_ONE {
            1int
        } else {
            0
        }) + (if 2 * f.avg_fill < SHARE_ONE {
            1int
        } else {
            0
        }) + (if f.hint && !f.well_known {
            1int
        } else {
            0
        }),
{
}

proof fn absent_filter(paths: Seq<Text>, tables: Seq<Text>)
    ensures
        absent(paths, tables) == paths.filter(|p: Text| !tables.contains(p)),
    decreases paths.len(),
{
    reveal(Seq::filter);
    if paths.len() > 0 {
        absent_filter(paths.drop_last(), tables);
    }
}

/// A key is missing from every table that it is not bound in, and from no
/// other, in the order of the tables.
pub proof fn keys_are_missing_where_they_are_not_bound(c: Seq<NodeV>, paths: Seq<Text>)
    ensures
        candidate(c, paths).missing == paths.filter(
            |p: Text| !c.map_values(|n: NodeV| n.table).contains(p),
        ),
{
    absent_filter(paths, c.map_values(|n: NodeV| n.table));
}

proof fn either_has(a: Seq<EvidenceV>, b: Seq<EvidenceV>)
    ensures
        forall|x: EvidenceV| #[trigger]
            (a + b).contains(x) <==> a.contains(x) || b.contains(x),
{
    assert forall|x: EvidenceV| #[trigger] (a + b).contains(x) <==> a.contains(x) || b.contains(
        x,
    ) by {
        if a.contains(x) {
            let k = choose|k: int| 0 <= k < a.len() && a[k] == x;
            assert((a + b)[k] == x);
        }
        if b.contains(x) {
            let k = choose|k: int| 0 <= k < b.len() && b[k] == x;
            assert((a + b)[a.len() + k] == x);
        }
        if (a + b).contains(x) {
            let k = choose|k: int| 0 <= k < (a + b).len() && (a + b)[k] == x;
            assert(k < a.len() ==> a[k] == x);
            assert(k >= a.len() ==> b[k - a.len()] == x);
        }
    }
}

proof fn remark_has(b: bool, good: bool, text: Text)
    ensures
        forall|x: EvidenceV| #[trigger]
            remark(b, good, text).contains(x) <==> b && x == (EvidenceV { good, text }),
{
    let r = remark(b, good, text);
    assert forall|x: EvidenceV| #[trigger] r.contains(x) <==> b && x == (EvidenceV {
        good,
        text,
    }) by {
        if b {
            assert(r[0] == (EvidenceV { good, text }));
        }
    }
}

/// Whatever is said of a key is said for it or against it, as the facts are:
/// reach over several tables, proof by shared values, a name or values that
/// identify speak for it; one table only, want of proof, few values and few
/// rows against.
pub proof fn reasons_speak_for_or_against(f: Facts, names: Seq<Text>, x: EvidenceV)
    requires
        reasons(f, names).contains(x),
    ensures
        x.good ==> {
            ||| f.reach > 1 && x.text == "present in "@ + digits(f.reach as nat) + " tables"@
            ||| f.shared > 0 && x.text == digits(f.shared as nat)
                + " values seen in more than one table"@
            ||| f.shared > 0 && names.len() > 1 && x.text == "same values under different names: "@
                + joined(names, ", "@)
            ||| f.well_known && x.text == "a standard Azure Monitor correlation column"@
            ||| f.id_shaped && x.text == "values look like identifiers"@
            ||| f.hint && !f.well_known && x.text == "name follows a common id convention"@
        },
        !x.good ==> {
            ||| f.reach <= 1 && x.text == "only in one table — nothing to trace across"@
            ||| f.shared <= 0 && f.reach > 1 && x.text
                == "no shared values in the sample — the link is unproven"@
            ||| 100 * f.avg_distinct < 15 * SHARE_ONE && x.text == "only "@ + digits(
                percent(f.avg_distinct) as nat,
            ) + "% distinct values — looks like a status, not an id"@
            ||| 2 * f.avg_fill < SHARE_ONE && x.text == "set on only "@ + digits(
                percent(f.avg_fill) as nat,
            ) + "% of sampled rows"@
        },
{
    let a = remark(f.reach > 1, true, "present in "@ + digits(f.reach as nat) + " tables"@);
    let b = remark(f.reach <= 1, false, "only in one table — nothing to trace across"@);
    let c = remark(
        f.shared > 0,
        true,
        digits(f.shared as nat) + " values seen in more than one table"@,
    );
    let d = remark(
        f.shared <= 0 && f.reach > 1,
        false,
        "no shared values in the sample — the link is unproven"@,
    );
    let e = remark(
        f.shared > 0 && names.len() > 1,
        true,
        "same values under different names: "@ + joined(names, ", "@),
    );
    let g = remark(f.well_known, true, "a standard Azure Monitor correlation column"@);
    let h = remark(f.id_shaped, true, "values look like identifiers"@);
    let i = remark(
        status_like(f),
        false,
        "only "@ + digits(percent(f.avg_distinct) as nat)
            + "% distinct values — looks like a status, not an id"@,
    );
    let j = remark(
        thinly_filled(f),
        false,
        "set on only "@ + digits(percent(f.avg_fill) as nat) + "% of sampled rows"@,
    );
    let k = remark(f.hint && !f.well_known, true, "name follows a common id convention"@);
    either_has(a, b);
    either_has(a + b, c);
    either_has(a + b + c, d);
    either_has(a + b + c + d, e);
    either_has(a + b + c + d + e, g);
    either_has(a + b + c + d + e + g, h);
    either_has(a + b + c + d + e + g + h, i);
    either_has(a + b + c + d + e + g + h + i, j);
    either_has(a + b + c + d + e + g + h + i + j, k);
    remark_has(f.reach > 1, true, "present in "@ + digits(f.reach as nat) + " tables"@);
    remark_has(f.reach <= 1, false, "only in one table — nothing to trace across"@);
    remark_has(
        f.shared > 0,
        true,
        digits(f.shared as nat) + " values seen in more than one table"@,
    );
    remark_has(
        f.shared <= 0 && f.reach > 1,
        false,
        "no shared values in the sample — the link is unproven"@,
    );
    remark_has(
        f.shared > 0 && names.len() > 1,
        true,
        "same values under different names: "@ + joined(names, ", "@),
    );
    remark_has(f.well_known, true, "a standard Azure Monitor correlation column"@);
    remark_has(f.id_shaped, true, "values look like identifiers"@);
    remark_has(
        status_like(f),
        false,
        "only "@ + digits(percent(f.avg_distinct) as nat)
            + "% distinct values — looks like a status, not an id"@,
    );
    remark_has(
        thinly_filled(f),
        false,
        "set on only "@ + digits(percent(f.avg_fill) as nat) + "% of sampled rows"@,
    );
    remark_has(f.hint && !f.well_known, true, "name follows a common id convention"@);
}

/// A key shows the facts of its columns, and scores by them.
pub proof fn keys_show_their_facts(c: Seq<NodeV>, paths: Seq<Text>)
    ensures
        ({
            let k = candidate(c, paths);
            let f = facts_of(c);
            &&& k.shared_values == f.shared
            &&& k.cross_named == f.cross_named
            &&& k.id_shaped == f.id_shaped
            &&& k.well_known == f.well_known
            &&& k.avg_fill == f.avg_fill
            &&& k.avg_distinct_ratio == f.avg_distinct
            &&& k.score == score_of(f)
            &&& k.evidence == reasons(f, sorted_set(fields_of(c)))
        }),
{
}

proof fn common_name_is_last(c: Seq<NodeV>, names: Seq<Text>, i: int)
    requires
        strictly_sorted(names),
        0 <= i < names.len(),
        uses(c, names[i]) == uses(c, common_name(c, names)),
        byte_len(names[i]) == byte_len(common_name(c, names)),
    ensures
        !text_less(common_name(c, names), names[i]),
    decreases names.len(),
{
    let r = common_name(c, names);
    text_less_irreflexive(r);
    if names.len() > 1 {
        let short = names.drop_last();
        let n = names.len() - 1;
        assert forall|a: int, b: int| 0 <= a < b < short.len() implies text_less(
            #[trigger] short[a],
            #[trigger] short[b],
        ) by {
            assert(short[a] == names[a] && short[b] == names[b]);
        }
        let best = common_name(c, short);
        common_name_is(c, short);
        if i < n {
            assert(short[i] == names[i]);
            if r == names.last() && text_less(r, names[i]) {
                assert(text_less(names[i], names[n]));
                text_less_transitive(r, names[i], r);
            } else if r == best {
                common_name_is_last(c, short, i);
            }
        } else if r != names.last() {
            assert(r == best);
        }
    }
}

/// Of spellings that are as common and as long, a key goes by the last.
pub proof fn the_last_of_equal_names_is_taken(c: Seq<NodeV>, paths: Seq<Text>, i: int)
    requires
        0 <= i < c.len(),
        fields_of(c).filter(|x: Text| x == c[i].field).len() == fields_of(c).filter(
            |x: Text| x == candidate(c, paths).label,
        ).len(),
        byte_len(c[i].field) == byte_len(candidate(c, paths).label),
    ensures
        !text_less(candidate(c, paths).label, c[i].field),
{
    let fields = fields_of(c);
    let names = sorted_set(fields);
    sorted_set_holds(fields);
    assert(fields[i] == c[i].field);
    assert(fields.contains(c[i].field));
    assert(names.contains(c[i].field));
    let k = choose|k: int| 0 <= k < names.len() && names[k] == c[i].field;
    holders_count(fields, c[i].field);
    holders_count(fields, candidate(c, paths).label);
    common_name_is_last(c, names, k);
}

/// Columns of different tables that are spelled alike, or share two values
/// that are in thirty-two columns at most, are bound by one key.
pub proof fn linked_columns_are_bound_by_one_key(schemas: Seq<TableV>, i: int, j: int) -> (k: KeyV)
    requires
        0 <= i < j < nodes_of(schemas).len(),
        nodes_of(schemas)[i].schema != nodes_of(schemas)[j].schema,
        nodes_of(schemas)[i].name_key == nodes_of(schemas)[j].name_key || nodes_of(
            schemas,
        )[i].linkable.filter(
            |v: Text|
                nodes_of(schemas)[j].linkable.contains(v) && nodes_of(schemas).filter(
                    |n: NodeV| n.linkable.contains(v),
                ).len() <= 32,
        ).len() >= 2,
    ensures
        ranked_keys(schemas).contains(k),
        exists|b: int|
            0 <= b < k.bindings.len() && (#[trigger] k.bindings[b]).table == nodes_of(
                schemas,
            )[i].table,
        exists|b: int|
            0 <= b < k.bindings.len() && (#[trigger] k.bindings[b]).table == nodes_of(
                schemas,
            )[j].table,
{
    let nodes = nodes_of(schemas);
    let g = every_column_is_in_a_group(nodes, i);
    spelling_or_values_put_columns_together(nodes, i, j, g);
    let members = key_groups(nodes)[g];
    groups_within(nodes);
    assert forall|x: int| 0 <= x < members.len() implies 0 <= #[trigger] members[x]
        < nodes.len() by {
        assert(0 <= key_groups(nodes)[g][x] < nodes.len());
    }
    let all = unranked_keys(schemas);
    let k = all[g];
    arranged_keeps(all, all.map_values(|k: KeyV| key_rank(k)));
    assert(all.contains(k));
    let c = chosen(nodes, members);
    let mt = member_tables(nodes, members);
    chosen_tables(nodes, members);
    sorted_set_holds(mt);
    let x = choose|x: int| 0 <= x < members.len() && members[x] == i;
    let y = choose|y: int| 0 <= y < members.len() && members[y] == j;
    assert(mt[x] == nodes[i].table && mt[y] == nodes[j].table);
    assert(mt.contains(nodes[i].table) && mt.contains(nodes[j].table));
    let set = sorted_set(mt);
    assert(set.contains(nodes[i].table) && set.contains(nodes[j].table));
    let a = choose|a: int| 0 <= a < set.len() && set[a] == nodes[i].table;
    let b = choose|b: int| 0 <= b < set.len() && set[b] == nodes[j].table;
    assert(c.map_values(|n: NodeV| n.table)[a] == nodes[i].table);
    assert(c.map_values(|n: NodeV| n.table)[b] == nodes[j].table);
    assert(k.bindings[a].table == nodes[i].table);
    assert(k.bindings[b].table == nodes[j].table);
    k
}


} // verus!
