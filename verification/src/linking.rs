//! Which columns of which tables are the same identifier.
//!
//! Two columns of different tables are linked when they are spelled alike,
//! or when they carry the same values. What is linked, directly or through
//! others, is one key.

use crate::discover::{
    count_ids, identifier_like, is_system, is_well_known, system_column, well_known_key,
    LINK_MAX_FANOUT, LINK_MIN_LEN, LINK_MIN_SHARED,
};
use crate::dsu::{
    apart, connected, edges_within, joined_by, merged, reaches, sets_are_components, touches, Dsu,
};
use crate::order::{
    group_by_text, holders, holders_have, holders_hold, ints, sorted_set, sorted_set_holds,
    strictly_sorted, TextSet,
};
use crate::schema::{
    copy_texts, share, share_is_nearest_below, FieldInfo, FieldV, SHARE_ONE, TableSchema, TableV,
};
use crate::text::{
    byte_len, bytes_in, lowercase, lowered, tally, tally_is_filter, text_less,
    text_less_irreflexive, views, Text,
};
use vstd::prelude::*;

verus! {

/// A column that could carry a key.
pub struct Node {
    /// Which table it is in, by position.
    pub schema: usize,
    pub table: String,
    pub field: String,
    pub kind: String,
    pub name_key: String,
    pub seen_in: usize,
    pub sampled_rows: usize,
    pub distinct: usize,
    pub fill: u64,
    pub distinct_ratio: u64,
    /// Values long enough to be worth linking on, ascending.
    pub linkable: Vec<String>,
    pub id_shaped: bool,
    pub well_known: bool,
}

#[verifier::ext_equal]
pub ghost struct NodeV {
    pub schema: int,
    pub table: Text,
    pub field: Text,
    pub kind: Text,
    pub name_key: Text,
    pub seen_in: int,
    pub sampled_rows: int,
    pub distinct: int,
    pub fill: int,
    pub distinct_ratio: int,
    pub linkable: Seq<Text>,
    pub id_shaped: bool,
    pub well_known: bool,
}

impl View for Node {
    type V = NodeV;

    open spec fn view(&self) -> NodeV {
        NodeV {
            schema: self.schema as int,
            table: self.table@,
            field: self.field@,
            kind: self.kind@,
            name_key: self.name_key@,
            seen_in: self.seen_in as int,
            sampled_rows: self.sampled_rows as int,
            distinct: self.distinct as int,
            fill: self.fill as int,
            distinct_ratio: self.distinct_ratio as int,
            linkable: views(self.linkable@),
            id_shaped: self.id_shaped,
            well_known: self.well_known,
        }
    }
}

impl Clone for Node {
    fn clone(&self) -> (r: Node)
        ensures
            r@ == self@,
    {
        Node {
            schema: self.schema,
            table: self.table.clone(),
            field: self.field.clone(),
            kind: self.kind.clone(),
            name_key: self.name_key.clone(),
            seen_in: self.seen_in,
            sampled_rows: self.sampled_rows,
            distinct: self.distinct,
            fill: self.fill,
            distinct_ratio: self.distinct_ratio,
            linkable: copy_texts(&self.linkable),
            id_shaped: self.id_shaped,
            well_known: self.well_known,
        }
    }
}

// ── Nodes ─────────────────────────────────────────────────────────────────

/// The values long enough to link on, in order.
pub open spec fn long_values(values: Seq<Text>) -> Seq<Text>
    decreases values.len(),
{
    if values.len() == 0 {
        Seq::empty()
    } else {
        let before = long_values(values.drop_last());
        if byte_len(values.last()) >= LINK_MIN_LEN {
            before.push(values.last())
        } else {
            before
        }
    }
}

/// More than half of the values look like identifiers.
pub open spec fn mostly_ids(values: Seq<Text>) -> bool {
    tally(values, |v: Text| identifier_like(v)) * 2 > values.len()
}

pub open spec fn node_of(schema: int, t: TableV, f: FieldV) -> NodeV {
    NodeV {
        schema,
        table: t.table,
        field: f.name,
        kind: f.kind,
        name_key: lowered(f.name),
        seen_in: f.seen_in,
        sampled_rows: t.sampled_rows,
        distinct: f.distinct,
        fill: share(f.seen_in, t.sampled_rows),
        distinct_ratio: share(f.distinct, f.seen_in),
        linkable: long_values(f.values),
        id_shaped: mostly_ids(f.values),
        well_known: well_known_key(lowered(f.name)),
    }
}

/// A table's scalar columns, without those injected into every table.
pub open spec fn table_nodes(schema: int, t: TableV, fields: Seq<FieldV>) -> Seq<NodeV>
    decreases fields.len(),
{
    if fields.len() == 0 {
        Seq::empty()
    } else {
        let before = table_nodes(schema, t, fields.drop_last());
        if !system_column(fields.last().name) && fields.last().is_scalar() {
            before.push(node_of(schema, t, fields.last()))
        } else {
            before
        }
    }
}

pub open spec fn nodes_of(schemas: Seq<TableV>) -> Seq<NodeV>
    decreases schemas.len(),
{
    if schemas.len() == 0 {
        Seq::empty()
    } else {
        nodes_of(schemas.drop_last()) + table_nodes(
            schemas.len() - 1,
            schemas.last(),
            schemas.last().fields,
        )
    }
}

/// Every node's values are ascending, none twice.
pub open spec fn values_sorted(nodes: Seq<NodeV>) -> bool {
    forall|i: int| 0 <= i < nodes.len() ==> strictly_sorted((#[trigger] nodes[i]).linkable)
}

proof fn long_values_sorted(values: Seq<Text>)
    requires
        strictly_sorted(values),
    ensures
        strictly_sorted(long_values(values)),
        forall|i: int| 0 <= i < long_values(values).len() ==> values.contains(
            #[trigger] long_values(values)[i],
        ),
    decreases values.len(),
{
    if values.len() > 0 {
        let short = values.drop_last();
        let before = long_values(short);
        long_values_sorted(short);
        let r = long_values(values);
        assert forall|i: int| 0 <= i < r.len() implies values.contains(#[trigger] r[i]) by {
            if i < before.len() {
                assert(r[i] == before[i]);
                let k = choose|k: int| 0 <= k < short.len() && short[k] == before[i];
                assert(values[k] == r[i]);
            } else {
                assert(values[values.len() - 1] == r[i]);
            }
        }
        assert forall|i: int, j: int| 0 <= i < j < r.len() implies text_less(
            #[trigger] r[i],
            #[trigger] r[j],
        ) by {
            assert(r[i] == before[i]);
            if j < before.len() {
                assert(r[j] == before[j]);
            } else {
                let k = choose|k: int| 0 <= k < short.len() && short[k] == before[i];
                assert(text_less(values[k], values[values.len() - 1]));
            }
        }
    }
}

fn keep_long(values: &Vec<String>) -> (r: Vec<String>)
    ensures
        views(r@) == long_values(views(values@)),
{
    let ghost all = views(values@);
    let mut out: Vec<String> = Vec::new();
    let mut i: usize = 0;
    assert(all.take(0) =~= Seq::empty());
    assert(views(out@) =~= Seq::<Text>::empty());
    while i < values.len()
        invariant
            i <= values@.len(),
            all == views(values@),
            views(out@) == long_values(all.take(i as int)),
        decreases values@.len() - i,
    {
        assert(all.take(i + 1).drop_last() =~= all.take(i as int));
        if bytes_in(values[i].as_str()) >= LINK_MIN_LEN as u128 {
            let ghost before = views(out@);
            out.push(values[i].clone());
            assert(views(out@) =~= before.push(all[i as int]));
        }
        i = i + 1;
    }
    assert(all.take(i as int) =~= all);
    out
}

fn make_node(at: usize, schema: &TableSchema, field: &FieldInfo) -> (r: Node)
    ensures
        r@ == node_of(at as int, schema@, field@),
        strictly_sorted(r@.linkable),
{
    let name_key = lowercase(field.name.as_str());
    let well_known = is_well_known(name_key.as_str());
    let values = field.values.items();
    proof {
        long_values_sorted(field.values@);
    }
    let r = Node {
        schema: at,
        table: schema.path(),
        field: field.name.clone(),
        kind: field.kind.clone(),
        name_key,
        seen_in: field.seen_in,
        sampled_rows: schema.sampled_rows,
        distinct: field.distinct,
        fill: field.fill(schema.sampled_rows),
        distinct_ratio: field.distinct_ratio(),
        linkable: keep_long(values),
        id_shaped: (count_ids(values) as u128) * 2 > values.len() as u128,
        well_known,
    };
    assert(r@ =~= node_of(at as int, schema@, field@));
    r
}

/// The columns that could carry a key.
pub fn collect_nodes(schemas: &Vec<TableSchema>) -> (r: Vec<Node>)
    ensures
        views(r@) == nodes_of(views(schemas@)),
        values_sorted(views(r@)),
{
    let ghost all = views(schemas@);
    let mut out: Vec<Node> = Vec::new();
    let mut s: usize = 0;
    assert(all.take(0) =~= Seq::empty());
    assert(views(out@) =~= nodes_of(all.take(0)));
    while s < schemas.len()
        invariant
            s <= schemas@.len(),
            all == views(schemas@),
            views(out@) == nodes_of(all.take(s as int)),
            values_sorted(views(out@)),
        decreases schemas@.len() - s,
    {
        let schema = &schemas[s];
        let ghost t = schema@;
        let ghost before = views(out@);
        assert(all.take(s + 1).drop_last() =~= all.take(s as int));
        assert(all.take(s + 1).last() == t);
        let mut f: usize = 0;
        assert(t.fields.take(0) =~= Seq::empty());
        assert(before + table_nodes(s as int, t, t.fields.take(0)) =~= before);
        while f < schema.fields.len()
            invariant
                f <= schema.fields@.len(),
                t == schema@,
                views(out@) == before + table_nodes(s as int, t, t.fields.take(f as int)),
                values_sorted(views(out@)),
            decreases schema.fields@.len() - f,
        {
            let field = &schema.fields[f];
            assert(t.fields.take(f + 1).drop_last() =~= t.fields.take(f as int));
            assert(t.fields.take(f + 1).last() == field@);
            if !is_system(field.name.as_str()) && field.is_scalar() {
                let ghost so_far = views(out@);
                let node = make_node(s, schema, field);
                let ghost nv = node@;
                out.push(node);
                assert(views(out@) =~= so_far.push(nv));
                assert(views(out@) =~= before + table_nodes(s as int, t, t.fields.take(f + 1)));
                assert forall|i: int| 0 <= i < views(out@).len() implies strictly_sorted(
                    (#[trigger] views(out@)[i]).linkable,
                ) by {
                    if i < so_far.len() {
                        assert(views(out@)[i] == so_far[i]);
                    }
                }
            }
            f = f + 1;
        }
        assert(t.fields.take(f as int) =~= t.fields);
        s = s + 1;
    }
    assert(all.take(s as int) =~= all);
    out
}

// ── Links by name ─────────────────────────────────────────────────────────

pub open spec fn name_keys(nodes: Seq<NodeV>) -> Seq<Text> {
    nodes.map_values(|n: NodeV| n.name_key)
}

/// Links from the first `m` nodes of a list to its node at `w`, across
/// tables only.
pub open spec fn links_to(nodes: Seq<NodeV>, h: Seq<int>, w: int, m: int) -> Seq<(int, int)>
    decreases m,
{
    if m <= 0 {
        Seq::empty()
    } else {
        let before = links_to(nodes, h, w, m - 1);
        if nodes[h[m - 1]].schema != nodes[h[w]].schema {
            before.push((h[m - 1], h[w]))
        } else {
            before
        }
    }
}

/// Links between each two of the first `n` nodes of a list, across tables
/// only.
pub open spec fn pair_links(nodes: Seq<NodeV>, h: Seq<int>, n: int) -> Seq<(int, int)>
    decreases n,
{
    if n <= 0 {
        Seq::empty()
    } else {
        pair_links(nodes, h, n - 1) + links_to(nodes, h, n - 1, n - 1)
    }
}

/// The links of the first `n` spellings.
pub open spec fn name_links(nodes: Seq<NodeV>, n: int) -> Seq<(int, int)>
    decreases n,
{
    if n <= 0 {
        Seq::empty()
    } else {
        let h = holders(name_keys(nodes), sorted_set(name_keys(nodes))[n - 1]);
        name_links(nodes, n - 1) + pair_links(nodes, h, h.len() as int)
    }
}

/// Same spelling in different tables is the same key, by assumption.
pub open spec fn links_by_name(nodes: Seq<NodeV>) -> Seq<(int, int)> {
    name_links(nodes, sorted_set(name_keys(nodes)).len() as int)
}

// ── Links by value ────────────────────────────────────────────────────────

/// The nodes that carry a value, ascending.
pub open spec fn carriers(nodes: Seq<NodeV>, v: Text) -> Seq<int>
    decreases nodes.len(),
{
    if nodes.len() == 0 {
        Seq::empty()
    } else {
        let before = carriers(nodes.drop_last(), v);
        if nodes.last().linkable.contains(v) {
            before.push(nodes.len() - 1)
        } else {
            before
        }
    }
}

/// A value in no other column links nothing, and one in very many is
/// boilerplate.
pub open spec fn telling(nodes: Seq<NodeV>, v: Text) -> bool {
    2 <= carriers(nodes, v).len() <= LINK_MAX_FANOUT
}

/// How many telling values two nodes share.
pub open spec fn shared_values(nodes: Seq<NodeV>, i: int, j: int) -> nat {
    tally(
        nodes[i].linkable,
        |v: Text| telling(nodes, v) && nodes[j].linkable.contains(v),
    )
}

/// Columns that carry the same values are the same key, whatever they are
/// called. Two columns of one table are not.
pub open spec fn value_link(nodes: Seq<NodeV>, i: int, j: int) -> bool {
    nodes[i].schema != nodes[j].schema && shared_values(nodes, i, j) >= LINK_MIN_SHARED
}

/// The value links of `i` with the nodes between it and `n`.
pub open spec fn value_links_at(nodes: Seq<NodeV>, i: int, n: int) -> Seq<(int, int)>
    decreases n - i,
{
    if n <= i + 1 {
        Seq::empty()
    } else {
        let before = value_links_at(nodes, i, n - 1);
        if value_link(nodes, i, n - 1) {
            before.push((i, n - 1))
        } else {
            before
        }
    }
}

pub open spec fn value_links(nodes: Seq<NodeV>, n: int) -> Seq<(int, int)>
    decreases n,
{
    if n <= 0 {
        Seq::empty()
    } else {
        value_links(nodes, n - 1) + value_links_at(nodes, n - 1, nodes.len() as int)
    }
}

pub open spec fn links_by_value(nodes: Seq<NodeV>) -> Seq<(int, int)> {
    value_links(nodes, nodes.len() as int)
}

/// Every link between nodes.
pub open spec fn all_links(nodes: Seq<NodeV>) -> Seq<(int, int)> {
    links_by_name(nodes) + links_by_value(nodes)
}

/// For each node, the node that stands for its key.
pub open spec fn key_roots(nodes: Seq<NodeV>) -> Seq<int> {
    joined_by(apart(nodes.len()), all_links(nodes))
}

proof fn joined_push(roots: Seq<int>, edges: Seq<(int, int)>, a: int, b: int)
    ensures
        joined_by(roots, edges.push((a, b))) == merged(joined_by(roots, edges), a, b),
{
    assert(edges.push((a, b)).drop_last() =~= edges);
}

fn link_by_name(nodes: &Vec<Node>, dsu: &mut Dsu)
    requires
        old(dsu).wf(),
        old(dsu)@ == apart(nodes@.len()),
    ensures
        final(dsu).wf(),
        final(dsu)@ == joined_by(apart(nodes@.len()), links_by_name(views(nodes@))),
        final(dsu)@.len() == nodes@.len(),
{
    let ghost nv = views(nodes@);
    let ghost base = apart(nodes@.len());
    let mut keys: Vec<String> = Vec::new();
    let mut i: usize = 0;
    while i < nodes.len()
        invariant
            i <= nodes@.len(),
            nv == views(nodes@),
            keys@.len() == i,
            forall|k: int| 0 <= k < i ==> (#[trigger] keys@[k])@ == nv[k].name_key,
        decreases nodes@.len() - i,
    {
        keys.push(nodes[i].name_key.clone());
        i = i + 1;
    }
    assert(views(keys@) =~= name_keys(nv));
    let (set, groups) = group_by_text(&keys);
    let mut g: usize = 0;
    let ghost mut done: Seq<(int, int)> = Seq::empty();
    while g < groups.len()
        invariant
            g <= groups@.len(),
            nv == views(nodes@),
            base == apart(nodes@.len()),
            set@ == sorted_set(name_keys(nv)),
            groups@.len() == set@.len(),
            forall|k: int|
                0 <= k < groups@.len() ==> ints((#[trigger] groups@[k])@) == holders(
                    name_keys(nv),
                    set@[k],
                ),
            done == name_links(nv, g as int),
            dsu.wf(),
            dsu@ == joined_by(base, done),
            dsu@.len() == nodes@.len(),
        decreases groups@.len() - g,
    {
        let h = &groups[g];
        let ghost hi = holders(name_keys(nv), set@[g as int]);
        let ghost start = done;
        proof {
            holders_hold(name_keys(nv), set@[g as int]);
            assert(ints(h@) == hi);
            assert(hi.len() == h@.len());
            assert(start + pair_links(nv, hi, 0) =~= start);
        }
        let mut w: usize = 0;
        while w < h.len()
            invariant
                w <= h@.len(),
                nv == views(nodes@),
                base == apart(nodes@.len()),
                hi == ints(h@),
                forall|k: int| 0 <= k < hi.len() ==> 0 <= #[trigger] hi[k] < nodes@.len(),
                done == start + pair_links(nv, hi, w as int),
                dsu.wf(),
                dsu@ == joined_by(base, done),
                dsu@.len() == nodes@.len(),
            decreases h@.len() - w,
        {
            let b: usize = h[w];
            let ghost linked = done;
            assert(hi[w as int] == b);
            assert(linked + links_to(nv, hi, w as int, 0) =~= linked);
            let mut m: usize = 0;
            while m < w
                invariant
                    m <= w < h@.len(),
                    nv == views(nodes@),
                    base == apart(nodes@.len()),
                    hi == ints(h@),
                    forall|k: int| 0 <= k < hi.len() ==> 0 <= #[trigger] hi[k] < nodes@.len(),
                    hi[w as int] == b,
                    done == linked + links_to(nv, hi, w as int, m as int),
                    dsu.wf(),
                    dsu@ == joined_by(base, done),
                    dsu@.len() == nodes@.len(),
                decreases w - m,
            {
                let a: usize = h[m];
                assert(hi[m as int] == a);
                if nodes[a].schema != nodes[b].schema {
                    dsu.union(a, b);
                    proof {
                        joined_push(base, done, a as int, b as int);
                        done = done.push((a as int, b as int));
                    }
                }
                assert(done =~= linked + links_to(nv, hi, w as int, m + 1));
                m = m + 1;
            }
            assert(done =~= start + pair_links(nv, hi, w + 1));
            w = w + 1;
        }
        g = g + 1;
    }
}

/// The carriers of a value are exactly the nodes that carry it, ascending.
pub proof fn carriers_hold(nodes: Seq<NodeV>, v: Text)
    ensures
        forall|i: int|
            0 <= i < carriers(nodes, v).len() ==> 0 <= #[trigger] carriers(nodes, v)[i]
                < nodes.len() && nodes[carriers(nodes, v)[i]].linkable.contains(v),
        forall|i: int, j: int|
            0 <= i < j < carriers(nodes, v).len() ==> #[trigger] carriers(nodes, v)[i]
                < #[trigger] carriers(nodes, v)[j],
        forall|k: int|
            0 <= k < nodes.len() && (#[trigger] nodes[k]).linkable.contains(v) ==> carriers(
                nodes,
                v,
            ).contains(k),
    decreases nodes.len(),
{
    if nodes.len() > 0 {
        let short = nodes.drop_last();
        let before = carriers(short, v);
        let r = carriers(nodes, v);
        carriers_hold(short, v);
        assert forall|i: int| 0 <= i < r.len() implies 0 <= #[trigger] r[i] < nodes.len()
            && nodes[r[i]].linkable.contains(v) by {
            if i < before.len() {
                assert(r[i] == before[i]);
                assert(short[before[i]] == nodes[r[i]]);
            }
        }
        assert forall|i: int, j: int| 0 <= i < j < r.len() implies #[trigger] r[i]
            < #[trigger] r[j] by {
            assert(r[i] == before[i]);
            if j < before.len() {
                assert(r[j] == before[j]);
            }
        }
        assert forall|k: int|
            0 <= k < nodes.len() && (#[trigger] nodes[k]).linkable.contains(v) implies r.contains(
            k,
        ) by {
            if k < short.len() {
                assert(short[k] == nodes[k]);
                assert(before.contains(k));
                let m = choose|m: int| 0 <= m < before.len() && before[m] == k;
                assert(r[m] == k);
            } else {
                assert(r[r.len() - 1] == k);
            }
        }
    }
}

/// The values that stand in any node.
pub open spec fn value_pool(nodes: Seq<NodeV>) -> Seq<Text>
    decreases nodes.len(),
{
    if nodes.len() == 0 {
        Seq::empty()
    } else {
        value_pool(nodes.drop_last()) + nodes.last().linkable
    }
}

/// A value of a node is among the values of all.
pub proof fn pool_has(nodes: Seq<NodeV>, i: int, t: int)
    requires
        0 <= i < nodes.len(),
        0 <= t < nodes[i].linkable.len(),
    ensures
        value_pool(nodes).contains(nodes[i].linkable[t]),
    decreases nodes.len(),
{
    let short = nodes.drop_last();
    let before = value_pool(short);
    if i < short.len() {
        assert(short[i] == nodes[i]);
        pool_has(short, i, t);
        let k = choose|k: int| 0 <= k < before.len() && before[k] == nodes[i].linkable[t];
        assert(value_pool(nodes)[k] == nodes[i].linkable[t]);
    } else {
        assert(value_pool(nodes)[before.len() + t] == nodes[i].linkable[t]);
    }
}

fn pool_of(nodes: &Vec<Node>) -> (r: TextSet)
    ensures
        r@ == sorted_set(value_pool(views(nodes@))),
{
    let ghost nv = views(nodes@);
    let mut set = TextSet::new();
    let ghost mut seen: Seq<Text> = Seq::empty();
    let mut i: usize = 0;
    assert(nv.take(0) =~= Seq::empty());
    while i < nodes.len()
        invariant
            i <= nodes@.len(),
            nv == views(nodes@),
            seen == value_pool(nv.take(i as int)),
            set@ == sorted_set(seen),
        decreases nodes@.len() - i,
    {
        assert(nv.take(i + 1).drop_last() =~= nv.take(i as int));
        assert(nv.take(i + 1).last() == nodes@[i as int]@);
        let values = &nodes[i].linkable;
        let ghost vv = views(values@);
        let ghost start = seen;
        let mut t: usize = 0;
        assert(start + vv.take(0) =~= start);
        while t < values.len()
            invariant
                t <= values@.len(),
                vv == views(values@),
                seen == start + vv.take(t as int),
                set@ == sorted_set(seen),
            decreases values@.len() - t,
        {
            set.insert(values[t].clone());
            proof {
                let next = seen.push(vv[t as int]);
                assert(next.drop_last() =~= seen);
                seen = next;
                assert(seen =~= start + vv.take(t + 1));
            }
            t = t + 1;
        }
        assert(vv.take(t as int) =~= vv);
        i = i + 1;
    }
    assert(nv.take(i as int) =~= nv);
    set
}

spec fn maybe_one(b: bool, i: int) -> Seq<int> {
    if b {
        seq![i]
    } else {
        Seq::empty()
    }
}

/// For each value, the nodes that carry it.
pub fn index_values(nodes: &Vec<Node>) -> (r: (TextSet, Vec<Vec<usize>>))
    requires
        values_sorted(views(nodes@)),
    ensures
        r.0@ == sorted_set(value_pool(views(nodes@))),
        r.1@.len() == r.0@.len(),
        forall|p: int|
            0 <= p < r.1@.len() ==> ints((#[trigger] r.1@[p])@) == carriers(views(nodes@), r.0@[p]),
{
    let ghost nv = views(nodes@);
    let set = pool_of(nodes);
    proof {
        sorted_set_holds(value_pool(nv));
    }
    let mut groups: Vec<Vec<usize>> = Vec::new();
    let mut g: usize = 0;
    assert(nv.take(0) =~= Seq::empty());
    while g < set.len()
        invariant
            g <= set@.len(),
            groups@.len() == g,
            nv.take(0) == Seq::<NodeV>::empty(),
            forall|p: int|
                0 <= p < g ==> ints((#[trigger] groups@[p])@) == carriers(nv.take(0), set@[p]),
        decreases set@.len() - g,
    {
        let none: Vec<usize> = Vec::new();
        assert(ints(none@) =~= Seq::empty());
        groups.push(none);
        g = g + 1;
    }
    let mut i: usize = 0;
    while i < nodes.len()
        invariant
            i <= nodes@.len(),
            nv == views(nodes@),
            values_sorted(nv),
            strictly_sorted(set@),
            forall|x: Text| #[trigger] set@.contains(x) <==> value_pool(nv).contains(x),
            groups@.len() == set@.len(),
            forall|p: int|
                0 <= p < groups@.len() ==> ints((#[trigger] groups@[p])@) == carriers(
                    nv.take(i as int),
                    set@[p],
                ),
        decreases nodes@.len() - i,
    {
        let ghost next = nv.take(i + 1);
        assert(next.drop_last() =~= nv.take(i as int));
        let values = &nodes[i].linkable;
        let ghost vv = views(values@);
        assert(nv[i as int].linkable == vv);
        assert(next.last().linkable == vv);
        let ghost start = groups@;
        let mut t: usize = 0;
        proof {
            assert forall|p: int| 0 <= p < groups@.len() implies ints((#[trigger] groups@[p])@)
                == ints(start[p]@) + maybe_one(vv.take(0).contains(set@[p]), i as int) by {
                assert(ints(start[p]@) + maybe_one(false, i as int) =~= ints(start[p]@));
            }
        }
        while t < values.len()
            invariant
                t <= values@.len(),
                i < nodes@.len(),
                nv == views(nodes@),
                vv == views(values@),
                vv == nv[i as int].linkable,
                strictly_sorted(vv),
                strictly_sorted(set@),
                forall|x: Text| #[trigger] set@.contains(x) <==> value_pool(nv).contains(x),
                groups@.len() == set@.len(),
                start.len() == set@.len(),
                forall|p: int|
                    0 <= p < groups@.len() ==> ints((#[trigger] groups@[p])@) == ints(start[p]@)
                        + maybe_one(vv.take(t as int).contains(set@[p]), i as int),
            decreases values@.len() - t,
        {
            let ghost v = vv[t as int];
            let ghost before = groups@;
            match set.position(values[t].as_str()) {
                Some(q) => {
                    groups[q].push(i);
                    proof {
                        assert forall|p: int| 0 <= p < groups@.len() implies ints(
                            (#[trigger] groups@[p])@,
                        ) == ints(start[p]@) + maybe_one(
                            vv.take(t + 1).contains(set@[p]),
                            i as int,
                        ) by {
                            text_less_irreflexive(v);
                            assert(vv.take(t + 1)[t as int] == v);
                            assert(before[p]@ == before[p]@);
                            assert(ints(before[p]@) == ints(start[p]@) + maybe_one(
                                vv.take(t as int).contains(set@[p]),
                                i as int,
                            ));
                            if p == q {
                                if vv.take(t as int).contains(v) {
                                    let k = choose|k: int|
                                        0 <= k < t && vv.take(t as int)[k] == v;
                                    assert(text_less(vv[k], vv[t as int]));
                                }
                                assert(ints(groups@[p]@) =~= ints(before[p]@).push(i as int));
                                assert(ints(groups@[p]@) =~= ints(start[p]@) + seq![i as int]);
                            } else {
                                assert(groups@[p] == before[p]);
                                if set@[p] == v {
                                    if p < q {
                                        assert(text_less(set@[p], set@[q as int]));
                                    } else {
                                        assert(text_less(set@[q as int], set@[p]));
                                    }
                                }
                                if vv.take(t as int).contains(set@[p]) {
                                    let k = choose|k: int|
                                        0 <= k < t && vv.take(t as int)[k] == set@[p];
                                    assert(vv.take(t + 1)[k] == set@[p]);
                                }
                                let ahead = vv.take(t + 1);
                                if ahead.contains(set@[p]) {
                                    let k = choose|k: int|
                                        0 <= k < ahead.len() && ahead[k] == set@[p];
                                    assert(k != t);
                                    assert(vv.take(t as int)[k] == set@[p]);
                                }
                            }
                        }
                    }
                },
                None => {
                    proof {
                        pool_has(nv, i as int, t as int);
                        assert(set@.contains(v));
                    }
                },
            }
            t = t + 1;
        }
        proof {
            assert(vv.take(t as int) =~= vv);
            assert forall|p: int| 0 <= p < groups@.len() implies ints((#[trigger] groups@[p])@)
                == carriers(next, set@[p]) by {
                assert(ints(start[p]@) == carriers(nv.take(i as int), set@[p]));
                if vv.contains(set@[p]) {
                    assert(carriers(next, set@[p]) =~= ints(start[p]@) + seq![i as int]);
                } else {
                    assert(ints(start[p]@) + maybe_one(false, i as int) =~= ints(start[p]@));
                }
            }
        }
        i = i + 1;
    }
    assert(nv.take(i as int) =~= nv);
    (set, groups)
}

/// Whether a value counts towards linking `i` and `j`.
spec fn counts_for(nodes: Seq<NodeV>, j: int) -> spec_fn(Text) -> bool {
    |v: Text| telling(nodes, v) && nodes[j].linkable.contains(v)
}

/// How many telling values `i` shares with each node behind it in another
/// table.
fn share_counts(
    nodes: &Vec<Node>,
    set: &TextSet,
    groups: &Vec<Vec<usize>>,
    i: usize,
) -> (counts: Vec<usize>)
    requires
        i < nodes@.len(),
        values_sorted(views(nodes@)),
        set@ == sorted_set(value_pool(views(nodes@))),
        groups@.len() == set@.len(),
        forall|p: int|
            0 <= p < groups@.len() ==> ints((#[trigger] groups@[p])@) == carriers(
                views(nodes@),
                set@[p],
            ),
    ensures
        counts@.len() == nodes@.len(),
        forall|j: int|
            i < j < nodes@.len() && nodes@[j].schema != nodes@[i as int].schema
                ==> #[trigger] counts@[j] == shared_values(views(nodes@), i as int, j),
{
    let ghost nv = views(nodes@);
    proof {
        sorted_set_holds(value_pool(nv));
    }
    let mut counts: Vec<usize> = Vec::new();
    let n: usize = nodes.len();
    let mut z: usize = 0;
    while z < n
        invariant
            z <= n,
            counts@.len() == z,
            forall|j: int| 0 <= j < z ==> #[trigger] counts@[j] == 0,
        decreases n - z,
    {
        counts.push(0);
        z = z + 1;
    }
    let values = &nodes[i].linkable;
    let ghost vv = views(values@);
    assert(nv[i as int].linkable == vv);
    assert(vv.take(0) =~= Seq::empty());
    let total: usize = values.len();
    let mut t: usize = 0;
    while t < total
        invariant
            t <= total,
            total == values@.len(),
            i < nodes@.len(),
            n == nodes@.len(),
            nv == views(nodes@),
            vv == views(values@),
            vv == nv[i as int].linkable,
            forall|x: Text| #[trigger] set@.contains(x) <==> value_pool(nv).contains(x),
            groups@.len() == set@.len(),
            forall|p: int|
                0 <= p < groups@.len() ==> ints((#[trigger] groups@[p])@) == carriers(nv, set@[p]),
            counts@.len() == n,
            forall|j: int| 0 <= j < n ==> #[trigger] counts@[j] <= t,
            forall|j: int|
                i < j < n && nodes@[j].schema != nodes@[i as int].schema ==> #[trigger] counts@[j]
                    == tally(vv.take(t as int), counts_for(nv, j)),
        decreases values@.len() - t,
    {
        let ghost v = vv[t as int];
        assert(vv.take(t + 1).drop_last() =~= vv.take(t as int));
        match set.position(values[t].as_str()) {
            Some(q) => {
                let h = &groups[q];
                let ghost hi = carriers(nv, v);
                proof {
                    assert(ints(groups@[q as int]@) == carriers(nv, set@[q as int]));
                    carriers_hold(nv, v);
                    assert(hi == ints(h@));
                    assert(hi.len() == h@.len());
                }
                let ghost base = counts@;
                if 2 <= h.len() && h.len() <= LINK_MAX_FANOUT {
                    let mut w: usize = 0;
                    while w < h.len()
                        invariant
                            w <= h@.len(),
                            i < nodes@.len(),
                            t < total,
                            n == nodes@.len(),
                            hi == ints(h@),
                            forall|k: int| 0 <= k < hi.len() ==> 0 <= #[trigger] hi[k] < n,
                            forall|a: int, b: int|
                                0 <= a < b < hi.len() ==> #[trigger] hi[a] < #[trigger] hi[b],
                            counts@.len() == n,
                            base.len() == n,
                            forall|j: int| 0 <= j < n ==> #[trigger] base[j] <= t,
                            forall|j: int|
                                0 <= j < n ==> #[trigger] counts@[j] == base[j] + if j > i
                                    && nodes@[j].schema != nodes@[i as int].schema && hi.take(
                                    w as int,
                                ).contains(j) {
                                    1int
                                } else {
                                    0
                                },
                        decreases h@.len() - w,
                    {
                        let j: usize = h[w];
                        let ghost before = counts@;
                        assert(hi[w as int] == j);
                        proof {
                            if hi.take(w as int).contains(j as int) {
                                let k = choose|k: int|
                                    0 <= k < hi.take(w as int).len() && hi.take(w as int)[k] == j;
                                assert(hi[k] < hi[w as int]);
                            }
                            assert forall|x: int| 0 <= x < n && x != j implies hi.take(
                                w + 1,
                            ).contains(x) == hi.take(w as int).contains(x) by {
                                let more = hi.take(w + 1);
                                if more.contains(x) {
                                    let k = choose|k: int| 0 <= k < more.len() && more[k] == x;
                                    assert(hi.take(w as int)[k] == x);
                                }
                                let less = hi.take(w as int);
                                if less.contains(x) {
                                    let k = choose|k: int| 0 <= k < less.len() && less[k] == x;
                                    assert(more[k] == x);
                                }
                            }
                            assert(hi.take(w + 1)[w as int] == j);
                            assert(hi.take(w + 1).contains(j as int));
                        }
                        if j > i && nodes[j].schema != nodes[i].schema {
                            let c: usize = counts[j];
                            assert(c == base[j as int]);
                            counts.set(j, c + 1);
                        }
                        w = w + 1;
                    }
                    assert(hi.take(w as int) =~= hi);
                }
                proof {
                    assert forall|j: int|
                        i < j < n && nodes@[j].schema != nodes@[i as int].schema implies
                        #[trigger] counts@[j] == tally(vv.take(t + 1), counts_for(nv, j)) by {
                        let p = counts_for(nv, j);
                        assert(base[j] == tally(vv.take(t as int), p));
                        assert(vv.take(t + 1).last() == v);
                        if nv[j].linkable.contains(v) {
                            assert(hi.contains(j));
                        }
                        if hi.contains(j) {
                            let k = choose|k: int| 0 <= k < hi.len() && hi[k] == j;
                            assert(nv[hi[k]].linkable.contains(v));
                        }
                        assert(p(v) == (telling(nv, v) && nv[j].linkable.contains(v)));
                    }
                }
            },
            None => {
                proof {
                    pool_has(nv, i as int, t as int);
                    assert(set@.contains(v));
                }
            },
        }
        t = t + 1;
    }
    assert(vv.take(t as int) =~= vv);
    counts
}

fn link_by_value(nodes: &Vec<Node>, dsu: &mut Dsu)
    requires
        old(dsu).wf(),
        values_sorted(views(nodes@)),
        old(dsu)@ == joined_by(apart(nodes@.len()), links_by_name(views(nodes@))),
        old(dsu)@.len() == nodes@.len(),
    ensures
        final(dsu).wf(),
        final(dsu)@ == key_roots(views(nodes@)),
        final(dsu)@.len() == nodes@.len(),
{
    let ghost nv = views(nodes@);
    let ghost base = apart(nodes@.len());
    let ghost named = links_by_name(nv);
    let (set, groups) = index_values(nodes);
    let n: usize = nodes.len();
    let ghost mut done: Seq<(int, int)> = named;
    let mut i: usize = 0;
    assert(done =~= named + value_links(nv, 0));
    while i < n
        invariant
            i <= n,
            n == nodes@.len(),
            nv == views(nodes@),
            values_sorted(nv),
            set@ == sorted_set(value_pool(nv)),
            groups@.len() == set@.len(),
            forall|p: int|
                0 <= p < groups@.len() ==> ints((#[trigger] groups@[p])@) == carriers(nv, set@[p]),
            done == named + value_links(nv, i as int),
            dsu.wf(),
            dsu@ == joined_by(base, done),
            dsu@.len() == n,
        decreases n - i,
    {
        let counts = share_counts(nodes, &set, &groups, i);
        let ghost start = done;
        let mut j: usize = i + 1;
        assert(done =~= start + value_links_at(nv, i as int, i + 1));
        while j < n
            invariant
                i < j <= n,
                n == nodes@.len(),
                nv == views(nodes@),
                counts@.len() == n,
                forall|k: int|
                    i < k < n && nodes@[k].schema != nodes@[i as int].schema
                        ==> #[trigger] counts@[k] == shared_values(nv, i as int, k),
                done == start + value_links_at(nv, i as int, j as int),
                dsu.wf(),
                dsu@ == joined_by(base, done),
                dsu@.len() == n,
            decreases n - j,
        {
            let c: usize = counts[j];
            if nodes[i].schema != nodes[j].schema && c >= LINK_MIN_SHARED {
                dsu.union(i, j);
                proof {
                    joined_push(base, done, i as int, j as int);
                    done = done.push((i as int, j as int));
                }
            }
            assert(done =~= start + value_links_at(nv, i as int, j + 1));
            j = j + 1;
        }
        assert(done =~= named + value_links(nv, i + 1));
        i = i + 1;
    }
}

// ── Keys ──────────────────────────────────────────────────────────────────

/// The nodes that `r` stands for, ascending.
pub open spec fn set_of(roots: Seq<int>, r: int) -> Seq<int>
    decreases roots.len(),
{
    if roots.len() == 0 {
        Seq::empty()
    } else {
        let before = set_of(roots.drop_last(), r);
        if roots.last() == r {
            before.push(roots.len() - 1)
        } else {
            before
        }
    }
}

/// The sets of nodes, ascending by the node that stands for each, among the
/// first `n` nodes.
pub open spec fn sets_of(roots: Seq<int>, n: int) -> Seq<Seq<int>>
    decreases n,
{
    if n <= 0 {
        Seq::empty()
    } else {
        let before = sets_of(roots, n - 1);
        if set_of(roots, n - 1).len() > 0 {
            before.push(set_of(roots, n - 1))
        } else {
            before
        }
    }
}

/// The groups of nodes that are one key each.
pub open spec fn key_groups(nodes: Seq<NodeV>) -> Seq<Seq<int>> {
    sets_of(key_roots(nodes), nodes.len() as int)
}

proof fn set_of_within(roots: Seq<int>, r: int)
    ensures
        forall|k: int|
            0 <= k < set_of(roots, r).len() ==> 0 <= #[trigger] set_of(roots, r)[k] < roots.len()
                && roots[set_of(roots, r)[k]] == r,
        forall|a: int, b: int|
            0 <= a < b < set_of(roots, r).len() ==> #[trigger] set_of(roots, r)[a]
                < #[trigger] set_of(roots, r)[b],
    decreases roots.len(),
{
    if roots.len() > 0 {
        let short = roots.drop_last();
        let before = set_of(short, r);
        let all = set_of(roots, r);
        set_of_within(short, r);
        assert forall|k: int| 0 <= k < all.len() implies 0 <= #[trigger] all[k] < roots.len()
            && roots[all[k]] == r by {
            if k < before.len() {
                assert(all[k] == before[k]);
                assert(short[before[k]] == roots[all[k]]);
            }
        }
        assert forall|a: int, b: int| 0 <= a < b < all.len() implies #[trigger] all[a]
            < #[trigger] all[b] by {
            assert(all[a] == before[a]);
            if b < before.len() {
                assert(all[b] == before[b]);
            }
        }
    }
}

proof fn sets_of_within(roots: Seq<int>, n: int)
    ensures
        forall|a: int, b: int|
            0 <= a < sets_of(roots, n).len() && 0 <= b < sets_of(roots, n)[a].len() ==> 0
                <= #[trigger] sets_of(roots, n)[a][b] < roots.len(),
        forall|a: int| 0 <= a < sets_of(roots, n).len() ==> (#[trigger] sets_of(roots, n)[a]).len()
            > 0,
    decreases n,
{
    if n > 0 {
        sets_of_within(roots, n - 1);
        set_of_within(roots, n - 1);
        let before = sets_of(roots, n - 1);
        let all = sets_of(roots, n);
        assert forall|a: int, b: int| 0 <= a < all.len() && 0 <= b < all[a].len() implies 0
            <= #[trigger] all[a][b] < roots.len() by {
            if a < before.len() {
                assert(all[a] == before[a]);
            }
        }
        assert forall|a: int| 0 <= a < all.len() implies (#[trigger] all[a]).len() > 0 by {
            if a < before.len() {
                assert(all[a] == before[a]);
            }
        }
    }
}

proof fn roots_len(n: nat, edges: Seq<(int, int)>)
    ensures
        joined_by(apart(n), edges).len() == n,
    decreases edges.len(),
{
    if edges.len() > 0 {
        roots_len(n, edges.drop_last());
    }
}

/// A key groups columns that exist, and at least one.
pub proof fn groups_within(nodes: Seq<NodeV>)
    ensures
        forall|a: int, b: int|
            0 <= a < key_groups(nodes).len() && 0 <= b < key_groups(nodes)[a].len() ==> 0
                <= #[trigger] key_groups(nodes)[a][b] < nodes.len(),
        forall|a: int|
            0 <= a < key_groups(nodes).len() ==> (#[trigger] key_groups(nodes)[a]).len() > 0,
{
    roots_len(nodes.len(), all_links(nodes));
    sets_of_within(key_roots(nodes), nodes.len() as int);
}

proof fn set_at(roots: Seq<int>, n: int, g: int) -> (r: int)
    requires
        0 <= g < sets_of(roots, n).len(),
    ensures
        sets_of(roots, n)[g] == set_of(roots, r),
    decreases n,
{
    if g < sets_of(roots, n - 1).len() {
        set_at(roots, n - 1, g)
    } else {
        n - 1
    }
}

/// The columns of a group have one node that stands for them all.
pub proof fn groups_have_one_root(nodes: Seq<NodeV>, g: int, a: int, b: int)
    requires
        0 <= g < key_groups(nodes).len(),
        key_groups(nodes)[g].contains(a),
        key_groups(nodes)[g].contains(b),
    ensures
        key_roots(nodes)[a] == key_roots(nodes)[b],
{
    let roots = key_roots(nodes);
    let r = set_at(roots, nodes.len() as int, g);
    set_of_within(roots, r);
    let s = set_of(roots, r);
    let x = choose|x: int| 0 <= x < s.len() && s[x] == a;
    let y = choose|y: int| 0 <= y < s.len() && s[y] == b;
    assert(roots[s[x]] == r && roots[s[y]] == r);
}

pub open spec fn groups_view(groups: Seq<Vec<usize>>) -> Seq<Seq<int>> {
    groups.map_values(|g: Vec<usize>| ints(g@))
}

/// Sorts the nodes into keys.
pub fn group_nodes(nodes: &Vec<Node>) -> (r: Vec<Vec<usize>>)
    requires
        values_sorted(views(nodes@)),
    ensures
        groups_view(r@) == key_groups(views(nodes@)),
{
    let ghost nv = views(nodes@);
    let n: usize = nodes.len();
    let mut dsu = Dsu::new(n);
    link_by_name(nodes, &mut dsu);
    link_by_value(nodes, &mut dsu);
    let ghost roots = key_roots(nv);
    let mut sets: Vec<Vec<usize>> = Vec::new();
    let mut z: usize = 0;
    assert(roots.take(0) =~= Seq::empty());
    while z < n
        invariant
            z <= n,
            sets@.len() == z,
            roots.take(0) == Seq::<int>::empty(),
            forall|r: int| 0 <= r < z ==> ints((#[trigger] sets@[r])@) == set_of(roots.take(0), r),
        decreases n - z,
    {
        let none: Vec<usize> = Vec::new();
        assert(ints(none@) =~= Seq::empty());
        sets.push(none);
        z = z + 1;
    }
    let mut i: usize = 0;
    while i < n
        invariant
            i <= n,
            n == nodes@.len(),
            dsu.wf(),
            dsu@ == roots,
            roots.len() == n,
            sets@.len() == n,
            forall|r: int|
                0 <= r < n ==> ints((#[trigger] sets@[r])@) == set_of(roots.take(i as int), r),
        decreases n - i,
    {
        let r: usize = dsu.find(i);
        let ghost before = sets@;
        let ghost next = roots.take(i + 1);
        assert(next.drop_last() =~= roots.take(i as int));
        assert(next.last() == r);
        sets[r].push(i);
        proof {
            assert forall|x: int| 0 <= x < n implies ints((#[trigger] sets@[x])@) == set_of(
                next,
                x,
            ) by {
                if x == r {
                    assert(ints(sets@[x]@) =~= ints(before[x]@).push(i as int));
                } else {
                    assert(sets@[x] == before[x]);
                }
            }
        }
        i = i + 1;
    }
    assert(roots.take(i as int) =~= roots);
    let mut out: Vec<Vec<usize>> = Vec::new();
    let mut k: usize = 0;
    assert(groups_view(out@) =~= sets_of(roots, 0));
    while k < n
        invariant
            k <= n,
            sets@.len() == n,
            forall|r: int| 0 <= r < n ==> ints((#[trigger] sets@[r])@) == set_of(roots, r),
            groups_view(out@) == sets_of(roots, k as int),
        decreases n - k,
    {
        if sets[k].len() > 0 {
            let ghost before = groups_view(out@);
            assert(ints(sets@[k as int]@) == set_of(roots, k as int));
            let copy = sets[k].clone();
            assert(copy@ =~= sets@[k as int]@);
            out.push(copy);
            assert(groups_view(out@) =~= before.push(set_of(roots, k as int)));
        } else {
            assert(ints(sets@[k as int]@) == set_of(roots, k as int));
            assert(ints(sets@[k as int]@).len() == 0);
        }
        k = k + 1;
    }
    out
}

// ── What holds of every link ──────────────────────────────────────────────

/// Nodes of different tables.
pub open spec fn across(nodes: Seq<NodeV>, e: (int, int)) -> bool {
    &&& 0 <= e.0 < nodes.len()
    &&& 0 <= e.1 < nodes.len()
    &&& nodes[e.0].schema != nodes[e.1].schema
}

/// What justifies a link: the same spelling, or values in common.
pub open spec fn justified(nodes: Seq<NodeV>, e: (int, int)) -> bool {
    across(nodes, e) && (nodes[e.0].name_key == nodes[e.1].name_key || shared_values(
        nodes,
        e.0,
        e.1,
    ) >= LINK_MIN_SHARED)
}

proof fn links_to_justified(nodes: Seq<NodeV>, k: Text, w: int, m: int)
    requires
        0 <= m <= w < holders(name_keys(nodes), k).len(),
    ensures
        forall|e: int|
            0 <= e < links_to(nodes, holders(name_keys(nodes), k), w, m).len() ==> justified(
                nodes,
                #[trigger] links_to(nodes, holders(name_keys(nodes), k), w, m)[e],
            ),
        forall|v: int|
            0 <= v < m && nodes[holders(name_keys(nodes), k)[v]].schema != nodes[holders(
                name_keys(nodes),
                k,
            )[w]].schema ==> links_to(nodes, holders(name_keys(nodes), k), w, m).contains(
                (#[trigger] holders(name_keys(nodes), k)[v], holders(name_keys(nodes), k)[w]),
            ),
    decreases m,
{
    let h = holders(name_keys(nodes), k);
    if m > 0 {
        links_to_justified(nodes, k, w, m - 1);
        holders_hold(name_keys(nodes), k);
        let before = links_to(nodes, h, w, m - 1);
        let r = links_to(nodes, h, w, m);
        assert(0 <= h[m - 1] < nodes.len() && 0 <= h[w] < nodes.len());
        assert(name_keys(nodes)[h[m - 1]] == k && name_keys(nodes)[h[w]] == k);
        assert forall|e: int| 0 <= e < r.len() implies justified(nodes, #[trigger] r[e]) by {
            if e < before.len() {
                assert(r[e] == before[e]);
            }
        }
        assert forall|v: int|
            0 <= v < m && nodes[h[v]].schema != nodes[h[w]].schema implies r.contains(
            (#[trigger] h[v], h[w]),
        ) by {
            if v < m - 1 {
                assert(before.contains((h[v], h[w])));
                let x = choose|x: int| 0 <= x < before.len() && before[x] == (h[v], h[w]);
                assert(r[x] == (h[v], h[w]));
            } else {
                assert(r[r.len() - 1] == (h[v], h[w]));
            }
        }
    }
}

proof fn pair_links_justified(nodes: Seq<NodeV>, k: Text, n: int)
    requires
        n <= holders(name_keys(nodes), k).len(),
    ensures
        forall|e: int|
            0 <= e < pair_links(nodes, holders(name_keys(nodes), k), n).len() ==> justified(
                nodes,
                #[trigger] pair_links(nodes, holders(name_keys(nodes), k), n)[e],
            ),
    decreases n,
{
    let h = holders(name_keys(nodes), k);
    if n > 0 {
        pair_links_justified(nodes, k, n - 1);
        links_to_justified(nodes, k, n - 1, n - 1);
        let a = pair_links(nodes, h, n - 1);
        let b = links_to(nodes, h, n - 1, n - 1);
        assert forall|e: int| 0 <= e < (a + b).len() implies justified(
            nodes,
            #[trigger] (a + b)[e],
        ) by {
            if e < a.len() {
                assert((a + b)[e] == a[e]);
            } else {
                assert((a + b)[e] == b[e - a.len()]);
            }
        }
    }
}

/// Each two nodes of a spelling that are in different tables are linked.
proof fn pair_links_complete(nodes: Seq<NodeV>, k: Text, n: int, v: int, w: int)
    requires
        0 <= v < w < n <= holders(name_keys(nodes), k).len(),
        nodes[holders(name_keys(nodes), k)[v]].schema != nodes[holders(
            name_keys(nodes),
            k,
        )[w]].schema,
    ensures
        pair_links(nodes, holders(name_keys(nodes), k), n).contains(
            (holders(name_keys(nodes), k)[v], holders(name_keys(nodes), k)[w]),
        ),
    decreases n,
{
    let h = holders(name_keys(nodes), k);
    let a = pair_links(nodes, h, n - 1);
    let b = links_to(nodes, h, n - 1, n - 1);
    let e = (h[v], h[w]);
    if w < n - 1 {
        pair_links_complete(nodes, k, n - 1, v, w);
        let x = choose|x: int| 0 <= x < a.len() && a[x] == e;
        assert((a + b)[x] == e);
    } else {
        links_to_justified(nodes, k, n - 1, n - 1);
        assert(b.contains((h[v], h[w])));
        let x = choose|x: int| 0 <= x < b.len() && b[x] == e;
        assert((a + b)[a.len() + x] == e);
    }
}

/// The links of a spelling are among the links of all.
proof fn name_links_hold(nodes: Seq<NodeV>, n: int, s: int, e: (int, int))
    requires
        0 <= s < n <= sorted_set(name_keys(nodes)).len(),
        ({
            let h = holders(name_keys(nodes), sorted_set(name_keys(nodes))[s]);
            pair_links(nodes, h, h.len() as int).contains(e)
        }),
    ensures
        name_links(nodes, n).contains(e),
    decreases n,
{
    let h = holders(name_keys(nodes), sorted_set(name_keys(nodes))[n - 1]);
    let a = name_links(nodes, n - 1);
    let b = pair_links(nodes, h, h.len() as int);
    if s < n - 1 {
        name_links_hold(nodes, n - 1, s, e);
        let x = choose|x: int| 0 <= x < a.len() && a[x] == e;
        assert((a + b)[x] == e);
    } else {
        let x = choose|x: int| 0 <= x < b.len() && b[x] == e;
        assert((a + b)[a.len() + x] == e);
    }
}

proof fn name_links_justified(nodes: Seq<NodeV>, n: int)
    ensures
        forall|e: int|
            0 <= e < name_links(nodes, n).len() ==> justified(
                nodes,
                #[trigger] name_links(nodes, n)[e],
            ),
    decreases n,
{
    if n > 0 {
        let k = sorted_set(name_keys(nodes))[n - 1];
        let h = holders(name_keys(nodes), k);
        name_links_justified(nodes, n - 1);
        pair_links_justified(nodes, k, h.len() as int);
        let a = name_links(nodes, n - 1);
        let b = pair_links(nodes, h, h.len() as int);
        assert forall|e: int| 0 <= e < (a + b).len() implies justified(
            nodes,
            #[trigger] (a + b)[e],
        ) by {
            if e < a.len() {
                assert((a + b)[e] == a[e]);
            } else {
                assert((a + b)[e] == b[e - a.len()]);
            }
        }
    }
}

proof fn value_links_at_justified(nodes: Seq<NodeV>, i: int, n: int)
    requires
        0 <= i < nodes.len(),
        n <= nodes.len(),
    ensures
        forall|e: int|
            0 <= e < value_links_at(nodes, i, n).len() ==> justified(
                nodes,
                #[trigger] value_links_at(nodes, i, n)[e],
            ),
        forall|j: int|
            i < j < n && value_link(nodes, i, j) ==> #[trigger] value_links_at(nodes, i, n).contains(
                (i, j),
            ),
    decreases n - i,
{
    if n > i + 1 {
        value_links_at_justified(nodes, i, n - 1);
        let before = value_links_at(nodes, i, n - 1);
        let r = value_links_at(nodes, i, n);
        assert forall|e: int| 0 <= e < r.len() implies justified(nodes, #[trigger] r[e]) by {
            if e < before.len() {
                assert(r[e] == before[e]);
            }
        }
        assert forall|j: int| i < j < n && value_link(nodes, i, j) implies #[trigger] r.contains(
            (i, j),
        ) by {
            if j < n - 1 {
                assert(before.contains((i, j)));
                let k = choose|k: int| 0 <= k < before.len() && before[k] == (i, j);
                assert(r[k] == (i, j));
            } else {
                assert(r[r.len() - 1] == (i, j));
            }
        }
    }
}

proof fn value_links_justified(nodes: Seq<NodeV>, n: int)
    requires
        n <= nodes.len(),
    ensures
        forall|e: int|
            0 <= e < value_links(nodes, n).len() ==> justified(
                nodes,
                #[trigger] value_links(nodes, n)[e],
            ),
        forall|i: int, j: int|
            0 <= i < n && i < j < nodes.len() && value_link(nodes, i, j) ==> #[trigger] value_links(
                nodes,
                n,
            ).contains((i, j)),
    decreases n,
{
    if n > 0 {
        value_links_justified(nodes, n - 1);
        value_links_at_justified(nodes, n - 1, nodes.len() as int);
        let a = value_links(nodes, n - 1);
        let b = value_links_at(nodes, n - 1, nodes.len() as int);
        assert forall|e: int| 0 <= e < (a + b).len() implies justified(
            nodes,
            #[trigger] (a + b)[e],
        ) by {
            if e < a.len() {
                assert((a + b)[e] == a[e]);
            } else {
                assert((a + b)[e] == b[e - a.len()]);
            }
        }
        assert forall|i: int, j: int|
            0 <= i < n && i < j < nodes.len() && value_link(nodes, i, j) implies #[trigger] (a
            + b).contains((i, j)) by {
            if i < n - 1 {
                assert(a.contains((i, j)));
                let k = choose|k: int| 0 <= k < a.len() && a[k] == (i, j);
                assert((a + b)[k] == (i, j));
            } else {
                assert(b.contains((i, j)));
                let k = choose|k: int| 0 <= k < b.len() && b[k] == (i, j);
                assert((a + b)[a.len() + k] == (i, j));
            }
        }
    }
}

/// Columns of one table are never linked directly, and every link between
/// tables rests on a shared spelling or on at least two telling values in
/// common.
pub proof fn links_are_justified(nodes: Seq<NodeV>, e: int)
    requires
        0 <= e < all_links(nodes).len(),
    ensures
        justified(nodes, all_links(nodes)[e]),
{
    let a = links_by_name(nodes);
    let b = links_by_value(nodes);
    name_links_justified(nodes, sorted_set(name_keys(nodes)).len() as int);
    value_links_justified(nodes, nodes.len() as int);
    if e < a.len() {
        assert(all_links(nodes)[e] == a[e]);
    } else {
        assert(all_links(nodes)[e] == b[e - a.len()]);
    }
}

/// Two columns are one key exactly when a chain of links leads from one to
/// the other.
pub proof fn keys_are_linked_columns(nodes: Seq<NodeV>, i: int, j: int)
    requires
        0 <= i < nodes.len(),
        0 <= j < nodes.len(),
    ensures
        key_roots(nodes)[i] == key_roots(nodes)[j] <==> connected(all_links(nodes), i, j),
{
    let edges = all_links(nodes);
    assert(edges_within(edges, nodes.len() as int)) by {
        assert forall|e: int| 0 <= e < edges.len() implies 0 <= (#[trigger] edges[e]).0
            < nodes.len() && 0 <= edges[e].1 < nodes.len() by {
            links_are_justified(nodes, e);
        }
    }
    sets_are_components(nodes.len(), edges, i, j);
}

/// Two columns that a link joins are one key.
proof fn linked_columns_are_one_key(nodes: Seq<NodeV>, i: int, j: int)
    requires
        0 <= i < nodes.len(),
        0 <= j < nodes.len(),
        all_links(nodes).contains((i, j)),
    ensures
        key_roots(nodes)[i] == key_roots(nodes)[j],
{
    assert(touches(all_links(nodes), i, j));
    assert(reaches(all_links(nodes), j, j, 0));
    assert(reaches(all_links(nodes), i, j, 1));
    keys_are_linked_columns(nodes, i, j);
}

/// Columns of one spelling in different tables are one key.
pub proof fn same_spelling_makes_a_key(nodes: Seq<NodeV>, i: int, j: int)
    requires
        0 <= i < nodes.len(),
        0 <= j < nodes.len(),
        nodes[i].name_key == nodes[j].name_key,
        nodes[i].schema != nodes[j].schema,
    ensures
        key_roots(nodes)[i] == key_roots(nodes)[j],
    decreases i,
{
    if i > j {
        same_spelling_makes_a_key(nodes, j, i);
    } else {
        let keys = name_keys(nodes);
        let k = nodes[i].name_key;
        let set = sorted_set(keys);
        assert(keys[i] == k && keys[j] == k);
        sorted_set_holds(keys);
        assert(keys.contains(k));
        assert(set.contains(k));
        let s = choose|s: int| 0 <= s < set.len() && set[s] == k;
        let h = holders(keys, k);
        holders_hold(keys, k);
        holders_have(keys, k, i);
        holders_have(keys, k, j);
        let v = choose|v: int| 0 <= v < h.len() && h[v] == i;
        let w = choose|w: int| 0 <= w < h.len() && h[w] == j;
        if w < v {
            assert(h[w] < h[v]);
        }
        pair_links_complete(nodes, k, h.len() as int, v, w);
        name_links_hold(nodes, set.len() as int, s, (i, j));
        let a = links_by_name(nodes);
        let x = choose|x: int| 0 <= x < a.len() && a[x] == (i, j);
        assert(all_links(nodes)[x] == (i, j));
        linked_columns_are_one_key(nodes, i, j);
    }
}

proof fn spelling_changes_on_a_value_link(nodes: Seq<NodeV>, i: int, j: int, steps: nat)
    requires
        0 <= i < nodes.len(),
        0 <= j < nodes.len(),
        reaches(all_links(nodes), i, j, steps),
        nodes[i].name_key != nodes[j].name_key,
    ensures
        exists|a: int, b: int|
            0 <= a < nodes.len() && 0 <= b < nodes.len() && #[trigger] value_link(nodes, a, b)
                && key_roots(nodes)[a] == key_roots(nodes)[i] && key_roots(nodes)[b]
                == key_roots(nodes)[i],
    decreases steps,
{
    let edges = all_links(nodes);
    let k = choose|k: int| #[trigger] touches(edges, i, k) && reaches(edges, k, j, (steps - 1) as nat);
    let (a, b) = if edges.contains((i, k)) {
        (i, k)
    } else {
        (k, i)
    };
    let e = choose|e: int| 0 <= e < edges.len() && edges[e] == (a, b);
    links_are_justified(nodes, e);
    linked_columns_are_one_key(nodes, a, b);
    if nodes[i].name_key == nodes[k].name_key {
        spelling_changes_on_a_value_link(nodes, k, j, (steps - 1) as nat);
    } else {
        assert(value_link(nodes, a, b));
    }
}

/// Only values connect columns of different spellings: where they are one
/// key, two columns of that key share telling values.
pub proof fn values_connect_different_spellings(nodes: Seq<NodeV>, i: int, j: int)
    requires
        0 <= i < nodes.len(),
        0 <= j < nodes.len(),
        key_roots(nodes)[i] == key_roots(nodes)[j],
        nodes[i].name_key != nodes[j].name_key,
    ensures
        exists|a: int, b: int|
            0 <= a < nodes.len() && 0 <= b < nodes.len() && #[trigger] value_link(nodes, a, b)
                && key_roots(nodes)[a] == key_roots(nodes)[i] && key_roots(nodes)[b]
                == key_roots(nodes)[i],
{
    keys_are_linked_columns(nodes, i, j);
    let steps = choose|steps: nat| reaches(all_links(nodes), i, j, steps);
    spelling_changes_on_a_value_link(nodes, i, j, steps);
}

/// Columns of different tables that share two telling values are one key,
/// however they are spelled.
pub proof fn shared_values_make_a_key(nodes: Seq<NodeV>, i: int, j: int)
    requires
        0 <= i < j < nodes.len(),
        value_link(nodes, i, j),
    ensures
        key_roots(nodes)[i] == key_roots(nodes)[j],
{
    let a = links_by_name(nodes);
    let b = links_by_value(nodes);
    value_links_justified(nodes, nodes.len() as int);
    assert(b.contains((i, j)));
    let k = choose|k: int| 0 <= k < b.len() && b[k] == (i, j);
    assert(all_links(nodes)[a.len() + k] == (i, j));
    linked_columns_are_one_key(nodes, i, j);
}

// ── What holds of the columns ─────────────────────────────────────────────

proof fn long_values_filter(values: Seq<Text>)
    ensures
        long_values(values) == values.filter(|v: Text| byte_len(v) >= 8),
    decreases values.len(),
{
    reveal(Seq::filter);
    if values.len() > 0 {
        long_values_filter(values.drop_last());
    }
}

/// A column carries the name, the kind and the counts of its own field and
/// table. It links on the values of eight bytes or more, and is taken for an
/// identifier when more than half of its values look like one.
pub proof fn columns_carry_their_own_facts(schema: int, t: TableV, f: FieldV)
    ensures
        ({
            let n = node_of(schema, t, f);
            &&& n.schema == schema && n.table == t.table && n.field == f.name && n.kind == f.kind
            &&& n.name_key == lowered(f.name)
            &&& n.seen_in == f.seen_in && n.sampled_rows == t.sampled_rows && n.distinct
                == f.distinct
            &&& n.linkable == f.values.filter(|v: Text| byte_len(v) >= 8)
            &&& n.id_shaped <==> 2 * f.values.filter(|v: Text| identifier_like(v)).len()
                > f.values.len()
            &&& n.well_known <==> well_known_key(lowered(f.name))
            &&& t.sampled_rows > 0 && 0 <= f.seen_in <= t.sampled_rows ==> n.fill * t.sampled_rows
                <= f.seen_in * SHARE_ONE < (n.fill + 1) * t.sampled_rows
            &&& f.seen_in > 0 && 0 <= f.distinct <= f.seen_in ==> n.distinct_ratio * f.seen_in
                <= f.distinct * SHARE_ONE < (n.distinct_ratio + 1) * f.seen_in
        }),
{
    long_values_filter(f.values);
    tally_is_filter(f.values, |v: Text| identifier_like(v));
    if t.sampled_rows > 0 && 0 <= f.seen_in <= t.sampled_rows {
        share_is_nearest_below(f.seen_in, t.sampled_rows);
    }
    if f.seen_in > 0 && 0 <= f.distinct <= f.seen_in {
        share_is_nearest_below(f.distinct, f.seen_in);
    }
}

proof fn table_nodes_filter(schema: int, t: TableV, fields: Seq<FieldV>)
    ensures
        table_nodes(schema, t, fields) == fields.filter(
            |f: FieldV|
                !system_column(f.name) && (f.types.contains("string"@) || f.types.contains(
                    "number"@,
                )),
        ).map_values(|f: FieldV| node_of(schema, t, f)),
    decreases fields.len(),
{
    reveal(Seq::filter);
    let p = |f: FieldV|
        !system_column(f.name) && (f.types.contains("string"@) || f.types.contains("number"@));
    let g = |f: FieldV| node_of(schema, t, f);
    if fields.len() > 0 {
        table_nodes_filter(schema, t, fields.drop_last());
        let part = fields.drop_last().filter(p);
        if p(fields.last()) {
            assert(part.push(fields.last()).map_values(g) =~= part.map_values(g).push(
                g(fields.last()),
            ));
        }
    } else {
        assert(fields.filter(p).map_values(g) =~= Seq::empty());
    }
}

/// Each table adds its scalar columns that are not injected, in order, under
/// its own number; every column so comes in once.
pub proof fn every_table_adds_its_columns(schemas: Seq<TableV>, t: TableV)
    ensures
        nodes_of(Seq::empty()).len() == 0,
        nodes_of(schemas.push(t)) == nodes_of(schemas) + t.fields.filter(
            |f: FieldV|
                !system_column(f.name) && (f.types.contains("string"@) || f.types.contains(
                    "number"@,
                )),
        ).map_values(|f: FieldV| node_of(schemas.len() as int, t, f)),
{
    assert(schemas.push(t).drop_last() =~= schemas);
    table_nodes_filter(schemas.len() as int, t, t.fields);
}

proof fn carriers_count(nodes: Seq<NodeV>, v: Text)
    ensures
        carriers(nodes, v).len() == nodes.filter(|n: NodeV| n.linkable.contains(v)).len(),
    decreases nodes.len(),
{
    reveal(Seq::filter);
    if nodes.len() > 0 {
        carriers_count(nodes.drop_last(), v);
    }
}

/// Two columns are one key by their values exactly when they stand in
/// different tables and two values or more are in both that are in
/// thirty-two columns at most.
pub proof fn values_link_across_tables(nodes: Seq<NodeV>, i: int, j: int)
    requires
        0 <= i < nodes.len(),
        0 <= j < nodes.len(),
        i != j,
    ensures
        value_link(nodes, i, j) <==> nodes[i].schema != nodes[j].schema && nodes[i].linkable.filter(
            |v: Text|
                nodes[j].linkable.contains(v) && nodes.filter(
                    |n: NodeV| n.linkable.contains(v),
                ).len() <= 32,
        ).len() >= 2,
{
    let p = |v: Text| telling(nodes, v) && nodes[j].linkable.contains(v);
    let q = |v: Text|
        nodes[j].linkable.contains(v) && nodes.filter(|n: NodeV| n.linkable.contains(v)).len()
            <= 32;
    let s = nodes[i].linkable;
    tally_is_filter(s, p);
    assert forall|k: int| 0 <= k < s.len() implies p(#[trigger] s[k]) == q(s[k]) by {
        let v = s[k];
        carriers_count(nodes, v);
        if nodes[j].linkable.contains(v) {
            carriers_hold(nodes, v);
            let c = carriers(nodes, v);
            assert(nodes[i].linkable.contains(v));
            assert(c.contains(i) && c.contains(j));
            let a = choose|a: int| 0 <= a < c.len() && c[a] == i;
            let b = choose|b: int| 0 <= b < c.len() && c[b] == j;
            assert(a != b);
        }
    }
    filters_agree(s, p, q);
}

proof fn filters_agree(s: Seq<Text>, p: spec_fn(Text) -> bool, q: spec_fn(Text) -> bool)
    requires
        forall|k: int| 0 <= k < s.len() ==> p(#[trigger] s[k]) == q(s[k]),
    ensures
        s.filter(p) == s.filter(q),
    decreases s.len(),
{
    reveal(Seq::filter);
    if s.len() > 0 {
        let short = s.drop_last();
        assert forall|k: int| 0 <= k < short.len() implies p(#[trigger] short[k]) == q(
            short[k],
        ) by {
            assert(short[k] == s[k]);
        }
        filters_agree(short, p, q);
        assert(p(s[s.len() - 1]) == q(s[s.len() - 1]));
    }
}

// ── What holds of the groups ──────────────────────────────────────────────

proof fn roots_within(n: nat, edges: Seq<(int, int)>)
    requires
        edges_within(edges, n as int),
    ensures
        joined_by(apart(n), edges).len() == n,
        forall|i: int| 0 <= i < n ==> 0 <= #[trigger] joined_by(apart(n), edges)[i] < n,
    decreases edges.len(),
{
    if edges.len() > 0 {
        let short = edges.drop_last();
        assert(edges_within(short, n as int)) by {
            assert forall|e: int| 0 <= e < short.len() implies 0 <= (#[trigger] short[e]).0 < n
                && 0 <= short[e].1 < n by {
                assert(short[e] == edges[e]);
            }
        }
        roots_within(n, short);
        let last = edges[edges.len() - 1];
        assert(0 <= last.0 < n && 0 <= last.1 < n);
        let before = joined_by(apart(n), short);
        assert(0 <= before[last.0] < n);
    }
}

proof fn set_of_has(roots: Seq<int>, i: int)
    requires
        0 <= i < roots.len(),
    ensures
        set_of(roots, roots[i]).contains(i),
    decreases roots.len(),
{
    let r = roots[i];
    let all = set_of(roots, r);
    if i == roots.len() - 1 {
        assert(all[all.len() - 1] == i);
    } else {
        let short = roots.drop_last();
        set_of_has(short, i);
        assert(short[i] == r);
        let before = set_of(short, r);
        let k = choose|k: int| 0 <= k < before.len() && before[k] == i;
        assert(all[k] == i);
    }
}

proof fn sets_of_has(roots: Seq<int>, n: int, r: int) -> (g: int)
    requires
        0 <= r < n,
        set_of(roots, r).len() > 0,
    ensures
        0 <= g < sets_of(roots, n).len(),
        sets_of(roots, n)[g] == set_of(roots, r),
    decreases n,
{
    if r == n - 1 {
        sets_of(roots, n).len() - 1
    } else {
        sets_of_has(roots, n - 1, r)
    }
}

/// Every column is in a group, and with it exactly the columns that a chain
/// of links leads to. Gives the group.
pub proof fn every_column_is_in_a_group(nodes: Seq<NodeV>, i: int) -> (g: int)
    requires
        0 <= i < nodes.len(),
    ensures
        0 <= g < key_groups(nodes).len(),
        key_groups(nodes)[g].contains(i),
        forall|j: int|
            0 <= j < nodes.len() ==> (#[trigger] key_groups(nodes)[g].contains(j) <==> connected(
                all_links(nodes),
                i,
                j,
            )),
{
    let edges = all_links(nodes);
    let n = nodes.len();
    assert(edges_within(edges, n as int)) by {
        assert forall|e: int| 0 <= e < edges.len() implies 0 <= (#[trigger] edges[e]).0 < n && 0
            <= edges[e].1 < n by {
            links_are_justified(nodes, e);
        }
    }
    roots_within(n, edges);
    let roots = key_roots(nodes);
    let r = roots[i];
    assert(0 <= r < n);
    set_of_has(roots, i);
    let g = sets_of_has(roots, n as int, r);
    let s = set_of(roots, r);
    set_of_within(roots, r);
    assert forall|j: int| 0 <= j < n implies (#[trigger] key_groups(nodes)[g].contains(j)
        <==> connected(edges, i, j)) by {
        keys_are_linked_columns(nodes, i, j);
        if s.contains(j) {
            let k = choose|k: int| 0 <= k < s.len() && s[k] == j;
            assert(roots[s[k]] == r);
        }
        if roots[j] == r {
            set_of_has(roots, j);
        }
    }
    g
}

/// Columns of different tables are in one group as soon as they are spelled
/// alike, or share two values that are in thirty-two columns at most.
pub proof fn spelling_or_values_put_columns_together(nodes: Seq<NodeV>, i: int, j: int, g: int)
    requires
        0 <= i < j < nodes.len(),
        nodes[i].schema != nodes[j].schema,
        nodes[i].name_key == nodes[j].name_key || nodes[i].linkable.filter(
            |v: Text|
                nodes[j].linkable.contains(v) && nodes.filter(
                    |n: NodeV| n.linkable.contains(v),
                ).len() <= 32,
        ).len() >= 2,
        0 <= g < key_groups(nodes).len(),
        key_groups(nodes)[g].contains(i),
    ensures
        key_groups(nodes)[g].contains(j),
{
    values_link_across_tables(nodes, i, j);
    if nodes[i].name_key == nodes[j].name_key {
        same_spelling_makes_a_key(nodes, i, j);
    } else {
        shared_values_make_a_key(nodes, i, j);
    }
    let roots = key_roots(nodes);
    let r = set_at(roots, nodes.len() as int, g);
    let s = set_of(roots, r);
    set_of_within(roots, r);
    let k = choose|k: int| 0 <= k < s.len() && s[k] == i;
    assert(roots[s[k]] == r);
    roots_len(nodes.len(), all_links(nodes));
    set_of_has(roots, j);
}

} // verus!
