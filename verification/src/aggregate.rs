//! Joining, grouping and rounding the three window results.
//!
//! The minutely result set enumerates the instances that appear in the
//! output. Each instance takes its hourly and daily readings from the
//! other two windows, zero standing in for a missing one; instances are
//! grouped by resolved node name; each node reports the maximum reading
//! per window, rounded to tenths for the minutely and daily windows and
//! to whole degrees for the hourly window; and the records come out
//! sorted by node name.

use vstd::prelude::*;
use crate::mapping::{blade_name_of, names_of};
use crate::number::{
    decimal_ok, decimal_scaled, lemma_decimal_scaled_bound, parse_scaled, round_half_away,
    round_to_unit, VALUE_BOUND,
};
use crate::sample::{label_of, MetricSample};
use crate::table::StrTable;
use crate::text::{lemma_lex_lt_trans, lex_cmp, lex_lt, Order};

verus! {

/// One output record: a node and its rounded window maxima, the
/// minutely and daily readings in tenths of a degree, the hourly one in
/// whole degrees.
pub struct TemperatureMeasurement {
    pub node: String,
    pub minutely_tenths: i64,
    pub hourly_degrees: i64,
    pub daily_tenths: i64,
}

/// The per-instance reading table a result set yields: rows with an
/// instance label and a well-formed value, later rows overriding earlier
/// ones.
pub open spec fn temps_of(rows: Seq<MetricSample>) -> Map<Seq<char>, i64>
    decreases rows.len(),
{
    if rows.len() == 0 {
        Map::empty()
    } else {
        let m = temps_of(rows.drop_last());
        let r = rows.last();
        if label_of(r.labels@, "instance"@) is Some && decimal_ok(r.value@) {
            m.insert(label_of(r.labels@, "instance"@).unwrap(), decimal_scaled(r.value@) as i64)
        } else {
            m
        }
    }
}

/// Every stored reading fits the fixed-point range.
pub proof fn lemma_temps_of_bounded(rows: Seq<MetricSample>, k: Seq<char>)
    requires
        temps_of(rows).contains_key(k),
    ensures
        -VALUE_BOUND < temps_of(rows)[k] < VALUE_BOUND,
    decreases rows.len(),
{
    if rows.len() > 0 {
        let r = rows.last();
        if label_of(r.labels@, "instance"@) is Some && decimal_ok(r.value@) && label_of(
            r.labels@,
            "instance"@,
        ).unwrap() == k {
            lemma_decimal_scaled_bound(r.value@);
        } else {
            lemma_temps_of_bounded(rows.drop_last(), k);
        }
    }
}

/// An instance's reading in a window table, zero when the window lacks
/// it.
pub open spec fn val_or_zero(m: Map<Seq<char>, i64>, k: Seq<char>) -> int {
    if m.contains_key(k) {
        m[k] as int
    } else {
        0
    }
}

/// `v` is the largest reading of window `win` over the instances of
/// `mm` that resolve to `node`, and some such instance attains it.
pub open spec fn node_window_max(
    mm: Map<Seq<char>, i64>,
    win: Map<Seq<char>, i64>,
    nm: Map<Seq<char>, Seq<char>>,
    node: Seq<char>,
    v: int,
) -> bool {
    &&& (exists|k: Seq<char>|
        #[trigger] mm.contains_key(k) && blade_name_of(k, nm) == node && val_or_zero(win, k) == v)
    &&& (forall|k: Seq<char>|
        #[trigger] mm.contains_key(k) && blade_name_of(k, nm) == node ==> val_or_zero(win, k) <= v)
}

/// The record for `t.node` reports the rounded per-window maxima.
pub open spec fn measurement_ok(
    t: TemperatureMeasurement,
    mm: Map<Seq<char>, i64>,
    hm: Map<Seq<char>, i64>,
    dm: Map<Seq<char>, i64>,
    nm: Map<Seq<char>, Seq<char>>,
) -> bool {
    &&& (exists|v: int|
        #[trigger] node_window_max(mm, mm, nm, t.node@, v) && t.minutely_tenths as int
            == round_half_away(v, 1000))
    &&& (exists|v: int|
        #[trigger] node_window_max(mm, hm, nm, t.node@, v) && t.hourly_degrees as int
            == round_half_away(v, 10000))
    &&& (exists|v: int|
        #[trigger] node_window_max(mm, dm, nm, t.node@, v) && t.daily_tenths as int
            == round_half_away(v, 1000))
}

/// Some instance of `mm` resolves to `node`.
pub open spec fn node_present(
    mm: Map<Seq<char>, i64>,
    nm: Map<Seq<char>, Seq<char>>,
    node: Seq<char>,
) -> bool {
    exists|k: Seq<char>| #[trigger] mm.contains_key(k) && blade_name_of(k, nm) == node
}

/// Some record of `out` carries `node`.
pub open spec fn node_listed(out: Seq<TemperatureMeasurement>, node: Seq<char>) -> bool {
    exists|a: int| 0 <= a < out.len() && out[a].node@ == node
}

/// What the aggregation owes: records sorted strictly by node name, one
/// node per instance set and one instance set per node, each record the
/// rounded per-window maxima of its node's group.
pub open spec fn output_ok(
    out: Seq<TemperatureMeasurement>,
    mm: Map<Seq<char>, i64>,
    hm: Map<Seq<char>, i64>,
    dm: Map<Seq<char>, i64>,
    nm: Map<Seq<char>, Seq<char>>,
) -> bool {
    &&& (forall|a: int, b: int| 0 <= a < b < out.len() ==> lex_lt(out[a].node@, out[b].node@))
    &&& (forall|a: int| 0 <= a < out.len() ==> node_present(mm, nm, #[trigger] out[a].node@))
    &&& (forall|k: Seq<char>|
        #[trigger] mm.contains_key(k) ==> node_listed(out, blade_name_of(k, nm)))
    &&& (forall|a: int| 0 <= a < out.len() ==> measurement_ok(#[trigger] out[a], mm, hm, dm, nm))
}

/// A node no minutely instance resolves to has no record, whatever the
/// hourly and daily windows hold of it.
pub proof fn lemma_absent_node_unlisted(
    out: Seq<TemperatureMeasurement>,
    mm: Map<Seq<char>, i64>,
    hm: Map<Seq<char>, i64>,
    dm: Map<Seq<char>, i64>,
    nm: Map<Seq<char>, Seq<char>>,
    node: Seq<char>,
)
    requires
        output_ok(out, mm, hm, dm, nm),
        !node_present(mm, nm, node),
    ensures
        !node_listed(out, node),
{
    if node_listed(out, node) {
        let a = choose|a: int| 0 <= a < out.len() && out[a].node@ == node;
        assert(node_present(mm, nm, out[a].node@));
    }
}

/// Each node name carries at most one record; in particular all
/// unmapped instances share the single sentinel record.
pub proof fn lemma_one_record_per_node(
    out: Seq<TemperatureMeasurement>,
    mm: Map<Seq<char>, i64>,
    hm: Map<Seq<char>, i64>,
    dm: Map<Seq<char>, i64>,
    nm: Map<Seq<char>, Seq<char>>,
    a: int,
    b: int,
)
    requires
        output_ok(out, mm, hm, dm, nm),
        0 <= a < out.len(),
        0 <= b < out.len(),
        a != b,
    ensures
        out[a].node@ != out[b].node@,
{
    if a < b {
        assert(lex_lt(out[a].node@, out[b].node@));
    } else {
        assert(lex_lt(out[b].node@, out[a].node@));
    }
}

/// Builds the instance-to-reading table of one window's result set.
#[verifier::loop_isolation(false)]
pub fn temps_from_rows(rows: &Vec<MetricSample>) -> (t: StrTable<i64>)
    ensures
        t.wf(),
        t@ == temps_of(rows@),
{
    let mut t: StrTable<i64> = StrTable::new();
    let n = rows.len();
    proof {
        assert(rows@.take(0) =~= Seq::<MetricSample>::empty());
    }
    let mut i: usize = 0;
    while i < n
        invariant
            0 <= i <= n,
            t.wf(),
            t@ == temps_of(rows@.take(i as int)),
        decreases n - i,
    {
        proof {
            assert(rows@.take(i + 1).drop_last() =~= rows@.take(i as int));
            assert(rows@.take(i + 1).last() == rows@[i as int]);
        }
        let row = &rows[i];
        if let Some(inst) = row.label("instance") {
            match parse_scaled(row.value.as_str()) {
                Some(v) => {
                    proof {
                        assert(v == decimal_scaled(row.value@) as i64);
                    }
                    t.insert(inst.clone(), v);
                },
                None => {},
            }
        }
        i += 1;
    }
    proof {
        assert(rows@.take(n as int) =~= rows@);
    }
    t
}

/// Working record for one node while grouping.
struct NodeAcc {
    node: String,
    minutely: i64,
    hourly: i64,
    daily: i64,
}

/// Strictly sorted by node name.
spec fn acc_sorted(accs: Seq<NodeAcc>) -> bool {
    forall|a: int, b: int| 0 <= a < b < accs.len() ==> lex_lt(accs[a].node@, accs[b].node@)
}

/// All components in the fixed-point range.
spec fn acc_bounded(accs: Seq<NodeAcc>) -> bool {
    forall|a: int|
        0 <= a < accs.len() ==> (-VALUE_BOUND <= (#[trigger] accs[a]).minutely <= VALUE_BOUND
            && -VALUE_BOUND <= accs[a].hourly <= VALUE_BOUND && -VALUE_BOUND <= accs[a].daily
            <= VALUE_BOUND)
}

/// Some working record carries `node`.
spec fn acc_has(accs: Seq<NodeAcc>, node: Seq<char>) -> bool {
    exists|a: int| 0 <= a < accs.len() && accs[a].node@ == node
}

/// The record carries, per window, the maximum over the first `upto`
/// stored pairs that resolve to its node, attained by one of them.
spec fn entry_max_ok(
    e: NodeAcc,
    pairs: Seq<(String, i64)>,
    upto: int,
    hm: Map<Seq<char>, i64>,
    dm: Map<Seq<char>, i64>,
    nm: Map<Seq<char>, Seq<char>>,
) -> bool {
    &&& (exists|j: int|
        0 <= j < upto && blade_name_of((#[trigger] pairs[j]).0@, nm) == e.node@ && pairs[j].1
            == e.minutely)
    &&& (forall|j: int|
        0 <= j < upto && blade_name_of((#[trigger] pairs[j]).0@, nm) == e.node@ ==> pairs[j].1
            <= e.minutely)
    &&& (exists|j: int|
        0 <= j < upto && blade_name_of((#[trigger] pairs[j]).0@, nm) == e.node@ && val_or_zero(
            hm,
            pairs[j].0@,
        ) == e.hourly as int)
    &&& (forall|j: int|
        0 <= j < upto && blade_name_of((#[trigger] pairs[j]).0@, nm) == e.node@ ==> val_or_zero(
            hm,
            pairs[j].0@,
        ) <= e.hourly as int)
    &&& (exists|j: int|
        0 <= j < upto && blade_name_of((#[trigger] pairs[j]).0@, nm) == e.node@ && val_or_zero(
            dm,
            pairs[j].0@,
        ) == e.daily as int)
    &&& (forall|j: int|
        0 <= j < upto && blade_name_of((#[trigger] pairs[j]).0@, nm) == e.node@ ==> val_or_zero(
            dm,
            pairs[j].0@,
        ) <= e.daily as int)
}

/// A record for another node keeps its meaning when one more pair is
/// taken in.
proof fn lemma_entry_extend(
    e: NodeAcc,
    pairs: Seq<(String, i64)>,
    upto: int,
    hm: Map<Seq<char>, i64>,
    dm: Map<Seq<char>, i64>,
    nm: Map<Seq<char>, Seq<char>>,
)
    requires
        entry_max_ok(e, pairs, upto, hm, dm, nm),
        0 <= upto < pairs.len(),
        blade_name_of(pairs[upto].0@, nm) != e.node@,
    ensures
        entry_max_ok(e, pairs, upto + 1, hm, dm, nm),
{
    let j1 = choose|j: int|
        0 <= j < upto && blade_name_of((#[trigger] pairs[j]).0@, nm) == e.node@ && pairs[j].1
            == e.minutely;
    assert(0 <= j1 < upto + 1 && blade_name_of(pairs[j1].0@, nm) == e.node@ && pairs[j1].1
        == e.minutely);
    let j2 = choose|j: int|
        0 <= j < upto && blade_name_of((#[trigger] pairs[j]).0@, nm) == e.node@ && val_or_zero(
            hm,
            pairs[j].0@,
        ) == e.hourly as int;
    assert(0 <= j2 < upto + 1 && blade_name_of(pairs[j2].0@, nm) == e.node@ && val_or_zero(
        hm,
        pairs[j2].0@,
    ) == e.hourly as int);
    let j3 = choose|j: int|
        0 <= j < upto && blade_name_of((#[trigger] pairs[j]).0@, nm) == e.node@ && val_or_zero(
            dm,
            pairs[j].0@,
        ) == e.daily as int;
    assert(0 <= j3 < upto + 1 && blade_name_of(pairs[j3].0@, nm) == e.node@ && val_or_zero(
        dm,
        pairs[j3].0@,
    ) == e.daily as int);
}

/// Taking the pair at `upto` into the record of its own node keeps the
/// record's meaning: each component becomes the larger of the two.
proof fn lemma_entry_merge(
    olde: NodeAcc,
    newe: NodeAcc,
    pairs: Seq<(String, i64)>,
    upto: int,
    hm: Map<Seq<char>, i64>,
    dm: Map<Seq<char>, i64>,
    nm: Map<Seq<char>, Seq<char>>,
    v: i64,
    h: i64,
    d: i64,
)
    requires
        entry_max_ok(olde, pairs, upto, hm, dm, nm),
        0 <= upto < pairs.len(),
        blade_name_of(pairs[upto].0@, nm) == olde.node@,
        newe.node@ == olde.node@,
        v == pairs[upto].1,
        h as int == val_or_zero(hm, pairs[upto].0@),
        d as int == val_or_zero(dm, pairs[upto].0@),
        newe.minutely == if v > olde.minutely {
            v
        } else {
            olde.minutely
        },
        newe.hourly == if h > olde.hourly {
            h
        } else {
            olde.hourly
        },
        newe.daily == if d > olde.daily {
            d
        } else {
            olde.daily
        },
    ensures
        entry_max_ok(newe, pairs, upto + 1, hm, dm, nm),
{
    if v > olde.minutely {
        assert(0 <= upto < upto + 1 && blade_name_of(pairs[upto].0@, nm) == newe.node@
            && pairs[upto].1 == newe.minutely);
    } else {
        let j1 = choose|j: int|
            0 <= j < upto && blade_name_of((#[trigger] pairs[j]).0@, nm) == olde.node@
                && pairs[j].1 == olde.minutely;
        assert(0 <= j1 < upto + 1 && blade_name_of(pairs[j1].0@, nm) == newe.node@ && pairs[j1].1
            == newe.minutely);
    }
    if h > olde.hourly {
        assert(0 <= upto < upto + 1 && blade_name_of(pairs[upto].0@, nm) == newe.node@
            && val_or_zero(hm, pairs[upto].0@) == newe.hourly as int);
    } else {
        let j2 = choose|j: int|
            0 <= j < upto && blade_name_of((#[trigger] pairs[j]).0@, nm) == olde.node@
                && val_or_zero(hm, pairs[j].0@) == olde.hourly as int;
        assert(0 <= j2 < upto + 1 && blade_name_of(pairs[j2].0@, nm) == newe.node@ && val_or_zero(
            hm,
            pairs[j2].0@,
        ) == newe.hourly as int);
    }
    if d > olde.daily {
        assert(0 <= upto < upto + 1 && blade_name_of(pairs[upto].0@, nm) == newe.node@
            && val_or_zero(dm, pairs[upto].0@) == newe.daily as int);
    } else {
        let j3 = choose|j: int|
            0 <= j < upto && blade_name_of((#[trigger] pairs[j]).0@, nm) == olde.node@
                && val_or_zero(dm, pairs[j].0@) == olde.daily as int;
        assert(0 <= j3 < upto + 1 && blade_name_of(pairs[j3].0@, nm) == newe.node@ && val_or_zero(
            dm,
            pairs[j3].0@,
        ) == newe.daily as int);
    }
}

/// A record made from the pair at `upto` alone carries that pair's
/// readings, when no earlier pair resolves to its node.
proof fn lemma_entry_fresh(
    e: NodeAcc,
    pairs: Seq<(String, i64)>,
    upto: int,
    hm: Map<Seq<char>, i64>,
    dm: Map<Seq<char>, i64>,
    nm: Map<Seq<char>, Seq<char>>,
)
    requires
        0 <= upto < pairs.len(),
        e.node@ == blade_name_of(pairs[upto].0@, nm),
        e.minutely == pairs[upto].1,
        e.hourly as int == val_or_zero(hm, pairs[upto].0@),
        e.daily as int == val_or_zero(dm, pairs[upto].0@),
        forall|j: int|
            0 <= j < upto ==> blade_name_of((#[trigger] pairs[j]).0@, nm) != e.node@,
    ensures
        entry_max_ok(e, pairs, upto + 1, hm, dm, nm),
{
    assert(0 <= upto < upto + 1 && blade_name_of(pairs[upto].0@, nm) == e.node@ && pairs[upto].1
        == e.minutely);
    assert(0 <= upto < upto + 1 && blade_name_of(pairs[upto].0@, nm) == e.node@ && val_or_zero(
        hm,
        pairs[upto].0@,
    ) == e.hourly as int);
    assert(0 <= upto < upto + 1 && blade_name_of(pairs[upto].0@, nm) == e.node@ && val_or_zero(
        dm,
        pairs[upto].0@,
    ) == e.daily as int);
}

/// Where `node` sits among the sorted working records: either its own
/// record's index, or the index where it belongs.
#[verifier::loop_isolation(false)]
fn find_position(acc: &Vec<NodeAcc>, node: &str) -> (r: (usize, bool))
    requires
        acc_sorted(acc@),
    ensures
        r.0 <= acc@.len(),
        r.1 ==> r.0 < acc@.len() && acc@[r.0 as int].node@ == node@,
        forall|a: int| 0 <= a < r.0 ==> lex_lt(acc@[a].node@, node@),
        !r.1 ==> forall|a: int| r.0 <= a < acc@.len() ==> lex_lt(node@, acc@[a].node@),
    decreases acc@.len(),
{
    let n = acc.len();
    let mut p: usize = 0;
    while p < n
        invariant
            0 <= p <= n,
            forall|a: int| 0 <= a < p ==> lex_lt(acc@[a].node@, node@),
        decreases n - p,
    {
        match lex_cmp(acc[p].node.as_str(), node) {
            Order::Less => {
                p += 1;
            },
            Order::Equal => {
                return (p, true);
            },
            Order::Greater => {
                proof {
                    assert forall|a: int| p <= a < acc@.len() implies lex_lt(
                        node@,
                        acc@[a].node@,
                    ) by {
                        if a > p {
                            lemma_lex_lt_trans(node@, acc@[p as int].node@, acc@[a].node@);
                        }
                    }
                }
                return (p, false);
            },
        }
    }
    (p, false)
}

/// Joins the three window results, groups by node, takes maxima, rounds
/// and sorts.
#[verifier::loop_isolation(false)]
#[verifier::rlimit(60)]
pub fn aggregate_measurements(
    minutely: &Vec<MetricSample>,
    hourly: &Vec<MetricSample>,
    daily: &Vec<MetricSample>,
    ip_to_node_map: &StrTable<String>,
) -> (out: Vec<TemperatureMeasurement>)
    requires
        ip_to_node_map.wf(),
    ensures
        output_ok(
            out@,
            temps_of(minutely@),
            temps_of(hourly@),
            temps_of(daily@),
            names_of(ip_to_node_map@),
        ),
{
    let mt = temps_from_rows(minutely);
    let ht = temps_from_rows(hourly);
    let dt = temps_from_rows(daily);
    let ghost mm = mt@;
    let ghost hm = ht@;
    let ghost dm = dt@;
    let ghost nm = names_of(ip_to_node_map@);
    let ghost pairs = mt.pairs();

    let mut acc: Vec<NodeAcc> = Vec::new();
    let n = mt.len();
    let mut i: usize = 0;
    while i < n
        invariant
            0 <= i <= n,
            acc_sorted(acc@),
            acc_bounded(acc@),
            forall|j: int|
                0 <= j < i ==> acc_has(acc@, blade_name_of((#[trigger] pairs[j]).0@, nm)),
            forall|a: int|
                0 <= a < acc@.len() ==> entry_max_ok(#[trigger] acc@[a], pairs, i as int, hm, dm, nm),
        decreases n - i,
    {
        let inst = mt.key_at(i);
        let v: i64 = *mt.val_at(i);
        let h: i64 = match ht.get(inst.as_str()) {
            Some(r) => *r,
            None => 0,
        };
        let d: i64 = match dt.get(inst.as_str()) {
            Some(r) => *r,
            None => 0,
        };
        proof {
            mt.lemma_index_to_map(i as int);
            lemma_temps_of_bounded(minutely@, pairs[i as int].0@);
            assert(v == pairs[i as int].1);
            assert(h as int == val_or_zero(hm, pairs[i as int].0@));
            assert(d as int == val_or_zero(dm, pairs[i as int].0@));
            if hm.contains_key(pairs[i as int].0@) {
                lemma_temps_of_bounded(hourly@, pairs[i as int].0@);
            }
            if dm.contains_key(pairs[i as int].0@) {
                lemma_temps_of_bounded(daily@, pairs[i as int].0@);
            }
        }
        let node: String = crate::mapping::instance_to_blade_name(inst.as_str(), ip_to_node_map);
        proof {
            assert(node@ == blade_name_of(pairs[i as int].0@, nm));
        }
        let ghost prev = acc@;
        let pos = find_position(&acc, node.as_str());
        let p = pos.0;
        if pos.1 {
            let nminutely: i64 = if v > acc[p].minutely {
                v
            } else {
                acc[p].minutely
            };
            let nhourly: i64 = if h > acc[p].hourly {
                h
            } else {
                acc[p].hourly
            };
            let ndaily: i64 = if d > acc[p].daily {
                d
            } else {
                acc[p].daily
            };
            let newe = NodeAcc { node, minutely: nminutely, hourly: nhourly, daily: ndaily };
            proof {
                lemma_entry_merge(
                    prev[p as int],
                    newe,
                    pairs,
                    i as int,
                    hm,
                    dm,
                    nm,
                    v,
                    h,
                    d,
                );
            }
            acc.set(p, newe);
            proof {
                assert forall|a: int, b: int| 0 <= a < b < acc@.len() implies lex_lt(
                    acc@[a].node@,
                    acc@[b].node@,
                ) by {
                    assert(acc@[a].node@ == prev[a].node@);
                    assert(acc@[b].node@ == prev[b].node@);
                }
                assert forall|j: int| 0 <= j < i + 1 implies acc_has(
                    acc@,
                    blade_name_of((#[trigger] pairs[j]).0@, nm),
                ) by {
                    if j < i {
                        let a = choose|a: int|
                            0 <= a < prev.len() && prev[a].node@ == blade_name_of(pairs[j].0@, nm);
                        assert(acc@[a].node@ == prev[a].node@);
                        assert(0 <= a < acc@.len() && acc@[a].node@ == blade_name_of(
                            pairs[j].0@,
                            nm,
                        ));
                    } else {
                        assert(0 <= p < acc@.len() && acc@[p as int].node@ == blade_name_of(
                            pairs[j].0@,
                            nm,
                        ));
                    }
                }
                assert forall|a: int| 0 <= a < acc@.len() implies entry_max_ok(
                    #[trigger] acc@[a],
                    pairs,
                    i + 1,
                    hm,
                    dm,
                    nm,
                ) by {
                    if a == p {
                        assert(acc@[a] == newe);
                    } else {
                        assert(acc@[a] == prev[a]);
                        assert(prev[a].node@ != prev[p as int].node@) by {
                            if a < p {
                                assert(lex_lt(prev[a].node@, prev[p as int].node@));
                            } else {
                                assert(lex_lt(prev[p as int].node@, prev[a].node@));
                            }
                        }
                        lemma_entry_extend(prev[a], pairs, i as int, hm, dm, nm);
                    }
                }
            }
        } else {
            proof {
                assert forall|j: int|
                    0 <= j < i implies blade_name_of((#[trigger] pairs[j]).0@, nm) != node@ by {
                    if blade_name_of(pairs[j].0@, nm) == node@ {
                        let a = choose|a: int|
                            0 <= a < prev.len() && prev[a].node@ == blade_name_of(pairs[j].0@, nm);
                        if a < p {
                            assert(lex_lt(prev[a].node@, node@));
                        } else {
                            assert(lex_lt(node@, prev[a].node@));
                        }
                    }
                }
            }
            let newe = NodeAcc { node, minutely: v, hourly: h, daily: d };
            proof {
                lemma_entry_fresh(newe, pairs, i as int, hm, dm, nm);
            }
            acc.insert(p, newe);
            proof {
                assert(acc@ == prev.insert(p as int, newe));
                assert forall|a: int, b: int| 0 <= a < b < acc@.len() implies lex_lt(
                    acc@[a].node@,
                    acc@[b].node@,
                ) by {
                    if b < p {
                        assert(acc@[a] == prev[a] && acc@[b] == prev[b]);
                    } else if a > p {
                        assert(acc@[a] == prev[a - 1] && acc@[b] == prev[b - 1]);
                    } else if a < p && b == p {
                        assert(acc@[a] == prev[a]);
                        assert(lex_lt(prev[a].node@, node@));
                    } else if a == p {
                        assert(acc@[b] == prev[b - 1]);
                        assert(lex_lt(node@, prev[b - 1].node@));
                    } else {
                        assert(acc@[a] == prev[a] && acc@[b] == prev[b - 1]);
                        assert(lex_lt(prev[a].node@, prev[b - 1].node@));
                    }
                }
                assert forall|j: int| 0 <= j < i + 1 implies acc_has(
                    acc@,
                    blade_name_of((#[trigger] pairs[j]).0@, nm),
                ) by {
                    if j < i {
                        let a = choose|a: int|
                            0 <= a < prev.len() && prev[a].node@ == blade_name_of(pairs[j].0@, nm);
                        if a < p {
                            assert(acc@[a] == prev[a]);
                            assert(0 <= a < acc@.len() && acc@[a].node@ == blade_name_of(
                                pairs[j].0@,
                                nm,
                            ));
                        } else {
                            assert(acc@[a + 1] == prev[a]);
                            assert(0 <= a + 1 < acc@.len() && acc@[a + 1].node@ == blade_name_of(
                                pairs[j].0@,
                                nm,
                            ));
                        }
                    } else {
                        assert(acc@[p as int] == newe);
                        assert(0 <= p < acc@.len() && acc@[p as int].node@ == blade_name_of(
                            pairs[j].0@,
                            nm,
                        ));
                    }
                }
                assert forall|a: int| 0 <= a < acc@.len() implies entry_max_ok(
                    #[trigger] acc@[a],
                    pairs,
                    i + 1,
                    hm,
                    dm,
                    nm,
                ) by {
                    if a == p {
                        assert(acc@[a] == newe);
                    } else {
                        let olda = if a < p {
                            a
                        } else {
                            a - 1
                        };
                        assert(acc@[a] == prev[olda]);
                        assert(prev[olda].node@ != node@) by {
                            if olda < p {
                                assert(lex_lt(prev[olda].node@, node@));
                            } else {
                                assert(lex_lt(node@, prev[olda].node@));
                            }
                        }
                        lemma_entry_extend(prev[olda], pairs, i as int, hm, dm, nm);
                    }
                }
            }
        }
        i += 1;
    }

    // Round each record; order and node names carry over.
    let mut out: Vec<TemperatureMeasurement> = Vec::new();
    let mut q: usize = 0;
    while q < acc.len()
        invariant
            0 <= q <= acc@.len(),
            out@.len() == q,
            forall|a: int|
                0 <= a < q ==> ((#[trigger] out@[a]).node@ == acc@[a].node@
                    && out@[a].minutely_tenths as int == round_half_away(
                    acc@[a].minutely as int,
                    1000,
                ) && out@[a].hourly_degrees as int == round_half_away(acc@[a].hourly as int, 10000)
                    && out@[a].daily_tenths as int == round_half_away(acc@[a].daily as int, 1000)),
        decreases acc@.len() - q,
    {
        let e = &acc[q];
        let t = TemperatureMeasurement {
            node: e.node.clone(),
            minutely_tenths: round_to_unit(e.minutely, 1000),
            hourly_degrees: round_to_unit(e.hourly, 10000),
            daily_tenths: round_to_unit(e.daily, 1000),
        };
        out.push(t);
        q += 1;
    }

    proof {
        assert forall|a: int| 0 <= a < out@.len() implies node_present(
            mm,
            nm,
            #[trigger] out@[a].node@,
        ) by {
            assert(entry_max_ok(acc@[a], pairs, n as int, hm, dm, nm));
            let j = choose|j: int|
                0 <= j < n && blade_name_of((#[trigger] pairs[j]).0@, nm) == acc@[a].node@
                    && pairs[j].1 == acc@[a].minutely;
            mt.lemma_index_to_map(j);
            assert(mm.contains_key(pairs[j].0@) && blade_name_of(pairs[j].0@, nm)
                == out@[a].node@);
        }
        assert forall|k: Seq<char>| #[trigger] mm.contains_key(k) implies node_listed(
            out@,
            blade_name_of(k, nm),
        ) by {
            mt.lemma_contains_to_index(k);
            let j = choose|j: int| 0 <= j < pairs.len() && pairs[j].0@ == k;
            assert(acc_has(acc@, blade_name_of((pairs[j]).0@, nm)));
            let a = choose|a: int|
                0 <= a < acc@.len() && acc@[a].node@ == blade_name_of(pairs[j].0@, nm);
            assert(0 <= a < out@.len() && out@[a].node@ == blade_name_of(k, nm));
        }
        assert forall|a: int| 0 <= a < out@.len() implies measurement_ok(
            #[trigger] out@[a],
            mm,
            hm,
            dm,
            nm,
        ) by {
            lemma_entry_to_measurement(out@[a], acc@[a], mt, minutely@, pairs, hm, dm, nm);
        }
    }
    out
}

/// A finished working record, rounded, meets the output contract for
/// its node.
proof fn lemma_entry_to_measurement(
    t: TemperatureMeasurement,
    e: NodeAcc,
    mt: StrTable<i64>,
    minutely: Seq<MetricSample>,
    pairs: Seq<(String, i64)>,
    hm: Map<Seq<char>, i64>,
    dm: Map<Seq<char>, i64>,
    nm: Map<Seq<char>, Seq<char>>,
)
    requires
        mt.wf(),
        mt@ == temps_of(minutely),
        pairs == mt.pairs(),
        entry_max_ok(e, pairs, pairs.len() as int, hm, dm, nm),
        t.node@ == e.node@,
        t.minutely_tenths as int == round_half_away(e.minutely as int, 1000),
        t.hourly_degrees as int == round_half_away(e.hourly as int, 10000),
        t.daily_tenths as int == round_half_away(e.daily as int, 1000),
    ensures
        measurement_ok(t, mt@, hm, dm, nm),
{
    let mm = mt@;
    let upto = pairs.len() as int;

    // minutely
    let j1 = choose|j: int|
        0 <= j < upto && blade_name_of((#[trigger] pairs[j]).0@, nm) == e.node@ && pairs[j].1
            == e.minutely;
    mt.lemma_index_to_map(j1);
    assert(mm.contains_key(pairs[j1].0@) && blade_name_of(pairs[j1].0@, nm) == t.node@
        && val_or_zero(mm, pairs[j1].0@) == e.minutely as int);
    assert forall|k: Seq<char>|
        #[trigger] mm.contains_key(k) && blade_name_of(k, nm) == t.node@ implies val_or_zero(
        mm,
        k,
    ) <= e.minutely as int by {
        mt.lemma_contains_to_index(k);
        let j = choose|j: int| 0 <= j < pairs.len() && pairs[j].0@ == k;
        mt.lemma_index_to_map(j);
        assert(val_or_zero(mm, k) == pairs[j].1 as int);
        assert(pairs[j].1 <= e.minutely);
    }
    assert(node_window_max(mm, mm, nm, t.node@, e.minutely as int));

    // hourly
    let j2 = choose|j: int|
        0 <= j < upto && blade_name_of((#[trigger] pairs[j]).0@, nm) == e.node@ && val_or_zero(
            hm,
            pairs[j].0@,
        ) == e.hourly as int;
    mt.lemma_index_to_map(j2);
    assert(mm.contains_key(pairs[j2].0@) && blade_name_of(pairs[j2].0@, nm) == t.node@
        && val_or_zero(hm, pairs[j2].0@) == e.hourly as int);
    assert forall|k: Seq<char>|
        #[trigger] mm.contains_key(k) && blade_name_of(k, nm) == t.node@ implies val_or_zero(
        hm,
        k,
    ) <= e.hourly as int by {
        mt.lemma_contains_to_index(k);
        let j = choose|j: int| 0 <= j < pairs.len() && pairs[j].0@ == k;
        assert(blade_name_of(pairs[j].0@, nm) == t.node@);
        assert(val_or_zero(hm, pairs[j].0@) <= e.hourly as int);
    }
    assert(node_window_max(mm, hm, nm, t.node@, e.hourly as int));

    // daily
    let j3 = choose|j: int|
        0 <= j < upto && blade_name_of((#[trigger] pairs[j]).0@, nm) == e.node@ && val_or_zero(
            dm,
            pairs[j].0@,
        ) == e.daily as int;
    mt.lemma_index_to_map(j3);
    assert(mm.contains_key(pairs[j3].0@) && blade_name_of(pairs[j3].0@, nm) == t.node@
        && val_or_zero(dm, pairs[j3].0@) == e.daily as int);
    assert forall|k: Seq<char>|
        #[trigger] mm.contains_key(k) && blade_name_of(k, nm) == t.node@ implies val_or_zero(
        dm,
        k,
    ) <= e.daily as int by {
        mt.lemma_contains_to_index(k);
        let j = choose|j: int| 0 <= j < pairs.len() && pairs[j].0@ == k;
        assert(blade_name_of(pairs[j].0@, nm) == t.node@);
        assert(val_or_zero(dm, pairs[j].0@) <= e.daily as int);
    }
    assert(node_window_max(mm, dm, nm, t.node@, e.daily as int));
}

} // verus!
