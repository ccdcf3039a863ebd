//! Resolving sensor instance addresses to node names.
//!
//! A metadata query lists pods with their IP and assigned node. Rows
//! whose pod name holds "node-exporter" and that carry both a pod IP and
//! a node label each map the instance address `<pod_ip>:9100` to the
//! node name; a later row for the same instance overrides an earlier
//! one. Instances outside the mapping fall back to the sentinel node
//! name `unknown_blade`.

use vstd::prelude::*;
use crate::sample::{MetricSample, label_of};
use crate::table::StrTable;
use crate::text::{contains_seq, contains_sub};

verus! {

/// A metadata row feeds the mapping only with a pod name that holds
/// "node-exporter" and with both the pod IP and node labels present.
pub open spec fn qualifies(s: MetricSample) -> bool {
    &&& label_of(s.labels@, "pod"@) is Some
    &&& contains_seq(label_of(s.labels@, "pod"@).unwrap(), "node-exporter"@)
    &&& label_of(s.labels@, "pod_ip"@) is Some
    &&& label_of(s.labels@, "node"@) is Some
}

/// The instance address a qualifying row maps.
pub open spec fn instance_key(s: MetricSample) -> Seq<char> {
    label_of(s.labels@, "pod_ip"@).unwrap() + ":9100"@
}

/// The node name a qualifying row maps its instance to.
pub open spec fn node_label(s: MetricSample) -> Seq<char> {
    label_of(s.labels@, "node"@).unwrap()
}

/// The instance-to-node mapping a metadata result set yields: qualifying
/// rows in order, later rows overriding earlier ones.
pub open spec fn mapping_of(rows: Seq<MetricSample>) -> Map<Seq<char>, Seq<char>>
    decreases rows.len(),
{
    if rows.len() == 0 {
        Map::empty()
    } else if qualifies(rows.last()) {
        mapping_of(rows.drop_last()).insert(instance_key(rows.last()), node_label(rows.last()))
    } else {
        mapping_of(rows.drop_last())
    }
}

/// A stored node table, read as a map to node names.
pub open spec fn names_of(m: Map<Seq<char>, String>) -> Map<Seq<char>, Seq<char>> {
    m.map_values(|v: String| v@)
}

/// The node name an instance resolves to under a mapping.
pub open spec fn blade_name_of(instance: Seq<char>, nm: Map<Seq<char>, Seq<char>>) -> Seq<char> {
    if nm.contains_key(instance) {
        nm[instance]
    } else {
        "unknown_blade"@
    }
}

/// A row without the required labels, or whose pod name lacks
/// "node-exporter", adds nothing to the mapping.
pub proof fn lemma_mapping_skips_unqualifying(rows: Seq<MetricSample>)
    requires
        rows.len() > 0,
        !qualifies(rows.last()),
    ensures
        mapping_of(rows) == mapping_of(rows.drop_last()),
{
}

/// Every instance in the mapping was put there by a qualifying row.
pub proof fn lemma_mapping_keys_from_qualifying(rows: Seq<MetricSample>, k: Seq<char>)
    requires
        mapping_of(rows).contains_key(k),
    ensures
        exists|i: int|
            0 <= i < rows.len() && #[trigger] qualifies(rows[i]) && instance_key(rows[i]) == k,
    decreases rows.len(),
{
    if rows.len() > 0 {
        if qualifies(rows.last()) && instance_key(rows.last()) == k {
            assert(qualifies(rows[rows.len() - 1]) && instance_key(rows[rows.len() - 1]) == k);
        } else {
            assert(mapping_of(rows.drop_last()).contains_key(k));
            lemma_mapping_keys_from_qualifying(rows.drop_last(), k);
            let i = choose|i: int|
                0 <= i < rows.drop_last().len() && #[trigger] qualifies(rows.drop_last()[i])
                    && instance_key(rows.drop_last()[i]) == k;
            assert(rows.drop_last()[i] == rows[i]);
            assert(qualifies(rows[i]) && instance_key(rows[i]) == k);
        }
    }
}

/// Builds the instance-to-node table from a metadata result set.
#[verifier::loop_isolation(false)]
pub fn build_instance_node_map(rows: &Vec<MetricSample>) -> (m: StrTable<String>)
    ensures
        m.wf(),
        names_of(m@) == mapping_of(rows@),
{
    let mut m: StrTable<String> = StrTable::new();
    let n = rows.len();
    proof {
        assert(rows@.take(0) =~= Seq::<MetricSample>::empty());
    }
    let mut i: usize = 0;
    while i < n
        invariant
            0 <= i <= n,
            m.wf(),
            forall|k: Seq<char>| #[trigger]
                m@.contains_key(k) == mapping_of(rows@.take(i as int)).contains_key(k),
            forall|k: Seq<char>| #[trigger]
                m@.contains_key(k) ==> m@[k]@ == mapping_of(rows@.take(i as int))[k],
        decreases n - i,
    {
        let ghost pre = mapping_of(rows@.take(i as int));
        proof {
            assert(rows@.take(i + 1).drop_last() =~= rows@.take(i as int));
            assert(rows@.take(i + 1).last() == rows@[i as int]);
        }
        let row = &rows[i];
        if let Some(pod) = row.label("pod") {
            if contains_sub(pod.as_str(), "node-exporter") {
                let ip = row.label("pod_ip");
                let node = row.label("node");
                if let (Some(ip), Some(node)) = (ip, node) {
                    let inst = ip.clone().concat(":9100");
                    proof {
                        assert(qualifies(rows@[i as int]));
                        assert(inst@ == instance_key(rows@[i as int]));
                        assert(node@ == node_label(rows@[i as int]));
                    }
                    let named = node.clone();
                    m.insert(inst, named);
                } else {
                    proof {
                        assert(!qualifies(rows@[i as int]));
                    }
                }
            } else {
                proof {
                    assert(!qualifies(rows@[i as int]));
                }
            }
        } else {
            proof {
                assert(!qualifies(rows@[i as int]));
            }
        }
        i += 1;
    }
    proof {
        assert(rows@.take(n as int) =~= rows@);
        assert(names_of(m@) =~= mapping_of(rows@));
    }
    m
}

/// Resolves one instance address to its node name, or to the sentinel
/// when the mapping does not know it.
pub fn instance_to_blade_name(instance: &str, ip_to_node_map: &StrTable<String>) -> (r: String)
    requires
        ip_to_node_map.wf(),
    ensures
        r@ == blade_name_of(instance@, names_of(ip_to_node_map@)),
{
    match ip_to_node_map.get(instance) {
        Some(node) => {
            proof {
                assert(names_of(ip_to_node_map@).contains_key(instance@));
            }
            node.clone()
        },
        None => {
            proof {
                assert(!names_of(ip_to_node_map@).contains_key(instance@));
            }
            "unknown_blade".to_owned()
        },
    }
}

} // verus!
