//! The blob framing as specification: `KGPH`, version 2, a u32 node count, each node as its
//! op followed by a counted list of u32 source ids, then a u32 entry count and each entry
//! as its name, its counted output ids, and its counted input bindings (node id, role byte,
//! name). Names are UTF-8.

use vstd::prelude::*;
use crate::bytes::{le_u32, lemma_le_u32_roundtrip};
use crate::graph::{Graph, Node, NodeId};
use crate::graph::op::op_eq;
use crate::graph::serialize::{Entry, InputBinding, InputRole};
use crate::graph::serialize::wire::{enc_ids, enc_str, fixed_len_at, holds_at, ids_at, lemma_holds_cat, lemma_ids_at, lemma_str_at, lemma_u32_at, plus, str_bytes_at, str_len_at, tag_len_at, u32_at};
use crate::graph::serialize::opcode::{
    const_fits, const_ok_at, decodes_to, enc_op, encodable, lemma_decodes_functional, lemma_op_round_trip,
    op_len_at,
};
use crate::graph::op::Op;
use vstd::utf8::{encode_utf8, valid_utf8, encode_utf8_valid_utf8};

verus! {

/// The four magic bytes `KGPH`.
pub open spec fn magic() -> Seq<u8> {
    seq![75u8, 71u8, 80u8, 72u8]
}

pub open spec fn role_tag(r: InputRole) -> u8 {
    match r {
        InputRole::Weight => 0,
        InputRole::Runtime => 1,
    }
}

pub open spec fn role_of_tag(t: u8) -> InputRole {
    if t == 0 { InputRole::Weight } else { InputRole::Runtime }
}

// ---- what the encoder writes ----

/// A node: its op, then its counted source ids.
pub open spec fn enc_node(op: Op, src: Seq<u32>) -> Seq<u8> {
    enc_op(op) + le_u32(src.len() as u32) + enc_ids(src)
}

pub open spec fn enc_nodes(ns: Seq<(Op, Seq<u32>)>) -> Seq<u8>
    decreases ns.len(),
{
    if ns.len() == 0 { Seq::empty() } else { enc_nodes(ns.drop_last()) + enc_node(ns.last().0, ns.last().1) }
}

/// An input binding: node id, role byte, name bytes.
pub open spec fn enc_binding(x: (u32, InputRole, Seq<u8>)) -> Seq<u8> {
    le_u32(x.0) + seq![role_tag(x.1)] + enc_str(x.2)
}

pub open spec fn enc_bindings(v: Seq<(u32, InputRole, Seq<u8>)>) -> Seq<u8>
    decreases v.len(),
{
    if v.len() == 0 { Seq::empty() } else { enc_bindings(v.drop_last()) + enc_binding(v.last()) }
}

/// An entry: name, counted output ids, counted input bindings.
pub open spec fn enc_entry(e: (Seq<u8>, Seq<u32>, Seq<(u32, InputRole, Seq<u8>)>)) -> Seq<u8> {
    enc_str(e.0) + le_u32(e.1.len() as u32) + enc_ids(e.1) + le_u32(e.2.len() as u32) + enc_bindings(e.2)
}

pub open spec fn enc_entries(v: Seq<(Seq<u8>, Seq<u32>, Seq<(u32, InputRole, Seq<u8>)>)>) -> Seq<u8>
    decreases v.len(),
{
    if v.len() == 0 { Seq::empty() } else { enc_entries(v.drop_last()) + enc_entry(v.last()) }
}

/// The whole blob for the given nodes and entries.
pub open spec fn enc_blob(
    ns: Seq<(Op, Seq<u32>)>,
    es: Seq<(Seq<u8>, Seq<u32>, Seq<(u32, InputRole, Seq<u8>)>)>,
) -> Seq<u8> {
    magic() + seq![2u8] + le_u32(ns.len() as u32) + enc_nodes(ns) + le_u32(es.len() as u32) + enc_entries(es)
}

// ---- views of the exec values ----

pub open spec fn ids_v(v: Seq<NodeId>) -> Seq<u32> {
    v.map_values(|s: NodeId| s.0)
}

pub open spec fn node_v(n: Node) -> (Op, Seq<u32>) {
    (n.op, ids_v(n.src@))
}

/// A graph's nodes as (op, source ids), in id order.
pub open spec fn graph_v(g: Graph) -> Seq<(Op, Seq<u32>)> {
    g.nodes@.map_values(|n: Node| node_v(n))
}

pub open spec fn binding_v(b: InputBinding) -> (u32, InputRole, Seq<u8>) {
    (b.node.0, b.role, encode_utf8(b.name@))
}

pub open spec fn bindings_v(v: Seq<InputBinding>) -> Seq<(u32, InputRole, Seq<u8>)> {
    v.map_values(|b: InputBinding| binding_v(b))
}

pub open spec fn entry_v(e: Entry) -> (Seq<u8>, Seq<u32>, Seq<(u32, InputRole, Seq<u8>)>) {
    (encode_utf8(e.name@), ids_v(e.outputs@), bindings_v(e.inputs@))
}

pub open spec fn entries_v(v: Seq<Entry>) -> Seq<(Seq<u8>, Seq<u32>, Seq<(u32, InputRole, Seq<u8>)>)> {
    v.map_values(|e: Entry| entry_v(e))
}

// ---- what the decoder finds ----

/// A counted run of u32 ids at `q`.
pub open spec fn ids_len_at(b: Seq<u8>, q: int) -> int {
    if 0 <= q && q + 4 <= b.len() && q + 4 + 4 * u32_at(b, q) <= b.len() { 4 + 4 * u32_at(b, q) } else { -1 }
}

pub open spec fn ids_run_at(b: Seq<u8>, q: int) -> Seq<u32> {
    ids_at(b, q + 4, u32_at(b, q) as nat)
}

/// Bytes a well-formed node occupies at `p`, or -1.
pub open spec fn node_len_at(b: Seq<u8>, p: int) -> int {
    let a = op_len_at(b, p);
    plus(a, ids_len_at(b, p + a))
}

/// The source ids of the node at `p`.
pub open spec fn node_src_at(b: Seq<u8>, p: int) -> Seq<u32> {
    ids_run_at(b, p + op_len_at(b, p))
}

/// Offset of node `k` (the nodes before it taken as well formed).
pub open spec fn node_off(b: Seq<u8>, k: nat) -> int
    decreases k,
{
    if k == 0 { 9 } else { node_off(b, (k - 1) as nat) + node_len_at(b, node_off(b, (k - 1) as nat)) }
}

/// Magic and version.
pub open spec fn header_ok(b: Seq<u8>) -> bool {
    b.len() >= 9 && b.take(4) == magic() && b[4] == 2
}

/// The node count the header declares.
pub open spec fn declared_nodes(b: Seq<u8>) -> nat {
    u32_at(b, 5) as nat
}

/// `g`'s nodes are exactly the ops and sources the node section describes.
pub open spec fn nodes_decode(b: Seq<u8>, g: Graph) -> bool {
    &&& g.nodes@.len() == declared_nodes(b)
    &&& forall|k: int| 0 <= k < g.nodes@.len() ==> {
        let p = #[trigger] node_off(b, k as nat);
        &&& node_len_at(b, p) >= 0
        &&& const_ok_at(b, p)
        &&& decodes_to(b, p, g.nodes@[k].op)
        &&& ids_v(g.nodes@[k].src@) == node_src_at(b, p)
    }
}

/// The facts `nodes_decode` gives about node `k`.
pub proof fn lemma_nodes_decode_at(b: Seq<u8>, w: Graph, k: int)
    requires nodes_decode(b, w), 0 <= k < w.nodes@.len(),
    ensures ({
        let p = node_off(b, k as nat);
        &&& node_len_at(b, p) >= 0
        &&& const_ok_at(b, p)
        &&& decodes_to(b, p, w.nodes@[k].op)
        &&& ids_v(w.nodes@[k].src@) == node_src_at(b, p)
    }),
{
    let p = node_off(b, k as nat);
}

/// Where the entry table starts.
pub open spec fn nodes_end(b: Seq<u8>) -> int {
    node_off(b, declared_nodes(b))
}

/// Bytes a well-formed input binding occupies at `q`, or -1.
pub open spec fn binding_len_at(b: Seq<u8>, q: int) -> int {
    plus(fixed_len_at(b, q, 4), plus(tag_len_at(b, q + 4, 1), str_len_at(b, q + 5)))
}

pub open spec fn binding_off(b: Seq<u8>, q: int, k: nat) -> int
    decreases k,
{
    if k == 0 { q } else { binding_off(b, q, (k - 1) as nat) + binding_len_at(b, binding_off(b, q, (k - 1) as nat)) }
}

/// Where an entry's binding count sits.
pub open spec fn entry_inputs_at(b: Seq<u8>, p: int) -> int {
    let a = str_len_at(b, p);
    p + a + ids_len_at(b, p + a)
}

/// The entry at `p` is well formed.
pub open spec fn entry_ok_at(b: Seq<u8>, p: int) -> bool {
    let a = str_len_at(b, p);
    let q = entry_inputs_at(b, p);
    &&& a >= 0
    &&& ids_len_at(b, p + a) >= 0
    &&& q + 4 <= b.len()
    &&& forall|j: int| 0 <= j < u32_at(b, q) ==> #[trigger] binding_len_at(b, binding_off(b, q + 4, j as nat)) >= 0
}

/// Bytes the well-formed entry at `p` occupies.
pub open spec fn entry_len_at(b: Seq<u8>, p: int) -> int {
    let q = entry_inputs_at(b, p);
    binding_off(b, q + 4, u32_at(b, q) as nat) - p
}

pub open spec fn entry_off(b: Seq<u8>, q: int, k: nat) -> int
    decreases k,
{
    if k == 0 { q } else { entry_off(b, q, (k - 1) as nat) + entry_len_at(b, entry_off(b, q, (k - 1) as nat)) }
}

/// The entry table at `q` is well formed.
pub open spec fn entries_ok(b: Seq<u8>, q: int) -> bool {
    &&& 0 <= q && q + 4 <= b.len()
    &&& forall|k: int| 0 <= k < u32_at(b, q) ==> #[trigger] entry_ok_at(b, entry_off(b, q + 4, k as nat))
}

pub open spec fn binding_decodes(b: Seq<u8>, p: int, x: InputBinding) -> bool {
    &&& x.node.0 == u32_at(b, p)
    &&& x.role == role_of_tag(b[p + 4])
    &&& encode_utf8(x.name@) == str_bytes_at(b, p + 5)
}

/// The outputs and input bindings of the entry at `p` are `outputs` and `inputs`.
pub open spec fn entry_io_decodes(b: Seq<u8>, p: int, outputs: Seq<NodeId>, inputs: Seq<InputBinding>) -> bool {
    let a = str_len_at(b, p);
    let q = entry_inputs_at(b, p);
    &&& ids_v(outputs) == ids_run_at(b, p + a)
    &&& inputs.len() == u32_at(b, q)
    &&& forall|j: int| 0 <= j < inputs.len() ==> binding_decodes(b, #[trigger] binding_off(b, q + 4, j as nat), inputs[j])
}

pub open spec fn entry_decodes(b: Seq<u8>, p: int, e: Entry) -> bool {
    &&& encode_utf8(e.name@) == str_bytes_at(b, p)
    &&& entry_io_decodes(b, p, e.outputs@, e.inputs@)
}

/// `es` are exactly the entries the table at `q` describes.
pub open spec fn entries_decode(b: Seq<u8>, q: int, es: Seq<Entry>) -> bool {
    &&& es.len() == u32_at(b, q)
    &&& forall|k: int| 0 <= k < es.len() ==> entry_decodes(b, #[trigger] entry_off(b, q + 4, k as nat), es[k])
}

/// The blob describes a well-formed graph and a well-formed entry table.
pub open spec fn blob_ok(b: Seq<u8>) -> bool {
    &&& header_ok(b)
    &&& exists|g: Graph| g.wf() && #[trigger] nodes_decode(b, g)
    &&& entries_ok(b, nodes_end(b))
}

// ---- lemmas ----

#[verifier::spinoff_prover]
pub proof fn lemma_nodes_prefix(b: Seq<u8>, p: int, ns: Seq<(Op, Seq<u32>)>, j: int)
    requires holds_at(b, p, enc_nodes(ns)), 0 <= j <= ns.len(),
    ensures holds_at(b, p, enc_nodes(ns.take(j))),
    decreases ns.len() - j,
{
    if j == ns.len() {
        assert(ns.take(j) =~= ns);
    } else {
        lemma_holds_cat(b, p, enc_nodes(ns.drop_last()), enc_node(ns.last().0, ns.last().1));
        lemma_nodes_prefix(b, p, ns.drop_last(), j);
        assert(ns.drop_last().take(j) =~= ns.take(j));
    }
}

/// A node as written is found whole at its offset.
#[verifier::spinoff_prover]
pub proof fn lemma_node_at(b: Seq<u8>, p: int, op: Op, src: Seq<u32>)
    requires holds_at(b, p, enc_node(op, src)), encodable(op), src.len() <= u32::MAX,
    ensures
        node_len_at(b, p) == enc_node(op, src).len(),
        decodes_to(b, p, op),
        node_src_at(b, p) == src,
        const_fits(op) ==> const_ok_at(b, p),
{
    lemma_holds_cat(b, p, enc_op(op) + le_u32(src.len() as u32), enc_ids(src));
    lemma_holds_cat(b, p, enc_op(op), le_u32(src.len() as u32));
    lemma_op_round_trip(op, b, p);
    let q = p + enc_op(op).len();
    lemma_u32_at(b, q, src.len() as u32);
    lemma_le_u32_roundtrip(src.len() as u32);
    lemma_ids_at(b, q + 4, src);
}

/// Every node of an encoded node section is found whole at its offset.
#[verifier::spinoff_prover]
pub proof fn lemma_nodes_at(b: Seq<u8>, ns: Seq<(Op, Seq<u32>)>, k: int)
    requires
        holds_at(b, 9, enc_nodes(ns)),
        0 <= k <= ns.len(),
        forall|i: int| 0 <= i < ns.len() ==> encodable(#[trigger] ns[i].0) && ns[i].1.len() <= u32::MAX,
    ensures
        node_off(b, k as nat) == 9 + enc_nodes(ns.take(k)).len(),
        k < ns.len() ==> {
            let p = node_off(b, k as nat);
            &&& node_len_at(b, p) == enc_node(ns[k].0, ns[k].1).len()
            &&& decodes_to(b, p, ns[k].0)
            &&& node_src_at(b, p) == ns[k].1
            &&& (const_fits(ns[k].0) ==> const_ok_at(b, p))
        },
    decreases k,
{
    if k > 0 {
        lemma_nodes_at(b, ns, k - 1);
        assert(ns.take(k).drop_last() =~= ns.take(k - 1));
        assert(enc_nodes(ns.take(k)) == enc_nodes(ns.take(k - 1)) + enc_node(ns[k - 1].0, ns[k - 1].1));
    } else {
        assert(ns.take(0) =~= Seq::<(Op, Seq<u32>)>::empty());
    }
    if k < ns.len() {
        lemma_nodes_prefix(b, 9, ns, k + 1);
        assert(ns.take(k + 1).drop_last() =~= ns.take(k));
        assert(ns.take(k + 1).last() == ns[k]);
        lemma_holds_cat(b, 9, enc_nodes(ns.take(k)), enc_node(ns[k].0, ns[k].1));
        lemma_node_at(b, (9 + enc_nodes(ns.take(k)).len()) as int, ns[k].0, ns[k].1);
    }
}

#[verifier::spinoff_prover]
pub proof fn lemma_bindings_prefix(b: Seq<u8>, p: int, v: Seq<(u32, InputRole, Seq<u8>)>, j: int)
    requires holds_at(b, p, enc_bindings(v)), 0 <= j <= v.len(),
    ensures holds_at(b, p, enc_bindings(v.take(j))),
    decreases v.len() - j,
{
    if j == v.len() {
        assert(v.take(j) =~= v);
    } else {
        lemma_holds_cat(b, p, enc_bindings(v.drop_last()), enc_binding(v.last()));
        lemma_bindings_prefix(b, p, v.drop_last(), j);
        assert(v.drop_last().take(j) =~= v.take(j));
    }
}

/// Bytes of names as written: valid UTF-8 of a countable length.
pub open spec fn name_ok(s: Seq<u8>) -> bool {
    valid_utf8(s) && s.len() <= u32::MAX
}

#[verifier::spinoff_prover]
pub proof fn lemma_binding_at(b: Seq<u8>, p: int, x: (u32, InputRole, Seq<u8>))
    requires holds_at(b, p, enc_binding(x)), name_ok(x.2),
    ensures
        binding_len_at(b, p) == enc_binding(x).len(),
        u32_at(b, p) == x.0,
        role_of_tag(b[p + 4]) == x.1,
        str_bytes_at(b, p + 5) == x.2,
{
    lemma_holds_cat(b, p, le_u32(x.0) + seq![role_tag(x.1)], enc_str(x.2));
    lemma_holds_cat(b, p, le_u32(x.0), seq![role_tag(x.1)]);
    lemma_u32_at(b, p, x.0);
    lemma_le_u32_roundtrip(x.0);
    assert(b.subrange(p + 4, p + 5)[0] == b[p + 4]);
    lemma_str_at(b, p + 5, x.2);
}

#[verifier::spinoff_prover]
pub proof fn lemma_bindings_at(b: Seq<u8>, q: int, v: Seq<(u32, InputRole, Seq<u8>)>, k: int)
    requires
        holds_at(b, q, enc_bindings(v)),
        0 <= k <= v.len(),
        forall|i: int| 0 <= i < v.len() ==> name_ok(#[trigger] v[i].2),
    ensures
        binding_off(b, q, k as nat) == q + enc_bindings(v.take(k)).len(),
        k < v.len() ==> {
            let p = binding_off(b, q, k as nat);
            &&& binding_len_at(b, p) == enc_binding(v[k]).len()
            &&& u32_at(b, p) == v[k].0
            &&& role_of_tag(b[p + 4]) == v[k].1
            &&& str_bytes_at(b, p + 5) == v[k].2
        },
    decreases k,
{
    if k > 0 {
        lemma_bindings_at(b, q, v, k - 1);
        assert(v.take(k).drop_last() =~= v.take(k - 1));
    } else {
        assert(v.take(0) =~= Seq::<(u32, InputRole, Seq<u8>)>::empty());
    }
    if k < v.len() {
        lemma_bindings_prefix(b, q, v, k + 1);
        assert(v.take(k + 1).drop_last() =~= v.take(k));
        lemma_holds_cat(b, q, enc_bindings(v.take(k)), enc_binding(v[k]));
        lemma_binding_at(b, q + enc_bindings(v.take(k)).len(), v[k]);
    }
}

/// An entry as written has sane counts and valid names.
pub open spec fn entry_writable(e: (Seq<u8>, Seq<u32>, Seq<(u32, InputRole, Seq<u8>)>)) -> bool {
    &&& name_ok(e.0)
    &&& e.1.len() <= u32::MAX
    &&& e.2.len() <= u32::MAX
    &&& forall|i: int| 0 <= i < e.2.len() ==> name_ok(#[trigger] e.2[i].2)
}

#[verifier::spinoff_prover]
pub proof fn lemma_entry_at(b: Seq<u8>, p: int, e: (Seq<u8>, Seq<u32>, Seq<(u32, InputRole, Seq<u8>)>))
    requires holds_at(b, p, enc_entry(e)), entry_writable(e),
    ensures
        entry_ok_at(b, p),
        entry_len_at(b, p) == enc_entry(e).len(),
        str_bytes_at(b, p) == e.0,
        ids_run_at(b, p + str_len_at(b, p)) == e.1,
        u32_at(b, entry_inputs_at(b, p)) == e.2.len(),
        forall|j: int| 0 <= j < e.2.len() ==> {
            let x = #[trigger] binding_off(b, entry_inputs_at(b, p) + 4, j as nat);
            &&& u32_at(b, x) == e.2[j].0
            &&& role_of_tag(b[x + 4]) == e.2[j].1
            &&& str_bytes_at(b, x + 5) == e.2[j].2
        },
{
    let s = enc_str(e.0);
    let o = le_u32(e.1.len() as u32) + enc_ids(e.1);
    let c = le_u32(e.2.len() as u32);
    let w = enc_bindings(e.2);
    assert(enc_entry(e) =~= s + o + c + w);
    lemma_holds_cat(b, p, s + o + c, w);
    lemma_holds_cat(b, p, s + o, c);
    lemma_holds_cat(b, p, s, o);
    lemma_str_at(b, p, e.0);
    lemma_holds_cat(b, p + s.len(), le_u32(e.1.len() as u32), enc_ids(e.1));
    lemma_u32_at(b, p + s.len(), e.1.len() as u32);
    lemma_le_u32_roundtrip(e.1.len() as u32);
    lemma_ids_at(b, p + s.len() + 4, e.1);
    let q = p + s.len() + o.len();
    assert(entry_inputs_at(b, p) == q);
    lemma_u32_at(b, q, e.2.len() as u32);
    lemma_le_u32_roundtrip(e.2.len() as u32);
    assert forall|j: int| 0 <= j < u32_at(b, q) implies #[trigger] binding_len_at(b, binding_off(b, q + 4, j as nat)) >= 0 by {
        lemma_bindings_at(b, q + 4, e.2, j);
    }
    lemma_bindings_at(b, q + 4, e.2, e.2.len() as int);
    assert(e.2.take(e.2.len() as int) =~= e.2);
    assert forall|j: int| 0 <= j < e.2.len() implies {
        let x = #[trigger] binding_off(b, q + 4, j as nat);
        &&& u32_at(b, x) == e.2[j].0
        &&& role_of_tag(b[x + 4]) == e.2[j].1
        &&& str_bytes_at(b, x + 5) == e.2[j].2
    } by {
        lemma_bindings_at(b, q + 4, e.2, j);
    }
}

#[verifier::spinoff_prover]
pub proof fn lemma_entries_prefix(
    b: Seq<u8>,
    p: int,
    v: Seq<(Seq<u8>, Seq<u32>, Seq<(u32, InputRole, Seq<u8>)>)>,
    j: int,
)
    requires holds_at(b, p, enc_entries(v)), 0 <= j <= v.len(),
    ensures holds_at(b, p, enc_entries(v.take(j))),
    decreases v.len() - j,
{
    if j == v.len() {
        assert(v.take(j) =~= v);
    } else {
        lemma_holds_cat(b, p, enc_entries(v.drop_last()), enc_entry(v.last()));
        lemma_entries_prefix(b, p, v.drop_last(), j);
        assert(v.drop_last().take(j) =~= v.take(j));
    }
}

#[verifier::spinoff_prover]
pub proof fn lemma_entries_at(
    b: Seq<u8>,
    q: int,
    v: Seq<(Seq<u8>, Seq<u32>, Seq<(u32, InputRole, Seq<u8>)>)>,
    k: int,
)
    requires
        holds_at(b, q, enc_entries(v)),
        0 <= k <= v.len(),
        forall|i: int| 0 <= i < v.len() ==> entry_writable(#[trigger] v[i]),
    ensures
        entry_off(b, q, k as nat) == q + enc_entries(v.take(k)).len(),
        k < v.len() ==> holds_at(b, entry_off(b, q, k as nat), enc_entry(v[k])),
    decreases k,
{
    if k > 0 {
        lemma_entries_at(b, q, v, k - 1);
        assert(v.take(k).drop_last() =~= v.take(k - 1));
        lemma_entry_at(b, entry_off(b, q, (k - 1) as nat), v[k - 1]);
    } else {
        assert(v.take(0) =~= Seq::<(Seq<u8>, Seq<u32>, Seq<(u32, InputRole, Seq<u8>)>)>::empty());
    }
    if k < v.len() {
        lemma_entries_prefix(b, q, v, k + 1);
        assert(v.take(k + 1).drop_last() =~= v.take(k));
        lemma_holds_cat(b, q, enc_entries(v.take(k)), enc_entry(v[k]));
    }
}

/// What a blob may hold: ops within the encoder's counts with constants that fit their
/// shapes, source lists and entry parts of countable length.
pub open spec fn blob_writable(
    ns: Seq<(Op, Seq<u32>)>,
    es: Seq<(Seq<u8>, Seq<u32>, Seq<(u32, InputRole, Seq<u8>)>)>,
) -> bool {
    &&& ns.len() <= u32::MAX
    &&& es.len() <= u32::MAX
    &&& forall|i: int| 0 <= i < ns.len() ==> encodable(#[trigger] ns[i].0) && const_fits(ns[i].0) && ns[i].1.len() <= u32::MAX
    &&& forall|i: int| 0 <= i < es.len() ==> entry_writable(#[trigger] es[i])
}

/// Where the parts of a written blob sit.
#[verifier::spinoff_prover]
proof fn lemma_blob_layout(
    ns: Seq<(Op, Seq<u32>)>,
    es: Seq<(Seq<u8>, Seq<u32>, Seq<(u32, InputRole, Seq<u8>)>)>,
)
    requires blob_writable(ns, es),
    ensures ({
        let b = enc_blob(ns, es);
        let q = (9 + enc_nodes(ns).len()) as int;
        &&& header_ok(b)
        &&& declared_nodes(b) == ns.len()
        &&& holds_at(b, 9, enc_nodes(ns))
        &&& nodes_end(b) == q
        &&& holds_at(b, q + 4, enc_entries(es))
        &&& u32_at(b, q) == es.len()
        &&& q + 4 <= b.len()
    }),
{
    let b = enc_blob(ns, es);
    let h = magic() + seq![2u8] + le_u32(ns.len() as u32);
    let nb = enc_nodes(ns);
    let c = le_u32(es.len() as u32);
    let eb = enc_entries(es);
    assert(b =~= h + nb + c + eb);
    lemma_le_u32_roundtrip(ns.len() as u32);
    assert(h.len() == 9);
    assert(holds_at(b, 0, b)) by { assert(b.subrange(0, b.len() as int) =~= b); }
    lemma_holds_cat(b, 0, h + nb + c, eb);
    lemma_holds_cat(b, 0, h + nb, c);
    lemma_holds_cat(b, 0, h, nb);
    lemma_holds_cat(b, 0, magic() + seq![2u8], le_u32(ns.len() as u32));
    lemma_u32_at(b, 5, ns.len() as u32);
    assert(b.take(4) =~= magic());
    lemma_nodes_at(b, ns, ns.len() as int);
    assert(ns.take(ns.len() as int) =~= ns);
    let q = (9 + nb.len()) as int;
    lemma_u32_at(b, q, es.len() as u32);
    lemma_le_u32_roundtrip(es.len() as u32);
}

/// Round trip of a whole blob: the blob written for a well-formed graph `g` and entries
/// `es` is well formed, its node section describes exactly `g`'s ops and sources (so any
/// graph decoded from it has `op_eq` ops and equal sources, node by node), and its entry
/// table describes exactly `es`.
#[verifier::spinoff_prover]
pub proof fn lemma_blob_round_trip(g: Graph, es: Seq<(Seq<u8>, Seq<u32>, Seq<(u32, InputRole, Seq<u8>)>)>)
    requires g.wf(), blob_writable(graph_v(g), es),
    ensures
        blob_ok(enc_blob(graph_v(g), es)),
        nodes_decode(enc_blob(graph_v(g), es), g),
        forall|g2: Graph| #[trigger] nodes_decode(enc_blob(graph_v(g), es), g2) ==> g2.nodes@.len() == g.nodes@.len()
            && forall|k: int| 0 <= k < g.nodes@.len() ==> op_eq(#[trigger] g2.nodes@[k].op, g.nodes@[k].op)
                && g2.nodes@[k].src@ == g.nodes@[k].src@,
        forall|es2: Seq<Entry>| #[trigger] entries_decode(enc_blob(graph_v(g), es), nodes_end(enc_blob(graph_v(g), es)), es2)
            ==> entries_v(es2) == es,
{
    lemma_blob_nodes(g, es);
    lemma_blob_entries(graph_v(g), es);
    let b = enc_blob(graph_v(g), es);
    assert forall|g2: Graph| #[trigger] nodes_decode(b, g2) implies g2.nodes@.len() == g.nodes@.len()
        && forall|k: int| 0 <= k < g.nodes@.len() ==> op_eq(#[trigger] g2.nodes@[k].op, g.nodes@[k].op)
            && g2.nodes@[k].src@ == g.nodes@[k].src@ by {
        assert forall|k: int| 0 <= k < g.nodes@.len() implies op_eq(#[trigger] g2.nodes@[k].op, g.nodes@[k].op)
            && g2.nodes@[k].src@ == g.nodes@[k].src@ by {
            let p = node_off(b, k as nat);
            lemma_decodes_functional(b, p, g2.nodes@[k].op, g.nodes@[k].op);
            lemma_ids_v_inj(g2.nodes@[k].src@, g.nodes@[k].src@);
        }
    }
}

#[verifier::spinoff_prover]
proof fn lemma_blob_nodes(g: Graph, es: Seq<(Seq<u8>, Seq<u32>, Seq<(u32, InputRole, Seq<u8>)>)>)
    requires g.wf(), blob_writable(graph_v(g), es),
    ensures
        header_ok(enc_blob(graph_v(g), es)),
        nodes_decode(enc_blob(graph_v(g), es), g),
{
    let ns = graph_v(g);
    let b = enc_blob(ns, es);
    lemma_blob_layout(ns, es);
    assert forall|k: int| 0 <= k < g.nodes@.len() implies {
        let p = #[trigger] node_off(b, k as nat);
        &&& node_len_at(b, p) >= 0
        &&& const_ok_at(b, p)
        &&& decodes_to(b, p, g.nodes@[k].op)
        &&& ids_v(g.nodes@[k].src@) == node_src_at(b, p)
    } by {
        lemma_nodes_at(b, ns, k);
        assert(ns[k] == node_v(g.nodes@[k]));
    }
}

#[verifier::spinoff_prover]
proof fn lemma_blob_entries(
    ns: Seq<(Op, Seq<u32>)>,
    es: Seq<(Seq<u8>, Seq<u32>, Seq<(u32, InputRole, Seq<u8>)>)>,
)
    requires blob_writable(ns, es),
    ensures
        entries_ok(enc_blob(ns, es), nodes_end(enc_blob(ns, es))),
        forall|es2: Seq<Entry>| #[trigger] entries_decode(enc_blob(ns, es), nodes_end(enc_blob(ns, es)), es2)
            ==> entries_v(es2) == es,
{
    let b = enc_blob(ns, es);
    lemma_blob_layout(ns, es);
    let q = nodes_end(b);
    assert forall|k: int| 0 <= k < u32_at(b, q) implies #[trigger] entry_ok_at(b, entry_off(b, q + 4, k as nat)) by {
        lemma_entries_at(b, q + 4, es, k);
        lemma_entry_at(b, entry_off(b, q + 4, k as nat), es[k]);
    }
    assert forall|es2: Seq<Entry>| #[trigger] entries_decode(b, q, es2) implies entries_v(es2) == es by {
        assert forall|k: int| 0 <= k < es.len() implies entries_v(es2)[k] == es[k] by {
            lemma_entry_decoded(b, q, es, es2, k);
        }
        assert(entries_v(es2) =~= es);
    }
}

#[verifier::spinoff_prover]
proof fn lemma_entry_decoded(
    b: Seq<u8>,
    q: int,
    es: Seq<(Seq<u8>, Seq<u32>, Seq<(u32, InputRole, Seq<u8>)>)>,
    es2: Seq<Entry>,
    k: int,
)
    requires
        holds_at(b, q + 4, enc_entries(es)),
        forall|i: int| 0 <= i < es.len() ==> entry_writable(#[trigger] es[i]),
        entries_decode(b, q, es2),
        es2.len() == es.len(),
        0 <= k < es.len(),
    ensures entries_v(es2)[k] == es[k],
{
    lemma_entries_at(b, q + 4, es, k);
    let p = entry_off(b, q + 4, k as nat);
    lemma_entry_at(b, p, es[k]);
    let e2 = es2[k];
    assert(entry_decodes(b, p, e2));
    assert(ids_v(e2.outputs@) == es[k].1);
    assert(bindings_v(e2.inputs@) =~= es[k].2) by {
        assert forall|j: int| 0 <= j < es[k].2.len() implies bindings_v(e2.inputs@)[j] == es[k].2[j] by {
            let x = binding_off(b, entry_inputs_at(b, p) + 4, j as nat);
            assert(binding_decodes(b, x, e2.inputs@[j]));
        }
    }
}

/// Distinct ids give distinct id lists.
pub proof fn lemma_ids_v_inj(a: Seq<NodeId>, c: Seq<NodeId>)
    requires ids_v(a) == ids_v(c),
    ensures a == c,
{
    assert(a.len() == ids_v(a).len() && c.len() == ids_v(c).len());
    assert(a =~= c) by {
        assert forall|i: int| 0 <= i < a.len() implies a[i] == c[i] by {
            assert(ids_v(a)[i] == ids_v(c)[i]);
            assert(ids_v(a)[i] == a[i].0);
            assert(ids_v(c)[i] == c[i].0);
            let x = a[i];
            let y = c[i];
            assert(x == NodeId(x.0));
            assert(y == NodeId(y.0));
        }
    }
}

/// A name written as the UTF-8 bytes of a string is a valid name.
pub proof fn lemma_name_ok(s: Seq<char>)
    requires encode_utf8(s).len() <= u32::MAX,
    ensures name_ok(encode_utf8(s)),
{
    encode_utf8_valid_utf8(s);
}

} // verus!
