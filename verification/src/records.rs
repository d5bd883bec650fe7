//! The law on the fields of a canonical record: which labels it holds, in
//! which nodes, and what each label's field is.

use vstd::prelude::*;
use crate::assoc::{
    assoc_get, assoc_index, assoc_insert, distinct_names, lemma_assoc_get_insert, lemma_assoc_index_bounds,
    lemma_assoc_index_some,
};
use crate::ast::{AssignedField, TypeAnnotation};
use crate::canon::{add_node, add_type, assigned_field, canon, fields_from, report, reserve, rigid, to_type_id_spec, write_fields, write_node, World};
use crate::laws::{
    extends, field_malformed, law_to_type_id_extends, lemma_add_type, lemma_assigned_field_extends,
    lemma_assoc_insert_distinct, lemma_extends_refl, lemma_extends_trans, lemma_fields_from_extends,
    lemma_malformed_fields, lemma_report, lemma_reserve, lemma_write_fields, well_formed_fields,
};
use crate::pool::{NodeId, PoolNode, PoolStr, PoolVec};
use crate::problem::CanProblem;
use crate::region::{Located, Region};
use crate::subs::{RecordField, Variable};
use crate::types::Type2;

verus! {

/// The field `f` once spaces are unwrapped.
pub open spec fn field_core(f: AssignedField) -> AssignedField
    decreases f,
{
    match f {
        AssignedField::SpaceBefore(nested) => field_core(*nested),
        AssignedField::SpaceAfter(nested) => field_core(*nested),
        _ => f,
    }
}

/// The label of the field `f`.
pub open spec fn field_label(f: AssignedField) -> Seq<char> {
    match field_core(f) {
        AssignedField::RequiredValue(name, _) => name.value@,
        AssignedField::OptionalValue(name, _) => name.value@,
        AssignedField::LabelOnly(name) => name.value@,
        _ => Seq::empty(),
    }
}

/// `rf` is what the field `f` gives when it is canonicalized in `wx`: a
/// required or optional field of the canonical type of its annotation, and
/// for a label alone a required field of the rigid of that name (the
/// variable it is bound to, or else the store's next one).
pub open spec fn field_value_in(wx: World, f: AssignedField, rf: RecordField<Type2>) -> bool {
    match field_core(f) {
        AssignedField::RequiredValue(_, ann) => canon(wx, ann.value, ann.region) matches Some((_, t))
            && rf == RecordField::Required(t),
        AssignedField::OptionalValue(_, ann) => canon(wx, ann.value, ann.region) matches Some((_, t))
            && rf == RecordField::Optional(t),
        AssignedField::LabelOnly(name) => rf == RecordField::Required(Type2::Variable(match assoc_get(wx.refs.named, name.value@) {
            Some(v) => v,
            None => Variable(wx.env.next_var),
        })),
        _ => false,
    }
}

/// `rf` is what the field `f` gives in some world reached from `w`.
pub open spec fn field_value_from(w: World, f: AssignedField, rf: RecordField<Type2>) -> bool {
    exists|wx: World|
        #![trigger extends(w, wx, w.env.nodes.len())]
        extends(w, wx, w.env.nodes.len()) && field_value_in(wx, f, rf)
}

/// `k` is the last of the first `i` fields that has the label `label`.
pub open spec fn last_field_before(fields: Seq<Located<AssignedField>>, label: Seq<char>, k: int, i: int) -> bool {
    &&& 0 <= k < i <= fields.len()
    &&& field_label(fields[k].value) == label
    &&& forall|m: int| k < m < i ==> field_label(#[trigger] fields[m].value) != label
}

/// Among the first `i` fields, the last one labelled `label` gives `rf`.
pub open spec fn stands_for(w: World, fields: Seq<Located<AssignedField>>, label: Seq<char>, rf: RecordField<Type2>, i: int) -> bool {
    exists|k: int| #[trigger] last_field_before(fields, label, k, i) && field_value_from(w, fields[k].value, rf)
}

/// The label stored for the field in node `id` of `w2`.
pub open spec fn label_in_node(w2: World, id: int) -> Option<Seq<char>> {
    match w2.env.nodes[id].node {
        PoolNode::Field(ps, _) => if (ps.node.0 as int) < w2.env.nodes.len() {
            match w2.env.nodes[ps.node.0 as int].node {
                PoolNode::Str(s) => Some(s@),
                _ => None,
            }
        } else {
            None
        },
        _ => None,
    }
}

/// Node `id` of `w2` holds a field: a label, stored in a node of its own,
/// and the field of the last of `fields` with that label.
pub open spec fn field_in_node(w: World, fields: Seq<Located<AssignedField>>, w2: World, id: int) -> bool {
    w2.env.nodes[id].node matches PoolNode::Field(_, rf) && label_in_node(w2, id) matches Some(label)
        && stands_for(w, fields, label, rf, fields.len() as int)
}

/// Some node of the run `ft` holds a field labelled `label`.
pub open spec fn label_listed(w2: World, ft: PoolVec, label: Seq<char>) -> bool {
    exists|j: int| 0 <= j < ft.len && #[trigger] label_in_node(w2, ft.first.0 + j) == Some(label)
}

/// `t` is a record whose run of field nodes holds, for each label of the
/// fields `kept`, one field: that of the last field with that label.
pub open spec fn record_fields_in_nodes(w: World, kept: Seq<Located<AssignedField>>, t: Type2, w2: World) -> bool {
    &&& t is Record
    &&& forall|j: int| 0 <= j < t->Record_0.len ==> #[trigger] field_in_node(w, kept, w2, t->Record_0.first.0 + j)
    &&& kept.len() <= u32::MAX ==> forall|k: int|
        0 <= k < kept.len() ==> #[trigger] label_listed(w2, t->Record_0, field_label(kept[k].value))
}

proof fn lemma_field_value(wc: World, f: AssignedField)
    requires
        !field_malformed(f),
    ensures
        assigned_field(wc, f) matches Some((_, r)) ==> (r matches Some((lab, rf)) && lab@ == field_label(f)
            && field_value_in(wc, f, rf)),
    decreases f,
{
    match f {
        AssignedField::SpaceBefore(nested) => lemma_field_value(wc, *nested),
        AssignedField::SpaceAfter(nested) => lemma_field_value(wc, *nested),
        _ => {},
    }
}

proof fn lemma_fields_walk(
    w0: World,
    w: World,
    fields: Seq<Located<AssignedField>>,
    region: Region,
    i: nat,
    entries: Seq<(String, RecordField<Type2>)>,
    seen: Seq<(String, Region)>,
)
    requires
        i <= fields.len(),
        forall|k: int| 0 <= k < fields.len() ==> !field_malformed(#[trigger] fields[k].value),
        extends(w0, w, w0.env.nodes.len()),
        distinct_names(entries),
        entries.len() <= i,
        forall|j: int| 0 <= j < entries.len() ==> #[trigger] stands_for(w0, fields, entries[j].0@, entries[j].1, i as int),
        forall|k: int| 0 <= k < i ==> #[trigger] assoc_index(entries, field_label(fields[k].value)) is Some,
    ensures
        fields_from(w, fields, region, i, entries, seen) matches Some((_, es)) ==> {
            &&& distinct_names(es)
            &&& es.len() <= fields.len()
            &&& forall|j: int| 0 <= j < es.len() ==> #[trigger] stands_for(w0, fields, es[j].0@, es[j].1, fields.len() as int)
            &&& forall|k: int| 0 <= k < fields.len() ==> #[trigger] assoc_index(es, field_label(fields[k].value)) is Some
        },
    decreases fields.len() - i,
{
    if i < fields.len() {
        let f = fields[i as int].value;
        assert(!field_malformed(fields[i as int].value));
        lemma_field_value(w, f);
        lemma_assigned_field_extends(w, f);
        if let Some((w1, Some((label, field)))) = assigned_field(w, f) {
            let field_region = fields[i as int].region;
            let w2 = match assoc_get(seen, label@) {
                Some(replaced_region) => {
                    let p = CanProblem::DuplicateRecordFieldType {
                        field_name: label,
                        record_region: region,
                        field_region,
                        replaced_region,
                    };
                    lemma_report(w1, p);
                    report(w1, p)
                },
                None => {
                    lemma_extends_refl(w1, w1.env.nodes.len());
                    w1
                },
            };
            lemma_extends_trans(w0, w, w1, w0.env.nodes.len(), w.env.nodes.len());
            lemma_extends_trans(w0, w1, w2, w0.env.nodes.len(), w1.env.nodes.len());
            let entries2 = assoc_insert(entries, label, field);
            lemma_assoc_insert_distinct(entries, label, field);
            lemma_assoc_index_bounds(entries, label@);
            let ni = (i + 1) as int;
            // the new field stands for its label
            assert(field_value_from(w0, f, field)) by {
                assert(extends(w0, w, w0.env.nodes.len()));
            }
            assert(last_field_before(fields, label@, i as int, ni));
            assert forall|j: int| 0 <= j < entries2.len() implies #[trigger] stands_for(w0, fields, entries2[j].0@, entries2[j].1, ni) by {
                if entries2[j].0@ == label@ {
                    assert(entries2[j].1 == field) by {
                        match assoc_index(entries, label@) {
                            Some(p) => {
                                if j != p {
                                    assert(entries[j].0@ == entries2[j].0@);
                                    assert(entries[p].0@ == label@);
                                    if j < p {
                                        assert(entries[j].0@ != entries[p].0@);
                                    } else {
                                        assert(entries[p].0@ != entries[j].0@);
                                    }
                                }
                            },
                            None => {
                                if j < entries.len() {
                                    lemma_assoc_index_some(entries, label@, j);
                                }
                            },
                        }
                    }
                    assert(last_field_before(fields, entries2[j].0@, i as int, ni));
                } else {
                    assert(entries2[j] == entries[j]);
                    assert(stands_for(w0, fields, entries[j].0@, entries[j].1, i as int));
                    let k = choose|k: int| #[trigger] last_field_before(fields, entries[j].0@, k, i as int)
                        && field_value_from(w0, fields[k].value, entries[j].1);
                    assert(last_field_before(fields, entries2[j].0@, k, ni));
                }
            }
            assert forall|k: int| 0 <= k < ni implies #[trigger] assoc_index(entries2, field_label(fields[k].value)) is Some by {
                let lk = field_label(fields[k].value);
                if k == i {
                    match assoc_index(entries, label@) {
                        Some(p) => lemma_assoc_index_some(entries2, lk, p),
                        None => lemma_assoc_index_some(entries2, lk, entries.len() as int),
                    }
                } else {
                    assert(assoc_index(entries, lk) is Some);
                    lemma_assoc_index_bounds(entries, lk);
                    let q = assoc_index(entries, lk)->Some_0;
                    assert(entries2[q].0@ == lk);
                    lemma_assoc_index_some(entries2, lk, q);
                }
            }
            lemma_fields_walk(w0, w2, fields, region, i + 1, entries2, assoc_insert(seen, label, field_region));
        }
    }
}

/// The field `e` is written to node `id` of `w3`: its label in a node of
/// its own, and its field.
pub open spec fn field_written(e: (String, RecordField<Type2>), w3: World, id: int) -> bool {
    w3.env.nodes[id].node matches PoolNode::Field(ps, rf) && {
        &&& rf == e.1
        &&& (ps.node.0 as int) < w3.env.nodes.len()
        &&& w3.env.nodes[ps.node.0 as int].node == PoolNode::Str(e.0)
    }
}

proof fn lemma_write_fields_nodes(w: World, es: Seq<(String, RecordField<Type2>)>, first: u32, i: nat, n: nat)
    requires
        first + n <= w.env.nodes.len(),
        first + n <= u32::MAX,
    ensures
        write_fields(w, es, first, i, n) matches Some(w3) ==> {
            &&& w.env.nodes.len() <= w3.env.nodes.len()
            &&& forall|j: int| #![trigger es[j]] i <= j < n && j < es.len() ==> field_written(es[j], w3, first + j)
            &&& forall|idx: int| 0 <= idx < w.env.nodes.len() && (idx < first + i || idx >= first + n)
                ==> #[trigger] w3.env.nodes[idx] == w.env.nodes[idx]
        },
    decreases n - i,
{
    if i < n && i < es.len() {
        if let Some((w1, label_id)) = add_node(w, PoolNode::Str(es[i as int].0)) {
            let id = NodeId((first + i) as u32);
            let node = PoolNode::Field(PoolStr { node: label_id }, es[i as int].1);
            if let Some(w2) = write_node(w1, id, node) {
                lemma_write_fields_nodes(w2, es, first, i + 1, n);
                if let Some(w3) = write_fields(w2, es, first, i + 1, n) {
                    assert(w2.env.nodes[first + i].node == node);
                    assert(w2.env.nodes[w.env.nodes.len() as int].node == PoolNode::Str(es[i as int].0));
                    assert(w3.env.nodes[first + i] == w2.env.nodes[first + i]);
                    assert(w3.env.nodes[w.env.nodes.len() as int] == w2.env.nodes[w.env.nodes.len() as int]);
                    assert(field_written(es[i as int], w3, first + i));
                    assert forall|idx: int| 0 <= idx < w.env.nodes.len() && (idx < first + i || idx >= first + n)
                        implies #[trigger] w3.env.nodes[idx] == w.env.nodes[idx] by {
                        assert(w3.env.nodes[idx] == w2.env.nodes[idx]);
                    }
                }
            }
        }
    }
}

proof fn lemma_well_formed_fields(fields: Seq<Located<AssignedField>>)
    ensures
        well_formed_fields(fields).len() <= fields.len(),
        forall|k: int| 0 <= k < well_formed_fields(fields).len()
            ==> !field_malformed(#[trigger] well_formed_fields(fields)[k].value),
    decreases fields.len(),
{
    if fields.len() > 0 {
        let rest = fields.drop_first();
        lemma_well_formed_fields(rest);
        if !field_malformed(fields[0].value) {
            let g = seq![fields[0]] + well_formed_fields(rest);
            assert forall|k: int| 0 <= k < g.len() implies !field_malformed(#[trigger] g[k].value) by {
                if k > 0 {
                    assert(g[k] == well_formed_fields(rest)[k - 1]);
                }
            }
        }
    }
}

/// A canonical record holds one field per label of its well-formed fields,
/// one per node of its run of field nodes: each node holds a label, stored
/// in a node of its own, and the field that the last (right-most) field with
/// that label gives: a required or optional field of the canonical type of
/// its annotation, or for a label alone a required field of the rigid of
/// that name, canonicalized in a world reached from the one before the
/// record. Every label of the record's fields is held by some node.
pub proof fn law_record_fields(
    w: World,
    fields: Vec<Located<AssignedField>>,
    ext: Option<Box<Located<TypeAnnotation>>>,
    region: Region,
)
    ensures
        canon(w, TypeAnnotation::Record { fields, ext }, region) matches Some((w2, t))
            ==> record_fields_in_nodes(w, well_formed_fields(fields@), t, w2),
{
    let k0 = w.env.nodes.len();
    let kept = well_formed_fields(fields@);
    lemma_malformed_fields(w, fields@, region, Seq::empty(), Seq::empty());
    lemma_well_formed_fields(fields@);
    lemma_extends_refl(w, k0);
    lemma_fields_walk(w, w, kept, region, 0, Seq::empty(), Seq::empty());
    lemma_fields_from_extends(w, kept, region, 0, Seq::empty(), Seq::empty());
    if let Some((w1, es)) = fields_from(w, kept, region, 0, Seq::empty(), Seq::empty()) {
        let n = es.len() as u32;
        lemma_reserve(w1, n);
        if let Some((w2, ft)) = reserve(w1, n) {
            lemma_write_fields_nodes(w2, es, ft.first.0, 0, n as nat);
            lemma_write_fields(w2, es, ft.first.0, 0, n as nat, w1.env.nodes.len());
            if let Some(w3) = write_fields(w2, es, ft.first.0, 0, n as nat) {
                lemma_extends_trans(w1, w2, w3, w1.env.nodes.len(), w1.env.nodes.len());
                let ext_type = match ext {
                    Some(loc_ann) => to_type_id_spec(w3, loc_ann.value, region),
                    None => add_type(w3, Type2::EmptyRec, region),
                };
                match ext {
                    Some(loc_ann) => law_to_type_id_extends(w3, loc_ann.value, region),
                    None => lemma_add_type(w3, Type2::EmptyRec, region),
                }
                if let Some((w4, ext_id)) = ext_type {
                    let t = Type2::Record(ft, ext_id);
                    assert(canon(w, TypeAnnotation::Record { fields, ext }, region) == Some((w4, t)));
                    assert forall|j: int| 0 <= j < ft.len implies #[trigger] field_in_node(w, kept, w4, ft.first.0 + j) by {
                        assert(field_written(es[j], w3, ft.first.0 + j));
                        let id = ft.first.0 + j;
                        assert(w4.env.nodes[id] == w3.env.nodes[id]);
                        let ps = w3.env.nodes[id].node->Field_0;
                        assert(w4.env.nodes[ps.node.0 as int] == w3.env.nodes[ps.node.0 as int]);
                        assert(label_in_node(w4, id) == Some(es[j].0@));
                        assert(stands_for(w, kept, es[j].0@, es[j].1, kept.len() as int));
                    }
                    if kept.len() <= u32::MAX {
                        assert forall|k: int| 0 <= k < kept.len() implies #[trigger] label_listed(w4, ft, field_label(kept[k].value)) by {
                            let lk = field_label(kept[k].value);
                            assert(assoc_index(es, lk) is Some);
                            lemma_assoc_index_bounds(es, lk);
                            let p = assoc_index(es, lk)->Some_0;
                            assert(field_written(es[p], w3, ft.first.0 + p));
                            let id = ft.first.0 + p;
                            assert(w4.env.nodes[id] == w3.env.nodes[id]);
                            let ps = w3.env.nodes[id].node->Field_0;
                            assert(w4.env.nodes[ps.node.0 as int] == w3.env.nodes[ps.node.0 as int]);
                            assert(label_in_node(w4, ft.first.0 + p) == Some(lk));
                        }
                    }
                }
            }
        }
    }
}

} // verus!

verus! {

/// The region of the last of the first `i` fields labelled `label`.
pub open spec fn last_region(fields: Seq<Located<AssignedField>>, label: Seq<char>, i: nat) -> Option<Region>
    decreases i,
{
    if i == 0 || i > fields.len() {
        None
    } else if field_label(fields[i - 1].value) == label {
        Some(fields[i - 1].region)
    } else {
        last_region(fields, label, (i - 1) as nat)
    }
}

proof fn lemma_last_region(fields: Seq<Located<AssignedField>>, label: Seq<char>, m: int, i: nat)
    requires
        last_field_before(fields, label, m, i as int),
    ensures
        last_region(fields, label, i) == Some(fields[m].region),
    decreases i,
{
    if m < i - 1 {
        assert(field_label(fields[i - 1].value) != label);
        lemma_last_region(fields, label, m, (i - 1) as nat);
    }
}

/// `problem` reports that the field at `field_region`, labelled `label`, of
/// the record at `region` repeats the label of the field at `replaced_region`.
pub open spec fn duplicate_field_problem(problem: CanProblem, label: Seq<char>, region: Region, field_region: Region, replaced_region: Region) -> bool {
    problem matches CanProblem::DuplicateRecordFieldType { field_name, record_region, field_region: fr, replaced_region: rr }
        && field_name@ == label && record_region == region && fr == field_region && rr == replaced_region
}

/// Such a problem is among `problems` from position `from` on.
pub open spec fn duplicate_field_reported(problems: Seq<CanProblem>, from: int, label: Seq<char>, region: Region, field_region: Region, replaced_region: Region) -> bool {
    exists|p: int| from <= p < problems.len() && #[trigger] duplicate_field_problem(problems[p], label, region, field_region, replaced_region)
}

proof fn lemma_reported_persists(a: Seq<CanProblem>, b: Seq<CanProblem>, from: int, label: Seq<char>, region: Region, fr: Region, rr: Region)
    requires
        0 <= from,
        duplicate_field_reported(a, from, label, region, fr, rr),
        crate::laws::prefix_of(a, b),
    ensures
        duplicate_field_reported(b, from, label, region, fr, rr),
{
    let p = choose|p: int| from <= p < a.len() && #[trigger] duplicate_field_problem(a[p], label, region, fr, rr);
    assert(b[p] == a[p]);
}

proof fn lemma_fields_dups(
    w0: World,
    w: World,
    fields: Seq<Located<AssignedField>>,
    region: Region,
    i: nat,
    entries: Seq<(String, RecordField<Type2>)>,
    seen: Seq<(String, Region)>,
)
    requires
        i <= fields.len(),
        forall|k: int| 0 <= k < fields.len() ==> !field_malformed(#[trigger] fields[k].value),
        extends(w0, w, w0.env.nodes.len()),
        forall|label: Seq<char>| #[trigger] assoc_get(seen, label) == last_region(fields, label, i),
        forall|k: int, m: int|
            k < i && #[trigger] last_field_before(fields, field_label(fields[k].value), m, k)
                ==> duplicate_field_reported(w.env.problems, w0.env.problems.len() as int, field_label(fields[k].value), region, fields[k].region, fields[m].region),
    ensures
        fields_from(w, fields, region, i, entries, seen) matches Some((w1, _)) ==> forall|k: int, m: int|
            k < fields.len() && #[trigger] last_field_before(fields, field_label(fields[k].value), m, k)
                ==> duplicate_field_reported(w1.env.problems, w0.env.problems.len() as int, field_label(fields[k].value), region, fields[k].region, fields[m].region),
    decreases fields.len() - i,
{
    if i < fields.len() {
        let f = fields[i as int].value;
        assert(!field_malformed(fields[i as int].value));
        lemma_field_value(w, f);
        lemma_assigned_field_extends(w, f);
        if let Some((w1, Some((label, field)))) = assigned_field(w, f) {
            let field_region = fields[i as int].region;
            let w2 = match assoc_get(seen, label@) {
                Some(replaced_region) => {
                    let p = CanProblem::DuplicateRecordFieldType {
                        field_name: label,
                        record_region: region,
                        field_region,
                        replaced_region,
                    };
                    lemma_report(w1, p);
                    report(w1, p)
                },
                None => {
                    lemma_extends_refl(w1, w1.env.nodes.len());
                    w1
                },
            };
            lemma_extends_trans(w0, w, w1, w0.env.nodes.len(), w.env.nodes.len());
            lemma_extends_trans(w0, w1, w2, w0.env.nodes.len(), w1.env.nodes.len());
            lemma_extends_trans(w, w1, w2, w.env.nodes.len(), w1.env.nodes.len());
            let seen2 = assoc_insert(seen, label, field_region);
            let ni = (i + 1) as nat;
            assert forall|l: Seq<char>| #[trigger] assoc_get(seen2, l) == last_region(fields, l, ni) by {
                lemma_assoc_get_insert(seen, label, field_region, l);
                assert(assoc_get(seen, l) == last_region(fields, l, i));
            }
            assert forall|k: int, m: int|
                k < ni && #[trigger] last_field_before(fields, field_label(fields[k].value), m, k)
                    implies duplicate_field_reported(w2.env.problems, w0.env.problems.len() as int, field_label(fields[k].value), region, fields[k].region, fields[m].region) by {
                if k < i {
                    lemma_reported_persists(w.env.problems, w2.env.problems, w0.env.problems.len() as int, field_label(fields[k].value), region, fields[k].region, fields[m].region);
                } else {
                    lemma_last_region(fields, label@, m, i);
                    assert(assoc_get(seen, label@) == last_region(fields, label@, i));
                    let p = w1.env.problems.len() as int;
                    assert(w2.env.problems[p] == CanProblem::DuplicateRecordFieldType {
                        field_name: label,
                        record_region: region,
                        field_region,
                        replaced_region: fields[m].region,
                    });
                    assert(duplicate_field_problem(w2.env.problems[p], label@, region, field_region, fields[m].region));
                }
            }
            lemma_fields_dups(w0, w2, fields, region, ni, assoc_insert(entries, label, field), seen2);
        }
    }
}

/// A record reports each repeated label: for every well-formed field whose
/// label an earlier field has already, a duplicate-field problem names the
/// label, the record's region, the field's region and the region of the last
/// earlier field with that label.
pub proof fn law_record_duplicates_reported(
    w: World,
    fields: Vec<Located<AssignedField>>,
    ext: Option<Box<Located<TypeAnnotation>>>,
    region: Region,
)
    ensures
        canon(w, TypeAnnotation::Record { fields, ext }, region) matches Some((w2, _)) ==> forall|k: int, m: int|
            k < well_formed_fields(fields@).len() && #[trigger] last_field_before(well_formed_fields(fields@), field_label(well_formed_fields(fields@)[k].value), m, k)
                ==> duplicate_field_reported(
                    w2.env.problems,
                    w.env.problems.len() as int,
                    field_label(well_formed_fields(fields@)[k].value),
                    region,
                    well_formed_fields(fields@)[k].region,
                    well_formed_fields(fields@)[m].region,
                ),
{
    let k0 = w.env.nodes.len();
    let kept = well_formed_fields(fields@);
    lemma_malformed_fields(w, fields@, region, Seq::empty(), Seq::empty());
    lemma_well_formed_fields(fields@);
    lemma_extends_refl(w, k0);
    let seen0 = Seq::<(String, Region)>::empty();
    assert forall|l: Seq<char>| #[trigger] assoc_get(seen0, l) == last_region(kept, l, 0) by {}
    lemma_fields_dups(w, w, kept, region, 0, Seq::empty(), seen0);
    lemma_fields_from_extends(w, kept, region, 0, Seq::empty(), seen0);
    if let Some((w1, es)) = fields_from(w, kept, region, 0, Seq::empty(), seen0) {
        let n = es.len() as u32;
        lemma_reserve(w1, n);
        if let Some((w2, ft)) = reserve(w1, n) {
            lemma_write_fields(w2, es, ft.first.0, 0, n as nat, w1.env.nodes.len());
            if let Some(w3) = write_fields(w2, es, ft.first.0, 0, n as nat) {
                lemma_extends_trans(w1, w2, w3, w1.env.nodes.len(), w1.env.nodes.len());
                let ext_type = match ext {
                    Some(loc_ann) => to_type_id_spec(w3, loc_ann.value, region),
                    None => add_type(w3, Type2::EmptyRec, region),
                };
                match ext {
                    Some(loc_ann) => law_to_type_id_extends(w3, loc_ann.value, region),
                    None => lemma_add_type(w3, Type2::EmptyRec, region),
                }
                if let Some((w4, ext_id)) = ext_type {
                    lemma_extends_trans(w1, w3, w4, w1.env.nodes.len(), w3.env.nodes.len());
                    assert(canon(w, TypeAnnotation::Record { fields, ext }, region) == Some((w4, Type2::Record(ft, ext_id))));
                    assert forall|k: int, m: int|
                        k < kept.len() && #[trigger] last_field_before(kept, field_label(kept[k].value), m, k)
                            implies duplicate_field_reported(w4.env.problems, w.env.problems.len() as int, field_label(kept[k].value), region, kept[k].region, kept[m].region) by {
                        lemma_reported_persists(w1.env.problems, w4.env.problems, w.env.problems.len() as int, field_label(kept[k].value), region, kept[k].region, kept[m].region);
                    }
                }
            }
        }
    }
}

} // verus!
