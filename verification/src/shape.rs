//! Laws on the shape of canonical records and tag unions: where the
//! extension goes, and what the nodes of each tag and of its arguments hold.

use vstd::prelude::*;
use crate::ast::{AssignedField, Tag, TypeAnnotation};
use crate::canon::{
    add_node, add_type, as_type_id_spec, canon, fresh_var, report, write_node, fields_from, fill_types, reserve, tag_args, tag_spec, tags_from,
    to_type_id_spec, type_apply, write_fields, write_tags, World,
};
use crate::env::EnvModel;
use crate::laws::{
    arg_written, extends, prefix_of, lemma_add_type, lemma_extends_refl, lemma_extends_trans, lemma_fields_from_extends,
    lemma_fill_compose, lemma_fill_extends, lemma_fill_writes, lemma_report, lemma_reserve, lemma_tag_spec_extends,
    lemma_tags_from_extends,
    lemma_malformed_tags, lemma_write_fields, lemma_write_tags, law_canon_extends, law_to_type_id_extends,
    law_apply_arguments, law_function_arguments, tag_malformed, well_formed_tags, with_reserved,
};
use crate::assoc::{assoc_get, assoc_insert, lemma_assoc_get_insert};
use crate::pool::{reserved_slots, NodeId, PoolNode, PoolSlot, PoolStr, PoolVec};
use crate::problem::CanProblem;
use crate::symbol::TagName;
use crate::region::{Located, Region};
use crate::subs::Variable;
use crate::types::{Type2, TypeApply};

verus! {

/// `w2` is `wf` after the extension annotation `e` is canonicalized in it and
/// its canonical type added as node `ext_id` at the end of the pool, with
/// `region`.
pub open spec fn extension_from(wf: World, e: TypeAnnotation, region: Region, w2: World, ext_id: NodeId) -> bool {
    canon(wf, e, region) matches Some((wf2, te)) && {
        &&& ext_id.0 == wf2.env.nodes.len()
        &&& w2 == (World {
            env: EnvModel {
                nodes: wf2.env.nodes.push(PoolSlot { node: PoolNode::Type(te), region: Some(region) }),
                ..wf2.env
            },
            ..wf2
        })
    }
}

/// `w2` is `wf` with `t` added as node `ext_id` at the end of the pool, with
/// `region`.
pub open spec fn closed_from(wf: World, t: Type2, region: Region, w2: World, ext_id: NodeId) -> bool {
    &&& ext_id.0 == wf.env.nodes.len()
    &&& w2 == (World {
        env: EnvModel {
            nodes: wf.env.nodes.push(PoolSlot { node: PoolNode::Type(t), region: Some(region) }),
            ..wf.env
        },
        ..wf
    })
}

proof fn lemma_add_type_push(w: World, t: Type2, region: Region)
    ensures
        add_type(w, t, region) matches Some((w2, id)) ==> closed_from(w, t, region, w2, id),
{
    if let Some((w2, id)) = add_type(w, t, region) {
        assert(w2.env.nodes =~= w.env.nodes.push(PoolSlot { node: PoolNode::Type(t), region: Some(region) }));
    }
}

/// The extension of the canonical record or tag union `t`, reached from `w`
/// through the world `wf` that its fields or tags leave: the canonical type
/// of `ext` canonicalized in `wf`, or else `closed`, added at the end of the
/// pool; the fields' or tags' nodes come before `wf`'s end.
pub open spec fn extension_after(
    w: World,
    wf: World,
    items: PoolVec,
    ext_id: NodeId,
    ext: Option<Box<Located<TypeAnnotation>>>,
    closed: Type2,
    region: Region,
    w2: World,
) -> bool {
    &&& extends(w, wf, w.env.nodes.len())
    &&& items.first.0 + items.len <= wf.env.nodes.len()
    &&& match ext {
        Some(e) => extension_from(wf, e.value, region, w2, ext_id),
        None => closed_from(wf, closed, region, w2, ext_id),
    }
}

/// `t` is a record whose extension is as `extension_after` says, for some
/// world that its fields leave.
pub open spec fn record_extension_holds(w: World, ext: Option<Box<Located<TypeAnnotation>>>, region: Region, w2: World, t: Type2) -> bool {
    &&& t is Record
    &&& exists|wf: World| #![trigger extends(w, wf, w.env.nodes.len())] extension_after(w, wf, t->Record_0, t->Record_1, ext, Type2::EmptyRec, region, w2)
}

/// `t` is a tag union whose extension is as `extension_after` says, for some
/// world that its tags leave.
pub open spec fn tag_union_extension_holds(w: World, ext: Option<Box<Located<TypeAnnotation>>>, region: Region, w2: World, t: Type2) -> bool {
    &&& t is TagUnion
    &&& exists|wf: World| #![trigger extends(w, wf, w.env.nodes.len())] extension_after(w, wf, t->TagUnion_0, t->TagUnion_1, ext, Type2::EmptyTagUnion, region, w2)
}

/// The extension of a record comes last: an extension annotation is
/// canonicalized after the fields, in the world they leave, and its
/// canonical type is added at the end of the pool with the record's region;
/// a record without one is closed, its extension the empty record.
pub proof fn law_record_extension(
    w: World,
    fields: Vec<Located<AssignedField>>,
    ext: Option<Box<Located<TypeAnnotation>>>,
    region: Region,
)
    ensures
        canon(w, TypeAnnotation::Record { fields, ext }, region) matches Some((w2, t))
            ==> record_extension_holds(w, ext, region, w2, t),
{
    let k = w.env.nodes.len();
    lemma_fields_from_extends(w, fields@, region, 0, Seq::empty(), Seq::empty());
    if let Some((w1, entries)) = fields_from(w, fields@, region, 0, Seq::empty(), Seq::empty()) {
        let n = entries.len() as u32;
        lemma_reserve(w1, n);
        if let Some((w2, field_types)) = reserve(w1, n) {
            lemma_extends_trans(w, w1, w2, k, w1.env.nodes.len());
            lemma_write_fields(w2, entries, field_types.first.0, 0, n as nat, k);
            if let Some(w3) = write_fields(w2, entries, field_types.first.0, 0, n as nat) {
                lemma_extends_trans(w, w2, w3, k, k);
                match ext {
                    Some(e) => {
                        if let Some((wf2, te)) = canon(w3, e.value, region) {
                            lemma_add_type_push(wf2, te, region);
                        }
                        if let Some((w4, ext_id)) = to_type_id_spec(w3, e.value, region) {
                            assert(extension_from(w3, e.value, region, w4, ext_id));
                            assert(extension_after(w, w3, field_types, ext_id, ext, Type2::EmptyRec, region, w4));
                            assert(canon(w, TypeAnnotation::Record { fields, ext }, region) == Some((w4, Type2::Record(field_types, ext_id))));
                            assert(record_extension_holds(w, ext, region, w4, Type2::Record(field_types, ext_id)));
                        }
                    },
                    None => {
                        lemma_add_type_push(w3, Type2::EmptyRec, region);
                        if let Some((w4, ext_id)) = add_type(w3, Type2::EmptyRec, region) {
                            assert(extension_after(w, w3, field_types, ext_id, ext, Type2::EmptyRec, region, w4));
                            assert(canon(w, TypeAnnotation::Record { fields, ext }, region) == Some((w4, Type2::Record(field_types, ext_id))));
                            assert(record_extension_holds(w, ext, region, w4, Type2::Record(field_types, ext_id)));
                        }
                    },
                }
            }
        }
    }
}

/// The extension of a tag union comes last: an extension annotation is
/// canonicalized after the tags, in the world they leave, and its canonical
/// type is added at the end of the pool with the union's region; a union
/// without one is closed, its extension the empty tag union.
pub proof fn law_tag_union_extension(
    w: World,
    tags: Vec<Located<Tag>>,
    ext: Option<Box<Located<TypeAnnotation>>>,
    region: Region,
)
    ensures
        canon(w, TypeAnnotation::TagUnion { tags, ext }, region) matches Some((w2, t))
            ==> tag_union_extension_holds(w, ext, region, w2, t),
{
    let k = w.env.nodes.len();
    lemma_tags_from_extends(w, tags@, region, 0, Seq::empty(), Seq::empty());
    if let Some((w1, entries)) = tags_from(w, tags@, region, 0, Seq::empty(), Seq::empty()) {
        let n = entries.len() as u32;
        lemma_reserve(w1, n);
        if let Some((w2, tag_types)) = reserve(w1, n) {
            lemma_extends_trans(w, w1, w2, k, w1.env.nodes.len());
            lemma_write_tags(w2, entries, tag_types.first.0, 0, n as nat, k);
            if let Some(w3) = write_tags(w2, entries, tag_types.first.0, 0, n as nat) {
                lemma_extends_trans(w, w2, w3, k, k);
                match ext {
                    Some(e) => {
                        if let Some((wf2, te)) = canon(w3, e.value, region) {
                            lemma_add_type_push(wf2, te, region);
                        }
                        if let Some((w4, ext_id)) = to_type_id_spec(w3, e.value, region) {
                            assert(extension_from(w3, e.value, region, w4, ext_id));
                            assert(extension_after(w, w3, tag_types, ext_id, ext, Type2::EmptyTagUnion, region, w4));
                            assert(canon(w, TypeAnnotation::TagUnion { tags, ext }, region) == Some((w4, Type2::TagUnion(tag_types, ext_id))));
                            assert(tag_union_extension_holds(w, ext, region, w4, Type2::TagUnion(tag_types, ext_id)));
                        }
                    },
                    None => {
                        lemma_add_type_push(w3, Type2::EmptyTagUnion, region);
                        if let Some((w4, ext_id)) = add_type(w3, Type2::EmptyTagUnion, region) {
                            assert(extension_after(w, w3, tag_types, ext_id, ext, Type2::EmptyTagUnion, region, w4));
                            assert(canon(w, TypeAnnotation::TagUnion { tags, ext }, region) == Some((w4, Type2::TagUnion(tag_types, ext_id))));
                            assert(tag_union_extension_holds(w, ext, region, w4, Type2::TagUnion(tag_types, ext_id)));
                        }
                    },
                }
            }
        }
    }
}

} // verus!

verus! {

/// The tag `t` once spaces are unwrapped: its name and its arguments, or
/// nothing for a malformed tag.
pub open spec fn tag_parts(t: Tag) -> Option<(String, Seq<Located<TypeAnnotation>>)>
    decreases t,
{
    match t {
        Tag::Global { name, args } => Some((name.value, args@)),
        Tag::Private { name, args } => Some((name.value, args@)),
        Tag::SpaceBefore(nested) => tag_parts(*nested),
        Tag::SpaceAfter(nested) => tag_parts(*nested),
        Tag::Malformed(_) => None,
    }
}

/// A pool node holding the type `t`, with `region`.
pub open spec fn typed_slot(t: Type2, region: Region) -> PoolSlot {
    PoolSlot { node: PoolNode::Type(t), region: Some(region) }
}

/// The world after the first `i` arguments are canonicalized one after the
/// other, starting from `w`, each written with its region into its node,
/// argument `k` into node `first + k`; nothing where one of them cannot be.
pub open spec fn args_done(w: World, args: Seq<Located<TypeAnnotation>>, first: nat, i: nat) -> Option<World>
    decreases i,
{
    if i == 0 {
        Some(w)
    } else {
        match args_done(w, args, first, (i - 1) as nat) {
            None => None,
            Some(wp) => match canon(wp, args[i - 1].value, args[i - 1].region) {
                None => None,
                Some((wc, t)) => if first + i - 1 < wc.env.nodes.len() {
                    Some(World {
                        env: EnvModel {
                            nodes: wc.env.nodes.update(first + i - 1 as int, typed_slot(t, args[i - 1].region)),
                            ..wc.env
                        },
                        ..wc
                    })
                } else {
                    None
                },
            },
        }
    }
}

/// Argument `i` sits in node `first + i` of `w2`: its canonical type, in the
/// world that the arguments before it leave, with its region.
pub open spec fn arg_in_node(w: World, args: Seq<Located<TypeAnnotation>>, first: nat, i: nat, w2: World) -> bool {
    args_done(w, args, first, i) matches Some(wp) && canon(wp, args[i as int].value, args[i as int].region) matches Some((_, t))
        && w2.env.nodes[first + i as int] == typed_slot(t, args[i as int].region)
}

/// The first `n` arguments sit in their nodes of `w2`.
pub open spec fn args_in_nodes(w: World, args: Seq<Located<TypeAnnotation>>, first: nat, n: nat, w2: World) -> bool {
    forall|i: nat| i < n ==> #[trigger] arg_in_node(w, args, first, i, w2)
}

/// The run `pv` of argument nodes was set aside at the end of the pool of a
/// world reached from `w`, and the arguments were canonicalized into it from
/// there, each into its node of `w2`.
pub open spec fn args_run_filled(w: World, args: Seq<Located<TypeAnnotation>>, pv: PoolVec, w2: World) -> bool {
    exists|wb: World|
        #![trigger extends(w, wb, w.env.nodes.len())]
        {
            &&& extends(w, wb, w.env.nodes.len())
            &&& wb.env.nodes.len() == pv.first.0
            &&& args_in_nodes(
                World { env: EnvModel { nodes: wb.env.nodes + reserved_slots(pv.len as nat), ..wb.env }, ..wb },
                args,
                pv.first.0 as nat,
                pv.len as nat,
                w2,
            )
        }
}

/// The tag `tag` sits in node `id` of `w2`: the node holds its name, stored
/// in a node of its own, and the run of its argument nodes, one for each
/// argument, filled as `args_run_filled` says.
pub open spec fn tag_in_node(w: World, tag: Tag, w2: World, id: int) -> bool {
    tag_parts(tag) matches Some((name, args)) && w2.env.nodes[id].node matches PoolNode::Tag(name_str, pv) && {
        &&& (name_str.node.0 as int) < w2.env.nodes.len()
        &&& w2.env.nodes[name_str.node.0 as int].node == PoolNode::Str(name)
        &&& pv.len == args.len() as u32
        &&& args_run_filled(w, args, pv, w2)
    }
}

/// `t` is a tag union whose run of tag nodes holds the tags `kept`, in
/// order, tag `j` in node `first + j`.
pub open spec fn tags_in_nodes(w: World, kept: Seq<Located<Tag>>, t: Type2, w2: World) -> bool {
    &&& t is TagUnion
    &&& t->TagUnion_0.len == kept.len() as u32
    &&& forall|j: int| 0 <= j < t->TagUnion_0.len ==> #[trigger] tag_in_node(w, kept[j].value, w2, t->TagUnion_0.first.0 + j)
}

} // verus!

verus! {

proof fn lemma_args_done_fill(w: World, args: Seq<Located<TypeAnnotation>>, first: u32, i: nat)
    requires
        first + i <= u32::MAX,
        i <= args.len(),
    ensures
        fill_types(w, args, first, 0, i) == args_done(w, args, first as nat, i),
    decreases i,
{
    if i > 0 {
        let p = (i - 1) as nat;
        lemma_args_done_fill(w, args, first, p);
        lemma_fill_compose(w, args, first, 0, p, i);
        if let Some(wp) = fill_types(w, args, first, 0, p) {
            let id = NodeId((first + p) as u32);
            let a = args[p as int];
            assert(fill_types(wp, args, first, p, i) == match as_type_id_spec(wp, id, a.value, a.region) {
                None => None,
                Some(w1) => fill_types(w1, args, first, i, i),
            });
            if let Some((wc, t)) = canon(wp, a.value, a.region) {
                if (id.0 as int) < wc.env.nodes.len() {
                    let w3 = as_type_id_spec(wp, id, a.value, a.region)->Some_0;
                    assert(w3.env.nodes =~= wc.env.nodes.update(first + i - 1, typed_slot(t, a.region)));
                }
            }
        }
    }
}

proof fn lemma_fill_args_in_nodes(w1: World, args: Seq<Located<TypeAnnotation>>, first: u32, n: nat)
    requires
        first + n <= u32::MAX,
        first <= w1.env.nodes.len(),
        n <= args.len(),
    ensures
        fill_types(w1, args, first, 0, n) matches Some(w2) ==> args_in_nodes(w1, args, first as nat, n, w2),
{
    lemma_fill_writes(w1, args, first, n);
    if let Some(w2) = fill_types(w1, args, first, 0, n) {
        assert forall|i: nat| i < n implies #[trigger] arg_in_node(w1, args, first as nat, i, w2) by {
            assert(arg_written(w1, args, first, i, w2));
            lemma_args_done_fill(w1, args, first, i);
        }
    }
}

proof fn lemma_tag_parts_malformed(t: Tag)
    ensures
        tag_parts(t) is None <==> tag_malformed(t),
    decreases t,
{
    match t {
        Tag::SpaceBefore(nested) => lemma_tag_parts_malformed(*nested),
        Tag::SpaceAfter(nested) => lemma_tag_parts_malformed(*nested),
        _ => {},
    }
}

proof fn lemma_tag_spec_parts(w: World, t: Tag)
    ensures
        tag_parts(t) matches Some((name, args)) ==> tag_spec(w, t) == tag_args(w, name, args),
    decreases t,
{
    match t {
        Tag::SpaceBefore(nested) => lemma_tag_spec_parts(w, *nested),
        Tag::SpaceAfter(nested) => lemma_tag_spec_parts(w, *nested),
        _ => {},
    }
}

/// What a canonicalized tag leaves: its name and a run of argument nodes,
/// one for each argument, filled from `w`, ending below the pool's end.
pub open spec fn entry_ok(w: World, tag: Tag, e: (String, PoolVec), w1: World) -> bool {
    tag_parts(tag) matches Some((name, args)) && {
        &&& e.0 == name
        &&& e.1.len == args.len() as u32
        &&& e.1.first.0 + e.1.len <= w1.env.nodes.len()
        &&& args_run_filled(w, args, e.1, w1)
    }
}

proof fn lemma_tag_entry(w: World, t: Tag)
    requires
        !tag_malformed(t),
    ensures
        tag_spec(w, t) matches Some((w2, e)) ==> (e matches Some(e) && entry_ok(w, t, e, w2)),
{
    lemma_tag_parts_malformed(t);
    lemma_tag_spec_parts(w, t);
    let (name, args) = tag_parts(t)->Some_0;
    let n = args.len() as u32;
    lemma_reserve(w, n);
    if let Some((w1, pv)) = reserve(w, n) {
        lemma_fill_args_in_nodes(w1, args, pv.first.0, n as nat);
        lemma_fill_extends(w1, args, pv.first.0, 0, n as nat, w.env.nodes.len());
        if let Some(w2) = fill_types(w1, args, pv.first.0, 0, n as nat) {
            lemma_extends_refl(w, w.env.nodes.len());
            assert(w1 == (World { env: EnvModel { nodes: w.env.nodes + reserved_slots(pv.len as nat), ..w.env }, ..w }));
            assert(args_run_filled(w, args, pv, w2));
        }
    }
}

proof fn lemma_args_run_stable(w: World, args: Seq<Located<TypeAnnotation>>, pv: PoolVec, wa: World, wb: World, keep: nat)
    requires
        args_run_filled(w, args, pv, wa),
        extends(wa, wb, keep),
        pv.first.0 + pv.len <= keep,
    ensures
        args_run_filled(w, args, pv, wb),
{
    let w0 = choose|w0: World|
        #![trigger extends(w, w0, w.env.nodes.len())]
        {
            &&& extends(w, w0, w.env.nodes.len())
            &&& w0.env.nodes.len() == pv.first.0
            &&& args_in_nodes(
                World { env: EnvModel { nodes: w0.env.nodes + reserved_slots(pv.len as nat), ..w0.env }, ..w0 },
                args,
                pv.first.0 as nat,
                pv.len as nat,
                wa,
            )
        };
    let wr = World { env: EnvModel { nodes: w0.env.nodes + reserved_slots(pv.len as nat), ..w0.env }, ..w0 };
    assert forall|i: nat| i < pv.len implies #[trigger] arg_in_node(wr, args, pv.first.0 as nat, i, wb) by {
        assert(arg_in_node(wr, args, pv.first.0 as nat, i, wa));
        assert(wb.env.nodes[pv.first.0 + i] == wa.env.nodes[pv.first.0 + i]);
    }
    assert(extends(w, w0, w.env.nodes.len()));
}

proof fn lemma_args_run_rebase(w: World, w1: World, args: Seq<Located<TypeAnnotation>>, pv: PoolVec, w2: World)
    requires
        extends(w, w1, w.env.nodes.len()),
        args_run_filled(w1, args, pv, w2),
    ensures
        args_run_filled(w, args, pv, w2),
{
    let w0 = choose|w0: World|
        #![trigger extends(w1, w0, w1.env.nodes.len())]
        {
            &&& extends(w1, w0, w1.env.nodes.len())
            &&& w0.env.nodes.len() == pv.first.0
            &&& args_in_nodes(
                World { env: EnvModel { nodes: w0.env.nodes + reserved_slots(pv.len as nat), ..w0.env }, ..w0 },
                args,
                pv.first.0 as nat,
                pv.len as nat,
                w2,
            )
        };
    lemma_extends_trans(w, w1, w0, w.env.nodes.len(), w1.env.nodes.len());
    assert(extends(w, w0, w.env.nodes.len()));
}

} // verus!

verus! {

proof fn lemma_tags_entries(
    w: World,
    tags: Seq<Located<Tag>>,
    region: Region,
    i: nat,
    entries: Seq<(String, PoolVec)>,
    seen: Seq<(String, Region)>,
)
    requires
        i <= tags.len(),
        forall|k: int| 0 <= k < tags.len() ==> !tag_malformed(#[trigger] tags[k].value),
    ensures
        tags_from(w, tags, region, i, entries, seen) matches Some((w1, es)) ==> {
            &&& es.len() == entries.len() + tags.len() - i
            &&& forall|k: int| 0 <= k < entries.len() ==> #[trigger] es[k] == entries[k]
            &&& forall|k: int|
                #![trigger tags[k]]
                i <= k < tags.len() ==> entry_ok(w, tags[k].value, es[entries.len() + k - i], w1)
        },
    decreases tags.len() - i,
{
    let k0 = w.env.nodes.len();
    if i < tags.len() {
        let tag = tags[i as int].value;
        assert(!tag_malformed(tags[i as int].value));
        lemma_tag_entry(w, tag);
        lemma_tag_spec_extends(w, tag);
        if let Some((w1, Some((name, arg_types)))) = tag_spec(w, tag) {
            let tag_region = tags[i as int].region;
            let w2 = match assoc_get(seen, name@) {
                Some(replaced_region) => {
                    let p = CanProblem::DuplicateTag {
                        tag_name: TagName::Global(name),
                        tag_union_region: region,
                        tag_region,
                        replaced_region,
                    };
                    lemma_report(w1, p);
                    report(w1, p)
                },
                None => {
                    lemma_extends_refl(w1, w1.env.nodes.len());
                    w1
                },
            };
            let e = (name, arg_types);
            let entries2 = entries.push(e);
            let seen2 = assoc_insert(seen, name, tag_region);
            lemma_tags_entries(w2, tags, region, i + 1, entries2, seen2);
            lemma_tags_from_extends(w2, tags, region, i + 1, entries2, seen2);
            if let Some((w3, es)) = tags_from(w2, tags, region, i + 1, entries2, seen2) {
                lemma_extends_trans(w, w1, w2, k0, w1.env.nodes.len());
                lemma_extends_trans(w1, w2, w3, w1.env.nodes.len(), w2.env.nodes.len());
                assert(es[entries.len() as int] == entries2[entries.len() as int]);
                assert forall|k: int| #![trigger tags[k]] i <= k < tags.len() implies entry_ok(w, tags[k].value, es[entries.len() + k - i], w3) by {
                    if k == i {
                        lemma_args_run_stable(w, tag_parts(tag)->Some_0.1, arg_types, w1, w3, w1.env.nodes.len());
                    } else {
                        assert(entries2.len() + k - (i + 1) == entries.len() + k - i);
                        assert(entry_ok(w2, tags[k].value, es[entries2.len() + k - (i + 1)], w3));
                        lemma_args_run_rebase(w, w2, tag_parts(tags[k].value)->Some_0.1, es[entries.len() + k - i].1, w3);
                    }
                }
                assert forall|k: int| 0 <= k < entries.len() implies #[trigger] es[k] == entries[k] by {
                    assert(es[k] == entries2[k]);
                }
            }
        }
    }
}

/// The tag `e` is written to node `id` of `w3`: its name in a node of its
/// own, and its run of argument nodes.
pub open spec fn tag_written(e: (String, PoolVec), w3: World, id: int) -> bool {
    w3.env.nodes[id].node matches PoolNode::Tag(ps, pv) && {
        &&& pv == e.1
        &&& (ps.node.0 as int) < w3.env.nodes.len()
        &&& w3.env.nodes[ps.node.0 as int].node == PoolNode::Str(e.0)
    }
}

proof fn lemma_write_tags_nodes(w: World, es: Seq<(String, PoolVec)>, first: u32, i: nat, n: nat)
    requires
        first + n <= w.env.nodes.len(),
        first + n <= u32::MAX,
    ensures
        write_tags(w, es, first, i, n) matches Some(w3) ==> {
            &&& w.env.nodes.len() <= w3.env.nodes.len()
            &&& forall|j: int| #![trigger es[j]] i <= j < n && j < es.len() ==> tag_written(es[j], w3, first + j)
            &&& forall|idx: int| 0 <= idx < w.env.nodes.len() && (idx < first + i || idx >= first + n)
                ==> #[trigger] w3.env.nodes[idx] == w.env.nodes[idx]
        },
    decreases n - i,
{
    if i < n && i < es.len() {
        if let Some((w1, name_id)) = add_node(w, PoolNode::Str(es[i as int].0)) {
            let id = NodeId((first + i) as u32);
            let node = PoolNode::Tag(PoolStr { node: name_id }, es[i as int].1);
            if let Some(w2) = write_node(w1, id, node) {
                lemma_write_tags_nodes(w2, es, first, i + 1, n);
                if let Some(w3) = write_tags(w2, es, first, i + 1, n) {
                    assert(w2.env.nodes[first + i].node == node);
                    assert(w2.env.nodes[w.env.nodes.len() as int].node == PoolNode::Str(es[i as int].0));
                    assert(w3.env.nodes[first + i] == w2.env.nodes[first + i]);
                    assert(w3.env.nodes[w.env.nodes.len() as int] == w2.env.nodes[w.env.nodes.len() as int]);
                    assert(tag_written(es[i as int], w3, first + i));
                    assert forall|idx: int| 0 <= idx < w.env.nodes.len() && (idx < first + i || idx >= first + n)
                        implies #[trigger] w3.env.nodes[idx] == w.env.nodes[idx] by {
                        assert(w3.env.nodes[idx] == w2.env.nodes[idx]);
                    }
                }
            }
        }
    }
}

} // verus!

verus! {

proof fn lemma_well_formed_tags(tags: Seq<Located<Tag>>)
    ensures
        forall|k: int| 0 <= k < well_formed_tags(tags).len() ==> !tag_malformed(#[trigger] well_formed_tags(tags)[k].value),
    decreases tags.len(),
{
    if tags.len() > 0 {
        let rest = tags.drop_first();
        lemma_well_formed_tags(rest);
        if !tag_malformed(tags[0].value) {
            let g = seq![tags[0]] + well_formed_tags(rest);
            assert forall|k: int| 0 <= k < g.len() implies !tag_malformed(#[trigger] g[k].value) by {
                if k > 0 {
                    assert(g[k] == well_formed_tags(rest)[k - 1]);
                }
            }
        }
    }
}

/// A canonical tag union holds every well-formed tag, in order, one per node
/// of its run of tag nodes: each node holds the tag's name and the run of
/// its argument nodes, one for each argument, and node `i` of that run holds
/// the canonical type of argument `i`, canonicalized in the world that the
/// arguments before it leave, with that argument's region.
pub proof fn law_tag_union_tags(
    w: World,
    tags: Vec<Located<Tag>>,
    ext: Option<Box<Located<TypeAnnotation>>>,
    region: Region,
)
    ensures
        canon(w, TypeAnnotation::TagUnion { tags, ext }, region) matches Some((w2, t))
            ==> tags_in_nodes(w, well_formed_tags(tags@), t, w2),
{
    let k0 = w.env.nodes.len();
    let kept = well_formed_tags(tags@);
    lemma_malformed_tags(w, tags@, region, Seq::empty(), Seq::empty());
    lemma_well_formed_tags(tags@);
    lemma_tags_entries(w, kept, region, 0, Seq::empty(), Seq::empty());
    lemma_tags_from_extends(w, kept, region, 0, Seq::empty(), Seq::empty());
    if let Some((w1, es)) = tags_from(w, kept, region, 0, Seq::empty(), Seq::empty()) {
        let n = es.len() as u32;
        lemma_reserve(w1, n);
        if let Some((w2, tag_types)) = reserve(w1, n) {
            lemma_write_tags_nodes(w2, es, tag_types.first.0, 0, n as nat);
            lemma_write_tags(w2, es, tag_types.first.0, 0, n as nat, w1.env.nodes.len());
            if let Some(w3) = write_tags(w2, es, tag_types.first.0, 0, n as nat) {
                lemma_extends_trans(w1, w2, w3, w1.env.nodes.len(), w1.env.nodes.len());
                let ext_type = match ext {
                    Some(loc_ann) => to_type_id_spec(w3, loc_ann.value, region),
                    None => add_type(w3, Type2::EmptyTagUnion, region),
                };
                match ext {
                    Some(loc_ann) => law_to_type_id_extends(w3, loc_ann.value, region),
                    None => lemma_add_type(w3, Type2::EmptyTagUnion, region),
                }
                if let Some((w4, ext_id)) = ext_type {
                    let t = Type2::TagUnion(tag_types, ext_id);
                    assert(canon(w, TypeAnnotation::TagUnion { tags, ext }, region) == Some((w4, t)));
                    lemma_extends_trans(w1, w3, w4, w1.env.nodes.len(), w3.env.nodes.len());
                    assert forall|j: int| 0 <= j < tag_types.len implies #[trigger] tag_in_node(w, kept[j].value, w4, tag_types.first.0 + j) by {
                        assert(entry_ok(w, kept[j].value, es[j], w1));
                        assert(tag_written(es[j], w3, tag_types.first.0 + j));
                        let id = tag_types.first.0 + j;
                        assert(w4.env.nodes[id] == w3.env.nodes[id]);
                        let ps = w3.env.nodes[id].node->Tag_0;
                        assert(w4.env.nodes[ps.node.0 as int] == w3.env.nodes[ps.node.0 as int]);
                        lemma_args_run_stable(w, tag_parts(kept[j].value)->Some_0.1, es[j].1, w1, w4, w1.env.nodes.len());
                    }
                }
            }
        }
    }
}

} // verus!

verus! {

/// A function type's arguments sit in the nodes set aside for them at the
/// end of the pool, in order: node `first + i` holds the canonical type of
/// argument `i`, canonicalized in the world that the arguments before it
/// leave, with that argument's region.
pub proof fn law_function_argument_nodes(
    w: World,
    args: Vec<Located<TypeAnnotation>>,
    ret: Box<Located<TypeAnnotation>>,
    region: Region,
)
    ensures
        canon(w, TypeAnnotation::Function(args, ret), region) matches Some((w2, t)) ==> {
            &&& t is Function
            &&& t->Function_0 == (PoolVec { first: NodeId(w.env.nodes.len() as u32), len: args@.len() as u32 })
            &&& args_in_nodes(with_reserved(w, t->Function_0.len), args@, w.env.nodes.len(), args@.len() as u32 as nat, w2)
        },
{
    law_function_arguments(w, args, ret, region);
    let n = args@.len() as u32;
    lemma_reserve(w, n);
    if let Some((w2, t)) = canon(w, TypeAnnotation::Function(args, ret), region) {
        let first = NodeId(w.env.nodes.len() as u32).0;
        assert forall|i: nat| i < n implies #[trigger] arg_in_node(with_reserved(w, n), args@, w.env.nodes.len(), i, w2) by {
            assert(arg_written(with_reserved(w, n), args@, first, i, w2));
            lemma_args_done_fill(with_reserved(w, n), args@, first, i);
        }
    }
}

/// An applied type's arguments sit in the nodes set aside for them at the
/// end of the pool, in order: node `first + i` holds the canonical type of
/// argument `i`, canonicalized in the world that the arguments before it
/// leave, with that argument's region.
pub proof fn law_apply_argument_nodes(
    w: World,
    module_name: String,
    ident: String,
    targs: Vec<Located<TypeAnnotation>>,
    region: Region,
)
    ensures
        canon(w, TypeAnnotation::Apply(module_name, ident, targs), region) matches Some((w2, t)) ==> (t is Apply ==> {
            &&& t->Apply_1 == (PoolVec { first: NodeId(w.env.nodes.len() as u32), len: targs@.len() as u32 })
            &&& args_in_nodes(with_reserved(w, t->Apply_1.len), targs@, w.env.nodes.len(), targs@.len() as u32 as nat, w2)
        }),
{
    law_apply_arguments(w, module_name, ident, targs, region);
    let n = targs@.len() as u32;
    lemma_reserve(w, n);
    if let Some((w2, t)) = canon(w, TypeAnnotation::Apply(module_name, ident, targs), region) {
        if t is Apply {
            let r = type_apply(w, module_name, ident, targs@, region);
            assert(r matches Some((_, TypeApply::Apply(_, _))));
            assert(reserve(w, n) is Some);
            let first = NodeId(w.env.nodes.len() as u32).0;
            assert forall|i: nat| i < n implies #[trigger] arg_in_node(with_reserved(w, n), targs@, w.env.nodes.len(), i, w2) by {
                assert(arg_written(with_reserved(w, n), targs@, first, i, w2));
                lemma_args_done_fill(with_reserved(w, n), targs@, first, i);
            }
        }
    }
}

} // verus!

verus! {

/// The rest of a function type, from the world `wa` that its arguments
/// leave: the return annotation is canonicalized there and its canonical
/// type added at the end of the pool with its region, then the closure gets
/// the store's next variable, in a node after it.
pub open spec fn function_rest_from(wa: World, ret: Located<TypeAnnotation>, t: Type2, w2: World) -> bool {
    canon(wa, ret.value, ret.region) matches Some((wr, tr)) && {
        &&& wr.env.next_var < u32::MAX
        &&& t->Function_2.0 == wr.env.nodes.len()
        &&& t->Function_1.0 == wr.env.nodes.len() + 1
        &&& w2 == (World {
            env: EnvModel {
                nodes: wr.env.nodes.push(typed_slot(tr, ret.region)).push(
                    PoolSlot { node: PoolNode::Type(Type2::Variable(Variable(wr.env.next_var))), region: None },
                ),
                next_var: (wr.env.next_var + 1) as u32,
                ..wr.env
            },
            ..wr
        })
    }
}

/// A function type's return type and closure come after its arguments: the
/// return annotation is canonicalized in the world the arguments leave, its
/// type stored in a new node, and the closure is a fresh variable in the
/// node after it.
pub proof fn law_function_result(
    w: World,
    args: Vec<Located<TypeAnnotation>>,
    ret: Box<Located<TypeAnnotation>>,
    region: Region,
)
    ensures
        canon(w, TypeAnnotation::Function(args, ret), region) matches Some((w2, t)) ==> {
            &&& t is Function
            &&& exists|wa: World|
                #![trigger extends(w, wa, w.env.nodes.len())]
                {
                    &&& extends(w, wa, w.env.nodes.len())
                    &&& t->Function_0.first.0 + t->Function_0.len <= wa.env.nodes.len()
                    &&& function_rest_from(wa, *ret, t, w2)
                }
        },
{
    let k0 = w.env.nodes.len();
    let n = args.len() as u32;
    lemma_reserve(w, n);
    if let Some((w1, arguments)) = reserve(w, n) {
        lemma_fill_extends(w1, args@, arguments.first.0, 0, n as nat, k0);
        if let Some(wa) = fill_types(w1, args@, arguments.first.0, 0, n as nat) {
            lemma_extends_trans(w, w1, wa, k0, k0);
            if let Some((wr, tr)) = canon(wa, ret.value, ret.region) {
                lemma_add_type_push(wr, tr, ret.region);
                assert(to_type_id_spec(wa, ret.value, ret.region) == add_type(wr, tr, ret.region));
                if let Some((w3, rid)) = add_type(wr, tr, ret.region) {
                    if let Some((w4, cv)) = fresh_var(w3) {
                        if let Some((w5, cid)) = add_node(w4, PoolNode::Type(Type2::Variable(cv))) {
                            assert(canon(w, TypeAnnotation::Function(args, ret), region) == Some((w5, Type2::Function(arguments, cid, rid))));
                            assert(w5.env.nodes =~= wr.env.nodes.push(typed_slot(tr, ret.region)).push(
                                PoolSlot { node: PoolNode::Type(Type2::Variable(Variable(wr.env.next_var))), region: None },
                            ));
                            assert(function_rest_from(wa, *ret, Type2::Function(arguments, cid, rid), w5));
                        }
                    }
                }
                if let Some((w2, t)) = canon(w, TypeAnnotation::Function(args, ret), region) {
                    assert(function_rest_from(wa, *ret, t, w2));
                }
            }
        }
    }
}

} // verus!

verus! {

/// The name of the tag `t`.
pub open spec fn tag_label(t: Tag) -> Seq<char> {
    match tag_parts(t) {
        Some((name, _)) => name@,
        None => Seq::empty(),
    }
}

/// `m` is the last of the tags before position `k` named like tag `k`.
pub open spec fn last_tag_before(tags: Seq<Located<Tag>>, m: int, k: int) -> bool {
    &&& 0 <= m < k < tags.len()
    &&& tag_label(tags[m].value) == tag_label(tags[k].value)
    &&& forall|q: int| m < q < k ==> tag_label(#[trigger] tags[q].value) != tag_label(tags[k].value)
}

/// The region of the last of the first `i` tags named `label`.
pub open spec fn last_tag_region(tags: Seq<Located<Tag>>, label: Seq<char>, i: nat) -> Option<Region>
    decreases i,
{
    if i == 0 || i > tags.len() {
        None
    } else if tag_label(tags[i - 1].value) == label {
        Some(tags[i - 1].region)
    } else {
        last_tag_region(tags, label, (i - 1) as nat)
    }
}

proof fn lemma_last_tag_region(tags: Seq<Located<Tag>>, m: int, k: int, i: nat)
    requires
        0 <= m < i <= k < tags.len(),
        tag_label(tags[m].value) == tag_label(tags[k].value),
        forall|q: int| m < q < k ==> tag_label(#[trigger] tags[q].value) != tag_label(tags[k].value),
    ensures
        last_tag_region(tags, tag_label(tags[k].value), i) == Some(tags[m].region),
    decreases i,
{
    if m < i - 1 {
        assert(tag_label(tags[i - 1].value) != tag_label(tags[k].value));
        lemma_last_tag_region(tags, m, k, (i - 1) as nat);
    }
}

/// `problem` reports that the tag at `tag_region`, named `label`, of the tag
/// union at `region` repeats the name of the tag at `replaced_region`.
pub open spec fn duplicate_tag_problem(problem: CanProblem, label: Seq<char>, region: Region, tag_region: Region, replaced_region: Region) -> bool {
    problem matches CanProblem::DuplicateTag { tag_name, tag_union_region, tag_region: tr, replaced_region: rr }
        && tag_name matches TagName::Global(name) && name@ == label && tag_union_region == region && tr == tag_region
        && rr == replaced_region
}

/// Such a problem is among `problems` from position `from` on.
pub open spec fn duplicate_tag_reported(problems: Seq<CanProblem>, from: int, label: Seq<char>, region: Region, tag_region: Region, replaced_region: Region) -> bool {
    exists|p: int| from <= p < problems.len() && #[trigger] duplicate_tag_problem(problems[p], label, region, tag_region, replaced_region)
}

proof fn lemma_tag_reported_persists(a: Seq<CanProblem>, b: Seq<CanProblem>, from: int, label: Seq<char>, region: Region, tr: Region, rr: Region)
    requires
        0 <= from,
        duplicate_tag_reported(a, from, label, region, tr, rr),
        prefix_of(a, b),
    ensures
        duplicate_tag_reported(b, from, label, region, tr, rr),
{
    let p = choose|p: int| from <= p < a.len() && #[trigger] duplicate_tag_problem(a[p], label, region, tr, rr);
    assert(b[p] == a[p]);
}

proof fn lemma_tag_spec_name(w: World, t: Tag)
    requires
        !tag_malformed(t),
    ensures
        tag_spec(w, t) matches Some((_, e)) ==> (e matches Some((name, _)) && name@ == tag_label(t)),
{
    lemma_tag_entry(w, t);
}

proof fn lemma_tags_dups(
    w0: World,
    w: World,
    tags: Seq<Located<Tag>>,
    region: Region,
    i: nat,
    entries: Seq<(String, PoolVec)>,
    seen: Seq<(String, Region)>,
)
    requires
        i <= tags.len(),
        forall|k: int| 0 <= k < tags.len() ==> !tag_malformed(#[trigger] tags[k].value),
        extends(w0, w, w0.env.nodes.len()),
        forall|label: Seq<char>| #[trigger] assoc_get(seen, label) == last_tag_region(tags, label, i),
        forall|m: int, k: int|
            k < i && #[trigger] last_tag_before(tags, m, k)
                ==> duplicate_tag_reported(w.env.problems, w0.env.problems.len() as int, tag_label(tags[k].value), region, tags[k].region, tags[m].region),
    ensures
        tags_from(w, tags, region, i, entries, seen) matches Some((w1, _)) ==> forall|m: int, k: int|
            #[trigger] last_tag_before(tags, m, k)
                ==> duplicate_tag_reported(w1.env.problems, w0.env.problems.len() as int, tag_label(tags[k].value), region, tags[k].region, tags[m].region),
    decreases tags.len() - i,
{
    if i < tags.len() {
        let tag = tags[i as int].value;
        assert(!tag_malformed(tags[i as int].value));
        lemma_tag_spec_name(w, tag);
        lemma_tag_spec_extends(w, tag);
        if let Some((w1, Some((name, arg_types)))) = tag_spec(w, tag) {
            let tag_region = tags[i as int].region;
            let w2 = match assoc_get(seen, name@) {
                Some(replaced_region) => {
                    let p = CanProblem::DuplicateTag {
                        tag_name: TagName::Global(name),
                        tag_union_region: region,
                        tag_region,
                        replaced_region,
                    };
                    lemma_report(w1, p);
                    report(w1, p)
                },
                None => {
                    lemma_extends_refl(w1, w1.env.nodes.len());
                    w1
                },
            };
            lemma_extends_trans(w0, w, w1, w0.env.nodes.len(), w.env.nodes.len());
            lemma_extends_trans(w0, w1, w2, w0.env.nodes.len(), w1.env.nodes.len());
            lemma_extends_trans(w, w1, w2, w.env.nodes.len(), w1.env.nodes.len());
            let seen2 = assoc_insert(seen, name, tag_region);
            let ni = (i + 1) as nat;
            assert forall|l: Seq<char>| #[trigger] assoc_get(seen2, l) == last_tag_region(tags, l, ni) by {
                lemma_assoc_get_insert(seen, name, tag_region, l);
                assert(assoc_get(seen, l) == last_tag_region(tags, l, i));
            }
            assert forall|m: int, k: int|
                k < ni && #[trigger] last_tag_before(tags, m, k)
                    implies duplicate_tag_reported(w2.env.problems, w0.env.problems.len() as int, tag_label(tags[k].value), region, tags[k].region, tags[m].region) by {
                if k < i {
                    lemma_tag_reported_persists(w.env.problems, w2.env.problems, w0.env.problems.len() as int, tag_label(tags[k].value), region, tags[k].region, tags[m].region);
                } else {
                    lemma_last_tag_region(tags, m, k, i);
                    assert(assoc_get(seen, name@) == last_tag_region(tags, name@, i));
                    let p = w1.env.problems.len() as int;
                    assert(duplicate_tag_problem(w2.env.problems[p], name@, region, tag_region, tags[m].region));
                }
            }
            lemma_tags_dups(w0, w2, tags, region, ni, entries.push((name, arg_types)), seen2);
        }
    }
}

/// A tag union reports each repeated name: for every well-formed tag whose
/// name an earlier tag has already, a duplicate-tag problem names the tag,
/// the union's region, the tag's region and the region of the last earlier
/// tag with that name. Both tags are kept.
pub proof fn law_tag_duplicates_reported(
    w: World,
    tags: Vec<Located<Tag>>,
    ext: Option<Box<Located<TypeAnnotation>>>,
    region: Region,
)
    ensures
        canon(w, TypeAnnotation::TagUnion { tags, ext }, region) matches Some((w2, _)) ==> forall|m: int, k: int|
            #[trigger] last_tag_before(well_formed_tags(tags@), m, k)
                ==> duplicate_tag_reported(
                    w2.env.problems,
                    w.env.problems.len() as int,
                    tag_label(well_formed_tags(tags@)[k].value),
                    region,
                    well_formed_tags(tags@)[k].region,
                    well_formed_tags(tags@)[m].region,
                ),
{
    let k0 = w.env.nodes.len();
    let kept = well_formed_tags(tags@);
    lemma_malformed_tags(w, tags@, region, Seq::empty(), Seq::empty());
    lemma_well_formed_tags(tags@);
    lemma_extends_refl(w, k0);
    let seen0 = Seq::<(String, Region)>::empty();
    assert forall|l: Seq<char>| #[trigger] assoc_get(seen0, l) == last_tag_region(kept, l, 0) by {}
    lemma_tags_dups(w, w, kept, region, 0, Seq::empty(), seen0);
    lemma_tags_from_extends(w, kept, region, 0, Seq::empty(), seen0);
    if let Some((w1, es)) = tags_from(w, kept, region, 0, Seq::empty(), seen0) {
        let n = es.len() as u32;
        lemma_reserve(w1, n);
        if let Some((w2, tt)) = reserve(w1, n) {
            lemma_write_tags(w2, es, tt.first.0, 0, n as nat, w1.env.nodes.len());
            if let Some(w3) = write_tags(w2, es, tt.first.0, 0, n as nat) {
                lemma_extends_trans(w1, w2, w3, w1.env.nodes.len(), w1.env.nodes.len());
                let ext_type = match ext {
                    Some(loc_ann) => to_type_id_spec(w3, loc_ann.value, region),
                    None => add_type(w3, Type2::EmptyTagUnion, region),
                };
                match ext {
                    Some(loc_ann) => law_to_type_id_extends(w3, loc_ann.value, region),
                    None => lemma_add_type(w3, Type2::EmptyTagUnion, region),
                }
                if let Some((w4, ext_id)) = ext_type {
                    lemma_extends_trans(w1, w3, w4, w1.env.nodes.len(), w3.env.nodes.len());
                    assert(canon(w, TypeAnnotation::TagUnion { tags, ext }, region) == Some((w4, Type2::TagUnion(tt, ext_id))));
                    assert forall|m: int, k: int| #[trigger] last_tag_before(kept, m, k)
                        implies duplicate_tag_reported(w4.env.problems, w.env.problems.len() as int, tag_label(kept[k].value), region, kept[k].region, kept[m].region) by {
                        lemma_tag_reported_persists(w1.env.problems, w4.env.problems, w.env.problems.len() as int, tag_label(kept[k].value), region, kept[k].region, kept[m].region);
                    }
                }
            }
        }
    }
}

} // verus!
