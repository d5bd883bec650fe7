//! What canonicalizing a type annotation does, stated over the contents of
//! the environment, the scope and the references. Each function gives `None`
//! exactly where canonicalization cannot complete: where the pool, the
//! variable store or the module's identifiers would overflow, where a node
//! outside the pool would be written, and where an alias would have to be
//! instantiated or the variables of an `as` alias collected, which this
//! library does not do.

use vstd::prelude::*;
use crate::assoc::{assoc_get, assoc_insert, set_insert};
use crate::ast::{AssignedField, Tag, TypeAnnotation};
use crate::env::{spec_qualified_lookup, Env, EnvModel};
use crate::pool::{
    reserved_slots, spec_pool_add, spec_pool_set, spec_pool_set_region, NodeId, PoolNode, PoolSlot,
    PoolStr, PoolVec, TypeId,
};
use crate::problem::CanProblem;
use crate::region::{Located, Region};
use crate::scope::{spec_find_alias, spec_introduce, spec_scope_lookup, Scope, ScopeModel};
use crate::subs::{Problem, RecordField, Variable};
use crate::symbol::{Symbol, TagName};
use crate::types::{Annotation2, References, ReferencesModel, Signature, Type2, TypeApply};

verus! {

/// Everything that canonicalization reads and changes.
pub struct World {
    pub env: EnvModel,
    pub scope: ScopeModel,
    pub refs: ReferencesModel,
}

pub open spec fn world(env: Env, scope: Scope, refs: References) -> World {
    World { env: env@, scope: scope@, refs: refs@ }
}

pub open spec fn with_nodes(w: World, nodes: Seq<PoolSlot>) -> World {
    World { env: EnvModel { nodes, ..w.env }, ..w }
}

/// A fresh variable: the next one of the store.
pub open spec fn fresh_var(w: World) -> Option<(World, Variable)> {
    if w.env.next_var < u32::MAX {
        Some((World { env: EnvModel { next_var: (w.env.next_var + 1) as u32, ..w.env }, ..w }, Variable(w.env.next_var)))
    } else {
        None
    }
}

/// A node added at the end of the pool.
pub open spec fn add_node(w: World, node: PoolNode) -> Option<(World, NodeId)> {
    if w.env.nodes.len() < u32::MAX {
        Some((with_nodes(w, spec_pool_add(w.env.nodes, node)), NodeId(w.env.nodes.len() as u32)))
    } else {
        None
    }
}

/// A type added at the end of the pool, with the region it came from.
pub open spec fn add_type(w: World, t: Type2, region: Region) -> Option<(World, TypeId)> {
    match add_node(w, PoolNode::Type(t)) {
        None => None,
        Some((w1, id)) => Some((with_nodes(w1, spec_pool_set_region(w1.env.nodes, id, region)), id)),
    }
}

/// `n` nodes set aside at the end of the pool.
pub open spec fn reserve(w: World, n: u32) -> Option<(World, PoolVec)> {
    if w.env.nodes.len() + n <= u32::MAX {
        Some((
            with_nodes(w, w.env.nodes + reserved_slots(n as nat)),
            PoolVec { first: NodeId(w.env.nodes.len() as u32), len: n },
        ))
    } else {
        None
    }
}

/// Node `id` overwritten with `node`.
pub open spec fn write_node(w: World, id: NodeId, node: PoolNode) -> Option<World> {
    if (id.0 as int) < w.env.nodes.len() {
        Some(with_nodes(w, spec_pool_set(w.env.nodes, id, node)))
    } else {
        None
    }
}

/// `region` recorded for node `id`.
pub open spec fn write_region(w: World, id: NodeId, region: Region) -> Option<World> {
    if (id.0 as int) < w.env.nodes.len() {
        Some(with_nodes(w, spec_pool_set_region(w.env.nodes, id, region)))
    } else {
        None
    }
}

pub open spec fn report(w: World, p: CanProblem) -> World {
    World { env: EnvModel { problems: w.env.problems.push(p), ..w.env }, ..w }
}

pub open spec fn note_symbol(w: World, s: Symbol) -> World {
    World { refs: ReferencesModel { symbols: set_insert(w.refs.symbols, s), ..w.refs }, ..w }
}

pub open spec fn note_unnamed(w: World, v: Variable) -> World {
    World { refs: ReferencesModel { unnamed: set_insert(w.refs.unnamed, v), ..w.refs }, ..w }
}

/// The variable of the rigid `name`: the one it is bound to, or a fresh
/// one that it is then bound to.
pub open spec fn rigid(w: World, name: String) -> Option<(World, Variable)> {
    match assoc_get(w.refs.named, name@) {
        Some(v) => Some((w, v)),
        None => match fresh_var(w) {
            None => None,
            Some((w1, v)) => Some((
                World { refs: ReferencesModel { named: w1.refs.named.push((name, v)), ..w1.refs }, ..w1 },
                v,
            )),
        },
    }
}

/// A wildcard's variable: fresh, and recorded among the unnamed rigids.
pub open spec fn wildcard(w: World) -> Option<(World, Type2)> {
    match fresh_var(w) {
        None => None,
        Some((w1, v)) => Some((note_unnamed(w1, v), Type2::Variable(v))),
    }
}

/// The canonical type of `ann`, and the world after canonicalizing it.
pub open spec fn canon(w: World, ann: TypeAnnotation, region: Region) -> Option<(World, Type2)>
    decreases ann, 0nat,
{
    match ann {
        TypeAnnotation::Apply(module_name, ident, targs) => {
            match type_apply(w, module_name, ident, targs@, region) {
                None => None,
                Some((w1, TypeApply::Apply(symbol, args))) => Some((note_symbol(w1, symbol), Type2::Apply(symbol, args))),
                Some((w1, TypeApply::Alias(symbol, args, actual))) => Some(
                    (note_symbol(w1, symbol), Type2::Alias(symbol, args, actual)),
                ),
                Some((w1, TypeApply::Erroneous(problem))) => Some((w1, Type2::Erroneous(problem))),
            }
        },
        TypeAnnotation::Function(argument_types, return_type) => {
            let n = argument_types.len() as u32;
            match reserve(w, n) {
                None => None,
                Some((w1, arguments)) => match fill_types(w1, argument_types@, arguments.first.0, 0, n as nat) {
                    None => None,
                    Some(w2) => match to_type_id_spec(w2, return_type.value, return_type.region) {
                        None => None,
                        Some((w3, return_type_id)) => match fresh_var(w3) {
                            None => None,
                            Some((w4, closure_var)) => match add_node(w4, PoolNode::Type(Type2::Variable(closure_var))) {
                                None => None,
                                Some((w5, closure_type_id)) => Some(
                                    (w5, Type2::Function(arguments, closure_type_id, return_type_id)),
                                ),
                            },
                        },
                    },
                },
            }
        },
        TypeAnnotation::BoundVariable(v) => match rigid(w, v) {
            None => None,
            Some((w1, var)) => Some((w1, Type2::Variable(var))),
        },
        TypeAnnotation::Wildcard => wildcard(w),
        TypeAnnotation::Malformed(_) => wildcard(w),
        TypeAnnotation::Record { fields, ext } => {
            match fields_from(w, fields@, region, 0, Seq::empty(), Seq::empty()) {
                None => None,
                Some((w1, entries)) => {
                    let n = entries.len() as u32;
                    match reserve(w1, n) {
                        None => None,
                        Some((w2, field_types)) => match write_fields(w2, entries, field_types.first.0, 0, n as nat) {
                            None => None,
                            Some(w3) => {
                                let ext_type = match ext {
                                    Some(loc_ann) => to_type_id_spec(w3, loc_ann.value, region),
                                    None => add_type(w3, Type2::EmptyRec, region),
                                };
                                match ext_type {
                                    None => None,
                                    Some((w4, ext_id)) => Some((w4, Type2::Record(field_types, ext_id))),
                                }
                            },
                        },
                    }
                },
            }
        },
        TypeAnnotation::TagUnion { tags, ext } => {
            match tags_from(w, tags@, region, 0, Seq::empty(), Seq::empty()) {
                None => None,
                Some((w1, entries)) => {
                    let n = entries.len() as u32;
                    match reserve(w1, n) {
                        None => None,
                        Some((w2, tag_types)) => match write_tags(w2, entries, tag_types.first.0, 0, n as nat) {
                            None => None,
                            Some(w3) => {
                                let ext_type = match ext {
                                    Some(loc_ann) => to_type_id_spec(w3, loc_ann.value, region),
                                    None => add_type(w3, Type2::EmptyTagUnion, region),
                                };
                                match ext_type {
                                    None => None,
                                    Some((w4, ext_id)) => Some((w4, Type2::TagUnion(tag_types, ext_id))),
                                }
                            },
                        },
                    }
                },
            }
        },
        TypeAnnotation::As(loc_inner, loc_as) => {
            match loc_as.value {
                TypeAnnotation::Apply(module_name, ident, loc_vars) => {
                    if module_name@.len() == 0 {
                        match spec_introduce(w.scope, w.env.exposed_ident_ids, w.env.ident_ids, ident, region) {
                            None => None,
                            Some((scope1, ids1, introduced)) => {
                                let w1 = World { scope: scope1, env: EnvModel { ident_ids: ids1, ..w.env }, ..w };
                                match introduced {
                                    Err((original_region, shadow)) => Some((
                                        report(w1, CanProblem::ShadowingInAnnotation { original_region, shadow }),
                                        Type2::Erroneous(Problem::Shadowed(original_region, shadow)),
                                    )),
                                    Ok(_symbol) => match canon(w1, loc_inner.value, region) {
                                        None => None,
                                        Some((w2, _inner_type)) => {
                                            let n = loc_vars.len() as u32;
                                            match reserve(w2, n) {
                                                None => None,
                                                Some((w3, vars)) => match reserve(w3, n) {
                                                    None => None,
                                                    Some((w4, lowercase_vars)) => match alias_vars(
                                                        w4,
                                                        loc_vars@,
                                                        lowercase_vars.first.0,
                                                        vars.first.0,
                                                        0,
                                                        n as nat,
                                                    ) {
                                                        None => None,
                                                        Some((w5, all_bound)) => if all_bound {
                                                            None
                                                        } else {
                                                            Some((w5, Type2::Erroneous(Problem::CanonicalizationProblem)))
                                                        },
                                                    },
                                                },
                                            }
                                        },
                                    },
                                }
                            },
                        }
                    } else {
                        Some((w, Type2::Erroneous(Problem::CanonicalizationProblem)))
                    }
                },
                _ => Some((w, Type2::Erroneous(Problem::CanonicalizationProblem))),
            }
        },
        TypeAnnotation::SpaceBefore(nested) => canon(w, *nested, region),
        TypeAnnotation::SpaceAfter(nested) => canon(w, *nested, region),
    }
}

/// `ann` canonicalized and added to the pool with `region`.
pub open spec fn to_type_id_spec(w: World, ann: TypeAnnotation, region: Region) -> Option<(World, TypeId)>
    decreases ann, 1nat,
{
    match canon(w, ann, region) {
        None => None,
        Some((w1, t)) => add_type(w1, t, region),
    }
}

/// `ann` canonicalized and written to node `id`, with `region`.
pub open spec fn as_type_id_spec(w: World, id: NodeId, ann: TypeAnnotation, region: Region) -> Option<World>
    decreases ann, 1nat,
{
    match canon(w, ann, region) {
        None => None,
        Some((w1, t)) => match write_node(w1, id, PoolNode::Type(t)) {
            None => None,
            Some(w2) => write_region(w2, id, region),
        },
    }
}

/// The annotations `args[i..]` canonicalized into the nodes from `first + i`
/// on, as long as both the `n` nodes and the annotations last.
pub open spec fn fill_types(w: World, args: Seq<Located<TypeAnnotation>>, first: u32, i: nat, n: nat) -> Option<World>
    decreases args, n - i,
{
    if i >= n || i >= args.len() {
        Some(w)
    } else {
        match as_type_id_spec(w, NodeId((first + i) as u32), args[i as int].value, args[i as int].region) {
            None => None,
            Some(w1) => fill_types(w1, args, first, i + 1, n),
        }
    }
}

/// The outcome of resolving the type constructor `module_name.ident`
/// applied to `targs`.
pub open spec fn type_apply(
    w: World,
    module_name: String,
    ident: String,
    targs: Seq<Located<TypeAnnotation>>,
    region: Region,
) -> Option<(World, TypeApply)>
    decreases targs, targs.len() + 1,
{
    let lookup = if module_name@.len() == 0 {
        spec_scope_lookup(w.scope, ident, region)
    } else {
        spec_qualified_lookup(w.env, module_name, ident, region)
    };
    match lookup {
        Err(problem) => Some((
            report(w, CanProblem::RuntimeError(problem)),
            TypeApply::Erroneous(Problem::UnrecognizedIdent(ident)),
        )),
        Ok(symbol) => {
            let n = targs.len() as u32;
            match reserve(w, n) {
                None => None,
                Some((w1, argument_type_ids)) => match fill_types(w1, targs, argument_type_ids.first.0, 0, n as nat) {
                    None => None,
                    Some(w2) => match spec_find_alias(w2.scope.aliases, symbol) {
                        None => Some((w2, TypeApply::Apply(symbol, argument_type_ids))),
                        Some(alias) => if (alias.targs.len as int) != targs.len() {
                            Some((
                                w2,
                                TypeApply::Erroneous(Problem::BadTypeArguments {
                                    symbol,
                                    region,
                                    alias_needs: alias.targs.len as u8,
                                    type_got: targs.len() as u8,
                                }),
                            ))
                        } else {
                            None
                        },
                    },
                },
            }
        },
    }
}

/// A record field: its label and its type, or nothing for a malformed field.
pub open spec fn assigned_field(w: World, f: AssignedField) -> Option<(World, Option<(String, RecordField<Type2>)>)>
    decreases f, 0nat,
{
    match f {
        AssignedField::RequiredValue(name, annotation) => match canon(w, annotation.value, annotation.region) {
            None => None,
            Some((w1, t)) => Some((w1, Some((name.value, RecordField::Required(t))))),
        },
        AssignedField::OptionalValue(name, annotation) => match canon(w, annotation.value, annotation.region) {
            None => None,
            Some((w1, t)) => Some((w1, Some((name.value, RecordField::Optional(t))))),
        },
        AssignedField::LabelOnly(name) => match rigid(w, name.value) {
            None => None,
            Some((w1, v)) => Some((w1, Some((name.value, RecordField::Required(Type2::Variable(v)))))),
        },
        AssignedField::SpaceBefore(nested) => assigned_field(w, *nested),
        AssignedField::SpaceAfter(nested) => assigned_field(w, *nested),
        AssignedField::Malformed(_) => Some((w, None)),
    }
}

/// The fields `fields[i..]` canonicalized: `entries` maps each label to its
/// field, the right-most field of a label wins, and `seen` records where
/// each label was met last; a label met again is reported.
pub open spec fn fields_from(
    w: World,
    fields: Seq<Located<AssignedField>>,
    region: Region,
    i: nat,
    entries: Seq<(String, RecordField<Type2>)>,
    seen: Seq<(String, Region)>,
) -> Option<(World, Seq<(String, RecordField<Type2>)>)>
    decreases fields, fields.len() - i,
{
    if i >= fields.len() {
        Some((w, entries))
    } else {
        match assigned_field(w, fields[i as int].value) {
            None => None,
            Some((w1, None)) => fields_from(w1, fields, region, i + 1, entries, seen),
            Some((w1, Some((label, field)))) => {
                let field_region = fields[i as int].region;
                let w2 = match assoc_get(seen, label@) {
                    Some(replaced_region) => report(
                        w1,
                        CanProblem::DuplicateRecordFieldType {
                            field_name: label,
                            record_region: region,
                            field_region,
                            replaced_region,
                        },
                    ),
                    None => w1,
                };
                fields_from(
                    w2,
                    fields,
                    region,
                    i + 1,
                    assoc_insert(entries, label, field),
                    assoc_insert(seen, label, field_region),
                )
            },
        }
    }
}

/// A tag: its name and its argument types, or nothing for a malformed tag.
pub open spec fn tag_spec(w: World, t: Tag) -> Option<(World, Option<(String, PoolVec)>)>
    decreases t, 0nat,
{
    match t {
        Tag::Global { name, args } => tag_args(w, name.value, args@),
        Tag::Private { name, args } => tag_args(w, name.value, args@),
        Tag::SpaceBefore(nested) => tag_spec(w, *nested),
        Tag::SpaceAfter(nested) => tag_spec(w, *nested),
        Tag::Malformed(_) => Some((w, None)),
    }
}

/// The argument types of the tag `name` canonicalized into new nodes.
pub open spec fn tag_args(w: World, name: String, args: Seq<Located<TypeAnnotation>>) -> Option<(World, Option<(String, PoolVec)>)>
    decreases args, args.len() + 1,
{
    let n = args.len() as u32;
    match reserve(w, n) {
        None => None,
        Some((w1, arg_types)) => match fill_types(w1, args, arg_types.first.0, 0, n as nat) {
            None => None,
            Some(w2) => Some((w2, Some((name, arg_types)))),
        },
    }
}

/// The tags `tags[i..]` canonicalized and appended to `entries`, every one
/// kept; `seen` records where each name was met last, and a name met again
/// is reported.
pub open spec fn tags_from(
    w: World,
    tags: Seq<Located<Tag>>,
    region: Region,
    i: nat,
    entries: Seq<(String, PoolVec)>,
    seen: Seq<(String, Region)>,
) -> Option<(World, Seq<(String, PoolVec)>)>
    decreases tags, tags.len() - i,
{
    if i >= tags.len() {
        Some((w, entries))
    } else {
        match tag_spec(w, tags[i as int].value) {
            None => None,
            Some((w1, None)) => tags_from(w1, tags, region, i + 1, entries, seen),
            Some((w1, Some((name, arg_types)))) => {
                let tag_region = tags[i as int].region;
                let w2 = match assoc_get(seen, name@) {
                    Some(replaced_region) => report(
                        w1,
                        CanProblem::DuplicateTag {
                            tag_name: TagName::Global(name),
                            tag_union_region: region,
                            tag_region,
                            replaced_region,
                        },
                    ),
                    None => w1,
                };
                tags_from(
                    w2,
                    tags,
                    region,
                    i + 1,
                    entries.push((name, arg_types)),
                    assoc_insert(seen, name, tag_region),
                )
            },
        }
    }
}

/// The record fields `entries[i..]` written to the nodes from `first + i`
/// on, each label stored in a new node.
pub open spec fn write_fields(w: World, entries: Seq<(String, RecordField<Type2>)>, first: u32, i: nat, n: nat) -> Option<World>
    decreases n - i,
{
    if i >= n || i >= entries.len() {
        Some(w)
    } else {
        match add_node(w, PoolNode::Str(entries[i as int].0)) {
            None => None,
            Some((w1, label_id)) => match write_node(
                w1,
                NodeId((first + i) as u32),
                PoolNode::Field(PoolStr { node: label_id }, entries[i as int].1),
            ) {
                None => None,
                Some(w2) => write_fields(w2, entries, first, i + 1, n),
            },
        }
    }
}

/// The tags `entries[i..]` written to the nodes from `first + i` on, each
/// name stored in a new node.
pub open spec fn write_tags(w: World, entries: Seq<(String, PoolVec)>, first: u32, i: nat, n: nat) -> Option<World>
    decreases n - i,
{
    if i >= n || i >= entries.len() {
        Some(w)
    } else {
        match add_node(w, PoolNode::Str(entries[i as int].0)) {
            None => None,
            Some((w1, name_id)) => match write_node(
                w1,
                NodeId((first + i) as u32),
                PoolNode::Tag(PoolStr { node: name_id }, entries[i as int].1),
            ) {
                None => None,
                Some(w2) => write_tags(w2, entries, first, i + 1, n),
            },
        }
    }
}

/// The parameters `loc_vars[i..]` of an `as` alias: each rigid's name and
/// variable written to the node from `named_first + i` on, with its region,
/// and its name and a new variable type to the node from `var_first + i` on.
/// The flag tells whether every parameter was a rigid variable; at the first
/// one that is not, the walk stops.
pub open spec fn alias_vars(
    w: World,
    loc_vars: Seq<Located<TypeAnnotation>>,
    named_first: u32,
    var_first: u32,
    i: nat,
    n: nat,
) -> Option<(World, bool)>
    decreases n - i,
{
    if i >= n || i >= loc_vars.len() {
        Some((w, true))
    } else {
        match loc_vars[i as int].value {
            TypeAnnotation::BoundVariable(var_name) => {
                let named_id = NodeId((named_first + i) as u32);
                let var_id = NodeId((var_first + i) as u32);
                match rigid(w, var_name) {
                    None => None,
                    Some((w1, var)) => match add_node(w1, PoolNode::Str(var_name)) {
                        None => None,
                        Some((w2, name_id)) => match add_node(w2, PoolNode::Type(Type2::Variable(var))) {
                            None => None,
                            Some((w3, type_id)) => match write_node(w3, var_id, PoolNode::NamedType(PoolStr { node: name_id }, type_id)) {
                                None => None,
                                Some(w4) => match write_node(w4, named_id, PoolNode::NamedVar(PoolStr { node: name_id }, var)) {
                                    None => None,
                                    Some(w5) => match write_region(w5, named_id, loc_vars[i as int].region) {
                                        None => None,
                                        Some(w6) => alias_vars(w6, loc_vars, named_first, var_first, i + 1, n),
                                    },
                                },
                            },
                        },
                    },
                }
            },
            _ => Some((w, false)),
        }
    }
}

} // verus!

verus! {

/// The first type that is not an alias, following aliases from `t` through
/// the pool for at most `fuel` steps; `None` where the steps run out or lead
/// to a node that holds no type.
pub open spec fn dealias_within(nodes: Seq<PoolSlot>, t: Type2, fuel: nat) -> Option<Type2>
    decreases fuel,
{
    match t {
        Type2::Alias(_, _, actual) => if fuel == 0 || (actual.0 as int) >= nodes.len() {
            None
        } else {
            match nodes[actual.0 as int].node {
                PoolNode::Type(next) => dealias_within(nodes, next, (fuel - 1) as nat),
                _ => None,
            }
        },
        _ => Some(t),
    }
}

/// Following aliases from `t` reaches a type that is not an alias.
pub open spec fn dealias_terminates(nodes: Seq<PoolSlot>, t: Type2) -> bool {
    exists|fuel: nat| #[trigger] dealias_within(nodes, t, fuel) is Some
}

/// The first type that is not an alias, following aliases from `t`.
pub open spec fn dealiased(nodes: Seq<PoolSlot>, t: Type2) -> Type2 {
    dealias_within(nodes, t, choose|fuel: nat| #[trigger] dealias_within(nodes, t, fuel) is Some)->Some_0
}

/// The signature of an alias annotation: a function signature that keeps the
/// alias when the alias stands for a function type, else a value signature.
pub open spec fn dealias_signature(nodes: Seq<PoolSlot>, annotation: Type2) -> Signature {
    match dealiased(nodes, annotation) {
        Type2::Function(arguments, closure_type_id, return_type_id) => Signature::FunctionWithAliases {
            annotation,
            arguments,
            closure_type_id,
            return_type_id,
        },
        _ => Signature::Value { annotation },
    }
}

/// The signature of the canonical annotation `t`: a function signature for a
/// function type, the dealiased signature for an alias, else a value signature.
pub open spec fn signature_of(nodes: Seq<PoolSlot>, t: Type2) -> Signature {
    match t {
        Type2::Function(arguments, closure_type_id, return_type_id) => Signature::Function {
            arguments,
            closure_type_id,
            return_type_id,
        },
        Type2::Alias(_, _, _) => dealias_signature(nodes, t),
        _ => Signature::Value { annotation: t },
    }
}

/// `r` holds the rigids and symbols of `refs`, and `signature`.
pub open spec fn annotation_holds(r: Annotation2, refs: ReferencesModel, signature: Signature) -> bool {
    match r {
        Annotation2::Annotation { named_rigids, unnamed_rigids, symbols, signature: s } => {
            &&& named_rigids@ == refs.named
            &&& unnamed_rigids@ == refs.unnamed
            &&& symbols@ == refs.symbols
            &&& s == signature
        },
        Annotation2::Erroneous(_) => false,
    }
}

/// Canonicalization never gives an alias type.
pub proof fn law_canon_not_alias(w: World, ann: TypeAnnotation, region: Region)
    ensures
        canon(w, ann, region) matches Some((_, t)) ==> !(t is Alias),
    decreases ann,
{
    match ann {
        TypeAnnotation::SpaceBefore(nested) => {
            assert(canon(w, ann, region) == canon(w, *nested, region));
            law_canon_not_alias(w, *nested, region);
        },
        TypeAnnotation::SpaceAfter(nested) => {
            assert(canon(w, ann, region) == canon(w, *nested, region));
            law_canon_not_alias(w, *nested, region);
        },
        TypeAnnotation::Apply(module_name, ident, targs) => {
            let r = type_apply(w, module_name, ident, targs@, region);
            assert(r matches Some((_, a)) ==> !(a is Alias));
        },
        _ => {},
    }
}

} // verus!
