//! Laws of canonicalization: what every step keeps.

use vstd::prelude::*;
use crate::assoc::{
    assoc_get, assoc_index, assoc_insert, distinct_names, lemma_assoc_index_bounds,
    lemma_assoc_index_found, lemma_assoc_index_some, lemma_set_insert_no_dups, no_dups,
};
use crate::ast::{AssignedField, Tag, TypeAnnotation};
use crate::canon::{
    add_node, add_type, alias_vars, as_type_id_spec, assigned_field, canon, fields_from, fill_types,
    fresh_var, note_symbol, report, reserve, rigid, tag_args, tag_spec, tags_from, to_type_id_spec,
    type_apply, wildcard, with_nodes, write_fields, write_node, write_region, write_tags, World,
};
use crate::canon::{law_canon_not_alias, signature_of};
use crate::env::{spec_qualified_lookup, EnvModel};
use crate::pool::{reserved_slots, NodeId, PoolNode, PoolSlot, PoolStr, PoolVec};
use crate::problem::{CanProblem, RuntimeError};
use crate::region::{Located, Region};
use crate::scope::{spec_find_ident, spec_introduce, spec_scope_lookup};
use crate::subs::{Problem, RecordField, Variable};
use crate::symbol::{Symbol, TagName};
use crate::types::{Signature, Type2, TypeApply};

verus! {

/// `a` is a prefix of `b`.
pub open spec fn prefix_of<T>(a: Seq<T>, b: Seq<T>) -> bool {
    &&& a.len() <= b.len()
    &&& forall|i: int| 0 <= i < a.len() ==> #[trigger] b[i] == a[i]
}

/// The variables in `s` from position `from` on all lie in `lo..hi`.
pub open spec fn fresh_from(s: Seq<Variable>, from: int, lo: u32, hi: u32) -> bool {
    forall|k: int| from <= k < s.len() ==> lo <= (#[trigger] s[k]).0 < hi
}

pub open spec fn named_vars(named: Seq<(String, Variable)>) -> Seq<Variable> {
    named.map_values(|e: (String, Variable)| e.1)
}

/// `w2` comes from `w` by canonicalization steps: the first `keep` nodes of
/// the pool, with their regions, are unchanged and the pool only grows;
/// problems, identifiers, scope bindings, named rigids, wildcard variables
/// and symbols are only added to; the variable store only moves forward, and
/// every rigid bound and every wildcard variable recorded on the way is a
/// variable it handed out on the way; no name comes to be bound twice and no
/// variable or symbol comes to be recorded twice; the rest is unchanged.
pub open spec fn extends(w: World, w2: World, keep: nat) -> bool {
    &&& keep <= w.env.nodes.len() <= w2.env.nodes.len()
    &&& forall|i: int| 0 <= i < keep ==> #[trigger] w2.env.nodes[i] == w.env.nodes[i]
    &&& w.env.next_var <= w2.env.next_var
    &&& prefix_of(w.env.problems, w2.env.problems)
    &&& prefix_of(w.env.ident_ids, w2.env.ident_ids)
    &&& prefix_of(w.scope.idents, w2.scope.idents)
    &&& prefix_of(w.refs.named, w2.refs.named)
    &&& prefix_of(w.refs.unnamed, w2.refs.unnamed)
    &&& prefix_of(w.refs.symbols, w2.refs.symbols)
    &&& fresh_from(named_vars(w2.refs.named), w.refs.named.len() as int, w.env.next_var, w2.env.next_var)
    &&& fresh_from(w2.refs.unnamed, w.refs.unnamed.len() as int, w.env.next_var, w2.env.next_var)
    &&& w2.env.home == w.env.home
    &&& w2.env.exposed_ident_ids == w.env.exposed_ident_ids
    &&& w2.env.modules == w.env.modules
    &&& w2.scope.home == w.scope.home
    &&& w2.scope.aliases == w.scope.aliases
    &&& w2.refs.hidden == w.refs.hidden
    &&& distinct_names(w.refs.named) ==> distinct_names(w2.refs.named)
    &&& no_dups(w.refs.unnamed) ==> no_dups(w2.refs.unnamed)
    &&& no_dups(w.refs.symbols) ==> no_dups(w2.refs.symbols)
}

pub(crate) proof fn lemma_extends_refl(w: World, keep: nat)
    requires
        keep <= w.env.nodes.len(),
    ensures
        extends(w, w, keep),
{
}

pub(crate) proof fn lemma_extends_trans(a: World, b: World, c: World, ka: nat, kb: nat)
    requires
        extends(a, b, ka),
        extends(b, c, kb),
        ka <= kb,
    ensures
        extends(a, c, ka),
{
    assert(named_vars(b.refs.named).len() == b.refs.named.len());
    assert(named_vars(c.refs.named).len() == c.refs.named.len());
    assert forall|k: int| a.refs.named.len() <= k < c.refs.named.len() implies
        a.env.next_var <= (#[trigger] named_vars(c.refs.named)[k]).0 < c.env.next_var by {
        if k < b.refs.named.len() {
            assert(c.refs.named[k] == b.refs.named[k]);
            assert(named_vars(c.refs.named)[k] == named_vars(b.refs.named)[k]);
        }
    }
}

proof fn lemma_fresh_var(w: World)
    ensures
        fresh_var(w) matches Some((w2, v)) ==> extends(w, w2, w.env.nodes.len()) && v.0 == w.env.next_var
            && w2.env.next_var == v.0 + 1,
{
}

pub(crate) proof fn lemma_add_node(w: World, node: PoolNode)
    ensures
        add_node(w, node) matches Some((w2, id)) ==> extends(w, w2, w.env.nodes.len()) && id.0 == w.env.nodes.len(),
{
}

pub(crate) proof fn lemma_add_type(w: World, t: Type2, region: Region)
    ensures
        add_type(w, t, region) matches Some((w2, _)) ==> extends(w, w2, w.env.nodes.len()),
{
}

pub(crate) proof fn lemma_reserve(w: World, n: u32)
    ensures
        reserve(w, n) matches Some((w2, pv)) ==> extends(w, w2, w.env.nodes.len()) && pv.first.0 == w.env.nodes.len()
            && pv.len == n && pv.first.0 + n == w2.env.nodes.len() && pv.first.0 + n <= u32::MAX,
{
}

pub(crate) proof fn lemma_write_node(w: World, id: NodeId, node: PoolNode, keep: nat)
    requires
        keep <= id.0,
        keep <= w.env.nodes.len(),
    ensures
        write_node(w, id, node) matches Some(w2) ==> extends(w, w2, keep) && w2.env.nodes.len() == w.env.nodes.len(),
{
}

pub(crate) proof fn lemma_write_region(w: World, id: NodeId, region: Region, keep: nat)
    requires
        keep <= id.0,
        keep <= w.env.nodes.len(),
    ensures
        write_region(w, id, region) matches Some(w2) ==> extends(w, w2, keep) && w2.env.nodes.len() == w.env.nodes.len(),
{
}

pub(crate) proof fn lemma_report(w: World, p: CanProblem)
    ensures
        extends(w, report(w, p), w.env.nodes.len()),
{
}

pub(crate) proof fn lemma_note_symbol(w: World, s: Symbol)
    ensures
        extends(w, note_symbol(w, s), w.env.nodes.len()),
{
    lemma_set_insert_no_dups(w.refs.symbols, s);
}

proof fn lemma_rigid(w: World, name: String)
    ensures
        rigid(w, name) matches Some((w2, _)) ==> extends(w, w2, w.env.nodes.len()),
{
    if let Some((w2, v)) = rigid(w, name) {
        if assoc_get(w.refs.named, name@) is None {
            assert(named_vars(w2.refs.named)[w.refs.named.len() as int] == v);
            if distinct_names(w.refs.named) {
                let t = w2.refs.named;
                assert forall|a: int, b: int| 0 <= a < b < t.len() implies (#[trigger] t[a]).0@ != (#[trigger] t[b]).0@ by {
                    if b == w.refs.named.len() && t[a].0@ == name@ {
                        lemma_assoc_index_some(w.refs.named, name@, a);
                    }
                }
            }
        }
    }
}

proof fn lemma_wildcard(w: World)
    ensures
        wildcard(w) matches Some((w2, _)) ==> extends(w, w2, w.env.nodes.len()),
{
    if let Some((w1, v)) = fresh_var(w) {
        lemma_set_insert_no_dups(w1.refs.unnamed, v);
    }
}


proof fn lemma_introduce_world(w: World, ident: String, region: Region)
    ensures
        spec_introduce(w.scope, w.env.exposed_ident_ids, w.env.ident_ids, ident, region) matches Some((scope1, ids1, _))
            ==> extends(w, World { scope: scope1, env: EnvModel { ident_ids: ids1, ..w.env }, ..w }, w.env.nodes.len()),
{
}

/// Canonicalization leaves every node that was in the pool before, and its
/// region, as it was; it only adds nodes, problems, identifiers, scope
/// bindings, named rigids, wildcard variables and symbols; and every rigid it
/// binds and every wildcard variable it records is a fresh variable.
pub proof fn law_canon_extends(w: World, ann: TypeAnnotation, region: Region)
    ensures
        canon(w, ann, region) matches Some((w2, _)) ==> extends(w, w2, w.env.nodes.len()),
    decreases ann, 0nat,
{
    let k = w.env.nodes.len();
    match ann {
        TypeAnnotation::Apply(module_name, ident, targs) => {
            lemma_type_apply_extends(w, module_name, ident, targs@, region);
            match type_apply(w, module_name, ident, targs@, region) {
                Some((w1, TypeApply::Apply(symbol, _))) => {
                    lemma_note_symbol(w1, symbol);
                    lemma_extends_trans(w, w1, note_symbol(w1, symbol), k, w1.env.nodes.len());
                },
                Some((w1, TypeApply::Alias(symbol, _, _))) => {
                    lemma_note_symbol(w1, symbol);
                    lemma_extends_trans(w, w1, note_symbol(w1, symbol), k, w1.env.nodes.len());
                },
                _ => {},
            }
        },
        TypeAnnotation::Function(argument_types, return_type) => {
            let n = argument_types.len() as u32;
            lemma_reserve(w, n);
            match reserve(w, n) {
                None => {},
                Some((w1, arguments)) => {
                    lemma_fill_extends(w1, argument_types@, arguments.first.0, 0, n as nat, k);
                    match fill_types(w1, argument_types@, arguments.first.0, 0, n as nat) {
                        None => {},
                        Some(w2) => {
                            lemma_extends_trans(w, w1, w2, k, k);
                            law_to_type_id_extends(w2, return_type.value, return_type.region);
                            match to_type_id_spec(w2, return_type.value, return_type.region) {
                                None => {},
                                Some((w3, _)) => {
                                    lemma_extends_trans(w, w2, w3, k, w2.env.nodes.len());
                                    lemma_fresh_var(w3);
                                    match fresh_var(w3) {
                                        None => {},
                                        Some((w4, cv)) => {
                                            lemma_extends_trans(w, w3, w4, k, w3.env.nodes.len());
                                            lemma_add_node(w4, PoolNode::Type(Type2::Variable(cv)));
                                            match add_node(w4, PoolNode::Type(Type2::Variable(cv))) {
                                                None => {},
                                                Some((w5, _)) => {
                                                    lemma_extends_trans(w, w4, w5, k, w4.env.nodes.len());
                                                },
                                            }
                                        },
                                    }
                                },
                            }
                        },
                    }
                },
            }
        },
        TypeAnnotation::BoundVariable(v) => {
            lemma_rigid(w, v);
        },
        TypeAnnotation::Wildcard => {
            lemma_wildcard(w);
        },
        TypeAnnotation::Malformed(_) => {
            lemma_wildcard(w);
        },
        TypeAnnotation::Record { fields, ext } => {
            lemma_fields_from_extends(w, fields@, region, 0, Seq::empty(), Seq::empty());
            match fields_from(w, fields@, region, 0, Seq::empty(), Seq::empty()) {
                None => {},
                Some((w1, entries)) => {
                    let n = entries.len() as u32;
                    lemma_reserve(w1, n);
                    match reserve(w1, n) {
                        None => {},
                        Some((w2, field_types)) => {
                            lemma_extends_trans(w, w1, w2, k, w1.env.nodes.len());
                            lemma_write_fields(w2, entries, field_types.first.0, 0, n as nat, k);
                            match write_fields(w2, entries, field_types.first.0, 0, n as nat) {
                                None => {},
                                Some(w3) => {
                                    lemma_extends_trans(w, w2, w3, k, k);
                                    match ext {
                                        Some(loc_ann) => {
                                            law_to_type_id_extends(w3, loc_ann.value, region);
                                            if let Some((w4, _)) = to_type_id_spec(w3, loc_ann.value, region) {
                                                lemma_extends_trans(w, w3, w4, k, w3.env.nodes.len());
                                            }
                                        },
                                        None => {
                                            lemma_add_type(w3, Type2::EmptyRec, region);
                                            if let Some((w4, _)) = add_type(w3, Type2::EmptyRec, region) {
                                                lemma_extends_trans(w, w3, w4, k, w3.env.nodes.len());
                                            }
                                        },
                                    }
                                },
                            }
                        },
                    }
                },
            }
        },
        TypeAnnotation::TagUnion { tags, ext } => {
            lemma_tags_from_extends(w, tags@, region, 0, Seq::empty(), Seq::empty());
            match tags_from(w, tags@, region, 0, Seq::empty(), Seq::empty()) {
                None => {},
                Some((w1, entries)) => {
                    let n = entries.len() as u32;
                    lemma_reserve(w1, n);
                    match reserve(w1, n) {
                        None => {},
                        Some((w2, tag_types)) => {
                            lemma_extends_trans(w, w1, w2, k, w1.env.nodes.len());
                            lemma_write_tags(w2, entries, tag_types.first.0, 0, n as nat, k);
                            match write_tags(w2, entries, tag_types.first.0, 0, n as nat) {
                                None => {},
                                Some(w3) => {
                                    lemma_extends_trans(w, w2, w3, k, k);
                                    match ext {
                                        Some(loc_ann) => {
                                            law_to_type_id_extends(w3, loc_ann.value, region);
                                            if let Some((w4, _)) = to_type_id_spec(w3, loc_ann.value, region) {
                                                lemma_extends_trans(w, w3, w4, k, w3.env.nodes.len());
                                            }
                                        },
                                        None => {
                                            lemma_add_type(w3, Type2::EmptyTagUnion, region);
                                            if let Some((w4, _)) = add_type(w3, Type2::EmptyTagUnion, region) {
                                                lemma_extends_trans(w, w3, w4, k, w3.env.nodes.len());
                                            }
                                        },
                                    }
                                },
                            }
                        },
                    }
                },
            }
        },
        TypeAnnotation::As(loc_inner, loc_as) => {
            match loc_as.value {
                TypeAnnotation::Apply(module_name, ident, loc_vars) => {
                    if module_name@.len() == 0 {
                        lemma_introduce_world(w, ident, region);
                        match spec_introduce(w.scope, w.env.exposed_ident_ids, w.env.ident_ids, ident, region) {
                            None => {},
                            Some((scope1, ids1, introduced)) => {
                                let w1 = World { scope: scope1, env: EnvModel { ident_ids: ids1, ..w.env }, ..w };
                                match introduced {
                                    Err((original_region, shadow)) => {
                                        let p = CanProblem::ShadowingInAnnotation { original_region, shadow };
                                        lemma_report(w1, p);
                                        lemma_extends_trans(w, w1, report(w1, p), k, k);
                                    },
                                    Ok(_) => {
                                        law_canon_extends(w1, loc_inner.value, region);
                                        match canon(w1, loc_inner.value, region) {
                                            None => {},
                                            Some((w2, _)) => {
                                                lemma_extends_trans(w, w1, w2, k, k);
                                                let n = loc_vars.len() as u32;
                                                lemma_reserve(w2, n);
                                                match reserve(w2, n) {
                                                    None => {},
                                                    Some((w3, vars)) => {
                                                        lemma_extends_trans(w, w2, w3, k, w2.env.nodes.len());
                                                        lemma_reserve(w3, n);
                                                        match reserve(w3, n) {
                                                            None => {},
                                                            Some((w4, lowercase_vars)) => {
                                                                lemma_extends_trans(w, w3, w4, k, w3.env.nodes.len());
                                                                lemma_alias_vars(w4, loc_vars@, lowercase_vars.first.0, vars.first.0, 0, n as nat, k);
                                                                if let Some((w5, _)) = alias_vars(w4, loc_vars@, lowercase_vars.first.0, vars.first.0, 0, n as nat) {
                                                                    lemma_extends_trans(w, w4, w5, k, k);
                                                                }
                                                            },
                                                        }
                                                    },
                                                }
                                            },
                                        }
                                    },
                                }
                            },
                        }
                    } else {
                        lemma_extends_refl(w, k);
                    }
                },
                _ => {
                    lemma_extends_refl(w, k);
                },
            }
        },
        TypeAnnotation::SpaceBefore(nested) => {
            law_canon_extends(w, *nested, region);
        },
        TypeAnnotation::SpaceAfter(nested) => {
            law_canon_extends(w, *nested, region);
        },
    }
}

/// Canonicalizing an annotation into a new node of the pool extends the world
/// as canonicalization does.
pub proof fn law_to_type_id_extends(w: World, ann: TypeAnnotation, region: Region)
    ensures
        to_type_id_spec(w, ann, region) matches Some((w2, _)) ==> extends(w, w2, w.env.nodes.len()),
    decreases ann, 1nat,
{
    law_canon_extends(w, ann, region);
    if let Some((w1, t)) = canon(w, ann, region) {
        lemma_add_type(w1, t, region);
        if let Some((w2, _)) = add_type(w1, t, region) {
            lemma_extends_trans(w, w1, w2, w.env.nodes.len(), w1.env.nodes.len());
        }
    }
}

/// Canonicalizing an annotation into the node `id` leaves every node below
/// `keep`, and its region, as it was, where `keep` is at most `id`.
pub proof fn law_as_type_id_extends(w: World, id: NodeId, ann: TypeAnnotation, region: Region, keep: nat)
    requires
        keep <= id.0,
        keep <= w.env.nodes.len(),
    ensures
        as_type_id_spec(w, id, ann, region) matches Some(w2) ==> extends(w, w2, keep),
    decreases ann, 1nat,
{
    law_canon_extends(w, ann, region);
    if let Some((w1, t)) = canon(w, ann, region) {
        lemma_write_node(w1, id, PoolNode::Type(t), keep);
        if let Some(w2) = write_node(w1, id, PoolNode::Type(t)) {
            lemma_extends_trans(w, w1, w2, keep, keep);
            lemma_write_region(w2, id, region, keep);
            if let Some(w3) = write_region(w2, id, region) {
                lemma_extends_trans(w, w2, w3, keep, keep);
            }
        }
    }
}

pub(crate) proof fn lemma_fill_extends(w: World, args: Seq<Located<TypeAnnotation>>, first: u32, i: nat, n: nat, keep: nat)
    requires
        keep <= first + i,
        first + n <= u32::MAX,
        keep <= w.env.nodes.len(),
    ensures
        fill_types(w, args, first, i, n) matches Some(w2) ==> extends(w, w2, keep),
    decreases args, n - i,
{
    if i >= n || i >= args.len() {
        lemma_extends_refl(w, keep);
    } else {
        let id = NodeId((first + i) as u32);
        law_as_type_id_extends(w, id, args[i as int].value, args[i as int].region, keep);
        if let Some(w1) = as_type_id_spec(w, id, args[i as int].value, args[i as int].region) {
            lemma_fill_extends(w1, args, first, i + 1, n, keep);
            if let Some(w2) = fill_types(w1, args, first, i + 1, n) {
                lemma_extends_trans(w, w1, w2, keep, keep);
            }
        }
    }
}

proof fn lemma_type_apply_extends(
    w: World,
    module_name: String,
    ident: String,
    targs: Seq<Located<TypeAnnotation>>,
    region: Region,
)
    ensures
        type_apply(w, module_name, ident, targs, region) matches Some((w2, _)) ==> extends(w, w2, w.env.nodes.len()),
    decreases targs, targs.len() + 1,
{
    let k = w.env.nodes.len();
    let n = targs.len() as u32;
    lemma_reserve(w, n);
    if let Some((w1, ids)) = reserve(w, n) {
        lemma_fill_extends(w1, targs, ids.first.0, 0, n as nat, k);
        if let Some(w2) = fill_types(w1, targs, ids.first.0, 0, n as nat) {
            lemma_extends_trans(w, w1, w2, k, k);
        }
    }
    let lookup = if module_name@.len() == 0 {
        spec_scope_lookup(w.scope, ident, region)
    } else {
        spec_qualified_lookup(w.env, module_name, ident, region)
    };
    if let Err(problem) = lookup {
        lemma_report(w, CanProblem::RuntimeError(problem));
    }
}

pub(crate) proof fn lemma_assigned_field_extends(w: World, f: AssignedField)
    ensures
        assigned_field(w, f) matches Some((w2, _)) ==> extends(w, w2, w.env.nodes.len()),
    decreases f, 0nat,
{
    match f {
        AssignedField::RequiredValue(_, annotation) => law_canon_extends(w, annotation.value, annotation.region),
        AssignedField::OptionalValue(_, annotation) => law_canon_extends(w, annotation.value, annotation.region),
        AssignedField::LabelOnly(name) => lemma_rigid(w, name.value),
        AssignedField::SpaceBefore(nested) => lemma_assigned_field_extends(w, *nested),
        AssignedField::SpaceAfter(nested) => lemma_assigned_field_extends(w, *nested),
        AssignedField::Malformed(_) => lemma_extends_refl(w, w.env.nodes.len()),
    }
}

pub(crate) proof fn lemma_fields_from_extends(
    w: World,
    fields: Seq<Located<AssignedField>>,
    region: Region,
    i: nat,
    entries: Seq<(String, RecordField<Type2>)>,
    seen: Seq<(String, Region)>,
)
    ensures
        fields_from(w, fields, region, i, entries, seen) matches Some((w2, _)) ==> extends(w, w2, w.env.nodes.len()),
    decreases fields, fields.len() - i,
{
    let k = w.env.nodes.len();
    if i >= fields.len() {
        lemma_extends_refl(w, k);
    } else {
        lemma_assigned_field_extends(w, fields[i as int].value);
        match assigned_field(w, fields[i as int].value) {
            None => {},
            Some((w1, None)) => {
                lemma_fields_from_extends(w1, fields, region, i + 1, entries, seen);
                if let Some((w2, _)) = fields_from(w1, fields, region, i + 1, entries, seen) {
                    lemma_extends_trans(w, w1, w2, k, w1.env.nodes.len());
                }
            },
            Some((w1, Some((label, field)))) => {
                let field_region = fields[i as int].region;
                let w2 = match assoc_get(seen, label@) {
                    Some(replaced_region) => {
                        let p = CanProblem::DuplicateRecordFieldType {
                            field_name: label,
                            record_region: region,
                            field_region,
                            replaced_region,
                        };
                        lemma_report(w1, p);
                        report(w1, p)
                    },
                    None => {
                        lemma_extends_refl(w1, w1.env.nodes.len());
                        w1
                    },
                };
                lemma_extends_trans(w, w1, w2, k, w1.env.nodes.len());
                let entries2 = assoc_insert(entries, label, field);
                let seen2 = assoc_insert(seen, label, field_region);
                lemma_fields_from_extends(w2, fields, region, i + 1, entries2, seen2);
                if let Some((w3, _)) = fields_from(w2, fields, region, i + 1, entries2, seen2) {
                    lemma_extends_trans(w, w2, w3, k, w2.env.nodes.len());
                }
            },
        }
    }
}

pub(crate) proof fn lemma_tag_spec_extends(w: World, t: Tag)
    ensures
        tag_spec(w, t) matches Some((w2, _)) ==> extends(w, w2, w.env.nodes.len()),
    decreases t, 0nat,
{
    match t {
        Tag::Global { name, args } => lemma_tag_args_extends(w, name.value, args@),
        Tag::Private { name, args } => lemma_tag_args_extends(w, name.value, args@),
        Tag::SpaceBefore(nested) => lemma_tag_spec_extends(w, *nested),
        Tag::SpaceAfter(nested) => lemma_tag_spec_extends(w, *nested),
        Tag::Malformed(_) => lemma_extends_refl(w, w.env.nodes.len()),
    }
}

pub(crate) proof fn lemma_tag_args_extends(w: World, name: String, args: Seq<Located<TypeAnnotation>>)
    ensures
        tag_args(w, name, args) matches Some((w2, _)) ==> extends(w, w2, w.env.nodes.len()),
    decreases args, args.len() + 1,
{
    let k = w.env.nodes.len();
    let n = args.len() as u32;
    lemma_reserve(w, n);
    if let Some((w1, arg_types)) = reserve(w, n) {
        lemma_fill_extends(w1, args, arg_types.first.0, 0, n as nat, k);
        if let Some(w2) = fill_types(w1, args, arg_types.first.0, 0, n as nat) {
            lemma_extends_trans(w, w1, w2, k, k);
        }
    }
}

pub(crate) proof fn lemma_tags_from_extends(
    w: World,
    tags: Seq<Located<Tag>>,
    region: Region,
    i: nat,
    entries: Seq<(String, PoolVec)>,
    seen: Seq<(String, Region)>,
)
    ensures
        tags_from(w, tags, region, i, entries, seen) matches Some((w2, _)) ==> extends(w, w2, w.env.nodes.len()),
    decreases tags, tags.len() - i,
{
    let k = w.env.nodes.len();
    if i >= tags.len() {
        lemma_extends_refl(w, k);
    } else {
        lemma_tag_spec_extends(w, tags[i as int].value);
        match tag_spec(w, tags[i as int].value) {
            None => {},
            Some((w1, None)) => {
                lemma_tags_from_extends(w1, tags, region, i + 1, entries, seen);
                if let Some((w2, _)) = tags_from(w1, tags, region, i + 1, entries, seen) {
                    lemma_extends_trans(w, w1, w2, k, w1.env.nodes.len());
                }
            },
            Some((w1, Some((name, arg_types)))) => {
                let tag_region = tags[i as int].region;
                let w2 = match assoc_get(seen, name@) {
                    Some(replaced_region) => {
                        let p = CanProblem::DuplicateTag {
                            tag_name: TagName::Global(name),
                            tag_union_region: region,
                            tag_region,
                            replaced_region,
                        };
                        lemma_report(w1, p);
                        report(w1, p)
                    },
                    None => {
                        lemma_extends_refl(w1, w1.env.nodes.len());
                        w1
                    },
                };
                lemma_extends_trans(w, w1, w2, k, w1.env.nodes.len());
                let entries2 = entries.push((name, arg_types));
                let seen2 = assoc_insert(seen, name, tag_region);
                lemma_tags_from_extends(w2, tags, region, i + 1, entries2, seen2);
                if let Some((w3, _)) = tags_from(w2, tags, region, i + 1, entries2, seen2) {
                    lemma_extends_trans(w, w2, w3, k, w2.env.nodes.len());
                }
            },
        }
    }
}

pub(crate) proof fn lemma_write_fields(w: World, entries: Seq<(String, RecordField<Type2>)>, first: u32, i: nat, n: nat, keep: nat)
    requires
        keep <= first,
        first + n <= u32::MAX,
        keep <= w.env.nodes.len(),
    ensures
        write_fields(w, entries, first, i, n) matches Some(w2) ==> extends(w, w2, keep),
    decreases n - i,
{
    if i >= n || i >= entries.len() {
        lemma_extends_refl(w, keep);
    } else {
        lemma_add_node(w, PoolNode::Str(entries[i as int].0));
        if let Some((w1, label_id)) = add_node(w, PoolNode::Str(entries[i as int].0)) {
            lemma_extends_trans(w, w1, w1, keep, keep);
            let node = PoolNode::Field(PoolStr { node: label_id }, entries[i as int].1);
            let id = NodeId((first + i) as u32);
            lemma_write_node(w1, id, node, keep);
            if let Some(w2) = write_node(w1, id, node) {
                lemma_extends_trans(w, w1, w2, keep, keep);
                lemma_write_fields(w2, entries, first, i + 1, n, keep);
                if let Some(w3) = write_fields(w2, entries, first, i + 1, n) {
                    lemma_extends_trans(w, w2, w3, keep, keep);
                }
            }
        }
    }
}

pub(crate) proof fn lemma_write_tags(w: World, entries: Seq<(String, PoolVec)>, first: u32, i: nat, n: nat, keep: nat)
    requires
        keep <= first,
        first + n <= u32::MAX,
        keep <= w.env.nodes.len(),
    ensures
        write_tags(w, entries, first, i, n) matches Some(w2) ==> extends(w, w2, keep),
    decreases n - i,
{
    if i >= n || i >= entries.len() {
        lemma_extends_refl(w, keep);
    } else {
        lemma_add_node(w, PoolNode::Str(entries[i as int].0));
        if let Some((w1, name_id)) = add_node(w, PoolNode::Str(entries[i as int].0)) {
            let node = PoolNode::Tag(PoolStr { node: name_id }, entries[i as int].1);
            let id = NodeId((first + i) as u32);
            lemma_write_node(w1, id, node, keep);
            if let Some(w2) = write_node(w1, id, node) {
                lemma_extends_trans(w, w1, w2, keep, keep);
                lemma_write_tags(w2, entries, first, i + 1, n, keep);
                if let Some(w3) = write_tags(w2, entries, first, i + 1, n) {
                    lemma_extends_trans(w, w2, w3, keep, keep);
                }
            }
        }
    }
}

pub(crate) proof fn lemma_alias_vars(
    w: World,
    loc_vars: Seq<Located<TypeAnnotation>>,
    named_first: u32,
    var_first: u32,
    i: nat,
    n: nat,
    keep: nat,
)
    requires
        keep <= named_first,
        keep <= var_first,
        named_first + n <= u32::MAX,
        var_first + n <= u32::MAX,
        keep <= w.env.nodes.len(),
    ensures
        alias_vars(w, loc_vars, named_first, var_first, i, n) matches Some((w2, _)) ==> extends(w, w2, keep),
    decreases n - i,
{
    if i >= n || i >= loc_vars.len() {
        lemma_extends_refl(w, keep);
    } else {
        match loc_vars[i as int].value {
            TypeAnnotation::BoundVariable(var_name) => {
                let named_id = NodeId((named_first + i) as u32);
                let var_id = NodeId((var_first + i) as u32);
                lemma_rigid(w, var_name);
                if let Some((w1, var)) = rigid(w, var_name) {
                    lemma_add_node(w1, PoolNode::Str(var_name));
                    if let Some((w2, name_id)) = add_node(w1, PoolNode::Str(var_name)) {
                        lemma_extends_trans(w, w1, w2, keep, w1.env.nodes.len());
                        lemma_add_node(w2, PoolNode::Type(Type2::Variable(var)));
                        if let Some((w3, type_id)) = add_node(w2, PoolNode::Type(Type2::Variable(var))) {
                            lemma_extends_trans(w, w2, w3, keep, w2.env.nodes.len());
                            let n1 = PoolNode::NamedType(PoolStr { node: name_id }, type_id);
                            lemma_write_node(w3, var_id, n1, keep);
                            if let Some(w4) = write_node(w3, var_id, n1) {
                                lemma_extends_trans(w, w3, w4, keep, keep);
                                let n2 = PoolNode::NamedVar(PoolStr { node: name_id }, var);
                                lemma_write_node(w4, named_id, n2, keep);
                                if let Some(w5) = write_node(w4, named_id, n2) {
                                    lemma_extends_trans(w, w4, w5, keep, keep);
                                    lemma_write_region(w5, named_id, loc_vars[i as int].region, keep);
                                    if let Some(w6) = write_region(w5, named_id, loc_vars[i as int].region) {
                                        lemma_extends_trans(w, w5, w6, keep, keep);
                                        lemma_alias_vars(w6, loc_vars, named_first, var_first, i + 1, n, keep);
                                        if let Some((w7, _)) = alias_vars(w6, loc_vars, named_first, var_first, i + 1, n) {
                                            lemma_extends_trans(w, w6, w7, keep, keep);
                                        }
                                    }
                                }
                            }
                        }
                    }
                }
            },
            _ => {
                lemma_extends_refl(w, keep);
            },
        }
    }
}


proof fn lemma_assoc_index_prefix<V>(a: Seq<(String, V)>, b: Seq<(String, V)>, k: Seq<char>)
    requires
        prefix_of(a, b),
        assoc_index(a, k) is Some,
    ensures
        assoc_index(b, k) == assoc_index(a, k),
    decreases a.len(),
{
    if a[0].0@ != k {
        assert(prefix_of(a.drop_first(), b.drop_first()));
        lemma_assoc_index_prefix(a.drop_first(), b.drop_first(), k);
    }
}

/// A rigid variable keeps the variable it is bound to: a name bound before
/// canonicalizing an annotation is bound to the same variable after it.
pub proof fn law_rigid_binding_kept(w: World, ann: TypeAnnotation, region: Region, name: Seq<char>)
    ensures
        canon(w, ann, region) matches Some((w2, _)) ==> (assoc_get(w.refs.named, name) is Some
            ==> assoc_get(w2.refs.named, name) == assoc_get(w.refs.named, name)),
{
    law_canon_extends(w, ann, region);
    if let Some((w2, _)) = canon(w, ann, region) {
        if assoc_get(w.refs.named, name) is Some {
            lemma_assoc_index_bounds(w.refs.named, name);
            lemma_assoc_index_prefix(w.refs.named, w2.refs.named, name);
        }
    }
}

/// The same name stands for the same rigid variable: once a type variable
/// has been canonicalized, the same name canonicalizes to the same variable
/// and changes nothing.
pub proof fn law_rigid_same_name(w: World, a: String, b: String, ra: Region, rb: Region)
    requires
        a@ == b@,
    ensures
        canon(w, TypeAnnotation::BoundVariable(a), ra) matches Some((w1, t))
            ==> canon(w1, TypeAnnotation::BoundVariable(b), rb) == Some((w1, t)),
{
    if let Some((w1, t)) = canon(w, TypeAnnotation::BoundVariable(a), ra) {
        if assoc_get(w.refs.named, a@) is None {
            lemma_assoc_index_bounds(w.refs.named, a@);
            let pushed = w.refs.named.push((a, t->Variable_0));
            assert forall|j: int| 0 <= j < w.refs.named.len() implies pushed[j].0@ != a@ by {
                if pushed[j].0@ == a@ {
                    lemma_assoc_index_some(w.refs.named, a@, j);
                }
            }
            lemma_assoc_index_found(pushed, a@, w.refs.named.len() as int);
        }
    }
}

/// A wildcard stands for a fresh variable, the next one of the store, which
/// is recorded among the unnamed rigids.
pub proof fn law_wildcard_fresh(w: World, region: Region)
    ensures
        canon(w, TypeAnnotation::Wildcard, region) matches Some((w2, t)) ==> {
            &&& t == Type2::Variable(Variable(w.env.next_var))
            &&& w2.env.next_var == w.env.next_var + 1
            &&& w2.refs.unnamed.contains(Variable(w.env.next_var))
        },
{
    if let Some((w2, t)) = canon(w, TypeAnnotation::Wildcard, region) {
        let v = Variable(w.env.next_var);
        if !w.refs.unnamed.contains(v) {
            assert(w2.refs.unnamed[w.refs.unnamed.len() as int] == v);
        }
    }
}

/// A record field given by its label alone, `{ a }`, means `{ a : a }`.
pub proof fn law_label_only_field(w: World, name: Located<String>, region: Region)
    ensures
        assigned_field(w, AssignedField::LabelOnly(name)) == assigned_field(
            w,
            AssignedField::RequiredValue(
                name,
                Box::new(Located { region, value: TypeAnnotation::BoundVariable(name.value) }),
            ),
        ),
{
    let ann = TypeAnnotation::BoundVariable(name.value);
    assert(canon(w, ann, region) == match rigid(w, name.value) {
        None => None,
        Some((w1, var)) => Some((w1, Type2::Variable(var))),
    });
}

pub(crate) proof fn lemma_assoc_insert_distinct<V>(s: Seq<(String, V)>, k: String, v: V)
    requires
        distinct_names(s),
    ensures
        distinct_names(assoc_insert(s, k, v)),
{
    lemma_assoc_index_bounds(s, k@);
    match assoc_index(s, k@) {
        Some(i) => {
            let t = s.update(i, (k, v));
            assert forall|a: int, b: int| 0 <= a < b < t.len() implies (#[trigger] t[a]).0@ != (#[trigger] t[b]).0@ by {
                assert(s[a].0@ != s[b].0@);
            }
        },
        None => {
            let t = s.push((k, v));
            assert forall|a: int, b: int| 0 <= a < b < t.len() implies (#[trigger] t[a]).0@ != (#[trigger] t[b]).0@ by {
                if b == s.len() {
                    if s[a].0@ == k@ {
                        lemma_assoc_index_some(s, k@, a);
                    }
                }
            }
        },
    }
}

/// A record type holds each label once: when two fields have the same label
/// the right-most one stands for both.
pub proof fn law_record_labels_distinct(
    w: World,
    fields: Seq<Located<AssignedField>>,
    region: Region,
    i: nat,
    entries: Seq<(String, RecordField<Type2>)>,
    seen: Seq<(String, Region)>,
)
    requires
        distinct_names(entries),
    ensures
        fields_from(w, fields, region, i, entries, seen) matches Some((_, out)) ==> distinct_names(out),
    decreases fields.len() - i,
{
    if i < fields.len() {
        match assigned_field(w, fields[i as int].value) {
            None => {},
            Some((w1, None)) => {
                law_record_labels_distinct(w1, fields, region, i + 1, entries, seen);
            },
            Some((w1, Some((label, field)))) => {
                let field_region = fields[i as int].region;
                let w2 = match assoc_get(seen, label@) {
                    Some(replaced_region) => report(
                        w1,
                        CanProblem::DuplicateRecordFieldType {
                            field_name: label,
                            record_region: region,
                            field_region,
                            replaced_region,
                        },
                    ),
                    None => w1,
                };
                lemma_assoc_insert_distinct(entries, label, field);
                law_record_labels_distinct(
                    w2,
                    fields,
                    region,
                    i + 1,
                    assoc_insert(entries, label, field),
                    assoc_insert(seen, label, field_region),
                );
            },
        }
    }
}


/// The nodes from `pv.first` on, `pv.len` of them, are all below `len`.
pub open spec fn run_within(pv: PoolVec, len: nat) -> bool {
    pv.first.0 + pv.len <= len
}

/// Every node id that `t` holds refers to one of the first `len` nodes.
pub open spec fn ids_within(t: Type2, len: nat) -> bool {
    match t {
        Type2::Alias(_, args, actual) => run_within(args, len) && actual.0 < len,
        Type2::AsAlias(_, args, actual) => run_within(args, len) && actual.0 < len,
        Type2::HostExposedAlias { arguments, actual, .. } => run_within(arguments, len) && actual.0 < len,
        Type2::TagUnion(tags, ext) => run_within(tags, len) && ext.0 < len,
        Type2::RecursiveTagUnion(_, tags, ext) => run_within(tags, len) && ext.0 < len,
        Type2::Record(fields, ext) => run_within(fields, len) && ext.0 < len,
        Type2::Function(args, closure, ret) => run_within(args, len) && closure.0 < len && ret.0 < len,
        Type2::Apply(_, args) => run_within(args, len),
        _ => true,
    }
}

proof fn lemma_to_type_id_within(w: World, ann: TypeAnnotation, region: Region)
    ensures
        to_type_id_spec(w, ann, region) matches Some((w2, id)) ==> (id.0 as int) < w2.env.nodes.len(),
{
    if let Some((w1, t)) = canon(w, ann, region) {
        assert(add_type(w1, t, region) matches Some((w2, id)) ==> (id.0 as int) < w2.env.nodes.len());
    }
}

proof fn lemma_type_apply_within(
    w: World,
    module_name: String,
    ident: String,
    targs: Seq<Located<TypeAnnotation>>,
    region: Region,
)
    ensures
        type_apply(w, module_name, ident, targs, region) matches Some((w2, TypeApply::Apply(_, args)))
            ==> run_within(args, w2.env.nodes.len()),
{
    let n = targs.len() as u32;
    lemma_reserve(w, n);
    if let Some((w1, ids)) = reserve(w, n) {
        lemma_fill_extends(w1, targs, ids.first.0, 0, n as nat, ids.first.0 as nat);
    }
}

/// Every node id in a canonical type refers to a node of the pool.
#[verifier::spinoff_prover]
#[verifier::rlimit(60)]
pub proof fn law_canon_ids_in_pool(w: World, ann: TypeAnnotation, region: Region)
    ensures
        canon(w, ann, region) matches Some((w2, t)) ==> ids_within(t, w2.env.nodes.len()),
    decreases ann,
{
    match ann {
        TypeAnnotation::Apply(module_name, ident, targs) => {
            lemma_type_apply_within(w, module_name, ident, targs@, region);
        },
        TypeAnnotation::Function(argument_types, return_type) => {
            let n = argument_types.len() as u32;
            lemma_reserve(w, n);
            if let Some((w1, arguments)) = reserve(w, n) {
                lemma_fill_extends(w1, argument_types@, arguments.first.0, 0, n as nat, arguments.first.0 as nat);
                if let Some(w2) = fill_types(w1, argument_types@, arguments.first.0, 0, n as nat) {
                    law_to_type_id_extends(w2, return_type.value, return_type.region);
                    lemma_to_type_id_within(w2, return_type.value, return_type.region);
                    if let Some((w3, _)) = to_type_id_spec(w2, return_type.value, return_type.region) {
                        lemma_fresh_var(w3);
                        if let Some((w4, cv)) = fresh_var(w3) {
                            lemma_add_node(w4, PoolNode::Type(Type2::Variable(cv)));
                        }
                    }
                }
            }
        },
        TypeAnnotation::Record { fields, ext } => {
            if let Some((w1, entries)) = fields_from(w, fields@, region, 0, Seq::empty(), Seq::empty()) {
                let n = entries.len() as u32;
                lemma_reserve(w1, n);
                if let Some((w2, field_types)) = reserve(w1, n) {
                    lemma_write_fields(w2, entries, field_types.first.0, 0, n as nat, field_types.first.0 as nat);
                    if let Some(w3) = write_fields(w2, entries, field_types.first.0, 0, n as nat) {
                        match ext {
                            Some(loc_ann) => {
                                law_to_type_id_extends(w3, loc_ann.value, region);
                                lemma_to_type_id_within(w3, loc_ann.value, region);
                            },
                            None => {
                                lemma_add_type(w3, Type2::EmptyRec, region);
                            },
                        }
                    }
                }
            }
        },
        TypeAnnotation::TagUnion { tags, ext } => {
            if let Some((w1, entries)) = tags_from(w, tags@, region, 0, Seq::empty(), Seq::empty()) {
                let n = entries.len() as u32;
                lemma_reserve(w1, n);
                if let Some((w2, tag_types)) = reserve(w1, n) {
                    lemma_write_tags(w2, entries, tag_types.first.0, 0, n as nat, tag_types.first.0 as nat);
                    if let Some(w3) = write_tags(w2, entries, tag_types.first.0, 0, n as nat) {
                        match ext {
                            Some(loc_ann) => {
                                law_to_type_id_extends(w3, loc_ann.value, region);
                                lemma_to_type_id_within(w3, loc_ann.value, region);
                            },
                            None => {
                                lemma_add_type(w3, Type2::EmptyTagUnion, region);
                            },
                        }
                    }
                }
            }
        },
        TypeAnnotation::SpaceBefore(nested) => {
            assert(canon(w, ann, region) == canon(w, *nested, region));
            law_canon_ids_in_pool(w, *nested, region);
        },
        TypeAnnotation::SpaceAfter(nested) => {
            assert(canon(w, ann, region) == canon(w, *nested, region));
            law_canon_ids_in_pool(w, *nested, region);
        },
        _ => {},
    }
}


/// A type name that is not in scope canonicalizes to an erroneous type that
/// names it; the failed lookup is reported, and nothing else changes: its
/// arguments are not looked at.
pub proof fn law_unresolved_type_name(
    w: World,
    module_name: String,
    ident: String,
    targs: Vec<Located<TypeAnnotation>>,
    region: Region,
)
    requires
        module_name@.len() == 0,
        spec_find_ident(w.scope.idents, ident@) is None,
    ensures
        canon(w, TypeAnnotation::Apply(module_name, ident, targs), region) == Some((
            report(
                w,
                CanProblem::RuntimeError(
                    RuntimeError::LookupNotInScope(Located { region, value: ident }),
                ),
            ),
            Type2::Erroneous(Problem::UnrecognizedIdent(ident)),
        )),
{
    let problem = RuntimeError::LookupNotInScope(Located { region, value: ident });
    assert(spec_scope_lookup(w.scope, ident, region) == Err::<Symbol, _>(problem));
    assert(type_apply(w, module_name, ident, targs@, region) == Some((
        report(w, CanProblem::RuntimeError(problem)),
        TypeApply::Erroneous(Problem::UnrecognizedIdent(ident)),
    )));
}


/// Spaces and comments around an annotation change nothing: the annotation
/// canonicalizes as the one inside them does, whatever the world.
pub proof fn law_spaces_transparent(w: World, nested: TypeAnnotation, region: Region)
    ensures
        canon(w, TypeAnnotation::SpaceBefore(Box::new(nested)), region) == canon(w, nested, region),
        canon(w, TypeAnnotation::SpaceAfter(Box::new(nested)), region) == canon(w, nested, region),
{
}

/// Canonicalizing into the node `id` writes the canonical type of the
/// annotation there with `region`, and changes nothing else that
/// canonicalizing the annotation does not.
pub proof fn law_as_type_id_writes(w: World, id: NodeId, ann: TypeAnnotation, region: Region)
    ensures
        as_type_id_spec(w, id, ann, region) matches Some(w3) ==> (canon(w, ann, region) matches Some((w1, t)) && {
            &&& (id.0 as int) < w1.env.nodes.len()
            &&& w3.env.nodes[id.0 as int] == (PoolSlot { node: PoolNode::Type(t), region: Some(region) })
            &&& w3 == with_nodes(w1, w1.env.nodes.update(id.0 as int, PoolSlot { node: PoolNode::Type(t), region: Some(region) }))
        }),
{
    if let Some((w1, t)) = canon(w, ann, region) {
        if let Some(w2) = write_node(w1, id, PoolNode::Type(t)) {
            if let Some(w3) = write_region(w2, id, region) {
                assert(w3.env.nodes =~= w1.env.nodes.update(id.0 as int, PoolSlot { node: PoolNode::Type(t), region: Some(region) }));
            }
        }
    }
}

/// Canonicalizing into a new node adds, after the nodes that canonicalizing
/// the annotation adds, one node that holds its canonical type with
/// `region`, and returns its id, which no node had before the call.
pub proof fn law_to_type_id_new_node(w: World, ann: TypeAnnotation, region: Region)
    ensures
        to_type_id_spec(w, ann, region) matches Some((w2, id)) ==> (canon(w, ann, region) matches Some((w1, t)) && {
            &&& id.0 == w1.env.nodes.len()
            &&& id.0 >= w.env.nodes.len()
            &&& w2 == with_nodes(w1, w1.env.nodes.push(PoolSlot { node: PoolNode::Type(t), region: Some(region) }))
        }),
{
    law_canon_extends(w, ann, region);
    if let Some((w1, t)) = canon(w, ann, region) {
        if let Some((w2, id)) = add_type(w1, t, region) {
            assert(w2.env.nodes =~= w1.env.nodes.push(PoolSlot { node: PoolNode::Type(t), region: Some(region) }));
        }
    }
}

/// Every variable that the references record, bound to a rigid name or
/// standing for a wildcard, was handed out by the store.
pub open spec fn recorded_below_next(w: World) -> bool {
    &&& forall|k: int| 0 <= k < w.refs.named.len() ==> (#[trigger] w.refs.named[k]).1.0 < w.env.next_var
    &&& forall|k: int| 0 <= k < w.refs.unnamed.len() ==> (#[trigger] w.refs.unnamed[k]).0 < w.env.next_var
}

/// Canonicalization keeps every recorded variable below the store's next
/// variable.
pub proof fn law_recorded_below_next(w: World, ann: TypeAnnotation, region: Region)
    ensures
        canon(w, ann, region) matches Some((w2, _)) ==> (recorded_below_next(w) ==> recorded_below_next(w2)),
{
    law_canon_extends(w, ann, region);
    if let Some((w2, _)) = canon(w, ann, region) {
        if recorded_below_next(w) {
            assert forall|k: int| 0 <= k < w2.refs.named.len() implies (#[trigger] w2.refs.named[k]).1.0 < w2.env.next_var by {
                if k < w.refs.named.len() {
                    assert(w2.refs.named[k] == w.refs.named[k]);
                } else {
                    assert(named_vars(w2.refs.named)[k] == w2.refs.named[k].1);
                }
            }
            assert forall|k: int| 0 <= k < w2.refs.unnamed.len() implies (#[trigger] w2.refs.unnamed[k]).0 < w2.env.next_var by {
                if k < w.refs.unnamed.len() {
                    assert(w2.refs.unnamed[k] == w.refs.unnamed[k]);
                }
            }
        }
    }
}


/// The field that a label alone stands for: `{ a }` is `{ a : a }`.
pub open spec fn label_only_expanded(field: Located<AssignedField>) -> Located<AssignedField> {
    match field.value {
        AssignedField::LabelOnly(name) => Located {
            region: field.region,
            value: AssignedField::RequiredValue(
                name,
                Box::new(Located { region: name.region, value: TypeAnnotation::BoundVariable(name.value) }),
            ),
        },
        _ => field,
    }
}

proof fn lemma_label_only_fields(
    w: World,
    fields: Seq<Located<AssignedField>>,
    j: int,
    region: Region,
    i: nat,
    entries: Seq<(String, RecordField<Type2>)>,
    seen: Seq<(String, Region)>,
)
    requires
        0 <= j < fields.len(),
    ensures
        fields_from(w, fields, region, i, entries, seen)
            == fields_from(w, fields.update(j, label_only_expanded(fields[j])), region, i, entries, seen),
    decreases fields.len() - i,
{
    let fields2 = fields.update(j, label_only_expanded(fields[j]));
    if i < fields.len() {
        if i == j {
            if let AssignedField::LabelOnly(name) = fields[j].value {
                law_label_only_field(w, name, name.region);
            }
        }
        assert(fields2[i as int].region == fields[i as int].region);
        assert(assigned_field(w, fields2[i as int].value) == assigned_field(w, fields[i as int].value));
        match assigned_field(w, fields[i as int].value) {
            None => {},
            Some((w1, None)) => {
                lemma_label_only_fields(w1, fields, j, region, i + 1, entries, seen);
            },
            Some((w1, Some((label, field)))) => {
                let field_region = fields[i as int].region;
                let w2 = match assoc_get(seen, label@) {
                    Some(replaced_region) => report(
                        w1,
                        CanProblem::DuplicateRecordFieldType { field_name: label, record_region: region, field_region, replaced_region },
                    ),
                    None => w1,
                };
                lemma_label_only_fields(
                    w2,
                    fields,
                    j,
                    region,
                    i + 1,
                    assoc_insert(entries, label, field),
                    assoc_insert(seen, label, field_region),
                );
            },
        }
    }
}

/// In a record, a field given by its label alone, `{ a }`, means `{ a : a }`:
/// writing it out changes nothing of what canonicalizing the record does.
pub proof fn law_label_only_record(
    w: World,
    fields: Vec<Located<AssignedField>>,
    written_out: Vec<Located<AssignedField>>,
    j: int,
    ext: Option<Box<Located<TypeAnnotation>>>,
    region: Region,
)
    requires
        0 <= j < fields@.len(),
        written_out@ == fields@.update(j, label_only_expanded(fields@[j])),
    ensures
        canon(w, TypeAnnotation::Record { fields, ext }, region)
            == canon(w, TypeAnnotation::Record { fields: written_out, ext }, region),
{
    lemma_label_only_fields(w, fields@, j, region, 0, Seq::empty(), Seq::empty());
}

/// The field, once spaces are unwrapped, is malformed.
pub open spec fn field_malformed(f: AssignedField) -> bool
    decreases f,
{
    match f {
        AssignedField::SpaceBefore(nested) => field_malformed(*nested),
        AssignedField::SpaceAfter(nested) => field_malformed(*nested),
        AssignedField::Malformed(_) => true,
        _ => false,
    }
}

/// `fields` without the malformed ones.
pub open spec fn well_formed_fields(fields: Seq<Located<AssignedField>>) -> Seq<Located<AssignedField>>
    decreases fields.len(),
{
    if fields.len() == 0 {
        fields
    } else if field_malformed(fields[0].value) {
        well_formed_fields(fields.drop_first())
    } else {
        seq![fields[0]] + well_formed_fields(fields.drop_first())
    }
}

proof fn lemma_malformed_field(w: World, f: AssignedField)
    ensures
        field_malformed(f) ==> assigned_field(w, f) == Some((w, None::<(String, RecordField<Type2>)>)),
    decreases f,
{
    match f {
        AssignedField::SpaceBefore(nested) => lemma_malformed_field(w, *nested),
        AssignedField::SpaceAfter(nested) => lemma_malformed_field(w, *nested),
        _ => {},
    }
}

proof fn lemma_fields_from_shift(
    w: World,
    fields: Seq<Located<AssignedField>>,
    region: Region,
    i: nat,
    entries: Seq<(String, RecordField<Type2>)>,
    seen: Seq<(String, Region)>,
)
    requires
        fields.len() > 0,
    ensures
        fields_from(w, fields, region, i + 1, entries, seen) == fields_from(w, fields.drop_first(), region, i, entries, seen),
    decreases fields.len() - i,
{
    let rest = fields.drop_first();
    if i + 1 < fields.len() {
        assert(fields[i + 1 as int] == rest[i as int]);
        match assigned_field(w, fields[i + 1 as int].value) {
            None => {},
            Some((w1, None)) => {
                lemma_fields_from_shift(w1, fields, region, i + 1, entries, seen);
            },
            Some((w1, Some((label, field)))) => {
                let field_region = fields[i + 1 as int].region;
                let w2 = match assoc_get(seen, label@) {
                    Some(replaced_region) => report(
                        w1,
                        CanProblem::DuplicateRecordFieldType { field_name: label, record_region: region, field_region, replaced_region },
                    ),
                    None => w1,
                };
                lemma_fields_from_shift(
                    w2,
                    fields,
                    region,
                    i + 1,
                    assoc_insert(entries, label, field),
                    assoc_insert(seen, label, field_region),
                );
            },
        }
    }
}

pub(crate) proof fn lemma_malformed_fields(
    w: World,
    fields: Seq<Located<AssignedField>>,
    region: Region,
    entries: Seq<(String, RecordField<Type2>)>,
    seen: Seq<(String, Region)>,
)
    ensures
        fields_from(w, fields, region, 0, entries, seen)
            == fields_from(w, well_formed_fields(fields), region, 0, entries, seen),
    decreases fields.len(),
{
    if fields.len() > 0 {
        let rest = fields.drop_first();
        lemma_malformed_field(w, fields[0].value);
        lemma_fields_from_shift(w, fields, region, 0, entries, seen);
        if field_malformed(fields[0].value) {
            lemma_malformed_fields(w, rest, region, entries, seen);
        } else {
            let g = seq![fields[0]] + well_formed_fields(rest);
            assert(g[0] == fields[0]);
            assert(g.drop_first() =~= well_formed_fields(rest));
            match assigned_field(w, fields[0].value) {
                None => {},
                Some((w1, None)) => {
                    lemma_fields_from_shift(w1, fields, region, 0, entries, seen);
                    lemma_fields_from_shift(w1, g, region, 0, entries, seen);
                    lemma_malformed_fields(w1, rest, region, entries, seen);
                },
                Some((w1, Some((label, field)))) => {
                    let field_region = fields[0].region;
                    let w2 = match assoc_get(seen, label@) {
                        Some(replaced_region) => report(
                            w1,
                            CanProblem::DuplicateRecordFieldType { field_name: label, record_region: region, field_region, replaced_region },
                        ),
                        None => w1,
                    };
                    let e2 = assoc_insert(entries, label, field);
                    let s2 = assoc_insert(seen, label, field_region);
                    lemma_fields_from_shift(w2, fields, region, 0, e2, s2);
                    lemma_fields_from_shift(w2, g, region, 0, e2, s2);
                    lemma_malformed_fields(w2, rest, region, e2, s2);
                },
            }
        }
    }
}

/// Malformed record fields are skipped: leaving them out changes nothing of
/// what canonicalizing the record does, and nothing is reported for them.
pub proof fn law_malformed_fields_skipped(
    w: World,
    fields: Vec<Located<AssignedField>>,
    kept: Vec<Located<AssignedField>>,
    ext: Option<Box<Located<TypeAnnotation>>>,
    region: Region,
)
    requires
        kept@ == well_formed_fields(fields@),
    ensures
        canon(w, TypeAnnotation::Record { fields, ext }, region)
            == canon(w, TypeAnnotation::Record { fields: kept, ext }, region),
{
    lemma_malformed_fields(w, fields@, region, Seq::empty(), Seq::empty());
}

/// The tag, once spaces are unwrapped, is malformed.
pub open spec fn tag_malformed(t: Tag) -> bool
    decreases t,
{
    match t {
        Tag::SpaceBefore(nested) => tag_malformed(*nested),
        Tag::SpaceAfter(nested) => tag_malformed(*nested),
        Tag::Malformed(_) => true,
        _ => false,
    }
}

/// `tags` without the malformed ones.
pub open spec fn well_formed_tags(tags: Seq<Located<Tag>>) -> Seq<Located<Tag>>
    decreases tags.len(),
{
    if tags.len() == 0 {
        tags
    } else if tag_malformed(tags[0].value) {
        well_formed_tags(tags.drop_first())
    } else {
        seq![tags[0]] + well_formed_tags(tags.drop_first())
    }
}

pub(crate) proof fn lemma_malformed_tag(w: World, t: Tag)
    ensures
        tag_malformed(t) ==> tag_spec(w, t) == Some((w, None::<(String, PoolVec)>)),
    decreases t,
{
    match t {
        Tag::SpaceBefore(nested) => lemma_malformed_tag(w, *nested),
        Tag::SpaceAfter(nested) => lemma_malformed_tag(w, *nested),
        _ => {},
    }
}

pub(crate) proof fn lemma_tags_from_shift(
    w: World,
    tags: Seq<Located<Tag>>,
    region: Region,
    i: nat,
    entries: Seq<(String, PoolVec)>,
    seen: Seq<(String, Region)>,
)
    requires
        tags.len() > 0,
    ensures
        tags_from(w, tags, region, i + 1, entries, seen) == tags_from(w, tags.drop_first(), region, i, entries, seen),
    decreases tags.len() - i,
{
    let rest = tags.drop_first();
    if i + 1 < tags.len() {
        assert(tags[i + 1 as int] == rest[i as int]);
        match tag_spec(w, tags[i + 1 as int].value) {
            None => {},
            Some((w1, None)) => {
                lemma_tags_from_shift(w1, tags, region, i + 1, entries, seen);
            },
            Some((w1, Some((name, arg_types)))) => {
                let tag_region = tags[i + 1 as int].region;
                let w2 = match assoc_get(seen, name@) {
                    Some(replaced_region) => report(
                        w1,
                        CanProblem::DuplicateTag { tag_name: TagName::Global(name), tag_union_region: region, tag_region, replaced_region },
                    ),
                    None => w1,
                };
                lemma_tags_from_shift(
                    w2,
                    tags,
                    region,
                    i + 1,
                    entries.push((name, arg_types)),
                    assoc_insert(seen, name, tag_region),
                );
            },
        }
    }
}

pub(crate) proof fn lemma_malformed_tags(
    w: World,
    tags: Seq<Located<Tag>>,
    region: Region,
    entries: Seq<(String, PoolVec)>,
    seen: Seq<(String, Region)>,
)
    ensures
        tags_from(w, tags, region, 0, entries, seen) == tags_from(w, well_formed_tags(tags), region, 0, entries, seen),
    decreases tags.len(),
{
    if tags.len() > 0 {
        let rest = tags.drop_first();
        lemma_malformed_tag(w, tags[0].value);
        lemma_tags_from_shift(w, tags, region, 0, entries, seen);
        if tag_malformed(tags[0].value) {
            lemma_malformed_tags(w, rest, region, entries, seen);
        } else {
            let g = seq![tags[0]] + well_formed_tags(rest);
            assert(g[0] == tags[0]);
            assert(g.drop_first() =~= well_formed_tags(rest));
            match tag_spec(w, tags[0].value) {
                None => {},
                Some((w1, None)) => {
                    lemma_tags_from_shift(w1, tags, region, 0, entries, seen);
                    lemma_tags_from_shift(w1, g, region, 0, entries, seen);
                    lemma_malformed_tags(w1, rest, region, entries, seen);
                },
                Some((w1, Some((name, arg_types)))) => {
                    let tag_region = tags[0].region;
                    let w2 = match assoc_get(seen, name@) {
                        Some(replaced_region) => report(
                            w1,
                            CanProblem::DuplicateTag { tag_name: TagName::Global(name), tag_union_region: region, tag_region, replaced_region },
                        ),
                        None => w1,
                    };
                    let e2 = entries.push((name, arg_types));
                    let s2 = assoc_insert(seen, name, tag_region);
                    lemma_tags_from_shift(w2, tags, region, 0, e2, s2);
                    lemma_tags_from_shift(w2, g, region, 0, e2, s2);
                    lemma_malformed_tags(w2, rest, region, e2, s2);
                },
            }
        }
    }
}

/// Malformed tags are skipped: leaving them out changes nothing of what
/// canonicalizing the tag union does, and nothing is reported for them.
pub proof fn law_malformed_tags_skipped(
    w: World,
    tags: Vec<Located<Tag>>,
    kept: Vec<Located<Tag>>,
    ext: Option<Box<Located<TypeAnnotation>>>,
    region: Region,
)
    requires
        kept@ == well_formed_tags(tags@),
    ensures
        canon(w, TypeAnnotation::TagUnion { tags, ext }, region)
            == canon(w, TypeAnnotation::TagUnion { tags: kept, ext }, region),
{
    lemma_malformed_tags(w, tags@, region, Seq::empty(), Seq::empty());
}


/// Argument `i` of `args` sits in node `first + i` of `w2`: its canonical
/// type, canonicalized in the world `w1` after the arguments before it,
/// with its region.
pub open spec fn arg_written(w1: World, args: Seq<Located<TypeAnnotation>>, first: u32, i: nat, w2: World) -> bool {
    let before = fill_types(w1, args, first, 0, i);
    &&& before is Some
    &&& canon(before->Some_0, args[i as int].value, args[i as int].region) matches Some((_, t))
        && w2.env.nodes[first + i] == (PoolSlot { node: PoolNode::Type(t), region: Some(args[i as int].region) })
}

/// The world after `n` argument nodes are set aside at the end of the pool.
pub open spec fn with_reserved(w: World, n: u32) -> World {
    with_nodes(w, w.env.nodes + reserved_slots(n as nat))
}

pub(crate) proof fn lemma_fill_compose(w: World, args: Seq<Located<TypeAnnotation>>, first: u32, k: nat, i: nat, n: nat)
    requires
        k <= i <= n,
    ensures
        fill_types(w, args, first, k, n) == match fill_types(w, args, first, k, i) {
            Some(wi) => fill_types(wi, args, first, i, n),
            None => None,
        },
    decreases i - k,
{
    if k < i && k < args.len() {
        let id = NodeId((first + k) as u32);
        if let Some(w1) = as_type_id_spec(w, id, args[k as int].value, args[k as int].region) {
            lemma_fill_compose(w1, args, first, k + 1, i, n);
        }
    }
}

pub(crate) proof fn lemma_fill_writes(w1: World, args: Seq<Located<TypeAnnotation>>, first: u32, n: nat)
    requires
        first + n <= u32::MAX,
        first <= w1.env.nodes.len(),
    ensures
        fill_types(w1, args, first, 0, n) matches Some(w2)
            ==> forall|i: nat| i < n && i < args.len() ==> #[trigger] arg_written(w1, args, first, i, w2),
{
    if let Some(w2) = fill_types(w1, args, first, 0, n) {
        assert forall|i: nat| i < n && i < args.len() implies #[trigger] arg_written(w1, args, first, i, w2) by {
            lemma_fill_compose(w1, args, first, 0, i, n);
            lemma_fill_extends(w1, args, first, 0, i, first as nat);
            let wi = fill_types(w1, args, first, 0, i)->Some_0;
            let id = NodeId((first + i) as u32);
            law_as_type_id_writes(wi, id, args[i as int].value, args[i as int].region);
            let wi1 = as_type_id_spec(wi, id, args[i as int].value, args[i as int].region)->Some_0;
            lemma_fill_extends(wi1, args, first, i + 1, n, (first + i + 1) as nat);
        }
    }
}

/// A function type's arguments sit in the nodes set aside for them at the
/// end of the pool, one for each argument, in order: node `first + i` holds
/// the canonical type of argument `i` with its region, and nothing done
/// after it changes that node.
pub proof fn law_function_arguments(
    w: World,
    args: Vec<Located<TypeAnnotation>>,
    ret: Box<Located<TypeAnnotation>>,
    region: Region,
)
    ensures
        canon(w, TypeAnnotation::Function(args, ret), region) matches Some((w2, t)) ==> (t matches Type2::Function(arguments, _, _) && {
            &&& arguments == (PoolVec { first: NodeId(w.env.nodes.len() as u32), len: args@.len() as u32 })
            &&& forall|i: nat| i < arguments.len && i < args@.len()
                ==> #[trigger] arg_written(with_reserved(w, arguments.len), args@, arguments.first.0, i, w2)
        }),
{
    let n = args.len() as u32;
    lemma_reserve(w, n);
    if let Some((w1, arguments)) = reserve(w, n) {
        lemma_fill_writes(w1, args@, arguments.first.0, n as nat);
        lemma_fill_extends(w1, args@, arguments.first.0, 0, n as nat, arguments.first.0 as nat);
        if let Some(w2) = fill_types(w1, args@, arguments.first.0, 0, n as nat) {
            let keep = w2.env.nodes.len();
            law_to_type_id_extends(w2, ret.value, ret.region);
            if let Some((w3, _)) = to_type_id_spec(w2, ret.value, ret.region) {
                lemma_fresh_var(w3);
                if let Some((w4, cv)) = fresh_var(w3) {
                    lemma_add_node(w4, PoolNode::Type(Type2::Variable(cv)));
                    if let Some((w5, _)) = add_node(w4, PoolNode::Type(Type2::Variable(cv))) {
                        lemma_extends_trans(w2, w3, w4, keep, w3.env.nodes.len());
                        lemma_extends_trans(w2, w4, w5, keep, w4.env.nodes.len());
                        assert forall|i: nat| i < n && i < args@.len() implies #[trigger] arg_written(w1, args@, arguments.first.0, i, w5) by {
                            assert(arg_written(w1, args@, arguments.first.0, i, w2));
                            assert(w5.env.nodes[arguments.first.0 + i] == w2.env.nodes[arguments.first.0 + i]);
                        }
                    }
                }
            }
        }
    }
}

/// An applied type's arguments sit in the nodes set aside for them at the
/// end of the pool, one for each argument, in order: node `first + i` holds
/// the canonical type of argument `i` with its region.
pub proof fn law_apply_arguments(
    w: World,
    module_name: String,
    ident: String,
    targs: Vec<Located<TypeAnnotation>>,
    region: Region,
)
    ensures
        canon(w, TypeAnnotation::Apply(module_name, ident, targs), region) matches Some((w2, t)) ==> (t matches Type2::Apply(_, args) ==> {
            &&& args == (PoolVec { first: NodeId(w.env.nodes.len() as u32), len: targs@.len() as u32 })
            &&& forall|i: nat| i < args.len && i < targs@.len()
                ==> #[trigger] arg_written(with_reserved(w, args.len), targs@, args.first.0, i, w2)
        }),
{
    let n = targs@.len() as u32;
    lemma_reserve(w, n);
    if let Some((w1, ids)) = reserve(w, n) {
        lemma_fill_writes(w1, targs@, ids.first.0, n as nat);
        if let Some(w2) = fill_types(w1, targs@, ids.first.0, 0, n as nat) {
            match type_apply(w, module_name, ident, targs@, region) {
                Some((w3, TypeApply::Apply(symbol, args))) => {
                    assert(w3 == w2 && args == ids);
                    let w4 = note_symbol(w3, symbol);
                    assert forall|i: nat| i < n && i < targs@.len() implies #[trigger] arg_written(w1, targs@, ids.first.0, i, w4) by {
                        assert(arg_written(w1, targs@, ids.first.0, i, w2));
                    }
                },
                _ => {},
            }
        }
    }
}

/// The signature of a canonical annotation is a function signature, with
/// the function's argument, closure and return nodes, for a function type,
/// and a value signature holding the canonical type itself for any other
/// type (canonicalization never gives an alias).
pub proof fn law_annotation_signature(w: World, ann: TypeAnnotation, region: Region)
    ensures
        canon(w, ann, region) matches Some((w2, t)) ==> signature_of(w2.env.nodes, t) == (match t {
            Type2::Function(arguments, closure_type_id, return_type_id) => Signature::Function {
                arguments,
                closure_type_id,
                return_type_id,
            },
            _ => Signature::Value { annotation: t },
        }),
{
    law_canon_not_alias(w, ann, region);
}

} // verus!
