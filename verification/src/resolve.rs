//! Laws of name resolution: what looking a name up gives, stated over the
//! positions of the names in the scope and in the modules, and what an
//! applied type constructor canonicalizes to.

use vstd::prelude::*;
use crate::assoc::assoc_get;
use crate::ast::TypeAnnotation;
use crate::canon::{alias_vars, canon, fill_types, report, reserve, type_apply, World};
use crate::laws::{law_canon_extends, lemma_alias_vars, lemma_extends_trans, lemma_fill_extends, lemma_reserve};
use crate::env::{spec_find_module, spec_qualified_lookup, EnvModel, ModuleEntry};
use crate::pool::{NodeId, PoolVec};
use crate::problem::{CanProblem, RuntimeError};
use crate::region::{Located, Region};
use crate::scope::{spec_find_alias, spec_find_ident, spec_introduce, spec_scope_lookup, ScopeIdent, ScopeModel};
use crate::subs::Problem;
use crate::symbol::{spec_get_id, IdentId, Symbol};
use crate::subs::Variable;
use crate::types::{Alias, ReferencesModel, Type2, TypeApply};

verus! {

/// `k` is the first position of a module named `name`.
pub open spec fn first_module_at(modules: Seq<ModuleEntry>, name: Seq<char>, k: int) -> bool {
    &&& 0 <= k < modules.len()
    &&& modules[k].name@ == name
    &&& forall|j: int| 0 <= j < k ==> (#[trigger] modules[j]).name@ != name
}

/// `j` is the last position of the identifier `name`.
pub open spec fn last_id_at(ids: Seq<String>, name: Seq<char>, j: int) -> bool {
    &&& 0 <= j < ids.len()
    &&& ids[j]@ == name
    &&& forall|i: int| j < i < ids.len() ==> (#[trigger] ids[i])@ != name
}

/// `k` is the first position at which `name` is bound in the scope.
pub open spec fn first_ident_at(idents: Seq<ScopeIdent>, name: Seq<char>, k: int) -> bool {
    &&& 0 <= k < idents.len()
    &&& idents[k].name@ == name
    &&& forall|j: int| 0 <= j < k ==> (#[trigger] idents[j]).name@ != name
}

/// `k` is the first position of an alias of `symbol`.
pub open spec fn first_alias_at(aliases: Seq<(Symbol, Alias)>, symbol: Symbol, k: int) -> bool {
    &&& 0 <= k < aliases.len()
    &&& aliases[k].0 == symbol
    &&& forall|j: int| 0 <= j < k ==> (#[trigger] aliases[j]).0 != symbol
}

proof fn lemma_find_module(modules: Seq<ModuleEntry>, name: Seq<char>)
    ensures
        forall|k: int| #[trigger] first_module_at(modules, name, k) ==> spec_find_module(modules, name) == Some(modules[k]),
        (forall|k: int| 0 <= k < modules.len() ==> (#[trigger] modules[k]).name@ != name)
            ==> spec_find_module(modules, name) is None,
    decreases modules.len(),
{
    if modules.len() > 0 {
        let rest = modules.drop_first();
        lemma_find_module(rest, name);
        assert forall|k: int| #[trigger] first_module_at(modules, name, k) implies spec_find_module(modules, name) == Some(modules[k]) by {
            if k > 0 {
                assert(modules[0].name@ != name);
                assert(first_module_at(rest, name, k - 1));
            }
        }
        if forall|k: int| 0 <= k < modules.len() ==> (#[trigger] modules[k]).name@ != name {
            assert(modules[0].name@ != name);
            assert forall|k: int| 0 <= k < rest.len() implies (#[trigger] rest[k]).name@ != name by {
                assert(rest[k] == modules[k + 1]);
            }
        }
    }
}

proof fn lemma_get_id(ids: Seq<String>, name: Seq<char>)
    ensures
        forall|j: int| #[trigger] last_id_at(ids, name, j) ==> spec_get_id(ids, name) == Some(IdentId(j as u32)),
        (forall|j: int| 0 <= j < ids.len() ==> (#[trigger] ids[j])@ != name) ==> spec_get_id(ids, name) is None,
    decreases ids.len(),
{
    if ids.len() > 0 {
        let rest = ids.drop_last();
        lemma_get_id(rest, name);
        assert forall|j: int| #[trigger] last_id_at(ids, name, j) implies spec_get_id(ids, name) == Some(IdentId(j as u32)) by {
            if j < ids.len() - 1 {
                assert(ids[ids.len() - 1]@ != name);
                assert(last_id_at(rest, name, j));
            }
        }
        if forall|j: int| 0 <= j < ids.len() ==> (#[trigger] ids[j])@ != name {
            assert(ids[ids.len() - 1]@ != name);
        }
    }
}

proof fn lemma_find_ident(idents: Seq<ScopeIdent>, name: Seq<char>)
    ensures
        forall|k: int| #[trigger] first_ident_at(idents, name, k) ==> spec_find_ident(idents, name) == Some(idents[k]),
        (forall|k: int| 0 <= k < idents.len() ==> (#[trigger] idents[k]).name@ != name)
            ==> spec_find_ident(idents, name) is None,
    decreases idents.len(),
{
    if idents.len() > 0 {
        let rest = idents.drop_first();
        lemma_find_ident(rest, name);
        assert forall|k: int| #[trigger] first_ident_at(idents, name, k) implies spec_find_ident(idents, name) == Some(idents[k]) by {
            if k > 0 {
                assert(idents[0].name@ != name);
                assert(first_ident_at(rest, name, k - 1));
            }
        }
        if forall|k: int| 0 <= k < idents.len() ==> (#[trigger] idents[k]).name@ != name {
            assert(idents[0].name@ != name);
            assert forall|k: int| 0 <= k < rest.len() implies (#[trigger] rest[k]).name@ != name by {
                assert(rest[k] == idents[k + 1]);
            }
        }
    }
}

proof fn lemma_find_alias(aliases: Seq<(Symbol, Alias)>, symbol: Symbol)
    ensures
        forall|k: int| #[trigger] first_alias_at(aliases, symbol, k) ==> spec_find_alias(aliases, symbol) == Some(aliases[k].1),
        (forall|k: int| 0 <= k < aliases.len() ==> (#[trigger] aliases[k]).0 != symbol)
            ==> spec_find_alias(aliases, symbol) is None,
    decreases aliases.len(),
{
    if aliases.len() > 0 {
        let rest = aliases.drop_first();
        lemma_find_alias(rest, symbol);
        assert forall|k: int| #[trigger] first_alias_at(aliases, symbol, k) implies spec_find_alias(aliases, symbol) == Some(aliases[k].1) by {
            if k > 0 {
                assert(aliases[0].0 != symbol);
                assert(first_alias_at(rest, symbol, k - 1));
            }
        }
        if forall|k: int| 0 <= k < aliases.len() ==> (#[trigger] aliases[k]).0 != symbol {
            assert(aliases[0].0 != symbol);
            assert forall|k: int| 0 <= k < rest.len() implies (#[trigger] rest[k]).0 != symbol by {
                assert(rest[k] == aliases[k + 1]);
            }
        }
    }
}

/// A qualified name `module_name.ident` is looked up in the first module of
/// that name: in the home module among all its identifiers, in any other
/// module among those it exposes only. It resolves to that module and the
/// last position of `ident` there; where `ident` is not there, the home
/// module gives "not in scope" and any other module "not exposed"; where no
/// module has that name, it is not imported.
pub proof fn law_qualified_lookup(env: EnvModel, module_name: String, ident: String, region: Region)
    ensures
        (forall|k: int| 0 <= k < env.modules.len() ==> (#[trigger] env.modules[k]).name@ != module_name@)
            ==> spec_qualified_lookup(env, module_name, ident, region)
                == Err::<Symbol, RuntimeError>(RuntimeError::ModuleNotImported { module_name, region }),
        forall|k: int, j: int|
            #[trigger] first_module_at(env.modules, module_name@, k) && env.modules[k].id == env.home
                && #[trigger] last_id_at(env.ident_ids, ident@, j)
                ==> spec_qualified_lookup(env, module_name, ident, region)
                == Ok::<Symbol, RuntimeError>(Symbol { module_id: env.modules[k].id, ident_id: IdentId(j as u32) }),
        forall|k: int, j: int|
            #[trigger] first_module_at(env.modules, module_name@, k) && env.modules[k].id != env.home
                && #[trigger] last_id_at(env.modules[k].exposed@, ident@, j)
                ==> spec_qualified_lookup(env, module_name, ident, region)
                == Ok::<Symbol, RuntimeError>(Symbol { module_id: env.modules[k].id, ident_id: IdentId(j as u32) }),
        forall|k: int|
            #[trigger] first_module_at(env.modules, module_name@, k) && env.modules[k].id == env.home
                && (forall|j: int| 0 <= j < env.ident_ids.len() ==> (#[trigger] env.ident_ids[j])@ != ident@)
                ==> spec_qualified_lookup(env, module_name, ident, region)
                == Err::<Symbol, RuntimeError>(RuntimeError::LookupNotInScope(Located { region, value: ident })),
        forall|k: int|
            #[trigger] first_module_at(env.modules, module_name@, k) && env.modules[k].id != env.home
                && (forall|j: int| 0 <= j < env.modules[k].exposed@.len() ==> (#[trigger] env.modules[k].exposed@[j])@ != ident@)
                ==> spec_qualified_lookup(env, module_name, ident, region)
                == Err::<Symbol, RuntimeError>(RuntimeError::ValueNotExposed { module_name, ident, region }),
{
    lemma_find_module(env.modules, module_name@);
    lemma_get_id(env.ident_ids, ident@);
    assert forall|k: int| #[trigger] first_module_at(env.modules, module_name@, k) implies {
        let ids = env.modules[k].exposed@;
        &&& forall|j: int| #[trigger] last_id_at(ids, ident@, j) ==> spec_get_id(ids, ident@) == Some(IdentId(j as u32))
        &&& (forall|j: int| 0 <= j < ids.len() ==> (#[trigger] ids[j])@ != ident@) ==> spec_get_id(ids, ident@) is None
    } by {
        lemma_get_id(env.modules[k].exposed@, ident@);
    }
}

/// An unqualified name resolves to the symbol of its first binding in the
/// scope, and is not in scope where nothing binds it.
pub proof fn law_scope_lookup(scope: ScopeModel, ident: String, region: Region)
    ensures
        forall|k: int| #[trigger] first_ident_at(scope.idents, ident@, k)
            ==> spec_scope_lookup(scope, ident, region) == Ok::<Symbol, RuntimeError>(scope.idents[k].symbol),
        (forall|k: int| 0 <= k < scope.idents.len() ==> (#[trigger] scope.idents[k]).name@ != ident@)
            ==> spec_scope_lookup(scope, ident, region)
                == Err::<Symbol, RuntimeError>(RuntimeError::LookupNotInScope(Located { region, value: ident })),
{
    lemma_find_ident(scope.idents, ident@);
}

/// The id of an identifier is the last position at which it was added, and
/// an identifier never added has none.
pub proof fn law_ident_id(ids: Seq<String>, name: Seq<char>)
    ensures
        forall|j: int| #[trigger] last_id_at(ids, name, j) ==> spec_get_id(ids, name) == Some(IdentId(j as u32)),
        (forall|j: int| 0 <= j < ids.len() ==> (#[trigger] ids[j])@ != name) ==> spec_get_id(ids, name) is None,
{
    lemma_get_id(ids, name);
}

/// The alias that counts for a symbol is the first one recorded for it.
pub proof fn law_find_alias(aliases: Seq<(Symbol, Alias)>, symbol: Symbol)
    ensures
        forall|k: int| #[trigger] first_alias_at(aliases, symbol, k) ==> spec_find_alias(aliases, symbol) == Some(aliases[k].1),
        (forall|k: int| 0 <= k < aliases.len() ==> (#[trigger] aliases[k]).0 != symbol)
            ==> spec_find_alias(aliases, symbol) is None,
{
    lemma_find_alias(aliases, symbol);
}

} // verus!

verus! {

/// An applied type constructor `module_name.ident targs` resolves by looking
/// its name up (in the scope when unqualified, among the modules otherwise):
/// a name that is not found gives an unrecognized-name type, and the lookup
/// problem is reported and nothing else changes; a found name without an
/// alias gives the type applied to the argument nodes set aside at the end
/// of the pool, and its symbol is recorded; a found name whose first alias
/// takes another number of arguments gives a bad-type-arguments type, and one
/// whose alias takes as many is not canonicalized.
pub proof fn law_apply_resolution(
    w: World,
    module_name: String,
    ident: String,
    targs: Vec<Located<TypeAnnotation>>,
    region: Region,
)
    ensures
        canon(w, TypeAnnotation::Apply(module_name, ident, targs), region) matches Some((w2, t)) ==> match (
        if module_name@.len() == 0 {
            spec_scope_lookup(w.scope, ident, region)
        } else {
            spec_qualified_lookup(w.env, module_name, ident, region)
        }) {
            Err(p) => {
                &&& t == Type2::Erroneous(Problem::UnrecognizedIdent(ident))
                &&& w2.env == (EnvModel { problems: w.env.problems.push(CanProblem::RuntimeError(p)), ..w.env })
                &&& w2.scope == w.scope
                &&& w2.refs == w.refs
            },
            Ok(symbol) => {
                &&& (forall|k: int| 0 <= k < w.scope.aliases.len() ==> (#[trigger] w.scope.aliases[k]).0 != symbol) ==> {
                    &&& t == Type2::Apply(symbol, PoolVec { first: NodeId(w.env.nodes.len() as u32), len: targs@.len() as u32 })
                    &&& w2.refs.symbols.contains(symbol)
                }
                &&& forall|k: int| #[trigger] first_alias_at(w.scope.aliases, symbol, k) ==> {
                    &&& w.scope.aliases[k].1.targs.len != targs@.len()
                    &&& t == Type2::Erroneous(Problem::BadTypeArguments {
                        symbol,
                        region,
                        alias_needs: w.scope.aliases[k].1.targs.len as u8,
                        type_got: targs@.len() as u8,
                    })
                }
            },
        },
{
    let k = w.env.nodes.len();
    let n = targs@.len() as u32;
    lemma_reserve(w, n);
    if let Some((w1, ids)) = reserve(w, n) {
        lemma_fill_extends(w1, targs@, ids.first.0, 0, n as nat, k);
        if let Some(w2) = fill_types(w1, targs@, ids.first.0, 0, n as nat) {
            lemma_extends_trans(w, w1, w2, k, k);
            assert(w2.scope.aliases == w.scope.aliases);
        }
    }
    let lookup = if module_name@.len() == 0 {
        spec_scope_lookup(w.scope, ident, region)
    } else {
        spec_qualified_lookup(w.env, module_name, ident, region)
    };
    match lookup {
        Ok(symbol) => {
            lemma_find_alias(w.scope.aliases, symbol);
            if let Some((w3, _)) = type_apply(w, module_name, ident, targs@, region) {
                let sy = w3.refs.symbols;
                if !sy.contains(symbol) {
                    assert(sy.push(symbol)[sy.len() as int] == symbol);
                }
            }
        },
        Err(p) => {
            assert(type_apply(w, module_name, ident, targs@, region) == Some((
                report(w, CanProblem::RuntimeError(p)),
                TypeApply::Erroneous(Problem::UnrecognizedIdent(ident)),
            )));
        },
    }
}

} // verus!

verus! {

/// An `as` annotation names an alias. Where what follows `as` is not an
/// unqualified applied name, nothing changes and the type is a
/// canonicalization problem.
pub proof fn law_as_not_alias(w: World, inner: Box<Located<TypeAnnotation>>, as_part: Box<Located<TypeAnnotation>>, region: Region)
    requires
        !(as_part.value is Apply) || as_part.value->Apply_0@.len() != 0,
    ensures
        canon(w, TypeAnnotation::As(inner, as_part), region) == Some((w, Type2::Erroneous(Problem::CanonicalizationProblem))),
{
}

/// Where what follows `as` is an unqualified applied name that is bound in
/// the scope already, the shadowing is reported, nothing else changes, and
/// the type says which binding was shadowed. Where the name is not bound, it
/// comes to be bound in the scope, at `region`, and the type, where there is
/// one, is a canonicalization problem.
pub proof fn law_as_alias(w: World, inner: Box<Located<TypeAnnotation>>, as_part: Box<Located<TypeAnnotation>>, region: Region)
    requires
        as_part.value is Apply,
        as_part.value->Apply_0@.len() == 0,
    ensures
        forall|k: int| #[trigger] first_ident_at(w.scope.idents, as_part.value->Apply_1@, k)
            ==> canon(w, TypeAnnotation::As(inner, as_part), region) == Some((
                World {
                    env: EnvModel {
                        problems: w.env.problems.push(CanProblem::ShadowingInAnnotation {
                            original_region: w.scope.idents[k].region,
                            shadow: Located { region, value: as_part.value->Apply_1 },
                        }),
                        ..w.env
                    },
                    ..w
                },
                Type2::Erroneous(Problem::Shadowed(w.scope.idents[k].region, Located { region, value: as_part.value->Apply_1 })),
            )),
        (forall|k: int| 0 <= k < w.scope.idents.len() ==> (#[trigger] w.scope.idents[k]).name@ != as_part.value->Apply_1@)
            ==> (canon(w, TypeAnnotation::As(inner, as_part), region) matches Some((w2, t)) ==> {
                &&& t == Type2::Erroneous(Problem::CanonicalizationProblem)
                &&& w2.scope.idents.len() > w.scope.idents.len()
                &&& w2.scope.idents[w.scope.idents.len() as int].name == as_part.value->Apply_1
                &&& w2.scope.idents[w.scope.idents.len() as int].region == region
            }),
{
    if let TypeAnnotation::Apply(module_name, ident, loc_vars) = as_part.value {
        if module_name@.len() == 0 {
            lemma_find_ident(w.scope.idents, ident@);
            if let Some((scope1, ids1, introduced)) = spec_introduce(w.scope, w.env.exposed_ident_ids, w.env.ident_ids, ident, region) {
                let w1 = World { scope: scope1, env: EnvModel { ident_ids: ids1, ..w.env }, ..w };
                if let Ok(_symbol) = introduced {
                    law_canon_extends(w1, inner.value, region);
                    if let Some((w2, _)) = canon(w1, inner.value, region) {
                        let n = loc_vars.len() as u32;
                        lemma_reserve(w2, n);
                        if let Some((w3, vars)) = reserve(w2, n) {
                            lemma_reserve(w3, n);
                            if let Some((w4, lv)) = reserve(w3, n) {
                                lemma_extends_trans(w1, w2, w3, w1.env.nodes.len(), w2.env.nodes.len());
                                lemma_extends_trans(w1, w3, w4, w1.env.nodes.len(), w3.env.nodes.len());
                                lemma_alias_vars(w4, loc_vars@, lv.first.0, vars.first.0, 0, n as nat, w1.env.nodes.len());
                                if let Some((w5, _)) = alias_vars(w4, loc_vars@, lv.first.0, vars.first.0, 0, n as nat) {
                                    lemma_extends_trans(w1, w4, w5, w1.env.nodes.len(), w1.env.nodes.len());
                                    assert(w5.scope.idents[w.scope.idents.len() as int] == w1.scope.idents[w.scope.idents.len() as int]);
                                }
                            }
                        }
                    }
                }
            }
        }
    }
}

} // verus!

verus! {

/// Introducing a name into the scope. A name bound there already is not
/// introduced: the result names the binding it would shadow, and nothing
/// changes. Otherwise the name is bound at the end of the scope, at
/// `region`, to a symbol of the scope's module: the last position of the
/// name among the exposed identifiers where it is there, and else a new
/// identifier added at the end of all the module's identifiers.
pub proof fn law_introduce(scope: ScopeModel, exposed: Seq<String>, all: Seq<String>, ident: String, region: Region)
    ensures
        forall|k: int| #[trigger] first_ident_at(scope.idents, ident@, k)
            ==> spec_introduce(scope, exposed, all, ident, region) == Some((
                scope,
                all,
                Err::<Symbol, (Region, Located<String>)>((scope.idents[k].region, Located { region, value: ident })),
            )),
        (forall|k: int| 0 <= k < scope.idents.len() ==> (#[trigger] scope.idents[k]).name@ != ident@) ==> {
            &&& forall|j: int| #[trigger] last_id_at(exposed, ident@, j) ==> {
                let symbol = Symbol { module_id: scope.home, ident_id: IdentId(j as u32) };
                spec_introduce(scope, exposed, all, ident, region) == Some((
                    ScopeModel { idents: scope.idents.push(ScopeIdent { name: ident, symbol, region }), ..scope },
                    all,
                    Ok::<Symbol, (Region, Located<String>)>(symbol),
                ))
            }
            &&& (forall|j: int| 0 <= j < exposed.len() ==> (#[trigger] exposed[j])@ != ident@) && all.len() < u32::MAX ==> {
                let symbol = Symbol { module_id: scope.home, ident_id: IdentId(all.len() as u32) };
                spec_introduce(scope, exposed, all, ident, region) == Some((
                    ScopeModel { idents: scope.idents.push(ScopeIdent { name: ident, symbol, region }), ..scope },
                    all.push(ident),
                    Ok::<Symbol, (Region, Located<String>)>(symbol),
                ))
            }
        },
{
    lemma_find_ident(scope.idents, ident@);
    lemma_get_id(exposed, ident@);
}

/// A type variable stands for a rigid: the variable its name is bound to,
/// with nothing changed, where the name is bound; else the store's next
/// variable, to which the name is then bound, at the end of the named
/// rigids, with nothing else changed.
pub proof fn law_bound_variable(w: World, name: String, region: Region)
    ensures
        assoc_get(w.refs.named, name@) matches Some(v)
            ==> canon(w, TypeAnnotation::BoundVariable(name), region) == Some((w, Type2::Variable(v))),
        assoc_get(w.refs.named, name@) is None && w.env.next_var < u32::MAX
            ==> canon(w, TypeAnnotation::BoundVariable(name), region) == Some((
                World {
                    env: EnvModel { next_var: (w.env.next_var + 1) as u32, ..w.env },
                    refs: ReferencesModel { named: w.refs.named.push((name, Variable(w.env.next_var))), ..w.refs },
                    ..w
                },
                Type2::Variable(Variable(w.env.next_var)),
            )),
{
}

/// A malformed annotation stands for a wildcard.
pub proof fn law_malformed_annotation(w: World, text: String, region: Region)
    ensures
        canon(w, TypeAnnotation::Malformed(text), region) == canon(w, TypeAnnotation::Wildcard, region),
{
}

} // verus!
