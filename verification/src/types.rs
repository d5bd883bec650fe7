use vstd::prelude::*;
use crate::assoc::{assoc_find, assoc_get, distinct_names, no_dups, set_insert};
use crate::ast::{AssignedField, Tag, TypeAnnotation};
use crate::canon::{
    add_node, add_type, alias_vars, annotation_holds, as_type_id_spec, assigned_field, canon,
    dealias_signature, dealias_terminates, dealias_within, fields_from, fill_types,
    law_canon_not_alias, reserve, rigid, signature_of, tag_args, tag_spec, tags_from,
    to_type_id_spec, type_apply, wildcard, with_nodes, world, write_fields, write_node, write_tags,
    World,
};
use crate::env::Env;
use crate::laws::{law_as_type_id_extends, law_canon_extends, law_to_type_id_extends};
use crate::pool::{reserved_slots, NodeId, PoolNode, PoolStr, PoolVec, TypeId};
use crate::problem::CanProblem;
use crate::region::{Located, Region};
use crate::scope::Scope;
use crate::subs::{Problem, RecordField, Variable};
use crate::symbol::{Symbol, TagName};

verus! {

/// A canonical type whose parts are stored in a pool.
#[derive(Debug, PartialEq, Eq)]
pub enum Type2 {
    Variable(Variable),
    /// An alias applied to named arguments, and what it stands for.
    Alias(Symbol, PoolVec, TypeId),
    /// An alias introduced with `as`, its named arguments, and what it stands for.
    AsAlias(Symbol, PoolVec, TypeId),
    HostExposedAlias { name: Symbol, arguments: PoolVec, actual_var: Variable, actual: TypeId },
    EmptyTagUnion,
    /// The tags (nodes holding a name and argument types) and the extension.
    TagUnion(PoolVec, TypeId),
    RecursiveTagUnion(Variable, PoolVec, TypeId),
    EmptyRec,
    /// The fields (nodes holding a label and a field) and the extension.
    Record(PoolVec, TypeId),
    /// The argument types, the closure type and the return type.
    Function(PoolVec, TypeId, TypeId),
    /// A type constructor applied to the argument types.
    Apply(Symbol, PoolVec),
    Erroneous(Problem),
}

/// A type alias: its parameters (nodes holding a name and a variable), the
/// type it stands for, and the variables of that type that are not parameters.
#[derive(Clone, Copy, Debug, PartialEq, Eq, Structural)]
pub struct Alias {
    pub targs: PoolVec,
    pub actual: TypeId,
    pub hidden_variables: PoolVec,
}

/// The outcome of resolving an applied type constructor.
#[derive(Debug, PartialEq, Eq)]
pub enum TypeApply {
    /// A type constructor applied to the argument types.
    Apply(Symbol, PoolVec),
    /// An alias applied to named arguments, and what it stands for.
    Alias(Symbol, PoolVec, TypeId),
    Erroneous(Problem),
}

/// A temporary data structure to return a bunch of values to Def construction
#[derive(Debug, PartialEq, Eq)]
pub enum Signature {
    FunctionWithAliases {
        annotation: Type2,
        arguments: PoolVec,
        closure_type_id: TypeId,
        return_type_id: TypeId,
    },
    Function { arguments: PoolVec, closure_type_id: TypeId, return_type_id: TypeId },
    Value { annotation: Type2 },
}

/// A canonicalized annotation: the rigid variables it names, the wildcards
/// it contains, the type symbols it mentions, and its signature.
#[derive(Debug, PartialEq, Eq)]
pub enum Annotation2 {
    Annotation {
        named_rigids: Vec<(String, Variable)>,
        unnamed_rigids: Vec<Variable>,
        symbols: Vec<Symbol>,
        signature: Signature,
    },
    Erroneous(Problem),
}

/// What canonicalization has met so far: the named rigid variables and the
/// variable each stands for, the variables of wildcards, hidden variables,
/// and the symbols of applied types.
pub struct References {
    named: Vec<(String, Variable)>,
    unnamed: Vec<Variable>,
    hidden: Vec<Variable>,
    symbols: Vec<Symbol>,
}

/// The contents of `References`.
pub struct ReferencesModel {
    pub named: Seq<(String, Variable)>,
    pub unnamed: Seq<Variable>,
    pub hidden: Seq<Variable>,
    pub symbols: Seq<Symbol>,
}

impl View for References {
    type V = ReferencesModel;

    closed spec fn view(&self) -> ReferencesModel {
        ReferencesModel {
            named: self.named@,
            unnamed: self.unnamed@,
            hidden: self.hidden@,
            symbols: self.symbols@,
        }
    }
}

/// No rigid name is bound twice, and no wildcard variable or symbol is
/// recorded twice.
pub open spec fn references_well_formed(m: ReferencesModel) -> bool {
    &&& distinct_names(m.named)
    &&& no_dups(m.unnamed)
    &&& no_dups(m.symbols)
}

/// References that hold nothing.
pub open spec fn empty_references() -> ReferencesModel {
    ReferencesModel {
        named: Seq::empty(),
        unnamed: Seq::empty(),
        hidden: Seq::empty(),
        symbols: Seq::empty(),
    }
}

impl Default for References {
    fn default() -> (r: References)
        ensures
            r@ == empty_references(),
            references_well_formed(r@),
    {
        References { named: Vec::new(), unnamed: Vec::new(), hidden: Vec::new(), symbols: Vec::new() }
    }
}

impl References {
    /// The variable of the named rigid `name`.
    pub fn get_named(&self, name: &String) -> (r: Option<Variable>)
        ensures
            r == assoc_get(self@.named, name@),
    {
        match assoc_find(&self.named, name) {
            Some(i) => Some(self.named[i].1),
            None => None,
        }
    }

    /// Binds the named rigid `name`, which is not bound yet, to `var`.
    pub fn bind_named(&mut self, name: String, var: Variable)
        requires
            assoc_get(old(self)@.named, name@) is None,
        ensures
            final(self)@ == (ReferencesModel { named: old(self)@.named.push((name, var)), ..old(self)@ }),
    {
        self.named.push((name, var));
    }

    /// Records the variable of a wildcard.
    pub fn insert_unnamed(&mut self, var: Variable)
        ensures
            final(self)@ == (ReferencesModel { unnamed: set_insert(old(self)@.unnamed, var), ..old(self)@ }),
    {
        let mut i: usize = 0;
        while i < self.unnamed.len()
            invariant
                i <= self.unnamed@.len(),
                forall|j: int| 0 <= j < i ==> self.unnamed@[j] != var,
            decreases self.unnamed@.len() - i,
        {
            if self.unnamed[i] == var {
                assert(self.unnamed@.contains(var));
                return;
            }
            i = i + 1;
        }
        self.unnamed.push(var);
    }

    /// Records the symbol of an applied type.
    pub fn insert_symbol(&mut self, symbol: Symbol)
        ensures
            final(self)@ == (ReferencesModel { symbols: set_insert(old(self)@.symbols, symbol), ..old(self)@ }),
    {
        let mut i: usize = 0;
        while i < self.symbols.len()
            invariant
                i <= self.symbols@.len(),
                forall|j: int| 0 <= j < i ==> self.symbols@[j] != symbol,
            decreases self.symbols@.len() - i,
        {
            if self.symbols[i] == symbol {
                assert(self.symbols@.contains(symbol));
                return;
            }
            i = i + 1;
        }
        self.symbols.push(symbol);
    }

    /// Takes the contents apart: named rigids, wildcard variables, symbols.
    pub fn into_parts(self) -> (r: (Vec<(String, Variable)>, Vec<Variable>, Vec<Symbol>))
        ensures
            r.0@ == self@.named,
            r.1@ == self@.unnamed,
            r.2@ == self@.symbols,
    {
        (self.named, self.unnamed, self.symbols)
    }
}

/// Turns a type annotation into an `Annotation2`: the annotation is
/// canonicalized with fresh references, and its signature is a function
/// signature when it is a function type, and a value signature otherwise;
/// an alias is first followed to what it stands for. `None` exactly where
/// canonicalization cannot complete.
pub fn try_to_annotation2(env: &mut Env, scope: &mut Scope, annotation: &TypeAnnotation, region: Region) -> (r: Option<Annotation2>)
    ensures
        match r {
            Some(a) => canon(World { env: old(env)@, scope: old(scope)@, refs: empty_references() }, *annotation, region)
                matches Some((w, t)) && {
                &&& final(env)@ == w.env
                &&& final(scope)@ == w.scope
                &&& annotation_holds(a, w.refs, signature_of(w.env.nodes, t))
            },
            None => canon(World { env: old(env)@, scope: old(scope)@, refs: empty_references() }, *annotation, region) is None,
        },
        r matches Some(Annotation2::Annotation { named_rigids, unnamed_rigids, symbols, .. }) ==> {
            &&& distinct_names(named_rigids@)
            &&& no_dups(unnamed_rigids@)
            &&& no_dups(symbols@)
        },
        r matches Some(Annotation2::Annotation { signature, .. }) ==> canon(
            World { env: old(env)@, scope: old(scope)@, refs: empty_references() },
            *annotation,
            region,
        ) matches Some((_, t)) && signature == (match t {
            Type2::Function(arguments, closure_type_id, return_type_id) => Signature::Function {
                arguments,
                closure_type_id,
                return_type_id,
            },
            _ => Signature::Value { annotation: t },
        }),
{
    let ghost parsed = *annotation;
    let mut references = References::default();
    let annotation = try_to_type2(env, scope, &mut references, annotation, region)?;
    // we dealias until we hit a non-alias, then we either hit a function type (and produce a
    // function annotation) or anything else (and produce a value annotation)
    match annotation {
        Type2::Function(arguments, closure_type_id, return_type_id) => {
            let (named, unnamed, symbols) = references.into_parts();
            let signature = Signature::Function { arguments, closure_type_id, return_type_id };
            Some(Annotation2::Annotation { named_rigids: named, unnamed_rigids: unnamed, symbols, signature })
        },
        Type2::Alias(_, _, _) => {
            // most of the time, the annotation is not an alias; canonicalization in fact
            // never gives one, so this arm is not taken
            proof {
                law_canon_not_alias(World { env: old(env)@, scope: old(scope)@, refs: empty_references() }, parsed, region);
            }
            Some(shallow_dealias(env, references, annotation))
        },
        _ => {
            let (named, unnamed, symbols) = references.into_parts();
            let signature = Signature::Value { annotation };
            Some(Annotation2::Annotation { named_rigids: named, unnamed_rigids: unnamed, symbols, signature })
        },
    }
}

/// Turns a type annotation into an `Annotation2`: the annotation is
/// canonicalized with fresh references, and its signature is a function
/// signature when it is a function type, and a value signature otherwise;
/// an alias is first followed to what it stands for.
pub fn to_annotation2(env: &mut Env, scope: &mut Scope, annotation: &TypeAnnotation, region: Region) -> (r: Annotation2)
    requires
        canon(World { env: old(env)@, scope: old(scope)@, refs: empty_references() }, *annotation, region) is Some,
    ensures
        canon(World { env: old(env)@, scope: old(scope)@, refs: empty_references() }, *annotation, region)
            matches Some((w, t)) && {
            &&& final(env)@ == w.env
            &&& final(scope)@ == w.scope
            &&& annotation_holds(r, w.refs, signature_of(w.env.nodes, t))
        },
        r matches Annotation2::Annotation { named_rigids, unnamed_rigids, symbols, .. } ==> {
            &&& distinct_names(named_rigids@)
            &&& no_dups(unnamed_rigids@)
            &&& no_dups(symbols@)
        },
        r matches Annotation2::Annotation { signature, .. } ==> canon(
            World { env: old(env)@, scope: old(scope)@, refs: empty_references() },
            *annotation,
            region,
        ) matches Some((_, t)) && signature == (match t {
            Type2::Function(arguments, closure_type_id, return_type_id) => Signature::Function {
                arguments,
                closure_type_id,
                return_type_id,
            },
            _ => Signature::Value { annotation: t },
        }),
{
    match try_to_annotation2(env, scope, annotation, region) {
        Some(a) => a,
        None => {
            assert(false);
            Annotation2::Erroneous(Problem::CanonicalizationProblem)
        },
    }
}

/// Follows the alias `annotation` to the first type that is not an alias: a
/// function type gives a function signature that keeps the alias, anything
/// else a value signature.
fn shallow_dealias(env: &Env, references: References, annotation: Type2) -> (r: Annotation2)
    requires
        dealias_terminates(env@.nodes, annotation),
    ensures
        annotation_holds(r, references@, dealias_signature(env@.nodes, annotation)),
{
    let ghost refs = references@;
    let (named, unnamed, symbols) = references.into_parts();
    let ghost nodes = env@.nodes;
    let ghost fuel = choose|fuel: nat| #[trigger] dealias_within(nodes, annotation, fuel) is Some;
    let ghost mut left = fuel;
    let mut inner = &annotation;
    loop
        invariant
            nodes == env@.nodes,
            refs == references@,
            named@ == refs.named,
            unnamed@ == refs.unnamed,
            symbols@ == refs.symbols,
            fuel == choose|fuel: nat| #[trigger] dealias_within(nodes, annotation, fuel) is Some,
            dealias_within(nodes, annotation, fuel) is Some,
            dealias_within(nodes, *inner, left) == dealias_within(nodes, annotation, fuel),
        decreases left,
    {
        match inner {
            Type2::Alias(_, _, actual) => {
                match env.pool.get(*actual) {
                    PoolNode::Type(next) => {
                        inner = next;
                    },
                    _ => {
                        // the requirement rules out an alias whose target holds no type
                        assert(false);
                    },
                }
                proof {
                    left = (left - 1) as nat;
                }
            },
            Type2::Function(arguments, closure_type_id, return_type_id) => {
                let signature = Signature::FunctionWithAliases {
                    arguments: *arguments,
                    closure_type_id: *closure_type_id,
                    return_type_id: *return_type_id,
                    annotation,
                };
                return Annotation2::Annotation {
                    named_rigids: named,
                    unnamed_rigids: unnamed,
                    symbols,
                    signature,
                };
            },
            _ => {
                let signature = Signature::Value { annotation };
                return Annotation2::Annotation {
                    named_rigids: named,
                    unnamed_rigids: unnamed,
                    symbols,
                    signature,
                };
            },
        }
    }
}

/// The variable of the rigid `name`: the one it is bound to, or a fresh one
/// that it is then bound to; `None` where the store is exhausted.
fn rigid_variable(env: &mut Env, scope: &Scope, references: &mut References, name: &String) -> (r: Option<Variable>)
    ensures
        match r {
            Some(v) => rigid(world(*old(env), *scope, *old(references)), *name)
                == Some((world(*final(env), *scope, *final(references)), v)),
            None => rigid(world(*old(env), *scope, *old(references)), *name) is None,
        },
{
    match references.get_named(name) {
        Some(var) => Some(var),
        None => {
            if env.var_store.next == u32::MAX {
                return None;
            }
            let var = env.var_store.fresh();
            references.bind_named(name.clone(), var);
            Some(var)
        },
    }
}

/// A fresh variable for a wildcard, recorded among the unnamed rigids;
/// `None` where the store is exhausted.
fn wildcard_variable(env: &mut Env, scope: &Scope, references: &mut References) -> (r: Option<Type2>)
    ensures
        match r {
            Some(t) => wildcard(world(*old(env), *scope, *old(references)))
                == Some((world(*final(env), *scope, *final(references)), t)),
            None => wildcard(world(*old(env), *scope, *old(references))) is None,
        },
{
    if env.var_store.next == u32::MAX {
        return None;
    }
    let var = env.var_store.fresh();
    references.insert_unnamed(var);
    Some(Type2::Variable(var))
}

/// Sets aside `n` nodes at the end of the pool; `None` where they do not fit.
fn reserve_nodes(env: &mut Env, scope: &Scope, references: &References, n: u32) -> (r: Option<PoolVec>)
    ensures
        match r {
            Some(pv) => reserve(world(*old(env), *scope, *references), n)
                == Some((world(*final(env), *scope, *references), pv)),
            None => reserve(world(*old(env), *scope, *references), n) is None,
        },
{
    let len = env.pool.len();
    if len > u32::MAX as usize || (n as usize) > (u32::MAX as usize) - len {
        return None;
    }
    let pv = PoolVec::with_capacity(n, &mut env.pool);
    assert(world(*env, *scope, *references) == with_nodes(
        world(*old(env), *scope, *references),
        old(env)@.nodes + reserved_slots(n as nat),
    ));
    Some(pv)
}

/// Adds a node at the end of the pool; `None` where the pool is full.
fn add_pool_node(env: &mut Env, scope: &Scope, references: &References, node: PoolNode) -> (r: Option<NodeId>)
    ensures
        match r {
            Some(id) => add_node(world(*old(env), *scope, *references), node)
                == Some((world(*final(env), *scope, *references), id)),
            None => add_node(world(*old(env), *scope, *references), node) is None,
        },
{
    if env.pool.len() >= u32::MAX as usize {
        return None;
    }
    Some(env.pool.add(node))
}

/// Adds a type at the end of the pool with `region`; `None` where the pool is full.
fn add_pool_type(env: &mut Env, scope: &Scope, references: &References, t: Type2, region: Region) -> (r: Option<TypeId>)
    ensures
        match r {
            Some(id) => add_type(world(*old(env), *scope, *references), t, region)
                == Some((world(*final(env), *scope, *references), id)),
            None => add_type(world(*old(env), *scope, *references), t, region) is None,
        },
{
    if env.pool.len() >= u32::MAX as usize {
        return None;
    }
    Some(env.add(t, region))
}

/// Overwrites node `id`; `None` where there is no such node.
fn write_pool_node(env: &mut Env, scope: &Scope, references: &References, id: NodeId, node: PoolNode) -> (r: Option<()>)
    ensures
        match r {
            Some(_) => write_node(world(*old(env), *scope, *references), id, node)
                == Some(world(*final(env), *scope, *references)),
            None => write_node(world(*old(env), *scope, *references), id, node) is None,
        },
{
    if (id.0 as usize) >= env.pool.len() {
        return None;
    }
    env.pool.set(id, node);
    Some(())
}

/// Canonicalizes `args` into the `n` nodes from `first` on, as far as both
/// last; `None` where canonicalization cannot complete.
fn canonicalize_args(
    env: &mut Env,
    scope: &mut Scope,
    references: &mut References,
    args: &Vec<Located<TypeAnnotation>>,
    first: u32,
    n: u32,
) -> (r: Option<()>)
    requires
        first + n <= u32::MAX,
    ensures
        match r {
            Some(_) => fill_types(world(*old(env), *old(scope), *old(references)), args@, first, 0, n as nat)
                == Some(world(*final(env), *final(scope), *final(references))),
            None => fill_types(world(*old(env), *old(scope), *old(references)), args@, first, 0, n as nat) is None,
        },
    decreases args, 2nat,
{
    let ghost w0 = world(*env, *scope, *references);
    let mut i: u32 = 0;
    while i < n && (i as usize) < args.len()
        invariant
            first + n <= u32::MAX,
            i <= n,
            w0 == world(*old(env), *old(scope), *old(references)),
            fill_types(world(*env, *scope, *references), args@, first, i as nat, n as nat)
                == fill_types(w0, args@, first, 0, n as nat),
        decreases n - i,
    {
        let loc_arg = &args[i as usize];
        try_as_type_id(env, scope, references, NodeId(first + i), &loc_arg.value, loc_arg.region)?;
        i = i + 1;
    }
    Some(())
}

/// Canonicalizes `annotation`, adds it to the pool with `region`, and
/// returns its id; `None` exactly where canonicalization cannot complete.
pub fn try_to_type_id(
    env: &mut Env,
    scope: &mut Scope,
    rigids: &mut References,
    annotation: &TypeAnnotation,
    region: Region,
) -> (r: Option<TypeId>)
    ensures
        match r {
            Some(id) => to_type_id_spec(world(*old(env), *old(scope), *old(rigids)), *annotation, region)
                == Some((world(*final(env), *final(scope), *final(rigids)), id)),
            None => to_type_id_spec(world(*old(env), *old(scope), *old(rigids)), *annotation, region) is None,
        },
        r is Some ==> (references_well_formed(old(rigids)@) ==> references_well_formed(final(rigids)@)),
    decreases annotation, 1nat,
{
    proof {
        law_to_type_id_extends(world(*env, *scope, *rigids), *annotation, region);
    }
    let type2 = try_to_type2(env, scope, rigids, annotation, region)?;
    add_pool_type(env, scope, rigids, type2, region)
}

/// Canonicalizes `annotation` into the node `type_id`, recording `region`
/// for it; `None` exactly where canonicalization cannot complete.
pub fn try_as_type_id(
    env: &mut Env,
    scope: &mut Scope,
    rigids: &mut References,
    type_id: TypeId,
    annotation: &TypeAnnotation,
    region: Region,
) -> (r: Option<()>)
    ensures
        match r {
            Some(_) => as_type_id_spec(world(*old(env), *old(scope), *old(rigids)), type_id, *annotation, region)
                == Some(world(*final(env), *final(scope), *final(rigids))),
            None => as_type_id_spec(world(*old(env), *old(scope), *old(rigids)), type_id, *annotation, region) is None,
        },
        r is Some ==> (references_well_formed(old(rigids)@) ==> references_well_formed(final(rigids)@)),
    decreases annotation, 1nat,
{
    proof {
        law_as_type_id_extends(world(*env, *scope, *rigids), type_id, *annotation, region, 0);
    }
    let type2 = try_to_type2(env, scope, rigids, annotation, region)?;
    write_pool_node(env, scope, rigids, type_id, PoolNode::Type(type2))?;
    env.set_region(type_id, region);
    Some(())
}

/// Canonicalizes a type annotation into a `Type2` whose parts are added to
/// the pool; rigid variables, wildcards and applied type symbols are
/// recorded in `references`, and problems are reported to `env`. `None`
/// exactly where canonicalization cannot complete: where the pool, the
/// variable store or the module's identifiers would overflow, or where an
/// alias would have to be instantiated or the variables of an `as` alias
/// collected, which is not implemented.
pub fn try_to_type2(
    env: &mut Env,
    scope: &mut Scope,
    references: &mut References,
    annotation: &TypeAnnotation,
    region: Region,
) -> (r: Option<Type2>)
    ensures
        match r {
            Some(t) => canon(world(*old(env), *old(scope), *old(references)), *annotation, region)
                == Some((world(*final(env), *final(scope), *final(references)), t)),
            None => canon(world(*old(env), *old(scope), *old(references)), *annotation, region) is None,
        },
        r is Some ==> (references_well_formed(old(references)@) ==> references_well_formed(final(references)@)),
    decreases annotation, 0nat,
{
    proof {
        law_canon_extends(world(*env, *scope, *references), *annotation, region);
    }
    match annotation {
        TypeAnnotation::Apply(module_name, ident, targs) => {
            match to_type_apply(env, scope, references, module_name, ident, targs, region)? {
                TypeApply::Apply(symbol, args) => {
                    references.insert_symbol(symbol);
                    Some(Type2::Apply(symbol, args))
                },
                TypeApply::Alias(symbol, args, actual) => {
                    references.insert_symbol(symbol);
                    Some(Type2::Alias(symbol, args, actual))
                },
                TypeApply::Erroneous(problem) => Some(Type2::Erroneous(problem)),
            }
        },
        TypeAnnotation::Function(argument_types, return_type) => {
            let n = argument_types.len() as u32;
            let arguments = reserve_nodes(env, scope, references, n)?;
            canonicalize_args(env, scope, references, argument_types, arguments.first.0, n)?;
            let return_type_id = try_to_type_id(env, scope, references, &return_type.value, return_type.region)?;
            if env.var_store.next == u32::MAX {
                return None;
            }
            let closure_var = env.var_store.fresh();
            let closure_type_id = add_pool_node(env, scope, references, PoolNode::Type(Type2::Variable(closure_var)))?;
            Some(Type2::Function(arguments, closure_type_id, return_type_id))
        },
        TypeAnnotation::BoundVariable(v) => {
            // a rigid type variable
            let var = rigid_variable(env, scope, references, v)?;
            Some(Type2::Variable(var))
        },
        TypeAnnotation::Wildcard => wildcard_variable(env, scope, references),
        TypeAnnotation::Malformed(_) => wildcard_variable(env, scope, references),
        TypeAnnotation::Record { fields, ext } => {
            let field_types_map = can_assigned_fields(env, scope, references, fields, region)?;
            let n = field_types_map.len() as u32;
            let field_types = reserve_nodes(env, scope, references, n)?;
            store_fields(env, scope, references, field_types_map, field_types.first.0, n)?;
            let ext_type = match ext {
                Some(loc_ann) => try_to_type_id(env, scope, references, &loc_ann.value, region)?,
                None => add_pool_type(env, scope, references, Type2::EmptyRec, region)?,
            };
            Some(Type2::Record(field_types, ext_type))
        },
        TypeAnnotation::TagUnion { tags, ext } => {
            let tag_types_vec = can_tags(env, scope, references, tags, region)?;
            let n = tag_types_vec.len() as u32;
            let tag_types = reserve_nodes(env, scope, references, n)?;
            store_tags(env, scope, references, &tag_types_vec, tag_types.first.0, n)?;
            let ext_type = match ext {
                Some(loc_ann) => try_to_type_id(env, scope, references, &loc_ann.value, region)?,
                None => add_pool_type(env, scope, references, Type2::EmptyTagUnion, region)?,
            };
            Some(Type2::TagUnion(tag_types, ext_type))
        },
        TypeAnnotation::As(loc_inner, loc_as) => {
            // e.g. `{ x : Int, y : Int } as Point`
            match &loc_as.value {
                TypeAnnotation::Apply(module_name, ident, loc_vars) => {
                    if module_name.as_str().is_empty() {
                        let introduced = scope.try_introduce(
                            ident.clone(),
                            &env.exposed_ident_ids,
                            &mut env.ident_ids,
                            region,
                        )?;
                        match introduced {
                            Err((original_region, shadow)) => {
                                let copy = Located { region: shadow.region, value: shadow.value.clone() };
                                let problem = Problem::Shadowed(original_region, copy);
                                env.problem(CanProblem::ShadowingInAnnotation { original_region, shadow });
                                Some(Type2::Erroneous(problem))
                            },
                            Ok(_symbol) => {
                                let _inner_type = try_to_type2(env, scope, references, &loc_inner.value, region)?;
                                let n = loc_vars.len() as u32;
                                let vars = reserve_nodes(env, scope, references, n)?;
                                let lowercase_vars = reserve_nodes(env, scope, references, n)?;
                                let all_bound = alias_parameters(
                                    env,
                                    scope,
                                    references,
                                    loc_vars,
                                    lowercase_vars.first.0,
                                    vars.first.0,
                                    n,
                                )?;
                                if all_bound {
                                    // collecting the variables of the aliased type, the next step
                                    // for an alias whose parameters are all rigid variables, is not
                                    // implemented
                                    None
                                } else {
                                    // a parameter that is not a lowercase identifier makes the whole
                                    // annotation invalid
                                    Some(Type2::Erroneous(Problem::CanonicalizationProblem))
                                }
                            },
                        }
                    } else {
                        // This is a syntactically invalid type alias.
                        Some(Type2::Erroneous(Problem::CanonicalizationProblem))
                    }
                },
                _ => {
                    // This is a syntactically invalid type alias.
                    Some(Type2::Erroneous(Problem::CanonicalizationProblem))
                },
            }
        },
        TypeAnnotation::SpaceBefore(nested) => try_to_type2(env, scope, references, nested, region),
        TypeAnnotation::SpaceAfter(nested) => try_to_type2(env, scope, references, nested, region),
    }
}

/// Canonicalizes `annotation`, adds it to the pool with `region`, and
/// returns its id.
pub fn to_type_id(
    env: &mut Env,
    scope: &mut Scope,
    rigids: &mut References,
    annotation: &TypeAnnotation,
    region: Region,
) -> (id: TypeId)
    requires
        to_type_id_spec(world(*old(env), *old(scope), *old(rigids)), *annotation, region) is Some,
    ensures
        to_type_id_spec(world(*old(env), *old(scope), *old(rigids)), *annotation, region)
            == Some((world(*final(env), *final(scope), *final(rigids)), id)),
        references_well_formed(old(rigids)@) ==> references_well_formed(final(rigids)@),
{
    match try_to_type_id(env, scope, rigids, annotation, region) {
        Some(id) => id,
        None => {
            assert(false);
            NodeId(0)
        },
    }
}

/// Canonicalizes `annotation` into the node `type_id`, recording `region` for it.
pub fn as_type_id(
    env: &mut Env,
    scope: &mut Scope,
    rigids: &mut References,
    type_id: TypeId,
    annotation: &TypeAnnotation,
    region: Region,
)
    requires
        as_type_id_spec(world(*old(env), *old(scope), *old(rigids)), type_id, *annotation, region) is Some,
    ensures
        as_type_id_spec(world(*old(env), *old(scope), *old(rigids)), type_id, *annotation, region)
            == Some(world(*final(env), *final(scope), *final(rigids))),
        references_well_formed(old(rigids)@) ==> references_well_formed(final(rigids)@),
{
    let _ = try_as_type_id(env, scope, rigids, type_id, annotation, region);
}

/// Canonicalizes a type annotation into a `Type2` whose parts are added to
/// the pool; rigid variables, wildcards and applied type symbols are
/// recorded in `references`, and problems are reported to `env`.
pub fn to_type2(
    env: &mut Env,
    scope: &mut Scope,
    references: &mut References,
    annotation: &TypeAnnotation,
    region: Region,
) -> (t: Type2)
    requires
        canon(world(*old(env), *old(scope), *old(references)), *annotation, region) is Some,
    ensures
        canon(world(*old(env), *old(scope), *old(references)), *annotation, region)
            == Some((world(*final(env), *final(scope), *final(references)), t)),
        references_well_formed(old(references)@) ==> references_well_formed(final(references)@),
{
    match try_to_type2(env, scope, references, annotation, region) {
        Some(t) => t,
        None => {
            assert(false);
            Type2::EmptyRec
        },
    }
}

/// Writes the parameters of an `as` alias; false at the first parameter that
/// is not a rigid variable; `None` where canonicalization cannot complete.
fn alias_parameters(
    env: &mut Env,
    scope: &Scope,
    references: &mut References,
    loc_vars: &Vec<Located<TypeAnnotation>>,
    named_first: u32,
    var_first: u32,
    n: u32,
) -> (r: Option<bool>)
    requires
        named_first + n <= u32::MAX,
        var_first + n <= u32::MAX,
    ensures
        match r {
            Some(all_bound) => alias_vars(world(*old(env), *scope, *old(references)), loc_vars@, named_first, var_first, 0, n as nat)
                == Some((world(*final(env), *scope, *final(references)), all_bound)),
            None => alias_vars(world(*old(env), *scope, *old(references)), loc_vars@, named_first, var_first, 0, n as nat) is None,
        },
{
    let ghost w0 = world(*env, *scope, *references);
    let mut i: u32 = 0;
    while i < n && (i as usize) < loc_vars.len()
        invariant
            named_first + n <= u32::MAX,
            var_first + n <= u32::MAX,
            i <= n,
            w0 == world(*old(env), *scope, *old(references)),
            alias_vars(world(*env, *scope, *references), loc_vars@, named_first, var_first, i as nat, n as nat)
                == alias_vars(w0, loc_vars@, named_first, var_first, 0, n as nat),
        decreases n - i,
    {
        let loc_var = &loc_vars[i as usize];
        match &loc_var.value {
            TypeAnnotation::BoundVariable(var_name) => {
                let named_id = NodeId(named_first + i);
                let var_id = NodeId(var_first + i);
                let var = rigid_variable(env, scope, references, var_name)?;
                if env.pool.len() >= u32::MAX as usize {
                    return None;
                }
                let poolstr = PoolStr::new(var_name, &mut env.pool);
                let type_id = add_pool_node(env, scope, references, PoolNode::Type(Type2::Variable(var)))?;
                write_pool_node(env, scope, references, var_id, PoolNode::NamedType(poolstr, type_id))?;
                write_pool_node(env, scope, references, named_id, PoolNode::NamedVar(poolstr, var))?;
                if (named_id.0 as usize) >= env.pool.len() {
                    return None;
                }
                env.set_region(named_id, loc_var.region);
            },
            _ => {
                return Some(false);
            },
        }
        i = i + 1;
    }
    Some(true)
}

/// Writes the record fields `entries` into the `n` nodes from `first` on,
/// as far as both last, storing each label in a new node; `None` where
/// canonicalization cannot complete.
fn store_fields(
    env: &mut Env,
    scope: &Scope,
    references: &References,
    entries: Vec<(String, RecordField<Type2>)>,
    first: u32,
    n: u32,
) -> (r: Option<()>)
    requires
        first + n <= u32::MAX,
    ensures
        match r {
            Some(_) => write_fields(world(*old(env), *scope, *references), entries@, first, 0, n as nat)
                == Some(world(*final(env), *scope, *references)),
            None => write_fields(world(*old(env), *scope, *references), entries@, first, 0, n as nat) is None,
        },
{
    let ghost w0 = world(*env, *scope, *references);
    let ghost all = entries@;
    let mut rest = entries;
    let mut i: u32 = 0;
    while i < n && rest.len() > 0
        invariant
            first + n <= u32::MAX,
            i <= n,
            i <= all.len(),
            rest@ == all.skip(i as int),
            all == entries@,
            w0 == world(*old(env), *scope, *references),
            write_fields(world(*env, *scope, *references), all, first, i as nat, n as nat)
                == write_fields(w0, all, first, 0, n as nat),
        decreases n - i,
    {
        let ghost before = rest@;
        let (label, field) = rest.remove(0);
        assert(before[0] == all[i as int]);
        assert((label, field) == all[i as int]);
        if env.pool.len() >= u32::MAX as usize {
            return None;
        }
        let poolstr = PoolStr::new(&label, &mut env.pool);
        write_pool_node(env, scope, references, NodeId(first + i), PoolNode::Field(poolstr, field))?;
        i = i + 1;
        assert(rest@ =~= all.skip(i as int));
    }
    Some(())
}

/// Writes the tags `entries` into the `n` nodes from `first` on, as far as
/// both last, storing each name in a new node; `None` where
/// canonicalization cannot complete.
fn store_tags(
    env: &mut Env,
    scope: &Scope,
    references: &References,
    entries: &Vec<(String, PoolVec)>,
    first: u32,
    n: u32,
) -> (r: Option<()>)
    requires
        first + n <= u32::MAX,
    ensures
        match r {
            Some(_) => write_tags(world(*old(env), *scope, *references), entries@, first, 0, n as nat)
                == Some(world(*final(env), *scope, *references)),
            None => write_tags(world(*old(env), *scope, *references), entries@, first, 0, n as nat) is None,
        },
{
    let ghost w0 = world(*env, *scope, *references);
    let mut i: u32 = 0;
    while i < n && (i as usize) < entries.len()
        invariant
            first + n <= u32::MAX,
            i <= n,
            w0 == world(*old(env), *scope, *references),
            write_tags(world(*env, *scope, *references), entries@, first, i as nat, n as nat)
                == write_tags(w0, entries@, first, 0, n as nat),
        decreases n - i,
    {
        if env.pool.len() >= u32::MAX as usize {
            return None;
        }
        let poolstr = PoolStr::new(&entries[i as usize].0, &mut env.pool);
        write_pool_node(env, scope, references, NodeId(first + i), PoolNode::Tag(poolstr, entries[i as usize].1))?;
        i = i + 1;
    }
    Some(())
}

/// Resolves the type constructor `module_name.ident` (unqualified when
/// `module_name` is empty) applied to `type_arguments`; `None` where
/// canonicalization cannot complete.
fn to_type_apply(
    env: &mut Env,
    scope: &mut Scope,
    rigids: &mut References,
    module_name: &String,
    ident: &String,
    type_arguments: &Vec<Located<TypeAnnotation>>,
    region: Region,
) -> (r: Option<TypeApply>)
    ensures
        match r {
            Some(ta) => type_apply(world(*old(env), *old(scope), *old(rigids)), *module_name, *ident, type_arguments@, region)
                == Some((world(*final(env), *final(scope), *final(rigids)), ta)),
            None => type_apply(world(*old(env), *old(scope), *old(rigids)), *module_name, *ident, type_arguments@, region) is None,
        },
    decreases type_arguments, 3nat,
{
    let lookup = if module_name.as_str().is_empty() {
        // Since module_name was empty, this is an unqualified type.
        // Look it up in scope!
        scope.lookup(ident, region)
    } else {
        env.qualified_lookup(module_name, ident, region)
    };
    let symbol = match lookup {
        Ok(symbol) => symbol,
        Err(problem) => {
            env.problem(CanProblem::RuntimeError(problem));
            return Some(TypeApply::Erroneous(Problem::UnrecognizedIdent(ident.clone())));
        },
    };
    let n = type_arguments.len() as u32;
    let argument_type_ids = reserve_nodes(env, scope, rigids, n)?;
    canonicalize_args(env, scope, rigids, type_arguments, argument_type_ids.first.0, n)?;
    match scope.lookup_alias(symbol) {
        Some(alias) => {
            if (alias.targs.len as usize) != type_arguments.len() {
                Some(TypeApply::Erroneous(Problem::BadTypeArguments {
                    symbol,
                    region,
                    alias_needs: alias.targs.len as u8,
                    type_got: type_arguments.len() as u8,
                }))
            } else {
                // instantiating the alias is not implemented
                None
            }
        },
        None => Some(TypeApply::Apply(symbol, argument_type_ids)),
    }
}

/// The label and type of a record field, unwrapping spaces; `Some(None)`
/// for a malformed field, `None` where canonicalization cannot complete.
fn can_assigned_field(
    env: &mut Env,
    scope: &mut Scope,
    rigids: &mut References,
    field: &AssignedField,
) -> (r: Option<Option<(String, RecordField<Type2>)>>)
    ensures
        match r {
            Some(x) => assigned_field(world(*old(env), *old(scope), *old(rigids)), *field)
                == Some((world(*final(env), *final(scope), *final(rigids)), x)),
            None => assigned_field(world(*old(env), *old(scope), *old(rigids)), *field) is None,
        },
    decreases field, 0nat,
{
    match field {
        AssignedField::RequiredValue(field_name, annotation) => {
            let field_type = try_to_type2(env, scope, rigids, &annotation.value, annotation.region)?;
            Some(Some((field_name.value.clone(), RecordField::Required(field_type))))
        },
        AssignedField::OptionalValue(field_name, annotation) => {
            let field_type = try_to_type2(env, scope, rigids, &annotation.value, annotation.region)?;
            Some(Some((field_name.value.clone(), RecordField::Optional(field_type))))
        },
        AssignedField::LabelOnly(loc_field_name) => {
            // Interpret { a, b } as { a : a, b : b }
            let field_var = rigid_variable(env, scope, rigids, &loc_field_name.value)?;
            Some(Some((loc_field_name.value.clone(), RecordField::Required(Type2::Variable(field_var)))))
        },
        AssignedField::SpaceBefore(nested) => can_assigned_field(env, scope, rigids, nested),
        AssignedField::SpaceAfter(nested) => can_assigned_field(env, scope, rigids, nested),
        AssignedField::Malformed(_) => Some(None),
    }
}

/// Canonicalizes the fields of a record annotation: each label with its
/// field, the right-most field of a label winning; a label given twice is
/// reported. `None` where canonicalization cannot complete.
fn can_assigned_fields(
    env: &mut Env,
    scope: &mut Scope,
    rigids: &mut References,
    fields: &Vec<Located<AssignedField>>,
    region: Region,
) -> (r: Option<Vec<(String, RecordField<Type2>)>>)
    ensures
        match r {
            Some(v) => fields_from(world(*old(env), *old(scope), *old(rigids)), fields@, region, 0, Seq::empty(), Seq::empty())
                == Some((world(*final(env), *final(scope), *final(rigids)), v@)),
            None => fields_from(world(*old(env), *old(scope), *old(rigids)), fields@, region, 0, Seq::empty(), Seq::empty()) is None,
        },
    decreases fields, 0nat,
{
    let ghost w0 = world(*env, *scope, *rigids);
    let mut field_types: Vec<(String, RecordField<Type2>)> = Vec::new();
    // field names we've seen so far in this record
    let mut seen: Vec<(String, Region)> = Vec::new();
    let mut i: usize = 0;
    while i < fields.len()
        invariant
            i <= fields@.len(),
            w0 == world(*old(env), *old(scope), *old(rigids)),
            fields_from(world(*env, *scope, *rigids), fields@, region, i as nat, field_types@, seen@)
                == fields_from(w0, fields@, region, 0, Seq::empty(), Seq::empty()),
        decreases fields@.len() - i,
    {
        let loc_field = &fields[i];
        match can_assigned_field(env, scope, rigids, &loc_field.value)? {
            None => {},
            Some((new_name, field)) => {
                match assoc_find(&field_types, &new_name) {
                    Some(k) => {
                        field_types.set(k, (new_name.clone(), field));
                    },
                    None => {
                        field_types.push((new_name.clone(), field));
                    },
                }
                // ensure that the new name is not already in this record:
                // note that the right-most field wins when there are two with the same name
                let replaced = match assoc_find(&seen, &new_name) {
                    Some(k) => {
                        let replaced_region = seen[k].1;
                        seen.set(k, (new_name.clone(), loc_field.region));
                        Some(replaced_region)
                    },
                    None => {
                        seen.push((new_name.clone(), loc_field.region));
                        None
                    },
                };
                match replaced {
                    Some(replaced_region) => {
                        env.problem(CanProblem::DuplicateRecordFieldType {
                            field_name: new_name,
                            record_region: region,
                            field_region: loc_field.region,
                            replaced_region,
                        });
                    },
                    None => {},
                }
            },
        }
        i = i + 1;
    }
    Some(field_types)
}

/// The name and argument types of a tag, unwrapping spaces; `Some(None)`
/// for a malformed tag, `None` where canonicalization cannot complete.
fn can_tag(
    env: &mut Env,
    scope: &mut Scope,
    rigids: &mut References,
    tag: &Tag,
) -> (r: Option<Option<(String, PoolVec)>>)
    ensures
        match r {
            Some(x) => tag_spec(world(*old(env), *old(scope), *old(rigids)), *tag)
                == Some((world(*final(env), *final(scope), *final(rigids)), x)),
            None => tag_spec(world(*old(env), *old(scope), *old(rigids)), *tag) is None,
        },
    decreases tag, 0nat,
{
    match tag {
        Tag::Global { name, args } => can_tag_args(env, scope, rigids, &name.value, args),
        Tag::Private { name, args } => can_tag_args(env, scope, rigids, &name.value, args),
        Tag::SpaceBefore(nested) => can_tag(env, scope, rigids, nested),
        Tag::SpaceAfter(nested) => can_tag(env, scope, rigids, nested),
        Tag::Malformed(_) => Some(None),
    }
}

fn can_tag_args(
    env: &mut Env,
    scope: &mut Scope,
    rigids: &mut References,
    name: &String,
    args: &Vec<Located<TypeAnnotation>>,
) -> (r: Option<Option<(String, PoolVec)>>)
    ensures
        match r {
            Some(x) => tag_args(world(*old(env), *old(scope), *old(rigids)), *name, args@)
                == Some((world(*final(env), *final(scope), *final(rigids)), x)),
            None => tag_args(world(*old(env), *old(scope), *old(rigids)), *name, args@) is None,
        },
    decreases args, 3nat,
{
    let n = args.len() as u32;
    let arg_types = reserve_nodes(env, scope, rigids, n)?;
    canonicalize_args(env, scope, rigids, args, arg_types.first.0, n)?;
    Some(Some((name.clone(), arg_types)))
}

/// Canonicalizes the tags of a tag union annotation, keeping every tag in
/// order; a name given twice is reported. `None` where canonicalization
/// cannot complete.
fn can_tags(
    env: &mut Env,
    scope: &mut Scope,
    rigids: &mut References,
    tags: &Vec<Located<Tag>>,
    region: Region,
) -> (r: Option<Vec<(String, PoolVec)>>)
    ensures
        match r {
            Some(v) => tags_from(world(*old(env), *old(scope), *old(rigids)), tags@, region, 0, Seq::empty(), Seq::empty())
                == Some((world(*final(env), *final(scope), *final(rigids)), v@)),
            None => tags_from(world(*old(env), *old(scope), *old(rigids)), tags@, region, 0, Seq::empty(), Seq::empty()) is None,
        },
    decreases tags, 0nat,
{
    let ghost w0 = world(*env, *scope, *rigids);
    let mut tag_types: Vec<(String, PoolVec)> = Vec::new();
    // tag names we've seen so far in this tag union
    let mut seen: Vec<(String, Region)> = Vec::new();
    let mut i: usize = 0;
    while i < tags.len()
        invariant
            i <= tags@.len(),
            w0 == world(*old(env), *old(scope), *old(rigids)),
            tags_from(world(*env, *scope, *rigids), tags@, region, i as nat, tag_types@, seen@)
                == tags_from(w0, tags@, region, 0, Seq::empty(), Seq::empty()),
        decreases tags@.len() - i,
    {
        let loc_tag = &tags[i];
        match can_tag(env, scope, rigids, &loc_tag.value)? {
            None => {},
            Some((new_name, arg_types)) => {
                tag_types.push((new_name.clone(), arg_types));
                // ensure that the new name is not already in this tag union:
                // both tags are kept, and the later one is reported
                let replaced = match assoc_find(&seen, &new_name) {
                    Some(k) => {
                        let replaced_region = seen[k].1;
                        seen.set(k, (new_name.clone(), loc_tag.region));
                        Some(replaced_region)
                    },
                    None => {
                        seen.push((new_name.clone(), loc_tag.region));
                        None
                    },
                };
                match replaced {
                    Some(replaced_region) => {
                        env.problem(CanProblem::DuplicateTag {
                            tag_name: TagName::Global(new_name),
                            tag_union_region: region,
                            tag_region: loc_tag.region,
                            replaced_region,
                        });
                    },
                    None => {},
                }
            },
        }
        i = i + 1;
    }
    Some(tag_types)
}


} // verus!
