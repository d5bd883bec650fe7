use editor::ast::{AssignedField, Tag, TypeAnnotation};
use editor::env::{Env, ModuleEntry};
use editor::pool::{NodeId, Pool, PoolNode, PoolStr, PoolVec};
use editor::problem::{CanProblem, RuntimeError};
use editor::region::{Located, Region};
use editor::scope::Scope;
use editor::subs::{Problem, RecordField, VarStore, Variable};
use editor::symbol::{IdentId, IdentIds, ModuleId, Symbol, TagName};
use editor::types::{
    as_type_id, to_annotation2, to_type2, to_type_id, Alias, Annotation2, References, Signature, Type2,
};

const HOME: ModuleId = ModuleId(1);

fn new_env() -> Env {
    Env {
        home: HOME,
        pool: Pool::new(),
        var_store: VarStore::new(100),
        ident_ids: IdentIds::new(),
        exposed_ident_ids: IdentIds::new(),
        modules: Vec::new(),
        problems: Vec::new(),
    }
}

fn r(line: u32) -> Region {
    Region { start_line: line, end_line: line, start_col: 0, end_col: 4 }
}

fn at<T>(line: u32, value: T) -> Located<T> {
    Located { region: r(line), value }
}

fn s(x: &str) -> String {
    x.to_string()
}

fn var(name: &str) -> TypeAnnotation {
    TypeAnnotation::BoundVariable(s(name))
}

fn apply(module: &str, name: &str, args: Vec<Located<TypeAnnotation>>) -> TypeAnnotation {
    TypeAnnotation::Apply(s(module), s(name), args)
}

fn node(env: &Env, i: u32) -> &PoolNode {
    env.pool.get(NodeId(i))
}

fn ty(v: u32) -> PoolNode {
    PoolNode::Type(Type2::Variable(Variable(v)))
}

fn ids(names: &[&str]) -> IdentIds {
    let mut ids = IdentIds::new();
    for n in names {
        ids.add(s(n));
    }
    ids
}

#[test]
fn wildcard_gives_fresh_unnamed_variable() {
    let mut env = new_env();
    let mut scope = Scope::new(HOME);
    let mut refs = References::default();
    let t = to_type2(&mut env, &mut scope, &mut refs, &TypeAnnotation::Wildcard, r(0));
    assert_eq!(t, Type2::Variable(Variable(100)));
    let t2 = to_type2(&mut env, &mut scope, &mut refs, &TypeAnnotation::Wildcard, r(0));
    assert_eq!(t2, Type2::Variable(Variable(101)));
    assert_eq!(env.var_store.next, 102);
    assert_eq!(env.pool.len(), 0);
    let (named, unnamed, symbols) = refs.into_parts();
    assert!(named.is_empty());
    assert_eq!(unnamed, vec![Variable(100), Variable(101)]);
    assert!(symbols.is_empty());
}

#[test]
fn malformed_annotation_is_a_wildcard() {
    let mut env = new_env();
    let mut scope = Scope::new(HOME);
    let mut refs = References::default();
    let t = to_type2(&mut env, &mut scope, &mut refs, &TypeAnnotation::Malformed(s("?!")), r(0));
    assert_eq!(t, Type2::Variable(Variable(100)));
    let (_, unnamed, _) = refs.into_parts();
    assert_eq!(unnamed, vec![Variable(100)]);
}

#[test]
fn same_rigid_name_same_variable() {
    let mut env = new_env();
    let mut scope = Scope::new(HOME);
    let mut refs = References::default();
    let a1 = to_type2(&mut env, &mut scope, &mut refs, &var("a"), r(0));
    let b = to_type2(&mut env, &mut scope, &mut refs, &var("b"), r(0));
    let a2 = to_type2(&mut env, &mut scope, &mut refs, &var("a"), r(1));
    assert_eq!(a1, Type2::Variable(Variable(100)));
    assert_eq!(b, Type2::Variable(Variable(101)));
    assert_eq!(a2, a1);
    assert_eq!(env.var_store.next, 102);
    assert_eq!(refs.get_named(&s("a")), Some(Variable(100)));
    assert_eq!(refs.get_named(&s("c")), None);
    let (named, unnamed, _) = refs.into_parts();
    assert_eq!(named, vec![(s("a"), Variable(100)), (s("b"), Variable(101))]);
    assert!(unnamed.is_empty());
}

#[test]
fn spaces_are_transparent() {
    let mut env = new_env();
    let mut scope = Scope::new(HOME);
    let mut refs = References::default();
    let ann = TypeAnnotation::SpaceBefore(Box::new(TypeAnnotation::SpaceAfter(Box::new(var("a")))));
    let t = to_type2(&mut env, &mut scope, &mut refs, &ann, r(0));
    assert_eq!(t, Type2::Variable(Variable(100)));
    assert_eq!(refs.get_named(&s("a")), Some(Variable(100)));
}

#[test]
fn function_type_layout() {
    // a, * -> a
    let mut env = new_env();
    let mut scope = Scope::new(HOME);
    let mut refs = References::default();
    let ann = TypeAnnotation::Function(
        vec![at(1, var("a")), at(2, TypeAnnotation::Wildcard)],
        Box::new(at(3, var("a"))),
    );
    let t = to_type2(&mut env, &mut scope, &mut refs, &ann, r(0));
    assert_eq!(t, Type2::Function(PoolVec { first: NodeId(0), len: 2 }, NodeId(3), NodeId(2)));
    assert_eq!(env.pool.len(), 4);
    assert_eq!(node(&env, 0), &ty(100));
    assert_eq!(env.pool.region(NodeId(0)), Some(r(1)));
    assert_eq!(node(&env, 1), &ty(101));
    assert_eq!(env.pool.region(NodeId(1)), Some(r(2)));
    assert_eq!(node(&env, 2), &ty(100));
    assert_eq!(env.pool.region(NodeId(2)), Some(r(3)));
    // the closure type is a fresh variable without a region
    assert_eq!(node(&env, 3), &ty(102));
    assert_eq!(env.pool.region(NodeId(3)), None);
    let (named, unnamed, _) = refs.into_parts();
    assert_eq!(named, vec![(s("a"), Variable(100))]);
    assert_eq!(unnamed, vec![Variable(101)]);
}

#[test]
fn unqualified_apply_found_in_scope() {
    let mut env = new_env();
    let mut scope = Scope::new(HOME);
    let sym = scope.introduce(s("List"), &IdentIds::new(), &mut env.ident_ids, r(9)).unwrap();
    assert_eq!(sym, Symbol { module_id: HOME, ident_id: IdentId(0) });
    let mut refs = References::default();
    let ann = apply("", "List", vec![at(1, var("a"))]);
    let t = to_type2(&mut env, &mut scope, &mut refs, &ann, r(0));
    assert_eq!(t, Type2::Apply(sym, PoolVec { first: NodeId(0), len: 1 }));
    assert_eq!(node(&env, 0), &ty(100));
    assert_eq!(env.pool.region(NodeId(0)), Some(r(1)));
    // the symbol is recorded once, however often it is met
    let t2 = to_type2(&mut env, &mut scope, &mut refs, &apply("", "List", vec![]), r(0));
    assert_eq!(t2, Type2::Apply(sym, PoolVec { first: NodeId(1), len: 0 }));
    let (_, _, symbols) = refs.into_parts();
    assert_eq!(symbols, vec![sym]);
    assert!(env.problems.is_empty());
}

#[test]
fn unqualified_apply_not_in_scope() {
    let mut env = new_env();
    let mut scope = Scope::new(HOME);
    let mut refs = References::default();
    let ann = apply("", "Foo", vec![at(1, var("a"))]);
    let t = to_type2(&mut env, &mut scope, &mut refs, &ann, r(0));
    assert_eq!(t, Type2::Erroneous(Problem::UnrecognizedIdent(s("Foo"))));
    assert_eq!(
        env.problems,
        vec![CanProblem::RuntimeError(RuntimeError::LookupNotInScope(Located { region: r(0), value: s("Foo") }))]
    );
    // the arguments are not looked at
    assert_eq!(env.pool.len(), 0);
    assert_eq!(env.var_store.next, 100);
    let (named, _, symbols) = refs.into_parts();
    assert!(named.is_empty());
    assert!(symbols.is_empty());
}

fn env_with_modules() -> Env {
    let mut env = new_env();
    env.ident_ids = ids(&["Foo"]);
    env.modules = vec![
        ModuleEntry { name: s("Main"), id: HOME, exposed: IdentIds::new() },
        ModuleEntry { name: s("Num"), id: ModuleId(2), exposed: ids(&["Int", "Nat"]) },
    ];
    env
}

#[test]
fn qualified_apply_resolves_through_modules() {
    let mut env = env_with_modules();
    let mut scope = Scope::new(HOME);
    let mut refs = References::default();
    let t = to_type2(&mut env, &mut scope, &mut refs, &apply("Num", "Nat", vec![]), r(0));
    let nat = Symbol { module_id: ModuleId(2), ident_id: IdentId(1) };
    assert_eq!(t, Type2::Apply(nat, PoolVec { first: NodeId(0), len: 0 }));
    let t = to_type2(&mut env, &mut scope, &mut refs, &apply("Main", "Foo", vec![]), r(0));
    let foo = Symbol { module_id: HOME, ident_id: IdentId(0) };
    assert_eq!(t, Type2::Apply(foo, PoolVec { first: NodeId(0), len: 0 }));
    assert!(env.problems.is_empty());
    let (_, _, symbols) = refs.into_parts();
    assert_eq!(symbols, vec![nat, foo]);
}

#[test]
fn qualified_apply_errors() {
    let mut env = env_with_modules();
    let mut scope = Scope::new(HOME);
    let mut refs = References::default();
    let t = to_type2(&mut env, &mut scope, &mut refs, &apply("Num", "Float", vec![]), r(1));
    assert_eq!(t, Type2::Erroneous(Problem::UnrecognizedIdent(s("Float"))));
    let t = to_type2(&mut env, &mut scope, &mut refs, &apply("Json", "Value", vec![]), r(2));
    assert_eq!(t, Type2::Erroneous(Problem::UnrecognizedIdent(s("Value"))));
    let t = to_type2(&mut env, &mut scope, &mut refs, &apply("Main", "Bar", vec![]), r(3));
    assert_eq!(t, Type2::Erroneous(Problem::UnrecognizedIdent(s("Bar"))));
    assert_eq!(
        env.problems,
        vec![
            CanProblem::RuntimeError(RuntimeError::ValueNotExposed {
                module_name: s("Num"),
                ident: s("Float"),
                region: r(1),
            }),
            CanProblem::RuntimeError(RuntimeError::ModuleNotImported { module_name: s("Json"), region: r(2) }),
            CanProblem::RuntimeError(RuntimeError::LookupNotInScope(Located { region: r(3), value: s("Bar") })),
        ]
    );
}

#[test]
fn alias_with_wrong_number_of_arguments() {
    let mut env = new_env();
    let mut scope = Scope::new(HOME);
    let pair = scope.introduce(s("Pair"), &IdentIds::new(), &mut env.ident_ids, r(9)).unwrap();
    scope.add_alias(
        pair,
        Alias {
            targs: PoolVec { first: NodeId(0), len: 2 },
            actual: NodeId(0),
            hidden_variables: PoolVec { first: NodeId(0), len: 0 },
        },
    );
    let mut refs = References::default();
    let ann = apply("", "Pair", vec![at(1, var("a"))]);
    let t = to_type2(&mut env, &mut scope, &mut refs, &ann, r(0));
    assert_eq!(
        t,
        Type2::Erroneous(Problem::BadTypeArguments { symbol: pair, region: r(0), alias_needs: 2, type_got: 1 })
    );
    // the argument was canonicalized before the alias was looked at
    assert_eq!(node(&env, 0), &ty(100));
    assert!(env.problems.is_empty());
    let (_, _, symbols) = refs.into_parts();
    assert!(symbols.is_empty());
}

#[test]
fn record_fields_right_most_wins_and_duplicates_reported() {
    // { x : a, y ? *, z, x : *, <malformed> }
    let mut env = new_env();
    let mut scope = Scope::new(HOME);
    let mut refs = References::default();
    let fields = vec![
        at(1, AssignedField::RequiredValue(at(1, s("x")), Box::new(at(11, var("a"))))),
        at(2, AssignedField::OptionalValue(at(2, s("y")), Box::new(at(12, TypeAnnotation::Wildcard)))),
        at(3, AssignedField::SpaceAfter(Box::new(AssignedField::LabelOnly(at(3, s("z")))))),
        at(4, AssignedField::RequiredValue(at(4, s("x")), Box::new(at(14, TypeAnnotation::Wildcard)))),
        at(5, AssignedField::Malformed(s("bad"))),
    ];
    let ann = TypeAnnotation::Record { fields, ext: None };
    let t = to_type2(&mut env, &mut scope, &mut refs, &ann, r(0));
    assert_eq!(t, Type2::Record(PoolVec { first: NodeId(0), len: 3 }, NodeId(6)));
    assert_eq!(
        node(&env, 0),
        &PoolNode::Field(PoolStr { node: NodeId(3) }, RecordField::Required(Type2::Variable(Variable(103))))
    );
    assert_eq!(
        node(&env, 1),
        &PoolNode::Field(PoolStr { node: NodeId(4) }, RecordField::Optional(Type2::Variable(Variable(101))))
    );
    assert_eq!(
        node(&env, 2),
        &PoolNode::Field(PoolStr { node: NodeId(5) }, RecordField::Required(Type2::Variable(Variable(102))))
    );
    assert_eq!(node(&env, 3), &PoolNode::Str(s("x")));
    assert_eq!(node(&env, 4), &PoolNode::Str(s("y")));
    assert_eq!(node(&env, 5), &PoolNode::Str(s("z")));
    assert_eq!(node(&env, 6), &PoolNode::Type(Type2::EmptyRec));
    assert_eq!(env.pool.region(NodeId(6)), Some(r(0)));
    assert_eq!(env.pool.len(), 7);
    assert_eq!(
        env.problems,
        vec![CanProblem::DuplicateRecordFieldType {
            field_name: s("x"),
            record_region: r(0),
            field_region: r(4),
            replaced_region: r(1),
        }]
    );
    // { z } means { z : z }
    assert_eq!(refs.get_named(&s("z")), Some(Variable(102)));
}

#[test]
fn record_extension_uses_record_region() {
    let mut env = new_env();
    let mut scope = Scope::new(HOME);
    let mut refs = References::default();
    let ann = TypeAnnotation::Record { fields: vec![], ext: Some(Box::new(at(7, var("r")))) };
    let t = to_type2(&mut env, &mut scope, &mut refs, &ann, r(0));
    assert_eq!(t, Type2::Record(PoolVec { first: NodeId(0), len: 0 }, NodeId(0)));
    assert_eq!(node(&env, 0), &ty(100));
    assert_eq!(env.pool.region(NodeId(0)), Some(r(0)));
}

#[test]
fn tag_union_keeps_every_tag_and_reports_duplicates() {
    // [ Ok a, @Err *, Ok ]b
    let mut env = new_env();
    let mut scope = Scope::new(HOME);
    let mut refs = References::default();
    let tags = vec![
        at(1, Tag::Global { name: at(1, s("Ok")), args: vec![at(11, var("a"))] }),
        at(2, Tag::Private { name: at(2, s("Err")), args: vec![at(12, TypeAnnotation::Wildcard)] }),
        at(3, Tag::SpaceBefore(Box::new(Tag::Global { name: at(3, s("Ok")), args: vec![] }))),
        at(4, Tag::Malformed(s("??"))),
    ];
    let ann = TypeAnnotation::TagUnion { tags, ext: Some(Box::new(at(9, var("b")))) };
    let t = to_type2(&mut env, &mut scope, &mut refs, &ann, r(0));
    assert_eq!(t, Type2::TagUnion(PoolVec { first: NodeId(2), len: 3 }, NodeId(8)));
    assert_eq!(node(&env, 0), &ty(100));
    assert_eq!(env.pool.region(NodeId(0)), Some(r(11)));
    assert_eq!(node(&env, 1), &ty(101));
    assert_eq!(node(&env, 2), &PoolNode::Tag(PoolStr { node: NodeId(5) }, PoolVec { first: NodeId(0), len: 1 }));
    assert_eq!(node(&env, 3), &PoolNode::Tag(PoolStr { node: NodeId(6) }, PoolVec { first: NodeId(1), len: 1 }));
    assert_eq!(node(&env, 4), &PoolNode::Tag(PoolStr { node: NodeId(7) }, PoolVec { first: NodeId(2), len: 0 }));
    assert_eq!(node(&env, 5), &PoolNode::Str(s("Ok")));
    assert_eq!(node(&env, 6), &PoolNode::Str(s("Err")));
    assert_eq!(node(&env, 7), &PoolNode::Str(s("Ok")));
    assert_eq!(node(&env, 8), &ty(102));
    assert_eq!(env.pool.region(NodeId(8)), Some(r(0)));
    assert_eq!(
        env.problems,
        vec![CanProblem::DuplicateTag {
            tag_name: TagName::Global(s("Ok")),
            tag_union_region: r(0),
            tag_region: r(3),
            replaced_region: r(1),
        }]
    );
}

#[test]
fn empty_tag_union_gets_empty_extension() {
    let mut env = new_env();
    let mut scope = Scope::new(HOME);
    let mut refs = References::default();
    let ann = TypeAnnotation::TagUnion { tags: vec![], ext: None };
    let t = to_type2(&mut env, &mut scope, &mut refs, &ann, r(5));
    assert_eq!(t, Type2::TagUnion(PoolVec { first: NodeId(0), len: 0 }, NodeId(0)));
    assert_eq!(node(&env, 0), &PoolNode::Type(Type2::EmptyTagUnion));
    assert_eq!(env.pool.region(NodeId(0)), Some(r(5)));
}

#[test]
fn as_alias_shadowing() {
    let mut env = new_env();
    let mut scope = Scope::new(HOME);
    scope.introduce(s("Point"), &IdentIds::new(), &mut env.ident_ids, r(9)).unwrap();
    let mut refs = References::default();
    let ann = TypeAnnotation::As(Box::new(at(1, TypeAnnotation::Wildcard)), Box::new(at(2, apply("", "Point", vec![]))));
    let t = to_type2(&mut env, &mut scope, &mut refs, &ann, r(0));
    let shadow = Located { region: r(0), value: s("Point") };
    assert_eq!(t, Type2::Erroneous(Problem::Shadowed(r(9), shadow.clone())));
    assert_eq!(env.problems, vec![CanProblem::ShadowingInAnnotation { original_region: r(9), shadow }]);
    // the inner annotation is not looked at
    assert_eq!(env.var_store.next, 100);
}

#[test]
fn as_alias_with_invalid_header() {
    let mut env = new_env();
    let mut scope = Scope::new(HOME);
    let mut refs = References::default();
    let lower = TypeAnnotation::As(Box::new(at(1, TypeAnnotation::Wildcard)), Box::new(at(2, var("point"))));
    let t = to_type2(&mut env, &mut scope, &mut refs, &lower, r(0));
    assert_eq!(t, Type2::Erroneous(Problem::CanonicalizationProblem));
    let qualified = TypeAnnotation::As(Box::new(at(1, TypeAnnotation::Wildcard)), Box::new(at(2, apply("M", "P", vec![]))));
    let t = to_type2(&mut env, &mut scope, &mut refs, &qualified, r(0));
    assert_eq!(t, Type2::Erroneous(Problem::CanonicalizationProblem));
    assert_eq!(env.var_store.next, 100);
    assert_eq!(env.pool.len(), 0);
    assert!(env.problems.is_empty());
}

#[test]
fn as_alias_with_parameter_that_is_not_a_variable() {
    // * as Point a *
    let mut env = new_env();
    let mut scope = Scope::new(HOME);
    let mut refs = References::default();
    let header = apply("", "Point", vec![at(3, var("a")), at(4, TypeAnnotation::Wildcard)]);
    let ann = TypeAnnotation::As(Box::new(at(1, TypeAnnotation::Wildcard)), Box::new(at(2, header)));
    let t = to_type2(&mut env, &mut scope, &mut refs, &ann, r(0));
    assert_eq!(t, Type2::Erroneous(Problem::CanonicalizationProblem));
    // Point was introduced, the inner type and the first parameter were canonicalized
    let point = Symbol { module_id: HOME, ident_id: IdentId(0) };
    assert_eq!(scope.lookup(&s("Point"), r(0)), Ok(point));
    assert_eq!(env.pool.len(), 6);
    assert_eq!(node(&env, 0), &PoolNode::NamedType(PoolStr { node: NodeId(4) }, NodeId(5)));
    assert_eq!(node(&env, 1), &PoolNode::Reserved);
    assert_eq!(node(&env, 2), &PoolNode::NamedVar(PoolStr { node: NodeId(4) }, Variable(101)));
    assert_eq!(env.pool.region(NodeId(2)), Some(r(3)));
    assert_eq!(node(&env, 3), &PoolNode::Reserved);
    assert_eq!(node(&env, 4), &PoolNode::Str(s("a")));
    assert_eq!(node(&env, 5), &ty(101));
    let (named, unnamed, _) = refs.into_parts();
    assert_eq!(named, vec![(s("a"), Variable(101))]);
    assert_eq!(unnamed, vec![Variable(100)]);
}

#[test]
fn to_type_id_adds_a_node_with_region() {
    let mut env = new_env();
    let mut scope = Scope::new(HOME);
    let mut refs = References::default();
    let id = to_type_id(&mut env, &mut scope, &mut refs, &var("a"), r(4));
    assert_eq!(id, NodeId(0));
    assert_eq!(node(&env, 0), &ty(100));
    assert_eq!(env.pool.region(id), Some(r(4)));
}

#[test]
fn as_type_id_fills_a_reserved_node() {
    let mut env = new_env();
    let mut scope = Scope::new(HOME);
    let mut refs = References::default();
    let reserved = PoolVec::with_capacity(2, &mut env.pool);
    assert_eq!(reserved, PoolVec { first: NodeId(0), len: 2 });
    as_type_id(&mut env, &mut scope, &mut refs, NodeId(1), &TypeAnnotation::Wildcard, r(6));
    assert_eq!(node(&env, 0), &PoolNode::Reserved);
    assert_eq!(node(&env, 1), &ty(100));
    assert_eq!(env.pool.region(NodeId(1)), Some(r(6)));
    assert_eq!(env.pool.len(), 2);
}

#[test]
fn annotation_of_function_type() {
    // a -> a
    let mut env = new_env();
    let mut scope = Scope::new(HOME);
    let ann = TypeAnnotation::Function(vec![at(1, var("a"))], Box::new(at(2, var("a"))));
    let result = to_annotation2(&mut env, &mut scope, &ann, r(0));
    assert_eq!(
        result,
        Annotation2::Annotation {
            named_rigids: vec![(s("a"), Variable(100))],
            unnamed_rigids: vec![],
            symbols: vec![],
            signature: Signature::Function {
                arguments: PoolVec { first: NodeId(0), len: 1 },
                closure_type_id: NodeId(2),
                return_type_id: NodeId(1),
            },
        }
    );
}

#[test]
fn annotation_of_value_type() {
    // List *
    let mut env = new_env();
    let mut scope = Scope::new(HOME);
    let list = scope.introduce(s("List"), &IdentIds::new(), &mut env.ident_ids, r(9)).unwrap();
    let ann = apply("", "List", vec![at(1, TypeAnnotation::Wildcard)]);
    let result = to_annotation2(&mut env, &mut scope, &ann, r(0));
    assert_eq!(
        result,
        Annotation2::Annotation {
            named_rigids: vec![],
            unnamed_rigids: vec![Variable(100)],
            symbols: vec![list],
            signature: Signature::Value { annotation: Type2::Apply(list, PoolVec { first: NodeId(0), len: 1 }) },
        }
    );
}

#[test]
fn existing_nodes_and_bindings_are_kept() {
    let mut env = new_env();
    let mut scope = Scope::new(HOME);
    let mut refs = References::default();
    let first = to_type_id(&mut env, &mut scope, &mut refs, &var("a"), r(1));
    let before = env.pool.len();
    let ann = TypeAnnotation::Function(
        vec![at(2, var("b")), at(3, TypeAnnotation::Wildcard)],
        Box::new(at(4, TypeAnnotation::Record { fields: vec![], ext: Some(Box::new(at(5, var("a")))) })),
    );
    let t = to_type2(&mut env, &mut scope, &mut refs, &ann, r(0));
    assert_eq!(node(&env, first.0), &ty(100));
    assert_eq!(env.pool.region(first), Some(r(1)));
    assert!(env.pool.len() > before);
    // the binding of `a` made before is the one used after
    assert_eq!(refs.get_named(&s("a")), Some(Variable(100)));
    // every id in the result refers to a node of the pool
    match t {
        Type2::Function(args, closure, ret) => {
            assert!((args.first.0 + args.len) as usize <= env.pool.len());
            assert!((closure.0 as usize) < env.pool.len());
            assert!((ret.0 as usize) < env.pool.len());
        },
        other => panic!("not a function type: {:?}", other),
    }
}

#[test]
fn label_only_field_means_label_colon_label() {
    let mut env1 = new_env();
    let mut scope1 = Scope::new(HOME);
    let mut refs1 = References::default();
    let short = TypeAnnotation::Record {
        fields: vec![at(1, AssignedField::LabelOnly(at(1, s("z"))))],
        ext: None,
    };
    let t1 = to_type2(&mut env1, &mut scope1, &mut refs1, &short, r(0));

    let mut env2 = new_env();
    let mut scope2 = Scope::new(HOME);
    let mut refs2 = References::default();
    let long = TypeAnnotation::Record {
        fields: vec![at(1, AssignedField::RequiredValue(at(1, s("z")), Box::new(at(7, var("z")))))],
        ext: None,
    };
    let t2 = to_type2(&mut env2, &mut scope2, &mut refs2, &long, r(0));
    assert_eq!(t1, t2);
    assert_eq!(env1.pool.len(), env2.pool.len());
    for i in 0..env1.pool.len() as u32 {
        assert_eq!(node(&env1, i), node(&env2, i));
    }
    assert_eq!(refs1.get_named(&s("z")), refs2.get_named(&s("z")));
}
