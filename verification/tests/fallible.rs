use editor::ast::{AssignedField, Tag, TypeAnnotation};
use editor::env::Env;
use editor::pool::{NodeId, Pool, PoolNode, PoolVec};
use editor::region::{Located, Region};
use editor::scope::Scope;
use editor::subs::{Problem, VarStore, Variable};
use editor::symbol::{IdentIds, ModuleId};
use editor::types::{
    try_as_type_id, try_to_annotation2, try_to_type2, try_to_type_id, Alias, Annotation2, References, Signature,
    Type2,
};

fn env_from(next: u32) -> Env {
    Env {
        home: ModuleId(1),
        pool: Pool::new(),
        var_store: VarStore::new(next),
        ident_ids: IdentIds::new(),
        exposed_ident_ids: IdentIds::new(),
        modules: Vec::new(),
        problems: Vec::new(),
    }
}

fn r(line: u32) -> Region {
    Region { start_line: line, end_line: line, start_col: 0, end_col: 3 }
}

fn at<T>(line: u32, value: T) -> Located<T> {
    Located { region: r(line), value }
}

fn var(name: &str) -> TypeAnnotation {
    TypeAnnotation::BoundVariable(name.to_string())
}

#[test]
fn try_canonicalizes_what_completes() {
    let mut env = env_from(0);
    let mut scope = Scope::new(ModuleId(1));
    let mut refs = References::default();
    let ann = TypeAnnotation::Function(vec![at(1, var("a"))], Box::new(at(2, var("a"))));
    let t = try_to_type2(&mut env, &mut scope, &mut refs, &ann, r(0));
    assert_eq!(t, Some(Type2::Function(PoolVec { first: NodeId(0), len: 1 }, NodeId(2), NodeId(1))));
    let id = try_to_type_id(&mut env, &mut scope, &mut refs, &TypeAnnotation::Wildcard, r(3));
    assert_eq!(id, Some(NodeId(3)));
    let reserved = PoolVec::with_capacity(1, &mut env.pool);
    assert_eq!(try_as_type_id(&mut env, &mut scope, &mut refs, reserved.first, &var("a"), r(4)), Some(()));
    assert_eq!(env.pool.get(reserved.first), &PoolNode::Type(Type2::Variable(Variable(0))));
}

#[test]
fn try_fails_when_the_store_is_exhausted() {
    let mut env = env_from(u32::MAX);
    let mut scope = Scope::new(ModuleId(1));
    let mut refs = References::default();
    assert_eq!(try_to_type2(&mut env, &mut scope, &mut refs, &TypeAnnotation::Wildcard, r(0)), None);
    assert_eq!(try_to_type2(&mut env, &mut scope, &mut refs, &var("a"), r(0)), None);
    // an erroneous annotation needs no variable
    let as_lower = TypeAnnotation::As(Box::new(at(1, TypeAnnotation::Wildcard)), Box::new(at(2, var("p"))));
    assert_eq!(
        try_to_type2(&mut env, &mut scope, &mut refs, &as_lower, r(0)),
        Some(Type2::Erroneous(Problem::CanonicalizationProblem))
    );
}

#[test]
fn try_fails_on_a_fully_bound_as_alias() {
    // * as Point a
    let mut env = env_from(0);
    let mut scope = Scope::new(ModuleId(1));
    let mut refs = References::default();
    let header = TypeAnnotation::Apply(String::new(), "Point".to_string(), vec![at(3, var("a"))]);
    let ann = TypeAnnotation::As(Box::new(at(1, TypeAnnotation::Wildcard)), Box::new(at(2, header)));
    assert_eq!(try_to_type2(&mut env, &mut scope, &mut refs, &ann, r(0)), None);
}

#[test]
fn try_fails_on_an_alias_with_the_right_number_of_arguments() {
    let mut env = env_from(0);
    let mut scope = Scope::new(ModuleId(1));
    let pair = scope.introduce("Pair".to_string(), &IdentIds::new(), &mut env.ident_ids, r(9)).unwrap();
    scope.add_alias(
        pair,
        Alias {
            targs: PoolVec { first: NodeId(0), len: 1 },
            actual: NodeId(0),
            hidden_variables: PoolVec { first: NodeId(0), len: 0 },
        },
    );
    let mut refs = References::default();
    let ann = TypeAnnotation::Apply(String::new(), "Pair".to_string(), vec![at(1, var("a"))]);
    assert_eq!(try_to_type2(&mut env, &mut scope, &mut refs, &ann, r(0)), None);
    assert_eq!(try_to_annotation2(&mut env, &mut scope, &ann, r(0)), None);
}

#[test]
fn try_annotation_of_repeated_names_lists_each_once() {
    // a, a, *, * -> a
    let mut env = env_from(0);
    let mut scope = Scope::new(ModuleId(1));
    let ann = TypeAnnotation::Function(
        vec![at(1, var("a")), at(2, var("a")), at(3, TypeAnnotation::Wildcard), at(4, TypeAnnotation::Wildcard)],
        Box::new(at(5, var("a"))),
    );
    let result = try_to_annotation2(&mut env, &mut scope, &ann, r(0));
    assert_eq!(
        result,
        Some(Annotation2::Annotation {
            named_rigids: vec![("a".to_string(), Variable(0))],
            unnamed_rigids: vec![Variable(1), Variable(2)],
            symbols: vec![],
            signature: Signature::Function {
                arguments: PoolVec { first: NodeId(0), len: 4 },
                closure_type_id: NodeId(5),
                return_type_id: NodeId(4),
            },
        })
    );
    // every recorded variable was handed out by the store
    assert_eq!(env.var_store.next, 4);
}

fn canonicalize(ann: &TypeAnnotation) -> (Option<Type2>, Env, References) {
    let mut env = env_from(0);
    let mut scope = Scope::new(ModuleId(1));
    let mut refs = References::default();
    let t = try_to_type2(&mut env, &mut scope, &mut refs, ann, r(0));
    (t, env, refs)
}

fn same_outcome(a: &TypeAnnotation, b: &TypeAnnotation) {
    let (t1, env1, refs1) = canonicalize(a);
    let (t2, env2, refs2) = canonicalize(b);
    assert_eq!(t1, t2);
    assert_eq!(env1.pool.len(), env2.pool.len());
    for i in 0..env1.pool.len() as u32 {
        assert_eq!(env1.pool.get(NodeId(i)), env2.pool.get(NodeId(i)));
        assert_eq!(env1.pool.region(NodeId(i)), env2.pool.region(NodeId(i)));
    }
    assert_eq!(env1.problems, env2.problems);
    assert_eq!(env1.var_store.next, env2.var_store.next);
    assert_eq!(refs1.into_parts(), refs2.into_parts());
}

#[test]
fn malformed_fields_are_skipped() {
    let with = TypeAnnotation::Record {
        fields: vec![
            at(1, AssignedField::Malformed("?".to_string())),
            at(2, AssignedField::RequiredValue(at(2, "x".to_string()), Box::new(at(12, var("a"))))),
            at(3, AssignedField::SpaceBefore(Box::new(AssignedField::Malformed("!".to_string())))),
            at(4, AssignedField::LabelOnly(at(4, "x".to_string()))),
        ],
        ext: None,
    };
    let without = TypeAnnotation::Record {
        fields: vec![
            at(2, AssignedField::RequiredValue(at(2, "x".to_string()), Box::new(at(12, var("a"))))),
            at(4, AssignedField::LabelOnly(at(4, "x".to_string()))),
        ],
        ext: None,
    };
    same_outcome(&with, &without);
}

#[test]
fn malformed_tags_are_skipped() {
    let with = TypeAnnotation::TagUnion {
        tags: vec![
            at(1, Tag::Global { name: at(1, "A".to_string()), args: vec![at(11, var("a"))] }),
            at(2, Tag::SpaceAfter(Box::new(Tag::Malformed("?".to_string())))),
            at(3, Tag::Malformed("!".to_string())),
            at(4, Tag::Global { name: at(4, "A".to_string()), args: vec![] }),
        ],
        ext: None,
    };
    let without = TypeAnnotation::TagUnion {
        tags: vec![
            at(1, Tag::Global { name: at(1, "A".to_string()), args: vec![at(11, var("a"))] }),
            at(4, Tag::Global { name: at(4, "A".to_string()), args: vec![] }),
        ],
        ext: None,
    };
    same_outcome(&with, &without);
}

#[test]
fn spaces_are_transparent_whatever_the_annotation() {
    let inner = TypeAnnotation::Function(vec![at(1, var("a"))], Box::new(at(2, TypeAnnotation::Wildcard)));
    let inner2 = TypeAnnotation::Function(vec![at(1, var("a"))], Box::new(at(2, TypeAnnotation::Wildcard)));
    same_outcome(&TypeAnnotation::SpaceAfter(Box::new(inner)), &inner2);
}
