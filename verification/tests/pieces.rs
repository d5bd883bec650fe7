use editor::env::{Env, ModuleEntry};
use editor::pool::{NodeId, Pool, PoolNode, PoolStr, PoolVec};
use editor::problem::RuntimeError;
use editor::region::{Located, Region};
use editor::scope::Scope;
use editor::subs::{VarStore, Variable};
use editor::symbol::{IdentId, IdentIds, ModuleId, Symbol};

fn r(line: u32) -> Region {
    Region { start_line: line, end_line: line, start_col: 1, end_col: 2 }
}

#[test]
fn ident_ids_give_the_last_id_of_a_name() {
    let mut ids = IdentIds::new();
    assert_eq!(ids.add("a".to_string()), IdentId(0));
    assert_eq!(ids.add("b".to_string()), IdentId(1));
    assert_eq!(ids.add("a".to_string()), IdentId(2));
    assert_eq!(ids.get_id(&"a".to_string()), Some(IdentId(2)));
    assert_eq!(ids.get_id(&"b".to_string()), Some(IdentId(1)));
    assert_eq!(ids.get_id(&"c".to_string()), None);
    assert_eq!(ids.get_name(IdentId(1)), Some(&"b".to_string()));
    assert_eq!(ids.get_name(IdentId(3)), None);
    assert_eq!(ids.len(), 3);
}

#[test]
fn scope_introduce_and_shadowing() {
    let mut scope = Scope::new(ModuleId(4));
    let mut exposed = IdentIds::new();
    exposed.add("Shown".to_string());
    let mut all = IdentIds::new();
    all.add("x".to_string());
    // an exposed name keeps its exposed id
    let shown = scope.introduce("Shown".to_string(), &exposed, &mut all, r(1)).unwrap();
    assert_eq!(shown, Symbol { module_id: ModuleId(4), ident_id: IdentId(0) });
    // another name gets a new id of the module
    let hidden = scope.introduce("Hidden".to_string(), &exposed, &mut all, r(2)).unwrap();
    assert_eq!(hidden, Symbol { module_id: ModuleId(4), ident_id: IdentId(1) });
    assert_eq!(all.len(), 2);
    // a second binding is refused with the first binding's region
    let again = scope.introduce("Hidden".to_string(), &exposed, &mut all, r(3));
    assert_eq!(again, Err((r(2), Located { region: r(3), value: "Hidden".to_string() })));
    assert_eq!(scope.lookup(&"Shown".to_string(), r(5)), Ok(shown));
    assert_eq!(
        scope.lookup(&"Nope".to_string(), r(5)),
        Err(RuntimeError::LookupNotInScope(Located { region: r(5), value: "Nope".to_string() }))
    );
    assert_eq!(scope.lookup_alias(shown), None);
}

#[test]
fn pool_add_reserve_set() {
    let mut pool = Pool::new();
    let a = pool.add(PoolNode::Var(Variable(7)));
    assert_eq!(a, NodeId(0));
    let run = PoolVec::with_capacity(3, &mut pool);
    assert_eq!(run, PoolVec { first: NodeId(1), len: 3 });
    assert_eq!(pool.len(), 4);
    assert_eq!(run.node_id(2), NodeId(3));
    assert_eq!(pool.get(NodeId(2)), &PoolNode::Reserved);
    let name = PoolStr::new(&"label".to_string(), &mut pool);
    assert_eq!(name, PoolStr { node: NodeId(4) });
    pool.set(NodeId(2), PoolNode::Var(Variable(9)));
    pool.set_region(NodeId(2), r(8));
    assert_eq!(pool.get(NodeId(2)), &PoolNode::Var(Variable(9)));
    assert_eq!(pool.region(NodeId(2)), Some(r(8)));
    // overwriting a node keeps its region
    pool.set(NodeId(2), PoolNode::Var(Variable(10)));
    assert_eq!(pool.region(NodeId(2)), Some(r(8)));
    assert_eq!(pool.get(NodeId(4)), &PoolNode::Str("label".to_string()));
    assert_eq!(pool.get(NodeId(0)), &PoolNode::Var(Variable(7)));
}

#[test]
fn var_store_hands_out_new_variables() {
    let mut store = VarStore::new(41);
    assert_eq!(store.fresh(), Variable(41));
    assert_eq!(store.fresh(), Variable(42));
    assert_eq!(store.next, 43);
}

#[test]
fn env_qualified_lookup_first_module_of_a_name() {
    let mut exposed_a = IdentIds::new();
    exposed_a.add("T".to_string());
    let env = Env {
        home: ModuleId(1),
        pool: Pool::new(),
        var_store: VarStore::new(0),
        ident_ids: IdentIds::new(),
        exposed_ident_ids: IdentIds::new(),
        modules: vec![
            ModuleEntry { name: "A".to_string(), id: ModuleId(2), exposed: exposed_a },
            ModuleEntry { name: "A".to_string(), id: ModuleId(3), exposed: IdentIds::new() },
        ],
        problems: vec![],
    };
    assert_eq!(
        env.qualified_lookup(&"A".to_string(), &"T".to_string(), r(0)),
        Ok(Symbol { module_id: ModuleId(2), ident_id: IdentId(0) })
    );
    assert_eq!(
        env.qualified_lookup(&"B".to_string(), &"T".to_string(), r(0)),
        Err(RuntimeError::ModuleNotImported { module_name: "B".to_string(), region: r(0) })
    );
}

#[test]
fn env_add_records_region() {
    let mut env = Env {
        home: ModuleId(1),
        pool: Pool::new(),
        var_store: VarStore::new(0),
        ident_ids: IdentIds::new(),
        exposed_ident_ids: IdentIds::new(),
        modules: vec![],
        problems: vec![],
    };
    let id = env.add(editor::types::Type2::EmptyRec, r(3));
    assert_eq!(id, NodeId(0));
    assert_eq!(env.pool.region(id), Some(r(3)));
    assert_eq!(Region::zero(), Region { start_line: 0, end_line: 0, start_col: 0, end_col: 0 });
}
