use vstd::prelude::*;
use crate::pool::{spec_pool_add, spec_pool_set_region, NodeId, Pool, PoolNode, PoolSlot};
use crate::problem::{CanProblem, RuntimeError};
use crate::region::{Located, Region};
use crate::subs::VarStore;
use crate::symbol::{spec_get_id, IdentIds, ModuleId, Symbol};
use crate::types::Type2;

verus! {

/// A module whose names can be used qualified: its name, its id and the
/// identifiers it exposes.
pub struct ModuleEntry {
    pub name: String,
    pub id: ModuleId,
    pub exposed: IdentIds,
}

/// The state that canonicalization reads and changes, apart from the scope.
pub struct Env {
    /// The module being canonicalized.
    pub home: ModuleId,
    pub pool: Pool,
    pub var_store: VarStore,
    /// All identifiers of the home module.
    pub ident_ids: IdentIds,
    /// The identifiers that the home module exposes.
    pub exposed_ident_ids: IdentIds,
    /// The modules that qualified names can refer to.
    pub modules: Vec<ModuleEntry>,
    /// The problems reported so far.
    pub problems: Vec<CanProblem>,
}

/// The contents of an environment.
pub struct EnvModel {
    pub home: ModuleId,
    pub nodes: Seq<PoolSlot>,
    pub next_var: u32,
    pub ident_ids: Seq<String>,
    pub exposed_ident_ids: Seq<String>,
    pub modules: Seq<ModuleEntry>,
    pub problems: Seq<CanProblem>,
}

impl View for Env {
    type V = EnvModel;

    open spec fn view(&self) -> EnvModel {
        EnvModel {
            home: self.home,
            nodes: self.pool@,
            next_var: self.var_store.next,
            ident_ids: self.ident_ids@,
            exposed_ident_ids: self.exposed_ident_ids@,
            modules: self.modules@,
            problems: self.problems@,
        }
    }
}

/// The first module named `name`.
pub open spec fn spec_find_module(modules: Seq<ModuleEntry>, name: Seq<char>) -> Option<ModuleEntry>
    decreases modules.len(),
{
    if modules.len() == 0 {
        None
    } else if modules[0].name@ == name {
        Some(modules[0])
    } else {
        spec_find_module(modules.drop_first(), name)
    }
}

/// What looking up `module_name.ident` gives: a name of the home module is
/// looked up among all its identifiers, a name of another module among those
/// that it exposes.
pub open spec fn spec_qualified_lookup(env: EnvModel, module_name: String, ident: String, region: Region) -> Result<Symbol, RuntimeError> {
    match spec_find_module(env.modules, module_name@) {
        None => Err(RuntimeError::ModuleNotImported { module_name, region }),
        Some(m) => {
            if m.id == env.home {
                match spec_get_id(env.ident_ids, ident@) {
                    Some(id) => Ok(Symbol { module_id: m.id, ident_id: id }),
                    None => Err(RuntimeError::LookupNotInScope(Located { region, value: ident })),
                }
            } else {
                match spec_get_id(m.exposed@, ident@) {
                    Some(id) => Ok(Symbol { module_id: m.id, ident_id: id }),
                    None => Err(RuntimeError::ValueNotExposed { module_name, ident, region }),
                }
            }
        },
    }
}

impl Env {
    /// Reports a problem.
    pub fn problem(&mut self, problem: CanProblem)
        ensures
            final(self)@ == (EnvModel { problems: old(self)@.problems.push(problem), ..old(self)@ }),
    {
        self.problems.push(problem);
    }

    /// Adds a type to the pool, recording the region it came from.
    pub fn add(&mut self, t: Type2, region: Region) -> (id: NodeId)
        requires
            old(self)@.nodes.len() < u32::MAX,
        ensures
            id == NodeId(old(self)@.nodes.len() as u32),
            final(self)@ == (EnvModel {
                nodes: spec_pool_set_region(spec_pool_add(old(self)@.nodes, PoolNode::Type(t)), id, region),
                ..old(self)@
            }),
    {
        let id = self.pool.add(PoolNode::Type(t));
        self.pool.set_region(id, region);
        id
    }

    /// Records the region that node `id` came from.
    pub fn set_region(&mut self, id: NodeId, region: Region)
        requires
            (id.0 as int) < old(self)@.nodes.len(),
        ensures
            final(self)@ == (EnvModel { nodes: spec_pool_set_region(old(self)@.nodes, id, region), ..old(self)@ }),
    {
        self.pool.set_region(id, region);
    }

    fn find_module(&self, name: &String) -> (r: Option<usize>)
        ensures
            match r {
                Some(i) => i < self.modules@.len() && spec_find_module(self.modules@, name@) == Some(self.modules@[i as int]),
                None => spec_find_module(self.modules@, name@) is None,
            },
    {
        let mut i: usize = 0;
        assert(self.modules@.subrange(0, self.modules@.len() as int) =~= self.modules@);
        while i < self.modules.len()
            invariant
                i <= self.modules@.len(),
                spec_find_module(self.modules@, name@) == spec_find_module(self.modules@.subrange(i as int, self.modules@.len() as int), name@),
            decreases self.modules@.len() - i,
        {
            let ghost rest = self.modules@.subrange(i as int, self.modules@.len() as int);
            assert(rest.drop_first() =~= self.modules@.subrange(i + 1, self.modules@.len() as int));
            if self.modules[i].name == *name {
                return Some(i);
            }
            i = i + 1;
        }
        None
    }

    /// Resolves the qualified name `module_name.ident`.
    pub fn qualified_lookup(&self, module_name: &String, ident: &String, region: Region) -> (r: Result<Symbol, RuntimeError>)
        ensures
            r == spec_qualified_lookup(self@, *module_name, *ident, region),
    {
        match self.find_module(module_name) {
            None => Err(RuntimeError::ModuleNotImported { module_name: module_name.clone(), region }),
            Some(i) => {
                let m = &self.modules[i];
                if m.id == self.home {
                    match self.ident_ids.get_id(ident) {
                        Some(id) => Ok(Symbol::new(m.id, id)),
                        None => Err(RuntimeError::LookupNotInScope(Located { region, value: ident.clone() })),
                    }
                } else {
                    match m.exposed.get_id(ident) {
                        Some(id) => Ok(Symbol::new(m.id, id)),
                        None => Err(RuntimeError::ValueNotExposed {
                            module_name: module_name.clone(),
                            ident: ident.clone(),
                            region,
                        }),
                    }
                }
            },
        }
    }
}

} // verus!
