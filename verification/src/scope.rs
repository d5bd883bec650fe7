use vstd::prelude::*;
use crate::problem::RuntimeError;
use crate::region::{Located, Region};
use crate::symbol::{spec_get_id, IdentId, IdentIds, ModuleId, Symbol};
use crate::types::Alias;

verus! {

/// A name bound in a scope, its symbol, and where it was bound.
#[derive(Debug)]
pub struct ScopeIdent {
    pub name: String,
    pub symbol: Symbol,
    pub region: Region,
}

/// The names and aliases visible where an annotation stands.
pub struct Scope {
    home: ModuleId,
    idents: Vec<ScopeIdent>,
    aliases: Vec<(Symbol, Alias)>,
}

/// The contents of a scope.
pub struct ScopeModel {
    pub home: ModuleId,
    pub idents: Seq<ScopeIdent>,
    pub aliases: Seq<(Symbol, Alias)>,
}

impl View for Scope {
    type V = ScopeModel;

    closed spec fn view(&self) -> ScopeModel {
        ScopeModel { home: self.home, idents: self.idents@, aliases: self.aliases@ }
    }
}

/// The first binding of `name` among `idents`.
pub open spec fn spec_find_ident(idents: Seq<ScopeIdent>, name: Seq<char>) -> Option<ScopeIdent>
    decreases idents.len(),
{
    if idents.len() == 0 {
        None
    } else if idents[0].name@ == name {
        Some(idents[0])
    } else {
        spec_find_ident(idents.drop_first(), name)
    }
}

/// The first alias recorded for `symbol`.
pub open spec fn spec_find_alias(aliases: Seq<(Symbol, Alias)>, symbol: Symbol) -> Option<Alias>
    decreases aliases.len(),
{
    if aliases.len() == 0 {
        None
    } else if aliases[0].0 == symbol {
        Some(aliases[0].1)
    } else {
        spec_find_alias(aliases.drop_first(), symbol)
    }
}

/// What looking `ident` up in the scope gives.
pub open spec fn spec_scope_lookup(scope: ScopeModel, ident: String, region: Region) -> Result<Symbol, RuntimeError> {
    match spec_find_ident(scope.idents, ident@) {
        Some(entry) => Ok(entry.symbol),
        None => Err(RuntimeError::LookupNotInScope(Located { region, value: ident })),
    }
}

/// The outcome of introducing `ident` at `region`: the new scope, the new
/// identifiers of the module, and the symbol or the shadowing error; `None`
/// where the module's identifiers are full.
pub open spec fn spec_introduce(
    scope: ScopeModel,
    exposed: Seq<String>,
    all: Seq<String>,
    ident: String,
    region: Region,
) -> Option<(ScopeModel, Seq<String>, Result<Symbol, (Region, Located<String>)>)> {
    match spec_find_ident(scope.idents, ident@) {
        Some(entry) => Some((scope, all, Err((entry.region, Located { region, value: ident })))),
        None => {
            let found = spec_get_id(exposed, ident@);
            if found is None && all.len() >= u32::MAX {
                None
            } else {
                let (all2, id) = match found {
                    Some(id) => (all, id),
                    None => (all.push(ident), IdentId(all.len() as u32)),
                };
                let symbol = Symbol { module_id: scope.home, ident_id: id };
                let entry = ScopeIdent { name: ident, symbol, region };
                Some((ScopeModel { idents: scope.idents.push(entry), ..scope }, all2, Ok(symbol)))
            }
        },
    }
}

impl Scope {
    /// An empty scope for the module `home`.
    pub fn new(home: ModuleId) -> (s: Scope)
        ensures
            s@.home == home,
            s@.idents == Seq::<ScopeIdent>::empty(),
            s@.aliases == Seq::<(Symbol, Alias)>::empty(),
    {
        Scope { home, idents: Vec::new(), aliases: Vec::new() }
    }

    /// Records `alias` as the alias that `symbol` names.
    pub fn add_alias(&mut self, symbol: Symbol, alias: Alias)
        ensures
            final(self)@ == (ScopeModel { aliases: old(self)@.aliases.push((symbol, alias)), ..old(self)@ }),
    {
        self.aliases.push((symbol, alias));
    }

    fn find_ident(&self, ident: &String) -> (r: Option<usize>)
        ensures
            match r {
                Some(i) => i < self.idents@.len() && spec_find_ident(self@.idents, ident@) == Some(self.idents@[i as int]),
                None => spec_find_ident(self@.idents, ident@) is None,
            },
    {
        let mut i: usize = 0;
        assert(self.idents@.subrange(0, self.idents@.len() as int) =~= self.idents@);
        while i < self.idents.len()
            invariant
                i <= self.idents@.len(),
                spec_find_ident(self@.idents, ident@) == spec_find_ident(self.idents@.subrange(i as int, self.idents@.len() as int), ident@),
            decreases self.idents@.len() - i,
        {
            let ghost rest = self.idents@.subrange(i as int, self.idents@.len() as int);
            assert(rest.drop_first() =~= self.idents@.subrange(i + 1, self.idents@.len() as int));
            if self.idents[i].name == *ident {
                return Some(i);
            }
            i = i + 1;
        }
        None
    }

    /// The symbol bound to `ident`.
    pub fn lookup(&self, ident: &String, region: Region) -> (r: Result<Symbol, RuntimeError>)
        ensures
            r == spec_scope_lookup(self@, *ident, region),
    {
        match self.find_ident(ident) {
            Some(i) => Ok(self.idents[i].symbol),
            None => Err(RuntimeError::LookupNotInScope(Located { region, value: ident.clone() })),
        }
    }

    /// Binds `ident` to a symbol of the home module, unless it is bound already,
    /// in which case the region of the earlier binding and the new one come back;
    /// `None` where the module's identifiers are full.
    pub fn try_introduce(
        &mut self,
        ident: String,
        exposed_ident_ids: &IdentIds,
        all_ident_ids: &mut IdentIds,
        region: Region,
    ) -> (r: Option<Result<Symbol, (Region, Located<String>)>>)
        ensures
            match r {
                Some(x) => spec_introduce(old(self)@, exposed_ident_ids@, old(all_ident_ids)@, ident, region)
                    == Some((final(self)@, final(all_ident_ids)@, x)),
                None => spec_introduce(old(self)@, exposed_ident_ids@, old(all_ident_ids)@, ident, region) is None,
            },
    {
        match self.find_ident(&ident) {
            Some(i) => {
                let original_region = self.idents[i].region;
                Some(Err((original_region, Located { region, value: ident })))
            },
            None => {
                let ident_id = match exposed_ident_ids.get_id(&ident) {
                    Some(id) => id,
                    None => {
                        if all_ident_ids.len() >= u32::MAX as usize {
                            return None;
                        }
                        all_ident_ids.add(ident.clone())
                    },
                };
                let symbol = Symbol::new(self.home, ident_id);
                self.idents.push(ScopeIdent { name: ident, symbol, region });
                Some(Ok(symbol))
            },
        }
    }

    /// Binds `ident` to a symbol of the home module, unless it is bound already,
    /// in which case the region of the earlier binding and the new one come back.
    pub fn introduce(
        &mut self,
        ident: String,
        exposed_ident_ids: &IdentIds,
        all_ident_ids: &mut IdentIds,
        region: Region,
    ) -> (r: Result<Symbol, (Region, Located<String>)>)
        requires
            spec_introduce(old(self)@, exposed_ident_ids@, old(all_ident_ids)@, ident, region) is Some,
        ensures
            spec_introduce(old(self)@, exposed_ident_ids@, old(all_ident_ids)@, ident, region)
                == Some((final(self)@, final(all_ident_ids)@, r)),
    {
        match self.try_introduce(ident, exposed_ident_ids, all_ident_ids, region) {
            Some(r) => r,
            None => {
                assert(false);
                Err((region, Located { region, value: String::new() }))
            },
        }
    }

    /// The alias that `symbol` names, if any.
    pub fn lookup_alias(&self, symbol: Symbol) -> (r: Option<Alias>)
        ensures
            r == spec_find_alias(self@.aliases, symbol),
    {
        let mut i: usize = 0;
        assert(self.aliases@.subrange(0, self.aliases@.len() as int) =~= self.aliases@);
        while i < self.aliases.len()
            invariant
                i <= self.aliases@.len(),
                spec_find_alias(self@.aliases, symbol) == spec_find_alias(self.aliases@.subrange(i as int, self.aliases@.len() as int), symbol),
            decreases self.aliases@.len() - i,
        {
            let ghost rest = self.aliases@.subrange(i as int, self.aliases@.len() as int);
            assert(rest.drop_first() =~= self.aliases@.subrange(i + 1, self.aliases@.len() as int));
            if self.aliases[i].0 == symbol {
                return Some(self.aliases[i].1);
            }
            i = i + 1;
        }
        None
    }
}

} // verus!
