use vstd::prelude::*;

verus! {

/// The id of a module.
#[derive(Clone, Copy, Debug, PartialEq, Eq, Structural)]
pub struct ModuleId(pub u32);

/// The id of an identifier within a module.
#[derive(Clone, Copy, Debug, PartialEq, Eq, Structural)]
pub struct IdentId(pub u32);

/// A fully qualified name: a module and an identifier in it.
#[derive(Clone, Copy, Debug, PartialEq, Eq, Structural)]
pub struct Symbol {
    pub module_id: ModuleId,
    pub ident_id: IdentId,
}

impl Symbol {
    pub fn new(module_id: ModuleId, ident_id: IdentId) -> (s: Symbol)
        ensures
            s == (Symbol { module_id, ident_id }),
    {
        Symbol { module_id, ident_id }
    }
}

/// The identifiers of a module; the id of an identifier is its position.
pub struct IdentIds {
    by_id: Vec<String>,
}

impl View for IdentIds {
    type V = Seq<String>;

    closed spec fn view(&self) -> Seq<String> {
        self.by_id@
    }
}

/// The id under which `name` was added last, if it was added at all.
pub open spec fn spec_get_id(ids: Seq<String>, name: Seq<char>) -> Option<IdentId>
    decreases ids.len(),
{
    if ids.len() == 0 {
        None
    } else if ids.last()@ == name {
        Some(IdentId((ids.len() - 1) as u32))
    } else {
        spec_get_id(ids.drop_last(), name)
    }
}

impl IdentIds {
    pub fn new() -> (r: IdentIds)
        ensures
            r@ == Seq::<String>::empty(),
    {
        IdentIds { by_id: Vec::new() }
    }

    pub fn len(&self) -> (n: usize)
        ensures
            n == self@.len(),
    {
        self.by_id.len()
    }

    /// Adds `name` as a new identifier and returns its id.
    pub fn add(&mut self, name: String) -> (id: IdentId)
        requires
            old(self)@.len() < u32::MAX,
        ensures
            id == IdentId(old(self)@.len() as u32),
            final(self)@ == old(self)@.push(name),
    {
        let id = IdentId(self.by_id.len() as u32);
        self.by_id.push(name);
        id
    }

    /// The id of `name`, where it was added (the last one, if it was added twice).
    pub fn get_id(&self, name: &String) -> (r: Option<IdentId>)
        ensures
            r == spec_get_id(self@, name@),
    {
        let mut i = self.by_id.len();
        assert(self@.subrange(0, i as int) =~= self@);
        while i > 0
            invariant
                i <= self.by_id@.len(),
                spec_get_id(self@, name@) == spec_get_id(self@.subrange(0, i as int), name@),
            decreases i,
        {
            let ghost prefix = self@.subrange(0, i as int);
            assert(prefix.drop_last() =~= self@.subrange(0, i - 1));
            if self.by_id[i - 1] == *name {
                return Some(IdentId((i - 1) as u32));
            }
            i = i - 1;
        }
        assert(self@.subrange(0, 0) =~= Seq::<String>::empty());
        None
    }

    /// The name of the identifier with the given id.
    pub fn get_name(&self, id: IdentId) -> (r: Option<&String>)
        ensures
            r == (if (id.0 as int) < self@.len() { Some(&self@[id.0 as int]) } else { None }),
    {
        if (id.0 as usize) < self.by_id.len() {
            Some(&self.by_id[id.0 as usize])
        } else {
            None
        }
    }
}

/// The name of a tag in a tag union.
#[derive(Clone, Debug, PartialEq, Eq)]
pub enum TagName {
    Global(String),
    Private(Symbol),
}

} // verus!
