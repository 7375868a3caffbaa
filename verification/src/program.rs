//! Module and program containers: one source unit's top-level token
//! sequence together with its derived name→index symbol tables, and a
//! registry of modules addressable by name or by a monotonically assigned
//! numeric id.

use vstd::prelude::*;

use crate::token::Token;
use crate::validate_model::children_of;
use crate::validate_model::form_name;
use crate::validate_model::head_is;
use crate::validate_model::verrs_token;

verus! {

// ------------------------------------------------------------------
// Name → index tables
// ------------------------------------------------------------------

/// A name→index table with last-write-wins semantics: a later binding with
/// the same name overwrites the earlier index. Represented as an append-only
/// log of bindings, read from the newest end.
pub struct NameMap {
    entries: Vec<(String, usize)>,
}

/// The bindings a log of entries amounts to, newest entry winning.
pub open spec fn entries_map(s: Seq<(String, usize)>) -> Map<Seq<char>, usize>
    decreases s.len(),
{
    if s.len() == 0 {
        Map::empty()
    } else {
        entries_map(s.drop_last()).insert(s.last().0@, s.last().1)
    }
}

impl View for NameMap {
    type V = Map<Seq<char>, usize>;

    closed spec fn view(&self) -> Map<Seq<char>, usize> {
        entries_map(self.entries@)
    }
}

impl NameMap {
    pub fn new() -> (r: Self)
        ensures
            r@ == Map::<Seq<char>, usize>::empty(),
    {
        NameMap { entries: Vec::new() }
    }

    /// Binds `name` to `index`, overwriting any earlier binding.
    pub fn insert(&mut self, name: String, index: usize)
        ensures
            final(self)@ == old(self)@.insert(name@, index),
    {
        self.entries.push((name, index));
        proof {
            assert(self.entries@.drop_last() =~= old(self).entries@);
        }
    }

    /// Looks the newest binding of `name` up.
    pub fn get(&self, name: &String) -> (r: Option<usize>)
        ensures
            match r {
                Some(index) => self@.contains_key(name@) && self@[name@] == index,
                None => !self@.contains_key(name@),
            },
    {
        let mut k = self.entries.len();
        proof {
            assert(self.entries@.take(self.entries@.len() as int) =~= self.entries@);
        }
        while k > 0
            invariant
                0 <= k <= self.entries@.len(),
                entries_map(self.entries@).contains_key(name@) == entries_map(
                    self.entries@.take(k as int),
                ).contains_key(name@),
                entries_map(self.entries@).contains_key(name@) ==> entries_map(
                    self.entries@,
                )[name@] == entries_map(self.entries@.take(k as int))[name@],
            decreases k,
        {
            proof {
                assert(self.entries@.take(k as int).drop_last() =~= self.entries@.take(k - 1));
            }
            if self.entries[k - 1].0 == *name {
                return Some(self.entries[k - 1].1);
            }
            k = k - 1;
        }
        proof {
            assert(self.entries@.take(0) =~= Seq::<(String, usize)>::empty());
        }
        None
    }

    /// The number of bindings recorded, rebindings included.
    pub fn len(&self) -> usize {
        self.entries.len()
    }
}

// ------------------------------------------------------------------
// Symbol registration
// ------------------------------------------------------------------

/// The symbol table after walking the first `upto` top-level forms: a form
/// that validated without diagnostics and whose (possibly rewritten) head
/// reads `head` is registered by the identifier at its position 1, a later
/// binding overwriting an earlier one.
pub open spec fn registered_after(
    m0: Map<Seq<char>, usize>,
    head: Seq<char>,
    oldc: Seq<Token>,
    newc: Seq<Token>,
    upto: int,
) -> Map<Seq<char>, usize>
    decreases upto,
{
    if upto <= 0 {
        m0
    } else {
        let m = registered_after(m0, head, oldc, newc, upto - 1);
        let i = upto - 1;
        if oldc[i].kind is SExpr && verrs_token(oldc[i]).len() == 0 && newc[i].kind is SExpr
            && head_is(children_of(newc[i]), head) {
            m.insert(form_name(newc[i]), i as usize)
        } else {
            m
        }
    }
}

/// The bare-expressions list after walking the first `upto` top-level
/// forms: the index of every top-level token that is not a group.
pub open spec fn expressions_after(e0: Seq<usize>, oldc: Seq<Token>, upto: int) -> Seq<usize>
    decreases upto,
{
    if upto <= 0 {
        e0
    } else {
        let e = expressions_after(e0, oldc, upto - 1);
        if !(oldc[upto - 1].kind is SExpr) {
            e.push((upto - 1) as usize)
        } else {
            e
        }
    }
}

/// Registration reads only the first `upto` entries of either sequence.
pub proof fn lemma_registered_after_congruent(
    m0: Map<Seq<char>, usize>,
    head: Seq<char>,
    oldc: Seq<Token>,
    newc1: Seq<Token>,
    newc2: Seq<Token>,
    upto: int,
)
    requires
        forall|k: int| 0 <= k < upto ==> newc1[k] == newc2[k],
    ensures
        registered_after(m0, head, oldc, newc1, upto) == registered_after(
            m0,
            head,
            oldc,
            newc2,
            upto,
        ),
    decreases upto,
{
    if upto > 0 {
        lemma_registered_after_congruent(m0, head, oldc, newc1, newc2, upto - 1);
    }
}

// ------------------------------------------------------------------
// Modules
// ------------------------------------------------------------------

/// One source unit: its top-level token sequence plus derived symbol
/// tables. Every index stored in a table or in `expressions` points into
/// `code`.
pub struct Module {
    pub id: usize,
    pub name: String,
    pub code: Vec<Token>,
    pub variables: NameMap,
    pub procedures: NameMap,
    pub expressions: Vec<usize>,
}

impl Module {
    pub fn new(id: usize, name: String, code: Vec<Token>) -> (r: Self)
        ensures
            r.id == id,
            r.name == name,
            r.code == code,
            r.variables@ == Map::<Seq<char>, usize>::empty(),
            r.procedures@ == Map::<Seq<char>, usize>::empty(),
            r.expressions@ == Seq::<usize>::empty(),
    {
        Self {
            id,
            name,
            code,
            variables: NameMap::new(),
            procedures: NameMap::new(),
            expressions: Vec::new(),
        }
    }

    /// Appends an already-validated variable binding and registers it; the
    /// form must carry its name at position 1.
    pub fn add_variable(&mut self, code: Token)
        requires
            code.kind is SExpr,
            children_of(code).len() > 1,
            children_of(code)[1].kind is Identifier,
        ensures
            final(self).code@ == old(self).code@.push(code),
            final(self).variables@ == old(self).variables@.insert(
                form_name(code),
                old(self).code@.len() as usize,
            ),
            final(self).procedures == old(self).procedures,
            final(self).expressions == old(self).expressions,
            final(self).id == old(self).id,
            final(self).name == old(self).name,
    {
        let name = Self::binding_name(&code);
        self.code.push(code);
        self.variables.insert(name, self.code.len() - 1);
    }

    /// Appends an already-validated procedure definition and registers it.
    pub fn add_procedure(&mut self, code: Token)
        requires
            code.kind is SExpr,
            children_of(code).len() > 1,
            children_of(code)[1].kind is Identifier,
        ensures
            final(self).code@ == old(self).code@.push(code),
            final(self).procedures@ == old(self).procedures@.insert(
                form_name(code),
                old(self).code@.len() as usize,
            ),
            final(self).variables == old(self).variables,
            final(self).expressions == old(self).expressions,
            final(self).id == old(self).id,
            final(self).name == old(self).name,
    {
        let name = Self::binding_name(&code);
        self.code.push(code);
        self.procedures.insert(name, self.code.len() - 1);
    }

    /// Appends a free-standing expression and records its index.
    pub fn add_expression(&mut self, code: Token)
        ensures
            final(self).code@ == old(self).code@.push(code),
            final(self).expressions@ == old(self).expressions@.push(
                old(self).code@.len() as usize,
            ),
            final(self).variables == old(self).variables,
            final(self).procedures == old(self).procedures,
            final(self).id == old(self).id,
            final(self).name == old(self).name,
    {
        self.code.push(code);
        self.expressions.push(self.code.len() - 1);
    }

    /// The name a binding form is registered under.
    pub(crate) fn binding_name(code: &Token) -> (r: String)
        requires
            code.kind is SExpr,
            children_of(*code).len() > 1,
            children_of(*code)[1].kind is Identifier,
        ensures
            r@ == form_name(*code),
    {
        match code.sexpr() {
            Some(children) => {
                match children[1].identifier() {
                    Some(name) => name.clone(),
                    None => vstd::pervasive::unreached(),
                }
            },
            None => vstd::pervasive::unreached(),
        }
    }
}


// ------------------------------------------------------------------
// Programs
// ------------------------------------------------------------------

/// The registry of modules, addressable by name or by a monotonically
/// assigned numeric id (the index in the registry; ids are never reused).
pub struct Program {
    modules: Vec<Module>,
    module_lookup: NameMap,
}

impl Program {
    /// The registered modules, in id order.
    pub closed spec fn spec_modules(self) -> Seq<Module> {
        self.modules@
    }

    /// The name→id lookup table.
    pub closed spec fn spec_lookup(self) -> Map<Seq<char>, usize> {
        self.module_lookup@
    }

    pub fn new() -> (r: Self)
        ensures
            r.spec_modules() == Seq::<Module>::empty(),
            r.spec_lookup() == Map::<Seq<char>, usize>::empty(),
    {
        Self { modules: Vec::new(), module_lookup: NameMap::new() }
    }

    /// The range of valid module ids.
    pub fn get_ids(&self) -> (r: core::ops::Range<usize>)
        ensures
            r.start == 0,
            r.end == self.spec_modules().len(),
    {
        0..self.modules.len()
    }

    /// Registers a new module holding `code`, assigning it the next id.
    pub fn new_module(&mut self, name: String, code: Vec<Token>) -> (id: usize)
        ensures
            id == old(self).spec_modules().len(),
            final(self).spec_modules().len() == old(self).spec_modules().len() + 1,
            forall|i: int|
                0 <= i < old(self).spec_modules().len() ==> final(self).spec_modules()[i]
                    == old(self).spec_modules()[i],
            final(self).spec_modules()[id as int].id == id,
            final(self).spec_modules()[id as int].name == name,
            final(self).spec_modules()[id as int].code == code,
            final(self).spec_modules()[id as int].variables@ == Map::<Seq<char>, usize>::empty(),
            final(self).spec_modules()[id as int].procedures@ == Map::<
                Seq<char>,
                usize,
            >::empty(),
            final(self).spec_modules()[id as int].expressions@ == Seq::<usize>::empty(),
            final(self).spec_lookup() == old(self).spec_lookup().insert(name@, id),
    {
        let id = self.modules.len();
        self.module_lookup.insert(name.clone(), id);
        self.modules.push(Module::new(id, name, code));
        id
    }

    pub fn get_modules(&self) -> (r: &[Module])
        ensures
            r@ == self.spec_modules(),
    {
        self.modules.as_slice()
    }

    pub fn get_modules_mut(&mut self) -> (r: &mut Vec<Module>)
        ensures
            (*r)@ == old(self).spec_modules(),
            final(self).spec_modules() == final(r)@,
            final(self).spec_lookup() == old(self).spec_lookup(),
    {
        &mut self.modules
    }

    /// The id a module of this name was last registered under.
    pub fn get_module_id(&self, name: &String) -> (r: Option<usize>)
        ensures
            match r {
                Some(id) => self.spec_lookup().contains_key(name@) && self.spec_lookup()[name@]
                    == id,
                None => !self.spec_lookup().contains_key(name@),
            },
    {
        self.module_lookup.get(name)
    }

    pub fn get_module_by_name(&self, name: &String) -> (r: Option<&Module>)
        ensures
            match r {
                Some(m) => self.spec_lookup().contains_key(name@) && self.spec_lookup()[name@]
                    < self.spec_modules().len() && *m == self.spec_modules()[self.spec_lookup()[name@] as int],
                None => !self.spec_lookup().contains_key(name@) || self.spec_lookup()[name@]
                    >= self.spec_modules().len(),
            },
    {
        match self.module_lookup.get(name) {
            Some(id) => {
                if id < self.modules.len() {
                    Some(&self.modules[id])
                } else {
                    None
                }
            },
            None => None,
        }
    }

    pub fn get_module_by_name_mut(&mut self, name: &String) -> (r: Option<&mut Module>)
        ensures
            match r {
                Some(m) => {
                    &&& old(self).spec_lookup().contains_key(name@)
                    &&& old(self).spec_lookup()[name@] < old(self).spec_modules().len()
                    &&& *m == old(self).spec_modules()[old(self).spec_lookup()[name@] as int]
                    &&& final(self).spec_modules() == old(self).spec_modules().update(
                        old(self).spec_lookup()[name@] as int,
                        *final(m),
                    )
                    &&& final(self).spec_lookup() == old(self).spec_lookup()
                },
                None => {
                    &&& *final(self) == *old(self)
                    &&& (!old(self).spec_lookup().contains_key(name@) || old(
                        self,
                    ).spec_lookup()[name@] >= old(self).spec_modules().len())
                },
            },
    {
        match self.module_lookup.get(name) {
            Some(id) => {
                if id < self.modules.len() {
                    Some(&mut self.modules[id])
                } else {
                    None
                }
            },
            None => None,
        }
    }

    pub fn get_module_by_id(&self, id: usize) -> (r: Option<&Module>)
        ensures
            match r {
                Some(m) => id < self.spec_modules().len() && *m == self.spec_modules()[id as int],
                None => id >= self.spec_modules().len(),
            },
    {
        if id < self.modules.len() {
            Some(&self.modules[id])
        } else {
            None
        }
    }

    pub fn get_module_by_id_mut(&mut self, id: usize) -> (r: Option<&mut Module>)
        ensures
            match r {
                Some(m) => {
                    &&& id < old(self).spec_modules().len()
                    &&& *m == old(self).spec_modules()[id as int]
                    &&& final(self).spec_modules() == old(self).spec_modules().update(
                        id as int,
                        *final(m),
                    )
                    &&& final(self).spec_lookup() == old(self).spec_lookup()
                },
                None => *final(self) == *old(self) && id >= old(self).spec_modules().len(),
            },
    {
        if id < self.modules.len() {
            Some(&mut self.modules[id])
        } else {
            None
        }
    }
}

} // verus!
