//! Tables of the symbols and types that a program defines.
use vstd::prelude::*;
use crate::parser::Declaration;
use crate::syntax::{FunctionDefinition, IdentifierId, Type, TypeId};

verus! {

/// A map from names to values. Each name occurs at most once; inserting a
/// name that is present replaces its value.
#[derive(Debug)]
pub struct NameMap<V> {
    keys: Vec<String>,
    vals: Vec<V>,
}

impl<V: Copy> NameMap<V> {
    /// The keys and values are paired, and no key occurs twice.
    pub closed spec fn wf(&self) -> bool {
        &&& self.keys.len() == self.vals.len()
        &&& forall|i: int, j: int|
            0 <= i < j < self.keys.len() ==> #[trigger] self.keys@[i]@ != #[trigger] self.keys@[j]@
    }

    /// Where a name occurs among the keys.
    closed spec fn index_of(&self, k: Seq<char>) -> int {
        choose|i: int| 0 <= i < self.keys.len() && self.keys@[i]@ == k
    }

    /// The map from names to values.
    pub closed spec fn view(&self) -> Map<Seq<char>, V> {
        Map::new(
            |k: Seq<char>| exists|i: int| 0 <= i < self.keys.len() && self.keys@[i]@ == k,
            |k: Seq<char>| self.vals@[self.index_of(k)],
        )
    }

    proof fn lemma_index_of(&self, i: int)
        requires
            self.wf(),
            0 <= i < self.keys.len(),
        ensures
            self.index_of(self.keys@[i]@) == i,
            self.view().contains_key(self.keys@[i]@),
            self.view()[self.keys@[i]@] == self.vals@[i],
    {
        let k = self.keys@[i]@;
        assert(exists|j: int| 0 <= j < self.keys.len() && self.keys@[j]@ == k);
        let j = self.index_of(k);
        if j != i {
            if j < i {
                assert(self.keys@[j]@ != self.keys@[i]@);
            } else {
                assert(self.keys@[i]@ != self.keys@[j]@);
            }
        }
    }

    /// An empty map.
    pub fn new() -> (m: NameMap<V>)
        ensures
            m.wf(),
            m.view() == Map::<Seq<char>, V>::empty(),
    {
        let m = NameMap { keys: Vec::new(), vals: Vec::new() };
        assert(m.view() =~= Map::<Seq<char>, V>::empty());
        m
    }

    /// Maps `name` to `value`, replacing any value it had.
    pub fn insert(&mut self, name: String, value: V)
        requires
            old(self).wf(),
        ensures
            final(self).wf(),
            final(self).view() == old(self).view().insert(name@, value),
    {
        let ghost old_map = *self;
        let mut i: usize = 0;
        while i < self.keys.len()
            invariant
                *self == old_map,
                old_map == *old(self),
                old_map.wf(),
                i <= self.keys.len(),
                forall|j: int| 0 <= j < i ==> self.keys@[j]@ != name@,
            decreases self.keys.len() - i,
        {
            if self.keys[i] == name {
                self.vals.set(i, value);
                proof {
                    assert forall|k: Seq<char>| #[trigger] self.view().contains_key(k) == old_map.view().insert(name@, value).contains_key(k) by {
                        if exists|j: int| 0 <= j < old_map.keys.len() && old_map.keys@[j]@ == k {
                            let j = choose|j: int| 0 <= j < old_map.keys.len() && old_map.keys@[j]@ == k;
                            assert(self.keys@[j]@ == k);
                        }
                    }
                    assert forall|k: Seq<char>| #[trigger] self.view().contains_key(k) implies self.view()[k] == old_map.view().insert(name@, value)[k] by {
                        let j = choose|j: int| 0 <= j < self.keys.len() && self.keys@[j]@ == k;
                        self.lemma_index_of(j);
                        old_map.lemma_index_of(j);
                        if k == name@ {
                            self.lemma_index_of(i as int);
                        }
                    }
                    assert(self.view() =~= old_map.view().insert(name@, value));
                }
                return;
            }
            i += 1;
        }
        self.keys.push(name);
        self.vals.push(value);
        proof {
            let n = old_map.keys.len() as int;
            assert(self.keys@[n]@ == name@);
            assert forall|a: int, b: int| 0 <= a < b < self.keys.len() implies #[trigger] self.keys@[a]@ != #[trigger] self.keys@[b]@ by {
                if b < n {
                    assert(old_map.keys@[a] == self.keys@[a]);
                    assert(old_map.keys@[b] == self.keys@[b]);
                }
            }
            assert forall|k: Seq<char>| #[trigger] self.view().contains_key(k) == old_map.view().insert(name@, value).contains_key(k) by {
                if exists|j: int| 0 <= j < old_map.keys.len() && old_map.keys@[j]@ == k {
                    let j = choose|j: int| 0 <= j < old_map.keys.len() && old_map.keys@[j]@ == k;
                    assert(self.keys@[j]@ == k);
                }
                if exists|j: int| 0 <= j < self.keys.len() && self.keys@[j]@ == k {
                    let j = choose|j: int| 0 <= j < self.keys.len() && self.keys@[j]@ == k;
                    if j < n {
                        assert(old_map.keys@[j]@ == k);
                    }
                }
            }
            assert forall|k: Seq<char>| #[trigger] self.view().contains_key(k) implies self.view()[k] == old_map.view().insert(name@, value)[k] by {
                let j = choose|j: int| 0 <= j < self.keys.len() && self.keys@[j]@ == k;
                self.lemma_index_of(j);
                if j < n {
                    old_map.lemma_index_of(j);
                }
            }
            assert(self.view() =~= old_map.view().insert(name@, value));
        }
    }

    /// The value of `name`, if the map holds it.
    pub fn get(&self, name: &str) -> (r: Option<V>)
        requires
            self.wf(),
        ensures
            r == (if self.view().contains_key(name@) {
                Some(self.view()[name@])
            } else {
                None::<V>
            }),
    {
        let key = String::from_str(name);
        let mut i: usize = 0;
        while i < self.keys.len()
            invariant
                self.wf(),
                key@ == name@,
                i <= self.keys.len(),
                forall|j: int| 0 <= j < i ==> self.keys@[j]@ != name@,
            decreases self.keys.len() - i,
        {
            if self.keys[i] == key {
                proof {
                    self.lemma_index_of(i as int);
                }
                return Some(self.vals[i]);
            }
            i += 1;
        }
        assert(!self.view().contains_key(name@));
        None
    }
}

/// `m` maps each name that occurs in `names` to the index of its last
/// occurrence, and maps nothing else.
pub open spec fn indexes_last_occurrences(names: Seq<Seq<char>>, m: Map<Seq<char>, usize>) -> bool {
    &&& forall|k: Seq<char>| #[trigger] m.contains_key(k) <==> names.contains(k)
    &&& forall|k: Seq<char>|
        #[trigger] m.contains_key(k) ==> {
            &&& m[k] < names.len()
            &&& names[m[k] as int] == k
            &&& forall|j: int| m[k] < j < names.len() ==> names[j] != k
        }
}

/// Appending a name and mapping it to its index keeps every name mapped to
/// its last occurrence.
pub proof fn lemma_indexes_last_occurrences_push(names: Seq<Seq<char>>, m: Map<Seq<char>, usize>, n: Seq<char>)
    requires
        indexes_last_occurrences(names, m),
        names.len() <= usize::MAX,
    ensures
        indexes_last_occurrences(names.push(n), m.insert(n, names.len() as usize)),
{
    let names2 = names.push(n);
    let m2 = m.insert(n, names.len() as usize);
    assert forall|k: Seq<char>| #[trigger] m2.contains_key(k) <==> names2.contains(k) by {
        if names2.contains(k) {
            let i = choose|i: int| 0 <= i < names2.len() && names2[i] == k;
            if i < names.len() {
                assert(names.contains(k));
            }
        }
        if m.contains_key(k) {
            assert(names.contains(k));
            let i = choose|i: int| 0 <= i < names.len() && names[i] == k;
            assert(names2[i] == k);
        }
        if k == n {
            assert(names2[names.len() as int] == n);
        }
    }
}

/// What a symbol names: a constant or a function of the program.
#[derive(Clone, Copy, Debug)]
pub enum SymbolDefinition<'a> {
    Variable(&'a Declaration),
    Function(&'a FunctionDefinition),
}

/// A named definition.
#[derive(Debug)]
pub struct Symbol<'a> {
    pub name: String,
    pub definition: SymbolDefinition<'a>,
}

/// The names of a sequence of symbols.
pub open spec fn symbol_names<'a>(symbols: Seq<Symbol<'a>>) -> Seq<Seq<char>> {
    symbols.map_values(|s: Symbol<'a>| s.name@)
}

/// The indices of a map of identifier ids.
pub open spec fn identifier_indices(m: Map<Seq<char>, IdentifierId>) -> Map<Seq<char>, usize> {
    m.map_values(|id: IdentifierId| id.0)
}

/// The symbols of one scope, in the order in which they were defined, with
/// a map from each name to the last symbol of that name.
#[derive(Debug)]
pub struct SymbolTable<'a> {
    pub id_map: NameMap<IdentifierId>,
    pub symbols: Vec<Symbol<'a>>,
    pub parent: Option<&'a SymbolTable<'a>>,
}

impl<'a> SymbolTable<'a> {
    /// The map is consistent with the symbols: it maps each name to the
    /// index of the last symbol of that name.
    pub open spec fn wf(&self) -> bool {
        &&& self.id_map.wf()
        &&& indexes_last_occurrences(symbol_names(self.symbols@), identifier_indices(self.id_map.view()))
    }

    /// An empty table of the outermost scope.
    pub fn new() -> (t: Self)
        ensures
            t.wf(),
            t.symbols@.len() == 0,
            t.id_map.view() == Map::<Seq<char>, IdentifierId>::empty(),
            t.parent is None,
    {
        let t = SymbolTable { id_map: NameMap::new(), symbols: Vec::new(), parent: None };
        assert(identifier_indices(t.id_map.view()) =~= Map::<Seq<char>, usize>::empty());
        assert(symbol_names(t.symbols@) =~= Seq::<Seq<char>>::empty());
        t
    }

    /// An empty table of a scope nested in `parent`'s.
    pub fn with_parent(parent: &'a SymbolTable) -> (t: Self)
        ensures
            t.wf(),
            t.symbols@.len() == 0,
            t.id_map.view() == Map::<Seq<char>, IdentifierId>::empty(),
            t.parent == Some(parent),
    {
        let t = SymbolTable { id_map: NameMap::new(), symbols: Vec::new(), parent: Some(parent) };
        assert(identifier_indices(t.id_map.view()) =~= Map::<Seq<char>, usize>::empty());
        assert(symbol_names(t.symbols@) =~= Seq::<Seq<char>>::empty());
        t
    }

    /// Adds a symbol; its name now maps to it.
    pub fn push(&mut self, symbol: Symbol<'a>)
        requires
            old(self).id_map.wf(),
        ensures
            final(self).id_map.wf(),
            old(self).wf() ==> final(self).wf(),
            final(self).symbols@ == old(self).symbols@.push(symbol),
            final(self).id_map.view() == old(self).id_map.view().insert(
                symbol.name@,
                IdentifierId(old(self).symbols@.len() as usize),
            ),
            final(self).parent == old(self).parent,
    {
        let ghost names = symbol_names(self.symbols@);
        let ghost m = identifier_indices(self.id_map.view());
        let id = IdentifierId(self.symbols.len());
        self.id_map.insert(symbol.name.clone(), id);
        let ghost n = symbol.name@;
        self.symbols.push(symbol);
        proof {
            if indexes_last_occurrences(names, m) {
                lemma_indexes_last_occurrences_push(names, m, n);
            }
            assert(symbol_names(self.symbols@) =~= names.push(n));
            assert(identifier_indices(self.id_map.view()) =~= m.insert(n, names.len() as usize));
        }
    }
}

/// In a consistent symbol table, looking a name up finds the last symbol
/// defined with that name, and every name that some symbol has can be looked
/// up.
pub proof fn lemma_symbol_lookup<'a>(table: SymbolTable<'a>, name: Seq<char>)
    requires
        table.wf(),
    ensures
        table.id_map.view().contains_key(name) <==> exists|i: int|
            0 <= i < table.symbols@.len() && #[trigger] table.symbols@[i].name@ == name,
        table.id_map.view().contains_key(name) ==> {
            let i = table.id_map.view()[name].0 as int;
            &&& 0 <= i < table.symbols@.len()
            &&& table.symbols@[i].name@ == name
            &&& forall|j: int| i < j < table.symbols@.len() ==> #[trigger] table.symbols@[j].name@ != name
        },
{
    let names = symbol_names(table.symbols@);
    let m = identifier_indices(table.id_map.view());
    assert(table.id_map.view().contains_key(name) == m.contains_key(name));
    if names.contains(name) {
        let i = choose|i: int| 0 <= i < names.len() && names[i] == name;
        assert(table.symbols@[i].name@ == name);
    }
    if exists|i: int| 0 <= i < table.symbols@.len() && #[trigger] table.symbols@[i].name@ == name {
        let i = choose|i: int| 0 <= i < table.symbols@.len() && #[trigger] table.symbols@[i].name@ == name;
        assert(names[i] == name);
    }
    if m.contains_key(name) {
        assert forall|j: int| m[name] < j < table.symbols@.len() implies #[trigger] table.symbols@[j].name@ != name by {
            assert(names[j] == table.symbols@[j].name@);
        }
    }
}

/// The names of a sequence of types.
pub open spec fn type_names(types: Seq<Type>) -> Seq<Seq<char>> {
    types.map_values(|t: Type| t.name_view())
}

/// The indices of a map of type ids.
pub open spec fn type_indices(m: Map<Seq<char>, TypeId>) -> Map<Seq<char>, usize> {
    m.map_values(|id: TypeId| id.0)
}

/// The types of a program, in the order in which they were defined, with a
/// map from each name to the last type of that name.
#[derive(Debug)]
pub struct TypeTable {
    pub types: Vec<Type>,
    pub id_map: NameMap<TypeId>,
}

impl TypeTable {
    /// The map is consistent with the types: it maps each name to the index
    /// of the last type of that name.
    pub open spec fn wf(&self) -> bool {
        &&& self.id_map.wf()
        &&& indexes_last_occurrences(type_names(self.types@), type_indices(self.id_map.view()))
    }

    /// An empty table.
    pub fn new() -> (t: Self)
        ensures
            t.wf(),
            t.types@.len() == 0,
            t.id_map.view() == Map::<Seq<char>, TypeId>::empty(),
    {
        let t = TypeTable { types: Vec::new(), id_map: NameMap::new() };
        assert(type_indices(t.id_map.view()) =~= Map::<Seq<char>, usize>::empty());
        assert(type_names(t.types@) =~= Seq::<Seq<char>>::empty());
        t
    }

    /// Adds a type; its name now maps to it.
    pub fn push(&mut self, ty: Type)
        requires
            old(self).id_map.wf(),
        ensures
            final(self).id_map.wf(),
            old(self).wf() ==> final(self).wf(),
            final(self).types@ == old(self).types@.push(ty),
            final(self).id_map.view() == old(self).id_map.view().insert(
                ty.name_view(),
                TypeId(old(self).types@.len() as usize),
            ),
    {
        let ghost names = type_names(self.types@);
        let ghost m = type_indices(self.id_map.view());
        let ghost n = ty.name_view();
        let id = TypeId(self.types.len());
        self.id_map.insert(String::from_str(ty.name()), id);
        self.types.push(ty);
        proof {
            if indexes_last_occurrences(names, m) {
                lemma_indexes_last_occurrences_push(names, m, n);
            }
            assert(type_names(self.types@) =~= names.push(n));
            assert(type_indices(self.id_map.view()) =~= m.insert(n, names.len() as usize));
        }
    }
}

} // verus!
