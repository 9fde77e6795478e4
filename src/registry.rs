use vstd::prelude::*;
use crate::block_state::{BlockState, prop_view};
use crate::errors::{BlockStateError, RegistryError, StateError};

verus! {

/// The registry's record of a block type: its id, hardness and default state properties.
#[derive(Debug, Clone)]
pub struct Block {
    id: String,
    hardness: u32,
    default_state: Vec<(String, String)>,
    states: Vec<BlockStateAsset>,
}

impl Block {
    pub closed spec fn id_spec(&self) -> Seq<char> {
        self.id@
    }

    pub closed spec fn default_props(&self) -> Seq<(Seq<char>, Seq<char>)> {
        self.default_state@.map_values(|p: (String, String)| prop_view(p))
    }

    pub fn new(id: &str, hardness: u32, default_state: Vec<(String, String)>) -> (r: Block)
        ensures
            r.id_spec() == id@,
            r.default_props() == default_state@.map_values(|p: (String, String)| prop_view(p)),
    {
        Block { id: id.to_owned(), hardness, default_state, states: Vec::new() }
    }

    /// A block type whose state properties are defined by `states`.
    pub fn with_states(id: &str, hardness: u32, default_state: Vec<(String, String)>, states: Vec<BlockStateAsset>) -> (r: Block)
        ensures
            r.id_spec() == id@,
            r.default_props() == default_state@.map_values(|p: (String, String)| prop_view(p)),
            r.states_spec() == states@,
    {
        Block { id: id.to_owned(), hardness, default_state, states }
    }

    pub closed spec fn states_spec(&self) -> Seq<BlockStateAsset> {
        self.states@
    }

    /// The definitions of this block type's state properties.
    pub fn get_states(&self) -> (r: &Vec<BlockStateAsset>)
        ensures
            r@ == self.states_spec(),
    {
        &self.states
    }

    /// The block every registry starts with: the empty block, `air`.
    pub fn make_initial() -> (r: Block)
        ensures
            r.id_spec() == crate::block_state::air_id(),
            r.default_props().len() == 0,
    {
        let id = String::from_str("air");
        proof {
            reveal_strlit("air");
            assert(id@ =~= crate::block_state::air_id());
        }
        let r = Block { id, hardness: 0, default_state: Vec::new(), states: Vec::new() };
        assert(r.default_props() =~= Seq::empty());
        r
    }

    pub fn get_id(&self) -> (r: &str)
        ensures
            r@ == self.id_spec(),
    {
        self.id.as_str()
    }

    pub closed spec fn hardness_spec(&self) -> u32 {
        self.hardness
    }

    pub fn get_hardness(&self) -> (r: u32)
        ensures
            r == self.hardness_spec(),
    {
        self.hardness
    }

    pub fn get_default_state(&self) -> (r: &Vec<(String, String)>)
        ensures
            r@.map_values(|p: (String, String)| prop_view(p)) == self.default_props(),
    {
        &self.default_state
    }
}

/// Block types by id, each id at most once. Once frozen it takes no more entries.
#[derive(Debug)]
pub struct Registry {
    name: String,
    map: Vec<Block>,
    frozen: bool,
}

impl Registry {
    pub closed spec fn entries(&self) -> Seq<Block> {
        self.map@
    }

    pub closed spec fn frozen_spec(&self) -> bool {
        self.frozen
    }

    pub closed spec fn name_spec(&self) -> Seq<char> {
        self.name@
    }

    pub open spec fn wf(&self) -> bool {
        forall|i: int, j: int|
            0 <= i < j < self.entries().len() ==> (#[trigger] self.entries()[i]).id_spec()
                != (#[trigger] self.entries()[j]).id_spec()
    }

    /// Whether a block type with id `id` is registered.
    pub open spec fn has(&self, id: Seq<char>) -> bool {
        exists|i: int| 0 <= i < self.entries().len() && (#[trigger] self.entries()[i]).id_spec() == id
    }

    /// The block type registered under `id`.
    pub open spec fn block(&self, id: Seq<char>) -> Block {
        self.entries()[choose|i: int| 0 <= i < self.entries().len() && (#[trigger] self.entries()[i]).id_spec() == id]
    }

    /// A new, open registry named `name` that holds the empty block.
    pub fn new(name: &str) -> (r: Registry)
        ensures
            r.wf(),
            !r.frozen_spec(),
            r.name_spec() == name@,
            r.entries().len() == 1,
            r.has(crate::block_state::air_id()),
    {
        let mut map: Vec<Block> = Vec::new();
        map.push(Block::make_initial());
        let r = Registry { name: name.to_owned(), map, frozen: false };
        assert(r.entries()[0].id_spec() == crate::block_state::air_id());
        r
    }

    /// Adds `obj`. Fails with `Frozen` once the registry is frozen, and with `Duplicate`
    /// when its id is taken.
    pub fn register(&mut self, obj: Block) -> (r: Result<(), RegistryError>)
        requires
            old(self).wf(),
        ensures
            final(self).wf(),
            final(self).frozen_spec() == old(self).frozen_spec(),
            old(self).frozen_spec() ==> (r matches Err(RegistryError::Frozen(n)) && n@ == old(self).name_spec())
                && final(self).entries() == old(self).entries(),
            !old(self).frozen_spec() && old(self).has(obj.id_spec()) ==> (r matches Err(RegistryError::Duplicate(i, n))
                && i@ == obj.id_spec() && n@ == old(self).name_spec()) && final(self).entries() == old(self).entries(),
            !old(self).frozen_spec() && !old(self).has(obj.id_spec()) ==> r is Ok && final(self).entries()
                == old(self).entries().push(obj),
    {
        if self.frozen {
            return Err(RegistryError::Frozen(self.name.clone()));
        }
        if self.find(obj.id.as_str()).is_some() {
            return Err(RegistryError::Duplicate(obj.id.clone(), self.name.clone()));
        }
        let ghost added = obj;
        self.map.push(obj);
        proof {
            assert forall|i: int, j: int| 0 <= i < j < self.entries().len() implies (#[trigger] self.entries()[i]).id_spec()
                != (#[trigger] self.entries()[j]).id_spec() by {
                assert(self.entries()[i] == old(self).entries()[i]);
                if j == self.entries().len() - 1 {
                    if old(self).entries()[i].id_spec() == added.id_spec() {
                        assert(old(self).has(added.id_spec()));
                    }
                } else {
                    assert(self.entries()[j] == old(self).entries()[j]);
                }
            }
        }
        Ok(())
    }

    fn find(&self, id: &str) -> (r: Option<usize>)
        requires
            self.wf(),
        ensures
            r matches Some(i) ==> i < self.entries().len() && self.entries()[i as int].id_spec() == id@
                && self.block(id@) == self.entries()[i as int],
            r is None <==> !self.has(id@),
    {
        let key = id.to_owned();
        let mut i: usize = 0;
        while i < self.map.len()
            invariant
                self.wf(),
                key@ == id@,
                i <= self.entries().len(),
                forall|j: int| 0 <= j < i ==> (#[trigger] self.entries()[j]).id_spec() != id@,
            decreases self.entries().len() - i,
        {
            if self.map[i].id == key {
                proof {
                    let c = choose|c: int| 0 <= c < self.entries().len() && (#[trigger] self.entries()[c]).id_spec() == id@;
                    if c != i {
                        if c < i {
                            assert(self.entries()[c].id_spec() != self.entries()[i as int].id_spec());
                        } else {
                            assert(self.entries()[i as int].id_spec() != self.entries()[c].id_spec());
                        }
                    }
                }
                return Some(i);
            }
            i = i + 1;
        }
        None
    }

    /// The block type registered under `id`, if any.
    pub fn get(&self, id: &str) -> (r: Option<&Block>)
        requires
            self.wf(),
        ensures
            r matches Some(b) ==> self.has(id@) && *b == self.block(id@),
            r is None <==> !self.has(id@),
    {
        match self.find(id) {
            Some(i) => Some(&self.map[i]),
            None => None,
        }
    }

    /// Every registered block type, in registration order.
    pub fn iter(&self) -> (r: &Vec<Block>)
        ensures
            r@ == self.entries(),
    {
        &self.map
    }

    pub fn is_frozen(&self) -> (r: bool)
        ensures
            r == self.frozen_spec(),
    {
        self.frozen
    }

    /// Stops the registry from taking more entries.
    pub fn freeze(&mut self)
        requires
            old(self).wf(),
        ensures
            final(self).wf(),
            final(self).frozen_spec(),
            final(self).entries() == old(self).entries(),
            final(self).name_spec() == old(self).name_spec(),
    {
        self.frozen = true;
        proof {
            assert(self.entries() == old(self).entries());
        }
    }
}

impl BlockState {
    /// The default state of the registered block `id` (its default properties as an
    /// ordered map); fails with `InvalidId` for an unknown id.
    pub fn new(id: &str, block_reg: &Registry) -> (r: Result<BlockState, BlockStateError>)
        requires
            block_reg.wf(),
        ensures
            block_reg.has(id@) ==> (r matches Ok(s) && s@.id == id@ && crate::block_state::normalizes(
                block_reg.block(id@).default_props(),
                s@.props,
            )),
            !block_reg.has(id@) ==> (r matches Err(BlockStateError::InvalidId(e)) && e@ == id@),
    {
        match block_reg.get(id) {
            Some(block) => {
                let props = crate::block_state::copy_props(block.get_default_state());
                Ok(BlockState::from_parts(id, props))
            },
            None => Err(BlockStateError::InvalidId(id.to_owned())),
        }
    }

    /// A state of the registered block `id` with the properties `state` as an ordered map;
    /// fails with `InvalidId` for an unknown id.
    pub fn with_state(id: &str, state: Vec<(String, String)>, block_reg: &Registry) -> (r: Result<BlockState, BlockStateError>)
        requires
            block_reg.wf(),
        ensures
            block_reg.has(id@) ==> (r matches Ok(s) && s@.id == id@ && crate::block_state::normalizes(
                crate::block_state::views_of(state@),
                s@.props,
            )),
            !block_reg.has(id@) ==> (r matches Err(BlockStateError::InvalidId(e)) && e@ == id@),
    {
        match block_reg.get(id) {
            Some(_) => Ok(BlockState::from_parts(id, state)),
            None => Err(BlockStateError::InvalidId(id.to_owned())),
        }
    }
}


/// The definition of one state property of a block: its name and the values it allows.
#[derive(Debug, Clone, PartialEq, Eq, Hash)]
pub struct BlockStateAsset {
    pub name: String,
    pub values: Vec<String>,
}

pub open spec fn string_views(v: Seq<String>) -> Seq<Seq<char>> {
    v.map_values(|s: String| s@)
}

/// The values allowed for property `k`: those of the first definition named `k`, if any.
pub open spec fn allowed_values(defs: Seq<BlockStateAsset>, k: Seq<char>) -> Option<Seq<Seq<char>>>
    decreases defs.len(),
{
    if defs.len() == 0 {
        None
    } else if defs[0].name@ == k {
        Some(string_views(defs[0].values@))
    } else {
        allowed_values(defs.drop_first(), k)
    }
}

/// Whether the definitions allow value `v` for property `k`.
pub open spec fn prop_allowed(defs: Seq<BlockStateAsset>, k: Seq<char>, v: Seq<char>) -> bool {
    match allowed_values(defs, k) {
        Some(vals) => vals.contains(v),
        None => false,
    }
}

/// The first definition of property `key`, if any.
pub fn get_state<'a>(key: &str, states: &'a Vec<BlockStateAsset>) -> (r: Option<&'a BlockStateAsset>)
    ensures
        r matches Some(d) ==> allowed_values(states@, key@) == Some(string_views(d.values@)),
        r is None <==> allowed_values(states@, key@) is None,
{
    let k = key.to_owned();
    let mut i: usize = 0;
    assert(states@.subrange(0, states@.len() as int) =~= states@);
    while i < states.len()
        invariant
            k@ == key@,
            i <= states@.len(),
            allowed_values(states@, key@) == allowed_values(states@.subrange(i as int, states@.len() as int), key@),
        decreases states@.len() - i,
    {
        let ghost rest = states@.subrange(i as int, states@.len() as int);
        if states[i].name == k {
            assert(rest[0] == states@[i as int]);
            return Some(&states[i]);
        }
        proof {
            assert(rest.drop_first() =~= states@.subrange(i + 1, states@.len() as int));
        }
        i = i + 1;
    }
    proof {
        assert(states@.subrange(i as int, states@.len() as int).len() == 0);
    }
    None
}

fn contains_string(values: &Vec<String>, v: &String) -> (r: bool)
    ensures
        r == string_views(values@).contains(v@),
{
    let mut i: usize = 0;
    while i < values.len()
        invariant
            i <= values@.len(),
            forall|j: int| 0 <= j < i ==> values@[j]@ != v@,
        decreases values@.len() - i,
    {
        if values[i] == *v {
            assert(string_views(values@)[i as int] == v@);
            return true;
        }
        i = i + 1;
    }
    proof {
        if string_views(values@).contains(v@) {
            let j = choose|j: int| 0 <= j < values@.len() && string_views(values@)[j] == v@;
            assert(values@[j]@ == v@);
        }
    }
    false
}

/// Checks the properties `state` of block `id` against its definitions: every property
/// must be defined, with a value its first definition allows. The error names the first
/// property that fails, with the block.
pub fn validate_state(id: &str, state: &Vec<(String, String)>, state_def: &Vec<BlockStateAsset>) -> (r: Result<(), StateError>)
    ensures
        r is Ok <==> forall|i: int| 0 <= i < state@.len() ==> #[trigger] prop_allowed(state_def@, state@[i].0@, state@[i].1@),
        r matches Err(StateError::UnknownProperty(b, k)) ==> b@ == id@ && allowed_values(state_def@, k@) is None,
        r matches Err(StateError::UnknownValue(b, k, v)) ==> b@ == id@ && !prop_allowed(state_def@, k@, v@),
{
    let mut i: usize = 0;
    while i < state.len()
        invariant
            i <= state@.len(),
            forall|j: int| 0 <= j < i ==> #[trigger] prop_allowed(state_def@, state@[j].0@, state@[j].1@),
        decreases state@.len() - i,
    {
        let (k, v) = (&state[i].0, &state[i].1);
        match get_state(k.as_str(), state_def) {
            None => {
                assert(!prop_allowed(state_def@, state@[i as int].0@, state@[i as int].1@));
                return Err(StateError::UnknownProperty(id.to_owned(), k.clone()));
            },
            Some(def) => {
                if !contains_string(&def.values, v) {
                    assert(!prop_allowed(state_def@, state@[i as int].0@, state@[i as int].1@));
                    return Err(StateError::UnknownValue(id.to_owned(), k.clone(), v.clone()));
                }
            },
        }
        i = i + 1;
    }
    Ok(())
}

} // verus!
