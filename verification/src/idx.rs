use vstd::prelude::*;

verus! {

/// Index of a node in the pool's expression arena.
#[derive(Debug, Clone, Copy, PartialEq, Eq, Hash, Structural)]
pub struct ExprId(pub usize);

/// Index of an interned name.
#[derive(Debug, Clone, Copy, PartialEq, Eq, Hash, Structural)]
pub struct NameId(pub usize);

/// Index of a ruleset.
#[derive(Debug, Clone, Copy, PartialEq, Eq, Hash, Structural)]
pub struct RulesetId(pub usize);

/// Index of an interned function symbol.
#[derive(Debug, Clone, Copy, PartialEq, Eq, Hash, Structural)]
pub struct FunctionId(pub usize);

/// Index of an equivalence group of expressions.
#[derive(Debug, Clone, Copy, PartialEq, Eq, Hash, Structural)]
pub struct EquivalenceGroupId(pub usize);

/// Index of a node in the pattern arena.
#[derive(Debug, Clone, Copy, PartialEq, Eq, Hash, Structural)]
pub struct PatternId(pub usize);

/// Index of a rule.
#[derive(Debug, Clone, Copy, PartialEq, Eq, Hash, Structural)]
pub struct RuleId(pub usize);

/// Index of a node in the action arena.
#[derive(Debug, Clone, Copy, PartialEq, Eq, Hash, Structural)]
pub struct ActionId(pub usize);

impl ExprId {
    pub fn new(id: usize) -> (r: Self)
        ensures
            r.0 == id,
    {
        Self(id)
    }

    pub fn get(&self) -> (r: usize)
        ensures
            r == self.0,
    {
        self.0
    }
}

impl NameId {
    pub fn new(id: usize) -> (r: Self)
        ensures
            r.0 == id,
    {
        Self(id)
    }

    pub fn get(&self) -> (r: usize)
        ensures
            r == self.0,
    {
        self.0
    }
}

impl RulesetId {
    pub fn new(id: usize) -> (r: Self)
        ensures
            r.0 == id,
    {
        Self(id)
    }

    pub fn get(&self) -> (r: usize)
        ensures
            r == self.0,
    {
        self.0
    }
}

impl FunctionId {
    pub fn new(id: usize) -> (r: Self)
        ensures
            r.0 == id,
    {
        Self(id)
    }

    pub fn get(&self) -> (r: usize)
        ensures
            r == self.0,
    {
        self.0
    }
}

impl EquivalenceGroupId {
    pub fn new(id: usize) -> (r: Self)
        ensures
            r.0 == id,
    {
        Self(id)
    }

    pub fn get(&self) -> (r: usize)
        ensures
            r == self.0,
    {
        self.0
    }
}

impl PatternId {
    pub fn new(id: usize) -> (r: Self)
        ensures
            r.0 == id,
    {
        Self(id)
    }

    pub fn get(&self) -> (r: usize)
        ensures
            r == self.0,
    {
        self.0
    }
}

impl RuleId {
    pub fn new(id: usize) -> (r: Self)
        ensures
            r.0 == id,
    {
        Self(id)
    }

    pub fn get(&self) -> (r: usize)
        ensures
            r == self.0,
    {
        self.0
    }
}

impl ActionId {
    pub fn new(id: usize) -> (r: Self)
        ensures
            r.0 == id,
    {
        Self(id)
    }

    pub fn get(&self) -> (r: usize)
        ensures
            r == self.0,
    {
        self.0
    }
}

impl From<usize> for ExprId {
    fn from(id: usize) -> (r: Self) {
        ExprId(id)
    }
}

impl vstd::std_specs::convert::FromSpecImpl<usize> for ExprId {
    open spec fn obeys_from_spec() -> bool {
        true
    }

    open spec fn from_spec(id: usize) -> Self {
        ExprId(id)
    }
}

impl From<ExprId> for usize {
    fn from(id: ExprId) -> (r: Self) {
        id.0
    }
}

impl vstd::std_specs::convert::FromSpecImpl<ExprId> for usize {
    open spec fn obeys_from_spec() -> bool {
        true
    }

    open spec fn from_spec(id: ExprId) -> usize {
        id.0
    }
}

impl From<usize> for NameId {
    fn from(id: usize) -> (r: Self) {
        NameId(id)
    }
}

impl vstd::std_specs::convert::FromSpecImpl<usize> for NameId {
    open spec fn obeys_from_spec() -> bool {
        true
    }

    open spec fn from_spec(id: usize) -> Self {
        NameId(id)
    }
}

impl From<NameId> for usize {
    fn from(id: NameId) -> (r: Self) {
        id.0
    }
}

impl vstd::std_specs::convert::FromSpecImpl<NameId> for usize {
    open spec fn obeys_from_spec() -> bool {
        true
    }

    open spec fn from_spec(id: NameId) -> usize {
        id.0
    }
}

impl From<usize> for RulesetId {
    fn from(id: usize) -> (r: Self) {
        RulesetId(id)
    }
}

impl vstd::std_specs::convert::FromSpecImpl<usize> for RulesetId {
    open spec fn obeys_from_spec() -> bool {
        true
    }

    open spec fn from_spec(id: usize) -> Self {
        RulesetId(id)
    }
}

impl From<RulesetId> for usize {
    fn from(id: RulesetId) -> (r: Self) {
        id.0
    }
}

impl vstd::std_specs::convert::FromSpecImpl<RulesetId> for usize {
    open spec fn obeys_from_spec() -> bool {
        true
    }

    open spec fn from_spec(id: RulesetId) -> usize {
        id.0
    }
}

impl From<usize> for FunctionId {
    fn from(id: usize) -> (r: Self) {
        FunctionId(id)
    }
}

impl vstd::std_specs::convert::FromSpecImpl<usize> for FunctionId {
    open spec fn obeys_from_spec() -> bool {
        true
    }

    open spec fn from_spec(id: usize) -> Self {
        FunctionId(id)
    }
}

impl From<FunctionId> for usize {
    fn from(id: FunctionId) -> (r: Self) {
        id.0
    }
}

impl vstd::std_specs::convert::FromSpecImpl<FunctionId> for usize {
    open spec fn obeys_from_spec() -> bool {
        true
    }

    open spec fn from_spec(id: FunctionId) -> usize {
        id.0
    }
}

impl From<usize> for EquivalenceGroupId {
    fn from(id: usize) -> (r: Self) {
        EquivalenceGroupId(id)
    }
}

impl vstd::std_specs::convert::FromSpecImpl<usize> for EquivalenceGroupId {
    open spec fn obeys_from_spec() -> bool {
        true
    }

    open spec fn from_spec(id: usize) -> Self {
        EquivalenceGroupId(id)
    }
}

impl From<EquivalenceGroupId> for usize {
    fn from(id: EquivalenceGroupId) -> (r: Self) {
        id.0
    }
}

impl vstd::std_specs::convert::FromSpecImpl<EquivalenceGroupId> for usize {
    open spec fn obeys_from_spec() -> bool {
        true
    }

    open spec fn from_spec(id: EquivalenceGroupId) -> usize {
        id.0
    }
}

impl From<usize> for PatternId {
    fn from(id: usize) -> (r: Self) {
        PatternId(id)
    }
}

impl vstd::std_specs::convert::FromSpecImpl<usize> for PatternId {
    open spec fn obeys_from_spec() -> bool {
        true
    }

    open spec fn from_spec(id: usize) -> Self {
        PatternId(id)
    }
}

impl From<PatternId> for usize {
    fn from(id: PatternId) -> (r: Self) {
        id.0
    }
}

impl vstd::std_specs::convert::FromSpecImpl<PatternId> for usize {
    open spec fn obeys_from_spec() -> bool {
        true
    }

    open spec fn from_spec(id: PatternId) -> usize {
        id.0
    }
}

impl From<usize> for RuleId {
    fn from(id: usize) -> (r: Self) {
        RuleId(id)
    }
}

impl vstd::std_specs::convert::FromSpecImpl<usize> for RuleId {
    open spec fn obeys_from_spec() -> bool {
        true
    }

    open spec fn from_spec(id: usize) -> Self {
        RuleId(id)
    }
}

impl From<RuleId> for usize {
    fn from(id: RuleId) -> (r: Self) {
        id.0
    }
}

impl vstd::std_specs::convert::FromSpecImpl<RuleId> for usize {
    open spec fn obeys_from_spec() -> bool {
        true
    }

    open spec fn from_spec(id: RuleId) -> usize {
        id.0
    }
}

impl From<usize> for ActionId {
    fn from(id: usize) -> (r: Self) {
        ActionId(id)
    }
}

impl vstd::std_specs::convert::FromSpecImpl<usize> for ActionId {
    open spec fn obeys_from_spec() -> bool {
        true
    }

    open spec fn from_spec(id: usize) -> Self {
        ActionId(id)
    }
}

impl From<ActionId> for usize {
    fn from(id: ActionId) -> (r: Self) {
        id.0
    }
}

impl vstd::std_specs::convert::FromSpecImpl<ActionId> for usize {
    open spec fn obeys_from_spec() -> bool {
        true
    }

    open spec fn from_spec(id: ActionId) -> usize {
        id.0
    }
}

} // verus!
