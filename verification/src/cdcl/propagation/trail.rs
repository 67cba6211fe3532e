//! Literals, per-variable and per-clause state, and the assignment trail.
use vstd::prelude::*;

verus! {

/// A variable is an index below the number of variables.
pub type Variable = usize;

/// A literal: the variable itself when positive, its bitwise complement when
/// negative.
pub type Literal = isize;

/// A clause keeps its literals in the order they were given.
pub type Clause = Vec<Literal>;

/// A formula is a growing list of clauses; a clause is known by its index.
pub type Formula = Vec<Clause>;

/// Why a variable holds its value: `None` for a decision, otherwise the index
/// of the clause that forced it.
pub type Reason = Option<usize>;

/// The variable a literal speaks of.
pub open spec fn variable_of(literal: Literal) -> int {
    if literal >= 0 {
        literal as int
    } else {
        -1 - literal
    }
}

/// No variable occurs twice in the clause.
pub open spec fn each_once(clause: Seq<Literal>) -> bool {
    forall|p: int, q: int|
        0 <= p < q < clause.len() ==> variable_of(#[trigger] clause[p]) != variable_of(
            #[trigger] clause[q],
        )
}

/// The literal of the same variable and opposite polarity.
pub open spec fn negation(literal: Literal) -> Literal {
    (-1 - literal) as isize
}

/// The literal of `variable` with the given polarity.
pub open spec fn literal_of(variable: int, positive: bool) -> int {
    if positive {
        variable
    } else {
        -1 - variable
    }
}

/// Bitwise complement on literals is `-1 - l`.
pub proof fn lemma_complement(literal: Literal)
    ensures
        !literal == negation(literal),
        negation(negation(literal)) == literal,
        variable_of(negation(literal)) == variable_of(literal),
        (negation(literal) >= 0) != (literal >= 0),
{
    assert(!literal == (-1 - literal) as isize) by (bit_vector);
}

/// Exclusive-or of two literals with one of them gives back the other.
pub proof fn lemma_other_watch(a: Literal, b: Literal)
    ensures
        a ^ b ^ a == b,
        a ^ b ^ b == a,
{
    assert(a ^ b ^ a == b) by (bit_vector);
    assert(a ^ b ^ b == a) by (bit_vector);
}

/// The variable a literal speaks of.
pub fn variable_name(literal: Literal) -> (variable: Variable)
    ensures
        variable == variable_of(literal),
{
    proof {
        lemma_complement(literal);
    }
    let flipped: isize = !literal;
    if literal >= flipped {
        literal as usize
    } else {
        flipped as usize
    }
}

/// The negation of a literal, computed by complementing its bits.
pub fn negate(literal: Literal) -> (flipped: Literal)
    ensures
        flipped == negation(literal),
{
    proof {
        lemma_complement(literal);
    }
    !literal
}

/// What a variable holds, and the level at which it got its value.
#[derive(Debug, Default, Copy, Clone, Eq, PartialEq, Hash, Structural)]
pub enum VariableState {
    #[default]
    Unset,
    False(usize),
    True(usize),
}

impl VariableState {
    /// The decision level recorded with the value; 0 for an unset variable.
    pub open spec fn level(self) -> usize {
        match self {
            VariableState::Unset => 0,
            VariableState::False(l) => l,
            VariableState::True(l) => l,
        }
    }

    /// The state of a variable that got `value` at `level`.
    pub fn from_bool(value: bool, level: usize) -> (state: Self)
        ensures
            state == (if value {
                VariableState::True(level)
            } else {
                VariableState::False(level)
            }),
    {
        if value {
            VariableState::True(level)
        } else {
            VariableState::False(level)
        }
    }

    /// The level at which the variable got its value.
    pub fn decision_level(&self) -> (level: usize)
        requires
            !(*self is Unset),
        ensures
            level == self.level(),
    {
        match self {
            VariableState::Unset => 0,
            VariableState::False(l) => *l,
            VariableState::True(l) => *l,
        }
    }

    /// The value of the variable.
    pub fn bool_value(&self) -> (value: bool)
        requires
            !(*self is Unset),
        ensures
            value == (*self is True),
    {
        match self {
            VariableState::Unset => false,
            VariableState::False(_) => false,
            VariableState::True(_) => true,
        }
    }

    /// Whether the variable is true.
    pub fn is_true(&self) -> (answer: bool)
        ensures
            answer == (*self is True),
    {
        match self {
            VariableState::True(_) => true,
            _ => false,
        }
    }

    /// Whether the variable is false.
    pub fn is_false(&self) -> (answer: bool)
        ensures
            answer == (*self is False),
    {
        match self {
            VariableState::False(_) => true,
            _ => false,
        }
    }

    /// Whether the variable has no value.
    pub fn is_unset(&self) -> (answer: bool)
        ensures
            answer == (*self is Unset),
    {
        match self {
            VariableState::Unset => true,
            _ => false,
        }
    }
}

/// The state of a clause under the assignment, as last recorded.
#[derive(Debug, Default, Copy, Clone, Eq, PartialEq, Hash, Structural)]
pub enum ClauseType {
    #[default]
    Unwatched,
    Satisfied,
    Falsified,
    Unit(Literal),
    Watched(Literal, Literal),
}

impl ClauseType {
    /// The two literals that a watched clause watches.
    pub fn unwrap_watched(&self) -> (pair: (Literal, Literal))
        requires
            *self is Watched,
        ensures
            *self == ClauseType::Watched(pair.0, pair.1),
    {
        match self {
            ClauseType::Watched(a, b) => (*a, *b),
            _ => (0, 0),
        }
    }
}

/// Whether `literal` holds under the assignment.
pub open spec fn holds(assignment: Seq<VariableState>, literal: Literal) -> bool {
    let v = variable_of(literal);
    v < assignment.len() && if literal >= 0 {
        assignment[v] is True
    } else {
        assignment[v] is False
    }
}

/// Whether `literal` is contradicted by the assignment.
pub open spec fn fails(assignment: Seq<VariableState>, literal: Literal) -> bool {
    let v = variable_of(literal);
    v < assignment.len() && if literal >= 0 {
        assignment[v] is False
    } else {
        assignment[v] is True
    }
}

/// Whether the variable of `literal` has no value yet.
pub open spec fn open_in(assignment: Seq<VariableState>, literal: Literal) -> bool {
    let v = variable_of(literal);
    v < assignment.len() && assignment[v] is Unset
}

/// The level at which the variable of `literal` got its value.
pub open spec fn level_of(assignment: Seq<VariableState>, literal: Literal) -> int {
    assignment[variable_of(literal)].level() as int
}

/// The place of a literal's watch list among all lists.
pub open spec fn slot(literal: Literal) -> int {
    2 * variable_of(literal) + if literal >= 0 {
        1int
    } else {
        0int
    }
}

/// The value a literal gives its variable when it is made true at `level`.
pub open spec fn state_for(literal: Literal, level: usize) -> VariableState {
    if literal >= 0 {
        VariableState::True(level)
    } else {
        VariableState::False(level)
    }
}

/// Whether `variable` occurs in the level at or after position `from`.
pub open spec fn listed_from(level: Seq<(Variable, Reason)>, from: int, variable: int) -> bool {
    exists|i: int| from <= i < level.len() && (#[trigger] level[i]).0 == variable
}

/// What `variable` holds after the levels above `level` are dropped.
pub open spec fn state_after_backjump(
    assignment: Seq<VariableState>,
    level: int,
    variable: int,
) -> VariableState {
    if assignment[variable].level() > level {
        VariableState::Unset
    } else {
        assignment[variable]
    }
}

/// Structural validity: every entry of a level is a variable assigned at
/// that level, no variable is listed twice, every assigned variable is
/// listed at its level, and every level above the ground level opens with
/// its decision while all other entries carry a reason.
pub open spec fn well_formed(
    assignment: Seq<VariableState>,
    entries: Seq<Seq<(Variable, Reason)>>,
) -> bool {
    &&& entries.len() >= 1
    &&& forall|k: int, i: int|
        0 <= k < entries.len() && 0 <= i < entries[k].len() ==> {
            let v = (#[trigger] entries[k][i]).0;
            &&& v < assignment.len()
            &&& !(assignment[v as int] is Unset)
            &&& assignment[v as int].level() == k
        }
    &&& forall|k: int, i: int, j: int|
        0 <= k < entries.len() && 0 <= i < j < entries[k].len() ==> (#[trigger] entries[k][i]).0
            != (#[trigger] entries[k][j]).0
    &&& forall|v: int|
        0 <= v < assignment.len() && !(#[trigger] assignment[v] is Unset) ==> {
            &&& assignment[v].level() < entries.len()
            &&& listed_from(entries[assignment[v].level() as int], 0, v)
        }
    &&& forall|k: int| 1 <= k < entries.len() ==> (#[trigger] entries[k]).len() >= 1
    &&& forall|k: int, i: int|
        0 <= k < entries.len() && 0 <= i < entries[k].len() ==> ((#[trigger] entries[k][i]).1 is None
            <==> (k >= 1 && i == 0))
}

/// Opening a level with a decision keeps the trail valid.
pub proof fn lemma_decide_keeps_wf(
    a: Seq<VariableState>,
    e: Seq<Seq<(Variable, Reason)>>,
    variable: usize,
    state: VariableState,
)
    requires
        well_formed(a, e),
        variable < a.len(),
        a[variable as int] is Unset,
        !(state is Unset),
        state.level() == e.len(),
    ensures
        well_formed(a.update(variable as int, state), e.push(seq![(variable, None::<usize>)])),
{
    let a2 = a.update(variable as int, state);
    let e2 = e.push(seq![(variable, None::<usize>)]);
    let top = e.len() as int;
    assert forall|v: int| 0 <= v < a2.len() && !(#[trigger] a2[v] is Unset) implies {
        &&& a2[v].level() < e2.len()
        &&& listed_from(e2[a2[v].level() as int], 0, v)
    } by {
        if v == variable {
            assert(e2[top][0].0 == variable);
        } else {
            let k = a[v].level() as int;
            assert(listed_from(e[k], 0, v));
            let i = choose|i: int| 0 <= i < e[k].len() && (#[trigger] e[k][i]).0 == v;
            assert(e2[k][i].0 == v);
        }
    }
    assert forall|k: int, i: int| 0 <= k < e2.len() && 0 <= i < e2[k].len() implies {
        let v = (#[trigger] e2[k][i]).0;
        &&& v < a2.len()
        &&& !(a2[v as int] is Unset)
        &&& a2[v as int].level() == k
    } by {
        if k < top {
            assert(e2[k][i] == e[k][i]);
        }
    }
    assert forall|k: int, i: int, j: int|
        0 <= k < e2.len() && 0 <= i < j < e2[k].len() implies (#[trigger] e2[k][i]).0 != (
    #[trigger] e2[k][j]).0 by {
        if k < top {
            assert(e2[k][i] == e[k][i]);
            assert(e2[k][j] == e[k][j]);
        }
    }
    assert forall|k: int, i: int| 0 <= k < e2.len() && 0 <= i < e2[k].len() implies ((
    #[trigger] e2[k][i]).1 is None <==> (k >= 1 && i == 0)) by {
        if k < top {
            assert(e2[k][i] == e[k][i]);
        }
    }
    assert forall|k: int| 1 <= k < e2.len() implies (#[trigger] e2[k]).len() >= 1 by {
        if k < top {
            assert(e[k].len() >= 1);
        }
    }
}

/// Appending a forced variable to the top level keeps the trail valid.
pub proof fn lemma_propagate_keeps_wf(
    a: Seq<VariableState>,
    e: Seq<Seq<(Variable, Reason)>>,
    variable: usize,
    state: VariableState,
    reason_id: usize,
)
    requires
        well_formed(a, e),
        variable < a.len(),
        a[variable as int] is Unset,
        !(state is Unset),
        state.level() == e.len() - 1,
    ensures
        well_formed(
            a.update(variable as int, state),
            e.update(e.len() - 1, e.last().push((variable, Some(reason_id)))),
        ),
{
    let a2 = a.update(variable as int, state);
    let top = e.len() - 1;
    let e2 = e.update(top, e.last().push((variable, Some(reason_id))));
    let last = e[top].len() as int;
    assert(e.last() == e[top]);
    assert(e2[top] == e[top].push((variable, Some(reason_id))));
    assert(a2[variable as int] == state);
    assert forall|v: int| 0 <= v < a2.len() && !(#[trigger] a2[v] is Unset) implies {
        &&& a2[v].level() < e2.len()
        &&& listed_from(e2[a2[v].level() as int], 0, v)
    } by {
        if v == variable {
            assert(e2[top][last].0 == variable);
        } else {
            let k = a[v].level() as int;
            assert(listed_from(e[k], 0, v));
            let i = choose|i: int| 0 <= i < e[k].len() && (#[trigger] e[k][i]).0 == v;
            assert(e2[k][i] == e[k][i]);
        }
    }
    assert forall|k: int, i: int| 0 <= k < e2.len() && 0 <= i < e2[k].len() implies {
        let v = (#[trigger] e2[k][i]).0;
        &&& v < a2.len()
        &&& !(a2[v as int] is Unset)
        &&& a2[v as int].level() == k
    } by {
        if k < top || i < last {
            assert(e2[k][i] == e[k][i]);
        }
    }
    assert forall|k: int, i: int, j: int|
        0 <= k < e2.len() && 0 <= i < j < e2[k].len() implies (#[trigger] e2[k][i]).0 != (
    #[trigger] e2[k][j]).0 by {
        assert(e2[k][i] == e[k][i]);
        if k < top || j < last {
            assert(e2[k][j] == e[k][j]);
        }
    }
    assert forall|k: int, i: int| 0 <= k < e2.len() && 0 <= i < e2[k].len() implies ((
    #[trigger] e2[k][i]).1 is None <==> (k >= 1 && i == 0)) by {
        if k < top || i < last {
            assert(e2[k][i] == e[k][i]);
        } else {
            if k >= 1 {
                assert(e[k].len() >= 1);
            }
        }
    }
    assert forall|k: int| 1 <= k < e2.len() implies (#[trigger] e2[k]).len() >= 1 by {
        assert(e[k].len() >= 1);
    }
}

/// Dropping the levels above `level` and releasing their variables keeps the
/// trail valid.
pub proof fn lemma_backjump_keeps_wf(
    a: Seq<VariableState>,
    e: Seq<Seq<(Variable, Reason)>>,
    a2: Seq<VariableState>,
    level: int,
)
    requires
        well_formed(a, e),
        0 <= level < e.len(),
        a2.len() == a.len(),
        forall|v: int| 0 <= v < a.len() ==> #[trigger] a2[v] == state_after_backjump(a, level, v),
    ensures
        well_formed(a2, e.take(level + 1)),
{
    let e2 = e.take(level + 1);
    assert forall|v: int| 0 <= v < a2.len() && !(#[trigger] a2[v] is Unset) implies {
        &&& a2[v].level() < e2.len()
        &&& listed_from(e2[a2[v].level() as int], 0, v)
    } by {
        assert(a2[v] == state_after_backjump(a, level, v));
        let k = a[v].level() as int;
        assert(listed_from(e[k], 0, v));
    }
    assert forall|k: int, i: int| 0 <= k < e2.len() && 0 <= i < e2[k].len() implies {
        let v = (#[trigger] e2[k][i]).0;
        &&& v < a2.len()
        &&& !(a2[v as int] is Unset)
        &&& a2[v as int].level() == k
    } by {
        assert(e2[k][i] == e[k][i]);
        let v = e[k][i].0 as int;
        assert(a2[v] == state_after_backjump(a, level, v));
    }
    assert forall|k: int, i: int, j: int|
        0 <= k < e2.len() && 0 <= i < j < e2[k].len() implies (#[trigger] e2[k][i]).0 != (
    #[trigger] e2[k][j]).0 by {
        assert(e2[k][i] == e[k][i]);
        assert(e2[k][j] == e[k][j]);
    }
    assert forall|k: int, i: int| 0 <= k < e2.len() && 0 <= i < e2[k].len() implies ((
    #[trigger] e2[k][i]).1 is None <==> (k >= 1 && i == 0)) by {
        assert(e2[k][i] == e[k][i]);
    }
    assert forall|k: int| 1 <= k < e2.len() implies (#[trigger] e2[k]).len() >= 1 by {
        assert(e[k].len() >= 1);
    }
}

/// The state of the search: what every variable holds, the levels with
/// their entries, the recorded state of every clause, and two watch lists for
/// every variable, the first for its negative literal.
#[derive(Debug)]
pub struct Trail {
    pub assignment: Vec<VariableState>,
    pub levels: Vec<Vec<(Variable, Reason)>>,
    pub clause_types: Vec<ClauseType>,
    pub watches: Vec<[Vec<usize>; 2]>,
}

impl Trail {
    /// The levels as a sequence of sequences of entries.
    pub open spec fn entries(self) -> Seq<Seq<(Variable, Reason)>> {
        Seq::new(self.levels.len() as nat, |k: int| self.levels[k]@)
    }

    /// The clauses that watch `literal`, in list order.
    pub open spec fn watchers(self, literal: Literal) -> Seq<usize> {
        self.watches[variable_of(literal)][if literal >= 0 {
            1int
        } else {
            0int
        }]@
    }

    /// All watch lists in one sequence: the list of `literal` stands at
    /// `slot(literal)`.
    pub open spec fn lists(self) -> Seq<Seq<usize>> {
        Seq::new(2 * self.watches.len() as nat, |j: int| self.watches[j / 2][j % 2]@)
    }

    /// Structural validity of the assignment and the levels, and one pair of
    /// watch lists per variable.
    pub open spec fn wf(self) -> bool {
        &&& self.watches.len() == self.assignment.len()
        &&& well_formed(self.assignment@, self.entries())
    }

    /// The trail of a search that has not begun: `n` variables without a value,
    /// the ground level without entries, `m` clauses without a recorded state,
    /// and empty watch lists.
    pub fn new(n: usize, m: usize) -> (trail: Self)
        ensures
            trail.wf(),
            trail.assignment@ == Seq::new(n as nat, |v: int| VariableState::Unset),
            trail.entries() == seq![Seq::<(Variable, Reason)>::empty()],
            trail.clause_types@ == Seq::new(m as nat, |c: int| ClauseType::Unwatched),
            trail.watches.len() == n,
            forall|v: int, side: int|
                0 <= v < n && 0 <= side < 2 ==> (#[trigger] trail.watches[v][side]).len() == 0,
    {
        let mut assignment: Vec<VariableState> = Vec::new();
        let mut watches: Vec<[Vec<usize>; 2]> = Vec::new();
        let mut v: usize = 0;
        while v < n
            invariant
                v <= n,
                assignment.len() == v,
                watches.len() == v,
                forall|u: int| 0 <= u < v ==> assignment[u] is Unset,
                forall|u: int, side: int|
                    0 <= u < v && 0 <= side < 2 ==> (#[trigger] watches[u][side]).len() == 0,
            decreases n - v,
        {
            assignment.push(VariableState::Unset);
            let pair: [Vec<usize>; 2] = [Vec::new(), Vec::new()];
            watches.push(pair);
            v += 1;
        }
        let mut clause_types: Vec<ClauseType> = Vec::new();
        let mut c: usize = 0;
        while c < m
            invariant
                c <= m,
                clause_types.len() == c,
                forall|d: int| 0 <= d < c ==> clause_types[d] is Unwatched,
            decreases m - c,
        {
            clause_types.push(ClauseType::Unwatched);
            c += 1;
        }
        let mut levels: Vec<Vec<(Variable, Reason)>> = Vec::new();
        levels.push(Vec::new());
        let trail = Trail { assignment, levels, clause_types, watches };
        assert(trail.assignment@ =~= Seq::new(n as nat, |v: int| VariableState::Unset));
        assert(trail.clause_types@ =~= Seq::new(m as nat, |c: int| ClauseType::Unwatched));
        assert(trail.entries() =~= seq![Seq::<(Variable, Reason)>::empty()]);
        trail
    }

    /// Gives `variable`, which has none, the value `value` at `level`.
    pub fn assign_variable(&mut self, variable: Variable, value: bool, level: usize)
        requires
            variable < old(self).assignment.len(),
            old(self).assignment[variable as int] is Unset,
        ensures
            final(self).assignment@ == old(self).assignment@.update(
                variable as int,
                if value {
                    VariableState::True(level)
                } else {
                    VariableState::False(level)
                },
            ),
            final(self).levels == old(self).levels,
            final(self).clause_types == old(self).clause_types,
            final(self).watches == old(self).watches,
    {
        self.assignment[variable] = VariableState::from_bool(value, level);
    }

    /// Opens a level with the decision that `variable` is `value`.
    pub fn decide_variable(&mut self, variable: Variable, value: bool)
        requires
            variable < old(self).assignment.len(),
            old(self).assignment[variable as int] is Unset,
        ensures
            final(self).assignment@ == old(self).assignment@.update(
                variable as int,
                if value {
                    VariableState::True(old(self).levels.len())
                } else {
                    VariableState::False(old(self).levels.len())
                },
            ),
            final(self).entries() == old(self).entries().push(seq![(variable, None::<usize>)]),
            final(self).clause_types == old(self).clause_types,
            final(self).watches == old(self).watches,
            old(self).wf() ==> final(self).wf(),
    {
        let level = self.levels.len();
        self.assign_variable(variable, value, level);
        let mut opened: Vec<(Variable, Reason)> = Vec::new();
        opened.push((variable, None));
        self.levels.push(opened);
        proof {
            assert(final(self).entries() =~= old(self).entries().push(
                seq![(variable, None::<usize>)],
            ));
            if old(self).wf() {
                lemma_decide_keeps_wf(
                    old(self).assignment@,
                    old(self).entries(),
                    variable,
                    self.assignment[variable as int],
                );
            }
        }
    }

    /// Opens a level with the decision that `literal` holds.
    pub fn decide_literal(&mut self, literal: Literal)
        requires
            open_in(old(self).assignment@, literal),
        ensures
            final(self).assignment@ == old(self).assignment@.update(
                variable_of(literal),
                if literal >= 0 {
                    VariableState::True(old(self).levels.len())
                } else {
                    VariableState::False(old(self).levels.len())
                },
            ),
            final(self).entries() == old(self).entries().push(
                seq![(variable_of(literal) as usize, None::<usize>)],
            ),
            final(self).clause_types == old(self).clause_types,
            final(self).watches == old(self).watches,
            old(self).wf() ==> final(self).wf(),
            holds(final(self).assignment@, literal),
    {
        self.decide_variable(variable_name(literal), literal >= 0);
    }

    /// Appends to the top level that `variable` is `value`, forced by clause
    /// `reason_id`.
    pub fn propagate_variable(&mut self, variable: Variable, value: bool, reason_id: usize)
        requires
            variable < old(self).assignment.len(),
            old(self).assignment[variable as int] is Unset,
            old(self).levels.len() >= 1,
        ensures
            final(self).assignment@ == old(self).assignment@.update(
                variable as int,
                if value {
                    VariableState::True((old(self).levels.len() - 1) as usize)
                } else {
                    VariableState::False((old(self).levels.len() - 1) as usize)
                },
            ),
            final(self).entries() == old(self).entries().update(
                old(self).levels.len() - 1,
                old(self).entries().last().push((variable, Some(reason_id))),
            ),
            final(self).clause_types == old(self).clause_types,
            final(self).watches == old(self).watches,
            old(self).wf() ==> final(self).wf(),
    {
        let top = self.levels.len() - 1;
        self.assign_variable(variable, value, top);
        self.levels[top].push((variable, Some(reason_id)));
        proof {
            assert(final(self).entries() =~= old(self).entries().update(
                old(self).levels.len() - 1,
                old(self).entries().last().push((variable, Some(reason_id))),
            ));
            if old(self).wf() {
                lemma_propagate_keeps_wf(
                    old(self).assignment@,
                    old(self).entries(),
                    variable,
                    self.assignment[variable as int],
                    reason_id,
                );
            }
        }
    }

    /// Appends to the top level that `literal` holds, forced by clause
    /// `reason_id`.
    pub fn propagate_literal(&mut self, literal: Literal, reason_id: usize)
        requires
            open_in(old(self).assignment@, literal),
            old(self).levels.len() >= 1,
        ensures
            final(self).assignment@ == old(self).assignment@.update(
                variable_of(literal),
                if literal >= 0 {
                    VariableState::True((old(self).levels.len() - 1) as usize)
                } else {
                    VariableState::False((old(self).levels.len() - 1) as usize)
                },
            ),
            final(self).entries() == old(self).entries().update(
                old(self).levels.len() - 1,
                old(self).entries().last().push((variable_of(literal) as usize, Some(reason_id))),
            ),
            final(self).clause_types == old(self).clause_types,
            final(self).watches == old(self).watches,
            old(self).wf() ==> final(self).wf(),
            holds(final(self).assignment@, literal),
    {
        self.propagate_variable(variable_name(literal), literal >= 0, reason_id)
    }

    /// Appends `clause_id` to the watch list of `literal`.
    pub fn add_watch(&mut self, literal: Literal, clause_id: usize)
        requires
            variable_of(literal) < old(self).watches.len(),
        ensures
            final(self).watchers(literal) == old(self).watchers(literal).push(clause_id),
            final(self).lists() == old(self).lists().update(
                slot(literal),
                old(self).lists()[slot(literal)].push(clause_id),
            ),
            forall|other: Literal|
                variable_of(other) < old(self).watches.len() && other != literal ==> final(self).watchers(other) == old(self).watchers(other),
            final(self).watches.len() == old(self).watches.len(),
            final(self).assignment == old(self).assignment,
            final(self).levels == old(self).levels,
            final(self).clause_types == old(self).clause_types,
    {
        let variable = variable_name(literal);
        let side: usize = if literal >= 0 {
            1
        } else {
            0
        };
        self.watches[variable][side].push(clause_id);
        proof {
            assert(final(self).lists() =~= old(self).lists().update(
                slot(literal),
                old(self).lists()[slot(literal)].push(clause_id),
            )) by {
                assert forall|j: int| 0 <= j < 2 * old(self).watches.len() implies final(self).lists()[j] == old(self).lists().update(
                    slot(literal),
                    old(self).lists()[slot(literal)].push(clause_id),
                )[j] by {
                    if j / 2 != variable {
                        assert(final(self).watches[j / 2] == old(self).watches[j / 2]);
                    }
                }
            }
            assert forall|other: Literal|
                variable_of(other) < old(self).watches.len() && other != literal implies final(self).watchers(other) == old(self).watchers(other) by {
                if variable_of(other) == variable_of(literal) {
                    assert((other >= 0) != (literal >= 0));
                }
            }
        }
    }

    /// Takes entry `index` out of the watch list of `literal`; the last entry
    /// of the list takes its place.
    pub fn drop_watch(&mut self, literal: Literal, index: usize) -> (clause_id: usize)
        requires
            variable_of(literal) < old(self).watches.len(),
            index < old(self).watchers(literal).len(),
        ensures
            clause_id == old(self).watchers(literal)[index as int],
            final(self).lists() == old(self).lists().update(
                slot(literal),
                old(self).lists()[slot(literal)].update(
                    index as int,
                    old(self).lists()[slot(literal)].last(),
                ).drop_last(),
            ),
            final(self).watches.len() == old(self).watches.len(),
            final(self).assignment == old(self).assignment,
            final(self).levels == old(self).levels,
            final(self).clause_types == old(self).clause_types,
    {
        let variable = variable_name(literal);
        let side: usize = if literal >= 0 {
            1
        } else {
            0
        };
        let clause_id = self.watches[variable][side].swap_remove(index);
        proof {
            let target = old(self).lists().update(
                slot(literal),
                old(self).lists()[slot(literal)].update(
                    index as int,
                    old(self).lists()[slot(literal)].last(),
                ).drop_last(),
            );
            assert(final(self).lists() =~= target) by {
                assert forall|j: int| 0 <= j < 2 * old(self).watches.len() implies final(self).lists()[j] == target[j] by {
                    if j / 2 != variable {
                        assert(final(self).watches[j / 2] == old(self).watches[j / 2]);
                    }
                }
            }
        }
        clause_id
    }

    /// The literal of `variable` that holds.
    pub fn to_literal(&self, variable: Variable) -> (literal: Literal)
        requires
            variable < self.assignment.len(),
            !(self.assignment[variable as int] is Unset),
            variable <= isize::MAX,
        ensures
            literal == literal_of(variable as int, self.assignment[variable as int] is True),
            variable_of(literal) == variable,
            holds(self.assignment@, literal),
    {
        let literal = variable as isize;
        if self.assignment[variable].bool_value() {
            literal
        } else {
            negate(literal)
        }
    }

    /// Drops every level above `level` and releases the variables assigned
    /// there.
    pub fn backjump(&mut self, level: usize)
        requires
            old(self).wf(),
            level < old(self).levels.len(),
        ensures
            final(self).wf(),
            final(self).levels.len() == level + 1,
            final(self).entries() == old(self).entries().take(level + 1),
            final(self).assignment.len() == old(self).assignment.len(),
            forall|v: int|
                0 <= v < old(self).assignment.len() ==> #[trigger] final(self).assignment[v]
                    == state_after_backjump(old(self).assignment@, level as int, v),
            forall|v: int|
                0 <= v < old(self).assignment.len() && old(self).assignment[v].level() > level
                    ==> #[trigger] final(self).assignment[v] is Unset,
            final(self).clause_types == old(self).clause_types,
            final(self).watches == old(self).watches,
    {
        while self.levels.len() > level + 1
            invariant
                old(self).wf(),
                level < self.levels.len() <= old(self).levels.len(),
                self.assignment.len() == old(self).assignment.len(),
                self.entries() == old(self).entries().take(self.levels.len() as int),
                forall|v: int|
                    0 <= v < self.assignment.len() ==> #[trigger] self.assignment[v] == state_after_backjump(old(self).assignment@, self.levels.len() - 1, v),
                self.clause_types == old(self).clause_types,
                self.watches == old(self).watches,
            decreases self.levels.len(),
        {
            let ghost top = self.levels.len() - 1;
            let ghost lvl = old(self).entries()[top];
            let popped = self.levels.pop().unwrap();
            assert(popped@ == lvl) by {
                assert(old(self).entries().take(top + 1)[top] == old(self).entries()[top]);
            }
            let mut i: usize = 0;
            while i < popped.len()
                invariant
                    old(self).wf(),
                    i <= popped.len(),
                    top < old(self).levels.len(),
                    popped@ == lvl,
                    lvl == old(self).entries()[top],
                    self.assignment.len() == old(self).assignment.len(),
                    forall|v: int|
                        0 <= v < self.assignment.len() ==> #[trigger] self.assignment[v] == (if old(self).assignment[v].level() > top || (old(self).assignment[v].level() == top
                            && !listed_from(lvl, i as int, v)) {
                            VariableState::Unset
                        } else {
                            old(self).assignment[v]
                        }),
                    self.levels.len() == top,
                    self.entries() == old(self).entries().take(top),
                    self.clause_types == old(self).clause_types,
                    self.watches == old(self).watches,
                decreases popped.len() - i,
            {
                let variable = popped[i].0;
                assert(lvl[i as int].0 == variable);
                self.assignment[variable] = VariableState::Unset;
                proof {
                    assert forall|v: int| 0 <= v < self.assignment.len() implies (
                    #[trigger] self.assignment[v]) == (if old(self).assignment[v].level() > top || (
                    old(self).assignment[v].level() == top && !listed_from(lvl,
                        i + 1,
                        v,
                    )) {
                        VariableState::Unset
                    } else {
                        old(self).assignment[v]
                    }) by {
                        if old(self).assignment[v].level() == top {
                            if v == variable {
                                if listed_from(lvl, i + 1, v) {
                                    let j = choose|j: int|
                                        i + 1 <= j < lvl.len() && (
                                        #[trigger] lvl[j]).0 == v;
                                    assert(false);
                                }
                            } else {
                                if listed_from(lvl, i as int, v) {
                                    let j = choose|j: int|
                                        i <= j < lvl.len() && (
                                        #[trigger] lvl[j]).0 == v;
                                    assert(j != i);
                                    assert(listed_from(lvl, i + 1, v));
                                }
                                if listed_from(lvl, i + 1, v) {
                                    let j = choose|j: int|
                                        i + 1 <= j < lvl.len() && (
                                        #[trigger] lvl[j]).0 == v;
                                    assert(listed_from(lvl, i as int, v));
                                }
                            }
                        }
                    }
                }
                i += 1;
            }
            proof {
                assert forall|v: int| 0 <= v < self.assignment.len() implies (
                #[trigger] self.assignment[v]) == state_after_backjump(old(self).assignment@, top - 1, v) by {
                    if old(self).assignment[v].level() == top {
                        if listed_from(lvl, popped.len() as int, v) {
                            let j = choose|j: int|
                                popped.len() <= j < lvl.len() && (
                                #[trigger] lvl[j]).0 == v;
                            assert(false);
                        }
                        if old(self).assignment[v] is Unset {
                        }
                    }
                }
            }
        }
        proof {
            lemma_backjump_keeps_wf(
                old(self).assignment@,
                old(self).entries(),
                self.assignment@,
                level as int,
            );
        }
    }
}

} // verus!
