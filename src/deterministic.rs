//! The compiled automaton: a transition table built once, then walked per query.
use vstd::prelude::*;
use vstd::set_lib::{lemma_int_range, lemma_len_subset, set_int_range};
use crate::nondeterministic::Automaton as NondeterministicAutomaton;
use crate::nondeterministic::{accepts_from, sim_matches};

verus! {

/// A state of the table: the next pattern position and the edits spent.
#[derive(Clone, Copy, Debug, PartialEq, Eq, Structural)]
struct StepState {
    index: usize,
    errors: u32,
}

/// Where a transition leads.
#[derive(Clone, Copy, Debug)]
enum State {
    /// Accept, if the budget left absorbs the rest of the target.
    Match,
    /// Go on from this state.
    Pending(StepState),
    /// Reject this branch.
    Fail,
}

/// What a transition consumes from the target.
#[derive(Clone, Copy, Debug)]
enum Input {
    /// One character equal to this one.
    Exact(char),
    /// Any one character.
    Glob,
    /// Nothing.
    Empty,
}

/// Why the table could not be built.
#[derive(Clone, Copy, Debug, PartialEq, Eq)]
pub enum BuildError {
    /// The exploration reached a pattern position outside the pattern: the
    /// pattern is empty.
    PatternIndexOutOfRange,
    /// The exploration reached a state that has spent more edits than the budget.
    ErrorsOverBudget,
}

/// A table of transitions, built once from a pattern and a budget.
pub struct Automaton {
    transition_map: Vec<(StepState, Vec<(Input, State)>)>,
    max_errors: u32,
    pattern: Ghost<Seq<char>>,
}

/// The outcome that advancing the pattern from `s` yields regardless of the
/// edit taken, if any: out of budget, or past the pattern's end.
spec fn preempting(p: Seq<char>, k: u32, s: StepState) -> Option<State> {
    if s.errors + 1 == k {
        Some(State::Fail)
    } else if s.index + 1 == p.len() {
        Some(State::Match)
    } else {
        None
    }
}

/// The preempting outcome, else the state at `index` with `errors` edits spent.
spec fn or_advance(pre: Option<State>, index: int, errors: int) -> State {
    match pre {
        Some(o) => o,
        None => State::Pending(StepState { index: index as usize, errors: errors as u32 }),
    }
}

/// How many transitions the table records for state `s` of budget `k`: the
/// edit transitions are recorded only for a state whose errors equal the budget.
spec fn transition_count(k: u32, s: StepState) -> int {
    if s.errors == k { 3 } else { 1 }
}

/// The `m`-th transition that the table records for state `s` of pattern `p`
/// with budget `k`: the pattern character, then a deletion, then the one `Glob`
/// entry that insertion and substitution share.
spec fn transition(p: Seq<char>, k: u32, s: StepState, m: int) -> (Input, State) {
    let pre = preempting(p, k, s);
    if m == 0 {
        (Input::Exact(p[s.index as int]), or_advance(pre, s.index + 1, s.errors as int))
    } else if m == 1 {
        (Input::Empty, State::Pending(StepState { index: s.index, errors: (s.errors + 1) as u32 }))
    } else {
        (Input::Glob, or_advance(pre, s.index + 1, s.errors + 1))
    }
}

/// Whether `entries` are the transitions that the table records for `s`.
spec fn records_transitions(entries: Seq<(Input, State)>, p: Seq<char>, k: u32, s: StepState) -> bool {
    &&& entries.len() == transition_count(k, s)
    &&& forall|m: int| 0 <= m < entries.len() ==> #[trigger] entries[m] == transition(p, k, s, m)
}

/// Whether the walk over the table of pattern `p` and budget `k` accepts when it
/// stands at state `(i, e)` and at target position `j`. A state outside the
/// pattern or over the budget is never in the table and rejects. A `Match`
/// reached from position `j` accepts when the target characters after `j`
/// number fewer than the budget left.
pub open spec fn walk(p: Seq<char>, k: int, t: Seq<char>, i: int, e: int, j: int) -> bool
    decreases t.len() - j, p.len() - i + k - e,
{
    if !(0 <= i < p.len() && 0 <= e <= k && 0 <= j < t.len()) {
        false
    } else {
        let exact = p[i] == t[j] && if e + 1 == k {
            false
        } else if i + 1 == p.len() {
            t.len() - j - 1 < k - e
        } else {
            walk(p, k, t, i + 1, e, j + 1)
        };
        let edit = e == k && (walk(p, k, t, i, e + 1, j) || if e + 1 == k {
            false
        } else if i + 1 == p.len() {
            t.len() - j - 1 < k - e
        } else {
            walk(p, k, t, i + 1, e + 1, j + 1)
        });
        exact || edit
    }
}

/// Whether the compiled automaton for pattern `p` and budget `k` accepts `t`.
pub open spec fn compiled_matches(p: Seq<char>, k: u32, t: Seq<char>) -> bool {
    walk(p, k as int, t, 0, 0, 0)
}

/// Whether the table entry `entry` of state `s` leads to acceptance from target
/// position `j`.
spec fn entry_accepts(
    p: Seq<char>,
    k: u32,
    t: Seq<char>,
    s: StepState,
    entry: (Input, State),
    j: int,
) -> bool {
    let compatible = match entry.0 {
        Input::Exact(c) => c == t[j],
        Input::Glob => true,
        Input::Empty => true,
    };
    let advance: int = match entry.0 {
        Input::Empty => 0,
        _ => 1,
    };
    compatible && match entry.1 {
        State::Match => t.len() - j - 1 < k - s.errors,
        State::Fail => false,
        State::Pending(n) => walk(p, k as int, t, n.index as int, n.errors as int, j + advance),
    }
}

/// Whether state `s` is a key of table `tm`.
spec fn table_has(tm: Seq<(StepState, Vec<(Input, State)>)>, s: StepState) -> bool {
    exists|n: int| 0 <= n < tm.len() && (#[trigger] tm[n]).0 == s
}

/// The keys of `tm` are distinct states inside the pattern with no edit spent,
/// each with the transitions that the rules give it.
spec fn table_sound(tm: Seq<(StepState, Vec<(Input, State)>)>, p: Seq<char>, k: u32) -> bool {
    &&& forall|n: int| 0 <= n < tm.len() ==> {
        &&& (#[trigger] tm[n]).0.index < p.len()
        &&& tm[n].0.errors == 0
        &&& records_transitions(tm[n].1@, p, k, tm[n].0)
    }
    &&& forall|n1: int, n2: int| 0 <= n1 < tm.len() && 0 <= n2 < tm.len() && n1 != n2 ==> (#[trigger] tm[n1]).0 != (#[trigger] tm[n2]).0
}

/// Every state that an entry of `tm` leads to is a key of `tm` or waits in `w`.
spec fn table_closed(tm: Seq<(StepState, Vec<(Input, State)>)>, w: Seq<StepState>) -> bool {
    forall|n: int, m: int| 0 <= n < tm.len() && 0 <= m < tm[n].1@.len() && (#[trigger] tm[n].1@[m]).1 is Pending
        ==> table_has(tm, tm[n].1@[m].1->Pending_0) || w.contains(tm[n].1@[m].1->Pending_0)
}

/// The index of the key `state` in `tm`, if it is one.
fn lookup(tm: &Vec<(StepState, Vec<(Input, State)>)>, state: StepState) -> (r: Option<usize>)
    ensures
        match r {
            Some(n) => n < tm@.len() && tm@[n as int].0 == state,
            None => !table_has(tm@, state),
        },
{
    let mut n: usize = 0;
    while n < tm.len()
        invariant
            n <= tm@.len(),
            forall|n2: int| 0 <= n2 < n ==> (#[trigger] tm@[n2]).0 != state,
        decreases tm@.len() - n,
    {
        if tm[n].0 == state {
            return Some(n);
        }
        n += 1;
    }
    None
}

/// The characters of `s`, in order.
fn chars_of(s: &str) -> (r: Vec<char>)
    ensures
        r@ == s@,
{
    let len = s.unicode_len();
    let mut r: Vec<char> = Vec::new();
    let mut i: usize = 0;
    while i < len
        invariant
            len == s@.len(),
            i <= len,
            r@ == s@.subrange(0, i as int),
        decreases len - i,
    {
        r.push(s.get_char(i));
        i += 1;
    }
    assert(r@ == s@.subrange(0, len as int));
    r
}

/// The transitions of `state`, as the rules give them, where `pattern_char` is
/// the pattern's character at the state's index.
fn transitions_at(
    pattern_char: char,
    pattern_len: usize,
    max_errors: u32,
    state: StepState,
    Ghost(pattern): Ghost<Seq<char>>,
) -> (r: Vec<(Input, State)>)
    requires
        state.index < pattern_len,
        pattern_len == pattern.len(),
        pattern_char == pattern[state.index as int],
        state.errors < u32::MAX,
    ensures
        records_transitions(r@, pattern, max_errors, state),
{
    let StepState { index, errors } = state;
    let preempting: Option<State> = if errors + 1 == max_errors {
        Some(State::Fail)
    } else if index + 1 == pattern_len {
        Some(State::Match)
    } else {
        None
    };
    let advance = match preempting {
        Some(o) => o,
        None => State::Pending(StepState { index: index + 1, errors }),
    };
    let mut r: Vec<(Input, State)> = Vec::new();
    r.push((Input::Exact(pattern_char), advance));
    if errors == max_errors {
        // Deletion.
        r.push((Input::Empty, State::Pending(StepState { index, errors: errors + 1 })));
        // Insertion and substitution.
        let edited = match preempting {
            Some(o) => o,
            None => State::Pending(StepState { index: index + 1, errors: errors + 1 }),
        };
        r.push((Input::Glob, edited));
    }
    r
}

/// Whether some state of `f`, standing at target position `j`, leads the walk
/// to acceptance.
spec fn column_walks(p: Seq<char>, k: u32, t: Seq<char>, f: Seq<StepState>, j: int) -> bool {
    exists|x: int| 0 <= x < f.len() && walk(p, k as int, t, (#[trigger] f[x]).index as int, f[x].errors as int, j)
}

/// Appending a state to a column adds what that state accepts.
proof fn lemma_column_push(p: Seq<char>, k: u32, t: Seq<char>, f: Seq<StepState>, s: StepState, j: int)
    ensures
        column_walks(p, k, t, f.push(s), j)
            == (column_walks(p, k, t, f, j) || walk(p, k as int, t, s.index as int, s.errors as int, j)),
{
    let g = f.push(s);
    assert(g[f.len() as int] == s);
    if column_walks(p, k, t, f, j) {
        let x = choose|x: int| 0 <= x < f.len() && walk(p, k as int, t, (#[trigger] f[x]).index as int, f[x].errors as int, j);
        assert(g[x] == f[x]);
    }
    if column_walks(p, k, t, g, j) {
        let x = choose|x: int| 0 <= x < g.len() && walk(p, k as int, t, (#[trigger] g[x]).index as int, g[x].errors as int, j);
        if x < f.len() {
            assert(g[x] == f[x]);
        }
    }
}

/// What a prefix of a column accepts, the column accepts.
proof fn lemma_column_take_prefix(p: Seq<char>, k: u32, t: Seq<char>, f: Seq<StepState>, n: int, j: int)
    requires
        0 <= n <= f.len(),
        column_walks(p, k, t, f.take(n), j),
    ensures
        column_walks(p, k, t, f, j),
{
    let g = f.take(n);
    let x = choose|x: int| 0 <= x < g.len() && walk(p, k as int, t, (#[trigger] g[x]).index as int, g[x].errors as int, j);
    assert(g[x] == f[x]);
}

/// Adding state `s` to `before`, where `after` holds the same states and `s`,
/// adds what `s` accepts to what the column accepts.
proof fn lemma_column_add(
    p: Seq<char>,
    k: u32,
    t: Seq<char>,
    before: Seq<StepState>,
    after: Seq<StepState>,
    s: StepState,
    j: int,
)
    requires
        after.contains(s),
        forall|x: StepState| before.contains(x) ==> after.contains(x),
        forall|x: StepState| after.contains(x) ==> before.contains(x) || x == s,
    ensures
        column_walks(p, k, t, after, j)
            == (column_walks(p, k, t, before, j) || walk(p, k as int, t, s.index as int, s.errors as int, j)),
{
    if column_walks(p, k, t, before, j) {
        let x = choose|x: int| 0 <= x < before.len() && walk(p, k as int, t, (#[trigger] before[x]).index as int, before[x].errors as int, j);
        assert(before.contains(before[x]));
        let y = choose|y: int| 0 <= y < after.len() && after[y] == before[x];
        assert(walk(p, k as int, t, after[y].index as int, after[y].errors as int, j));
    }
    if walk(p, k as int, t, s.index as int, s.errors as int, j) {
        let y = choose|y: int| 0 <= y < after.len() && after[y] == s;
        assert(walk(p, k as int, t, after[y].index as int, after[y].errors as int, j));
    }
    if column_walks(p, k, t, after, j) {
        let y = choose|y: int| 0 <= y < after.len() && walk(p, k as int, t, (#[trigger] after[y]).index as int, after[y].errors as int, j);
        assert(after.contains(after[y]));
        if after[y] != s {
            let x = choose|x: int| 0 <= x < before.len() && before[x] == after[y];
            assert(walk(p, k as int, t, before[x].index as int, before[x].errors as int, j));
        }
    }
}

/// For a state with budget left, the walk accepts at target position `j`
/// exactly when one of the recorded transitions does.
proof fn lemma_entries_accept(p: Seq<char>, k: u32, t: Seq<char>, s: StepState, entries: Seq<(Input, State)>, j: int)
    requires
        records_transitions(entries, p, k, s),
        s.index < p.len(),
        s.errors < k,
        p.len() <= usize::MAX,
        0 <= j < t.len(),
    ensures
        walk(p, k as int, t, s.index as int, s.errors as int, j)
            == exists|m: int| 0 <= m < entries.len() && #[trigger] entry_accepts(p, k, t, s, entries[m], j),
{
    assert(entries[0] == transition(p, k, s, 0));
    if walk(p, k as int, t, s.index as int, s.errors as int, j) {
        assert(entry_accepts(p, k, t, s, entries[0], j));
    }
}

/// Adds `s` to `v` unless it is there already.
fn add_state(v: &mut Vec<StepState>, s: StepState)
    ensures
        final(v)@.contains(s),
        forall|x: StepState| old(v)@.contains(x) ==> final(v)@.contains(x),
        forall|x: StepState| final(v)@.contains(x) ==> old(v)@.contains(x) || x == s,
        forall|y: int| 0 <= y < final(v)@.len() ==> final(v)@[y] == s || old(v)@.contains(#[trigger] final(v)@[y]),
{
    let mut y: usize = 0;
    while y < v.len()
        invariant
            y <= v@.len(),
            forall|y2: int| 0 <= y2 < y ==> #[trigger] v@[y2] != s,
        decreases v@.len() - y,
    {
        if v[y] == s {
            assert(v@[y as int] == s);
            return;
        }
        y += 1;
    }
    let ghost before = v@;
    v.push(s);
    assert(v@[before.len() as int] == s);
    assert forall|x: StepState| before.contains(x) implies v@.contains(x) by {
        let w = choose|w: int| 0 <= w < before.len() && before[w] == x;
        assert(v@[w] == x);
    }
    assert forall|y: int| 0 <= y < v@.len() implies v@[y] == s || before.contains(#[trigger] v@[y]) by {
        if y < before.len() {
            assert(v@[y] == before[y]);
        }
    }
}

impl Automaton {
    /// The pattern that the table was built from.
    pub closed spec fn spec_pattern(&self) -> Seq<char> {
        self.pattern@
    }

    /// The edit budget.
    pub closed spec fn spec_max_errors(&self) -> u32 {
        self.max_errors
    }

    /// The table holds the start state first, every state that an entry leads
    /// to, and for each state the transitions that the rules give it; every
    /// state in it lies inside the pattern and has budget left.
    pub closed spec fn wf(&self) -> bool {
        let tm = self.transition_map@;
        &&& self.pattern@.len() <= usize::MAX
        &&& table_sound(tm, self.pattern@, self.max_errors)
        &&& table_closed(tm, Seq::empty())
        &&& tm.len() > 0
        &&& tm[0].0 == (StepState { index: 0, errors: 0 })
        &&& forall|n: int| 0 <= n < tm.len() ==> (#[trigger] tm[n]).0.errors < self.max_errors
    }

    /// Builds the table by exploring every state reachable from the start.
    /// Each state is explored once; a state reached outside the pattern or over
    /// the budget stops the exploration with an error.
    fn explore_states(&mut self, pattern: &Vec<char>, start: StepState) -> (r: Result<(), BuildError>)
        requires
            old(self).transition_map@.len() == 0,
            old(self).pattern@ == pattern@,
            start == (StepState { index: 0, errors: 0 }),
        ensures
            final(self).pattern@ == pattern@,
            final(self).max_errors == old(self).max_errors,
            match r {
                Ok(()) => final(self).wf(),
                Err(BuildError::PatternIndexOutOfRange) => pattern@.len() == 0,
                Err(BuildError::ErrorsOverBudget) => pattern@.len() > 0 && old(self).max_errors == 0,
            },
    {
        let ghost p = pattern@;
        let k = self.max_errors;
        if pattern.len() == 0 {
            // The start state already lies outside the pattern.
            return Err(BuildError::PatternIndexOutOfRange);
        }
        let pattern_len = pattern.len();
        let mut worklist: Vec<StepState> = Vec::new();
        worklist.push(start);
        let ghost mut seen: Set<int> = Set::empty();
        while worklist.len() > 0
            invariant
                self.pattern@ == p,
                self.max_errors == k,
                k == old(self).max_errors,
                pattern@ == p,
                pattern_len == p.len(),
                p.len() > 0,
                start == (StepState { index: 0, errors: 0 }),
                table_sound(self.transition_map@, p, k),
                table_closed(self.transition_map@, worklist@),
                seen.finite(),
                seen.len() == self.transition_map@.len(),
                seen.subset_of(set_int_range(0, p.len() as int)),
                forall|n: int| 0 <= n < self.transition_map@.len()
                    ==> seen.contains((#[trigger] self.transition_map@[n]).0.index as int),
                forall|i: int| #[trigger] seen.contains(i)
                    ==> exists|n: int| 0 <= n < self.transition_map@.len() && (#[trigger] self.transition_map@[n]).0.index == i,
                forall|w: int| 0 <= w < worklist@.len() ==> {
                    &&& (#[trigger] worklist@[w]).index < p.len()
                    &&& (worklist@[w].errors == 0 || (worklist@[w].errors == 1 && k == 0))
                },
                self.transition_map@.len() == 0 ==> worklist@ == seq![start],
                self.transition_map@.len() > 0 ==> self.transition_map@[0].0 == start,
            decreases p.len() - self.transition_map@.len(), worklist@.len(),
        {
            proof {
                lemma_int_range(0, p.len() as int);
                lemma_len_subset(seen, set_int_range(0, p.len() as int));
            }
            let ghost before = worklist@;
            let s = worklist.pop().unwrap();
            assert(before == worklist@.push(s));
            assert(before[before.len() - 1] == s);
            assert forall|w: int| 0 <= w < worklist@.len() implies #[trigger] worklist@[w] == before[w] by {}
            if s.errors > k {
                return Err(BuildError::ErrorsOverBudget);
            }
            match lookup(&self.transition_map, s) {
                Some(_) => {
                    assert forall|n: int, m: int| 0 <= n < self.transition_map@.len() && 0 <= m < self.transition_map@[n].1@.len()
                        && (#[trigger] self.transition_map@[n].1@[m]).1 is Pending implies
                        table_has(self.transition_map@, self.transition_map@[n].1@[m].1->Pending_0)
                            || worklist@.contains(self.transition_map@[n].1@[m].1->Pending_0) by {
                        let x = self.transition_map@[n].1@[m].1->Pending_0;
                        if before.contains(x) && x != s {
                            let w = choose|w: int| 0 <= w < before.len() && before[w] == x;
                            assert(worklist@[w] == x);
                        }
                    }
                },
                None => {
                    let entries = transitions_at(pattern[s.index], pattern_len, k, s, Ghost(p));
                    let ghost tm0 = self.transition_map@;
                    let ghost wl0 = worklist@;
                    let mut m: usize = 0;
                    while m < entries.len()
                        invariant
                            records_transitions(entries@, p, k, s),
                            pattern_len == p.len(),
                            s.index < p.len(),
                            s.errors == 0,
                            m <= entries@.len(),
                            forall|x: StepState| wl0.contains(x) ==> worklist@.contains(x),
                            forall|m2: int| 0 <= m2 < m && (#[trigger] entries@[m2]).1 is Pending
                                ==> worklist@.contains(entries@[m2].1->Pending_0),
                            forall|w: int| 0 <= w < worklist@.len() ==> {
                                &&& (#[trigger] worklist@[w]).index < p.len()
                                &&& (worklist@[w].errors == 0 || (worklist@[w].errors == 1 && k == 0))
                            },
                        decreases entries@.len() - m,
                    {
                        if let State::Pending(next) = entries[m].1 {
                            proof {
                                let e = entries@[m as int];
                                assert(e.1 == State::Pending(next));
                                if m == 0 {
                                    assert(next.index == s.index + 1 && next.errors == 0);
                                } else if m == 1 {
                                    assert(k == 0 && next.index == s.index && next.errors == 1);
                                } else {
                                    assert(k == 0 && next.index == s.index + 1 && next.errors == 1);
                                }
                            }
                            let ghost wl1 = worklist@;
                            worklist.push(next);
                            assert(worklist@[wl1.len() as int] == next);
                            assert forall|x: StepState| wl1.contains(x) implies worklist@.contains(x) by {
                                let w = choose|w: int| 0 <= w < wl1.len() && wl1[w] == x;
                                assert(worklist@[w] == x);
                            }
                        }
                        m += 1;
                    }
                    proof {
                        seen = seen.insert(s.index as int);
                    }
                    self.transition_map.push((s, entries));
                    let ghost tm = self.transition_map@;
                    assert(tm[tm.len() - 1] == (s, entries));
                    assert forall|n: int| 0 <= n < tm0.len() implies #[trigger] tm[n] == tm0[n] by {}
                    assert forall|n: int| 0 <= n < tm.len() implies seen.contains((#[trigger] tm[n]).0.index as int) by {}
                    assert forall|i: int| #[trigger] seen.contains(i)
                        implies exists|n: int| 0 <= n < tm.len() && (#[trigger] tm[n]).0.index == i by {
                        if i != s.index {
                            let n = choose|n: int| 0 <= n < tm0.len() && (#[trigger] tm0[n]).0.index == i;
                            assert(tm[n] == tm0[n]);
                        } else {
                            assert(tm[tm.len() - 1].0.index == i);
                        }
                    }
                    assert forall|n: int, m2: int| 0 <= n < tm.len() && 0 <= m2 < tm[n].1@.len()
                        && (#[trigger] tm[n].1@[m2]).1 is Pending implies
                        table_has(tm, tm[n].1@[m2].1->Pending_0) || worklist@.contains(tm[n].1@[m2].1->Pending_0) by {
                        let x = tm[n].1@[m2].1->Pending_0;
                        if n < tm0.len() {
                            assert(tm[n] == tm0[n]);
                            assert(tm0[n].1@[m2].1 == tm[n].1@[m2].1);
                            if x == s {
                                assert(tm[tm.len() - 1].0 == x);
                            } else if table_has(tm0, x) {
                                let n2 = choose|n2: int| 0 <= n2 < tm0.len() && (#[trigger] tm0[n2]).0 == x;
                                assert(tm[n2] == tm0[n2]);
                            } else {
                                assert(before.contains(x));
                                let w = choose|w: int| 0 <= w < before.len() && before[w] == x;
                                assert(w != before.len() - 1);
                                assert(wl0[w] == x);
                                assert(wl0.contains(x));
                            }
                        } else {
                            assert(tm[n].1@ == entries@);
                            assert(entries@[m2].1 is Pending);
                        }
                    }
                    assert forall|n1: int, n2: int| 0 <= n1 < tm.len() && 0 <= n2 < tm.len() && n1 != n2
                        implies (#[trigger] tm[n1]).0 != (#[trigger] tm[n2]).0 by {
                        if n1 < tm0.len() && n2 < tm0.len() {
                            assert(tm[n1] == tm0[n1] && tm[n2] == tm0[n2]);
                        } else if n1 < tm0.len() {
                            assert(tm[n1] == tm0[n1]);
                        } else if n2 < tm0.len() {
                            assert(tm[n2] == tm0[n2]);
                        }
                    }
                    proof {
                        lemma_len_subset(seen, set_int_range(0, p.len() as int));
                    }
                },
            }
        }
        proof {
            let tm = self.transition_map@;
            assert(worklist@ =~= Seq::<StepState>::empty());
            assert(tm[0].0 == start);
            assert(records_transitions(tm[0].1@, p, k, tm[0].0));
            if k == 0 {
                let succ = tm[0].1@[1].1->Pending_0;
                assert(tm[0].1@[1].1 is Pending);
                let n2 = choose|n2: int| 0 <= n2 < tm.len() && (#[trigger] tm[n2]).0 == succ;
                assert(tm[n2].0.errors == 0);
            }
        }
        Ok(())
    }

    /// Advances the walk across target position `index`: `None` when a state of
    /// `frontier` accepts there, else the distinct states that its transitions
    /// lead to at the next position.
    fn match_helper(
        &self,
        frontier: &Vec<StepState>,
        index: usize,
        target: &str,
        target_len: usize,
    ) -> (r: Option<Vec<StepState>>)
        requires
            self.wf(),
            target_len == target@.len(),
            index < target_len,
            forall|x: int| 0 <= x < frontier@.len() ==> table_has(self.transition_map@, #[trigger] frontier@[x]),
        ensures
            match r {
                None => column_walks(self.pattern@, self.max_errors, target@, frontier@, index as int),
                Some(next) => {
                    &&& forall|x: int| 0 <= x < next@.len() ==> table_has(self.transition_map@, #[trigger] next@[x])
                    &&& column_walks(self.pattern@, self.max_errors, target@, frontier@, index as int)
                        == column_walks(self.pattern@, self.max_errors, target@, next@, index + 1)
                },
            },
    {
        let ghost p = self.pattern@;
        let ghost k = self.max_errors;
        let ghost t = target@;
        let ghost j = index as int;
        let ghost tm = self.transition_map@;
        let c = target.get_char(index);
        let mut next: Vec<StepState> = Vec::new();
        let mut x: usize = 0;
        while x < frontier.len()
            invariant
                self.wf(),
                tm == self.transition_map@,
                p == self.pattern@,
                k == self.max_errors,
                t == target@,
                target_len == t.len(),
                j == index,
                index < target_len,
                c == t[j],
                forall|x2: int| 0 <= x2 < frontier@.len() ==> table_has(tm, #[trigger] frontier@[x2]),
                forall|y: int| 0 <= y < next@.len() ==> table_has(tm, #[trigger] next@[y]),
                x <= frontier@.len(),
                column_walks(p, k, t, frontier@.take(x as int), j) == column_walks(p, k, t, next@, j + 1),
            decreases frontier@.len() - x,
        {
            let ghost done = frontier@.take(x as int);
            let ghost upto = frontier@.take(x + 1);
            proof {
                lemma_column_push(p, k, t, done, frontier@[x as int], j);
                assert(upto == done.push(frontier@[x as int]));
            }
            // An `Empty` transition leads to a state at the same position:
            // follow such states one after another.
            let mut s = frontier[x];
            let mut more = true;
            while more
                invariant
                    self.wf(),
                    tm == self.transition_map@,
                    p == self.pattern@,
                    k == self.max_errors,
                    t == target@,
                    target_len == t.len(),
                    j == index,
                    index < target_len,
                    c == t[j],
                    table_has(tm, s),
                    x < frontier@.len(),
                    upto == frontier@.take(x + 1),
                    forall|y: int| 0 <= y < next@.len() ==> table_has(tm, #[trigger] next@[y]),
                    more ==> (column_walks(p, k, t, upto, j) == (
                        walk(p, k as int, t, s.index as int, s.errors as int, j)
                            || column_walks(p, k, t, next@, j + 1))),
                    !more ==> column_walks(p, k, t, upto, j) == column_walks(p, k, t, next@, j + 1),
                decreases p.len() - s.index + k - s.errors + if more { 1int } else { 0 },
            {
                let n = match lookup(&self.transition_map, s) {
                    Some(n) => n,
                    None => {
                        // A state without an entry rejects.
                        more = false;
                        continue;
                    },
                };
                let transitions = &self.transition_map[n].1;
                proof {
                    lemma_entries_accept(p, k, t, s, transitions@, j);
                }
                let mut empty: Option<StepState> = None;
                let mut m: usize = 0;
                while m < transitions.len()
                    invariant
                        self.wf(),
                        tm == self.transition_map@,
                        p == self.pattern@,
                        k == self.max_errors,
                        t == target@,
                        target_len == t.len(),
                        j == index,
                        index < target_len,
                        c == t[j],
                        table_has(tm, s),
                        n < tm.len(),
                        tm[n as int].0 == s,
                        transitions@ == tm[n as int].1@,
                        records_transitions(transitions@, p, k, s),
                        s.errors < k,
                        s.index < p.len(),
                        m <= transitions@.len(),
                        empty is None,
                        x < frontier@.len(),
                        upto == frontier@.take(x + 1),
                        forall|y: int| 0 <= y < next@.len() ==> table_has(tm, #[trigger] next@[y]),
                        column_walks(p, k, t, upto, j) == (
                            (exists|m2: int| m <= m2 < transitions@.len()
                                && #[trigger] entry_accepts(p, k, t, s, transitions@[m2], j))
                                || column_walks(p, k, t, next@, j + 1)),
                    decreases transitions@.len() - m,
                {
                    let ghost before = next@;
                    let (input, outcome) = transitions[m];
                    proof {
                        let later = exists|m2: int| m + 1 <= m2 < transitions@.len()
                            && #[trigger] entry_accepts(p, k, t, s, transitions@[m2], j);
                        let from_here = exists|m2: int| m <= m2 < transitions@.len()
                            && #[trigger] entry_accepts(p, k, t, s, transitions@[m2], j);
                        assert(from_here == (entry_accepts(p, k, t, s, transitions@[m as int], j) || later));
                        assert(m == 0);
                    }
                    let compatible: bool = match input {
                        Input::Exact(x) => x == c,
                        Input::Glob => true,
                        Input::Empty => true,
                    };
                    if compatible {
                        match outcome {
                            State::Match => {
                                // The target characters after this one must be
                                // absorbed by the budget that is left.
                                if (target_len - index - 1) < ((self.max_errors - s.errors) as usize) {
                                    proof {
                                        lemma_column_take_prefix(p, k, t, frontier@, x + 1, j);
                                    }
                                    return None;
                                }
                            },
                            State::Fail => {},
                            State::Pending(to) => {
                                match input {
                                    Input::Empty => {
                                        empty = Some(to);
                                    },
                                    _ => {
                                        proof {
                                            assert(tm[n as int].1@[m as int].1 is Pending);
                                            if !table_has(tm, to) {
                                                assert(Seq::<StepState>::empty().contains(to));
                                            }
                                        }
                                        add_state(&mut next, to);
                                        proof {
                                            lemma_column_add(p, k, t, before, next@, to, j + 1);
                                        }
                                    },
                                }
                            },
                        }
                    }
                    m += 1;
                }
                match empty {
                    Some(d) => {
                        s = d;
                    },
                    None => {
                        more = false;
                    },
                }
            }
            x += 1;
        }
        proof {
            assert(frontier@.take(frontier@.len() as int) == frontier@);
        }
        Some(next)
    }

    /// Whether `target` lies within the edit budget of the pattern, as the walk
    /// over the table from the start state decides it. The walk runs across the
    /// target one position at a time and keeps, for each position, the distinct
    /// states that stand there.
    pub fn is_match(&self, target: &str) -> (r: bool)
        requires
            self.wf(),
        ensures
            r == compiled_matches(self.spec_pattern(), self.spec_max_errors(), target@),
    {
        let target_len = target.unicode_len();
        let ghost p = self.pattern@;
        let ghost k = self.max_errors;
        let ghost t = target@;
        let start = StepState { index: 0, errors: 0 };
        let mut frontier: Vec<StepState> = Vec::new();
        frontier.push(start);
        proof {
            assert(self.transition_map@[0].0 == start);
            assert(frontier@[0] == start);
            assert(walk(p, k as int, t, 0, 0, 0) ==> column_walks(p, k, t, frontier@, 0));
        }
        let mut index: usize = 0;
        while index < target_len
            invariant
                self.wf(),
                p == self.pattern@,
                k == self.max_errors,
                t == target@,
                target_len == t.len(),
                index <= target_len,
                forall|x: int| 0 <= x < frontier@.len() ==> table_has(self.transition_map@, #[trigger] frontier@[x]),
                compiled_matches(p, k, t) == column_walks(p, k, t, frontier@, index as int),
            decreases target_len - index,
        {
            match self.match_helper(&frontier, index, target, target_len) {
                None => {
                    return true;
                },
                Some(next) => {
                    frontier = next;
                    index += 1;
                },
            }
        }
        false
    }

    /// Builds the table for the pattern and budget of `source_automaton`.
    /// Fails when the pattern is empty (the start state lies outside it) or the
    /// budget is zero (a deletion from the start spends an edit over the budget).
    pub fn new(source_automaton: &NondeterministicAutomaton) -> (r: Result<Automaton, BuildError>)
        ensures
            match r {
                Ok(a) => {
                    &&& a.wf()
                    &&& a.spec_pattern() == source_automaton.pattern@
                    &&& a.spec_max_errors() == source_automaton.max_errors
                },
                Err(BuildError::PatternIndexOutOfRange) => source_automaton.pattern@.len() == 0,
                Err(BuildError::ErrorsOverBudget) => {
                    &&& source_automaton.pattern@.len() > 0
                    &&& source_automaton.max_errors == 0
                },
            },
            r is Ok <==> (source_automaton.pattern@.len() > 0 && source_automaton.max_errors > 0),
    {
        let pattern = chars_of(source_automaton.pattern);
        let mut aut = Automaton {
            transition_map: Vec::new(),
            max_errors: source_automaton.max_errors,
            pattern: Ghost(pattern@),
        };
        match aut.explore_states(&pattern, StepState { index: 0, errors: 0 }) {
            Ok(()) => Ok(aut),
            Err(e) => Err(e),
        }
    }
}

/// Whether `t` starts with the non-empty pattern `p`, the budget `k` is at
/// least two, and the target characters after the pattern number fewer than `k`.
pub open spec fn prefix_within(p: Seq<char>, k: u32, t: Seq<char>) -> bool {
    &&& p.len() > 0
    &&& k >= 2
    &&& p.len() <= t.len()
    &&& t.subrange(0, p.len() as int) == p
    &&& t.len() - p.len() < k
}

/// From state `(i, 0)` at target position `j` the walk follows the pattern
/// character by character and accepts exactly when the rest of the pattern
/// lies in the target at `j` with fewer than `k` characters after it, and the
/// budget is at least two.
proof fn lemma_walk_from(p: Seq<char>, k: u32, t: Seq<char>, i: int, j: int)
    requires
        0 <= i < p.len(),
        0 <= j,
    ensures
        walk(p, k as int, t, i, 0, j) <==> {
            &&& k >= 2
            &&& j + (p.len() - i) <= t.len()
            &&& forall|d: int| 0 <= d < p.len() - i ==> t[j + d] == #[trigger] p[i + d]
            &&& t.len() - (j + (p.len() - i)) < k
        },
    decreases p.len() - i,
{
    let rest = p.len() - i;
    if j >= t.len() {
        return;
    }
    if k == 0 {
        assert(!walk(p, k as int, t, i, 1, j));
        if i + 1 < p.len() {
            lemma_walk_from(p, k, t, i + 1, j + 1);
            assert(!walk(p, k as int, t, i + 1, 1, j + 1));
        }
        return;
    }
    if i + 1 < p.len() {
        lemma_walk_from(p, k, t, i + 1, j + 1);
        if k >= 2 && j + rest <= t.len() && t.len() - (j + rest) < k {
            let all = forall|d: int| 0 <= d < rest ==> t[j + d] == #[trigger] p[i + d];
            let tail = forall|d: int| 0 <= d < rest - 1 ==> t[j + 1 + d] == #[trigger] p[i + 1 + d];
            if all {
                assert forall|d: int| 0 <= d < rest - 1 implies t[j + 1 + d] == #[trigger] p[i + 1 + d] by {
                    assert(t[j + (d + 1)] == p[i + (d + 1)]);
                }
                assert(t[j + 0] == p[i + 0]);
            }
            if tail && p[i] == t[j] {
                assert forall|d: int| 0 <= d < rest implies t[j + d] == #[trigger] p[i + d] by {
                    if d > 0 {
                        assert(t[j + 1 + (d - 1)] == p[i + 1 + (d - 1)]);
                    }
                }
            }
        } else if p[i] == t[j] && k >= 2 {
            assert(!(forall|d: int| 0 <= d < rest ==> t[j + d] == #[trigger] p[i + d]) || !(j + rest <= t.len() && t.len() - (j + rest) < k));
        }
    } else {
        if p[i] == t[j] {
            assert forall|d: int| 0 <= d < rest implies t[j + d] == #[trigger] p[i + d] by {
                assert(d == 0);
            }
        } else {
            assert(t[j + 0] != p[i + 0]);
        }
    }
}

/// The compiled automaton records edit transitions only at states whose errors
/// equal the budget, and none of those is reachable when the budget is positive:
/// it accepts exactly the targets that start with the non-empty pattern and
/// carry fewer than `k` characters after it, for a budget `k` of at least two.
pub proof fn lemma_compiled_is_prefix_match(p: Seq<char>, k: u32, t: Seq<char>)
    ensures
        compiled_matches(p, k, t) <==> prefix_within(p, k, t),
{
    if p.len() > 0 {
        lemma_walk_from(p, k, t, 0, 0);
        if p.len() <= t.len() {
            if t.subrange(0, p.len() as int) == p {
                assert forall|d: int| 0 <= d < p.len() implies t[0 + d] == #[trigger] p[0 + d] by {
                    assert(t.subrange(0, p.len() as int)[d] == t[d]);
                }
            }
            if forall|d: int| 0 <= d < p.len() ==> t[0 + d] == #[trigger] p[0 + d] {
                assert forall|d: int| 0 <= d < p.len() implies #[trigger] t.subrange(0, p.len() as int)[d] == p[d] by {
                    assert(t[0 + d] == p[0 + d]);
                }
                assert(t.subrange(0, p.len() as int) =~= p);
            }
        }
    }
}

/// Whatever the compiled automaton accepts, the simulated automaton built from
/// the same pattern and budget accepts too. The converse fails: with pattern
/// "Hello" and budget two, the simulated automaton accepts "Hello,," and the
/// compiled one does not.
pub proof fn lemma_compiled_implies_simulated(p: Seq<char>, k: u32, t: Seq<char>)
    requires
        compiled_matches(p, k, t),
    ensures
        sim_matches(p, k, t),
{
    lemma_compiled_is_prefix_match(p, k, t);
    lemma_prefix_accepted(p, k, t, 0);
}

/// On a target that starts with the pattern and has fewer than `k` characters
/// after it, the search accepts from `(i, 0)` at target position `i`.
proof fn lemma_prefix_accepted(p: Seq<char>, k: u32, t: Seq<char>, i: int)
    requires
        prefix_within(p, k, t),
        0 <= i < p.len(),
    ensures
        accepts_from(p, k as int, t, i, 0, i),
    decreases p.len() - i,
{
    assert(t[i] == t.subrange(0, p.len() as int)[i]);
    if i + 1 < p.len() {
        lemma_prefix_accepted(p, k, t, i + 1);
    } else if t.len() > p.len() {
        assert(accepts_from(p, k as int, t, i + 1, 0, i + 1));
    } else {
        assert(accepts_from(p, k as int, t, i + 1, 1, i));
    }
}

/// The compiled automaton never accepts the empty target: the walk has no
/// character to present.
pub proof fn lemma_compiled_empty_target_rejected(p: Seq<char>, k: u32)
    ensures
        !compiled_matches(p, k, Seq::empty()),
{
}

} // verus!
