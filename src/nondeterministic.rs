//! The simulated automaton: answers each query by a search over every edit
//! path, with no table built beforehand.
use vstd::prelude::*;

verus! {

/// A point of the search: the next pattern position to consume and the
/// number of edits spent to get there.
#[derive(Clone, Copy, Debug, PartialEq, Eq, Structural)]
struct State {
    index: usize,
    errors: u32,
}

/// What one step of the search yields.
enum Output {
    /// The pattern is used up.
    Match,
    /// Go on from the step's state after consuming this many target characters.
    Step(u32),
    /// The budget is spent and the characters differ.
    Fail,
}

/// One outcome of a step: the state it leads to and what it yields.
struct Step(State, Output);

/// Matches targets against `pattern` with at most `max_errors` edits.
pub struct Automaton<'a> {
    pub pattern: &'a str,
    pub max_errors: u32,
}

/// The outcomes offered at state `s` against target character `c`, for pattern
/// `p` and budget `k`.
spec fn step_outcomes(p: Seq<char>, k: u32, s: State, c: char) -> Seq<Step> {
    if s.index == p.len() {
        seq![Step(s, Output::Match)]
    } else {
        let cost: u32 = if p[s.index as int] == c { 0 } else { 1 };
        let advanced = State { index: (s.index + 1) as usize, errors: (s.errors + cost) as u32 };
        if s.errors == k {
            if cost == 1 {
                seq![Step(s, Output::Fail)]
            } else {
                seq![Step(advanced, Output::Step(1))]
            }
        } else {
            seq![
                Step(State { index: (s.index + 1) as usize, errors: (s.errors + 1) as u32 }, Output::Step(0)),
                Step(State { index: s.index, errors: (s.errors + 1) as u32 }, Output::Step(1)),
                Step(advanced, Output::Step(1)),
            ]
        }
    }
}

/// Whether the search accepts when it stands at pattern position `i` with `e`
/// edits spent and at target position `j`: some path of deletions (pattern
/// advances alone), insertions (target advances alone) and matches or
/// substitutions (both advance) reaches the end of the pattern while the
/// target characters after the current one number fewer than the budget left.
pub open spec fn accepts_from(p: Seq<char>, k: int, t: Seq<char>, i: int, e: int, j: int) -> bool
    decreases (t.len() - j) + (p.len() - i),
{
    if j < 0 || j >= t.len() || i < 0 {
        false
    } else if i >= p.len() {
        t.len() - j - 1 < k - e
    } else {
        let cost: int = if p[i] == t[j] { 0 } else { 1 };
        if e >= k {
            cost == 0 && accepts_from(p, k, t, i + 1, e, j + 1)
        } else {
            accepts_from(p, k, t, i + 1, e + 1, j)
                || accepts_from(p, k, t, i, e + 1, j + 1)
                || accepts_from(p, k, t, i + 1, e + cost, j + 1)
        }
    }
}

/// Whether the simulated automaton for pattern `p` and budget `k` accepts `t`.
pub open spec fn sim_matches(p: Seq<char>, k: u32, t: Seq<char>) -> bool {
    accepts_from(p, k as int, t, 0, 0, 0)
}

/// Whether the outcome `st` of a step taken at target position `j` leads to
/// acceptance.
spec fn outcome_accepts(p: Seq<char>, k: u32, t: Seq<char>, st: Step, j: int) -> bool {
    match st.1 {
        Output::Match => t.len() - j - 1 < k - st.0.errors,
        Output::Fail => false,
        Output::Step(a) => accepts_from(p, k as int, t, st.0.index as int, st.0.errors as int, j + a),
    }
}

/// Every state of `f` lies within the pattern and the budget.
spec fn states_valid(f: Seq<State>, pattern_len: usize, k: u32) -> bool {
    forall|x: int| 0 <= x < f.len() ==> (#[trigger] f[x]).index <= pattern_len && f[x].errors <= k
}

/// Whether some state of `f`, standing at target position `j`, leads to acceptance.
spec fn column_accepts(p: Seq<char>, k: u32, t: Seq<char>, f: Seq<State>, j: int) -> bool {
    exists|x: int| 0 <= x < f.len() && accepts_from(p, k as int, t, (#[trigger] f[x]).index as int, f[x].errors as int, j)
}

/// Appending a state to a column adds what that state accepts.
proof fn lemma_column_push(p: Seq<char>, k: u32, t: Seq<char>, f: Seq<State>, s: State, j: int)
    ensures
        column_accepts(p, k, t, f.push(s), j)
            == (column_accepts(p, k, t, f, j) || accepts_from(p, k as int, t, s.index as int, s.errors as int, j)),
{
    let g = f.push(s);
    assert(g[f.len() as int] == s);
    if column_accepts(p, k, t, f, j) {
        let x = choose|x: int| 0 <= x < f.len() && accepts_from(p, k as int, t, (#[trigger] f[x]).index as int, f[x].errors as int, j);
        assert(g[x] == f[x]);
    }
    if column_accepts(p, k, t, g, j) {
        let x = choose|x: int| 0 <= x < g.len() && accepts_from(p, k as int, t, (#[trigger] g[x]).index as int, g[x].errors as int, j);
        if x < f.len() {
            assert(g[x] == f[x]);
        }
    }
}

/// What a prefix of a column accepts, the column accepts.
proof fn lemma_column_take_prefix(p: Seq<char>, k: u32, t: Seq<char>, f: Seq<State>, n: int, j: int)
    requires
        0 <= n <= f.len(),
        column_accepts(p, k, t, f.take(n), j),
    ensures
        column_accepts(p, k, t, f, j),
{
    let g = f.take(n);
    let x = choose|x: int| 0 <= x < g.len() && accepts_from(p, k as int, t, (#[trigger] g[x]).index as int, g[x].errors as int, j);
    assert(g[x] == f[x]);
}

/// Adding state `s` to `before`, where `after` holds the same states and `s`,
/// adds what `s` accepts to what the column accepts.
proof fn lemma_column_add(p: Seq<char>, k: u32, t: Seq<char>, before: Seq<State>, after: Seq<State>, s: State, j: int)
    requires
        after.contains(s),
        forall|x: State| before.contains(x) ==> after.contains(x),
        forall|x: State| after.contains(x) ==> before.contains(x) || x == s,
    ensures
        column_accepts(p, k, t, after, j)
            == (column_accepts(p, k, t, before, j) || accepts_from(p, k as int, t, s.index as int, s.errors as int, j)),
{
    if column_accepts(p, k, t, before, j) {
        let x = choose|x: int| 0 <= x < before.len() && accepts_from(p, k as int, t, (#[trigger] before[x]).index as int, before[x].errors as int, j);
        assert(before.contains(before[x]));
        let y = choose|y: int| 0 <= y < after.len() && after[y] == before[x];
        assert(accepts_from(p, k as int, t, after[y].index as int, after[y].errors as int, j));
    }
    if accepts_from(p, k as int, t, s.index as int, s.errors as int, j) {
        let y = choose|y: int| 0 <= y < after.len() && after[y] == s;
        assert(accepts_from(p, k as int, t, after[y].index as int, after[y].errors as int, j));
    }
    if column_accepts(p, k, t, after, j) {
        let y = choose|y: int| 0 <= y < after.len() && accepts_from(p, k as int, t, (#[trigger] after[y]).index as int, after[y].errors as int, j);
        assert(after.contains(after[y]));
        if after[y] != s {
            let x = choose|x: int| 0 <= x < before.len() && before[x] == after[y];
            assert(accepts_from(p, k as int, t, before[x].index as int, before[x].errors as int, j));
        }
    }
}

/// A state accepts at target position `j` exactly when one of the outcomes of
/// its step there does.
proof fn lemma_step_accepts(p: Seq<char>, k: u32, t: Seq<char>, s: State, j: int)
    requires
        s.index <= p.len(),
        s.errors <= k,
        0 <= j < t.len(),
        p.len() <= usize::MAX,
    ensures
        accepts_from(p, k as int, t, s.index as int, s.errors as int, j)
            == exists|m: int| 0 <= m < step_outcomes(p, k, s, t[j]).len()
                && #[trigger] outcome_accepts(p, k, t, step_outcomes(p, k, s, t[j])[m], j),
{
    let steps = step_outcomes(p, k, s, t[j]);
    let i = s.index as int;
    let e = s.errors as int;
    if accepts_from(p, k as int, t, i, e, j) {
        if i == p.len() {
            assert(outcome_accepts(p, k, t, steps[0], j));
        } else if e >= k {
            assert(outcome_accepts(p, k, t, steps[0], j));
        } else if accepts_from(p, k as int, t, i + 1, e + 1, j) {
            assert(outcome_accepts(p, k, t, steps[0], j));
        } else if accepts_from(p, k as int, t, i, e + 1, j + 1) {
            assert(outcome_accepts(p, k, t, steps[1], j));
        } else {
            assert(outcome_accepts(p, k, t, steps[2], j));
        }
    } else {
        assert forall|m: int| 0 <= m < steps.len() implies !#[trigger] outcome_accepts(p, k, t, steps[m], j) by {
            if i < p.len() && e < k {
                assert(!accepts_from(p, k as int, t, i + 1, e + 1, j));
                assert(!accepts_from(p, k as int, t, i, e + 1, j + 1));
            }
        }
    }
}

/// Adds `s` to `v` unless it is there already.
fn add_state(v: &mut Vec<State>, s: State)
    ensures
        final(v)@.contains(s),
        forall|x: State| old(v)@.contains(x) ==> final(v)@.contains(x),
        forall|x: State| final(v)@.contains(x) ==> old(v)@.contains(x) || x == s,
        forall|y: int| 0 <= y < final(v)@.len() ==> final(v)@[y] == s || old(v)@.contains(#[trigger] final(v)@[y]),
{
    let mut y: usize = 0;
    while y < v.len()
        invariant
            y <= v@.len(),
            forall|y2: int| 0 <= y2 < y ==> #[trigger] v@[y2] != s,
        decreases v@.len() - y,
    {
        if v[y] == s {
            assert(v@[y as int] == s);
            return;
        }
        y += 1;
    }
    let ghost before = v@;
    v.push(s);
    assert(v@[before.len() as int] == s);
    assert forall|x: State| before.contains(x) implies v@.contains(x) by {
        let w = choose|w: int| 0 <= w < before.len() && before[w] == x;
        assert(v@[w] == x);
    }
    assert forall|y: int| 0 <= y < v@.len() implies v@[y] == s || before.contains(#[trigger] v@[y]) by {
        if y < before.len() {
            assert(v@[y] == before[y]);
        }
    }
}

impl<'a> Automaton<'a> {
    /// An automaton for `pattern` that allows at most `max_errors` edits.
    pub fn new(pattern: &'a str, max_errors: u32) -> (r: Automaton<'a>)
        ensures
            r.pattern == pattern,
            r.max_errors == max_errors,
    {
        Automaton { pattern, max_errors }
    }

    /// The outcomes of one step from `state` against target character `c`.
    fn step(&self, pattern_len: usize, state: State, c: char) -> (r: Vec<Step>)
        requires
            pattern_len == self.pattern@.len(),
            state.index <= pattern_len,
            state.errors <= self.max_errors,
        ensures
            r@ == step_outcomes(self.pattern@, self.max_errors, state, c),
    {
        let State { index, errors } = state;
        let mut r: Vec<Step> = Vec::new();
        if index == pattern_len {
            r.push(Step(state, Output::Match));
            return r;
        }
        let pattern_char = self.pattern.get_char(index);
        let sub_or_match_cost: u32 = if pattern_char == c { 0 } else { 1 };
        if errors == self.max_errors {
            if sub_or_match_cost == 1 {
                r.push(Step(state, Output::Fail));
            } else {
                r.push(Step(State { index: index + 1, errors }, Output::Step(1)));
            }
            return r;
        }
        r.push(Step(State { index: index + 1, errors: errors + 1 }, Output::Step(0)));
        r.push(Step(State { index, errors: errors + 1 }, Output::Step(1)));
        r.push(Step(State { index: index + 1, errors: errors + sub_or_match_cost }, Output::Step(1)));
        r
    }

    /// Whether `target` lies within the edit budget of the pattern, as the
    /// search over all edit paths from the start decides it. The search runs
    /// across the target one position at a time and keeps, for each position,
    /// the distinct states that stand there.
    pub fn is_match(&self, target: &str) -> (r: bool)
        ensures
            r == sim_matches(self.pattern@, self.max_errors, target@),
    {
        let pattern_len = self.pattern.unicode_len();
        let target_len = target.unicode_len();
        let ghost p = self.pattern@;
        let ghost k = self.max_errors;
        let ghost t = target@;
        let mut frontier: Vec<State> = Vec::new();
        frontier.push(State { index: 0, errors: 0 });
        proof {
            assert(frontier@[0] == (State { index: 0, errors: 0 }));
            assert(accepts_from(p, k as int, t, 0, 0, 0) ==> column_accepts(p, k, t, frontier@, 0));
        }
        let mut index: usize = 0;
        while index < target_len
            invariant
                pattern_len == p.len(),
                target_len == t.len(),
                p == self.pattern@,
                k == self.max_errors,
                t == target@,
                index <= target_len,
                states_valid(frontier@, pattern_len, k),
                sim_matches(p, k, t) == column_accepts(p, k, t, frontier@, index as int),
            decreases target_len - index,
        {
            match self.match_helper(pattern_len, &frontier, index, target, target_len) {
                None => {
                    return true;
                },
                Some(next) => {
                    frontier = next;
                    index += 1;
                },
            }
        }
        false
    }

    /// Advances the search across target position `index`: `None` when a state
    /// of `frontier` accepts there, else the distinct states that the steps
    /// taken there lead to at the next position.
    fn match_helper(
        &self,
        pattern_len: usize,
        frontier: &Vec<State>,
        index: usize,
        target: &str,
        target_len: usize,
    ) -> (r: Option<Vec<State>>)
        requires
            pattern_len == self.pattern@.len(),
            target_len == target@.len(),
            index < target_len,
            states_valid(frontier@, pattern_len, self.max_errors),
        ensures
            match r {
                None => column_accepts(self.pattern@, self.max_errors, target@, frontier@, index as int),
                Some(next) => {
                    &&& states_valid(next@, pattern_len, self.max_errors)
                    &&& column_accepts(self.pattern@, self.max_errors, target@, frontier@, index as int)
                        == column_accepts(self.pattern@, self.max_errors, target@, next@, index + 1)
                },
            },
    {
        let ghost p = self.pattern@;
        let ghost k = self.max_errors;
        let ghost t = target@;
        let ghost j = index as int;
        let c = target.get_char(index);
        let mut next: Vec<State> = Vec::new();
        let mut x: usize = 0;
        while x < frontier.len()
            invariant
                pattern_len == p.len(),
                target_len == t.len(),
                p == self.pattern@,
                k == self.max_errors,
                t == target@,
                j == index,
                index < target_len,
                c == t[j],
                states_valid(frontier@, pattern_len, k),
                states_valid(next@, pattern_len, k),
                x <= frontier@.len(),
                column_accepts(p, k, t, frontier@.take(x as int), j) == column_accepts(p, k, t, next@, j + 1),
            decreases frontier@.len() - x,
        {
            let ghost done = frontier@.take(x as int);
            let ghost upto = frontier@.take(x + 1);
            let ghost first = frontier@[x as int];
            proof {
                lemma_column_push(p, k, t, done, first, j);
                assert(upto == done.push(first));
            }
            // The states that deletions reach from this one stand at the same
            // position: follow them one after another.
            let mut s = frontier[x];
            let mut more = true;
            while more
                invariant
                    pattern_len == p.len(),
                    target_len == t.len(),
                    p == self.pattern@,
                    k == self.max_errors,
                    t == target@,
                    j == index,
                    index < target_len,
                    c == t[j],
                    s.index <= pattern_len,
                    s.errors <= k,
                    x < frontier@.len(),
                    upto == frontier@.take(x + 1),
                    states_valid(next@, pattern_len, k),
                    more ==> (column_accepts(p, k, t, upto, j) == (
                        accepts_from(p, k as int, t, s.index as int, s.errors as int, j)
                            || column_accepts(p, k, t, next@, j + 1))),
                    !more ==> column_accepts(p, k, t, upto, j) == column_accepts(p, k, t, next@, j + 1),
                decreases pattern_len - s.index + if more { 1int } else { 0 },
            {
                let steps = self.step(pattern_len, s, c);
                proof {
                    lemma_step_accepts(p, k, t, s, j);
                }
                let mut deletion: Option<State> = None;
                let mut m: usize = 0;
                while m < steps.len()
                    invariant
                        pattern_len == p.len(),
                        target_len == t.len(),
                        p == self.pattern@,
                        k == self.max_errors,
                        t == target@,
                        j == index,
                        index < target_len,
                        s.index <= pattern_len,
                        s.errors <= k,
                        steps@ == step_outcomes(p, k, s, t[j]),
                        m <= steps@.len(),
                        m > 0 || deletion is None,
                        x < frontier@.len(),
                        upto == frontier@.take(x + 1),
                        states_valid(next@, pattern_len, k),
                        match deletion {
                            Some(d) => d.index == s.index + 1 && d.index <= pattern_len && d.errors <= k,
                            None => true,
                        },
                        column_accepts(p, k, t, upto, j) == (
                            (exists|m2: int| m <= m2 < steps@.len() && #[trigger] outcome_accepts(p, k, t, steps@[m2], j))
                                || (match deletion {
                                    Some(d) => accepts_from(p, k as int, t, d.index as int, d.errors as int, j),
                                    None => false,
                                })
                                || column_accepts(p, k, t, next@, j + 1)),
                    decreases steps@.len() - m,
                {
                    let ghost before = next@;
                    let Step(to, output) = &steps[m];
                    proof {
                        let later = exists|m2: int| m + 1 <= m2 < steps@.len() && #[trigger] outcome_accepts(p, k, t, steps@[m2], j);
                        let from_here = exists|m2: int| m <= m2 < steps@.len() && #[trigger] outcome_accepts(p, k, t, steps@[m2], j);
                        assert(from_here == (outcome_accepts(p, k, t, steps@[m as int], j) || later));
                    }
                    match output {
                        Output::Match => {
                            // The end of the pattern: the target characters after
                            // this one must be absorbed by the budget that is left.
                            if (target_len - index - 1) < ((self.max_errors - to.errors) as usize) {
                                proof {
                                    lemma_column_take_prefix(p, k, t, frontier@, x + 1, j);
                                }
                                return None;
                            }
                        },
                        Output::Fail => {},
                        Output::Step(advance) => {
                            if *advance == 0 {
                                proof {
                                    assert(m == 0 && s.index < pattern_len && s.errors < k);
                                }
                                deletion = Some(*to);
                            } else {
                                proof {
                                    assert(to.index <= pattern_len && to.errors <= k);
                                }
                                add_state(&mut next, *to);
                                proof {
                                    lemma_column_add(p, k, t, before, next@, *to, j + 1);
                                }
                            }
                        },
                    }
                    m += 1;
                }
                match deletion {
                    Some(d) => {
                        s = d;
                    },
                    None => {
                        more = false;
                    },
                }
            }
            x += 1;
        }
        proof {
            assert(frontier@.take(frontier@.len() as int) == frontier@);
        }
        Some(next)
    }
}

/// From pattern position `i` with no edit spent, on a target equal to the
/// pattern, following the pattern character by character reaches acceptance
/// once the budget covers one deletion at the end.
proof fn lemma_self_from(p: Seq<char>, k: u32, i: int)
    requires
        0 <= i < p.len(),
        k >= 2,
    ensures
        accepts_from(p, k as int, p, i, 0, i),
    decreases p.len() - i,
{
    if i + 1 < p.len() {
        lemma_self_from(p, k, i + 1);
    } else {
        assert(accepts_from(p, k as int, p, i + 1, 1, i));
    }
}

/// With a budget of at most one, on a target equal to the pattern, no state
/// whose pattern position runs ahead of the target position by at most the
/// edits spent leads to acceptance: the pattern's end comes too late for the
/// budget left.
proof fn lemma_self_rejected_from(p: Seq<char>, k: u32, i: int, e: int, j: int)
    requires
        k <= 1,
        i - j <= e,
        0 <= e <= k,
    ensures
        !accepts_from(p, k as int, p, i, e, j),
    decreases (p.len() - j) + (p.len() - i),
{
    if 0 <= j < p.len() && 0 <= i < p.len() {
        if e >= k {
            lemma_self_rejected_from(p, k, i + 1, e, j + 1);
        } else {
            let cost: int = if p[i] == p[j] { 0 } else { 1 };
            lemma_self_rejected_from(p, k, i + 1, e + 1, j);
            lemma_self_rejected_from(p, k, i, e + 1, j + 1);
            lemma_self_rejected_from(p, k, i + 1, e + cost, j + 1);
        }
    }
}

/// A pattern matches itself exactly when it is non-empty and the budget is at
/// least two. With a budget of one, acceptance needs the pattern's end at the
/// last target character with no edit spent, which a target equal to the
/// pattern cannot give; with a budget of zero no state accepts at all; and an
/// empty pattern faces an empty target, which presents no character.
pub proof fn lemma_pattern_matches_itself(p: Seq<char>, k: u32)
    ensures
        sim_matches(p, k, p) <==> (p.len() > 0 && k >= 2),
{
    if p.len() > 0 && k >= 2 {
        lemma_self_from(p, k, 0);
    } else if k <= 1 {
        lemma_self_rejected_from(p, k, 0, 0, 0);
    }
}

/// The empty target is never accepted: the search has no character to present.
pub proof fn lemma_empty_target_rejected(p: Seq<char>, k: u32)
    ensures
        !sim_matches(p, k, Seq::empty()),
{
}

/// With an empty pattern the start state is already at the pattern's end: a
/// target is accepted exactly when it is non-empty and the characters after
/// its first number fewer than the budget.
pub proof fn lemma_empty_pattern(k: u32, t: Seq<char>)
    ensures
        sim_matches(Seq::empty(), k, t) <==> (t.len() > 0 && t.len() - 1 < k),
{
}

} // verus!
