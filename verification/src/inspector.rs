//! The tree inspector: its commands, and what each command does to the line
//! of play being inspected.
use vstd::prelude::*;
use crate::forward_pass::child_keys;
use crate::node::Terminality;
use crate::outcome::Outcome;
use crate::state::{Null, State, is_state};
use crate::state_map::StateMap;
use crate::state_stats::{
    StateAndStats, as_states, lemma_neighbours_are_states, state_terminality, stats_outcome,
    stats_report_count,
};

verus! {

#[derive(Clone, Copy, Debug)]
pub enum Command {
    Help,
    Parent,
    Child(usize),
}

/// Whether `c` is white space (the characters with the Unicode property
/// `White_Space`).
pub open spec fn is_white_space(c: char) -> bool {
    let u = c as u32;
    ||| 0x09 <= u <= 0x0d
    ||| u == 0x20
    ||| u == 0x85
    ||| u == 0xa0
    ||| u == 0x1680
    ||| 0x2000 <= u <= 0x200a
    ||| u == 0x2028
    ||| u == 0x2029
    ||| u == 0x202f
    ||| u == 0x205f
    ||| u == 0x3000
}

fn is_white_space_char(c: char) -> (r: bool)
    ensures
        r == is_white_space(c),
{
    let u = c as u32;
    (0x09 <= u && u <= 0x0d) || u == 0x20 || u == 0x85 || u == 0xa0 || u == 0x1680 || (0x2000 <= u
        && u <= 0x200a) || u == 0x2028 || u == 0x2029 || u == 0x202f || u == 0x205f || u == 0x3000
}

/// `s` without its leading white space.
pub open spec fn trim_start(s: Seq<char>) -> Seq<char>
    decreases s.len(),
{
    if s.len() > 0 && is_white_space(s[0]) {
        trim_start(s.drop_first())
    } else {
        s
    }
}

/// `s` without its trailing white space.
pub open spec fn trim_end(s: Seq<char>) -> Seq<char>
    decreases s.len(),
{
    if s.len() > 0 && is_white_space(s.last()) {
        trim_end(s.drop_last())
    } else {
        s
    }
}

/// `s` without its leading and trailing white space.
pub open spec fn trimmed(s: Seq<char>) -> Seq<char> {
    trim_end(trim_start(s))
}

/// Whether `c` is an ASCII digit.
pub open spec fn is_digit(c: char) -> bool {
    '0' <= c <= '9'
}

/// The number that the decimal digits `s` stand for.
pub open spec fn digits_value(s: Seq<char>) -> nat
    decreases s.len(),
{
    if s.len() == 0 {
        0
    } else {
        digits_value(s.drop_last()) * 10 + ((s.last() as u32) - ('0' as u32)) as nat
    }
}

/// Whether every character of `s` is an ASCII digit.
pub open spec fn all_digits(s: Seq<char>) -> bool {
    forall|i: int| 0 <= i < s.len() ==> is_digit(#[trigger] s[i])
}

/// `s` without a leading `+`.
pub open spec fn unsigned_digits(s: Seq<char>) -> Seq<char> {
    if s.len() > 0 && s[0] == '+' {
        s.drop_first()
    } else {
        s
    }
}

/// `s` read as an unsigned decimal number (an optional `+`, then at least
/// one digit), if it is one that fits in a `usize`.
pub open spec fn parsed_usize(s: Seq<char>) -> Option<usize> {
    let digits = unsigned_digits(s);
    if digits.len() > 0 && all_digits(digits) && digits_value(digits) <= usize::MAX {
        Some(digits_value(digits) as usize)
    } else {
        None
    }
}

/// What the command line `s` stands for, once trimmed: `help`, `parent`, or
/// `child` and a space followed by an index.
pub open spec fn parsed_command(s: Seq<char>) -> Option<Command> {
    let t = trimmed(s);
    if t == seq!['h', 'e', 'l', 'p'] {
        Some(Command::Help)
    } else if t == seq!['p', 'a', 'r', 'e', 'n', 't'] {
        Some(Command::Parent)
    } else if t.len() >= 6 && t.subrange(0, 6) == seq!['c', 'h', 'i', 'l', 'd', ' '] {
        match parsed_usize(t.subrange(6, t.len() as int)) {
            Some(n) => Some(Command::Child(n)),
            None => None,
        }
    } else {
        None
    }
}

/// The characters of `s`.
fn chars_of(s: &str) -> (r: Vec<char>)
    ensures
        r@ == s@,
{
    let mut v: Vec<char> = Vec::new();
    for c in it: s.chars()
        invariant
            v@ == it.seq().take(it.index() as int),
    {
        v.push(c);
    }
    proof {
        broadcast use vstd::string::axiom_spec_iter;

    }
    assert(v@ =~= s@);
    v
}

/// Whether `v[lo..hi]` is `expected`.
fn slice_is(v: &Vec<char>, lo: usize, hi: usize, expected: &[char]) -> (r: bool)
    requires
        lo <= hi <= v@.len(),
    ensures
        r == (v@.subrange(lo as int, hi as int) == expected@),
{
    if hi - lo != expected.len() {
        return false;
    }
    let mut i: usize = 0;
    while i < expected.len()
        invariant
            0 <= i <= expected@.len(),
            hi - lo == expected@.len(),
            lo <= hi <= v@.len(),
            forall|j: int| 0 <= j < i ==> v@[lo + j] == expected@[j],
        decreases expected@.len() - i,
    {
        if v[lo + i] != expected[i] {
            return false;
        }
        i = i + 1;
    }
    assert(v@.subrange(lo as int, hi as int) =~= expected@);
    true
}

/// `v[lo..hi]` read as an unsigned decimal number (see `parsed_usize`).
fn parse_usize(v: &Vec<char>, lo: usize, hi: usize) -> (r: Option<usize>)
    requires
        lo <= hi <= v@.len(),
    ensures
        r == parsed_usize(v@.subrange(lo as int, hi as int)),
{
    let ghost s = v@.subrange(lo as int, hi as int);
    let mut start: usize = lo;
    if lo < hi && v[lo] == '+' {
        start = lo + 1;
    }
    let ghost digits = v@.subrange(start as int, hi as int);
    assert(digits =~= unsigned_digits(s));
    if start == hi {
        return None;
    }
    let mut value: usize = 0;
    let mut overflowed = false;
    let mut i: usize = start;
    while i < hi
        invariant
            lo <= start <= i <= hi <= v@.len(),
            digits == v@.subrange(start as int, hi as int),
            s == v@.subrange(lo as int, hi as int),
            digits == unsigned_digits(s),
            forall|j: int| start <= j < i ==> is_digit(#[trigger] v@[j]),
            !overflowed ==> value == digits_value(v@.subrange(start as int, i as int)),
            overflowed ==> digits_value(v@.subrange(start as int, i as int)) > usize::MAX,
        decreases hi - i,
    {
        let c = v[i];
        if !('0' <= c && c <= '9') {
            assert(digits[i - start] == c);
            assert(!is_digit(digits[i - start]));
            return None;
        }
        let d = (c as u32 - '0' as u32) as usize;
        proof {
            let p = v@.subrange(start as int, i as int + 1);
            assert(p.drop_last() =~= v@.subrange(start as int, i as int));
            assert(p.last() == c);
        }
        if !overflowed {
            match value.checked_mul(10) {
                Some(m) => match m.checked_add(d) {
                    Some(n) => {
                        value = n;
                    },
                    None => {
                        overflowed = true;
                    },
                },
                None => {
                    overflowed = true;
                },
            }
        }
        i = i + 1;
    }
    assert(v@.subrange(start as int, hi as int) =~= digits);
    if overflowed {
        None
    } else {
        Some(value)
    }
}

impl Command {
    /// Reads a command line (see `parsed_command`).
    pub fn parse(input: &str) -> (r: Result<Self, ()>)
        ensures
            r == (match parsed_command(input@) {
                Some(c) => Ok(c),
                None => Err(()),
            }),
    {
        let v = chars_of(input);
        let mut lo: usize = 0;
        assert(v@.subrange(0, v@.len() as int) =~= v@);
        while lo < v.len() && is_white_space_char(v[lo])
            invariant
                0 <= lo <= v@.len(),
                trim_start(v@) == trim_start(v@.subrange(lo as int, v@.len() as int)),
            decreases v@.len() - lo,
        {
            assert(v@.subrange(lo as int, v@.len() as int).drop_first() =~= v@.subrange(
                lo + 1,
                v@.len() as int,
            ));
            lo = lo + 1;
        }
        let ghost start = v@.subrange(lo as int, v@.len() as int);
        assert(trim_start(v@) == start);
        let mut hi: usize = v.len();
        while hi > lo && is_white_space_char(v[hi - 1])
            invariant
                lo <= hi <= v@.len(),
                start == v@.subrange(lo as int, v@.len() as int),
                trim_end(start) == trim_end(v@.subrange(lo as int, hi as int)),
            decreases hi - lo,
        {
            assert(v@.subrange(lo as int, hi as int).drop_last() =~= v@.subrange(
                lo as int,
                hi - 1,
            ));
            hi = hi - 1;
        }
        let ghost t = v@.subrange(lo as int, hi as int);
        assert(trimmed(v@) == t);
        if slice_is(&v, lo, hi, &['h', 'e', 'l', 'p']) {
            assert(t == seq!['h', 'e', 'l', 'p']);
            return Ok(Command::Help);
        }
        if slice_is(&v, lo, hi, &['p', 'a', 'r', 'e', 'n', 't']) {
            assert(t == seq!['p', 'a', 'r', 'e', 'n', 't']);
            return Ok(Command::Parent);
        }
        if hi - lo >= 6 && slice_is(&v, lo, lo + 6, &['c', 'h', 'i', 'l', 'd', ' ']) {
            assert(t.subrange(0, 6) =~= v@.subrange(lo as int, lo + 6));
            assert(t.subrange(6, t.len() as int) =~= v@.subrange(lo + 6, hi as int));
            return match parse_usize(&v, lo + 6, hi) {
                Some(n) => Ok(Command::Child(n)),
                None => Err(()),
            };
        }
        if hi - lo >= 6 {
            assert(t.subrange(0, 6) =~= v@.subrange(lo as int, lo + 6));
        }
        Err(())
    }
}

/// The last index at which `s` holds `x`, if any.
pub open spec fn last_index_of(s: Seq<u64>, x: u64) -> Option<int>
    decreases s.len(),
{
    if s.len() == 0 {
        None
    } else if s.last() == x {
        Some(s.len() - 1)
    } else {
        last_index_of(s.drop_last(), x)
    }
}

proof fn lemma_last_index_of_bounds(s: Seq<u64>, x: u64)
    ensures
        last_index_of(s, x) matches Some(i) ==> 0 <= i < s.len(),
    decreases s.len(),
{
    if s.len() > 0 {
        lemma_last_index_of_bounds(s.drop_last(), x);
    }
}

/// The outcome of state `k` according to a solution that maps each state to
/// its best child with the child's stats: a terminal state is won or lost on
/// the spot, a state whose best child has not settled is a draw, and
/// otherwise it is the best child's outcome seen from `k` (see
/// `crate::node::child_challenger`).
pub open spec fn solution_outcome(solution: Map<u64, StateAndStats>, k: u64) -> int {
    match state_terminality(k) {
        Terminality::Loss => -201,
        Terminality::Win => 201,
        Terminality::Nonterminal => {
            let stats = (solution[k].0 & 0xffff) as u16;
            if stats_report_count(stats) > 0 {
                0
            } else {
                crate::node::child_challenger(stats_outcome(stats))
            }
        },
    }
}

/// The outcome that a solution gives state `k`: won on the spot (`201`)
/// when its player to move has won, lost on the spot (`-201`) when that
/// player's lion was captured. Otherwise it is read off the stats of the best
/// child stored for `k` (its low 16 bits): a draw while the child still has
/// children to hear from, and else the child's outcome seen from the other
/// side one ply earlier, so of the opposite sign: a child's win in `n` plies
/// (`201 - n`) is a loss in `n + 1` (`-201 + n + 1`), a child's loss in `n`
/// (`-201 + n`) a win in `n + 1` (`201 - n - 1`), a draw a draw.
pub proof fn lemma_solution_outcome_sees_the_child_from_the_other_side(
    solution: Map<u64, StateAndStats>,
    k: u64,
)
    ensures
        state_terminality(k) == Terminality::Win ==> solution_outcome(solution, k) == 201,
        state_terminality(k) == Terminality::Loss ==> solution_outcome(solution, k) == -201,
        state_terminality(k) == Terminality::Nonterminal ==> ({
            let stats = (solution[k].0 & 0xffff) as u16;
            let o = stats_outcome(stats);
            let r = solution_outcome(solution, k);
            &&& stats_report_count(stats) > 0 ==> r == 0
            &&& stats_report_count(stats) == 0 && o > 0 ==> r == 1 - o && r <= 0
            &&& stats_report_count(stats) == 0 && o < 0 ==> r == -1 - o && r >= 0
            &&& stats_report_count(stats) == 0 && o == 0 ==> r == 0
        }),
{
}

/// Whether the solution has a best child for state `k` unless `k` is
/// terminal.
pub open spec fn solution_covers(solution: Map<u64, StateAndStats>, k: u64) -> bool {
    state_terminality(k) == Terminality::Nonterminal ==> solution.contains_key(k)
}

impl State {
    /// The index, among the children of this state, of the best child that
    /// the solution gives it (the last one, should it occur twice), if any.
    pub fn best_child_index(self, solution: &StateMap<StateAndStats>) -> (r: Option<usize>)
        requires
            solution.wf(),
            is_state(self),
        ensures
            r == (if solution@.contains_key(self.0) {
                match last_index_of(child_keys(self.0), solution@[self.0].0 >> 16u64) {
                    Some(i) => Some(i as usize),
                    None => None,
                }
            } else {
                None
            }),
    {
        let best_child = solution.get(self);
        if best_child.is_null() {
            return None;
        }
        let best_child = best_child.state();
        let children = self.children();
        let ghost cs = child_keys(self.0);
        let mut i: usize = 0;
        let mut best_child_index: Option<usize> = None;
        while i < children.len()
            invariant
                0 <= i <= children@.len(),
                children@ == as_states(cs),
                best_child_index == (match last_index_of(cs.take(i as int), best_child.0) {
                    Some(j) => Some(j as usize),
                    None => None,
                }),
            decreases children@.len() - i,
        {
            proof {
                assert(cs.take(i as int + 1).drop_last() =~= cs.take(i as int));
                lemma_last_index_of_bounds(cs.take(i as int), best_child.0);
            }
            if children[i].0 == best_child.0 {
                best_child_index = Some(i);
            }
            i = i + 1;
        }
        assert(cs.take(cs.len() as int) =~= cs);
        best_child_index
    }

    /// The outcome of this state according to the solution (see
    /// `solution_outcome`).
    pub fn best_outcome(self, solution: &StateMap<StateAndStats>) -> (r: Outcome)
        requires
            solution.wf(),
            is_state(self),
            solution_covers(solution@, self.0),
        ensures
            r.0 == solution_outcome(solution@, self.0),
    {
        match self.terminality() {
            Terminality::Loss => return Outcome::loss_in(0),
            Terminality::Win => return Outcome::win_in(0),
            Terminality::Nonterminal => {},
        }
        let child = solution.get(self);
        let stats = child.stats();
        proof {
            crate::state_stats::lemma_stats_bounds(stats.0);
        }
        if stats.required_child_report_count() > 0 {
            return Outcome::draw();
        }
        stats.best_known_outcome().invert().delay_by_one()
    }
}

/// What a command of the tree inspector did.
#[derive(Clone, Copy, Debug, PartialEq, Eq)]
pub enum InspectorEvent {
    /// The list of commands is to be shown.
    ShowedHelp,
    /// The line of play was already at the initial state.
    AlreadyAtInitialState,
    WentToParent,
    /// The current state has no child with the index given.
    InvalidChildIndex,
    WentToChild,
    /// The solution has no best child for the nonterminal child chosen.
    MissingBestChild,
}

/// Whether each state of `h` after the first is a child of the state
/// before it.
pub open spec fn is_line_of_play(h: Seq<(State, Outcome)>) -> bool {
    forall|k: int|
        0 <= k < h.len() - 1 ==> #[trigger] child_keys(h[k].0.0).contains(h[k + 1].0.0)
}

/// Carries out a command of the tree inspector on the line of play
/// `history` (each state with its outcome, the current state last): `help`
/// changes nothing, `parent` goes back one state unless at the first, and
/// `child` goes on to the child with the given index of the current state.
pub fn apply_command(
    history: &mut Vec<(State, Outcome)>,
    command: Command,
    solution: &StateMap<StateAndStats>,
) -> (r: InspectorEvent)
    requires
        old(history)@.len() >= 1,
        solution.wf(),
        forall|i: int| 0 <= i < old(history)@.len() ==> is_state((#[trigger] old(history)@[i]).0),
    ensures
        final(history)@.len() >= 1,
        forall|i: int| 0 <= i < final(history)@.len() ==> is_state((#[trigger] final(history)@[i]).0),
        final(history)@[0] == old(history)@[0],
        is_line_of_play(old(history)@) ==> is_line_of_play(final(history)@),
        match command {
            Command::Help => r == InspectorEvent::ShowedHelp && final(history)@ == old(history)@,
            Command::Parent => if old(history)@.len() == 1 {
                r == InspectorEvent::AlreadyAtInitialState && final(history)@ == old(history)@
            } else {
                r == InspectorEvent::WentToParent && final(history)@ == old(history)@.drop_last()
            },
            Command::Child(index) => {
                let cs = child_keys(old(history)@.last().0.0);
                if index >= cs.len() {
                    r == InspectorEvent::InvalidChildIndex && final(history)@ == old(history)@
                } else if !solution_covers(solution@, cs[index as int]) {
                    r == InspectorEvent::MissingBestChild && final(history)@ == old(history)@
                } else {
                    &&& r == InspectorEvent::WentToChild
                    &&& final(history)@ == old(history)@.push(
                        (
                            State(cs[index as int]),
                            Outcome(solution_outcome(solution@, cs[index as int]) as i16),
                        ),
                    )
                }
            },
        },
{
    match command {
        Command::Help => InspectorEvent::ShowedHelp,
        Command::Parent => {
            if history.len() == 1 {
                InspectorEvent::AlreadyAtInitialState
            } else {
                let ghost before = history@;
                history.pop();
                proof {
                    assert forall|k: int| 0 <= k < history@.len() - 1 && is_line_of_play(before) implies #[trigger] child_keys(
                        history@[k].0.0,
                    ).contains(history@[k + 1].0.0) by {
                        assert(child_keys(before[k].0.0).contains(before[k + 1].0.0));
                    }
                }
                InspectorEvent::WentToParent
            }
        },
        Command::Child(index) => {
            let top = history[history.len() - 1].0;
            let children = top.children();
            proof {
                lemma_neighbours_are_states(top.0);
            }
            if index >= children.len() {
                return InspectorEvent::InvalidChildIndex;
            }
            let child = children[index];
            assert(child.0 == child_keys(top.0)[index as int]);
            if child.terminality() == Terminality::Nonterminal && solution.get(child).is_null() {
                return InspectorEvent::MissingBestChild;
            }
            let outcome = child.best_outcome(solution);
            let ghost before = history@;
            history.push((child, outcome));
            proof {
                assert(child_keys(top.0).contains(child.0));
                assert forall|k: int| 0 <= k < history@.len() - 1 && is_line_of_play(before) implies #[trigger] child_keys(
                    history@[k].0.0,
                ).contains(history@[k + 1].0.0) by {
                    if k < before.len() - 1 {
                        assert(child_keys(before[k].0.0).contains(before[k + 1].0.0));
                    }
                }
            }
            InspectorEvent::WentToChild
        },
    }
}

} // verus!
