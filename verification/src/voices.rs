//! Voice allocation: which of a track's voices a new note takes.
use vstd::prelude::*;

verus! {

/// The first index at which `s` holds `v`.
pub open spec fn first_is(s: Seq<bool>, v: bool, n: int) -> Option<int>
    decreases n,
{
    if n <= 0 {
        None
    } else {
        match first_is(s, v, n - 1) {
            Some(j) => Some(j),
            None => if s[n - 1] == v { Some(n - 1) } else { None },
        }
    }
}

/// The first index, among the first `n`, holding the smallest value.
pub open spec fn first_min(s: Seq<u64>, n: int) -> int
    decreases n,
{
    if n <= 1 {
        0
    } else {
        let m = first_min(s, n - 1);
        if s[n - 1] < s[m] { n - 1 } else { m }
    }
}

/// The voice a new note takes: the first idle one, else the first whose note was released,
/// else the one that started sounding first (voices hold `born` stamps in start order).
pub open spec fn voice_for(idle: Seq<bool>, held: Seq<bool>, born: Seq<u64>) -> int {
    match first_is(idle, true, idle.len() as int) {
        Some(i) => i,
        None => match first_is(held, false, held.len() as int) {
            Some(i) => i,
            None => first_min(born, born.len() as int),
        },
    }
}

proof fn lemma_first_is_bounds(s: Seq<bool>, v: bool, n: int)
    requires
        0 <= n <= s.len(),
    ensures
        first_is(s, v, n) matches Some(j) ==> 0 <= j < n,
    decreases n,
{
    if n > 0 {
        lemma_first_is_bounds(s, v, n - 1);
    }
}

proof fn lemma_first_min_bounds(s: Seq<u64>, n: int)
    requires
        1 <= n <= s.len(),
    ensures
        0 <= first_min(s, n) < n,
    decreases n,
{
    if n > 1 {
        lemma_first_min_bounds(s, n - 1);
    }
}

fn find_first(s: &[bool], v: bool) -> (r: Option<usize>)
    ensures
        r matches Some(j) ==> first_is(s@, v, s@.len() as int) == Some(j as int),
        r is None ==> first_is(s@, v, s@.len() as int) is None,
{
    let mut j: usize = 0;
    while j < s.len()
        invariant
            j <= s@.len(),
            first_is(s@, v, j as int) is None,
        decreases s@.len() - j,
    {
        if s[j] == v {
            assert(first_is(s@, v, j + 1) == Some(j as int));
            proof { lemma_first_is_stays(s@, v, j + 1, s@.len() as int); }
            return Some(j);
        }
        j += 1;
    }
    None
}

proof fn lemma_first_is_stays(s: Seq<bool>, v: bool, m: int, n: int)
    requires
        0 <= m <= n,
        first_is(s, v, m) is Some,
    ensures
        first_is(s, v, n) == first_is(s, v, m),
    decreases n - m,
{
    if m < n {
        lemma_first_is_stays(s, v, m, n - 1);
    }
}

/// Choose the voice for a new note (see `voice_for`). All three lists describe the same voices.
pub fn pick_voice(idle: &[bool], held: &[bool], born: &[u64]) -> (r: usize)
    requires
        idle@.len() > 0,
        held@.len() == idle@.len(),
        born@.len() == idle@.len(),
    ensures
        r == voice_for(idle@, held@, born@),
        r < idle@.len(),
{
    proof {
        lemma_first_is_bounds(idle@, true, idle@.len() as int);
        lemma_first_is_bounds(held@, false, held@.len() as int);
        lemma_first_min_bounds(born@, born@.len() as int);
    }
    if let Some(i) = find_first(idle, true) {
        return i;
    }
    if let Some(i) = find_first(held, false) {
        return i;
    }
    let mut m: usize = 0;
    let mut j: usize = 1;
    while j < born.len()
        invariant
            1 <= j <= born@.len(),
            m == first_min(born@, j as int),
            m < j,
        decreases born@.len() - j,
    {
        if born[j] < born[m] {
            m = j;
        }
        j += 1;
    }
    m
}

} // verus!
