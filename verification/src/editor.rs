//! Decisions of the keyboard editor that do not depend on the screen: moving the cursor
//! between laid-out nodes, cycling through choices, and reading command arguments.
use vstd::prelude::*;
use crate::song::{div_mod_euclid, root_of};

verus! {

/// A node the layout placed (hidden nodes get column `usize::MAX`).
pub open spec fn placed(p: (usize, usize)) -> bool {
    p.0 != usize::MAX
}

/// The first placed node among the first `n`.
pub open spec fn first_placed(lay: Seq<(usize, usize)>, n: int) -> Option<int>
    decreases n,
{
    if n <= 0 {
        None
    } else {
        match first_placed(lay, n - 1) {
            Some(j) => Some(j),
            None => if placed(lay[n - 1]) { Some(n - 1) } else { None },
        }
    }
}

/// The number of columns in use: one more than the rightmost placed column (one when nothing is placed).
pub open spec fn ncols(lay: Seq<(usize, usize)>, n: int) -> int
    decreases n,
{
    if n <= 0 {
        1
    } else {
        let m = ncols(lay, n - 1);
        if placed(lay[n - 1]) && lay[n - 1].0 + 1 > m { lay[n - 1].0 + 1 } else { m }
    }
}

pub open spec fn dist(a: int, b: int) -> int {
    if a >= b { a - b } else { b - a }
}

/// Among the first `n` nodes, the first one in column `col` whose row is closest to `r`.
pub open spec fn closest_in(lay: Seq<(usize, usize)>, col: int, r: int, n: int) -> Option<int>
    decreases n,
{
    if n <= 0 {
        None
    } else {
        let b = closest_in(lay, col, r, n - 1);
        let j = n - 1;
        if lay[j].0 == col {
            match b {
                Some(k) => if dist(lay[j].1 as int, r) < dist(lay[k].1 as int, r) { Some(j) } else { Some(k) },
                None => Some(j),
            }
        } else {
            b
        }
    }
}

/// Walking from column `col` in steps of `dc`, the closest node to row `r` in the first
/// non-empty column, staying inside `0..nc`.
pub open spec fn sideways(lay: Seq<(usize, usize)>, col: int, dc: int, r: int, nc: int) -> Option<int>
    decreases (if dc > 0 { nc - col } else { col + 1 }),
{
    if col < 0 || col >= nc || dc == 0 {
        None
    } else {
        match closest_in(lay, col, r, lay.len() as int) {
            Some(j) => Some(j),
            None => if 0 <= col + dc < nc { sideways(lay, col + dc, dc, r, nc) } else { None },
        }
    }
}

/// The first node at exactly column `c`, row `want`.
pub open spec fn at_cell(lay: Seq<(usize, usize)>, c: int, want: int, n: int) -> Option<int>
    decreases n,
{
    if n <= 0 {
        None
    } else {
        match at_cell(lay, c, want, n - 1) {
            Some(j) => Some(j),
            None => if lay[n - 1].0 == c && lay[n - 1].1 == want { Some(n - 1) } else { None },
        }
    }
}

/// Where the cursor goes from node `i` when moved `dc` columns or `dr` rows: from a hidden node,
/// to the first shown one; sideways, to the closest row in the nearest non-empty column in
/// that direction; up or down, to the node exactly there (rows stop at 0).
pub open spec fn nav_to(lay: Seq<(usize, usize)>, i: int, dc: int, dr: int) -> Option<int> {
    let (c, r) = lay[i];
    if !placed(lay[i]) {
        first_placed(lay, lay.len() as int)
    } else if dc != 0 {
        sideways(lay, c + dc, dc, r as int, ncols(lay, lay.len() as int))
    } else {
        at_cell(lay, c as int, if r + dr >= 0 { r + dr } else { 0 }, lay.len() as int)
    }
}

/// Columns and rows small enough for the arithmetic of `nav`.
pub open spec fn small_layout(lay: Seq<(usize, usize)>) -> bool {
    forall|j: int| 0 <= j < lay.len() ==> (#[trigger] lay[j]).1 < 0x4000_0000 && (placed(lay[j]) ==> lay[j].0 < 0x4000_0000)
}

fn closest(lay: &Vec<(usize, usize)>, col: i64, r: i64) -> (b: Option<usize>)
    requires
        small_layout(lay@),
        0 <= r < 0x4000_0000,
    ensures
        b matches Some(j) ==> closest_in(lay@, col as int, r as int, lay@.len() as int) == Some(j as int) && j < lay@.len(),
        b is None ==> closest_in(lay@, col as int, r as int, lay@.len() as int) is None,
{
    let mut best: Option<usize> = None;
    let mut bd: i64 = 0;
    let mut j: usize = 0;
    while j < lay.len()
        invariant
            j <= lay@.len(),
            small_layout(lay@),
            0 <= r < 0x4000_0000,
            best matches Some(k) ==> closest_in(lay@, col as int, r as int, j as int) == Some(k as int) && k < j
                && bd == dist(lay@[k as int].1 as int, r as int),
            best is None ==> closest_in(lay@, col as int, r as int, j as int) is None,
        decreases lay@.len() - j,
    {
        let (c, rr) = lay[j];
        assert(lay@[j as int].1 < 0x4000_0000);
        if c as i128 == col as i128 {
            let d: i64 = if rr as i64 >= r { rr as i64 - r } else { r - rr as i64 };
            match best {
                Some(_) => {
                    if d < bd {
                        best = Some(j);
                        bd = d;
                    }
                },
                None => {
                    best = Some(j);
                    bd = d;
                },
            }
        }
        j += 1;
    }
    best
}

/// The next cursor position (see `nav_to`); `None` when there is nowhere to go.
#[verifier::loop_isolation(false)]
pub fn nav(lay: &Vec<(usize, usize)>, i: usize, dc: i32, dr: i32) -> (r: Option<usize>)
    requires
        i < lay@.len(),
        small_layout(lay@),
    ensures
        r matches Some(j) ==> nav_to(lay@, i as int, dc as int, dr as int) == Some(j as int) && j < lay@.len(),
        r is None ==> nav_to(lay@, i as int, dc as int, dr as int) is None,
{
    let n = lay.len();
    let (c, r0) = lay[i];
    assert(lay@[i as int].1 < 0x4000_0000);
    if c == usize::MAX {
        let mut j: usize = 0;
        while j < n
            invariant
                n == lay@.len(),
                j <= n,
                first_placed(lay@, j as int) is None,
            decreases n - j,
        {
            if lay[j].0 != usize::MAX {
                assert(first_placed(lay@, j + 1) == Some(j as int));
                proof { lemma_first_placed_stays(lay@, j as int + 1, n as int); }
                return Some(j);
            }
            j += 1;
        }
        return None;
    }
    // the number of columns in use
    let mut nc: i64 = 1;
    let mut j: usize = 0;
    while j < n
        invariant
            n == lay@.len(),
            j <= n,
            small_layout(lay@),
            nc == ncols(lay@, j as int),
            1 <= nc <= 0x4000_0000,
        decreases n - j,
    {
        let (cj, _) = lay[j];
        if cj != usize::MAX {
            assert(lay@[j as int].0 < 0x4000_0000);
            if cj as i64 + 1 > nc {
                nc = cj as i64 + 1;
            }
        }
        j += 1;
    }
    assert(c < 0x4000_0000);
    if dc != 0 {
        let mut col: i64 = c as i64 + dc as i64;
        while 0 <= col && col < nc
            invariant
                small_layout(lay@),
                nc == ncols(lay@, lay@.len() as int),
                1 <= nc <= 0x4000_0000,
                0 <= r0 < 0x4000_0000,
                dc != 0,
                -0x1_0000_0000 <= col <= 0x1_0000_0000,
                sideways(lay@, c + dc, dc as int, r0 as int, nc as int) == sideways(lay@, col as int, dc as int, r0 as int, nc as int),
            decreases (if dc > 0 { if col < nc { nc - col } else { 0 } } else { if col >= 0 { col + 1 } else { 0 } }),
        {
            match closest(lay, col, r0 as i64) {
                Some(b) => {
                    return Some(b);
                },
                None => {},
            }
            col = col + dc as i64;
        }
        None
    } else {
        let w: i64 = r0 as i64 + dr as i64;
        let want: usize = if w >= 0 { w as usize } else { 0 };
        let mut j: usize = 0;
        while j < n
            invariant
                n == lay@.len(),
                j <= n,
                at_cell(lay@, c as int, want as int, j as int) is None,
            decreases n - j,
        {
            if lay[j].0 == c && lay[j].1 == want {
                assert(at_cell(lay@, c as int, want as int, j + 1) == Some(j as int));
                proof { lemma_at_cell_stays(lay@, c as int, want as int, j as int + 1, n as int); }
                return Some(j);
            }
            j += 1;
        }
        None
    }
}

proof fn lemma_first_placed_stays(lay: Seq<(usize, usize)>, m: int, n: int)
    requires
        0 <= m <= n,
        first_placed(lay, m) is Some,
    ensures
        first_placed(lay, n) == first_placed(lay, m),
    decreases n - m,
{
    if m < n {
        lemma_first_placed_stays(lay, m, n - 1);
    }
}

proof fn lemma_at_cell_stays(lay: Seq<(usize, usize)>, c: int, want: int, m: int, n: int)
    requires
        0 <= m <= n,
        at_cell(lay, c, want, m) is Some,
    ensures
        at_cell(lay, c, want, n) == at_cell(lay, c, want, m),
    decreases n - m,
{
    if m < n {
        lemma_at_cell_stays(lay, c, want, m, n - 1);
    }
}

/// Step `d` places from `cur` through `n` choices, wrapping around at both ends.
pub fn cycle(cur: usize, d: i32, n: usize) -> (r: usize)
    requires
        0 < n <= i64::MAX,
        cur <= i64::MAX - 0x8000_0000,
    ensures
        r == (cur + d) % (n as int),
{
    let (_, k) = div_mod_euclid(cur as i64 + d as i64, n as i64);
    k as usize
}

pub open spec fn is_digit(c: char) -> bool {
    '0' <= c && c <= '9'
}

/// The value of a string of decimal digits.
pub open spec fn digits_value(s: Seq<char>) -> int
    decreases s.len(),
{
    if s.len() == 0 { 0 } else { 10 * digits_value(s.drop_last()) + (s.last() as int - '0' as int) }
}

/// The digits after an optional sign.
pub open spec fn unsigned_part(s: Seq<char>) -> Seq<char> {
    if s.len() > 0 && (s[0] == '-' || s[0] == '+') { s.drop_first() } else { s }
}

/// A decimal `i32` as std's `str::parse` reads it: an optional sign, then at least one digit
/// and nothing else, within range.
pub open spec fn int_of(s: Seq<char>) -> Option<int> {
    let body = unsigned_part(s);
    let neg = s.len() > 0 && s[0] == '-';
    if body.len() == 0 || exists|i: int| 0 <= i < body.len() && !is_digit(#[trigger] body[i]) {
        None
    } else {
        let v = if neg { -digits_value(body) } else { digits_value(body) };
        if i32::MIN <= v <= i32::MAX { Some(v) } else { None }
    }
}

proof fn lemma_digits_grow(s: Seq<char>, i: int, j: int)
    requires
        0 <= i <= j <= s.len(),
        forall|k: int| 0 <= k < s.len() ==> is_digit(#[trigger] s[k]),
    ensures
        digits_value(s.take(i)) <= digits_value(s.take(j)),
        0 <= digits_value(s.take(i)),
    decreases j,
{
    if j > i {
        lemma_digits_grow(s, i, j - 1);
        assert(s.take(j).drop_last() =~= s.take(j - 1));
    } else if i > 0 {
        lemma_digits_grow(s, i - 1, i - 1);
        assert(s.take(i).drop_last() =~= s.take(i - 1));
    }
}

/// Read a decimal `i32` (see `int_of`).
pub fn parse_int(s: &str) -> (r: Option<i32>)
    ensures
        r matches Some(v) ==> int_of(s@) == Some(v as int),
        r is None ==> int_of(s@) is None,
{
    assert(s@.skip(0) =~= s@);
    int_at(s, 0)
}

/// Read a decimal `i32` from the text of `s` from char `from` on (see `int_of`).
fn int_at(s: &str, from: usize) -> (r: Option<i32>)
    requires
        from <= s@.len(),
    ensures
        r matches Some(v) ==> int_of(s@.skip(from as int)) == Some(v as int),
        r is None ==> int_of(s@.skip(from as int)) is None,
{
    let ghost u = s@.skip(from as int);
    let n = s.unicode_len();
    let mut start: usize = from;
    let mut neg = false;
    if n > from {
        let c0 = s.get_char(from);
        assert(u[0] == c0);
        if c0 == '-' || c0 == '+' {
            start = from + 1;
            neg = c0 == '-';
        }
    }
    let ghost body = unsigned_part(u);
    assert(body =~= s@.subrange(start as int, n as int));
    assert(neg == (u.len() > 0 && u[0] == '-'));
    if start == n {
        return None;
    }
    let mut acc: i64 = 0;
    let mut big = false;
    let mut i: usize = start;
    while i < n
        invariant
            n == s@.len(),
            start <= i <= n,
            body == s@.subrange(start as int, n as int),
            body == unsigned_part(u),
            u == s@.skip(from as int),
            neg == (u.len() > 0 && u[0] == '-'),
            forall|k: int| start <= k < i ==> is_digit(#[trigger] s@[k]),
            !big ==> acc == digits_value(body.take(i - start)),
            !big ==> 0 <= acc <= 0x8000_0000,
            big ==> digits_value(body.take(i - start)) > 0x8000_0000,
        decreases n - i,
    {
        let c = s.get_char(i);
        if !('0' <= c && c <= '9') {
            assert(!is_digit(body[i - start]));
            return None;
        }
        let ghost t = body.take(i - start + 1);
        assert(t.drop_last() =~= body.take(i - start));
        assert(t.last() == c);
        if !big {
            let v = acc * 10 + (c as u32 - '0' as u32) as i64;
            if v > 0x8000_0000 {
                big = true;
            } else {
                acc = v;
            }
        } else {
            assert(digits_value(t) >= digits_value(body.take(i - start))) by {
                assert forall|k: int| 0 <= k < t.len() implies is_digit(#[trigger] t[k]) by {
                    assert(t[k] == s@[start + k]);
                }
                lemma_digits_grow(t, (i - start) as int, (i - start) as int + 1);
                assert(t.take((i - start) as int) =~= body.take(i - start));
                assert(t.take((i - start) as int + 1) =~= t);
            }
        }
        i += 1;
    }
    assert(body.take(n - start) =~= body);
    assert forall|k: int| 0 <= k < body.len() implies is_digit(#[trigger] body[k]) by {
        assert(body[k] == s@[start + k]);
    }
    if big {
        return None;
    }
    let v: i64 = if neg { -acc } else { acc };
    if v < -0x8000_0000 || v > 0x7fff_ffff {
        return None;
    }
    Some(v as i32)
}

/// The degrees of a chord progression typed as arguments: every argument that reads as a
/// number from 1 to 7, in order; the others are skipped.
pub open spec fn prog_of(args: Seq<Seq<char>>) -> Seq<i32>
    decreases args.len(),
{
    if args.len() == 0 {
        seq![]
    } else {
        let rest = prog_of(args.drop_last());
        match int_of(args.last()) {
            Some(d) => if 1 <= d <= 7 { rest.push(d as i32) } else { rest },
            None => rest,
        }
    }
}

/// Read a chord progression from command arguments (see `prog_of`).
pub fn parse_prog(args: &[&str]) -> (r: Vec<i32>)
    ensures
        r@ == prog_of(args@.map_values(|a: &str| a@)),
{
    let ghost all = args@.map_values(|a: &str| a@);
    let mut r: Vec<i32> = Vec::new();
    let mut i: usize = 0;
    while i < args.len()
        invariant
            i <= args@.len(),
            all == args@.map_values(|a: &str| a@),
            r@ == prog_of(all.take(i as int)),
        decreases args@.len() - i,
    {
        assert(all.take(i + 1).drop_last() =~= all.take(i as int));
        assert(all.take(i + 1).last() == args@[i as int]@);
        match parse_int(args[i]) {
            Some(d) => {
                if 1 <= d && d <= 7 {
                    r.push(d);
                }
            },
            None => {},
        }
        i += 1;
    }
    assert(all.take(args@.len() as int) =~= all);
    r
}

/// The key a `key` command names: the root from its first argument, minor when the second
/// argument starts with 'm' or, without one, when the first ends with 'm' ("Bbm").
pub open spec fn key_of(name: Seq<char>, mode: Option<Seq<char>>) -> Option<(int, bool)> {
    match root_of(name) {
        None => None,
        Some(r) => Some((r, match mode {
            Some(m) => m.len() > 0 && m[0] == 'm',
            None => name.len() > 0 && name.last() == 'm',
        })),
    }
}

/// Read the arguments of a `key` command (see `key_of`).
pub fn parse_key(name: &str, mode: Option<&str>) -> (r: Option<(i32, bool)>)
    ensures
        r matches Some((k, m)) ==> key_of(name@, match mode { Some(t) => Some(t@), None => None }) == Some((k as int, m)),
        r is None ==> key_of(name@, match mode { Some(t) => Some(t@), None => None }) is None,
{
    let root = match crate::song::parse_root(name) {
        Some(k) => k,
        None => return None,
    };
    let minor = match mode {
        Some(m) => m.unicode_len() > 0 && m.get_char(0) == 'm',
        None => {
            let n = name.unicode_len();
            n > 0 && name.get_char(n - 1) == 'm'
        },
    };
    Some((root, minor))
}

/// Skip to the first digit or '-' (where an octave number starts).
pub open spec fn from_number(s: Seq<char>) -> Seq<char>
    decreases s.len(),
{
    if s.len() == 0 || is_digit(s[0]) || s[0] == '-' { s } else { from_number(s.drop_first()) }
}

/// The midi note a typed note name stands for: "D4" is 62, "C#-1" is 1; without an octave
/// number, octave 4.
pub open spec fn note_number_of(s: Seq<char>) -> Option<int> {
    match root_of(s) {
        None => None,
        Some(p) => {
            let oct = match int_of(from_number(s)) {
                Some(o) => o,
                None => 4,
            };
            Some(12 * (oct + 1) + p)
        },
    }
}

/// Read a typed note name (see `note_number_of`).
pub fn note_number(s: &str) -> (r: Option<i64>)
    ensures
        r matches Some(v) ==> note_number_of(s@) == Some(v as int),
        r is None ==> note_number_of(s@) is None,
{
    let p = match crate::song::parse_root(s) {
        Some(p) => p,
        None => return None,
    };
    let n = s.unicode_len();
    let mut k: usize = 0;
    let mut done = false;
    assert(s@.skip(0) =~= s@);
    while k < n && !done
        invariant
            n == s@.len(),
            k <= n,
            done ==> k < n && (is_digit(s@[k as int]) || s@[k as int] == '-'),
            from_number(s@) == from_number(s@.skip(k as int)),
        decreases n - k + (if done { 0int } else { 1int }),
    {
        let c = s.get_char(k);
        if ('0' <= c && c <= '9') || c == '-' {
            done = true;
        } else {
            assert(s@.skip(k as int).drop_first() =~= s@.skip(k + 1));
            k += 1;
        }
    }
    assert(k == n ==> s@.skip(k as int) =~= Seq::<char>::empty());
    assert(from_number(s@) == s@.skip(k as int));
    let oct: i64 = match int_at(s, k) {
        Some(o) => o as i64,
        None => 4,
    };
    Some(12 * (oct + 1) + p as i64)
}

pub open spec fn clamp(v: int, lo: int, hi: int) -> int {
    if v < lo { lo } else if v > hi { hi } else { v }
}

/// A cursor at `cur` moved by `d`, kept on the `n` positions `0..n`.
pub fn step_cursor(cur: usize, d: i64, n: usize) -> (r: usize)
    requires
        0 < n <= i64::MAX,
        cur <= i64::MAX,
        i64::MIN <= cur + d <= i64::MAX,
    ensures
        r == clamp(cur + d, 0, n - 1),
{
    let v: i64 = cur as i64 + d;
    let hi: i64 = n as i64 - 1;
    if v < 0 { 0 } else if v > hi { hi as usize } else { v as usize }
}

/// The steps a selection from `mark` to the cursor covers, both ends included.
pub fn selection(mark: usize, cur: usize) -> (r: (usize, usize))
    requires
        mark < usize::MAX,
        cur < usize::MAX,
    ensures
        r.0 == if mark <= cur { mark } else { cur },
        r.1 == (if mark <= cur { cur } else { mark }) + 1,
{
    if mark <= cur { (mark, cur + 1) } else { (cur, mark + 1) }
}

/// The bar (of `bar_steps` steps) the cursor is in.
pub fn bar_span(cur: usize, bar_steps: usize) -> (r: (usize, usize))
    requires
        bar_steps > 0,
        cur + bar_steps <= usize::MAX,
    ensures
        r.0 == cur / bar_steps * bar_steps,
        r.1 == r.0 + bar_steps,
        r.0 <= cur < r.1,
{
    proof {
        vstd::arithmetic::div_mod::lemma_fundamental_div_mod(cur as int, bar_steps as int);
        assert(cur / bar_steps * bar_steps == cur - cur % bar_steps) by (nonlinear_arith)
            requires
                cur == bar_steps * (cur / bar_steps) + cur % bar_steps,
        ;
    }
    let b = cur / bar_steps * bar_steps;
    (b, b + bar_steps)
}

/// Which connections a node spliced into a node's output takes over, from the chooser row
/// `pick`: row 0 is all of them, rows `1..=n` one each, and the last row none.
pub open spec fn splice_choice(choices: Seq<(u32, usize)>, pick: int) -> Seq<(u32, usize)> {
    if pick == 0 { choices } else if pick <= choices.len() { seq![choices[pick - 1]] } else { seq![] }
}

/// The connections chosen for a splice (see `splice_choice`).
pub fn splice_targets(choices: &Vec<(u32, usize)>, pick: usize) -> (r: Vec<(u32, usize)>)
    ensures
        r@ == splice_choice(choices@, pick as int),
{
    if pick == 0 {
        let mut r: Vec<(u32, usize)> = Vec::new();
        let mut i: usize = 0;
        while i < choices.len()
            invariant
                i <= choices@.len(),
                r@ =~= choices@.take(i as int),
            decreases choices@.len() - i,
        {
            r.push(choices[i]);
            i += 1;
        }
        assert(choices@.take(choices@.len() as int) =~= choices@);
        r
    } else if pick <= choices.len() {
        let mut r: Vec<(u32, usize)> = Vec::new();
        r.push(choices[pick - 1]);
        assert(r@ =~= seq![choices@[pick - 1]]);
        r
    } else {
        let r: Vec<(u32, usize)> = Vec::new();
        assert(r@ =~= seq![]);
        r
    }
}

/// Which of a node's output connections a disconnect cuts, from the chooser row `pick`:
/// rows `0..n` one each, the last row all of them.
pub open spec fn cut_choice(choices: Seq<(u32, usize)>, pick: int) -> Seq<(u32, usize)> {
    if 0 <= pick < choices.len() { seq![choices[pick]] } else { choices }
}

/// The connections chosen for a disconnect (see `cut_choice`).
pub fn cut_targets(choices: &Vec<(u32, usize)>, pick: usize) -> (r: Vec<(u32, usize)>)
    ensures
        r@ == cut_choice(choices@, pick as int),
{
    if pick < choices.len() {
        let mut r: Vec<(u32, usize)> = Vec::new();
        r.push(choices[pick]);
        assert(r@ =~= seq![choices@[pick as int]]);
        r
    } else {
        splice_targets(choices, 0)
    }
}

} // verus!
