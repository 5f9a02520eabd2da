//! A pointer chase through every cache line of a memory region.
//!
//! The first word of each line holds the byte offset of the line to visit
//! next. The links are laid by Sattolo's shuffle, which leaves one single
//! cycle, so a chase revisits no line before it has visited them all.

use vstd::prelude::*;

use crate::config::{CACHE_LINE_SIZE, LINE_WORDS};
use crate::region::{Access, Region};

verus! {

/// Multiplier of the linear congruential generator.
pub const LCG_MULTIPLIER: u64 = 6364136223846793005;

/// Increment of the linear congruential generator.
pub const LCG_INCREMENT: u64 = 1442695040888963407;

/// The generator's state before the first draw.
pub const LCG_SEED: u64 = 0xdeadbeef12345678;

/// The state that follows `state`, which is also the number drawn.
pub open spec fn lcg(state: u64) -> u64 {
    ((state * LCG_MULTIPLIER + LCG_INCREMENT) % 0x1_0000_0000_0000_0000) as u64
}

/// Reducing a product before an increment is added leaves the reduced sum.
proof fn lemma_wrapped_step(product: int, increment: int)
    requires
        0 <= product,
        0 <= increment < 0x1_0000_0000_0000_0000,
    ensures
        ({
            let sum = product % 0x1_0000_0000_0000_0000 + increment;
            (product + increment) % 0x1_0000_0000_0000_0000 == if sum
                >= 0x1_0000_0000_0000_0000 {
                sum - 0x1_0000_0000_0000_0000
            } else {
                sum
            }
        }),
{
}

/// Draws the next pseudo-random number.
pub fn lcg_next(rng: &mut u64) -> (drawn: u64)
    ensures
        *final(rng) == lcg(*old(rng)),
        drawn == lcg(*old(rng)),
{
    let product: u64 = rng.wrapping_mul(LCG_MULTIPLIER);
    let drawn: u64 = product.wrapping_add(LCG_INCREMENT);
    proof {
        lemma_wrapped_step(*rng as int * LCG_MULTIPLIER as int, LCG_INCREMENT as int);
    }
    *rng = drawn;
    drawn
}

/// The permutation `next` with the successors of `i` and `j` exchanged.
pub open spec fn exchanged(next: Seq<int>, i: int, j: int) -> Seq<int> {
    next.update(i, next[j]).update(j, next[i])
}

/// Sattolo's shuffle of `next` for the positions from `i` down to 1: each
/// exchanges its successor with that of a strictly smaller position.
pub open spec fn sattolo(next: Seq<int>, i: int, state: u64) -> Seq<int>
    decreases i,
{
    if i <= 0 {
        next
    } else {
        let drawn = lcg(state);
        sattolo(exchanged(next, i, drawn as int % i), i - 1, drawn)
    }
}

/// The successor of each of `n` lines in a chase drawn from `seed`.
pub open spec fn chase_order(n: nat, seed: u64) -> Seq<int> {
    sattolo(Seq::new(n, |i: int| i), n - 1, seed)
}

/// The line reached from line 0 after `k` steps along `next`.
pub open spec fn hops(next: Seq<int>, k: nat) -> int
    decreases k,
{
    if k == 0 {
        0
    } else {
        next[hops(next, (k - 1) as nat)]
    }
}

/// The walk along `next` from line 0 is at line `v` within its first `n` steps.
pub open spec fn reaches(next: Seq<int>, n: nat, v: int) -> bool {
    exists|k: nat| k < n && #[trigger] hops(next, k) == v
}

/// `path` leads along `next` from the successor of `root` back to `root`.
spec fn is_loop(next: Seq<int>, path: Seq<int>, root: int) -> bool {
    &&& path.len() > 0
    &&& path.last() == root
    &&& path[0] == next[root]
    &&& forall|k: int| #![trigger path[k]] 0 <= k < path.len() - 1 ==> next[path[k]] == path[k + 1]
}

/// Some loop of `loops` passes through `v`.
spec fn passes(loops: Seq<Seq<int>>, v: int) -> bool {
    exists|r: int, k: int| 0 <= r < loops.len() && 0 <= k < loops[r].len() && #[trigger] loops[r][k] == v
}

/// `loops` are the cycles of the permutation `next`: loop `r` ends in `r`,
/// and every position lies on exactly one loop, exactly once.
spec fn cycles(next: Seq<int>, loops: Seq<Seq<int>>) -> bool {
    &&& loops.len() <= next.len()
    &&& forall|r: int| 0 <= r < loops.len() ==> is_loop(next, #[trigger] loops[r], r)
    &&& forall|r: int, k: int|
        0 <= r < loops.len() && 0 <= k < loops[r].len() ==> 0 <= #[trigger] loops[r][k] < next.len()
    &&& forall|r: int, k: int, s: int, l: int|
        0 <= r < loops.len() && 0 <= k < loops[r].len() && 0 <= s < loops.len() && 0 <= l
            < loops[s].len() && #[trigger] loops[r][k] == #[trigger] loops[s][l] ==> r == s && k == l
    &&& forall|v: int| 0 <= v < next.len() ==> #[trigger] passes(loops, v)
}

/// Exchanging the successors of the last root and a smaller one joins their
/// two loops and leaves the others alone.
proof fn lemma_exchange_joins(next: Seq<int>, loops: Seq<Seq<int>>, j: int)
    requires
        cycles(next, loops),
        loops.len() >= 2,
        0 <= j < loops.len() - 1,
    ensures
        ({
            let i = loops.len() - 1;
            cycles(
                exchanged(next, i, j),
                loops.drop_last().update(j, loops[i] + loops[j]),
            )
        }),
{
    let i = loops.len() - 1;
    let after = exchanged(next, i, j);
    let joined = loops[i] + loops[j];
    let rest = loops.drop_last().update(j, joined);
    let ni = loops[i].len() as int;
    let nj = loops[j].len() as int;
    assert(loops[i][ni - 1] == i);
    assert(loops[j][nj - 1] == j);
    assert forall|r: int| 0 <= r < rest.len() implies is_loop(after, #[trigger] rest[r], r) by {
        assert(is_loop(next, loops[r], r));
        let path = rest[r];
        if r == j {
            assert(is_loop(next, loops[i], i));
            assert forall|k: int| #![trigger path[k]] 0 <= k < path.len() - 1 implies after[path[k]] == path[k + 1] by {
                if k < ni - 1 {
                    assert(path[k] == loops[i][k]);
                    assert(path[k + 1] == loops[i][k + 1]);
                    assert(loops[i][k] != loops[i][ni - 1]);
                    assert(loops[i][k] != loops[j][nj - 1]);
                } else if k == ni - 1 {
                    assert(path[k] == i);
                    assert(path[k + 1] == loops[j][0]);
                } else {
                    assert(path[k] == loops[j][k - ni]);
                    assert(path[k + 1] == loops[j][k - ni + 1]);
                    assert(loops[j][k - ni] != loops[j][nj - 1]);
                    assert(loops[j][k - ni] != loops[i][ni - 1]);
                }
            }
            assert(path.last() == j);
            assert(path[0] == loops[i][0]);
        } else {
            assert(path == loops[r]);
            assert(path[path.len() - 1] == r);
            assert forall|k: int| #![trigger path[k]] 0 <= k < path.len() - 1 implies after[path[k]] == path[k + 1] by {
                assert(loops[r][k] != loops[i][ni - 1]);
                assert(loops[r][k] != loops[j][nj - 1]);
            }
        }
    }
    assert forall|r: int, k: int| 0 <= r < rest.len() && 0 <= k < rest[r].len() implies 0
        <= #[trigger] rest[r][k] < after.len() by {
        if r == j && k < ni {
            assert(rest[r][k] == loops[i][k]);
        } else if r == j {
            assert(rest[r][k] == loops[j][k - ni]);
        } else {
            assert(rest[r][k] == loops[r][k]);
        }
    }
    assert forall|r: int, k: int, s: int, l: int|
        0 <= r < rest.len() && 0 <= k < rest[r].len() && 0 <= s < rest.len() && 0 <= l
            < rest[s].len() && #[trigger] rest[r][k] == #[trigger] rest[s][l] implies r == s && k
        == l by {
        let (r0, k0) = if r == j && k < ni {
            (i, k)
        } else if r == j {
            (j, k - ni)
        } else {
            (r, k)
        };
        let (s0, l0) = if s == j && l < ni {
            (i, l)
        } else if s == j {
            (j, l - ni)
        } else {
            (s, l)
        };
        assert(rest[r][k] == loops[r0][k0]);
        assert(rest[s][l] == loops[s0][l0]);
    }
    assert forall|v: int| 0 <= v < after.len() implies #[trigger] passes(rest, v) by {
        assert(passes(loops, v));
        let (r, k) = choose|r: int, k: int|
            0 <= r < loops.len() && 0 <= k < loops[r].len() && #[trigger] loops[r][k] == v;
        if r == i {
            assert(rest[j][k] == v);
        } else if r == j {
            assert(rest[j][k + ni] == v);
        } else {
            assert(rest[r][k] == v);
        }
    }
}

/// The shuffle started on the cycles `loops` ends with a single one.
proof fn lemma_sattolo(next: Seq<int>, i: int, state: u64, loops: Seq<Seq<int>>) -> (path: Seq<int>)
    requires
        cycles(next, loops),
        loops.len() == i + 1,
        0 <= i,
    ensures
        sattolo(next, i, state).len() == next.len(),
        cycles(sattolo(next, i, state), seq![path]),
    decreases i,
{
    if i == 0 {
        assert(loops =~= seq![loops[0]]);
        loops[0]
    } else {
        let drawn = lcg(state);
        let j = drawn as int % i;
        lemma_exchange_joins(next, loops, j);
        lemma_sattolo(
            exchanged(next, i, j),
            i - 1,
            drawn,
            loops.drop_last().update(j, loops[i] + loops[j]),
        )
    }
}

/// The walk from line 0 goes round a loop that ends there.
proof fn lemma_hops_round(next: Seq<int>, path: Seq<int>, k: nat)
    requires
        is_loop(next, path, 0),
        1 <= k <= path.len(),
    ensures
        hops(next, k) == path[k - 1],
    decreases k,
{
    if k > 1 {
        lemma_hops_round(next, path, (k - 1) as nat);
        assert(next[path[k - 2]] == path[k - 2 + 1]);
    } else {
        assert(hops(next, 0) == 0);
    }
}

/// A walk that is back at line 0 after `n` steps repeats itself from there.
proof fn lemma_hops_repeat(next: Seq<int>, n: nat, k: nat)
    requires
        hops(next, n) == 0,
    ensures
        hops(next, n + k) == hops(next, k),
    decreases k,
{
    if k > 0 {
        lemma_hops_repeat(next, n, (k - 1) as nat);
        assert((n + k - 1) as nat == n + (k - 1) as nat);
    }
}

/// Steps that differ by whole rounds of `n` end on the same line.
proof fn lemma_hops_modulo(next: Seq<int>, n: nat, k: nat)
    requires
        n > 0,
        hops(next, n) == 0,
    ensures
        hops(next, k) == hops(next, k % n),
    decreases k,
{
    if k >= n {
        let less = (k - n) as nat;
        lemma_hops_repeat(next, n, less);
        lemma_hops_modulo(next, n, less);
        vstd::arithmetic::div_mod::lemma_mod_add_multiples_vanish(less as int, n as int);
        assert(k == n + less);
    } else {
        vstd::arithmetic::div_mod::lemma_small_mod(k, n);
    }
}

/// A chase over `n` lines visits all of them, no one twice, and is back at
/// line 0 after `n` steps.
pub proof fn single_cycle(n: nat, seed: u64)
    requires
        n > 0,
    ensures
        chase_order(n, seed).len() == n,
        forall|v: int| 0 <= v < n ==> 0 <= #[trigger] chase_order(n, seed)[v] < n,
        forall|k: nat| 0 <= #[trigger] hops(chase_order(n, seed), k) < n,
        forall|a: nat, b: nat|
            a < b < n ==> #[trigger] hops(chase_order(n, seed), a) != #[trigger] hops(
                chase_order(n, seed),
                b,
            ),
        forall|v: int| 0 <= v < n ==> #[trigger] reaches(chase_order(n, seed), n, v),
        hops(chase_order(n, seed), n) == 0,
{
    let start = Seq::new(n, |i: int| i);
    let loops = Seq::new(n, |r: int| seq![r]);
    assert forall|v: int| 0 <= v < n implies #[trigger] passes(loops, v) by {
        assert(loops[v][0] == v);
    }
    assert(cycles(start, loops));
    let path = lemma_sattolo(start, n - 1, seed, loops);
    let next = chase_order(n, seed);
    let only = seq![path];
    assert(only[0] == path);
    assert(is_loop(next, only[0], 0));
    assert forall|k: int, l: int| 0 <= k < path.len() && 0 <= l < path.len() && #[trigger] path[k]
        == #[trigger] path[l] implies k == l by {
        assert(only[0][k] == only[0][l]);
    }
    assert(path.no_duplicates());
    assert forall|v: int| 0 <= v < n implies path.contains(v) by {
        assert(passes(only, v));
    }
    assert forall|k: int| 0 <= k < path.len() implies 0 <= #[trigger] path[k] < n by {
        assert(0 <= only[0][k] < next.len());
    }
    assert(path.len() == n) by {
        path.unique_seq_to_set();
        vstd::set_lib::lemma_int_range(0, n as int);
        assert(path.to_set() =~= vstd::set_lib::set_int_range(0, n as int));
    }
    assert forall|k: nat| k < n implies 0 <= #[trigger] hops(next, k) < n by {
        if k > 0 {
            lemma_hops_round(next, path, k);
        }
    }
    assert(hops(next, n) == 0) by {
        lemma_hops_round(next, path, n);
    }
    assert forall|k: nat| 0 <= #[trigger] hops(next, k) < n by {
        lemma_hops_modulo(next, n, k);
    }
    assert forall|a: nat, b: nat| a < b < n implies #[trigger] hops(next, a) != #[trigger] hops(next, b) by {
        if a > 0 {
            lemma_hops_round(next, path, a);
        }
        lemma_hops_round(next, path, b);
    }
    assert forall|v: int| 0 <= v < n implies #[trigger] reaches(next, n, v) by {
        assert(path.contains(v));
        let k = choose|k: int| 0 <= k < path.len() && path[k] == v;
        if k == n - 1 {
            assert(hops(next, 0) == v);
        } else {
            lemma_hops_round(next, path, (k + 1) as nat);
            assert(hops(next, (k + 1) as nat) == v);
        }
    }
    assert forall|v: int| 0 <= v < n implies 0 <= #[trigger] next[v] < n by {
        assert(reaches(next, n, v));
        let k = choose|k: nat| k < n && #[trigger] hops(next, k) == v;
        assert(hops(next, k + 1) == next[v]);
    }
}

/// Any `n` consecutive accesses of a chase over `n` lines go to `n` different
/// lines, however long the chase has been running.
pub proof fn distinct_accesses(n: nat, seed: u64, a: nat, b: nat)
    requires
        n > 0,
        a < b < a + n,
    ensures
        hops(chase_order(n, seed), a) != hops(chase_order(n, seed), b),
{
    let next = chase_order(n, seed);
    single_cycle(n, seed);
    lemma_hops_modulo(next, n, a);
    lemma_hops_modulo(next, n, b);
    assert(a % n != b % n) by (nonlinear_arith)
        requires
            n > 0,
            a < b < a + n,
    ;
    assert(a % n < n && b % n < n);
    if a % n < b % n {
        assert(hops(next, a % n) != hops(next, b % n));
    } else {
        assert(hops(next, b % n) != hops(next, a % n));
    }
}

/// The whole lines in a region of 64-bit words.
pub open spec fn line_count(words: Seq<u64>) -> nat {
    words.len() / LINE_WORDS as nat
}

/// The successor of each line: what its first word holds, counted in lines.
pub open spec fn links(words: Seq<u64>) -> Seq<int> {
    Seq::new(line_count(words), |i: int| words[i * LINE_WORDS] as int / CACHE_LINE_SIZE as int)
}

/// The first word of line `i` is the byte offset of a line of the region.
pub open spec fn line_linked(words: Seq<u64>, i: int) -> bool {
    let offset = words[i * LINE_WORDS] as int;
    &&& offset % (CACHE_LINE_SIZE as int) == 0
    &&& offset / (CACHE_LINE_SIZE as int) < line_count(words)
}

/// Every line leads to a line of the region.
pub open spec fn linked(words: Seq<u64>) -> bool {
    forall|i: int| 0 <= i < line_count(words) ==> #[trigger] line_linked(words, i)
}

/// Word `w` is the first of a whole line.
pub open spec fn is_link_word(words: Seq<u64>, w: int) -> bool {
    w % (LINE_WORDS as int) == 0 && w / (LINE_WORDS as int) < line_count(words)
}

/// The first words of the lines are the byte offsets of the lines `next`
/// names, and all other words are those of `before`.
spec fn holds(words: Seq<u64>, before: Seq<u64>, next: Seq<int>) -> bool {
    &&& words.len() == before.len()
    &&& forall|i: int|
        #![trigger next[i]]
        0 <= i < next.len() ==> words[i * LINE_WORDS] == next[i] * CACHE_LINE_SIZE
    &&& forall|w: int|
        0 <= w < words.len() && !is_link_word(before, w) ==> #[trigger] words[w] == before[w]
}

/// Writing line `i`'s first word changes the link of line `i` alone.
proof fn lemma_holds_update(
    words: Seq<u64>,
    before: Seq<u64>,
    next: Seq<int>,
    i: int,
    offset: u64,
    target: int,
)
    requires
        holds(words, before, next),
        next.len() <= line_count(before),
        0 <= i < next.len(),
        offset == target * CACHE_LINE_SIZE,
    ensures
        holds(words.update(i * LINE_WORDS, offset), before, next.update(i, target)),
{
}

/// `after` is `before` turned into a chase.
pub open spec fn lays_chase(before: Seq<u64>, after: Seq<u64>) -> bool {
    &&& after.len() == before.len()
    &&& linked(after)
    &&& links(after) == chase_order(line_count(before), LCG_SEED)
    &&& forall|w: int|
        0 <= w < before.len() && !is_link_word(before, w) ==> #[trigger] after[w] == before[w]
}

/// Turns a region into a chase: the first word of each line becomes the byte
/// offset of its successor, every other word stays.
pub fn link_chase(words: &mut [u64])
    requires
        old(words)@.len() * 8 <= u64::MAX,
    ensures
        lays_chase(old(words)@, final(words)@),
        final(words)@.len() == old(words)@.len(),
        linked(final(words)@),
        links(final(words)@) == chase_order(line_count(old(words)@), LCG_SEED),
        forall|w: int|
            0 <= w < old(words)@.len() && !is_link_word(old(words)@, w)
                ==> #[trigger] final(words)@[w] == old(words)@[w],
{
    let ghost before = words@;
    let lines: usize = words.len() / LINE_WORDS;
    let mut i: usize = 0;
    while i < lines
        invariant
            lines == line_count(before),
            before.len() <= usize::MAX,
            before.len() * 8 <= u64::MAX,
            0 <= i <= lines,
            holds(words@, before, Seq::new(i as nat, |l: int| l)),
        decreases lines - i,
    {
        let ghost filled = Seq::new(i as nat, |l: int| l);
        let ghost previous = words@;
        words[i * LINE_WORDS] = i as u64 * CACHE_LINE_SIZE as u64;
        i = i + 1;
        proof {
            let wider = Seq::new(i as nat, |l: int| l);
            assert forall|l: int| #![trigger wider[l]] 0 <= l < wider.len() implies words@[l
                * LINE_WORDS] == wider[l] * CACHE_LINE_SIZE by {
                if l < filled.len() {
                    assert(filled[l] == l);
                    assert(previous[l * LINE_WORDS] == filled[l] * CACHE_LINE_SIZE);
                }
            }
        }
    }
    let mut rng: u64 = LCG_SEED;
    let ghost mut next = Seq::new(lines as nat, |l: int| l);
    let mut i: usize = lines;
    while i > 1
        invariant
            lines == line_count(before),
            before.len() <= usize::MAX,
            0 <= i <= lines,
            next.len() == lines,
            holds(words@, before, next),
            sattolo(next, i - 1, rng) == chase_order(lines as nat, LCG_SEED),
        decreases i,
    {
        i = i - 1;
        let j: usize = (lcg_next(&mut rng) % i as u64) as usize;
        let a: usize = i * LINE_WORDS;
        let b: usize = j * LINE_WORDS;
        let kept: u64 = words[a];
        proof {
            lemma_holds_update(words@, before, next, i as int, words@[b as int], next[j as int]);
            lemma_holds_update(
                words@.update(a as int, words@[b as int]),
                before,
                next.update(i as int, next[j as int]),
                j as int,
                kept,
                next[i as int],
            );
            next = exchanged(next, i as int, j as int);
        }
        words[a] = words[b];
        words[b] = kept;
    }
    proof {
        if lines > 0 {
            single_cycle(lines as nat, LCG_SEED);
        }
        assert forall|l: int| 0 <= l < lines implies #[trigger] line_linked(words@, l)
            && links(words@)[l] == next[l] by {
            assert(words@[l * LINE_WORDS] == next[l] * CACHE_LINE_SIZE);
        }
        assert(next =~= links(words@));
    }
}

/// The reads of a chase of `accesses` steps along `next`: each goes to the
/// first word of the line that the steps before it reached.
pub open spec fn chase_log(next: Seq<int>, accesses: nat) -> Seq<Access<u64>> {
    Seq::new(
        accesses,
        |k: int| Access::<u64>::Read { at: hops(next, k as nat) * LINE_WORDS },
    )
}

/// The byte offset of the line that a chase through `words` has reached after
/// `accesses` steps.
pub open spec fn chased_offset(words: Seq<u64>, accesses: nat) -> int {
    hops(links(words), accesses) * CACHE_LINE_SIZE
}

/// Follows the links of a region for `accesses` steps from its first line,
/// and returns the byte offset of the line reached. Each step is one read.
pub fn chase(region: &mut Region<'_, u64>, accesses: usize) -> (offset: u64)
    requires
        linked(old(region).cells()),
        accesses > 0 ==> line_count(old(region).cells()) > 0,
    ensures
        offset == hops(links(old(region).cells()), accesses as nat) * CACHE_LINE_SIZE,
        offset == chased_offset(old(region).cells(), accesses as nat),
        final(region).cells() == old(region).cells(),
        final(region).log() == old(region).log() + chase_log(
            links(old(region).cells()),
            accesses as nat,
        ),
{
    let ghost words = region.cells();
    let ghost before = region.log();
    let mut offset: u64 = 0;
    let mut done: usize = 0;
    assert(before =~= before + chase_log(links(words), 0));
    while done < accesses
        invariant
            linked(words),
            accesses > 0 ==> line_count(words) > 0,
            0 <= done <= accesses,
            region.cells() == words,
            region.log() == before + chase_log(links(words), done as nat),
            offset == hops(links(words), done as nat) * CACHE_LINE_SIZE,
            done < accesses ==> 0 <= hops(links(words), done as nat) < line_count(words),
        decreases accesses - done,
    {
        proof {
            region.cells_are_indexed();
            assert(line_linked(words, hops(links(words), done as nat)));
        }
        offset = region.read((offset / 8) as usize);
        proof {
            assert(chase_log(links(words), done as nat + 1) =~= chase_log(
                links(words),
                done as nat,
            ).push(chase_log(links(words), done as nat + 1)[done as int]));
        }
        done = done + 1;
    }
    offset
}

/// The byte offset of a word.
pub open spec fn byte_offset(word: int) -> int {
    word * 8
}

/// A chase of at most `n` steps through `n` lines makes one read for each
/// step, all of them at the start of a line of the region, no two at the same
/// line, and the first at the region's first byte.
pub proof fn reads_unique_lines(n: nat, seed: u64, accesses: nat)
    requires
        accesses <= n,
    ensures
        chase_log(chase_order(n, seed), accesses).len() == accesses,
        forall|k: int|
            0 <= k < accesses ==> {
                &&& #[trigger] chase_log(chase_order(n, seed), accesses)[k] is Read
                &&& 0 <= byte_offset(chase_log(chase_order(n, seed), accesses)[k]->Read_at) < n
                    * CACHE_LINE_SIZE
                &&& byte_offset(chase_log(chase_order(n, seed), accesses)[k]->Read_at) % (
                CACHE_LINE_SIZE as int) == 0
            },
        forall|j: int, k: int|
            0 <= j < k < accesses ==> #[trigger] chase_log(chase_order(n, seed), accesses)[j]
                != #[trigger] chase_log(chase_order(n, seed), accesses)[k],
        accesses > 0 ==> chase_log(chase_order(n, seed), accesses)[0] == (Access::<
            u64,
        >::Read { at: 0 }),
{
    let next = chase_order(n, seed);
    let log = chase_log(next, accesses);
    if accesses > 0 {
        single_cycle(n, seed);
        assert forall|k: int| 0 <= k < accesses implies {
            &&& #[trigger] log[k] is Read
            &&& 0 <= byte_offset(log[k]->Read_at) < n * CACHE_LINE_SIZE
            &&& byte_offset(log[k]->Read_at) % (CACHE_LINE_SIZE as int) == 0
        } by {
            let line = hops(next, k as nat);
            assert(0 <= line < n);
        }
        assert forall|j: int, k: int| 0 <= j < k < accesses implies #[trigger] log[j]
            != #[trigger] log[k] by {
            assert(hops(next, j as nat) != hops(next, k as nat));
        }
        assert(hops(next, 0) == 0);
    }
}

/// The generator steps by its multiplier: states that follow one another lead
/// to numbers that far apart, but for whole multiples of two to the 64th, and
/// state zero leads to the increment.
pub proof fn generator_exact(state: u64)
    requires
        state < u64::MAX,
    ensures
        lcg(0) == 1442695040888963407,
        (lcg((state + 1) as u64) - lcg(state) - 6364136223846793005) % 0x1_0000_0000_0000_0000 == 0,
{
    let (product, larger) = (state * LCG_MULTIPLIER, (state + 1) * LCG_MULTIPLIER);
    assert(larger == product + LCG_MULTIPLIER) by (nonlinear_arith)
        requires
            product == state * LCG_MULTIPLIER,
            larger == (state + 1) * LCG_MULTIPLIER,
    ;
    assert(0 * LCG_MULTIPLIER == 0);
    lemma_remainders_apart(product + LCG_INCREMENT, LCG_MULTIPLIER as int);
    assert(lcg((state + 1) as u64) == (larger + LCG_INCREMENT) % 0x1_0000_0000_0000_0000);
    assert(lcg(state) == (product + LCG_INCREMENT) % 0x1_0000_0000_0000_0000);
}

/// Remainders are as far apart as the numbers, but for multiples of the
/// modulus.
proof fn lemma_remainders_apart(a: int, distance: int)
    ensures
        ((a + distance) % 0x1_0000_0000_0000_0000 - a % 0x1_0000_0000_0000_0000 - distance)
            % 0x1_0000_0000_0000_0000 == 0,
{
}

/// The shuffle moves successors about and does not look at them.
proof fn lemma_relabelled(next: Seq<int>, label: spec_fn(int) -> int, i: int, state: u64)
    requires
        i < next.len(),
    ensures
        sattolo(next.map_values(label), i, state) == sattolo(next, i, state).map_values(label),
        sattolo(next, i, state).len() == next.len(),
    decreases i,
{
    if i > 0 {
        let drawn = lcg(state);
        let j = drawn as int % i;
        let after = exchanged(next, i, j);
        lemma_relabelled(after, label, i - 1, drawn);
        assert(exchanged(next.map_values(label), i, j) =~= after.map_values(label));
    }
}

/// The shuffle leaves positions above the one that it begins with alone.
proof fn lemma_untouched(next: Seq<int>, last: int, i: int, state: u64)
    requires
        i < next.len(),
    ensures
        sattolo(next.push(last), i, state) == sattolo(next, i, state).push(last),
    decreases i,
{
    if i > 0 {
        let drawn = lcg(state);
        let j = drawn as int % i;
        let after = exchanged(next, i, j);
        lemma_untouched(after, last, i - 1, drawn);
        assert(exchanged(next.push(last), i, j) =~= after.push(last));
    }
}

/// A chase over one line stays on it. A chase over one line more draws a number
/// first: its remainder modulo the lines below names a line, and the new line
/// is put in front of that one in the chase drawn from there on over the lines
/// below; nothing else changes.
pub proof fn chase_grows(n: nat, seed: u64)
    requires
        n > 0,
    ensures
        chase_order(0, seed).len() == 0,
        chase_order(1, seed) == seq![0int],
        ({
            let drawn = lcg(seed);
            let (order, below) = (chase_order(n + 1, seed), chase_order(n, drawn));
            let before = drawn as int % n as int;
            &&& order.len() == n + 1
            &&& below.len() == n
            &&& order[n as int] == before
            &&& forall|line: int|
                0 <= line < n ==> #[trigger] order[line] == if below[line] == before {
                    n as int
                } else {
                    below[line]
                }
        }),
{
    let drawn = lcg(seed);
    let j = drawn as int % n as int;
    let start = Seq::new(n, |i: int| i);
    let label = |line: int|
        if line == j {
            n as int
        } else {
            line
        };
    assert(chase_order(1, seed) =~= seq![0int]);
    assert(exchanged(Seq::new(n + 1, |i: int| i), n as int, j) =~= start.map_values(label).push(j));
    lemma_untouched(start.map_values(label), j, n - 1, drawn);
    lemma_relabelled(start, label, n - 1, drawn);
}

/// A region that was turned into a chase holds at the start of each whole line
/// of 64 bytes the offset of the line's successor, and what it held before in
/// every other word.
pub proof fn chase_laid_exact(before: Seq<u64>, after: Seq<u64>)
    requires
        lays_chase(before, after),
    ensures
        after.len() == before.len(),
        forall|line: int| #![trigger after[8 * line]]
            0 <= line < before.len() / 8 ==> after[8 * line] == 64 * chase_order(
                before.len() / 8,
                0xdeadbeef12345678,
            )[line],
        forall|w: int|
            0 <= w < before.len() && (w % 8 != 0 || w + 8 > before.len()) ==> #[trigger] after[w]
                == before[w],
{
    let order = chase_order(before.len() / 8, 0xdeadbeef12345678);
    assert forall|line: int| #![trigger after[8 * line]]
        0 <= line < before.len() / 8 implies after[8 * line] == 64 * order[line] by {
        assert(line_linked(after, line));
        assert(links(after)[line] == order[line]);
        assert(after[line * LINE_WORDS] == after[8 * line]);
    }
    assert forall|w: int|
        0 <= w < before.len() && (w % 8 != 0 || w + 8 > before.len()) implies #[trigger] after[w]
        == before[w] by {
        assert(!is_link_word(before, w));
    }
}

/// A chase begins at offset zero, and each step leads to the offset that is
/// found in memory where the steps before have led. These are the words that
/// the chase reads, one for each step.
pub proof fn chase_follows_memory(words: Seq<u64>, accesses: nat)
    requires
        linked(words),
        words.len() >= 8,
    ensures
        chased_offset(words, 0) == 0,
        0 <= chased_offset(words, accesses) <= 8 * words.len() - 64,
        chased_offset(words, accesses) % 64 == 0,
        chased_offset(words, accesses + 1) == words[chased_offset(words, accesses) / 8],
        chase_log(links(words), accesses).len() == accesses,
        forall|k: nat|
            k < accesses ==> #[trigger] chase_log(links(words), accesses)[k as int] == (Access::<
                u64,
            >::Read { at: chased_offset(words, k) / 8 }),
    decreases accesses,
{
    let line = hops(links(words), accesses);
    if accesses > 0 {
        let less = (accesses - 1) as nat;
        chase_follows_memory(words, less);
        let previous = hops(links(words), less);
        assert(0 <= previous < line_count(words));
        assert(line_linked(words, previous));
        assert(line == links(words)[previous]);
    }
    assert(0 <= line < line_count(words));
    assert(line_linked(words, line));
    assert(hops(links(words), accesses + 1) == links(words)[line]);
    assert(chased_offset(words, accesses) / 8 == line * LINE_WORDS);
}

} // verus!
