//! Sequential passes over a region: one byte of every cache line is read or
//! written, in ascending order.

use vstd::prelude::*;

use crate::config::{CACHE_LINE_SIZE, HUGE_PAGE_SIZE};
use crate::region::{Access, Region};

verus! {

/// The byte that warm-up passes write.
pub const WARMUP_BYTE: u8 = 0xAA;

/// The byte that timed passes write.
pub const TIMED_BYTE: u8 = 0xBB;

/// The byte that faults a fresh page in.
pub const TOUCH_BYTE: u8 = 1;

/// `std::hint::black_box` hands its argument back and keeps the compiler from
/// working out, merging or dropping what was computed for it. The contract
/// states the first. The second is about the compiler; how often the code goes
/// to memory is what the log of a region states.
pub assume_specification<T>[ std::hint::black_box::<T> ](dummy: T) -> (result: T)
    ensures
        result == dummy,
;

/// The multiples of `stride` below `len`, counted.
pub open spec fn strides_begun(len: nat, stride: nat) -> nat {
    (len + stride - 1) as nat / stride
}

/// The cache lines that begin inside a region of `len` bytes.
pub open spec fn lines_begun(len: nat) -> nat {
    strides_begun(len, CACHE_LINE_SIZE as nat)
}

/// The sum of the first bytes of the first `lines` cache lines.
pub open spec fn line_sum(mem: Seq<u8>, lines: nat) -> nat
    decreases lines,
{
    if lines == 0 {
        0
    } else {
        line_sum(mem, (lines - 1) as nat) + mem[(lines - 1) * CACHE_LINE_SIZE] as nat
    }
}

/// What one pass reads, summed up.
pub open spec fn pass_sum(mem: Seq<u8>) -> nat {
    line_sum(mem, lines_begun(mem.len()))
}

/// `mem` after `value` was written to every multiple of `stride`.
pub open spec fn strided(mem: Seq<u8>, stride: nat, value: u8) -> Seq<u8> {
    Seq::new(
        mem.len(),
        |i: int|
            if i % (stride as int) == 0 {
                value
            } else {
                mem[i]
            },
    )
}

/// The offsets that one pass over `len` bytes goes to: the multiples of
/// `stride`, ascending.
pub open spec fn sweep(len: nat, stride: nat) -> Seq<int> {
    Seq::new(strides_begun(len, stride), |k: int| k * stride)
}

/// Reads at `offsets`, in order.
pub open spec fn reads(offsets: Seq<int>) -> Seq<Access<u8>> {
    offsets.map_values(|at: int| Access::<u8>::Read { at })
}

/// Writes of `value` at `offsets`, in order.
pub open spec fn writes(offsets: Seq<int>, value: u8) -> Seq<Access<u8>> {
    offsets.map_values(|at: int| Access::Write { at, value })
}

/// `once`, `times` times over.
pub open spec fn repeated<A>(once: Seq<A>, times: nat) -> Seq<A>
    decreases times,
{
    if times == 0 {
        Seq::empty()
    } else {
        repeated(once, (times - 1) as nat) + once
    }
}

/// What reading the first byte of every cache line `passes` times over leaves
/// in the log.
pub open spec fn read_log(len: nat, passes: nat) -> Seq<Access<u8>> {
    repeated(reads(sweep(len, CACHE_LINE_SIZE as nat)), passes)
}

/// What writing `value` to the first byte of every cache line `passes` times
/// over leaves in the log.
pub open spec fn write_log(len: nat, passes: nat, value: u8) -> Seq<Access<u8>> {
    repeated(writes(sweep(len, CACHE_LINE_SIZE as nat), value), passes)
}

/// What touching every huge page once leaves in the log.
pub open spec fn touch_log(len: nat) -> Seq<Access<u8>> {
    writes(sweep(len, HUGE_PAGE_SIZE as nat), TOUCH_BYTE)
}

/// What `passes` passes read, summed up in 64 bits.
pub open spec fn wrapped_sum(mem: Seq<u8>, passes: nat) -> nat {
    (passes * pass_sum(mem)) % 0x1_0000_0000_0000_0000
}

/// `mem` after `passes` passes that write `value`.
pub open spec fn written(mem: Seq<u8>, passes: nat, value: u8) -> Seq<u8> {
    if passes == 0 {
        mem
    } else {
        strided(mem, CACHE_LINE_SIZE as nat, value)
    }
}

/// Reads the first byte of every cache line once, in ascending order, and
/// adds what it reads to `sum`.
fn read_pass(region: &mut Region<'_, u8>, sum: u64) -> (total: u64)
    ensures
        total == (sum + pass_sum(old(region).cells())) % 0x1_0000_0000_0000_0000,
        final(region).cells() == old(region).cells(),
        final(region).log() == old(region).log() + reads(
            sweep(old(region).cells().len(), CACHE_LINE_SIZE as nat),
        ),
{
    let ghost mem = region.cells();
    let ghost before = region.log();
    let ghost pass = reads(sweep(mem.len(), CACHE_LINE_SIZE as nat));
    let len: usize = region.len();
    let lines: usize = len / CACHE_LINE_SIZE + (if len % CACHE_LINE_SIZE == 0 {
        0usize
    } else {
        1usize
    });
    let mut total: u64 = sum;
    let mut line: usize = 0;
    assert(before =~= before + pass.take(0));
    while line < lines
        invariant
            lines == lines_begun(mem.len()),
            mem.len() <= usize::MAX,
            0 <= line <= lines,
            region.cells() == mem,
            pass == reads(sweep(mem.len(), CACHE_LINE_SIZE as nat)),
            region.log() == before + pass.take(line as int),
            total == (sum + line_sum(mem, line as nat)) % 0x1_0000_0000_0000_0000,
        decreases lines - line,
    {
        let byte: u8 = std::hint::black_box(region.read(line * CACHE_LINE_SIZE));
        total = total.wrapping_add(byte as u64);
        proof {
            assert(pass.take(line + 1) =~= pass.take(line as int).push(pass[line as int]));
        }
        line = line + 1;
    }
    assert(pass.take(lines as int) =~= pass);
    total
}

/// Reads the first byte of every cache line, in ascending order, `passes`
/// times over, and returns the wrapped sum of all bytes read.
pub fn read_passes(region: &mut Region<'_, u8>, passes: usize) -> (sum: u64)
    ensures
        sum == (passes * pass_sum(old(region).cells())) % 0x1_0000_0000_0000_0000,
        sum == wrapped_sum(old(region).cells(), passes as nat),
        final(region).cells() == old(region).cells(),
        final(region).log() == old(region).log() + read_log(
            old(region).cells().len(),
            passes as nat,
        ),
{
    let ghost mem = region.cells();
    let ghost before = region.log();
    let mut sum: u64 = 0;
    let mut pass: usize = 0;
    proof {
        assert(0 * pass_sum(mem) == 0);
        assert(before =~= before + read_log(mem.len(), 0));
    }
    while pass < passes
        invariant
            0 <= pass <= passes,
            region.cells() == mem,
            region.log() == before + read_log(mem.len(), pass as nat),
            sum == (pass * pass_sum(mem)) % 0x1_0000_0000_0000_0000,
        decreases passes - pass,
    {
        sum = read_pass(region, sum);
        pass = pass + 1;
        proof {
            lemma_one_more(pass as int, pass_sum(mem) as int);
            assert(region.log() =~= before + read_log(mem.len(), pass as nat));
        }
    }
    sum
}

/// One more pass adds one more sum.
proof fn lemma_one_more(pass: int, sum: int)
    ensures
        pass * sum == (pass - 1) * sum + sum,
{
    assert(pass * sum == (pass - 1) * sum + sum) by (nonlinear_arith);
}

/// Between one multiple of `stride` and the next there is no other.
proof fn lemma_next_multiple(at: int, stride: int)
    requires
        stride > 0,
        at % stride == 0,
    ensures
        (at + stride) % stride == 0,
        forall|i: int| at < i < at + stride ==> #[trigger] (i % stride) != 0,
{
    vstd::arithmetic::div_mod::lemma_mod_add_multiples_vanish(at, stride);
    assert forall|i: int| at < i < at + stride implies #[trigger] (i % stride) != 0 by {
        vstd::arithmetic::div_mod::lemma_fundamental_div_mod(at, stride);
        vstd::arithmetic::div_mod::lemma_mod_multiples_vanish(at / stride, i - at, stride);
        vstd::arithmetic::div_mod::lemma_small_mod((i - at) as nat, stride as nat);
    }
}

/// Multiple `k` of `stride` lies below `len` exactly where fewer than all of
/// them come before it.
proof fn lemma_strides_begun(len: nat, stride: nat, k: nat)
    requires
        stride > 0,
    ensures
        k < strides_begun(len, stride) <==> k * stride < len,
{
    let begun = strides_begun(len, stride);
    vstd::arithmetic::div_mod::lemma_fundamental_div_mod(len + stride - 1, stride as int);
    if k < begun {
        assert(k * stride <= stride * begun - stride) by (nonlinear_arith)
            requires
                k + 1 <= begun,
        ;
    } else {
        assert(stride * begun <= k * stride) by (nonlinear_arith)
            requires
                begun <= k,
        ;
    }
}

/// Writes `value` to every multiple of `stride` once, in ascending order.
fn write_pass(region: &mut Region<'_, u8>, stride: usize, value: u8)
    requires
        stride > 0,
    ensures
        final(region).cells() == strided(old(region).cells(), stride as nat, value),
        final(region).log() == old(region).log() + writes(
            sweep(old(region).cells().len(), stride as nat),
            value,
        ),
{
    let ghost mem = region.cells();
    let ghost before = region.log();
    let ghost pass = writes(sweep(mem.len(), stride as nat), value);
    let ghost mut count: nat = 0;
    let len: usize = region.len();
    let mut at: usize = 0;
    proof {
        vstd::arithmetic::div_mod::lemma_small_mod(0, stride as nat);
        lemma_strides_begun(len as nat, stride as nat, 0);
        assert(before =~= before + pass.take(0));
    }
    while at < len
        invariant
            stride > 0,
            len == mem.len(),
            region.cells().len() == len,
            at <= len,
            at < len ==> at % stride == 0,
            at < len ==> at == count * stride,
            count <= strides_begun(len as nat, stride as nat),
            at == len ==> count == strides_begun(len as nat, stride as nat),
            pass == writes(sweep(len as nat, stride as nat), value),
            region.log() == before + pass.take(count as int),
            forall|i: int|
                0 <= i < at ==> #[trigger] region.cells()[i] == strided(
                    mem,
                    stride as nat,
                    value,
                )[i],
            forall|i: int| at <= i < len ==> #[trigger] region.cells()[i] == mem[i],
        decreases len - at,
    {
        proof {
            lemma_next_multiple(at as int, stride as int);
            lemma_strides_begun(len as nat, stride as nat, count);
            lemma_strides_begun(len as nat, stride as nat, count + 1);
            lemma_one_more(count as int + 1, stride as int);
            assert(pass.take(count as int + 1) =~= pass.take(count as int).push(pass[count as int]));
            count = count + 1;
        }
        region.write(at, value);
        at = if len - at > stride {
            at + stride
        } else {
            len
        };
    }
    assert(pass.take(count as int) =~= pass);
    assert(region.cells() =~= strided(mem, stride as nat, value));
}

/// Writes `value` to the first byte of every cache line, in ascending order,
/// `passes` times over.
pub fn write_passes(region: &mut Region<'_, u8>, passes: usize, value: u8)
    ensures
        final(region).cells() == if passes == 0 {
            old(region).cells()
        } else {
            strided(old(region).cells(), CACHE_LINE_SIZE as nat, value)
        },
        final(region).cells() == written(old(region).cells(), passes as nat, value),
        final(region).log() == old(region).log() + write_log(
            old(region).cells().len(),
            passes as nat,
            value,
        ),
{
    let ghost mem = region.cells();
    let ghost before = region.log();
    let mut pass: usize = 0;
    assert(before =~= before + write_log(mem.len(), 0, value));
    while pass < passes
        invariant
            0 <= pass <= passes,
            region.cells() == if pass == 0 {
                mem
            } else {
                strided(mem, CACHE_LINE_SIZE as nat, value)
            },
            region.log() == before + write_log(mem.len(), pass as nat, value),
        decreases passes - pass,
    {
        write_pass(region, CACHE_LINE_SIZE, value);
        std::hint::black_box(&*region);
        pass = pass + 1;
        assert(region.cells() =~= strided(mem, CACHE_LINE_SIZE as nat, value));
        assert(region.log() =~= before + write_log(mem.len(), pass as nat, value));
    }
}

/// Writes to the first byte of every huge page once, in ascending order, so
/// that each is backed by a physical frame.
pub fn touch_pages(region: &mut Region<'_, u8>)
    ensures
        final(region).cells() == strided(
            old(region).cells(),
            HUGE_PAGE_SIZE as nat,
            TOUCH_BYTE,
        ),
        final(region).log() == old(region).log() + writes(
            sweep(old(region).cells().len(), HUGE_PAGE_SIZE as nat),
            TOUCH_BYTE,
        ),
        final(region).log() == old(region).log() + touch_log(old(region).cells().len()),
{
    write_pass(region, HUGE_PAGE_SIZE, TOUCH_BYTE);
}

/// A pass goes to exactly the multiples of `stride` below `len`, in ascending
/// order, to each of them once.
pub proof fn sweep_exact(len: nat, stride: nat)
    requires
        stride > 0,
    ensures
        forall|j: int, k: int|
            0 <= j < k < sweep(len, stride).len() ==> #[trigger] sweep(len, stride)[j]
                < #[trigger] sweep(len, stride)[k],
        forall|at: int|
            #[trigger] sweep(len, stride).contains(at) <==> 0 <= at < len && at % (stride as int)
                == 0,
{
    let once = sweep(len, stride);
    assert forall|j: int, k: int| 0 <= j < k < once.len() implies #[trigger] once[j]
        < #[trigger] once[k] by {
        assert(j * stride < k * stride) by (nonlinear_arith)
            requires
                j < k,
                stride > 0,
        ;
    }
    assert forall|at: int| #[trigger] once.contains(at) <==> 0 <= at < len && at % (stride as int)
        == 0 by {
        if once.contains(at) {
            let k = choose|k: int| 0 <= k < once.len() && once[k] == at;
            lemma_strides_begun(len, stride, k as nat);
            assert(0 <= k * stride) by (nonlinear_arith)
                requires
                    0 <= k,
            ;
            vstd::arithmetic::div_mod::lemma_mod_multiples_basic(k, stride as int);
        }
        if 0 <= at < len && at % (stride as int) == 0 {
            let k = at / (stride as int);
            vstd::arithmetic::div_mod::lemma_fundamental_div_mod(at, stride as int);
            vstd::arithmetic::div_mod::lemma_div_pos_is_pos(at, stride as int);
            assert(k * stride == stride * k) by (nonlinear_arith);
            lemma_strides_begun(len, stride, k as nat);
            assert(once[k] == at);
        }
    }
}

/// Pass `p` of many is `once` itself, whichever pass it is, and there are no
/// accesses besides.
pub proof fn passes_alike<A>(once: Seq<A>, times: nat, p: nat)
    requires
        p < times,
    ensures
        repeated(once, times).len() == times * once.len(),
        0 <= p * once.len() <= (p + 1) * once.len() <= times * once.len(),
        repeated(once, times).subrange(
            (p * once.len()) as int,
            ((p + 1) * once.len()) as int,
        ) == once,
    decreases times,
{
    let n = once.len();
    let less = (times - 1) as nat;
    lemma_repeated_len(once, less);
    lemma_repeated_len(once, times);
    lemma_one_more(p as int + 1, n as int);
    assert(0 <= p * n && (p + 1) * n <= times * n) by (nonlinear_arith)
        requires
            p + 1 <= times,
    ;
    if p < less {
        passes_alike(once, less, p);
        assert(repeated(once, times).subrange((p * n) as int, ((p + 1) * n) as int)
            =~= repeated(once, less).subrange((p * n) as int, ((p + 1) * n) as int));
    } else {
        assert(repeated(once, times).subrange((p * n) as int, ((p + 1) * n) as int) =~= once);
    }
}

/// Every repetition is as long as the first.
proof fn lemma_repeated_len<A>(once: Seq<A>, times: nat)
    ensures
        repeated(once, times).len() == times * once.len(),
    decreases times,
{
    if times > 0 {
        lemma_repeated_len(once, (times - 1) as nat);
        lemma_one_more(times as int, once.len() as int);
    } else {
        assert(times * once.len() == 0) by (nonlinear_arith)
            requires
                times == 0,
        ;
    }
}

/// Warm-up passes followed by timed passes access the memory as one run of
/// all of them does.
pub proof fn passes_add_up<A>(once: Seq<A>, warmup: nat, passes: nat)
    ensures
        repeated(once, warmup) + repeated(once, passes) == repeated(once, warmup + passes),
    decreases passes,
{
    if passes == 0 {
        assert(repeated(once, warmup) + repeated(once, 0) =~= repeated(once, warmup));
    } else {
        let less = (passes - 1) as nat;
        passes_add_up(once, warmup, less);
        assert((warmup + passes - 1) as nat == warmup + less);
        assert(repeated(once, warmup) + repeated(once, passes) =~= repeated(once, warmup)
            + repeated(once, less) + once);
    }
}

/// A pass that reads what a pass wrote sums up one `value` per cache line.
pub proof fn read_after_write(mem: Seq<u8>, value: u8)
    ensures
        pass_sum(strided(mem, CACHE_LINE_SIZE as nat, value)) == value * lines_begun(mem.len()),
{
    let written = strided(mem, CACHE_LINE_SIZE as nat, value);
    lemma_uniform_sum(written, value, lines_begun(mem.len()));
}

/// Lines that all begin with `value` sum up to a multiple of it.
proof fn lemma_uniform_sum(mem: Seq<u8>, value: u8, lines: nat)
    requires
        forall|l: int| 0 <= l < lines ==> #[trigger] mem[l * CACHE_LINE_SIZE] == value,
    ensures
        line_sum(mem, lines) == value * lines,
    decreases lines,
{
    if lines > 0 {
        lemma_uniform_sum(mem, value, (lines - 1) as nat);
        assert(mem[(lines - 1) * CACHE_LINE_SIZE] == value);
        assert(value * lines == value * (lines - 1) + value) by (nonlinear_arith);
    } else {
        assert(value * lines == 0) by (nonlinear_arith)
            requires
                lines == 0,
        ;
    }
}

/// Element `k` of pass `p` is element `k` of `once`.
proof fn lemma_repeated_at<A>(once: Seq<A>, times: nat, p: int, k: int)
    requires
        0 <= p < times,
        0 <= k < once.len(),
    ensures
        repeated(once, times).len() == times * once.len(),
        0 <= p * once.len() + k < times * once.len(),
        repeated(once, times)[p * once.len() + k] == once[k],
{
    passes_alike(once, times, p as nat);
    let n = once.len() as int;
    lemma_one_more(p + 1, n);
    let pass = repeated(once, times).subrange(p * n, (p + 1) * n);
    assert(pass[k] == once[k]);
}

/// Writing over a region of `len` bytes makes exactly `passes` writes for each
/// line that begins in it: in every pass one to each multiple of 64, ascending.
pub proof fn write_log_exact(len: nat, passes: nat, value: u8)
    ensures
        write_log(len, passes, value).len() == passes * ((len + 63) / 64),
        forall|p: int, k: int|
            #![trigger write_log(len, passes, value)[p * ((len + 63) / 64) + k]]
            0 <= p < passes && 0 <= k < (len + 63) / 64 ==> write_log(len, passes, value)[p * ((len
                + 63) / 64) + k] == (Access::Write { at: k * 64, value }),
{
    let once = writes(sweep(len, CACHE_LINE_SIZE as nat), value);
    let n = (len + 63) / 64;
    assert(once.len() == n);
    lemma_repeated_len(once, passes);
    assert forall|p: int, k: int|
        #![trigger write_log(len, passes, value)[p * n + k]]
        0 <= p < passes && 0 <= k < n implies write_log(len, passes, value)[p * n + k] == (
    Access::Write { at: k * 64, value }) by {
        lemma_repeated_at(once, passes, p, k);
    }
}

/// Reading over a region of `len` bytes makes exactly `passes` reads for each
/// line that begins in it: in every pass one at each multiple of 64, ascending.
pub proof fn read_log_exact(len: nat, passes: nat)
    ensures
        read_log(len, passes).len() == passes * ((len + 63) / 64),
        forall|p: int, k: int|
            #![trigger read_log(len, passes)[p * ((len + 63) / 64) + k]]
            0 <= p < passes && 0 <= k < (len + 63) / 64 ==> read_log(len, passes)[p * ((len + 63)
                / 64) + k] == (Access::<u8>::Read { at: k * 64 }),
{
    let once = reads(sweep(len, CACHE_LINE_SIZE as nat));
    let n = (len + 63) / 64;
    assert(once.len() == n);
    lemma_repeated_len(once, passes);
    assert forall|p: int, k: int|
        #![trigger read_log(len, passes)[p * n + k]]
        0 <= p < passes && 0 <= k < n implies read_log(len, passes)[p * n + k] == (Access::<
        u8,
    >::Read { at: k * 64 }) by {
        lemma_repeated_at(once, passes, p, k);
    }
}

/// Touching a region of `len` bytes makes one write of 1 for each stretch of
/// two mebibytes that begins in it, at its first byte, ascending.
pub proof fn touch_log_exact(len: nat)
    ensures
        touch_log(len).len() == (len + 0x1f_ffff) / 0x20_0000,
        forall|k: int|
            0 <= k < touch_log(len).len() ==> #[trigger] touch_log(len)[k] == (Access::Write {
                at: k * 0x20_0000,
                value: 1u8,
            }),
{
}

/// Passes leave the byte written at every multiple of 64 and every other byte
/// as it was; no pass leaves all of them.
pub proof fn written_exact(mem: Seq<u8>, passes: nat, value: u8)
    ensures
        written(mem, passes, value).len() == mem.len(),
        forall|i: int|
            0 <= i < mem.len() ==> #[trigger] written(mem, passes, value)[i] == if passes > 0 && i
                % 64 == 0 {
                value
            } else {
                mem[i]
            },
{
}

/// Touching leaves 1 at every multiple of two mebibytes and every other byte
/// as it was.
pub proof fn touched_exact(mem: Seq<u8>)
    ensures
        strided(mem, HUGE_PAGE_SIZE as nat, TOUCH_BYTE).len() == mem.len(),
        forall|i: int|
            0 <= i < mem.len() ==> #[trigger] strided(mem, HUGE_PAGE_SIZE as nat, TOUCH_BYTE)[i]
                == if i % 0x20_0000 == 0 {
                1
            } else {
                mem[i]
            },
{
}

/// A pass counts the bytes at multiples of 64 and no others: changing one of
/// them changes the sum by as much, changing any other changes nothing, and
/// memory that is all zero sums up to zero.
pub proof fn pass_sum_exact(mem: Seq<u8>, at: int, value: u8)
    requires
        0 <= at < mem.len(),
    ensures
        pass_sum(mem.update(at, value)) == pass_sum(mem) + if at % 64 == 0 {
            value - mem[at]
        } else {
            0
        },
        (forall|i: int| 0 <= i < mem.len() ==> #[trigger] mem[i] == 0) ==> pass_sum(mem) == 0,
{
    lemma_line_sum_update(mem, at, value, lines_begun(mem.len()));
    if forall|i: int| 0 <= i < mem.len() ==> #[trigger] mem[i] == 0 {
        assert forall|l: int| 0 <= l < lines_begun(mem.len()) implies #[trigger] mem[l
            * CACHE_LINE_SIZE] == 0 by {
            assert(0 <= l * CACHE_LINE_SIZE < mem.len());
        }
        lemma_uniform_sum(mem, 0, lines_begun(mem.len()));
        assert(0 * lines_begun(mem.len()) == 0);
    }
}

/// The same of the first `lines` lines.
proof fn lemma_line_sum_update(mem: Seq<u8>, at: int, value: u8, lines: nat)
    requires
        0 <= at < mem.len(),
        lines <= lines_begun(mem.len()),
    ensures
        line_sum(mem.update(at, value), lines) == line_sum(mem, lines) + if at % 64 == 0 && at / 64
            < lines {
            value - mem[at]
        } else {
            0
        },
    decreases lines,
{
    if lines > 0 {
        lemma_line_sum_update(mem, at, value, (lines - 1) as nat);
        let l = lines - 1;
        if at == l * CACHE_LINE_SIZE {
            assert(at % 64 == 0 && at / 64 == l);
        } else {
            assert(!(at % 64 == 0 && at / 64 == l));
        }
    }
}

/// What all passes read is the sum of one pass for each of them, but for whole
/// multiples of two to the 64th.
pub proof fn wrapped_sum_exact(mem: Seq<u8>, passes: nat)
    ensures
        wrapped_sum(mem, passes) <= u64::MAX,
        wrapped_sum(mem, 0) == 0,
        (wrapped_sum(mem, passes + 1) - wrapped_sum(mem, passes) - pass_sum(mem))
            % 0x1_0000_0000_0000_0000 == 0,
{
    let sum = pass_sum(mem) as int;
    assert(0 * sum == 0);
    lemma_one_more(passes as int + 1, sum);
}

} // verus!
