//! File sizes: sums, estimates of what processing takes, and their display.

use vstd::prelude::*;
#[allow(unused_imports)]
use vstd::string::*;
use vstd::arithmetic::power2::pow2;
use crate::binary64::{bit_len, half_even, nearest};
use crate::extension::Extension;
use crate::numbers::{decimal, decimal_text};

verus! {

/// How many times the size of the data working in memory takes.
pub const IN_MEMORY_WORKFLOW_MULTIPLIER: u64 = 5;

/// The sum of the sizes that are known.
pub open spec fn known_total(sizes: Seq<Option<u64>>) -> nat
    decreases sizes.len(),
{
    if sizes.len() == 0 {
        0
    } else {
        known_total(sizes.drop_last()) + match sizes.last() {
            Some(n) => n as nat,
            None => 0,
        }
    }
}

/// The sum of some sizes.
pub open spec fn size_total(sizes: Seq<u64>) -> nat
    decreases sizes.len(),
{
    if sizes.len() == 0 {
        0
    } else {
        size_total(sizes.drop_last()) + sizes.last() as nat
    }
}

proof fn lemma_known_total_part(sizes: Seq<Option<u64>>, n: int)
    requires
        0 <= n <= sizes.len(),
    ensures
        known_total(sizes.take(n)) <= known_total(sizes),
    decreases sizes.len() - n,
{
    if n < sizes.len() {
        lemma_known_total_part(sizes, n + 1);
        assert(sizes.take(n + 1).drop_last() =~= sizes.take(n));
    } else {
        assert(sizes.take(n) =~= sizes);
    }
}

proof fn lemma_size_total_part(sizes: Seq<u64>, n: int)
    requires
        0 <= n <= sizes.len(),
    ensures
        size_total(sizes.take(n)) <= size_total(sizes),
    decreases sizes.len() - n,
{
    if n < sizes.len() {
        lemma_size_total_part(sizes, n + 1);
        assert(sizes.take(n + 1).drop_last() =~= sizes.take(n));
    } else {
        assert(sizes.take(n) =~= sizes);
    }
}

/// Adds up the sizes of files; one that could not be found out counts nothing.
pub fn estimate_total_size(sizes: &Vec<Option<u64>>) -> (res: u64)
    requires
        known_total(sizes@) <= u64::MAX,
    ensures
        res == known_total(sizes@),
{
    let mut sum: u64 = 0;
    let mut i: usize = 0;
    while i < sizes.len()
        invariant
            i <= sizes@.len(),
            known_total(sizes@) <= u64::MAX,
            sum == known_total(sizes@.take(i as int)),
        decreases sizes.len() - i,
    {
        proof {
            assert(sizes@.take(i + 1).drop_last() =~= sizes@.take(i as int));
            lemma_known_total_part(sizes@, i + 1);
        }
        if let Some(n) = sizes[i] {
            sum = sum + n;
        }
        i += 1;
    }
    assert(sizes@.take(sizes@.len() as int) =~= sizes@);
    sum
}

/// Adds up sizes.
pub fn add_sizes(sizes: &Vec<u64>) -> (res: u64)
    requires
        size_total(sizes@) <= u64::MAX,
    ensures
        res == size_total(sizes@),
{
    let mut sum: u64 = 0;
    let mut i: usize = 0;
    while i < sizes.len()
        invariant
            i <= sizes@.len(),
            size_total(sizes@) <= u64::MAX,
            sum == size_total(sizes@.take(i as int)),
        decreases sizes.len() - i,
    {
        proof {
            assert(sizes@.take(i + 1).drop_last() =~= sizes@.take(i as int));
            lemma_size_total_part(sizes@, i + 1);
        }
        sum = sum + sizes[i];
        i += 1;
    }
    assert(sizes@.take(sizes@.len() as int) =~= sizes@);
    sum
}

/// Estimates how much data the files hold once they are read. The text formats
/// are taken at the size of their files, the others at what was estimated for
/// each file.
pub fn estimate_processing_size(
    extension: Extension,
    file_sizes: &Vec<Option<u64>>,
    estimates: &Vec<u64>,
) -> (res: u64)
    requires
        known_total(file_sizes@) <= u64::MAX,
        size_total(estimates@) <= u64::MAX,
    ensures
        res == match extension {
            Extension::Csv | Extension::Txt => known_total(file_sizes@),
            Extension::Las | Extension::Laz | Extension::Ply => size_total(estimates@),
        },
{
    match extension {
        Extension::Csv | Extension::Txt => estimate_total_size(file_sizes),
        Extension::Las | Extension::Laz | Extension::Ply => add_sizes(estimates),
    }
}

/// What working in memory takes, or the largest number where it is over that.
pub open spec fn in_memory_requirement(processing_size: u64) -> u64 {
    if processing_size * 5 > u64::MAX {
        u64::MAX
    } else {
        (processing_size * 5) as u64
    }
}

/// Estimates how many bytes working in memory takes.
pub fn estimated_in_memory_requirement_bytes(processing_size: u64) -> (res: u64)
    ensures
        res == in_memory_requirement(processing_size),
{
    match processing_size.checked_mul(IN_MEMORY_WORKFLOW_MULTIPLIER) {
        Some(n) => n,
        None => u64::MAX,
    }
}

/// Tells whether there is memory enough to work in.
pub fn should_use_in_memory(processing_size: u64, max_memory_bytes: u64) -> (res: bool)
    ensures
        res == (in_memory_requirement(processing_size) <= max_memory_bytes),
        max_memory_bytes < u64::MAX ==> res == (processing_size * 5 <= max_memory_bytes),
{
    estimated_in_memory_requirement_bytes(processing_size) <= max_memory_bytes
}

/// Whoever can work in memory can do so with less data or more memory.
pub proof fn lemma_in_memory_monotone(size: u64, memory: u64, less: u64, more: u64)
    requires
        less <= size,
        memory <= more,
        in_memory_requirement(size) <= memory,
    ensures
        in_memory_requirement(less) <= more,
{
}

/// The number of files of a directory and their size in all.
pub fn summarize(sizes: &Vec<u64>) -> (res: (usize, u64))
    requires
        size_total(sizes@) <= u64::MAX,
    ensures
        res.0 == sizes@.len(),
        res.1 == size_total(sizes@),
{
    (sizes.len(), add_sizes(sizes))
}

/// The integer nearest to a quotient; of two equally near, the even one.
fn rounded_quotient(a: u128, b: u128) -> (res: u128)
    requires
        0 < b <= 0x1_0000_0000_0000_0000,
        a <= 0xffff_ffff_ffff_ffff_ffff,
    ensures
        res == half_even(a as nat, b as nat),
{
    let q: u128 = a / b;
    let r: u128 = a % b;
    if 2 * r < b || (2 * r == b && q % 2 == 0) {
        q
    } else {
        q + 1
    }
}

/// The binary64 number nearest to `n`, which is an integer.
#[verifier::spinoff_prover]
fn nearest_number(n: u64) -> (res: u128)
    ensures
        res == nearest(n as nat),
        res <= 0x1_0000_0000_0000_0000,
{
    let mut step: u64 = 1;
    let ghost mut drop: nat = 0;
    proof {
        vstd::arithmetic::power2::lemma2_to64();
        vstd::arithmetic::power2::lemma2_to64_rest();
    }
    while n / step >= 0x20_0000_0000_0000
        invariant
            step == pow2(drop),
            step > 0,
            drop <= 11,
            pow2(11) == 2048,
            pow2(53) == 0x20_0000_0000_0000,
            drop > 0 ==> n >= pow2((drop + 52) as nat),
        decreases 11 - drop,
    {
        proof {
            vstd::arithmetic::div_mod::lemma_fundamental_div_mod(n as int, step as int);
            let p = pow2(drop);
            assert(n >= 0x20_0000_0000_0000 * p) by (nonlinear_arith)
                requires
                    n == p * (n as int / p as int) + n as int % p as int,
                    n as int / p as int >= 0x20_0000_0000_0000,
                    n as int % p as int >= 0,
                    p > 0,
            ;
            vstd::arithmetic::power2::lemma_pow2_adds(53, drop);
            if drop == 11 {
                assert(false);
            }
            vstd::arithmetic::power2::lemma_pow2_unfold(drop + 1);
            if drop < 10 {
                vstd::arithmetic::power2::lemma_pow2_strictly_increases(drop + 1, 11);
            }
            drop = drop + 1;
        }
        step = step * 2;
    }
    proof {
        vstd::arithmetic::power2::lemma_pow2_pos(drop);
        vstd::arithmetic::power2::lemma_pow2_adds(53, drop);
        vstd::arithmetic::div_mod::lemma_fundamental_div_mod(n as int, step as int);
        assert(n < 0x20_0000_0000_0000 * step) by (nonlinear_arith)
            requires
                n == step * (n as int / step as int) + n as int % step as int,
                n as int / step as int <= 0x20_0000_0000_0000 - 1,
                0 <= n as int % step as int,
                (n as int % step as int) < step,
        ;
        if drop > 0 {
            crate::binary64::lemma_bit_len(n as nat, drop + 53);
        } else {
            if n > 0 {
                crate::binary64::lemma_bit_len_bounds(n as nat);
                if bit_len(n as nat) > 53 {
                    if bit_len(n as nat) > 54 {
                        vstd::arithmetic::power2::lemma_pow2_strictly_increases(
                            53,
                            (bit_len(n as nat) - 1) as nat,
                        );
                    }
                }
            }
            assert(nearest(n as nat) == n);
            assert(half_even(n as nat, 1) == n);
        }
    }
    let q: u128 = rounded_quotient(n as u128, step as u128);
    proof {
        assert(q <= 0x20_0000_0000_0000);
        assert(q * step <= 0x20_0000_0000_0000 * 2048) by (nonlinear_arith)
            requires
                q <= 0x20_0000_0000_0000,
                step <= 2048,
        ;
    }
    q * step as u128
}

/// A number of hundredths as a decimal fraction with two places.
pub open spec fn hundredths(n: nat) -> Seq<char> {
    decimal(n / 100) + "."@ + decimal(n / 10 % 10) + decimal(n % 10)
}

/// Writes a number of hundredths as a decimal fraction with two places.
fn hundredths_text(n: u64) -> (res: String)
    ensures
        res@ == hundredths(n as nat),
{
    let mut out = decimal_text(n / 100);
    out.append(".");
    out.append(decimal_text(n / 10 % 10).as_str());
    out.append(decimal_text(n % 10).as_str());
    out
}

/// How a number of bytes is displayed: in the largest unit of which there is
/// one at least, to two decimal places. The number is first rounded to
/// binary64.
pub open spec fn size_text(bytes: u64) -> Seq<char> {
    let n = nearest(bytes as nat);
    if n >= 0x4000_0000 {
        hundredths(half_even(100 * n, 0x4000_0000)) + " GiB"@
    } else if n >= 0x10_0000 {
        hundredths(half_even(100 * n, 0x10_0000)) + " MiB"@
    } else if n >= 0x400 {
        hundredths(half_even(100 * n, 0x400)) + " KiB"@
    } else {
        decimal(bytes as nat) + " B"@
    }
}

/// Displays a number of bytes.
pub fn format_size(bytes: u64) -> (res: String)
    ensures
        res@ == size_text(bytes),
{
    let n: u128 = nearest_number(bytes);
    if n >= 0x4000_0000 {
        let mut out = hundredths_text(rounded_quotient(100 * n, 0x4000_0000) as u64);
        out.append(" GiB");
        out
    } else if n >= 0x10_0000 {
        let mut out = hundredths_text(rounded_quotient(100 * n, 0x10_0000) as u64);
        out.append(" MiB");
        out
    } else if n >= 0x400 {
        let mut out = hundredths_text(rounded_quotient(100 * n, 0x400) as u64);
        out.append(" KiB");
        out
    } else {
        let mut out = decimal_text(bytes);
        out.append(" B");
        out
    }
}

/// The sizes of two lists of files add up to that of both together; a file whose
/// size is known adds its size, and one whose size is not adds nothing.
pub proof fn lemma_known_total(a: Seq<Option<u64>>, b: Seq<Option<u64>>, n: u64)
    ensures
        known_total(a + b) == known_total(a) + known_total(b),
        known_total(seq![Some(n)]) == n,
        known_total(seq![None::<u64>]) == 0,
    decreases b.len(),
{
    let one = seq![Some(n)];
    let none = seq![None::<u64>];
    assert(one.drop_last() =~= Seq::<Option<u64>>::empty());
    assert(none.drop_last() =~= Seq::<Option<u64>>::empty());
    assert(known_total(Seq::<Option<u64>>::empty()) == 0);
    if b.len() == 0 {
        assert(a + b =~= a);
    } else {
        lemma_known_total(a, b.drop_last(), n);
        assert((a + b).drop_last() =~= a + b.drop_last());
    }
}

/// The sizes of two lists add up to that of both together, and a size alone is
/// its own sum.
pub proof fn lemma_size_total(a: Seq<u64>, b: Seq<u64>, n: u64)
    ensures
        size_total(a + b) == size_total(a) + size_total(b),
        size_total(seq![n]) == n,
        size_total(Seq::<u64>::empty()) == 0,
    decreases b.len(),
{
    let one = seq![n];
    assert(one.drop_last() =~= Seq::<u64>::empty());
    assert(size_total(one.drop_last()) == 0);
    assert(one.last() == n);
    if b.len() == 0 {
        assert(a + b =~= a);
    } else {
        lemma_size_total(a, b.drop_last(), n);
        assert((a + b).drop_last() =~= a + b.drop_last());
    }
}

/// Working in memory takes the size of the data five times over, as far as that
/// can be counted.
pub proof fn lemma_in_memory_requirement(n: u64)
    ensures
        n + n + n + n + n <= u64::MAX ==> in_memory_requirement(n) == n + n + n + n + n,
        n + n + n + n + n > u64::MAX ==> in_memory_requirement(n) == u64::MAX,
{
}

/// Whether `text` writes `n` hundredths: the whole part, a point, and two digits.
pub open spec fn writes_hundredths(text: Seq<char>, n: nat) -> bool {
    exists|whole: nat, tenth: nat, hundredth: nat|
        {
            &&& tenth < 10
            &&& hundredth < 10
            &&& 100 * whole + 10 * tenth + hundredth == n
            &&& text == #[trigger] (decimal(whole) + "."@ + decimal(tenth) + decimal(hundredth))
        }
}

/// Whether `h` is the number of hundredths of `unit` that is nearest to `bytes`;
/// of two equally near, the even one.
pub open spec fn nearest_hundredths(h: nat, bytes: nat, unit: nat) -> bool {
    &&& -unit <= 2 * (h * unit - 100 * bytes) <= unit
    &&& 2 * (h * unit - 100 * bytes) == unit || 2 * (h * unit - 100 * bytes) == -unit ==> h % 2 == 0
}

proof fn lemma_hundredths(n: nat)
    ensures
        writes_hundredths(hundredths(n), n),
{
    let whole = n / 100;
    let tenth = n / 10 % 10;
    let hundredth = n % 10;
    assert(hundredths(n) == decimal(whole) + "."@ + decimal(tenth) + decimal(hundredth));
}

proof fn lemma_nearest_hundredths(n: nat, unit: nat)
    requires
        unit > 0,
    ensures
        nearest_hundredths(half_even(100 * n, unit), n, unit),
{
    let a = 100 * n;
    vstd::arithmetic::div_mod::lemma_fundamental_div_mod(a as int, unit as int);
    let q = a / unit;
    assert(unit * q == q * unit && (q + 1) * unit == q * unit + unit) by (nonlinear_arith);
}

/// How a size is displayed, once it is rounded to binary64. Below 1024 bytes the
/// number of bytes is displayed; otherwise it is the number `h` of hundredths of a
/// kibibyte, mebibyte or gibibyte nearest to the rounded size, in the largest of
/// these units that it is not below.
pub proof fn lemma_size_text(bytes: u64) -> (h: nat)
    ensures
        ({
            let n = nearest(bytes as nat);
            &&& n < 1024 ==> size_text(bytes) == decimal(bytes as nat) + " B"@
            &&& 1024 <= n < 1024 * 1024 ==> nearest_hundredths(h, n, 1024) && exists|text: Seq<char>|
                writes_hundredths(text, h) && size_text(bytes) == #[trigger] (text + " KiB"@)
            &&& 1024 * 1024 <= n < 1024 * 1024 * 1024 ==> nearest_hundredths(h, n, 1024 * 1024)
                && exists|text: Seq<char>|
                writes_hundredths(text, h) && size_text(bytes) == #[trigger] (text + " MiB"@)
            &&& 1024 * 1024 * 1024 <= n ==> nearest_hundredths(h, n, 1024 * 1024 * 1024) && exists|
                text: Seq<char>,
            | writes_hundredths(text, h) && size_text(bytes) == #[trigger] (text + " GiB"@)
        }),
{
    let n = nearest(bytes as nat);
    let unit: nat = if n < 0x10_0000 {
        0x400
    } else if n < 0x4000_0000 {
        0x10_0000
    } else {
        0x4000_0000
    };
    let h = half_even(100 * n, unit);
    lemma_nearest_hundredths(n, unit);
    lemma_hundredths(h);
    if n >= 0x4000_0000 {
        assert(size_text(bytes) == hundredths(h) + " GiB"@);
    } else if n >= 0x10_0000 {
        assert(size_text(bytes) == hundredths(h) + " MiB"@);
    } else if n >= 0x400 {
        assert(size_text(bytes) == hundredths(h) + " KiB"@);
    }
    h
}

/// A size below 2^53 is not rounded, and a larger one is rounded by 1024 at most.
pub proof fn lemma_rounded_size(bytes: u64)
    ensures
        bytes < 0x20_0000_0000_0000 ==> nearest(bytes as nat) == bytes,
        -1024 <= nearest(bytes as nat) - bytes <= 1024,
{
    vstd::arithmetic::power2::lemma2_to64_rest();
    vstd::arithmetic::power2::lemma2_to64();
    if bytes < 0x20_0000_0000_0000 {
        crate::binary64::lemma_nearest_exact(bytes as nat, 0);
        assert(bytes as nat * pow2(0) == bytes);
    }
    crate::binary64::lemma_nearest_near(bytes as nat, 64);
}

} // verus!
