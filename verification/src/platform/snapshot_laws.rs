//! What a snapshot says of the process that it was made from.

use vstd::arithmetic::power2::{
    lemma2_to64, lemma2_to64_rest, lemma_pow2_adds, lemma_pow2_pos, lemma_pow2_strictly_increases,
    pow2,
};
use vstd::prelude::*;

use super::linux::{entry_under, LinuxReading, LinuxSampler, MapEntry};
use super::macos::{self, MacosReading, Timebase};
use crate::quantity::{
    lemma_bits_order_values, lemma_nearest_is_duration, lemma_nearest_monotonic, Quantity,
};
use crate::rounding::{
    lemma_factor_left_out, lemma_integers_are_exact, lemma_nearest_is_exact, lemma_nearest_is_near,
    lemma_product_is_near, lemma_quotient_is_near, lemma_share_is_near, lemma_sum_is_near,
};
use crate::sampler::snapshot::ProcessSnapshot;
use crate::sampler::tally::saturated;

verus! {

/// `bytes` is `kb` times 1024, or the largest `u64` where that is more.
pub open spec fn is_kb_in_bytes(bytes: u64, kb: u64) -> bool {
    if kb * 1024 <= u64::MAX {
        bytes == kb * 1024
    } else {
        bytes == u64::MAX
    }
}

/// A process on Linux shows a snapshot exactly where both its `stat` and its `status` could be
/// read. Sizes that `status` gives in `kB` are 1024 times as many bytes, and nothing where it gives
/// none; bytes read and written, faults, switches and threads are taken as they are.
pub proof fn lemma_linux_snapshot(sampler: LinuxSampler, reading: LinuxReading)
    ensures
        sampler.shown(reading) is Some <==> reading.stat is Some && reading.status is Some,
        sampler.shown(reading) matches Some(snap) ==> {
            let stat = reading.stat->0;
            let status = reading.status->0;
            &&& snap.pid == reading.pid
            &&& status.vmrss matches Some(kb) ==> is_kb_in_bytes(snap.rss_bytes, kb)
            &&& status.vmrss is None ==> snap.rss_bytes == 0
            &&& status.vmsize matches Some(kb) ==> is_kb_in_bytes(snap.vms_bytes, kb)
            &&& status.vmsize is None ==> snap.vms_bytes == 0
            &&& status.vmswap matches Some(kb) ==> (snap.swap_bytes matches Some(b)
                && is_kb_in_bytes(b, kb))
            &&& status.vmswap is None ==> snap.swap_bytes is None
            &&& reading.io matches Some(io) ==> snap.io_read_bytes == Some(io.read_bytes)
                && snap.io_write_bytes == Some(io.write_bytes)
            &&& reading.io is None ==> snap.io_read_bytes is None && snap.io_write_bytes is None
            &&& snap.major_page_faults == Some(stat.majflt)
            &&& snap.minor_page_faults == Some(stat.minflt)
            &&& snap.voluntary_ctx_switches == status.voluntary_ctxt_switches
            &&& snap.involuntary_ctx_switches == status.nonvoluntary_ctxt_switches
            &&& snap.thread_count == Some(status.threads)
        },
{
}

/// The same number of `kB` is the same number of bytes, whether it is resident or virtual size.
pub proof fn lemma_linux_sizes_agree(sampler: LinuxSampler, reading: LinuxReading)
    requires
        reading.stat is Some,
        reading.status is Some,
        reading.status->0.vmrss == reading.status->0.vmsize,
    ensures
        sampler.shown(reading) matches Some(snap) && snap.rss_bytes == snap.vms_bytes,
{
}

/// Entry `i` is the first under `name`.
pub open spec fn is_first_under(entries: Seq<MapEntry>, name: Seq<char>, i: int) -> bool {
    &&& 0 <= i < entries.len()
    &&& entries[i].name@ == name
    &&& forall|j: int| 0 <= j < i ==> (#[trigger] entries[j]).name@ != name
}

/// No entry is under `name`.
pub open spec fn none_under(entries: Seq<MapEntry>, name: Seq<char>) -> bool {
    forall|j: int| 0 <= j < entries.len() ==> (#[trigger] entries[j]).name@ != name
}

/// Looking up a name finds the first entry under it, and nothing where there is none.
pub proof fn lemma_first_entry_is_found(entries: Seq<MapEntry>, name: Seq<char>, i: int)
    ensures
        is_first_under(entries, name, i) ==> entry_under(entries, name) == Some(entries[i].value),
        none_under(entries, name) ==> entry_under(entries, name) is None,
    decreases entries.len(),
{
    if entries.len() > 0 {
        let rest = entries.drop_first();
        lemma_first_entry_is_found(rest, name, i - 1);
        if none_under(entries, name) {
            assert(entries[0].name@ != name);
            assert forall|j: int| 0 <= j < rest.len() implies (#[trigger] rest[j]).name@ != name by {
                assert(rest[j] == entries[j + 1]);
            }
        }
        if is_first_under(entries, name, i) && i > 0 {
            assert(entries[0].name@ != name);
            assert forall|j: int| 0 <= j < i - 1 implies (#[trigger] rest[j]).name@ != name by {
                assert(rest[j] == entries[j + 1]);
            }
            assert(rest[i - 1] == entries[i]);
        }
    }
}

/// `v` is what stands first under `name`, or zero where nothing does.
pub open spec fn amounts_to(entries: Seq<MapEntry>, name: Seq<char>, v: nat) -> bool {
    ||| none_under(entries, name) && v == 0
    ||| exists|i: int| #[trigger] is_first_under(entries, name, i) && v == entries[i].value
}

/// On Linux the unique size is what the first map holds privately, clean and dirty together, and
/// the proportional size is what it shows as such. Both are missing where there is no map, and the
/// proportional size also where the map does not show it.
#[verifier::spinoff_prover]
pub proof fn lemma_linux_rollup(
    sampler: LinuxSampler,
    reading: LinuxReading,
    clean: nat,
    dirty: nat,
    i: int,
)
    requires
        reading.stat is Some,
        reading.status is Some,
    ensures
        sampler.shown(reading) matches Some(snap) && {
            &&& reading.rollup is None ==> snap.uss_bytes is None && snap.pss_bytes is None
            &&& reading.rollup matches Some(maps) ==> {
                &&& maps@.len() == 0 ==> snap.uss_bytes is None && snap.pss_bytes is None
                &&& maps@.len() > 0 && amounts_to(maps@[0].entries@, "Private_Clean"@, clean)
                    && amounts_to(maps@[0].entries@, "Private_Dirty"@, dirty) ==> (
                snap.uss_bytes matches Some(b) && b == if clean + dirty <= u64::MAX {
                    clean + dirty
                } else {
                    u64::MAX as nat
                })
                &&& maps@.len() > 0 && none_under(maps@[0].entries@, "Pss"@)
                    ==> snap.pss_bytes is None
                &&& maps@.len() > 0 && is_first_under(maps@[0].entries@, "Pss"@, i)
                    ==> snap.pss_bytes == Some(maps@[0].entries@[i].value)
            }
        },
{
    if let Some(maps) = reading.rollup {
        if maps@.len() > 0 {
            let entries = maps@[0].entries@;
            lemma_first_entry_is_found(entries, "Pss"@, i);
            lemma_amount_is_found(entries, "Private_Clean"@, clean);
            lemma_amount_is_found(entries, "Private_Dirty"@, dirty);
        }
    }
}

proof fn lemma_amount_is_found(entries: Seq<MapEntry>, name: Seq<char>, v: nat)
    ensures
        amounts_to(entries, name, v) ==> v == match entry_under(entries, name) {
            Some(found) => found as nat,
            None => 0,
        },
{
    if amounts_to(entries, name, v) {
        if none_under(entries, name) {
            lemma_first_entry_is_found(entries, name, 0);
            if v != 0 {
                let i = choose|i: int| #[trigger] is_first_under(entries, name, i) && v == entries[i].value;
                assert(entries[i].name@ != name);
            }
        } else {
            let i = choose|i: int| #[trigger] is_first_under(entries, name, i) && v == entries[i].value;
            lemma_first_entry_is_found(entries, name, i);
        }
    }
}

/// CPU time on Linux is the clock ticks in user and in kernel mode together, divided by the ticks
/// in a second: times the rate it is the ticks again, up to one rounding, and whole seconds are
/// exact.
#[verifier::spinoff_prover]
pub proof fn lemma_linux_cpu_time(sampler: LinuxSampler, reading: LinuxReading, k: nat)
    requires
        reading.stat is Some,
        reading.status is Some,
        0 < sampler.rate() < 0x20_0000_0000_0000,
        reading.stat->0.utime + reading.stat->0.stime < 0x20_0000_0000_0000,
    ensures
        sampler.shown(reading) matches Some(snap) && {
            let ticks = (reading.stat->0.utime + reading.stat->0.stime) as nat;
            let x = ticks * pow2(1074);
            let t = snap.cpu_time_seconds;
            let rate = sampler.rate() as nat;
            &&& t.is_finite()
            &&& !t.minus()
            &&& 0x20_0000_0000_0000 * (t.over() * rate) <= 0x20_0000_0000_0000 * x + x
                + 0x10_0000_0000_0000 * rate
            &&& 0x20_0000_0000_0000 * x <= 0x20_0000_0000_0000 * (t.over() * rate) + x
                + 0x10_0000_0000_0000 * rate
            &&& ticks == k * rate ==> t.over() == k * pow2(1074)
        },
{
    let ticks = (reading.stat->0.utime + reading.stat->0.stime) as nat;
    let rate = sampler.rate() as nat;
    let g = pow2(1074);
    let (a, b) = (Quantity::of(ticks), Quantity::of(rate));
    lemma_pow2_pos(1074);
    lemma_integers_are_exact(ticks);
    lemma_integers_are_exact(rate);
    assert(rate * g > 0) by (nonlinear_arith)
        requires
            rate > 0,
            g > 0,
    ;
    lemma_quotient_is_near(a, b);
    let t = a.quotient(b);
    let x = ticks * g;
    let (p, h) = (0x20_0000_0000_0000int, 0x10_0000_0000_0000int);
    if !t.is_finite() {
        let top = pow2(2097);
        lemma2_to64();
        lemma_pow2_adds(1074, 1023);
        lemma_pow2_adds(64, 959);
        lemma_pow2_pos(959);
        let (top2, r) = (pow2(1023), pow2(959));
        assert(top2 >= 0x1_0000_0000_0000_0000) by (nonlinear_arith)
            requires
                top2 == 0x1_0000_0000_0000_0000 * r,
                r > 0,
        ;
        assert(x * g < (rate * g) * top) by (nonlinear_arith)
            requires
                x == ticks * g,
                top == g * top2,
                ticks < top2,
                rate > 0,
                g > 0,
        ;
        assert(false);
    }
    let o = t.over();
    assert((p * (o * rate)) * g == p * (o * (rate * g))) by (nonlinear_arith);
    assert((p * x + x + h * rate) * g == p * (x * g) + x * g + h * (rate * g))
        by (nonlinear_arith);
    lemma_factor_left_out(p * (o * rate), p * x + x + h * rate, g as int);
    assert((p * x) * g == p * (x * g)) by (nonlinear_arith);
    assert((p * (o * rate) + x + h * rate) * g == p * (o * (rate * g)) + x * g + h * (rate * g))
        by (nonlinear_arith);
    lemma_factor_left_out(p * x, p * (o * rate) + x + h * rate, g as int);
    if ticks == k * rate {
        assert(k <= ticks) by (nonlinear_arith)
            requires
                ticks == k * rate,
                rate > 0,
        ;
        assert((ticks * g) * g == (rate * g) * (k * g)) by (nonlinear_arith)
            requires
                ticks == k * rate,
        ;
        lemma_nearest_is_exact(a.over(), b.over(), k, 1074);
        lemma_bits_order_values(b, Quantity::zero());
        assert(Quantity::zero().over() == 0) by {
            assert(Quantity::zero().steps() == 0);
            assert(0 * pow2(Quantity::zero().level()) == 0);
        }
    }
}

/// More clock ticks are never a shorter CPU time, whatever the rate.
pub proof fn lemma_linux_cpu_time_grows(
    sampler: LinuxSampler,
    reading: LinuxReading,
    later: LinuxReading,
)
    requires
        reading.stat is Some,
        reading.status is Some,
        later.stat is Some,
        later.status is Some,
        sampler.rate() > 0,
        reading.stat->0.utime + reading.stat->0.stime <= later.stat->0.utime + later.stat->0.stime,
    ensures
        !sampler.shown(reading)->0.cpu_time_seconds.exceeds(
            sampler.shown(later)->0.cpu_time_seconds,
        ),
        !sampler.shown(reading)->0.cpu_time_seconds.minus(),
        !sampler.shown(reading)->0.cpu_time_seconds.is_nan(),
{
    let a = saturated((reading.stat->0.utime + reading.stat->0.stime) as nat) as nat;
    let b = saturated((later.stat->0.utime + later.stat->0.stime) as nat) as nat;
    let rate = sampler.rate() as nat;
    lemma_nearest_is_duration();
    lemma_nearest_monotonic(a, b, 1);
    lemma_u64_is_finite(a);
    lemma_u64_is_finite(b);
    lemma_u64_is_finite(rate);
    lemma_integers_are_exact(1);
    lemma_nearest_monotonic(1, rate, 1);
    lemma_bits_order_values(Quantity::of(1), Quantity::of(rate));
    lemma_bits_order_values(Quantity::of(a), Quantity::of(b));
    lemma_pow2_pos(1074);
    assert(Quantity::of(rate).over() > 0);
    lemma_nearest_monotonic(
        Quantity::of(a).over(),
        Quantity::of(b).over(),
        Quantity::of(rate).over(),
    );
    lemma_bits_order_values(Quantity::of(rate), Quantity::zero());
    assert(Quantity::zero().over() == 0) by {
        assert(Quantity::zero().steps() == 0);
        assert(0 * pow2(Quantity::zero().level()) == 0);
    }
}

proof fn lemma_u64_is_finite(n: nat)
    requires
        n <= u64::MAX,
    ensures
        Quantity::of(n).is_finite(),
{
    let g = pow2(1074);
    lemma_pow2_pos(1074);
    lemma_nearest_is_near(n, 1);
    lemma2_to64();
    lemma_pow2_adds(64, 1074);
    lemma_pow2_strictly_increases(1138, 2097);
    assert(n * g < pow2(1138)) by (nonlinear_arith)
        requires
            n < pow2(64),
            pow2(1138) == pow2(64) * g,
            g > 0,
    ;
    assert(1 * pow2(2097) == pow2(2097));
}

/// Reading a listing in two parts is reading it whole, and each process that could be read is in
/// the snapshots once and in its place.
pub proof fn lemma_linux_tree_in_parts(
    sampler: LinuxSampler,
    first: Seq<LinuxReading>,
    second: Seq<LinuxReading>,
    one: LinuxReading,
)
    ensures
        sampler.shown_tree(first + second) == sampler.shown_tree(first) + sampler.shown_tree(
            second,
        ),
        sampler.shown_tree(Seq::empty()) == Seq::<ProcessSnapshot>::empty(),
        sampler.shown_tree(seq![one]) == match sampler.shown(one) {
            Some(snap) => seq![snap],
            None => Seq::empty(),
        },
    decreases second.len(),
{
    let whole = seq![one];
    assert(whole.drop_last() =~= Seq::empty());
    assert(whole.last() == one);
    assert(sampler.shown_tree(whole.drop_last()) =~= Seq::empty());
    assert(sampler.shown_tree(seq![one]) =~= match sampler.shown(one) {
        Some(snap) => seq![snap],
        None => Seq::empty(),
    });
    if second.len() == 0 {
        assert(first + second =~= first);
        assert(sampler.shown_tree(first) + sampler.shown_tree(second) =~= sampler.shown_tree(first));
    } else {
        let front = second.drop_last();
        lemma_linux_tree_in_parts(sampler, first, front, one);
        assert((first + second).drop_last() =~= first + front);
        assert((first + second).last() == second.last());
        assert(sampler.shown_tree(first + second) =~= sampler.shown_tree(first)
            + sampler.shown_tree(second));
    }
}

/// A process on macOS shows a snapshot exactly where its task information could be read. Sizes are
/// taken as they are, the physical footprint stands for unique and proportional size, and faults,
/// switches, threads and swap are not shown.
pub proof fn lemma_macos_snapshot(timebase: Timebase, reading: MacosReading)
    ensures
        macos::shown(timebase, reading) is Some <==> reading.task is Some,
        macos::shown(timebase, reading) matches Some(snap) ==> {
            let task = reading.task->0;
            &&& snap.pid == reading.pid
            &&& snap.rss_bytes == task.resident_size
            &&& snap.vms_bytes == task.virtual_size
            &&& reading.usage matches Some(usage) ==> {
                &&& snap.uss_bytes == Some(usage.phys_footprint)
                &&& snap.pss_bytes == Some(usage.phys_footprint)
                &&& snap.io_read_bytes == Some(usage.diskio_bytesread)
                &&& snap.io_write_bytes == Some(usage.diskio_byteswritten)
            }
            &&& reading.usage is None ==> {
                &&& snap.uss_bytes is None
                &&& snap.pss_bytes is None
                &&& snap.io_read_bytes is None
                &&& snap.io_write_bytes is None
            }
            &&& snap.major_page_faults is None
            &&& snap.minor_page_faults is None
            &&& snap.voluntary_ctx_switches is None
            &&& snap.involuntary_ctx_switches is None
            &&& snap.thread_count is None
            &&& snap.swap_bytes is None
        },
{
}

/// Four roundings in a row.
#[verifier::spinoff_prover]
proof fn lemma_four_roundings(x: int, n: int, d: int, a: int, an: int, b: int, c: int, e: int)
    requires
        x >= 0,
        n >= 0,
        d > 0,
        an == a * n,
        an >= 0,
        b >= 0,
        c >= 0,
        e >= 0,
        0x20_0000_0000_0000 * an <= 0x20_0000_0000_0000 * x + x + 0x10_0000_0000_0000 * n,
        0x20_0000_0000_0000 * x <= 0x20_0000_0000_0000 * an + x + 0x10_0000_0000_0000 * n,
        0x20_0000_0000_0000 * b <= 0x20_0000_0000_0000 * an + an + 0x10_0000_0000_0000,
        0x20_0000_0000_0000 * an <= 0x20_0000_0000_0000 * b + an + 0x10_0000_0000_0000,
        0x20_0000_0000_0000 * (c * d) <= 0x20_0000_0000_0000 * b + b + 0x10_0000_0000_0000 * d,
        0x20_0000_0000_0000 * b <= 0x20_0000_0000_0000 * (c * d) + b + 0x10_0000_0000_0000 * d,
        0x20_0000_0000_0000 * (e * 1_000_000_000) <= 0x20_0000_0000_0000 * c + c
            + 0x10_0000_0000_0000 * 1_000_000_000,
        0x20_0000_0000_0000 * c <= 0x20_0000_0000_0000 * (e * 1_000_000_000) + c
            + 0x10_0000_0000_0000 * 1_000_000_000,
    ensures
        0x20_0000_0000_0000 * ((e * d) * 1_000_000_000) <= 0x20_0000_0000_0000 * x + 15 * x
            + 0x20_0000_0000_0000 * (1_000_000_001 * d + n + 1),
        0x20_0000_0000_0000 * x <= 0x20_0000_0000_0000 * ((e * d) * 1_000_000_000) + 15 * x
            + 0x20_0000_0000_0000 * (1_000_000_001 * d + n + 1),
{
    let (cd, ed) = (c * d, e * d);
    assert(cd >= 0) by (nonlinear_arith)
        requires
            cd == c * d,
            c >= 0,
            d > 0,
    ;
    assert(0x20_0000_0000_0000 * (ed * 1_000_000_000) <= 0x20_0000_0000_0000 * cd + cd
        + 0x10_0000_0000_0000 * (1_000_000_000 * d)) by (nonlinear_arith)
        requires
            cd == c * d,
            ed == e * d,
            d > 0,
            0x20_0000_0000_0000 * (e * 1_000_000_000) <= 0x20_0000_0000_0000 * c + c
                + 0x10_0000_0000_0000 * 1_000_000_000,
    ;
    assert(0x20_0000_0000_0000 * cd <= 0x20_0000_0000_0000 * (ed * 1_000_000_000) + cd
        + 0x10_0000_0000_0000 * (1_000_000_000 * d)) by (nonlinear_arith)
        requires
            cd == c * d,
            ed == e * d,
            d > 0,
            0x20_0000_0000_0000 * c <= 0x20_0000_0000_0000 * (e * 1_000_000_000) + c
                + 0x10_0000_0000_0000 * 1_000_000_000,
    ;
}

/// Mach time in seconds is the time in units, times the fraction of the timebase, in nanoseconds
/// of which a thousand million make a second, up to four roundings.
#[verifier::spinoff_prover]
pub proof fn lemma_mach_time_is_near(timebase: Timebase, time: u64)
    requires
        timebase.over() <= u32::MAX,
        0 < timebase.under() <= u32::MAX,
    ensures
        ({
            let t = timebase.in_seconds(time);
            let x = (time as nat * timebase.over()) * pow2(1074);
            let d = timebase.under();
            &&& t.is_finite()
            &&& !t.minus()
            &&& 0x20_0000_0000_0000 * ((t.over() * d) * 1_000_000_000) <= 0x20_0000_0000_0000 * x
                + 15 * x + 0x20_0000_0000_0000 * (1_000_000_001 * d + timebase.over() + 1)
            &&& 0x20_0000_0000_0000 * x <= 0x20_0000_0000_0000 * ((t.over() * d) * 1_000_000_000)
                + 15 * x + 0x20_0000_0000_0000 * (1_000_000_001 * d + timebase.over() + 1)
        }),
{
    let g = pow2(1074);
    let n = timebase.over();
    let d = timebase.under();
    let x = (time as nat * n) * g;
    lemma_pow2_pos(1074);
    lemma_nearest_is_duration();
    if n == 0 {
        assert(x == 0) by (nonlinear_arith)
            requires
                x == (time as nat * n) * g,
                n == 0,
        ;
        assert(Quantity::zero().over() == 0) by {
            assert(Quantity::zero().steps() == 0);
            assert(0 * pow2(Quantity::zero().level()) == 0);
        }
        assert(0 * d == 0);
        assert(0x20_0000_0000_0000 * (1_000_000_001 * d + 1) >= 0);
    } else {
        let a = Quantity::of(time as nat);
        let y = time as nat * g;
        lemma_nearest_is_near(time as nat, 1);
        lemma2_to64();
        lemma2_to64_rest();
        lemma_pow2_adds(64, 1074);
        lemma_pow2_strictly_increases(1138, 2097);
        lemma_pow2_strictly_increases(1172, 2097);
        assert(y < pow2(1138)) by (nonlinear_arith)
            requires
                y == time as nat * g,
                time < pow2(64),
                pow2(1138) == pow2(64) * g,
                g > 0,
        ;
        assert(1 * pow2(2097) == pow2(2097));
        assert(a.is_finite());
        assert(a.over() * 1 == a.over());
        lemma_product_is_near(a, n);
        let b = a.times(n);
        let an = a.over() * n;
        assert(a.over() <= 2 * y + 1);
        lemma_pow2_adds(34, 1138);
        let (s, u) = (pow2(1138), pow2(1172));
        assert(s >= 1) by {
            lemma_pow2_pos(1138);
        }
        assert(an < u) by (nonlinear_arith)
            requires
                an == a.over() * n,
                a.over() <= 2 * y + 1,
                y < s,
                n < 0x1_0000_0000,
                u == 0x4_0000_0000 * s,
                s >= 1,
        ;
        assert(b.is_finite());
        lemma_share_is_near(b, d);
        let c = b.divided(d);
        lemma_share_is_near(c, 1_000_000_000);
        let e = c.divided(1_000_000_000);
        assert(0x20_0000_0000_0000 * an <= 0x20_0000_0000_0000 * x + x + 0x10_0000_0000_0000 * n)
            by (nonlinear_arith)
            requires
                an == a.over() * n,
                x == (time as nat * n) * g,
                y == time as nat * g,
                0x20_0000_0000_0000 * a.over() <= 0x20_0000_0000_0000 * y + y
                    + 0x10_0000_0000_0000,
        ;
        assert(0x20_0000_0000_0000 * x <= 0x20_0000_0000_0000 * an + x + 0x10_0000_0000_0000 * n)
            by (nonlinear_arith)
            requires
                an == a.over() * n,
                x == (time as nat * n) * g,
                y == time as nat * g,
                0x20_0000_0000_0000 * y <= 0x20_0000_0000_0000 * a.over() + y
                    + 0x10_0000_0000_0000,
        ;
        lemma_four_roundings(
            x as int,
            n as int,
            d as int,
            a.over() as int,
            an as int,
            b.over() as int,
            c.over() as int,
            e.over() as int,
        );
    }
}

/// CPU time on macOS is the time in user mode and the time in kernel mode together, up to one
/// rounding.
pub proof fn lemma_macos_cpu_time(timebase: Timebase, reading: MacosReading)
    requires
        reading.task is Some,
        timebase.over() <= u32::MAX,
        0 < timebase.under() <= u32::MAX,
    ensures
        macos::shown(timebase, reading) matches Some(snap) && {
            let y = timebase.in_seconds(reading.task->0.total_user).over() + timebase.in_seconds(
                reading.task->0.total_system,
            ).over();
            let t = snap.cpu_time_seconds;
            &&& !t.minus()
            &&& t.is_finite() ==> 0x20_0000_0000_0000 * t.over() <= 0x20_0000_0000_0000 * y + y
                + 0x10_0000_0000_0000
            &&& t.is_finite() ==> 0x20_0000_0000_0000 * y <= 0x20_0000_0000_0000 * t.over() + y
                + 0x10_0000_0000_0000
            &&& !t.is_finite() ==> t.is_infinite() && y >= pow2(2097)
        },
{
    lemma_mach_time_is_near(timebase, reading.task->0.total_user);
    lemma_mach_time_is_near(timebase, reading.task->0.total_system);
    lemma_sum_is_near(
        timebase.in_seconds(reading.task->0.total_user),
        timebase.in_seconds(reading.task->0.total_system),
    );
}

/// Reading a listing in two parts is reading it whole, on macOS too.
pub proof fn lemma_macos_tree_in_parts(
    timebase: Timebase,
    first: Seq<MacosReading>,
    second: Seq<MacosReading>,
    one: MacosReading,
)
    ensures
        macos::shown_tree(timebase, first + second) == macos::shown_tree(timebase, first)
            + macos::shown_tree(timebase, second),
        macos::shown_tree(timebase, Seq::empty()) == Seq::<ProcessSnapshot>::empty(),
        macos::shown_tree(timebase, seq![one]) == match macos::shown(timebase, one) {
            Some(snap) => seq![snap],
            None => Seq::empty(),
        },
    decreases second.len(),
{
    let whole = seq![one];
    assert(whole.drop_last() =~= Seq::empty());
    assert(whole.last() == one);
    assert(macos::shown_tree(timebase, whole.drop_last()) =~= Seq::empty());
    assert(macos::shown_tree(timebase, seq![one]) =~= match macos::shown(timebase, one) {
        Some(snap) => seq![snap],
        None => Seq::empty(),
    });
    if second.len() == 0 {
        assert(first + second =~= first);
        assert(macos::shown_tree(timebase, first) + macos::shown_tree(timebase, second)
            =~= macos::shown_tree(timebase, first));
    } else {
        let front = second.drop_last();
        lemma_macos_tree_in_parts(timebase, first, front, one);
        assert((first + second).drop_last() =~= first + front);
        assert((first + second).last() == second.last());
        assert(macos::shown_tree(timebase, first + second) =~= macos::shown_tree(timebase, first)
            + macos::shown_tree(timebase, second));
    }
}

} // verus!
