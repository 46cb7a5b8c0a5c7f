use crate::errors::CalibrationError;
use crate::fixed_point::{fit_i64, trunc_div};
use crate::ranking::{
    entry_leq,
    indices_of,
    lemma_sorted_entries,
    numbered,
    placed,
    sort_entries,
};
use std::collections::HashMap;
use vstd::prelude::*;

verus! {

/// Width of a time bin, in seconds.
pub const BIN_SECONDS: i64 = 60;

/// One row of an instrument log: time stamp in seconds, voltage in
/// microvolts, direction of the current and its size in microamperes.
#[derive(Clone, Copy, Debug, PartialEq, Eq)]
pub struct Record {
    pub timestamp: i64,
    pub voltage: i64,
    pub is_positive: bool,
    pub current: i64,
}

/// One row of the binned trace: start of the bin in seconds since the first
/// record, average voltage in microvolts and average signed current in
/// microamperes.
#[derive(Clone, Copy, Debug, PartialEq, Eq)]
pub struct Binned {
    pub time: i64,
    pub voltage: i64,
    pub current: i64,
}

struct Accumulator {
    bin: i64,
    voltage: i128,
    current: i128,
    count: usize,
}

/// The current of a record with its sign: negative against the direction.
pub open spec fn signed_current(r: Record) -> int {
    if r.is_positive {
        r.current as int
    } else {
        -(r.current as int)
    }
}

/// The bin of record `i`: its time since the first record, in whole bins,
/// rounded toward zero.
pub open spec fn bin_of(records: Seq<Record>, i: int) -> int {
    trunc_div(records[i].timestamp - records[0].timestamp, BIN_SECONDS as int)
}

/// Record `i` can be binned: the start of its bin fits in 64 bits, and so
/// does its signed current.
pub open spec fn binnable(records: Seq<Record>, i: int) -> bool {
    &&& fit_i64(bin_of(records, i) * BIN_SECONDS) is Some
    &&& fit_i64(signed_current(records[i])) is Some
}

/// The number of records of bin `b` among the first `n`.
pub open spec fn bin_count(records: Seq<Record>, b: int, n: nat) -> nat
    decreases n,
{
    if n == 0 {
        0
    } else {
        bin_count(records, b, (n - 1) as nat) + if bin_of(records, n - 1) == b {
            1nat
        } else {
            0nat
        }
    }
}

/// The sum of the voltages of the records of bin `b` among the first `n`.
pub open spec fn bin_voltage(records: Seq<Record>, b: int, n: nat) -> int
    decreases n,
{
    if n == 0 {
        0
    } else {
        bin_voltage(records, b, (n - 1) as nat) + if bin_of(records, n - 1) == b {
            records[n - 1].voltage as int
        } else {
            0
        }
    }
}

/// The sum of the signed currents of the records of bin `b` among the
/// first `n`.
pub open spec fn bin_current(records: Seq<Record>, b: int, n: nat) -> int
    decreases n,
{
    if n == 0 {
        0
    } else {
        bin_current(records, b, (n - 1) as nat) + if bin_of(records, n - 1) == b {
            signed_current(records[n - 1])
        } else {
            0
        }
    }
}

/// `row` is the row of bin `b`: the bin holds a record, and the row gives
/// the start of the bin and the averages over its records, rounded toward
/// zero.
pub open spec fn is_row_of(records: Seq<Record>, row: Binned, b: int) -> bool {
    let n = records.len();
    &&& bin_count(records, b, n) > 0
    &&& row.time == b * BIN_SECONDS
    &&& row.voltage == trunc_div(bin_voltage(records, b, n), bin_count(records, b, n) as int)
    &&& row.current == trunc_div(bin_current(records, b, n), bin_count(records, b, n) as int)
}

/// `row` is the row of some bin of `records`.
pub open spec fn is_row(records: Seq<Record>, row: Binned) -> bool {
    exists|b: int| is_row_of(records, row, b)
}

/// The bin of record `i` has its row among `rows`.
pub open spec fn has_row(records: Seq<Record>, rows: Seq<Binned>, i: int) -> bool {
    exists|a: int| 0 <= a < rows.len() && rows[a].time == bin_of(records, i) * BIN_SECONDS
}

/// `rows` is the binned trace of `records`: one row per bin that holds a
/// record, in ascending order of time.
pub open spec fn is_binned_trace(records: Seq<Record>, rows: Seq<Binned>) -> bool {
    &&& forall|a: int, b: int| 0 <= a < b < rows.len() ==> rows[a].time < rows[b].time
    &&& forall|a: int| 0 <= a < rows.len() ==> is_row(records, #[trigger] rows[a])
    &&& forall|i: int| 0 <= i < records.len() ==> #[trigger] has_row(records, rows, i)
}

spec fn tallies(records: Seq<Record>, acc: Accumulator, k: nat) -> bool {
    &&& acc.count == bin_count(records, acc.bin as int, k)
    &&& acc.count > 0
    &&& acc.voltage == bin_voltage(records, acc.bin as int, k)
    &&& acc.current == bin_current(records, acc.bin as int, k)
    &&& -acc.count * 0x8000_0000_0000_0000 <= acc.voltage <= acc.count * 0x8000_0000_0000_0000
    &&& -acc.count * 0x8000_0000_0000_0000 <= acc.current <= acc.count * 0x8000_0000_0000_0000
    &&& fit_i64(acc.bin * BIN_SECONDS) is Some
}

/// The map tells of every bin where its tally stands, and of nothing else.
spec fn indexed(slots: Map<i64, usize>, bins: Seq<Accumulator>) -> bool {
    &&& forall|a: int|
        0 <= a < bins.len() ==> slots.contains_key((#[trigger] bins[a]).bin) && slots[bins[a].bin]
            == a
    &&& forall|key: i64| #[trigger]
        slots.contains_key(key) ==> slots[key] < bins.len() && bins[slots[key] as int].bin == key
}

/// The sort entry of the tally at position `a`: its bin, counted from the
/// smallest bin there is, and its position.
spec fn entry_of(bins: Seq<Accumulator>, a: int) -> (u8, u128, usize) {
    (0u8, (bins[a].bin + 0x8000_0000_0000_0000) as u128, a as usize)
}

/// Every one of the first `k` records has its bin among `bins`.
spec fn covered(records: Seq<Record>, bins: Seq<Accumulator>, k: int) -> bool {
    forall|i: int|
        0 <= i < k ==> exists|a: int|
            0 <= a < bins.len() && bins[a].bin == #[trigger] bin_of(records, i)
}

proof fn lemma_bin_count_bound(records: Seq<Record>, b: int, n: nat)
    ensures
        bin_count(records, b, n) <= n,
    decreases n,
{
    if n > 0 {
        lemma_bin_count_bound(records, b, (n - 1) as nat);
    }
}

proof fn lemma_average_fits(sum: int, count: int)
    requires
        count > 0,
        -count * 0x8000_0000_0000_0000 <= sum <= count * 0x7fff_ffff_ffff_ffff,
    ensures
        -0x8000_0000_0000_0000 <= trunc_div(sum, count) <= 0x7fff_ffff_ffff_ffff,
{
    if sum >= 0 {
        assert(sum / count <= 0x7fff_ffff_ffff_ffff) by (nonlinear_arith)
            requires
                count > 0,
                0 <= sum <= count * 0x7fff_ffff_ffff_ffff,
        ;
        assert(sum / count >= 0) by (nonlinear_arith)
            requires
                count > 0,
                0 <= sum,
        ;
    } else {
        assert((-sum) / count <= 0x8000_0000_0000_0000) by (nonlinear_arith)
            requires
                count > 0,
                0 <= -sum <= count * 0x8000_0000_0000_0000,
        ;
        assert((-sum) / count >= 0) by (nonlinear_arith)
            requires
                count > 0,
                0 <= -sum,
        ;
    }
}

/// Bins the records of an instrument log.
///
/// Times count from the first record.  Each record falls into the bin of
/// `BIN_SECONDS` seconds that holds its time; a current against the
/// direction counts as negative.  The result has one row per bin that holds
/// a record, in ascending order of time, with the averages of voltage and
/// current over the records of the bin.
///
/// Fails with `InvalidInput` where the start of a record's bin or its
/// signed current does not fit in 64 bits.
pub fn process_data(records: &[Record]) -> (r: Result<Vec<Binned>, CalibrationError>)
    ensures
        r is Ok <==> forall|i: int| 0 <= i < records@.len() ==> binnable(records@, i),
        r is Ok ==> is_binned_trace(records@, r->Ok_0@),
        r is Err ==> r == Err::<Vec<Binned>, CalibrationError>(CalibrationError::InvalidInput),
{
    broadcast use vstd::std_specs::hash::group_hash_axioms;

    let n = records.len();
    // Groups the records by bin: the map tells where the tally of a bin stands.
    let mut slots: HashMap<i64, usize> = HashMap::new();
    let mut bins: Vec<Accumulator> = Vec::new();
    let mut k: usize = 0;
    while k < n
        invariant
            n == records@.len(),
            k <= n,
            forall|i: int| 0 <= i < k ==> binnable(records@, i),
            indexed(slots@, bins@),
            forall|a: int|
                0 <= a < bins@.len() ==> tallies(records@, #[trigger] bins@[a], k as nat),
            covered(records@, bins@, k as int),
        decreases n - k,
    {
        let record = records[k];
        let elapsed: i128 = record.timestamp as i128 - records[0].timestamp as i128;
        let wide_bin: i128 = elapsed / (BIN_SECONDS as i128);
        assert(wide_bin == bin_of(records@, k as int));
        let start: i128 = wide_bin * (BIN_SECONDS as i128);
        if start < i64::MIN as i128 || start > i64::MAX as i128 || (!record.is_positive
            && record.current == i64::MIN) {
            assert(!binnable(records@, k as int));
            return Err(CalibrationError::InvalidInput);
        }
        assert(binnable(records@, k as int));
        let bin: i64 = wide_bin as i64;
        let signed: i128 = if record.is_positive {
            record.current as i128
        } else {
            -(record.current as i128)
        };
        let ghost before = bins@;
        let found: Option<usize> = match slots.get(&bin) {
            Some(pos) => Some(*pos),
            None => None,
        };
        match found {
            Some(pos) => {
                let old_acc = &bins[pos];
                proof {
                    lemma_bin_count_bound(records@, bin as int, k as nat);
                }
                let acc = Accumulator {
                    bin,
                    voltage: old_acc.voltage + record.voltage as i128,
                    current: old_acc.current + signed,
                    count: old_acc.count + 1,
                };
                bins[pos] = acc;
                proof {
                    assert forall|a: int| 0 <= a < bins@.len() implies tallies(
                        records@,
                        #[trigger] bins@[a],
                        (k + 1) as nat,
                    ) by {
                        if a != pos {
                            assert(bins@[a] == before[a]);
                            assert(tallies(records@, before[a], k as nat));
                            assert(before[a].bin != bin);
                        } else {
                            assert(tallies(records@, before[pos as int], k as nat));
                        }
                    }
                    assert forall|i: int| 0 <= i < k + 1 implies exists|a: int|
                        0 <= a < bins@.len() && bins@[a].bin == #[trigger] bin_of(records@, i) by {
                        if i < k {
                            let a = choose|a: int|
                                0 <= a < before.len() && before[a].bin == bin_of(records@, i);
                            assert(bins@[a].bin == before[a].bin);
                        } else {
                            assert(bins@[pos as int].bin == bin_of(records@, i));
                        }
                    }
                    assert forall|a: int| 0 <= a < bins@.len() implies slots@.contains_key(
                        (#[trigger] bins@[a]).bin,
                    ) && slots@[bins@[a].bin] == a by {
                        assert(bins@[a].bin == before[a].bin);
                    }
                }
            },
            None => {
                proof {
                    // No record so far fell into this bin.
                    assert forall|i: int| 0 <= i < k implies bin_of(records@, i) != bin by {
                        let a = choose|a: int|
                            0 <= a < before.len() && before[a].bin == bin_of(records@, i);
                        assert(slots@.contains_key(before[a].bin));
                    }
                    lemma_no_record_in_bin(records@, bin as int, k as nat);
                }
                let acc = Accumulator {
                    bin,
                    voltage: record.voltage as i128,
                    current: signed,
                    count: 1,
                };
                let ghost earlier = slots@;
                slots.insert(bin, bins.len());
                bins.push(acc);
                proof {
                    assert forall|a: int| 0 <= a < bins@.len() implies tallies(
                        records@,
                        #[trigger] bins@[a],
                        (k + 1) as nat,
                    ) by {
                        if a < before.len() {
                            assert(bins@[a] == before[a]);
                            assert(tallies(records@, before[a], k as nat));
                            assert(earlier.contains_key(before[a].bin));
                        }
                    }
                    assert forall|i: int| 0 <= i < k + 1 implies exists|a: int|
                        0 <= a < bins@.len() && bins@[a].bin == #[trigger] bin_of(records@, i) by {
                        if i < k {
                            let a = choose|a: int|
                                0 <= a < before.len() && before[a].bin == bin_of(records@, i);
                            assert(bins@[a].bin == before[a].bin);
                        } else {
                            assert(bins@[before.len() as int].bin == bin_of(records@, i));
                        }
                    }
                    assert forall|a: int| 0 <= a < bins@.len() implies slots@.contains_key(
                        (#[trigger] bins@[a]).bin,
                    ) && slots@[bins@[a].bin] == a by {
                        if a < before.len() {
                            assert(bins@[a] == before[a]);
                            assert(earlier.contains_key(before[a].bin));
                        }
                    }
                    assert forall|key: i64| #[trigger] slots@.contains_key(key) implies slots@[key]
                        < bins@.len() && bins@[slots@[key] as int].bin == key by {
                        if key != bin {
                            assert(earlier.contains_key(key));
                            assert(bins@[earlier[key] as int] == before[earlier[key] as int]);
                        }
                    }
                }
            },
        }
        k += 1;
    }
    // Sorts the bins by time.
    let count = bins.len();
    let mut entries: Vec<(u8, u128, usize)> = Vec::with_capacity(count);
    let mut a: usize = 0;
    while a < count
        invariant
            count == bins@.len(),
            a <= count,
            entries@.len() == a,
            forall|x: int| 0 <= x < a ==> #[trigger] entries@[x] == entry_of(bins@, x),
        decreases count - a,
    {
        let key: u128 = (bins[a].bin as i128 + 0x8000_0000_0000_0000) as u128;
        entries.push((0, key, a));
        a += 1;
    }
    let ghost source = entries@;
    sort_entries(&mut entries);
    proof {
        assert(numbered(source)) by {
            assert forall|i: int| 0 <= i < source.len() implies (#[trigger] source[i]).2 == i by {
                assert(source[i] == entry_of(bins@, i));
            }
        }
        lemma_sorted_entries(source, entries@);
    }
    let mut rows: Vec<Binned> = Vec::with_capacity(count);
    let mut j: usize = 0;
    while j < count
        invariant
            n == records@.len(),
            count == bins@.len(),
            count == entries@.len(),
            j <= count,
            rows@.len() == j,
            forall|i: int| 0 <= i < n ==> binnable(records@, i),
            forall|x: int|
                0 <= x < bins@.len() ==> tallies(records@, #[trigger] bins@[x], n as nat),
            forall|x: int|
                0 <= x < entries@.len() ==> (#[trigger] entries@[x]).2 < count,
            forall|x: int|
                0 <= x < j ==> (#[trigger] rows@[x]).time == bins@[entries@[x].2 as int].bin
                    * BIN_SECONDS && is_row_of(
                    records@,
                    rows@[x],
                    bins@[entries@[x].2 as int].bin as int,
                ),
        decreases count - j,
    {
        let acc = &bins[entries[j].2];
        assert(tallies(records@, *acc, n as nat));
        proof {
            lemma_signed_average_fits(records@, acc.bin as int, n as nat);
            lemma_voltage_average_fits(records@, acc.bin as int, n as nat);
            lemma_average_fits(acc.voltage as int, acc.count as int);
            lemma_average_fits(acc.current as int, acc.count as int);
        }
        let size: i128 = acc.count as i128;
        let row = Binned {
            time: acc.bin * BIN_SECONDS,
            voltage: (acc.voltage / size) as i64,
            current: (acc.current / size) as i64,
        };
        rows.push(row);
        j += 1;
    }
    proof {
        assert forall|x: int, y: int| 0 <= x < y < rows@.len() implies rows@[x].time
            < rows@[y].time by {
            let p = entries@[x].2 as int;
            let q = entries@[y].2 as int;
            assert(entry_leq(entries@[x], entries@[y]));
            assert(entries@[x] == source[p]);
            assert(entries@[y] == source[q]);
            assert(source[p] == entry_of(bins@, p));
            assert(source[q] == entry_of(bins@, q));
            assert(p != q);
            if bins@[p].bin == bins@[q].bin {
                assert(slots@[bins@[p].bin] == p);
                assert(slots@[bins@[q].bin] == q);
            }
        }
        assert forall|i: int| 0 <= i < records@.len() implies #[trigger] has_row(
            records@,
            rows@,
            i,
        ) by {
            let x = choose|x: int| 0 <= x < bins@.len() && bins@[x].bin == bin_of(records@, i);
            assert(placed(indices_of(entries@), x));
            let y = choose|y: int|
                0 <= y < indices_of(entries@).len() && #[trigger] indices_of(entries@)[y] == x;
            assert(entries@[y].2 == x);
            assert(rows@[y].time == bins@[x].bin * BIN_SECONDS);
        }
        assert forall|x: int| 0 <= x < rows@.len() implies is_row(
            records@,
            #[trigger] rows@[x],
        ) by {
            assert(is_row_of(records@, rows@[x], bins@[entries@[x].2 as int].bin as int));
        }
        assert(is_binned_trace(records@, rows@));
    }
    Ok(rows)
}

proof fn lemma_no_record_in_bin(records: Seq<Record>, b: int, n: nat)
    requires
        forall|i: int| 0 <= i < n ==> bin_of(records, i) != b,
    ensures
        bin_count(records, b, n) == 0,
        bin_voltage(records, b, n) == 0,
        bin_current(records, b, n) == 0,
    decreases n,
{
    if n > 0 {
        lemma_no_record_in_bin(records, b, (n - 1) as nat);
    }
}

/// The sum of the voltages of a bin is at most as large as its records
/// allow, so that their average is a voltage.
proof fn lemma_voltage_average_fits(records: Seq<Record>, b: int, n: nat)
    ensures
        -bin_count(records, b, n) * 0x8000_0000_0000_0000 <= bin_voltage(records, b, n)
            <= bin_count(records, b, n) * 0x7fff_ffff_ffff_ffff,
    decreases n,
{
    if n > 0 {
        lemma_voltage_average_fits(records, b, (n - 1) as nat);
    }
}

/// The same for the signed currents of records that can be binned.
proof fn lemma_signed_average_fits(records: Seq<Record>, b: int, n: nat)
    requires
        forall|i: int| 0 <= i < n ==> binnable(records, i),
    ensures
        -bin_count(records, b, n) * 0x8000_0000_0000_0000 <= bin_current(records, b, n)
            <= bin_count(records, b, n) * 0x7fff_ffff_ffff_ffff,
    decreases n,
{
    if n > 0 {
        lemma_signed_average_fits(records, b, (n - 1) as nat);
        assert(binnable(records, n - 1));
    }
}

} // verus!
