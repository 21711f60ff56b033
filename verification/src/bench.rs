//! Benchmark bookkeeping for supporting Thyme.
//!
//! Benchmarks are timings grouped by a tag.  A timing is started with
//! [`start`](fn.start.html), which returns a [`Handle`](struct.Handle.html), and
//! finished with [`Handle::end`](struct.Handle.html#method.end); [`run`](fn.run.html)
//! times a closure.  Each tag keeps the history of its timings, in nanoseconds,
//! from which statistics over the most recent timings are computed.

use std::time::Instant;

use vstd::prelude::*;
use vstd::string::*;

verus! {

/// The number of most recent timings that statistics are limited to by default.
pub const MOVING_AVG_LEN: usize = 30;

/// The longest duration that `std::time::Duration` can hold, in nanoseconds:
/// `u64::MAX` seconds and 999,999,999 nanoseconds.
pub const DURATION_MAX_NANOS: u128 = 18_446_744_073_709_551_615_999_999_999;

/// `std::time::Instant`, a reading of a monotonic clock.
#[verifier::external_type_specification]
#[verifier::external_body]
pub struct ExInstant(Instant);

/// Reads the clock with `Instant::now`.  The reading depends on the time; nothing is stated of it.
#[verifier::external_body]
fn now() -> Instant {
    Instant::now()
}

/// The time from the clock reading `earlier` to the clock reading `later`, in
/// nanoseconds, as `(later - earlier).as_nanos()` gives it.
pub uninterp spec fn elapsed_nanos(earlier: Instant, later: Instant) -> u128;

/// The time elapsed from `earlier` to `later` (`later - earlier`, which saturates to
/// zero when `earlier` is the later one), in nanoseconds; the result is named
/// `elapsed_nanos`, and fits in a `Duration`, as every `Duration` does.
#[verifier::external_body]
fn nanos_between(earlier: Instant, later: Instant) -> (nanos: u128)
    ensures
        nanos == elapsed_nanos(earlier, later),
        nanos <= DURATION_MAX_NANOS,
{
    (later - earlier).as_nanos()
}

/// A benchmarking handle created by [`start`](fn.start.html).  [`end`](#method.end) it to
/// finish the timing.
pub struct Handle {
    index: usize,
}

impl Handle {
    /// The position of the timed benchmark in its set.
    pub closed spec fn index(&self) -> nat {
        self.index as nat
    }

    /// The position of the timed benchmark in its set.
    pub fn position(&self) -> (r: usize)
        ensures
            r == self.index(),
    {
        self.index
    }

    /// Finishes the timing associated with this handle: the time elapsed since the
    /// benchmark was started is added to its history.
    pub fn end(self, bench: &mut BenchSet)
        requires
            self.index() < old(bench)@.len(),
        ensures
            ended(old(bench)@, final(bench)@, self.index() as int),
    {
        end(bench, self);
    }
}

/// One benchmark: its tag, the history of its timings in nanoseconds, and the
/// clock reading at which the running timing started, if one is running.
pub struct BenchModel {
    pub tag: Seq<char>,
    pub history: Seq<u128>,
    pub start: Option<Instant>,
}

/// How a timing is recorded: the benchmark at `index` gains the timing `nanos`
/// and is no longer running; all other benchmarks are unchanged.
pub open spec fn recorded(before: Seq<BenchModel>, after: Seq<BenchModel>, index: int, nanos: u128) -> bool {
    &&& after.len() == before.len()
    &&& after[index] == (BenchModel { history: before[index].history.push(nanos), start: None, ..before[index] })
    &&& forall|j: int| 0 <= j < after.len() && j != index ==> after[j] == before[j]
}

/// How a timing ends: the benchmark at `index` records (see `recorded`) the time
/// from its start to a reading of the clock taken now, or zero when it was not
/// running; the timing fits in a `Duration`.
pub open spec fn ended(before: Seq<BenchModel>, after: Seq<BenchModel>, index: int) -> bool {
    &&& after.len() == before.len()
    &&& recorded(before, after, index, after[index].history.last())
    &&& after[index].history.last() <= DURATION_MAX_NANOS
    &&& match before[index].start {
        Some(earlier) => exists|later: Instant| after[index].history.last() == #[trigger] elapsed_nanos(earlier, later),
        None => after[index].history.last() == 0,
    }
}

/// The benchmark with the given tag, if there is one.
pub open spec fn find_tag(benches: Seq<BenchModel>, tag: Seq<char>) -> Option<int> {
    if exists|i: int| 0 <= i < benches.len() && benches[i].tag == tag {
        Some(choose|i: int| 0 <= i < benches.len() && benches[i].tag == tag)
    } else {
        None
    }
}

/// No two benchmarks share a tag.
pub open spec fn distinct_tags(benches: Seq<BenchModel>) -> bool {
    forall|i: int, j: int| 0 <= i < benches.len() && 0 <= j < benches.len() && i != j
        ==> benches[i].tag != benches[j].tag
}

/// The number of timings that statistics consider: all of them, or at most `limit`.
pub open spec fn window_len(history_len: nat, limit: Option<usize>) -> nat {
    match limit {
        None => history_len,
        Some(l) => if history_len < l { history_len } else { l as nat },
    }
}

/// The `count` most recent timings, most recent first.
pub open spec fn recent_window(history: Seq<u128>, count: nat) -> Seq<u128> {
    history.subrange(history.len() - count, history.len() as int).reverse()
}

/// The sum of a sequence of timings.
pub open spec fn total(samples: Seq<u128>) -> nat
    decreases samples.len(),
{
    if samples.len() == 0 {
        0
    } else {
        total(samples.drop_last()) + (samples.last() as nat)
    }
}

/// The largest of a sequence of timings, or 0 for none.
pub open spec fn maximum(samples: Seq<u128>) -> nat
    decreases samples.len(),
{
    if samples.len() == 0 {
        0
    } else {
        let m = maximum(samples.drop_last());
        if samples.last() > m {
            samples.last() as nat
        } else {
            m
        }
    }
}

/// The largest timing is one of the timings, and no timing exceeds it; with no
/// timings it is zero.
pub proof fn lemma_maximum_is_largest(samples: Seq<u128>)
    ensures
        forall|i: int| 0 <= i < samples.len() ==> samples[i] <= maximum(samples),
        samples.len() > 0 ==> exists|i: int| 0 <= i < samples.len() && samples[i] == maximum(samples),
        samples.len() == 0 ==> maximum(samples) == 0,
    decreases samples.len(),
{
    if samples.len() > 0 {
        let rest = samples.drop_last();
        lemma_maximum_is_largest(rest);
        assert forall|i: int| 0 <= i < samples.len() implies samples[i] <= maximum(samples) by {
            if i < rest.len() {
                assert(samples[i] == rest[i]);
            }
        }
        if samples.last() > maximum(rest) {
            assert(samples[samples.len() - 1] == maximum(samples));
        } else if rest.len() == 0 {
            assert(samples[0] == maximum(samples));
        } else {
            let i = choose|i: int| 0 <= i < rest.len() && rest[i] == maximum(rest);
            assert(samples[i] == maximum(samples));
        }
    }
}

/// The total of timings adds up over any split of them, and no timing exceeds it.
pub proof fn lemma_total_adds_up(a: Seq<u128>, b: Seq<u128>)
    ensures
        total(a + b) == total(a) + total(b),
        forall|i: int| 0 <= i < a.len() ==> a[i] <= total(a),
    decreases b.len(),
{
    if b.len() == 0 {
        assert(a + b =~= a);
    } else {
        lemma_total_adds_up(a, b.drop_last());
        assert((a + b).drop_last() =~= a + b.drop_last());
    }
    lemma_total_bounds(a);
}

proof fn lemma_total_bounds(a: Seq<u128>)
    ensures
        forall|i: int| 0 <= i < a.len() ==> a[i] <= total(a),
    decreases a.len(),
{
    if a.len() > 0 {
        lemma_total_bounds(a.drop_last());
        assert forall|i: int| 0 <= i < a.len() implies a[i] <= total(a) by {
            if i < a.len() - 1 {
                assert(a[i] == a.drop_last()[i]);
            }
        }
    }
}

/// The recent window holds the `count` latest timings, latest first.
pub proof fn lemma_recent_window_latest_first(history: Seq<u128>, count: nat)
    requires
        count <= history.len(),
    ensures
        recent_window(history, count).len() == count,
        forall|i: int| 0 <= i < count ==> recent_window(history, count)[i] == history[history.len() - 1 - i],
{
}

/// One benchmark: its tag, the history of its timings, and the start of the running timing.
pub struct Bench {
    tag: String,
    history: Vec<u128>,
    start: Option<Instant>,
}

impl View for Bench {
    type V = BenchModel;

    closed spec fn view(&self) -> BenchModel {
        BenchModel { tag: self.tag@, history: self.history@, start: self.start }
    }
}

impl Bench {
    fn new(tag: String) -> (b: Bench)
        ensures
            b@.tag == tag@,
            b@.history == Seq::<u128>::empty(),
            b@.start is None,
    {
        Bench { history: Vec::new(), start: None, tag }
    }

    /// The tag of this benchmark.
    pub fn tag(&self) -> (t: &str)
        ensures
            t@ == self@.tag,
    {
        self.tag.as_str()
    }

    /// The number of timings recorded for this benchmark.
    pub fn history_len(&self) -> (n: usize)
        ensures
            n == self@.history.len(),
    {
        self.history.len()
    }

    /// The timings that statistics consider, most recent first: all of them, or
    /// the `limit` most recent ones.
    pub fn recent(&self, limit: Option<usize>) -> (samples: Vec<u128>)
        ensures
            samples@ == recent_window(self@.history, window_len(self@.history.len(), limit)),
    {
        let len = self.history.len();
        let count = match limit {
            None => len,
            Some(limit) => if len < limit { len } else { limit },
        };
        let mut samples: Vec<u128> = Vec::new();
        let mut k: usize = 0;
        while k < count
            invariant
                count <= len == self@.history.len(),
                count == window_len(self@.history.len(), limit),
                k <= count,
                samples@ == recent_window(self@.history, k as nat),
            decreases count - k,
        {
            samples.push(self.history[len - 1 - k]);
            k = k + 1;
            proof {
                assert(samples@ =~= recent_window(self@.history, k as nat));
            }
        }
        samples
    }
}

/// Whether the timings can be added up: a sum of `Duration`s overflows, and
/// panics, beyond the longest `Duration`.
pub open spec fn summable(samples: Seq<u128>) -> bool {
    forall|k: int| 0 <= k <= samples.len() ==> #[trigger] total(samples.take(k)) <= DURATION_MAX_NANOS
}

/// Whether the timings can be added up without exceeding the longest `Duration`.
pub fn sum_fits(samples: &Vec<u128>) -> (r: bool)
    ensures
        r == summable(samples@),
{
    let mut sum: u128 = 0;
    let mut k: usize = 0;
    proof {
        assert(samples@.take(0) =~= seq![]);
    }
    while k < samples.len()
        invariant
            k <= samples@.len(),
            sum == total(samples@.take(k as int)),
            forall|j: int| 0 <= j <= k ==> #[trigger] total(samples@.take(j)) <= DURATION_MAX_NANOS,
        decreases samples@.len() - k,
    {
        proof {
            assert(samples@.take(k + 1).drop_last() =~= samples@.take(k as int));
        }
        if samples[k] > DURATION_MAX_NANOS - sum {
            proof {
                assert(total(samples@.take(k + 1)) > DURATION_MAX_NANOS);
            }
            return false;
        }
        sum = sum + samples[k];
        k = k + 1;
    }
    proof {
        assert(samples@.take(samples@.len() as int) =~= samples@);
    }
    true
}

/// The sum of the timings, in nanoseconds.
pub fn total_nanos(samples: &Vec<u128>) -> (sum: u128)
    requires
        summable(samples@),
    ensures
        sum == total(samples@),
{
    let mut sum: u128 = 0;
    let mut k: usize = 0;
    proof {
        assert(samples@.take(0) =~= seq![]);
    }
    while k < samples.len()
        invariant
            k <= samples@.len(),
            summable(samples@),
            sum == total(samples@.take(k as int)),
        decreases samples@.len() - k,
    {
        proof {
            assert(samples@.take(k + 1).drop_last() =~= samples@.take(k as int));
            assert(total(samples@.take(k + 1)) <= DURATION_MAX_NANOS);
        }
        sum = sum + samples[k];
        k = k + 1;
    }
    proof {
        assert(samples@.take(samples@.len() as int) =~= samples@);
    }
    sum
}

/// The longest of the timings, in nanoseconds, or 0 for none.
pub fn max_nanos(samples: &Vec<u128>) -> (m: u128)
    ensures
        m == maximum(samples@),
{
    let mut m: u128 = 0;
    let mut k: usize = 0;
    proof {
        assert(samples@.take(0) =~= seq![]);
    }
    while k < samples.len()
        invariant
            k <= samples@.len(),
            m == maximum(samples@.take(k as int)),
        decreases samples@.len() - k,
    {
        proof {
            assert(samples@.take(k + 1).drop_last() =~= samples@.take(k as int));
        }
        if samples[k] > m {
            m = samples[k];
        }
        k = k + 1;
    }
    proof {
        assert(samples@.take(samples@.len() as int) =~= samples@);
    }
    m
}

/// All benchmarks, in the order their tags were first used.
pub struct BenchSet {
    benches: Vec<Bench>,
}

impl View for BenchSet {
    type V = Seq<BenchModel>;

    closed spec fn view(&self) -> Seq<BenchModel> {
        self.benches@.map_values(|b: Bench| b@)
    }
}

impl BenchSet {
    #[verifier::type_invariant]
    spec fn inv(self) -> bool {
        distinct_tags(self@)
    }

    /// An empty set of benchmarks.
    pub fn new() -> (s: BenchSet)
        ensures
            s@ == Seq::<BenchModel>::empty(),
    {
        let s = BenchSet { benches: Vec::new() };
        proof {
            assert(s@ =~= Seq::<BenchModel>::empty());
        }
        s
    }

    /// The number of benchmarks.
    pub fn len(&self) -> (n: usize)
        ensures
            n == self@.len(),
    {
        self.benches.len()
    }

    /// The benchmark at `index`.
    pub fn get(&self, index: usize) -> (b: &Bench)
        requires
            index < self@.len(),
        ensures
            b@ == self@[index as int],
    {
        &self.benches[index]
    }

    /// The position of the benchmark with the given tag, if there is one.
    pub fn find(&self, tag: &str) -> (r: Option<usize>)
        ensures
            r matches Some(i) ==> find_tag(self@, tag@) == Some(i as int),
            r is None ==> find_tag(self@, tag@) is None,
    {
        proof {
            use_type_invariant(self);
        }
        let key = String::from_str(tag);
        let mut i: usize = 0;
        while i < self.benches.len()
            invariant
                i <= self@.len(),
                self@.len() == self.benches@.len(),
                distinct_tags(self@),
                key@ == tag@,
                forall|j: int| 0 <= j < i ==> self@[j].tag != tag@,
            decreases self@.len() - i,
        {
            if self.benches[i].tag == key {
                proof {
                    assert(self@[i as int].tag == tag@);
                    assert(exists|k: int| 0 <= k < self@.len() && self@[k].tag == tag@);
                    let c = choose|k: int| 0 <= k < self@.len() && self@[k].tag == tag@;
                    assert(c == i);
                }
                return Some(i);
            }
            i = i + 1;
        }
        None
    }

    /// Starts a timing with the given tag, creating the benchmark if no benchmark
    /// has that tag yet, and returns the handle that ends it.
    pub fn start(&mut self, tag: &str) -> (h: Handle)
        ensures
            started(old(self)@, final(self)@, tag@, h.index() as int),
    {
        proof {
            use_type_invariant(&*self);
        }
        match self.find(tag) {
            Some(index) => {
                let t = now();
                self.set_start(index, t);
                Handle { index }
            },
            None => {
                let mut bench = Bench::new(String::from_str(tag));
                bench.start = Some(now());
                let index = self.benches.len();
                let ghost before = self@;
                let mut benches: Vec<Bench> = Vec::new();
                std::mem::swap(&mut benches, &mut self.benches);
                benches.push(bench);
                proof {
                    let after = benches@.map_values(|b: Bench| b@);
                    assert(after =~= before.push(bench@));
                    assert(find_tag(before, tag@) is None);
                    assert forall|i: int, j: int| 0 <= i < after.len() && 0 <= j < after.len() && i != j
                        implies after[i].tag != after[j].tag by {
                        if i < before.len() && j < before.len() {
                        } else if i < before.len() {
                            assert(!(0 <= i < before.len() && before[i].tag == tag@));
                        } else {
                            assert(!(0 <= j < before.len() && before[j].tag == tag@));
                        }
                    }
                }
                self.benches = benches;
                Handle { index }
            },
        }
    }

    fn set_start(&mut self, index: usize, t: Instant)
        requires
            index < old(self)@.len(),
        ensures
            final(self)@.len() == old(self)@.len(),
            final(self)@[index as int] == (BenchModel { start: Some(t), ..old(self)@[index as int] }),
            forall|j: int| 0 <= j < final(self)@.len() && j != index ==> final(self)@[j] == old(self)@[j],
    {
        proof {
            use_type_invariant(&*self);
        }
        let ghost before = self@;
        let mut benches: Vec<Bench> = Vec::new();
        std::mem::swap(&mut benches, &mut self.benches);
        let mut bench = benches.remove(index);
        bench.start = Some(t);
        benches.insert(index, bench);
        proof {
            assert(benches@.map_values(|b: Bench| b@) =~= before.update(
                index as int,
                BenchModel { start: Some(t), ..before[index as int] },
            ));
        }
        self.benches = benches;
    }

    /// Records the timing `nanos` for the benchmark at `index`, which stops running.
    pub fn record(&mut self, index: usize, nanos: u128)
        requires
            index < old(self)@.len(),
        ensures
            recorded(old(self)@, final(self)@, index as int, nanos),
    {
        proof {
            use_type_invariant(&*self);
        }
        let ghost before = self@;
        let mut benches: Vec<Bench> = Vec::new();
        std::mem::swap(&mut benches, &mut self.benches);
        let mut bench = benches.remove(index);
        bench.start = None;
        bench.history.push(nanos);
        benches.insert(index, bench);
        proof {
            let after = benches@.map_values(|b: Bench| b@);
            assert(after[index as int].history =~= before[index as int].history.push(nanos));
            assert forall|j: int| 0 <= j < after.len() && j != index implies after[j] == before[j] by {}
            assert forall|i: int, j: int| 0 <= i < after.len() && 0 <= j < after.len() && i != j
                implies after[i].tag != after[j].tag by {
                assert(after[i].tag == before[i].tag);
                assert(after[j].tag == before[j].tag);
            }
        }
        self.benches = benches;
    }

    /// Ends the timing of the benchmark at `index`: the time from its start to a
    /// reading of the clock taken now, or zero when it was not running.
    fn finish(&mut self, index: usize)
        requires
            index < old(self)@.len(),
        ensures
            ended(old(self)@, final(self)@, index as int),
    {
        let start = self.benches[index].start;
        match start {
            Some(earlier) => {
                let later = now();
                let nanos = nanos_between(earlier, later);
                self.record(index, nanos);
                proof {
                    assert(self@[index as int].history.last() == elapsed_nanos(earlier, later));
                }
            },
            None => {
                self.record(index, 0);
            },
        }
    }
}

/// How a timing starts: if a benchmark with the tag exists, the handle points at it
/// and it now runs from a reading of the clock; otherwise a new benchmark with the
/// tag and no timings, running from a reading of the clock, is added at the end.
/// All other benchmarks are unchanged.
pub open spec fn started(before: Seq<BenchModel>, after: Seq<BenchModel>, tag: Seq<char>, index: int) -> bool {
    match find_tag(before, tag) {
        Some(i) => {
            &&& index == i
            &&& after.len() == before.len()
            &&& after[i] == (BenchModel { start: after[i].start, ..before[i] })
            &&& after[i].start is Some
            &&& forall|j: int| 0 <= j < after.len() && j != i ==> after[j] == before[j]
        },
        None => {
            &&& index == before.len()
            &&& after == before.push(BenchModel { tag, history: seq![], start: after[index].start })
            &&& after[index].start is Some
        },
    }
}

/// Starts a benchmark timing with the given `tag`.  You must
/// [`end`](struct.Handle.html#method.end) the returned handle to complete the timing.
pub fn start(bench: &mut BenchSet, tag: &str) -> (h: Handle)
    ensures
        started(old(bench)@, final(bench)@, tag@, h.index() as int),
{
    bench.start(tag)
}

fn end(bench: &mut BenchSet, handle: Handle)
    requires
        handle.index() < old(bench)@.len(),
    ensures
        ended(old(bench)@, final(bench)@, handle.index() as int),
{
    bench.finish(handle.index);
}

/// Runs `block` as a benchmark timing with the given `tag`, and returns what it returns.
pub fn run<Ret, F: FnOnce() -> Ret>(bench: &mut BenchSet, tag: &str, block: F) -> (r: Ret)
    requires
        block.requires(()),
    ensures
        block.ensures((), r),
        exists|mid: Seq<BenchModel>, i: int|
            started(old(bench)@, mid, tag@, i) && ended(mid, final(bench)@, i),
{
    let handle = start(bench, tag);
    let ghost mid = bench@;
    let ghost i = handle.index() as int;
    let ret = block();
    end(bench, handle);
    proof {
        assert(started(old(bench)@, mid, tag@, i) && ended(mid, bench@, i));
    }
    ret
}

/// A unit in which benchmark statistics are reported.
#[derive(Copy, Clone, Debug, PartialEq, Eq, Structural)]
pub enum Unit {
    Seconds,
    Millis,
    Micros,
}

impl Unit {
    /// The suffix written after a value in this unit.
    pub fn postfix(self) -> (r: &'static str)
        ensures
            r@ == match self {
                Unit::Seconds => "s"@,
                Unit::Millis => "ms"@,
                Unit::Micros => "µs"@,
            },
    {
        match self {
            Unit::Seconds => "s",
            Unit::Millis => "ms",
            Unit::Micros => "µs",
        }
    }
}

} // verus!
