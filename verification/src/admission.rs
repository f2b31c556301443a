//! How many tasks may run at once: a budget from the machine's memory and
//! load, and permits that are taken from it by weight.
use crate::text;
use crate::views;
use vstd::prelude::*;

verus! {

broadcast use {views::texts_push, views::pieces_push};

/// How many inputs make a task one unit heavier.
pub const INPUTS_PER_WEIGHT: usize = 512;

/// The larger of two numbers.
pub open spec fn at_least(a: int, b: int) -> int {
    if a < b {
        b
    } else {
        a
    }
}

/// A budget between one and the cap: the cap with enough memory, one with too
/// little, and in proportion between the two bounds.
pub open spec fn memory_budget(cap: int, avail: int, reserve: int, full: int) -> int {
    if cap <= 1 || full <= reserve {
        at_least(cap, 1)
    } else if avail >= full {
        cap
    } else if avail <= reserve {
        1
    } else {
        1 + (cap - 1) * (avail - reserve) / (full - reserve)
    }
}

/// A proportion of the cap stays below it.
proof fn proportion(cap: int, over: int, spread: int)
    requires
        cap >= 1,
        0 <= over < spread,
    ensures
        0 <= (cap - 1) * over / spread <= cap - 1,
        0 <= (cap - 1) * over,
{
    assert(0 <= (cap - 1) * over <= (cap - 1) * spread) by (nonlinear_arith)
        requires
            cap >= 1,
            0 <= over < spread,
    ;
    assert((cap - 1) * over / spread <= (cap - 1) && 0 <= (cap - 1) * over / spread)
        by (nonlinear_arith)
        requires
            0 <= (cap - 1) * over <= (cap - 1) * spread,
            spread > 0,
    ;
}

/// The budget that the available memory allows.
pub fn budget_for_memory(cap: usize, avail_gib: u64, reserve_gib: u64, full_gib: u64) -> (r: usize)
    ensures
        r == memory_budget(cap as int, avail_gib as int, reserve_gib as int, full_gib as int),
        1 <= r <= at_least(cap as int, 1),
{
    if cap <= 1 || full_gib <= reserve_gib {
        return if cap < 1 {
            1
        } else {
            cap
        };
    }
    if avail_gib >= full_gib {
        return cap;
    }
    if avail_gib <= reserve_gib {
        return 1;
    }
    let spread: u64 = full_gib - reserve_gib;
    let over: u64 = avail_gib - reserve_gib;
    proof {
        proportion(cap as int, over as int, spread as int);
        assert((cap - 1) * over <= u64::MAX * u64::MAX) by (nonlinear_arith)
            requires
                0 <= cap - 1 <= u64::MAX,
                0 <= over <= u64::MAX,
        ;
        assert(u64::MAX as int * u64::MAX as int <= u128::MAX as int) by (nonlinear_arith);
    }
    let scaled: u128 = (cap as u128 - 1) * over as u128 / spread as u128;
    1 + scaled as usize
}

/// The budget that the load allows: everything below the limit, one task above it.
pub fn budget_for_load(cap: usize, over_limit: bool) -> (r: usize)
    ensures
        r == if over_limit {
            1
        } else {
            at_least(cap as int, 1)
        },
{
    if over_limit || cap < 1 {
        1
    } else {
        cap
    }
}

/// The weight of a task: one, and one more for every so many inputs, within the budget.
pub open spec fn weight_of(inputs: int, budget: int) -> int {
    let w = 1 + inputs / 512;
    if w > at_least(budget, 1) {
        at_least(budget, 1)
    } else {
        w
    }
}

/// The weight of a task.
pub fn admission_weight(inputs: usize, budget: usize) -> (r: usize)
    ensures
        r == weight_of(inputs as int, budget as int),
        1 <= r <= at_least(budget as int, 1),
{
    let w: usize = 1 + inputs / INPUTS_PER_WEIGHT;
    let top: usize = if budget < 1 {
        1
    } else {
        budget
    };
    if w > top {
        top
    } else {
        w
    }
}

// ---------------------------------------------------------------------------
// Permits
// ---------------------------------------------------------------------------

/// Permits for concurrent tasks: the cap, and the weight of the tasks that run.
#[derive(Debug)]
pub struct JobPermits {
    pub cap: usize,
    pub count: usize,
}

/// A weight as it counts: at least one, at most the whole cap.
pub open spec fn counted_weight(cap: int, weight: int) -> int {
    if weight < 1 {
        1
    } else if weight > at_least(cap, 1) {
        at_least(cap, 1)
    } else {
        weight
    }
}

/// What the machine says when a task asks for a permit.
#[derive(Debug, Clone, Copy)]
pub struct Readings {
    /// The memory that is available.
    pub avail_gib: u64,
    /// At this much, one task runs alone.
    pub reserve_gib: u64,
    /// At this much, memory does not matter.
    pub full_gib: u64,
    /// The load has reached its limit.
    pub over_limit: bool,
}

/// The budget under some readings.
pub open spec fn budget_under(cap: int, r: Readings) -> int {
    let m = memory_budget(cap, r.avail_gib as int, r.reserve_gib as int, r.full_gib as int);
    if r.over_limit {
        1
    } else {
        m
    }
}

impl JobPermits {
    /// Never more weight than the cap is out.
    pub open spec fn wf(&self) -> bool {
        self.count <= at_least(self.cap as int, 1)
    }

    /// No task runs.
    pub fn new(cap: usize) -> (r: JobPermits)
        ensures
            r.cap == cap,
            r.count == 0,
            r.wf(),
    {
        JobPermits { cap, count: 0 }
    }

    /// The weight at which a task counts.
    pub fn counted(&self, weight: usize) -> (r: usize)
        ensures
            r == counted_weight(self.cap as int, weight as int),
            1 <= r <= at_least(self.cap as int, 1),
    {
        let top: usize = if self.cap < 1 {
            1
        } else {
            self.cap
        };
        if weight < 1 {
            1
        } else if weight > top {
            top
        } else {
            weight
        }
    }

    /// Takes a permit where the budget has room, or where nothing runs, and
    /// tells whether it did. A task that finds no room waits and asks again.
    pub fn try_acquire(&mut self, weight: usize, budget: usize) -> (taken: Option<usize>)
        requires
            old(self).wf(),
            budget <= at_least(old(self).cap as int, 1),
        ensures
            final(self).wf(),
            final(self).cap == old(self).cap,
            match taken {
                Some(w) => w == counted_weight(old(self).cap as int, weight as int) && (
                old(self).count == 0 || old(self).count + w <= budget) && final(self).count == old(
                    self,
                ).count + w,
                None => old(self).count > 0 && old(self).count + counted_weight(
                    old(self).cap as int,
                    weight as int,
                ) > budget && final(self).count == old(self).count,
            },
    {
        let w = self.counted(weight);
        if self.count == 0 {
            self.count = w;
            Some(w)
        } else if w <= budget && self.count <= budget - w {
            self.count = self.count + w;
            Some(w)
        } else {
            None
        }
    }

    /// Asks for a permit under the readings of the machine: the budget is the
    /// smaller of those that memory and load allow. A task that gets none waits
    /// and asks again.
    pub fn acquire_weighted(&mut self, weight: usize, readings: &Readings) -> (taken: Option<usize>)
        requires
            old(self).wf(),
        ensures
            final(self).wf(),
            final(self).cap == old(self).cap,
            ({
                let w = counted_weight(old(self).cap as int, weight as int);
                let budget = budget_under(old(self).cap as int, *readings);
                if old(self).count == 0 || old(self).count + w <= budget {
                    taken is Some && taken->0 == w && final(self).count == old(self).count + w
                } else {
                    taken is None && final(self).count == old(self).count
                }
            }),
    {
        let m = budget_for_memory(
            self.cap,
            readings.avail_gib,
            readings.reserve_gib,
            readings.full_gib,
        );
        let l = budget_for_load(self.cap, readings.over_limit);
        let budget: usize = if m < l {
            m
        } else {
            l
        };
        self.try_acquire(weight, budget)
    }

    /// Gives a permit back.
    pub fn release(&mut self, weight: usize)
        requires
            old(self).wf(),
        ensures
            final(self).wf(),
            final(self).cap == old(self).cap,
            final(self).count == at_least(old(self).count - weight, 0),
    {
        if self.count >= weight {
            self.count = self.count - weight;
        } else {
            self.count = 0;
        }
    }
}

/// The pools with a bound.
pub open spec fn bounded_pools(depths: Seq<(Seq<char>, usize)>) -> Seq<(Seq<char>, usize)>
    decreases depths.len(),
{
    if depths.len() == 0 {
        Seq::empty()
    } else if depths.last().1 > 0 {
        bounded_pools(depths.drop_last()).push(depths.last())
    } else {
        bounded_pools(depths.drop_last())
    }
}

/// Names with numbers.
pub open spec fn named_depths(v: Seq<(String, usize)>) -> Seq<(Seq<char>, usize)> {
    v.map_values(|p: (String, usize)| (p.0@, p.1))
}

/// Names with permits: the cap of each, and whether all of it is there.
pub open spec fn named_permits(v: Seq<(String, JobPermits)>) -> Seq<(Seq<char>, usize)> {
    v.map_values(|p: (String, JobPermits)| (p.0@, p.1.cap))
}

/// Permits for the pools of the build file. Depth zero means no bound and gets
/// none: permits of cap zero would let nothing run.
pub fn pool_permits_from_depths(depths: &Vec<(String, usize)>) -> (r: Vec<(String, JobPermits)>)
    ensures
        named_permits(r@) == bounded_pools(named_depths(depths@)),
        forall|i: int| 0 <= i < r@.len() ==> (#[trigger] r@[i]).1.count == 0 && r@[i].1.cap > 0,
{
    let ghost all = named_depths(depths@);
    let mut out: Vec<(String, JobPermits)> = Vec::new();
    assert(named_permits(out@) =~= bounded_pools(all.take(0)));
    for i in 0..depths.len()
        invariant
            all == named_depths(depths@),
            named_permits(out@) == bounded_pools(all.take(i as int)),
            forall|j: int|
                0 <= j < out@.len() ==> (#[trigger] out@[j]).1.count == 0 && out@[j].1.cap > 0,
    {
        assert(all.take(i + 1).drop_last() =~= all.take(i as int));
        assert(all.take(i + 1).last() == (depths@[i as int].0@, depths@[i as int].1));
        if depths[i].1 > 0 {
            let ghost before = out@;
            out.push((depths[i].0.clone(), JobPermits::new(depths[i].1)));
            assert(named_permits(out@) =~= named_permits(before).push(
                (depths@[i as int].0@, depths@[i as int].1),
            ));
        }
    }
    assert(all.take(all.len() as int) =~= all);
    out
}

// ---------------------------------------------------------------------------
// Readings
// ---------------------------------------------------------------------------

/// The number in the second word of the first line with a given start.
pub open spec fn line_value(ls: Seq<Seq<char>>, key: Seq<char>) -> Option<u64>
    decreases ls.len(),
{
    if ls.len() == 0 {
        None
    } else if key.is_prefix_of(ls[0]) {
        let ws = text::words(ls[0]);
        if ws.len() >= 2 {
            text::parse_u64(ws[1])
        } else {
            None
        }
    } else {
        line_value(ls.drop_first(), key)
    }
}

/// A number that the kernel's memory report gives in kibibytes.
fn report_value(report: &str, key: &str) -> (r: Option<u64>)
    ensures
        r == line_value(text::lines(report@), key@),
{
    let c = text::chars_of(report);
    let ls = text::lines_of(&c);
    let ghost all = views::pieces(ls@);
    assert(all.skip(0) =~= all);
    for i in 0..ls.len()
        invariant
            all == views::pieces(ls@),
            all == text::lines(report@),
            line_value(all, key@) == line_value(all.skip(i as int), key@),
    {
        assert(all.skip(i as int)[0] == ls@[i as int]@);
        assert(all.skip(i as int).drop_first() =~= all.skip(i + 1));
        if text::starts_lit(&ls[i], key) {
            let ws = text::words_of(&ls[i]);
            assert(views::pieces(ws@).len() == ws@.len());
            if ws.len() >= 2 {
                assert(views::pieces(ws@)[1] == ws@[1]@);
                return text::read_u64(&ws[1]);
            }
            return None;
        }
    }
    None
}

/// The machine's memory in gibibytes; zero where the report does not say.
pub open spec fn total_gib(report: Option<Seq<char>>) -> u64 {
    match report {
        Some(s) => match line_value(text::lines(s), "MemTotal:"@) {
            Some(kib) => kib / 1048576,
            None => 0,
        },
        None => 0,
    }
}

/// The bounds between which the budget tapers: a fifth and a half of the
/// machine's memory, given the kernel's report where it can be read.
pub fn memory_bounds_gib(report: Option<&str>) -> (r: (u64, u64))
    ensures
        r.0 == total_gib(views::opt_str(report)) / 5,
        r.1 == total_gib(views::opt_str(report)) / 2,
        r.0 <= r.1,
{
    let total: u64 = match report {
        Some(s) => match report_value(s, "MemTotal:") {
            Some(kib) => kib / 1048576,
            None => 0,
        },
        None => 0,
    };
    (total / 5, total / 2)
}

/// The available memory in gibibytes; unlimited where the report does not say.
pub open spec fn free_gib(report: Option<Seq<char>>) -> u64 {
    match report {
        Some(s) => match line_value(text::lines(s), "MemAvailable:"@) {
            Some(kib) => kib / 1048576,
            None => u64::MAX,
        },
        None => u64::MAX,
    }
}

/// The available memory in gibibytes, given the kernel's report where it can be read.
pub fn available_gib(report: Option<&str>) -> (r: u64)
    ensures
        r == free_gib(views::opt_str(report)),
{
    match report {
        Some(s) => match report_value(s, "MemAvailable:") {
            Some(kib) => kib / 1048576,
            None => u64::MAX,
        },
        None => u64::MAX,
    }
}

// ---------------------------------------------------------------------------
// Laws
// ---------------------------------------------------------------------------

/// Every budget lies between one and the cap.
pub proof fn budget_within_cap(cap: int, avail: int, reserve: int, full: int)
    requires
        0 <= cap,
    ensures
        1 <= memory_budget(cap, avail, reserve, full) <= at_least(cap, 1),
{
    if cap > 1 && full > reserve && reserve < avail < full {
        proportion(cap, avail - reserve, full - reserve);
    }
}

/// More memory never means a smaller budget.
pub proof fn budget_grows_with_memory(cap: int, a: int, b: int, reserve: int, full: int)
    requires
        0 <= cap,
        a <= b,
    ensures
        memory_budget(cap, a, reserve, full) <= memory_budget(cap, b, reserve, full),
{
    budget_within_cap(cap, a, reserve, full);
    budget_within_cap(cap, b, reserve, full);
    if cap > 1 && full > reserve && reserve < a && b < full {
        assert((cap - 1) * (a - reserve) / (full - reserve) <= (cap - 1) * (b - reserve) / (full
            - reserve)) by (nonlinear_arith)
            requires
                cap > 1,
                a <= b,
                full > reserve,
        ;
    }
}

/// Heavier tasks weigh more, and none weighs nothing or more than the budget.
pub proof fn weight_grows_with_inputs(a: int, b: int, budget: int)
    requires
        0 <= a <= b,
    ensures
        1 <= weight_of(a, budget) <= weight_of(b, budget) <= at_least(budget, 1),
{
}

/// A permit taken and given back leaves the count as it was.
pub proof fn release_undoes_acquire(count: int, weight: int)
    requires
        0 <= count,
        0 <= weight,
    ensures
        at_least((count + weight) - weight, 0) == count,
{
}

/// A machine that does not say how much memory it has never throttles a run.
pub proof fn unknown_memory_never_throttles(cap: int)
    requires
        0 <= cap,
    ensures
        memory_budget(
            cap,
            free_gib(None) as int,
            (total_gib(None) / 5) as int,
            (total_gib(None) / 2) as int,
        ) == at_least(cap, 1),
{
}

/// Between its bounds a budget is in proportion to the memory: one less than it
/// stands to one less than the cap as the memory above the reserve stands to the
/// whole span, rounded down. At the upper bound it is the cap, at the lower one.
pub proof fn budgets_are_in_proportion(cap: int, avail: int, reserve: int, full: int)
    requires
        cap > 1,
        reserve < full,
    ensures
        avail >= full ==> memory_budget(cap, avail, reserve, full) == cap,
        avail <= reserve ==> memory_budget(cap, avail, reserve, full) == 1,
        reserve < avail < full ==> {
            let b = memory_budget(cap, avail, reserve, full);
            (b - 1) * (full - reserve) <= (cap - 1) * (avail - reserve) < b * (full - reserve)
        },
{
    if reserve < avail < full {
        let d = full - reserve;
        let x = (cap - 1) * (avail - reserve);
        let q = x / d;
        assert(x == d * q + x % d && 0 <= x % d < d) by (nonlinear_arith)
            requires
                d > 0,
                q == x / d,
        ;
        assert(q * d == d * q) by (nonlinear_arith);
        assert((q + 1) * d == d * q + d) by (nonlinear_arith);
    }
}

/// A cap of one, or bounds that leave no span, leave the cap; no budget is less
/// than one.
pub proof fn budgets_without_a_span_are_the_cap(cap: int, avail: int, reserve: int, full: int)
    requires
        cap <= 1 || full <= reserve,
    ensures
        cap >= 1 ==> memory_budget(cap, avail, reserve, full) == cap,
        cap < 1 ==> memory_budget(cap, avail, reserve, full) == 1,
{
}

/// Every 512 inputs weigh one more, up to the budget; a task without inputs weighs
/// one.
pub proof fn inputs_weigh(k: int, r: int, budget: int)
    requires
        0 <= k,
        0 <= r < 512,
    ensures
        k < budget ==> weight_of(512 * k + r, budget) == k + 1,
        k >= budget && budget >= 1 ==> weight_of(512 * k + r, budget) == budget,
        budget < 1 ==> weight_of(512 * k + r, budget) == 1,
{
}

/// A weight counts as it is between one and the cap.
pub proof fn weights_count_within_the_cap(cap: int, weight: int)
    ensures
        1 <= weight <= cap ==> counted_weight(cap, weight) == weight,
        weight < 1 ==> counted_weight(cap, weight) == 1,
        weight > cap && cap >= 1 ==> counted_weight(cap, weight) == cap,
        cap < 1 ==> counted_weight(cap, weight) == 1,
{
}

/// Too much load leaves room for one; else the memory alone decides.
pub proof fn load_leaves_one(cap: int, r: Readings)
    ensures
        r.over_limit ==> budget_under(cap, r) == 1,
        !r.over_limit ==> budget_under(cap, r) == memory_budget(
            cap,
            r.avail_gib as int,
            r.reserve_gib as int,
            r.full_gib as int,
        ),
{
}

/// Pools without a depth have no bound; all others keep theirs, in their order.
pub proof fn pools_keep_their_depth(
    a: Seq<(Seq<char>, usize)>,
    p: (Seq<char>, usize),
    b: Seq<(Seq<char>, usize)>,
)
    ensures
        bounded_pools(a + b) == bounded_pools(a) + bounded_pools(b),
        bounded_pools(seq![p]) == if p.1 > 0 {
            seq![p]
        } else {
            Seq::<(Seq<char>, usize)>::empty()
        },
    decreases b.len(),
{
    reveal_with_fuel(bounded_pools, 2);
    assert(seq![p].drop_last() =~= Seq::<(Seq<char>, usize)>::empty());
    assert(bounded_pools(seq![p]) =~= if p.1 > 0 {
        seq![p]
    } else {
        Seq::<(Seq<char>, usize)>::empty()
    });
    if b.len() == 0 {
        assert(a + b =~= a);
        assert(bounded_pools(a) + bounded_pools(b) =~= bounded_pools(a));
    } else {
        pools_keep_their_depth(a, p, b.drop_last());
        assert((a + b).drop_last() =~= a + b.drop_last());
        assert((a + b).last() == b.last());
        assert(bounded_pools(a + b) =~= bounded_pools(a) + bounded_pools(b));
    }
}

/// The first line with a given start says the number: its second word.
pub proof fn the_first_line_says_the_number(
    a: Seq<Seq<char>>,
    key: Seq<char>,
    gap: char,
    number: Seq<char>,
    rest: Seq<char>,
    b: Seq<Seq<char>>,
)
    requires
        forall|i: int| 0 <= i < a.len() ==> !key.is_prefix_of(#[trigger] a[i]),
        key.len() > 0,
        forall|i: int| 0 <= i < key.len() ==> !text::is_space(#[trigger] key[i]),
        text::is_space(gap),
        number.len() > 0,
        forall|i: int| 0 <= i < number.len() ==> !text::is_space(#[trigger] number[i]),
        rest.len() > 0 ==> text::is_space(rest[0]),
    ensures
        line_value(a, key) is None,
        line_value(a + seq![key + seq![gap] + (number + rest)] + b, key) == text::parse_u64(number),
    decreases a.len(),
{
    let l = key + seq![gap] + (number + rest);
    let s = a + seq![l] + b;
    if a.len() == 0 {
        assert(s[0] == l);
        assert(l.subrange(0, key.len() as int) =~= key);
        assert(key.is_prefix_of(l));
        text::words_are_set_apart(key, gap, number + rest);
        text::one_word(key);
        text::word_is_listed(Seq::empty(), number, rest);
        text::one_word(Seq::empty());
        assert(Seq::<char>::empty() + number + rest =~= number + rest);
        let ws = text::words(l);
        assert(ws[1] == number);
    } else {
        let f = a.drop_first();
        assert forall|i: int| 0 <= i < f.len() implies !key.is_prefix_of(#[trigger] f[i]) by {
            assert(f[i] == a[i + 1]);
        }
        the_first_line_says_the_number(f, key, gap, number, rest, b);
        assert(s[0] == a[0]);
        assert(s.drop_first() =~= f + seq![l] + b);
    }
}

/// Memory is told in gibibytes, rounded down. What the report does not say counts
/// as no memory at all, and as no limit to what is available.
pub proof fn memory_is_told_in_gibibytes(s: Seq<char>, kib: u64)
    ensures
        line_value(text::lines(s), "MemTotal:"@) == Some(kib) ==> total_gib(Some(s)) as int
            * 1048576 <= kib < (total_gib(Some(s)) as int + 1) * 1048576,
        line_value(text::lines(s), "MemAvailable:"@) == Some(kib) ==> free_gib(Some(s)) as int
            * 1048576 <= kib < (free_gib(Some(s)) as int + 1) * 1048576,
        line_value(text::lines(s), "MemTotal:"@) is None ==> total_gib(Some(s)) == 0,
        line_value(text::lines(s), "MemAvailable:"@) is None ==> free_gib(Some(s)) == u64::MAX,
        total_gib(None) == 0,
        free_gib(None) == u64::MAX,
{
}

} // verus!
