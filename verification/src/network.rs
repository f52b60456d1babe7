use vstd::prelude::*;

verus! {

/// One reading of an interface's cumulative byte counters.
pub struct NetSample {
    pub name: String,
    pub rx: u64,
    pub tx: u64,
}

/// What one reading of an interface reports: its cumulative counters
/// and how many bytes each counter grew since the previous reading.
pub struct NetDelta {
    pub name: String,
    pub rx_bytes: u64,
    pub tx_bytes: u64,
    pub rx_delta: u64,
    pub tx_delta: u64,
}

/// A sample as plain values: (name, received, transmitted).
pub type SampleView = (Seq<char>, u64, u64);

/// A report as plain values: (name, received, transmitted, received
/// since last reading, transmitted since last reading).
pub type DeltaView = (Seq<char>, u64, u64, u64, u64);

/// Last known counters of each interface, by name.
pub type CounterMap = Map<Seq<char>, (u64, u64)>;

impl View for NetSample {
    type V = SampleView;

    open spec fn view(&self) -> SampleView {
        (self.name@, self.rx, self.tx)
    }
}

impl View for NetDelta {
    type V = DeltaView;

    open spec fn view(&self) -> DeltaView {
        (self.name@, self.rx_bytes, self.tx_bytes, self.rx_delta, self.tx_delta)
    }
}

pub open spec fn sample_views(s: Seq<NetSample>) -> Seq<SampleView> {
    s.map_values(|x: NetSample| x@)
}

pub open spec fn delta_views(s: Seq<NetDelta>) -> Seq<DeltaView> {
    s.map_values(|x: NetDelta| x@)
}

/// `a - b`, or 0 when `b` exceeds `a` (a counter that went back).
pub open spec fn sat_sub(a: u64, b: u64) -> u64 {
    if a >= b {
        (a - b) as u64
    } else {
        0
    }
}

/// The counters after recording every sample of `s` in order.
pub open spec fn counters_after(m: CounterMap, s: Seq<SampleView>) -> CounterMap
    decreases s.len(),
{
    if s.len() == 0 {
        m
    } else {
        counters_after(m, s.drop_last()).insert(s.last().0, (s.last().1, s.last().2))
    }
}

/// The report of sample `x` against the counters `m` recorded so far:
/// growth since the recorded reading, or none for an interface not seen before.
pub open spec fn delta_of(m: CounterMap, x: SampleView) -> DeltaView {
    let prev = if m.contains_key(x.0) {
        m[x.0]
    } else {
        (x.1, x.2)
    };
    (x.0, x.1, x.2, sat_sub(x.1, prev.0), sat_sub(x.2, prev.1))
}

/// Whether an interface has moved any traffic at all.
pub open spec fn is_active(x: SampleView) -> bool {
    x.1 > 0 || x.2 > 0
}

/// The reports of the samples of `s`, in order, each taken against the
/// counters recorded before it; interfaces with no traffic are left out.
pub open spec fn net_report(m: CounterMap, s: Seq<SampleView>) -> Seq<DeltaView>
    decreases s.len(),
{
    if s.len() == 0 {
        Seq::empty()
    } else {
        let prior = net_report(m, s.drop_last());
        let x = s.last();
        if is_active(x) {
            prior.push(delta_of(counters_after(m, s.drop_last()), x))
        } else {
            prior
        }
    }
}

/// Whether no two samples of `s` name the same interface.
pub open spec fn distinct_samples(s: Seq<SampleView>) -> bool {
    forall|i: int, j: int| 0 <= i < s.len() && 0 <= j < s.len() && i != j ==> s[i].0 != s[j].0
}

/// After a reading in which every interface appears once, the counters
/// hold that reading for each of them and are unchanged for the others.
pub proof fn lemma_counters_hold_latest(m: CounterMap, s: Seq<SampleView>)
    requires
        distinct_samples(s),
    ensures
        forall|i: int| 0 <= i < s.len() ==> #[trigger] counters_after(m, s).contains_key(s[i].0)
            && counters_after(m, s)[s[i].0] == (s[i].1, s[i].2),
        forall|k: Seq<char>| (forall|i: int| 0 <= i < s.len() ==> s[i].0 != k) ==> (
            #[trigger] counters_after(m, s).contains_key(k) == m.contains_key(k) && (m.contains_key(k)
                ==> counters_after(m, s)[k] == m[k])),
    decreases s.len(),
{
    if s.len() > 0 {
        let p = s.drop_last();
        let last = s.len() - 1;
        assert(distinct_samples(p));
        lemma_counters_hold_latest(m, p);
        assert forall|i: int| 0 <= i < s.len() implies #[trigger] counters_after(m, s).contains_key(s[i].0)
            && counters_after(m, s)[s[i].0] == (s[i].1, s[i].2) by {
            if i < last {
                assert(p[i] == s[i]);
                assert(counters_after(m, p).contains_key(p[i].0));
                assert(s[i].0 != s[last].0);
            }
        }
        assert forall|k: Seq<char>| (forall|i: int| 0 <= i < s.len() ==> s[i].0 != k) implies (
            #[trigger] counters_after(m, s).contains_key(k) == m.contains_key(k) && (m.contains_key(k)
                ==> counters_after(m, s)[k] == m[k])) by {
            assert(s[last].0 != k);
            assert forall|i: int| 0 <= i < p.len() implies p[i].0 != k by {
                assert(p[i] == s[i]);
            }
            assert(counters_after(m, p).contains_key(k) == m.contains_key(k));
        }
    }
}

/// Reading the same counters twice in a row: when the counters already
/// hold every sample's reading, no interface reports any growth.
pub proof fn lemma_unchanged_reading_reports_no_growth(m: CounterMap, s: Seq<SampleView>)
    requires
        distinct_samples(s),
        forall|i: int| 0 <= i < s.len() ==> #[trigger] m.contains_key(s[i].0) && m[s[i].0] == (
            s[i].1, s[i].2),
    ensures
        forall|j: int| 0 <= j < net_report(m, s).len() ==> #[trigger] net_report(m, s)[j].3 == 0
            && net_report(m, s)[j].4 == 0,
    decreases s.len(),
{
    if s.len() > 0 {
        let p = s.drop_last();
        let last = s.len() - 1;
        assert(distinct_samples(p));
        assert forall|i: int| 0 <= i < p.len() implies #[trigger] m.contains_key(p[i].0) && m[p[i].0]
            == (p[i].1, p[i].2) by {
            assert(p[i] == s[i]);
        }
        lemma_unchanged_reading_reports_no_growth(m, p);
        lemma_counters_hold_latest(m, p);
        assert forall|i: int| 0 <= i < p.len() implies p[i].0 != s[last].0 by {
            assert(p[i] == s[i]);
        }
        assert(m.contains_key(s[last].0));
        let c = counters_after(m, p);
        assert(c.contains_key(s[last].0) == m.contains_key(s[last].0));
        assert(c.contains_key(s[last].0) && c[s[last].0] == (s[last].1, s[last].2));
        let prior = net_report(m, p);
        assert forall|j: int| 0 <= j < net_report(m, s).len() implies #[trigger] net_report(m, s)[j].3
            == 0 && net_report(m, s)[j].4 == 0 by {
            if j < prior.len() {
                assert(net_report(m, s)[j] == prior[j]);
                assert(prior[j].3 == 0);
            }
        }
    }
}

/// Taking the same reading twice: the second time every reported
/// interface shows no growth, whatever the counters held before.
pub proof fn lemma_repeated_reading_reports_no_growth(m: CounterMap, s: Seq<SampleView>)
    requires
        distinct_samples(s),
    ensures
        forall|j: int| 0 <= j < net_report(counters_after(m, s), s).len()
            ==> #[trigger] net_report(counters_after(m, s), s)[j].3 == 0
            && net_report(counters_after(m, s), s)[j].4 == 0,
{
    let c = counters_after(m, s);
    lemma_counters_hold_latest(m, s);
    assert forall|i: int| 0 <= i < s.len() implies #[trigger] c.contains_key(s[i].0) && c[s[i].0] == (
        s[i].1, s[i].2) by {
        assert(counters_after(m, s).contains_key(s[i].0));
    }
    lemma_unchanged_reading_reports_no_growth(c, s);
}

/// Which interfaces a reading lists: exactly the samples with some
/// nonzero counter (received or transmitted), in sample order, each with
/// its own name and counters; and no reported counter grew by more than
/// the counter itself.
pub proof fn lemma_report_lists_interfaces_with_traffic(m: CounterMap, s: Seq<SampleView>)
    ensures
        net_report(m, s).len() == s.filter(|x: SampleView| x.1 > 0 || x.2 > 0).len(),
        forall|k: int| 0 <= k < net_report(m, s).len() ==> {
            let r = #[trigger] net_report(m, s)[k];
            let x = s.filter(|x: SampleView| x.1 > 0 || x.2 > 0)[k];
            &&& r.0 == x.0
            &&& r.1 == x.1
            &&& r.2 == x.2
            &&& r.3 <= r.1
            &&& r.4 <= r.2
        },
    decreases s.len(),
{
    let pred = |x: SampleView| x.1 > 0 || x.2 > 0;
    reveal_with_fuel(Seq::<_>::filter, 1);
    if s.len() == 0 {
        assert(s.filter(pred) =~= s);
    } else {
        let p = s.drop_last();
        lemma_report_lists_interfaces_with_traffic(m, p);
        let prior = net_report(m, p);
        let fp = p.filter(pred);
        assert(s.filter(pred) == if pred(s.last()) { fp.push(s.last()) } else { fp });
        assert forall|k: int| 0 <= k < net_report(m, s).len() implies {
            let r = #[trigger] net_report(m, s)[k];
            let x = s.filter(pred)[k];
            &&& r.0 == x.0
            &&& r.1 == x.1
            &&& r.2 == x.2
            &&& r.3 <= r.1
            &&& r.4 <= r.2
        } by {
            if k < prior.len() {
                assert(net_report(m, s)[k] == prior[k]);
                assert(s.filter(pred)[k] == fp[k]);
                assert(prior[k] == net_report(m, p)[k]);
            }
        }
    }
}

/// An interface read for the first time reports no growth: on counters
/// that know none of the interfaces, every listed interface shows zero
/// bytes since the previous reading.
pub proof fn lemma_first_reading_reports_no_growth(m: CounterMap, s: Seq<SampleView>)
    requires
        distinct_samples(s),
        forall|i: int| 0 <= i < s.len() ==> !(#[trigger] m.contains_key(s[i].0)),
    ensures
        forall|k: int| 0 <= k < net_report(m, s).len() ==> #[trigger] net_report(m, s)[k].3 == 0
            && net_report(m, s)[k].4 == 0,
    decreases s.len(),
{
    if s.len() > 0 {
        let p = s.drop_last();
        let last = s.len() - 1;
        assert(distinct_samples(p));
        assert forall|i: int| 0 <= i < p.len() implies !(#[trigger] m.contains_key(p[i].0)) by {
            assert(p[i] == s[i]);
        }
        lemma_first_reading_reports_no_growth(m, p);
        lemma_counters_hold_latest(m, p);
        assert forall|i: int| 0 <= i < p.len() implies p[i].0 != s[last].0 by {
            assert(p[i] == s[i]);
        }
        assert(!m.contains_key(s[last].0));
        assert(!counters_after(m, p).contains_key(s[last].0));
        let prior = net_report(m, p);
        assert forall|k: int| 0 <= k < net_report(m, s).len() implies #[trigger] net_report(m, s)[k].3
            == 0 && net_report(m, s)[k].4 == 0 by {
            if k < prior.len() {
                assert(net_report(m, s)[k] == prior[k]);
                assert(prior[k].3 == 0);
            }
        }
    }
}

/// Growth between two readings: when the counters hold `before` and the
/// next reading `after` has the same interfaces in the same order, each
/// with some traffic, every interface is reported once, in order, with its
/// new counters and by how much each counter grew since `before` (nothing
/// for a counter that went back).
pub proof fn lemma_growth_between_readings(c: CounterMap, before: Seq<SampleView>, after: Seq<SampleView>)
    requires
        distinct_samples(after),
        before.len() == after.len(),
        forall|i: int| 0 <= i < after.len() ==> #[trigger] before[i].0 == after[i].0,
        forall|i: int| 0 <= i < after.len() ==> #[trigger] c.contains_key(after[i].0) && c[after[i].0]
            == (before[i].1, before[i].2),
        forall|i: int| 0 <= i < after.len() ==> #[trigger] after[i].1 > 0 || after[i].2 > 0,
    ensures
        net_report(c, after).len() == after.len(),
        forall|k: int| 0 <= k < after.len() ==> #[trigger] net_report(c, after)[k] == (
            after[k].0,
            after[k].1,
            after[k].2,
            (if after[k].1 >= before[k].1 { after[k].1 - before[k].1 } else { 0 }) as u64,
            (if after[k].2 >= before[k].2 { after[k].2 - before[k].2 } else { 0 }) as u64,
        ),
    decreases after.len(),
{
    if after.len() > 0 {
        let p = after.drop_last();
        let bp = before.drop_last();
        let last = after.len() - 1;
        assert(distinct_samples(p));
        assert forall|i: int| 0 <= i < p.len() implies #[trigger] bp[i].0 == p[i].0 by {
            assert(p[i] == after[i] && bp[i] == before[i]);
        }
        assert forall|i: int| 0 <= i < p.len() implies #[trigger] c.contains_key(p[i].0) && c[p[i].0]
            == (bp[i].1, bp[i].2) by {
            assert(p[i] == after[i] && bp[i] == before[i]);
        }
        assert forall|i: int| 0 <= i < p.len() implies #[trigger] p[i].1 > 0 || p[i].2 > 0 by {
            assert(p[i] == after[i]);
        }
        lemma_growth_between_readings(c, bp, p);
        lemma_counters_hold_latest(c, p);
        assert forall|i: int| 0 <= i < p.len() implies p[i].0 != after[last].0 by {
            assert(p[i] == after[i]);
        }
        assert(c.contains_key(after[last].0));
        assert(counters_after(c, p).contains_key(after[last].0) == c.contains_key(after[last].0));
        let prior = net_report(c, p);
        assert forall|k: int| 0 <= k < after.len() implies #[trigger] net_report(c, after)[k] == (
            after[k].0,
            after[k].1,
            after[k].2,
            (if after[k].1 >= before[k].1 { after[k].1 - before[k].1 } else { 0 }) as u64,
            (if after[k].2 >= before[k].2 { after[k].2 - before[k].2 } else { 0 }) as u64,
        ) by {
            if k < last {
                assert(net_report(c, after)[k] == prior[k]);
                assert(p[k] == after[k] && bp[k] == before[k]);
                assert(prior[k] == net_report(c, p)[k]);
            }
        }
    }
}

/// Two consecutive readings of the same interfaces, each with some traffic
/// in the second: the second reports, in order, each interface's new
/// counters and how much each grew since the first reading.
pub proof fn lemma_two_readings(m: CounterMap, before: Seq<SampleView>, after: Seq<SampleView>)
    requires
        distinct_samples(after),
        before.len() == after.len(),
        forall|i: int| 0 <= i < after.len() ==> #[trigger] before[i].0 == after[i].0,
        forall|i: int| 0 <= i < after.len() ==> #[trigger] after[i].1 > 0 || after[i].2 > 0,
    ensures
        net_report(counters_after(m, before), after).len() == after.len(),
        forall|k: int| 0 <= k < after.len() ==> #[trigger] net_report(counters_after(m, before), after)[k]
            == (
            after[k].0,
            after[k].1,
            after[k].2,
            (if after[k].1 >= before[k].1 { after[k].1 - before[k].1 } else { 0 }) as u64,
            (if after[k].2 >= before[k].2 { after[k].2 - before[k].2 } else { 0 }) as u64,
        ),
{
    assert(distinct_samples(before)) by {
        assert forall|i: int, j: int| 0 <= i < before.len() && 0 <= j < before.len() && i != j
            implies before[i].0 != before[j].0 by {
            assert(before[i].0 == after[i].0);
            assert(before[j].0 == after[j].0);
        }
    }
    lemma_counters_hold_latest(m, before);
    let c = counters_after(m, before);
    assert forall|i: int| 0 <= i < after.len() implies #[trigger] c.contains_key(after[i].0) && c[after[i].0]
        == (before[i].1, before[i].2) by {
        assert(before[i].0 == after[i].0);
        assert(counters_after(m, before).contains_key(before[i].0));
    }
    lemma_growth_between_readings(c, before, after);
}

struct CounterEntry {
    name: String,
    rx: u64,
    tx: u64,
}

spec fn entries_map(s: Seq<CounterEntry>) -> CounterMap
    decreases s.len(),
{
    if s.len() == 0 {
        Map::empty()
    } else {
        entries_map(s.drop_last()).insert(s.last().name@, (s.last().rx, s.last().tx))
    }
}

spec fn distinct_names(s: Seq<CounterEntry>) -> bool {
    forall|i: int, j: int| 0 <= i < s.len() && 0 <= j < s.len() && i != j ==> s[i].name@ != s[j].name@
}

proof fn lemma_entries_map(s: Seq<CounterEntry>)
    requires
        distinct_names(s),
    ensures
        forall|i: int| 0 <= i < s.len() ==> #[trigger] entries_map(s).contains_key(s[i].name@),
        forall|i: int| 0 <= i < s.len() ==> #[trigger] entries_map(s)[s[i].name@] == (s[i].rx, s[i].tx),
        forall|k: Seq<char>| #[trigger] entries_map(s).contains_key(k)
            ==> exists|i: int| 0 <= i < s.len() && s[i].name@ == k,
    decreases s.len(),
{
    if s.len() > 0 {
        let p = s.drop_last();
        let last = s.len() - 1;
        assert(distinct_names(p));
        lemma_entries_map(p);
        assert forall|i: int| 0 <= i < s.len() implies #[trigger] entries_map(s).contains_key(s[i].name@)
            by {
            if i < last {
                assert(p[i] == s[i]);
                assert(entries_map(p).contains_key(p[i].name@));
            }
        }
        assert forall|i: int| 0 <= i < s.len() implies #[trigger] entries_map(s)[s[i].name@] == (
        s[i].rx, s[i].tx) by {
            if i < last {
                assert(p[i] == s[i]);
                assert(entries_map(p)[p[i].name@] == (p[i].rx, p[i].tx));
                assert(s[i].name@ != s[last].name@);
            }
        }
        assert forall|k: Seq<char>| #[trigger] entries_map(s).contains_key(k)
            implies exists|i: int| 0 <= i < s.len() && s[i].name@ == k by {
            if k != s[last].name@ {
                assert(entries_map(p).contains_key(k));
                let i = choose|i: int| 0 <= i < p.len() && p[i].name@ == k;
                assert(p[i] == s[i]);
                assert(s[i].name@ == k);
            } else {
                assert(s[last].name@ == k);
            }
        }
    }
}

/// The last known counters of every interface, as the dashboard keeps
/// them between two readings.
pub struct NetCounters {
    entries: Vec<CounterEntry>,
}

impl View for NetCounters {
    type V = CounterMap;

    closed spec fn view(&self) -> CounterMap {
        entries_map(self.entries@)
    }
}

impl NetCounters {
    #[verifier::type_invariant]
    spec fn names_distinct(self) -> bool {
        distinct_names(self.entries@)
    }

    /// No interface seen yet.
    pub fn new() -> (c: NetCounters)
        ensures
            c@ == CounterMap::empty(),
    {
        NetCounters { entries: Vec::new() }
    }

    /// The last recorded counters of the interface `name`, if any.
    pub fn lookup(&self, name: &String) -> (r: Option<(u64, u64)>)
        ensures
            r == (if self@.contains_key(name@) { Some(self@[name@]) } else { None::<(u64, u64)> }),
    {
        proof {
            use_type_invariant(self);
            lemma_entries_map(self.entries@);
        }
        let n = self.entries.len();
        let mut i: usize = 0;
        while i < n
            invariant
                n == self.entries@.len(),
                i <= n,
                forall|j: int| 0 <= j < i ==> self.entries@[j].name@ != name@,
            decreases n - i,
        {
            if self.entries[i].name == *name {
                proof {
                    use_type_invariant(self);
                    lemma_entries_map(self.entries@);
                    assert(self@.contains_key(self.entries@[i as int].name@));
                    assert(self@[self.entries@[i as int].name@] == (self.entries@[i as int].rx, self.entries@[i as int].tx));
                }
                return Some((self.entries[i].rx, self.entries[i].tx));
            }
            i = i + 1;
        }
        proof {
            use_type_invariant(self);
            lemma_entries_map(self.entries@);
            if self@.contains_key(name@) {
                let j = choose|j: int| 0 <= j < self.entries@.len() && self.entries@[j].name@ == name@;
                assert(self.entries@[j].name@ != name@);
            }
        }
        None
    }

    /// Records the counters of interface `name`, replacing any earlier reading.
    pub fn record(&mut self, name: String, rx: u64, tx: u64)
        ensures
            final(self)@ == old(self)@.insert(name@, (rx, tx)),
    {
        proof {
            use_type_invariant(&*self);
            lemma_entries_map(self.entries@);
        }
        let ghost old_entries = self.entries@;
        let mut entries: Vec<CounterEntry> = Vec::new();
        std::mem::swap(&mut entries, &mut self.entries);
        let n = entries.len();
        let mut i: usize = 0;
        while i < n
            invariant
                n == entries@.len(),
                entries@ == old_entries,
                distinct_names(old_entries),
                old(self)@ == entries_map(old_entries),
                i <= n,
                forall|j: int| 0 <= j < i ==> entries@[j].name@ != name@,
            decreases n - i,
        {
            if entries[i].name == name {
                let ghost upd = old_entries.update(i as int, CounterEntry { name, rx, tx });
                proof {
                    lemma_entries_map(old_entries);
                    assert(distinct_names(upd)) by {
                        assert forall|a: int, b: int|
                            0 <= a < upd.len() && 0 <= b < upd.len() && a != b
                            implies upd[a].name@ != upd[b].name@ by {
                            if a == i as int {
                                assert(old_entries[a].name@ == name@);
                            } else if b == i as int {
                                assert(old_entries[b].name@ == name@);
                            }
                        }
                    }
                    lemma_entries_map(upd);
                    assert(entries_map(upd) =~= entries_map(old_entries).insert(name@, (rx, tx)))
                        by {
                        assert forall|k: Seq<char>| #[trigger] entries_map(upd).contains_key(k)
                            == entries_map(old_entries).insert(name@, (rx, tx)).contains_key(k) by {
                            if entries_map(upd).contains_key(k) {
                                let j = choose|j: int| 0 <= j < upd.len() && upd[j].name@ == k;
                                assert(old_entries[j].name@ == k);
                            }
                            if entries_map(old_entries).contains_key(k) {
                                let j = choose|j: int| 0 <= j < old_entries.len() && old_entries[j].name@ == k;
                                assert(upd[j].name@ == k);
                            }
                            if k == name@ {
                                assert(upd[i as int].name@ == k);
                            }
                        }
                        assert forall|k: Seq<char>| #[trigger] entries_map(upd).contains_key(k)
                            implies entries_map(upd)[k] == entries_map(old_entries).insert(
                            name@, (rx, tx))[k] by {
                            let j = choose|j: int| 0 <= j < upd.len() && upd[j].name@ == k;
                            assert(entries_map(upd)[upd[j].name@] == (upd[j].rx, upd[j].tx));
                            if j != i {
                                assert(old_entries[j] == upd[j]);
                            }
                        }
                    }
                }
                entries.set(i, CounterEntry { name, rx, tx });
                self.entries = entries;
                return;
            }
            i = i + 1;
        }
        let ghost pushed = old_entries.push(CounterEntry { name, rx, tx });
        proof {
            assert(pushed.drop_last() =~= old_entries);
            assert(distinct_names(pushed)) by {
                assert forall|a: int, b: int|
                    0 <= a < pushed.len() && 0 <= b < pushed.len() && a != b
                    implies pushed[a].name@ != pushed[b].name@ by {
                    if a == n as int {
                        assert(old_entries[b].name@ != name@);
                    } else if b == n as int {
                        assert(old_entries[a].name@ != name@);
                    }
                }
            }
        }
        entries.push(CounterEntry { name, rx, tx });
        self.entries = entries;
    }

    /// Takes one reading of all interfaces: for each sample, in order,
    /// reports how far its counters moved since the interface's previous
    /// reading (nothing for an interface seen for the first time, nothing
    /// for a counter that went back) and records the new counters.
    /// Interfaces that never moved any traffic are not reported.
    pub fn observe(&mut self, samples: &Vec<NetSample>) -> (report: Vec<NetDelta>)
        ensures
            final(self)@ == counters_after(old(self)@, sample_views(samples@)),
            delta_views(report@) == net_report(old(self)@, sample_views(samples@)),
            report@.len() == sample_views(samples@).filter(|x: SampleView| x.1 > 0 || x.2 > 0).len(),
            forall|k: int| 0 <= k < report@.len() ==> {
                let x = sample_views(samples@).filter(|x: SampleView| x.1 > 0 || x.2 > 0)[k];
                &&& (#[trigger] report@[k]).name@ == x.0
                &&& report@[k].rx_bytes == x.1
                &&& report@[k].tx_bytes == x.2
            },
    {
        let ghost m0 = self@;
        let ghost sv = sample_views(samples@);
        let mut report: Vec<NetDelta> = Vec::new();
        let n = samples.len();
        let mut i: usize = 0;
        while i < n
            invariant
                n == samples@.len(),
                sv == sample_views(samples@),
                i <= n,
                self@ == counters_after(m0, sv.take(i as int)),
                delta_views(report@) == net_report(m0, sv.take(i as int)),
            decreases n - i,
        {
            let x = &samples[i];
            let rx = x.rx;
            let tx = x.tx;
            let (prev_rx, prev_tx) = match self.lookup(&x.name) {
                Some(p) => p,
                None => (rx, tx),
            };
            let rx_delta = if rx >= prev_rx { rx - prev_rx } else { 0 };
            let tx_delta = if tx >= prev_tx { tx - prev_tx } else { 0 };
            let ghost before = self@;
            self.record(x.name.clone(), rx, tx);
            proof {
                assert(sv.take(i as int + 1).drop_last() =~= sv.take(i as int));
                assert(sv.take(i as int + 1).last() == x@);
            }
            if rx > 0 || tx > 0 {
                let ghost old_report = report@;
                report.push(NetDelta { name: x.name.clone(), rx_bytes: rx, tx_bytes: tx, rx_delta, tx_delta });
                proof {
                    assert(delta_views(report@) =~= delta_views(old_report).push(delta_of(before, x@)));
                }
            }
            i = i + 1;
        }
        proof {
            assert(sv.take(n as int) =~= sv);
            lemma_report_lists_interfaces_with_traffic(m0, sv);
            assert forall|k: int| 0 <= k < report@.len() implies {
                let x = sv.filter(|x: SampleView| x.1 > 0 || x.2 > 0)[k];
                &&& (#[trigger] report@[k]).name@ == x.0
                &&& report@[k].rx_bytes == x.1
                &&& report@[k].tx_bytes == x.2
            } by {
                assert(delta_views(report@)[k] == report@[k]@);
                assert(net_report(m0, sv)[k] == delta_views(report@)[k]);
            }
        }
        report
    }
}

} // verus!
