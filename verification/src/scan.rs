//! Scan bookkeeping: the shared work source every worker pulls from,
//! the ledger that accounts for every candidate's outcome, progress
//! reporting, and the reading of imported server lists.  The caller
//! provides threads and locking; all counting rules live here.
use crate::iprange::Ipv4Network;
use crate::text::all_digits;
use crate::text::chars_of;
use crate::text::digits_val;
use crate::text::decimal_value_capped;
use crate::text::digits_in_range;
use crate::text::one_char_vec;
use crate::text::split_all;
use crate::text::split_pat;
use crate::text::string_from_chars;
use crate::text::sub_vec;
use vstd::prelude::*;

verus! {

/// The candidates of one address paired with every requested port.
pub open spec fn pairs_of(a: u32, ports: Seq<u16>) -> Seq<(u32, u16)> {
    Seq::new(ports.len(), |i: int| (a, ports[i]))
}

/// The discovery work list: every address of the range crossed with
/// every requested port, address-major, both in their given order.
pub open spec fn product_seq(addrs: Seq<u32>, ports: Seq<u16>) -> Seq<(u32, u16)>
    decreases addrs.len(),
{
    if addrs.len() == 0 {
        seq![]
    } else {
        pairs_of(addrs[0], ports) + product_seq(addrs.skip(1), ports)
    }
}

/// The shared, exhaustible source of candidates.  Pulls deliver the
/// initial items in order, each exactly once.
pub struct WorkSource {
    pub items: Vec<(u32, u16)>,
    pub next: usize,
}

impl WorkSource {
    /// The cursor never passes the end.
    pub open spec fn wf(self) -> bool {
        self.next <= self.items@.len()
    }

    /// Everything the source was created with.
    pub open spec fn initial(self) -> Seq<(u32, u16)> {
        self.items@
    }

    /// The candidates already handed out, in delivery order.
    pub open spec fn delivered(self) -> Seq<(u32, u16)> {
        self.items@.take(self.next as int)
    }

    /// The candidates still waiting.
    pub open spec fn remaining_spec(self) -> Seq<(u32, u16)> {
        self.items@.skip(self.next as int)
    }

    /// A source over a given list, as a re-verification sweep uses.
    pub fn from_items(items: Vec<(u32, u16)>) -> (s: WorkSource)
        ensures
            s.wf(),
            s.initial() == items@,
            s.delivered().len() == 0,
    {
        proof {
            assert(items@.take(0) =~= Seq::<(u32, u16)>::empty());
        }
        WorkSource { items, next: 0 }
    }

    /// A discovery source: the whole range crossed with the ports.
    pub fn from_range(net: &Ipv4Network, ports: &Vec<u16>) -> (s: WorkSource)
        requires
            net.wf(),
            net.size_spec() * ports@.len() <= usize::MAX,
        ensures
            s.wf(),
            s.delivered().len() == 0,
            s.initial() == product_seq(net.iter_seq(), ports@),
    {
        let mut items: Vec<(u32, u16)> = Vec::new();
        let mut it = net.iter();
        proof {
            assert(items@ + product_seq(net.iter_seq(), ports@) =~= product_seq(
                net.iter_seq(),
                ports@,
            ));
            lemma_product_len(net.iter_seq(), ports@);
        }
        loop
            invariant
                it.wf(),
                items@ + product_seq(it.remaining_seq(), ports@) == product_seq(
                    net.iter_seq(),
                    ports@,
                ),
                items@.len() + it.remaining_seq().len() * ports@.len() <= usize::MAX,
            decreases it.remaining_seq().len(),
        {
            proof {
                lemma_product_len(it.remaining_seq(), ports@);
            }
            match it.next() {
                Some(a) => {
                    proof {
                        assert((it.remaining_seq().len() + 1) * ports@.len()
                            == it.remaining_seq().len() * ports@.len() + ports@.len())
                            by (nonlinear_arith);
                    }
                    let mut k: usize = 0;
                    let ghost base = items@;
                    while k < ports.len()
                        invariant
                            k <= ports@.len(),
                            items@ == base + pairs_of(a, ports@).take(k as int),
                            base.len() + ports@.len() <= usize::MAX,
                        decreases ports@.len() - k,
                    {
                        items.push((a, ports[k]));
                        k = k + 1;
                        proof {
                            assert(base + pairs_of(a, ports@).take(k as int) =~= (base + pairs_of(
                                a,
                                ports@,
                            ).take(k - 1)).push((a, ports@[k - 1])));
                        }
                    }
                    proof {
                        assert(pairs_of(a, ports@).take(ports@.len() as int) =~= pairs_of(
                            a,
                            ports@,
                        ));
                    }
                },
                None => {
                    proof {
                        assert(product_seq(it.remaining_seq(), ports@) =~= Seq::<
                            (u32, u16),
                        >::empty());
                        assert(items@ =~= product_seq(net.iter_seq(), ports@));
                        assert(items@.take(0) =~= Seq::<(u32, u16)>::empty());
                    }
                    return WorkSource { items, next: 0 };
                },
            }
        }
    }

    /// Pulls the next candidate; `None` means exhausted.  At most one
    /// caller can ever receive a given candidate.
    pub fn pop(&mut self) -> (r: Option<(u32, u16)>)
        requires
            old(self).wf(),
        ensures
            final(self).wf(),
            final(self).initial() == old(self).initial(),
            match r {
                Some(c) => {
                    &&& old(self).remaining_spec().len() > 0
                    &&& c == old(self).remaining_spec()[0]
                    &&& final(self).delivered() == old(self).delivered().push(c)
                    &&& final(self).remaining_spec() == old(self).remaining_spec().skip(1)
                },
                None => old(self).remaining_spec().len() == 0 && *final(self) == *old(self),
            },
    {
        if self.next < self.items.len() {
            let c = self.items[self.next];
            self.next = self.next + 1;
            proof {
                assert(final(self).delivered() =~= old(self).delivered().push(c));
                assert(final(self).remaining_spec() =~= old(self).remaining_spec().skip(1));
                assert(old(self).remaining_spec()[0] == c);
            }
            Some(c)
        } else {
            proof {
                assert(old(self).remaining_spec().len() == 0);
            }
            None
        }
    }

    /// How many candidates are still waiting.
    pub fn remaining(&self) -> (n: usize)
        requires
            self.wf(),
        ensures
            n == self.remaining_spec().len(),
    {
        self.items.len() - self.next
    }
}

/// The product list is exactly one pair per address and port.
pub proof fn lemma_product_len(addrs: Seq<u32>, ports: Seq<u16>)
    ensures
        product_seq(addrs, ports).len() == addrs.len() * ports.len(),
    decreases addrs.len(),
{
    if addrs.len() == 0 {
    } else {
        lemma_product_len(addrs.skip(1), ports);
        assert(addrs.skip(1).len() * ports.len() + ports.len() == addrs.len() * ports.len())
            by (nonlinear_arith)
            requires
                addrs.len() >= 1,
                addrs.skip(1).len() == addrs.len() - 1,
        ;
    }
}

/// Once the source is exhausted, everything it was created with has
/// been delivered, in order, each candidate exactly once.
pub proof fn lemma_source_exhausted(s: WorkSource)
    requires
        s.wf(),
        s.remaining_spec().len() == 0,
    ensures
        s.delivered() == s.initial(),
{
    assert(s.delivered() =~= s.initial());
}

/// The scan ledger: one shared source and the running account of
/// what became of every pulled candidate.
pub struct Orchestrator {
    pub source: WorkSource,
    pub total: usize,
    pub in_flight: usize,
    pub recorded: usize,
    pub disabled: usize,
}

impl Orchestrator {
    /// Every pulled candidate is in flight or settled; the total is
    /// what the source started with.
    pub open spec fn wf(self) -> bool {
        &&& self.source.wf()
        &&& self.total == self.source.initial().len()
        &&& self.source.delivered().len() == self.in_flight + self.recorded + self.disabled
    }

    /// A ledger over a fresh source.
    pub fn new(source: WorkSource) -> (o: Orchestrator)
        requires
            source.wf(),
            source.delivered().len() == 0,
        ensures
            o.wf(),
            o.source == source,
            o.total == source.initial().len(),
            o.in_flight == 0 && o.recorded == 0 && o.disabled == 0,
    {
        proof {
            assert(source.initial().len() == source.delivered().len()
                + source.remaining_spec().len()) by {
                assert(source.delivered() + source.remaining_spec() =~= source.initial());
            }
        }
        let total = source.remaining();
        Orchestrator { source, total, in_flight: 0, recorded: 0, disabled: 0 }
    }

    /// Hands one candidate to a worker; `None` signals exhaustion.
    pub fn take(&mut self) -> (r: Option<(u32, u16)>)
        requires
            old(self).wf(),
        ensures
            final(self).wf(),
            final(self).total == old(self).total,
            final(self).recorded == old(self).recorded,
            final(self).disabled == old(self).disabled,
            final(self).source.initial() == old(self).source.initial(),
            match r {
                Some(c) => {
                    &&& old(self).source.remaining_spec().len() > 0
                    &&& c == old(self).source.remaining_spec()[0]
                    &&& final(self).source.delivered() == old(self).source.delivered().push(c)
                    &&& final(self).in_flight == old(self).in_flight + 1
                },
                None => {
                    &&& old(self).source.remaining_spec().len() == 0
                    &&& *final(self) == *old(self)
                },
            },
    {
        proof {
            assert(self.source.delivered().len() <= self.source.initial().len()) by {
                assert(self.source.delivered() + self.source.remaining_spec()
                    =~= self.source.initial());
            }
            assert(self.source.initial().len() == self.source.items.len());
        }
        match self.source.pop() {
            Some(c) => {
                self.in_flight = self.in_flight + 1;
                Some(c)
            },
            None => None,
        }
    }

    /// A worker finished a candidate with a record for the sink.
    pub fn report_recorded(&mut self)
        requires
            old(self).wf(),
            old(self).in_flight > 0,
        ensures
            final(self).wf(),
            final(self).total == old(self).total,
            final(self).in_flight == old(self).in_flight - 1,
            final(self).recorded == old(self).recorded + 1,
            final(self).disabled == old(self).disabled,
            final(self).source == old(self).source,
    {
        proof {
            assert(self.source.delivered().len() <= self.source.initial().len()) by {
                assert(self.source.delivered() + self.source.remaining_spec()
                    =~= self.source.initial());
            }
            assert(self.source.initial().len() == self.source.items.len());
        }
        self.in_flight = self.in_flight - 1;
        self.recorded = self.recorded + 1;
    }

    /// A worker finished a candidate with a definitive failure: the
    /// candidate is disabled, never retried and never dropped.
    pub fn report_disabled(&mut self)
        requires
            old(self).wf(),
            old(self).in_flight > 0,
        ensures
            final(self).wf(),
            final(self).total == old(self).total,
            final(self).in_flight == old(self).in_flight - 1,
            final(self).recorded == old(self).recorded,
            final(self).disabled == old(self).disabled + 1,
            final(self).source == old(self).source,
    {
        proof {
            assert(self.source.delivered().len() <= self.source.initial().len()) by {
                assert(self.source.delivered() + self.source.remaining_spec()
                    =~= self.source.initial());
            }
            assert(self.source.initial().len() == self.source.items.len());
        }
        self.in_flight = self.in_flight - 1;
        self.disabled = self.disabled + 1;
    }

    /// Completion percentage against the exact initial total: never
    /// above one hundred, and exactly one hundred precisely when
    /// nothing remains to pull.
    pub fn progress_percent(&self) -> (p: u64)
        requires
            self.wf(),
        ensures
            p <= 100,
            (p == 100) <==> (self.source.remaining_spec().len() == 0),
            self.total > 0 ==> p == (self.total - self.source.remaining_spec().len()) * 100
                / (self.total as int),
            self.total == 0 ==> p == 100,
    {
        proof {
            assert(self.source.delivered() + self.source.remaining_spec()
                =~= self.source.initial());
            assert(self.source.initial().len() == self.source.items.len());
        }
        let remaining = self.source.remaining();
        if self.total == 0 {
            100
        } else {
            let done = (self.total - remaining) as u64;
            let p = ((done as u128) * 100 / (self.total as u128)) as u64;
            proof {
                let t = self.total as int;
                let d = (self.total - remaining) as int;
                assert(d * 100 / t <= 100) by (nonlinear_arith)
                    requires
                        0 < t,
                        0 <= d <= t,
                ;
                if remaining > 0 {
                    assert(d * 100 / t < 100) by (nonlinear_arith)
                        requires
                            0 < t,
                            0 <= d < t,
                    ;
                }
                if remaining == 0 {
                    assert(t * 100 / t == 100) by (nonlinear_arith)
                        requires
                            0 < t,
                    ;
                }
            }
            p
        }
    }
}

/// Every candidate is accounted for: once the source is exhausted
/// and no worker holds one in flight, the recorded and the disabled
/// together are exactly the initial total — nothing was processed
/// twice and nothing was skipped.
pub proof fn lemma_outcomes_complete(o: Orchestrator)
    requires
        o.wf(),
        o.source.remaining_spec().len() == 0,
        o.in_flight == 0,
    ensures
        o.recorded + o.disabled == o.total,
        o.source.delivered() == o.source.initial(),
{
    lemma_source_exhausted(o.source);
}

/// One imported line: `host:port`, the piece before the first colon
/// and a decimal port, with a trailing carriage return ignored; extra
/// colon-pieces are ignored; anything else is no entry.
pub open spec fn import_entry(line: Seq<char>) -> Option<(Seq<char>, u16)> {
    let l = if line.len() > 0 && line[line.len() - 1] == '\r' {
        line.take(line.len() - 1)
    } else {
        line
    };
    let parts = split_pat(l, seq![':']);
    if parts.len() >= 2 && all_digits(parts[1]) && digits_val(parts[1]) <= 65535 {
        Some((parts[0], digits_val(parts[1]) as u16))
    } else {
        None
    }
}

/// The entries of an imported server list, line by line.
pub open spec fn import_entries(lines: Seq<Seq<char>>) -> Seq<(Seq<char>, u16)>
    decreases lines.len(),
{
    if lines.len() == 0 {
        seq![]
    } else {
        match import_entry(lines[0]) {
            Some(e) => seq![e] + import_entries(lines.skip(1)),
            None => import_entries(lines.skip(1)),
        }
    }
}

/// The server list a text file holds.
pub open spec fn import_list(content: Seq<char>) -> Seq<(Seq<char>, u16)> {
    import_entries(split_pat(content, seq!['\n']))
}

/// Reads an imported server list: one `host:port` per line; lines
/// that do not fit are skipped, never an error.
pub fn parse_server_list(content: &str) -> (r: Vec<(String, u16)>)
    ensures
        r@.len() == import_list(content@).len(),
        forall|i: int|
            0 <= i < r@.len() ==> (#[trigger] r@[i]).0@ == import_list(content@)[i].0 && r@[i].1
                == import_list(content@)[i].1,
{
    let v = chars_of(content);
    let nl = one_char_vec('\n');
    let colon = one_char_vec(':');
    let lines = split_all(&v, &nl);
    let mut out: Vec<(String, u16)> = Vec::new();
    let mut i: usize = 0;
    let ghost entries = import_list(content@);
    proof {
        assert(lines@.map_values(|l: Vec<char>| l@).skip(0) =~= split_pat(content@, seq!['\n']));
    }
    while i < lines.len()
        invariant
            i <= lines@.len(),
            colon@ == seq![':'],
            lines@.map_values(|l: Vec<char>| l@) == split_pat(content@, seq!['\n']),
            entries == import_list(content@),
            import_entries_match(out@, entries, lines@.map_values(|l: Vec<char>| l@), i as int),
        decreases lines@.len() - i,
    {
        let ghost ls = lines@.map_values(|l: Vec<char>| l@).skip(i as int);
        proof {
            assert(ls[0] == lines@[i as int]@);
            assert(ls.skip(1) =~= lines@.map_values(|l: Vec<char>| l@).skip(i + 1));
        }
        let line = &lines[i];
        let trimmed = if line.len() > 0 && line[line.len() - 1] == '\r' {
            sub_vec(line, 0, line.len() - 1)
        } else {
            sub_vec(line, 0, line.len())
        };
        proof {
            assert(line@.subrange(0, line@.len() as int) =~= line@);
        }
        let parts = split_all(&trimmed, &colon);
        let ghost e = import_entry(ls[0]);
        proof {
            assert(forall|k: int|
                0 <= k < parts@.len() ==> #[trigger] parts@[k]@
                    == split_pat(trimmed@, seq![':'])[k]);
        }
        if parts.len() >= 2 && digits_in_range(&parts[1], 0, parts[1].len()) {
            proof {
                assert(parts@[1]@.subrange(0, parts@[1]@.len() as int) =~= parts@[1]@);
            }
            match decimal_value_capped(&parts[1], 0, parts[1].len(), 65535) {
                Some(port) => {
                    let host = string_from_chars(&parts[0]);
                    let ghost old_out = out@;
                    out.push((host, port as u16));
                    proof {
                        assert(e == Some((parts@[0]@, port as u16)));
                        assert(import_entries(ls) == seq![e->Some_0] + import_entries(ls.skip(1)));
                        assert(entry_views(out@) =~= entry_views(old_out).push(
                            (parts@[0]@, port as u16),
                        ));
                        assert(entries =~= entry_views(out@) + import_entries(ls.skip(1)));
                    }
                },
                None => {
                    proof {
                        assert(e is None);
                        assert(import_entries(ls) == import_entries(ls.skip(1)));
                    }
                },
            }
        } else {
            proof {
                assert(e is None);
                assert(import_entries(ls) == import_entries(ls.skip(1)));
            }
        }
        i = i + 1;
    }
    proof {
        assert(lines@.map_values(|l: Vec<char>| l@).skip(lines@.len() as int) =~= Seq::<
            Seq<char>,
        >::empty());
    }
    out
}

/// The produced entries so far match the spec entries of the first
/// `i` lines, with the rest still to come.
pub open spec fn import_entries_match(
    out: Seq<(String, u16)>,
    entries: Seq<(Seq<char>, u16)>,
    lines: Seq<Seq<char>>,
    i: int,
) -> bool {
    &&& 0 <= i <= lines.len()
    &&& entries == entry_views(out) + import_entries(lines.skip(i))
}

/// The views of produced entries.
pub open spec fn entry_views(out: Seq<(String, u16)>) -> Seq<(Seq<char>, u16)> {
    out.map_values(|e: (String, u16)| (e.0@, e.1))
}

} // verus!
