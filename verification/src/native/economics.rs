//! Public balances, the subsidy rule and payment settlement of a batch.
use vstd::prelude::*;
use crate::content::particle_eq;
use crate::hash::{hemera, hemera_hash};
use crate::{NeuronId, Particle};
use crate::keyed::Keyed;
use super::{invalid, Error, Link, Signal, SignalView, signal_views};

verus! {

/// What a neuron holds in a balance map: its entry, or nothing.
pub open spec fn held_in(m: Map<NeuronId, u64>, n: NeuronId) -> u64 {
    if m.contains_key(n) { m[n] } else { 0 }
}

/// Public balances by neuron; a neuron without an entry holds nothing.
pub type Balances = Keyed<u64>;

/// The balance of `n`, zero where it has none.
pub fn balance_of(balances: &Balances, n: &NeuronId) -> (r: u64)
    ensures
        r == held_in(balances@, *n),
{
    match balances.get(n) {
        Some(v) => v,
        None => 0,
    }
}

/// The bytes of the word `zheng`.
pub open spec fn zheng() -> Seq<u8> {
    seq![122u8, 104, 101, 110, 103]
}

/// The bytes of the word `pussy`.
pub open spec fn pussy() -> Seq<u8> {
    seq![112u8, 117, 115, 115, 121]
}

/// A subsidy link runs from the particle of `zheng` to that of `pussy`.
pub open spec fn is_subsidy(l: Link) -> bool {
    &&& l.from@ == hemera_hash(zheng())
    &&& l.to@ == hemera_hash(pussy())
}

/// The state a batch settles into: balance changes, supply, and whether a
/// payment leg was skipped for insufficient funds.
pub ghost struct Books {
    pub changes: Map<NeuronId, u64>,
    pub supply: u64,
    pub skipped: bool,
}

/// What `n` holds during a batch: its changed balance, else its balance
/// before the batch.
pub open spec fn held(base: Map<NeuronId, u64>, changes: Map<NeuronId, u64>, n: NeuronId) -> u64 {
    if changes.contains_key(n) { changes[n] } else { held_in(base, n) }
}

/// Each subsidy link credits its amount to the signal's neuron and adds it to
/// the supply and the signal's weight; `None` where any of those overflows.
pub open spec fn after_links(base: Map<NeuronId, u64>, neuron: NeuronId, b: Books, w: u64, links: Seq<Link>) -> Option<(Books, u64)>
    decreases links.len(),
{
    if links.len() == 0 {
        Some((b, w))
    } else {
        match after_links(base, neuron, b, w, links.drop_last()) {
            None => None,
            Some((b1, w1)) => {
                let l = links.last();
                if is_subsidy(l) {
                    let nb = held(base, b1.changes, neuron) + l.amount;
                    if nb > u64::MAX || b1.supply + l.amount > u64::MAX || w1 + l.amount > u64::MAX {
                        None
                    } else {
                        Some((
                            Books {
                                changes: b1.changes.insert(neuron, nb as u64),
                                supply: (b1.supply + l.amount) as u64,
                                skipped: b1.skipped,
                            },
                            (w1 + l.amount) as u64,
                        ))
                    }
                } else {
                    Some((b1, w1))
                }
            },
        }
    }
}

/// Each payment leg moves its amount from the signal's neuron to its
/// recipient where the neuron holds enough, and is skipped (and marked)
/// otherwise; `None` where a credit overflows.
pub open spec fn after_payments(base: Map<NeuronId, u64>, neuron: NeuronId, b: Books, pays: Seq<(NeuronId, u64)>) -> Option<Books>
    decreases pays.len(),
{
    if pays.len() == 0 {
        Some(b)
    } else {
        match after_payments(base, neuron, b, pays.drop_last()) {
            None => None,
            Some(b1) => {
                let (to, amount) = pays.last();
                let bal = held(base, b1.changes, neuron);
                if bal >= amount {
                    let ch = b1.changes.insert(neuron, (bal - amount) as u64);
                    let nb = held(base, ch, to) + amount;
                    if nb > u64::MAX {
                        None
                    } else {
                        Some(Books { changes: ch.insert(to, nb as u64), supply: b1.supply, skipped: b1.skipped })
                    }
                } else {
                    Some(Books { changes: b1.changes, supply: b1.supply, skipped: true })
                }
            },
        }
    }
}

/// The books after a batch, with one (supply, weight) observation per event;
/// `None` where an amount overflows.
pub open spec fn after_events(base: Map<NeuronId, u64>, b: Books, events: Seq<Option<SignalView>>) -> Option<(Books, Seq<(u64, u64)>)>
    decreases events.len(),
{
    if events.len() == 0 {
        Some((b, Seq::empty()))
    } else {
        match after_events(base, b, events.drop_last()) {
            None => None,
            Some((b1, obs)) => match events.last() {
                None => Some((b1, obs.push((b1.supply, 0u64)))),
                Some(s) => match after_links(base, s.neuron, b1, 0, s.links) {
                    None => None,
                    Some((b2, w)) => match after_payments(base, s.neuron, b2, s.delta_pi) {
                        None => None,
                        Some(b3) => Some((b3, obs.push((b3.supply, w)))),
                    },
                },
            },
        }
    }
}

/// The books a batch starts from.
pub open spec fn opening(supply: u64) -> Books {
    Books { changes: Map::empty(), supply, skipped: false }
}

/// A batch being settled: balance changes, the supply, one (supply, weight)
/// observation per event, and whether a payment leg was skipped.
pub struct Ledger {
    pub changes: Balances,
    pub supply: u64,
    pub observations: Vec<(u64, u64)>,
    pub skipped_payments: bool,
}

impl Ledger {
    /// The books this ledger holds.
    pub open spec fn books(&self) -> Books {
        Books { changes: self.changes@, supply: self.supply, skipped: self.skipped_payments }
    }

    /// Settle a batch over the balances and supply before it: every subsidy
    /// link mints to its signal's neuron, then each payment leg is paid or
    /// skipped. Fails only where an amount overflows.
    pub fn prepare(balances: &Balances, supply: u64, events: &[Option<Signal>]) -> (r: Result<Ledger, Error>)
        ensures
            match r {
                Ok(l) => after_events(balances@, opening(supply), signal_views(events@)) == Some((l.books(), l.observations@)),
                Err(e) => after_events(balances@, opening(supply), signal_views(events@)) is None && e is Invalid,
            },
    {
        let zheng_bytes: [u8; 5] = [122, 104, 101, 110, 103];
        let pussy_bytes: [u8; 5] = [112, 117, 115, 115, 121];
        proof {
            assert(zheng_bytes@ =~= zheng());
            assert(pussy_bytes@ =~= pussy());
        }
        let from = hemera(&zheng_bytes);
        let to = hemera(&pussy_bytes);
        let mut ledger = Ledger { changes: Keyed::new(), supply, observations: Vec::new(), skipped_payments: false };
        let ghost views = signal_views(events@);
        let mut i: usize = 0;
        while i < events.len()
            invariant
                i <= events@.len(),
                views == signal_views(events@),
                from@ == hemera_hash(zheng()),
                to@ == hemera_hash(pussy()),
                after_events(balances@, opening(supply), views.take(i as int)) == Some((ledger.books(), ledger.observations@)),
            decreases events@.len() - i,
        {
            proof {
                assert(views.take(i + 1).drop_last() =~= views.take(i as int));
            }
            match &events[i] {
                None => {
                    ledger.observations.push((ledger.supply, 0));
                },
                Some(signal) => {
                    proof {
                        assert(views[i as int] == Some(signal@));
                    }
                    let w = match ledger.apply_links(balances, signal, &from, &to) {
                        Ok(w) => w,
                        Err(e) => {
                            proof {
                                lemma_events_fail(balances@, opening(supply), views, i + 1);
                            }
                            return Err(e);
                        },
                    };
                    match ledger.apply_payments(balances, signal) {
                        Ok(()) => {},
                        Err(e) => {
                            proof {
                                lemma_events_fail(balances@, opening(supply), views, i + 1);
                            }
                            return Err(e);
                        },
                    }
                    ledger.observations.push((ledger.supply, w));
                },
            }
            i = i + 1;
        }
        proof {
            assert(views.take(events@.len() as int) =~= views);
        }
        Ok(ledger)
    }

    fn apply_links(&mut self, balances: &Balances, signal: &Signal, from: &Particle, to: &Particle) -> (r: Result<u64, Error>)
        requires
            from@ == hemera_hash(zheng()),
            to@ == hemera_hash(pussy()),
        ensures
            match r {
                Ok(w) => after_links(balances@, signal.neuron, old(self).books(), 0, signal.links@) == Some((final(self).books(), w)),
                Err(e) => after_links(balances@, signal.neuron, old(self).books(), 0, signal.links@) is None && e is Invalid,
            },
            final(self).observations@ == old(self).observations@,
    {
        let ghost b0 = self.books();
        let mut w: u64 = 0;
        let mut j: usize = 0;
        while j < signal.links.len()
            invariant
                j <= signal.links@.len(),
                from@ == hemera_hash(zheng()),
                to@ == hemera_hash(pussy()),
                b0 == old(self).books(),
                after_links(balances@, signal.neuron, b0, 0, signal.links@.take(j as int)) == Some((self.books(), w)),
                self.observations@ == old(self).observations@,
            decreases signal.links@.len() - j,
        {
            let ghost prefix = signal.links@.take(j + 1);
            proof {
                assert(prefix.drop_last() =~= signal.links@.take(j as int));
            }
            let link = &signal.links[j];
            proof {
                assert(prefix.last() == *link);
            }
            if particle_eq(&link.from, from) && particle_eq(&link.to, to) {
                let before = self.balance(balances, &signal.neuron);
                proof {
                    assert(link.from@ =~= from@);
                    assert(link.to@ =~= to@);
                }
                let nb = before.checked_add(link.amount);
                let ns = self.supply.checked_add(link.amount);
                let nw = w.checked_add(link.amount);
                if nb.is_none() || ns.is_none() || nw.is_none() {
                    proof {
                        lemma_links_fail(balances@, signal.neuron, b0, signal.links@, j + 1);
                    }
                    return Err(invalid(if nb.is_none() {
                        "balance overflow"
                    } else if ns.is_none() {
                        "subsidy supply overflow"
                    } else {
                        "subsidy weight overflow"
                    }));
                }
                let nb = nb.unwrap();
                let ns = ns.unwrap();
                let nw = nw.unwrap();
                self.changes.set(signal.neuron, nb);
                self.supply = ns;
                w = nw;
            } else {
                proof {
                    assert(!is_subsidy(*link)) by {
                        if is_subsidy(*link) {
                            assert(link.from@ =~= from@);
                            assert(link.to@ =~= to@);
                        }
                    }
                }
            }
            j = j + 1;
        }
        proof {
            assert(signal.links@.take(signal.links@.len() as int) =~= signal.links@);
        }
        Ok(w)
    }

    fn apply_payments(&mut self, balances: &Balances, signal: &Signal) -> (r: Result<(), Error>)
        ensures
            match r {
                Ok(()) => after_payments(balances@, signal.neuron, old(self).books(), signal.delta_pi@) == Some(final(self).books()),
                Err(e) => after_payments(balances@, signal.neuron, old(self).books(), signal.delta_pi@) is None && e is Invalid,
            },
            final(self).observations@ == old(self).observations@,
    {
        let ghost b0 = self.books();
        let mut j: usize = 0;
        while j < signal.delta_pi.len()
            invariant
                j <= signal.delta_pi@.len(),
                b0 == old(self).books(),
                after_payments(balances@, signal.neuron, b0, signal.delta_pi@.take(j as int)) == Some(self.books()),
                self.observations@ == old(self).observations@,
            decreases signal.delta_pi@.len() - j,
        {
            proof {
                assert(signal.delta_pi@.take(j + 1).drop_last() =~= signal.delta_pi@.take(j as int));
            }
            let (to, amount) = signal.delta_pi[j];
            proof {
                assert(signal.delta_pi@.take(j + 1).last() == (to, amount));
            }
            let bal = self.balance(balances, &signal.neuron);
            if bal >= amount {
                self.changes.set(signal.neuron, bal - amount);
                let before = self.balance(balances, &to);
                match before.checked_add(amount) {
                    Some(v) => self.changes.set(to, v),
                    None => {
                        proof {
                            lemma_payments_fail(balances@, signal.neuron, b0, signal.delta_pi@, j + 1);
                        }
                        return Err(invalid("balance overflow"));
                    },
                }
            } else {
                self.skipped_payments = true;
            }
            j = j + 1;
        }
        proof {
            assert(signal.delta_pi@.take(signal.delta_pi@.len() as int) =~= signal.delta_pi@);
        }
        Ok(())
    }

    /// What `n` holds during the batch.
    pub fn balance(&self, balances: &Balances, n: &NeuronId) -> (r: u64)
        ensures
            r == held(balances@, self.changes@, *n),
    {
        match self.changes.get(n) {
            Some(v) => v,
            None => balance_of(balances, n),
        }
    }
}

/// Once the links of a prefix fail, the whole list fails.
proof fn lemma_links_fail(base: Map<NeuronId, u64>, neuron: NeuronId, b: Books, links: Seq<Link>, j: int)
    requires
        0 <= j <= links.len(),
        after_links(base, neuron, b, 0, links.take(j)) is None,
    ensures
        after_links(base, neuron, b, 0, links) is None,
    decreases links.len() - j,
{
    if j < links.len() {
        assert(links.take(j + 1).drop_last() =~= links.take(j));
        lemma_links_fail(base, neuron, b, links, j + 1);
    } else {
        assert(links.take(j) =~= links);
    }
}

/// Once the payments of a prefix fail, the whole list fails.
proof fn lemma_payments_fail(base: Map<NeuronId, u64>, neuron: NeuronId, b: Books, pays: Seq<(NeuronId, u64)>, j: int)
    requires
        0 <= j <= pays.len(),
        after_payments(base, neuron, b, pays.take(j)) is None,
    ensures
        after_payments(base, neuron, b, pays) is None,
    decreases pays.len() - j,
{
    if j < pays.len() {
        assert(pays.take(j + 1).drop_last() =~= pays.take(j));
        lemma_payments_fail(base, neuron, b, pays, j + 1);
    } else {
        assert(pays.take(j) =~= pays);
    }
}

/// Once a prefix of the batch fails, the whole batch fails.
proof fn lemma_events_fail(base: Map<NeuronId, u64>, b: Books, events: Seq<Option<SignalView>>, j: int)
    requires
        0 <= j <= events.len(),
        after_events(base, b, events.take(j)) is None,
    ensures
        after_events(base, b, events) is None,
    decreases events.len() - j,
{
    if j < events.len() {
        assert(events.take(j + 1).drop_last() =~= events.take(j));
        lemma_events_fail(base, b, events, j + 1);
    } else {
        assert(events.take(j) =~= events);
    }
}

/// The sum of the weights observed.
pub open spec fn weight_sum(obs: Seq<(u64, u64)>) -> int
    decreases obs.len(),
{
    if obs.len() == 0 { 0 } else { weight_sum(obs.drop_last()) + obs.last().1 }
}

/// The total of the subsidy links among `links`.
pub open spec fn subsidy_total(links: Seq<Link>) -> int
    decreases links.len(),
{
    if links.len() == 0 {
        0
    } else {
        subsidy_total(links.drop_last()) + if is_subsidy(links.last()) { links.last().amount as int } else { 0 }
    }
}

/// Ledger: a signal's subsidy links credit its neuron on top of what it
/// held (its balance changed in the batch, else its balance before the
/// batch) with exactly their total, which is also their weight, and leave
/// every other neuron's holding as it was.
pub proof fn law_subsidy_credits_holding(base: Map<NeuronId, u64>, neuron: NeuronId, b: Books, w: u64, links: Seq<Link>, other: NeuronId)
    ensures
        after_links(base, neuron, b, w, links) matches Some((b2, w2)) ==> {
            &&& held(base, b2.changes, neuron) == held(base, b.changes, neuron) + subsidy_total(links)
            &&& w2 == w + subsidy_total(links)
            &&& other != neuron ==> held(base, b2.changes, other) == held(base, b.changes, other)
        },
    decreases links.len(),
{
    if links.len() > 0 {
        law_subsidy_credits_holding(base, neuron, b, w, links.drop_last(), other);
    }
}

/// Ledger: a payment leg the neuron can cover moves its amount from the
/// neuron to the recipient (a payment to itself changes nothing) and
/// leaves every other holding, the supply and the skip mark as they were;
/// a leg it cannot cover changes no holding and marks the batch as having
/// skipped a payment.
pub proof fn law_payment_leg(base: Map<NeuronId, u64>, neuron: NeuronId, b: Books, pays: Seq<(NeuronId, u64)>,
    to: NeuronId, amount: u64, other: NeuronId)
    ensures
        after_payments(base, neuron, b, pays) matches Some(b1) ==> (after_payments(base, neuron, b, pays.push((to, amount))) matches Some(b2) ==> {
            let bal = held(base, b1.changes, neuron);
            &&& b2.supply == b1.supply
            &&& bal >= amount ==> {
                &&& to != neuron ==> held(base, b2.changes, neuron) == bal - amount
                    && held(base, b2.changes, to) == held(base, b1.changes, to) + amount
                &&& to == neuron ==> held(base, b2.changes, neuron) == bal
                &&& other != neuron && other != to ==> held(base, b2.changes, other) == held(base, b1.changes, other)
                &&& b2.skipped == b1.skipped
            }
            &&& bal < amount ==> held(base, b2.changes, other) == held(base, b1.changes, other) && b2.skipped
        }),
{
    assert(pays.push((to, amount)).drop_last() =~= pays);
}

/// Ledger: payment legs move balances but never the supply.
pub proof fn law_payments_keep_supply(base: Map<NeuronId, u64>, neuron: NeuronId, b: Books, pays: Seq<(NeuronId, u64)>)
    ensures
        after_payments(base, neuron, b, pays) matches Some(b2) ==> b2.supply == b.supply,
    decreases pays.len(),
{
    if pays.len() > 0 {
        law_payments_keep_supply(base, neuron, b, pays.drop_last());
    }
}

/// Ledger: what a signal's subsidy links mint is exactly its weight.
pub proof fn law_minted_is_weight(base: Map<NeuronId, u64>, neuron: NeuronId, b: Books, w: u64, links: Seq<Link>)
    ensures
        after_links(base, neuron, b, w, links) matches Some((b2, w2)) ==> b2.supply - b.supply == w2 - w,
    decreases links.len(),
{
    if links.len() > 0 {
        law_minted_is_weight(base, neuron, b, w, links.drop_last());
    }
}

/// Ledger: a settled batch observes every event once, each observation
/// carries the supply after its event, and the supply grows by exactly the
/// batch's total weight.
pub proof fn law_supply_grows_by_weight(base: Map<NeuronId, u64>, b: Books, events: Seq<Option<SignalView>>)
    ensures
        after_events(base, b, events) matches Some((b2, obs)) ==> {
            &&& obs.len() == events.len()
            &&& b2.supply - b.supply == weight_sum(obs)
            &&& obs.len() > 0 ==> obs.last().0 == b2.supply
        },
    decreases events.len(),
{
    if events.len() > 0 {
        law_supply_grows_by_weight(base, b, events.drop_last());
        if let Some((b1, obs1)) = after_events(base, b, events.drop_last()) {
            if let Some(s) = events.last() {
                law_minted_is_weight(base, s.neuron, b1, 0, s.links);
                if let Some((b2, w)) = after_links(base, s.neuron, b1, 0, s.links) {
                    law_payments_keep_supply(base, s.neuron, b2, s.delta_pi);
                }
            }
            if let Some((b3, obs)) = after_events(base, b, events) {
                assert(obs.drop_last() == obs1);
            }
        }
    }
}

} // verus!
