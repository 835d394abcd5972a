//! The account registry: who has ever deposited, in order of first deposit,
//! and what each of them holds.

use vstd::prelude::*;
use crate::identity::Address;

verus! {

/// One depositor's holdings.
#[derive(Debug, PartialEq, Eq)]
pub struct Participant {
    pub id: Address,
    /// Deposited funds, in the asset's smallest unit.
    pub balance: i128,
    /// Lottery tickets.
    pub tickets: i128,
}

/// What a [`Participant`] stands for.
pub struct ParticipantView {
    pub id: Seq<u8>,
    pub balance: int,
    pub tickets: int,
}

impl View for Participant {
    type V = ParticipantView;

    open spec fn view(&self) -> ParticipantView {
        ParticipantView {
            id: self.id@,
            balance: self.balance as int,
            tickets: self.tickets as int,
        }
    }
}

impl Clone for Participant {
    fn clone(&self) -> (copy: Participant)
        ensures
            copy@ == self@,
    {
        Participant { id: self.id.clone(), balance: self.balance, tickets: self.tickets }
    }
}

/// What a list of participants stands for, entry by entry.
pub open spec fn views(entries: Seq<Participant>) -> Seq<ParticipantView> {
    entries.map_values(|p: Participant| p@)
}

/// Measures a participant by balance.
pub open spec fn by_balance() -> spec_fn(ParticipantView) -> int {
    |p: ParticipantView| p.balance
}

/// Measures a participant by tickets.
pub open spec fn by_tickets() -> spec_fn(ParticipantView) -> int {
    |p: ParticipantView| p.tickets
}

/// The sum of `measure` over `ps`.
pub open spec fn sum_by(ps: Seq<ParticipantView>, measure: spec_fn(ParticipantView) -> int) -> int
    decreases ps.len(),
{
    if ps.len() == 0 {
        0
    } else {
        sum_by(ps.drop_last(), measure) + measure(ps.last())
    }
}

/// The sum of all balances.
pub open spec fn balance_sum(ps: Seq<ParticipantView>) -> int {
    sum_by(ps, by_balance())
}

/// The sum of all tickets.
pub open spec fn ticket_sum(ps: Seq<ParticipantView>) -> int {
    sum_by(ps, by_tickets())
}

/// `id` has an entry in `ps`.
pub open spec fn knows(ps: Seq<ParticipantView>, id: Seq<u8>) -> bool {
    exists|i: int| 0 <= i < ps.len() && (#[trigger] ps[i]).id == id
}

/// The position of the entry of `id`, where it has one.
pub open spec fn slot_of(ps: Seq<ParticipantView>, id: Seq<u8>) -> int {
    choose|i: int| 0 <= i < ps.len() && (#[trigger] ps[i]).id == id
}

/// No identity has two entries.
pub open spec fn distinct(ps: Seq<ParticipantView>) -> bool {
    forall|i: int, j: int|
        0 <= i < j < ps.len() ==> (#[trigger] ps[i]).id != (#[trigger] ps[j]).id
}

/// No entry holds a negative balance or a negative number of tickets.
pub open spec fn solvent(ps: Seq<ParticipantView>) -> bool {
    forall|i: int| 0 <= i < ps.len() ==> (#[trigger] ps[i]).balance >= 0 && ps[i].tickets >= 0
}

/// The balance of `id`: zero for an identity that never deposited.
pub open spec fn balance_of(ps: Seq<ParticipantView>, id: Seq<u8>) -> int {
    if knows(ps, id) {
        ps[slot_of(ps, id)].balance
    } else {
        0
    }
}

/// The tickets of `id`: zero for an identity that never deposited.
pub open spec fn tickets_of(ps: Seq<ParticipantView>, id: Seq<u8>) -> int {
    if knows(ps, id) {
        ps[slot_of(ps, id)].tickets
    } else {
        0
    }
}

/// `ps` after `id` gained `amount` and `tickets`: the entry of `id` grows in
/// place, and an identity seen for the first time is appended.
pub open spec fn credited(ps: Seq<ParticipantView>, id: Seq<u8>, amount: int, tickets: int) -> Seq<
    ParticipantView,
> {
    if knows(ps, id) {
        let i = slot_of(ps, id);
        ps.update(
            i,
            ParticipantView { id, balance: ps[i].balance + amount, tickets: ps[i].tickets + tickets },
        )
    } else {
        ps.push(ParticipantView { id, balance: amount, tickets })
    }
}

/// `ps` after `id` gave up `amount` and `tickets`. The entry stays, even at
/// zero; an identity without an entry has nothing to give up.
pub open spec fn debited(ps: Seq<ParticipantView>, id: Seq<u8>, amount: int, tickets: int) -> Seq<
    ParticipantView,
> {
    if knows(ps, id) {
        let i = slot_of(ps, id);
        ps.update(
            i,
            ParticipantView { id, balance: ps[i].balance - amount, tickets: ps[i].tickets - tickets },
        )
    } else {
        ps
    }
}

/// The identities of `ps`, in order of first deposit.
pub open spec fn depositors(ps: Seq<ParticipantView>) -> Seq<Seq<u8>> {
    ps.map_values(|p: ParticipantView| p.id)
}

/// Where no identity has two entries, an entry's position is the slot of its
/// identity.
pub proof fn lemma_slot(ps: Seq<ParticipantView>, i: int)
    requires
        distinct(ps),
        0 <= i < ps.len(),
    ensures
        knows(ps, ps[i].id),
        slot_of(ps, ps[i].id) == i,
{
    let id = ps[i].id;
    let s = slot_of(ps, id);
    assert(0 <= s < ps.len() && ps[s].id == id);
    if s < i {
        assert(ps[s].id != ps[i].id);
    } else if i < s {
        assert(ps[i].id != ps[s].id);
    }
}

/// Appending an entry adds its measure to the sum.
pub proof fn lemma_sum_push(
    ps: Seq<ParticipantView>,
    p: ParticipantView,
    measure: spec_fn(ParticipantView) -> int,
)
    ensures
        sum_by(ps.push(p), measure) == sum_by(ps, measure) + measure(p),
{
    assert(ps.push(p).drop_last() == ps);
}

/// Replacing an entry changes the sum by the difference of the measures.
pub proof fn lemma_sum_update(
    ps: Seq<ParticipantView>,
    i: int,
    p: ParticipantView,
    measure: spec_fn(ParticipantView) -> int,
)
    requires
        0 <= i < ps.len(),
    ensures
        sum_by(ps.update(i, p), measure) == sum_by(ps, measure) - measure(ps[i]) + measure(p),
    decreases ps.len(),
{
    if i == ps.len() - 1 {
        assert(ps.update(i, p).drop_last() == ps.drop_last());
    } else {
        assert(ps.update(i, p).drop_last() == ps.drop_last().update(i, p));
        lemma_sum_update(ps.drop_last(), i, p, measure);
    }
}

/// Where no entry has a negative measure, the sum over the first `k` entries
/// is not negative, grows with `k`, and each entry's measure is at most
/// the whole sum.
pub proof fn lemma_sum_prefix(
    ps: Seq<ParticipantView>,
    k: int,
    measure: spec_fn(ParticipantView) -> int,
)
    requires
        forall|i: int| 0 <= i < ps.len() ==> measure(#[trigger] ps[i]) >= 0,
        0 <= k <= ps.len(),
    ensures
        0 <= sum_by(ps.take(k), measure) <= sum_by(ps, measure),
        k < ps.len() ==> sum_by(ps.take(k + 1), measure) == sum_by(ps.take(k), measure) + measure(
            ps[k],
        ),
        k < ps.len() ==> sum_by(ps.take(k), measure) + measure(ps[k]) <= sum_by(ps, measure),
    decreases ps.len() - k,
{
    if k == ps.len() {
        assert(ps.take(k) == ps);
        lemma_sum_nonnegative(ps, measure);
    } else {
        assert(ps.take(k + 1).drop_last() == ps.take(k));
        assert(ps.take(k + 1).last() == ps[k]);
        lemma_sum_prefix(ps, k + 1, measure);
        assert forall|i: int| 0 <= i < ps.take(k).len() implies measure(
            #[trigger] ps.take(k)[i],
        ) >= 0 by {
            assert(ps.take(k)[i] == ps[i]);
        }
        lemma_sum_nonnegative(ps.take(k), measure);
    }
}

/// Where no entry has a negative measure, neither has the sum.
pub proof fn lemma_sum_nonnegative(
    ps: Seq<ParticipantView>,
    measure: spec_fn(ParticipantView) -> int,
)
    requires
        forall|i: int| 0 <= i < ps.len() ==> measure(#[trigger] ps[i]) >= 0,
    ensures
        0 <= sum_by(ps, measure),
    decreases ps.len(),
{
    if ps.len() > 0 {
        assert forall|i: int| 0 <= i < ps.drop_last().len() implies measure(
            #[trigger] ps.drop_last()[i],
        ) >= 0 by {
            assert(ps.drop_last()[i] == ps[i]);
        }
        lemma_sum_nonnegative(ps.drop_last(), measure);
        assert(measure(ps[ps.len() - 1]) >= 0);
    }
}

/// In a solvent registry neither sum is negative.
pub proof fn lemma_sums_nonnegative(ps: Seq<ParticipantView>)
    requires
        solvent(ps),
    ensures
        0 <= balance_sum(ps),
        0 <= ticket_sum(ps),
{
    assert forall|i: int| 0 <= i < ps.len() implies by_balance()(#[trigger] ps[i]) >= 0 by {}
    assert forall|i: int| 0 <= i < ps.len() implies by_tickets()(#[trigger] ps[i]) >= 0 by {}
    lemma_sum_nonnegative(ps, by_balance());
    lemma_sum_nonnegative(ps, by_tickets());
}

/// In a solvent registry every holding is bounded by the respective sum.
pub proof fn lemma_holdings_bounded(ps: Seq<ParticipantView>, id: Seq<u8>)
    requires
        solvent(ps),
    ensures
        0 <= balance_of(ps, id) <= balance_sum(ps),
        0 <= tickets_of(ps, id) <= ticket_sum(ps),
{
    assert forall|i: int| 0 <= i < ps.len() implies by_balance()(#[trigger] ps[i]) >= 0 by {}
    assert forall|i: int| 0 <= i < ps.len() implies by_tickets()(#[trigger] ps[i]) >= 0 by {}
    if knows(ps, id) {
        let i = slot_of(ps, id);
        lemma_sum_prefix(ps, i, by_balance());
        lemma_sum_prefix(ps, i, by_tickets());
    } else {
        lemma_sum_nonnegative(ps, by_balance());
        lemma_sum_nonnegative(ps, by_tickets());
    }
}

/// What crediting does: the sums grow by what was credited, the credited
/// identity's holdings grow by the same, every other identity keeps its
/// holdings, and the order of first deposit is kept, with a newcomer last.
pub proof fn lemma_credited(ps: Seq<ParticipantView>, id: Seq<u8>, amount: int, tickets: int)
    requires
        distinct(ps),
    ensures
        distinct(credited(ps, id, amount, tickets)),
        balance_sum(credited(ps, id, amount, tickets)) == balance_sum(ps) + amount,
        ticket_sum(credited(ps, id, amount, tickets)) == ticket_sum(ps) + tickets,
        knows(credited(ps, id, amount, tickets), id),
        balance_of(credited(ps, id, amount, tickets), id) == balance_of(ps, id) + amount,
        tickets_of(credited(ps, id, amount, tickets), id) == tickets_of(ps, id) + tickets,
        forall|other: Seq<u8>|
            #![trigger knows(credited(ps, id, amount, tickets), other)]
            #![trigger balance_of(credited(ps, id, amount, tickets), other)]
            #![trigger tickets_of(credited(ps, id, amount, tickets), other)]
            other != id ==> {
                &&& knows(credited(ps, id, amount, tickets), other) == knows(ps, other)
                &&& balance_of(credited(ps, id, amount, tickets), other) == balance_of(ps, other)
                &&& tickets_of(credited(ps, id, amount, tickets), other) == tickets_of(ps, other)
            },
        depositors(credited(ps, id, amount, tickets)) == if knows(ps, id) {
            depositors(ps)
        } else {
            depositors(ps).push(id)
        },
        (solvent(ps) && amount >= 0 && tickets >= 0) ==> solvent(
            credited(ps, id, amount, tickets),
        ),
{
    let after = credited(ps, id, amount, tickets);
    if knows(ps, id) {
        let i = slot_of(ps, id);
        lemma_sum_update(ps, i, after[i], by_balance());
        lemma_sum_update(ps, i, after[i], by_tickets());
        assert(distinct(after)) by {
            assert forall|a: int, b: int| 0 <= a < b < after.len() implies (#[trigger] after[a]).id
                != (#[trigger] after[b]).id by {
                assert(after[a].id == ps[a].id);
                assert(after[b].id == ps[b].id);
            }
        }
        lemma_slot(after, i);
        lemma_same_ids_same_slots(ps, after);
        lemma_others_keep(ps, after, i);
        assert(depositors(after) =~= depositors(ps));
    } else {
        let p = ParticipantView { id, balance: amount, tickets };
        lemma_sum_push(ps, p, by_balance());
        lemma_sum_push(ps, p, by_tickets());
        assert(distinct(after)) by {
            assert forall|a: int, b: int| 0 <= a < b < after.len() implies (#[trigger] after[a]).id
                != (#[trigger] after[b]).id by {
                assert(after[a] == ps[a]);
                if b < ps.len() {
                    assert(after[b] == ps[b]);
                }
            }
        }
        lemma_slot(after, ps.len() as int);
        assert forall|other: Seq<u8>| other != id implies {
            &&& #[trigger] knows(after, other) == knows(ps, other)
            &&& balance_of(after, other) == balance_of(ps, other)
            &&& tickets_of(after, other) == tickets_of(ps, other)
        } by {
            if knows(ps, other) {
                let k = slot_of(ps, other);
                assert(after[k] == ps[k]);
                lemma_slot(after, k);
            } else if knows(after, other) {
                let k = slot_of(after, other);
                assert(after[k] == ps[k]);
            }
        }
        assert(depositors(after) =~= depositors(ps).push(id));
    }
}

/// Two registries that list the same identities in the same order agree on
/// who is known, and on the holdings of everyone whose entry they share.
pub proof fn lemma_same_ids_same_slots(ps: Seq<ParticipantView>, qs: Seq<ParticipantView>)
    requires
        distinct(ps),
        ps.len() == qs.len(),
        forall|i: int| 0 <= i < ps.len() ==> (#[trigger] ps[i]).id == (#[trigger] qs[i]).id,
    ensures
        distinct(qs),
        forall|id: Seq<u8>| #[trigger] knows(qs, id) == knows(ps, id),
        forall|id: Seq<u8>| knows(ps, id) ==> #[trigger] slot_of(qs, id) == slot_of(ps, id),
        forall|id: Seq<u8>|
            #![trigger balance_of(qs, id)]
            #![trigger tickets_of(qs, id)]
            knows(ps, id) && qs[slot_of(ps, id)] == ps[slot_of(ps, id)] ==> {
                &&& balance_of(qs, id) == balance_of(ps, id)
                &&& tickets_of(qs, id) == tickets_of(ps, id)
            },
{
    assert forall|a: int, b: int| 0 <= a < b < qs.len() implies (#[trigger] qs[a]).id != (
    #[trigger] qs[b]).id by {
        assert(ps[a].id == qs[a].id);
        assert(ps[b].id == qs[b].id);
    }
    assert forall|id: Seq<u8>| #[trigger] knows(qs, id) == knows(ps, id) by {
        if knows(ps, id) {
            let k = slot_of(ps, id);
            assert(qs[k].id == ps[k].id);
        }
        if knows(qs, id) {
            let k = slot_of(qs, id);
            assert(ps[k].id == qs[k].id);
        }
    }
    assert forall|id: Seq<u8>| knows(ps, id) implies #[trigger] slot_of(qs, id) == slot_of(
        ps,
        id,
    ) by {
        let k = slot_of(ps, id);
        assert(qs[k].id == ps[k].id);
        lemma_slot(qs, k);
    }
}

/// Where two registries differ in one entry's holdings only, every other
/// identity holds the same in both.
pub proof fn lemma_others_keep(ps: Seq<ParticipantView>, qs: Seq<ParticipantView>, i: int)
    requires
        distinct(ps),
        ps.len() == qs.len(),
        0 <= i < ps.len(),
        qs[i].id == ps[i].id,
        forall|k: int| 0 <= k < ps.len() && k != i ==> #[trigger] qs[k] == ps[k],
    ensures
        forall|other: Seq<u8>|
            #![trigger knows(qs, other)]
            #![trigger balance_of(qs, other)]
            #![trigger tickets_of(qs, other)]
            other != ps[i].id ==> {
                &&& knows(qs, other) == knows(ps, other)
                &&& balance_of(qs, other) == balance_of(ps, other)
                &&& tickets_of(qs, other) == tickets_of(ps, other)
            },
{
    assert forall|k: int| 0 <= k < ps.len() implies (#[trigger] ps[k]).id == (#[trigger] qs[k]).id by {
        if k != i {
            assert(qs[k] == ps[k]);
        }
    }
    lemma_same_ids_same_slots(ps, qs);
    assert forall|other: Seq<u8>| other != ps[i].id implies {
        &&& #[trigger] knows(qs, other) == knows(ps, other)
        &&& balance_of(qs, other) == balance_of(ps, other)
        &&& tickets_of(qs, other) == tickets_of(ps, other)
    } by {
        if knows(ps, other) {
            let k = slot_of(ps, other);
            assert(k != i);
            assert(qs[k] == ps[k]);
            assert(slot_of(qs, other) == k);
        }
    }
}

/// What debiting does to a known identity: the sums shrink by what was
/// debited, the identity's holdings shrink by the same, every other identity
/// keeps its holdings, and the order of first deposit is kept.
pub proof fn lemma_debited(ps: Seq<ParticipantView>, id: Seq<u8>, amount: int, tickets: int)
    requires
        distinct(ps),
        knows(ps, id),
    ensures
        distinct(debited(ps, id, amount, tickets)),
        balance_sum(debited(ps, id, amount, tickets)) == balance_sum(ps) - amount,
        ticket_sum(debited(ps, id, amount, tickets)) == ticket_sum(ps) - tickets,
        knows(debited(ps, id, amount, tickets), id),
        balance_of(debited(ps, id, amount, tickets), id) == balance_of(ps, id) - amount,
        tickets_of(debited(ps, id, amount, tickets), id) == tickets_of(ps, id) - tickets,
        forall|other: Seq<u8>|
            #![trigger knows(debited(ps, id, amount, tickets), other)]
            #![trigger balance_of(debited(ps, id, amount, tickets), other)]
            #![trigger tickets_of(debited(ps, id, amount, tickets), other)]
            other != id ==> {
                &&& knows(debited(ps, id, amount, tickets), other) == knows(ps, other)
                &&& balance_of(debited(ps, id, amount, tickets), other) == balance_of(ps, other)
                &&& tickets_of(debited(ps, id, amount, tickets), other) == tickets_of(ps, other)
            },
        depositors(debited(ps, id, amount, tickets)) == depositors(ps),
        (solvent(ps) && amount <= balance_of(ps, id) && tickets <= tickets_of(ps, id)) ==> solvent(
            debited(ps, id, amount, tickets),
        ),
{
    let after = debited(ps, id, amount, tickets);
    let i = slot_of(ps, id);
    lemma_sum_update(ps, i, after[i], by_balance());
    lemma_sum_update(ps, i, after[i], by_tickets());
    lemma_same_ids_same_slots(ps, after);
    lemma_others_keep(ps, after, i);
    lemma_slot(after, i);
    assert(depositors(after) =~= depositors(ps));
}

/// The account registry: one entry for each identity that ever deposited, in
/// order of first deposit.
#[derive(Debug)]
pub struct Registry {
    entries: Vec<Participant>,
}

impl View for Registry {
    type V = Seq<ParticipantView>;

    closed spec fn view(&self) -> Seq<ParticipantView> {
        views(self.entries@)
    }
}

impl Registry {
    /// No identity has two entries, and no holding is negative.
    pub open spec fn wf(&self) -> bool {
        &&& distinct(self@)
        &&& solvent(self@)
    }

    /// The registry without entries.
    pub fn new() -> (registry: Registry)
        ensures
            registry@ == Seq::<ParticipantView>::empty(),
            registry.wf(),
    {
        let registry = Registry { entries: Vec::new() };
        assert(registry@ == Seq::<ParticipantView>::empty());
        registry
    }

    /// The number of entries.
    pub fn len(&self) -> (count: usize)
        ensures
            count == self@.len(),
    {
        self.entries.len()
    }

    /// The entries, in order of first deposit.
    pub fn entries(&self) -> (entries: &Vec<Participant>)
        ensures
            views(entries@) == self@,
    {
        &self.entries
    }

    /// Looks `id` up by scanning the entries in order.
    pub fn find(&self, id: &Address) -> (slot: Option<usize>)
        requires
            self.wf(),
        ensures
            match slot {
                Some(i) => knows(self@, id@) && i == slot_of(self@, id@),
                None => !knows(self@, id@),
            },
    {
        let mut i: usize = 0;
        while i < self.entries.len()
            invariant
                i <= self.entries.len(),
                forall|k: int| 0 <= k < i ==> (#[trigger] self@[k]).id != id@,
                self.wf(),
            decreases self.entries.len() - i,
        {
            if self.entries[i].id.same(id) {
                proof {
                    assert(self@[i as int].id == id@);
                    lemma_slot(self@, i as int);
                }
                return Some(i);
            }
            i += 1;
        }
        None
    }

    /// The balance of `id`: zero for an identity without an entry.
    pub fn balance_of(&self, id: &Address) -> (balance: i128)
        requires
            self.wf(),
        ensures
            balance == balance_of(self@, id@),
    {
        match self.find(id) {
            Some(i) => self.entries[i].balance,
            None => 0,
        }
    }

    /// The tickets of `id`: zero for an identity without an entry.
    pub fn tickets_of(&self, id: &Address) -> (tickets: i128)
        requires
            self.wf(),
        ensures
            tickets == tickets_of(self@, id@),
    {
        match self.find(id) {
            Some(i) => self.entries[i].tickets,
            None => 0,
        }
    }

    /// Adds `amount` and `tickets` to the holdings of `id`, appending an
    /// entry where `id` has none.
    pub fn credit(&mut self, id: Address, amount: i128, tickets: i128)
        requires
            old(self).wf(),
            0 <= amount,
            0 <= tickets,
            balance_of(old(self)@, id@) + amount <= i128::MAX,
            tickets_of(old(self)@, id@) + tickets <= i128::MAX,
        ensures
            final(self)@ == credited(old(self)@, id@, amount as int, tickets as int),
            final(self).wf(),
    {
        proof {
            lemma_credited(self@, id@, amount as int, tickets as int);
        }
        match self.find(&id) {
            Some(i) => {
                let balance = self.entries[i].balance + amount;
                let held = self.entries[i].tickets + tickets;
                self.entries.set(i, Participant { id, balance, tickets: held });
            },
            None => {
                self.entries.push(Participant { id, balance: amount, tickets });
            },
        }
        assert(self@ == credited(old(self)@, id@, amount as int, tickets as int));
    }

    /// Takes `amount` and `tickets` from the holdings of `id`. The entry
    /// stays, even at zero.
    pub fn debit(&mut self, id: Address, amount: i128, tickets: i128)
        requires
            old(self).wf(),
            0 <= amount <= balance_of(old(self)@, id@),
            0 <= tickets <= tickets_of(old(self)@, id@),
        ensures
            final(self)@ == debited(old(self)@, id@, amount as int, tickets as int),
            final(self).wf(),
    {
        match self.find(&id) {
            Some(i) => {
                proof {
                    lemma_debited(self@, id@, amount as int, tickets as int);
                }
                let balance = self.entries[i].balance - amount;
                let held = self.entries[i].tickets - tickets;
                self.entries.set(i, Participant { id, balance, tickets: held });
                assert(self@ == debited(old(self)@, id@, amount as int, tickets as int));
            },
            None => {},
        }
    }

    /// Takes `entries` as a registry, where no identity has two entries and
    /// no holding is negative.
    pub fn from_entries(entries: Vec<Participant>) -> (registry: Option<Registry>)
        ensures
            match registry {
                Some(r) => r@ == views(entries@) && r.wf(),
                None => !(distinct(views(entries@)) && solvent(views(entries@))),
            },
    {
        let ghost ps = views(entries@);
        let mut j: usize = 0;
        while j < entries.len()
            invariant
                j <= entries.len(),
                ps == views(entries@),
                forall|a: int, b: int| 0 <= a < b < j ==> (#[trigger] ps[a]).id != (#[trigger] ps[b]).id,
                forall|a: int| 0 <= a < j ==> (#[trigger] ps[a]).balance >= 0 && ps[a].tickets >= 0,
            decreases entries.len() - j,
        {
            if entries[j].balance < 0 || entries[j].tickets < 0 {
                assert(!(ps[j as int].balance >= 0 && ps[j as int].tickets >= 0));
                return None;
            }
            let mut i: usize = 0;
            while i < j
                invariant
                    i <= j < entries.len(),
                    ps == views(entries@),
                    forall|a: int| 0 <= a < i ==> (#[trigger] ps[a]).id != ps[j as int].id,
                decreases j - i,
            {
                if entries[i].id.same(&entries[j].id) {
                    assert(ps[i as int].id == ps[j as int].id);
                    return None;
                }
                i += 1;
            }
            j += 1;
        }
        Some(Registry { entries })
    }

    /// The sum of all balances and the sum of all tickets, where both fit in
    /// 128 bits.
    pub fn totals(&self) -> (sums: Option<(i128, i128)>)
        requires
            self.wf(),
        ensures
            match sums {
                Some((balances, tickets)) => balances == balance_sum(self@) && tickets
                    == ticket_sum(self@),
                None => balance_sum(self@) > i128::MAX || ticket_sum(self@) > i128::MAX,
            },
    {
        let ghost ps = self@;
        let mut balances: i128 = 0;
        let mut tickets: i128 = 0;
        let mut i: usize = 0;
        proof {
            assert(ps.take(0).len() == 0);
            assert forall|k: int| 0 <= k < ps.len() implies by_balance()(#[trigger] ps[k]) >= 0 by {}
            assert forall|k: int| 0 <= k < ps.len() implies by_tickets()(#[trigger] ps[k]) >= 0 by {}
        }
        while i < self.entries.len()
            invariant
                i <= self.entries.len(),
                ps == self@,
                self.wf(),
                0 <= balances == sum_by(ps.take(i as int), by_balance()),
                0 <= tickets == sum_by(ps.take(i as int), by_tickets()),
                forall|k: int| 0 <= k < ps.len() ==> by_balance()(#[trigger] ps[k]) >= 0,
                forall|k: int| 0 <= k < ps.len() ==> by_tickets()(#[trigger] ps[k]) >= 0,
            decreases self.entries.len() - i,
        {
            proof {
                lemma_sum_prefix(ps, i as int, by_balance());
                lemma_sum_prefix(ps, i as int, by_tickets());
            }
            let entry: &Participant = &self.entries[i];
            if balances > i128::MAX - entry.balance || tickets > i128::MAX - entry.tickets {
                return None;
            }
            balances = balances + entry.balance;
            tickets = tickets + entry.tickets;
            i += 1;
        }
        assert(ps.take(i as int) == ps);
        Some((balances, tickets))
    }

    /// The sum of all balances, where it fits in 128 bits.
    pub fn balance_total(&self) -> (sum: Option<i128>)
        requires
            self.wf(),
        ensures
            match sum {
                Some(balances) => balances == balance_sum(self@),
                None => balance_sum(self@) > i128::MAX,
            },
    {
        let ghost ps = self@;
        let mut balances: i128 = 0;
        let mut i: usize = 0;
        proof {
            assert(ps.take(0).len() == 0);
            assert forall|k: int| 0 <= k < ps.len() implies by_balance()(#[trigger] ps[k]) >= 0 by {}
        }
        while i < self.entries.len()
            invariant
                i <= self.entries.len(),
                ps == self@,
                self.wf(),
                0 <= balances == sum_by(ps.take(i as int), by_balance()),
                forall|k: int| 0 <= k < ps.len() ==> by_balance()(#[trigger] ps[k]) >= 0,
            decreases self.entries.len() - i,
        {
            proof {
                lemma_sum_prefix(ps, i as int, by_balance());
            }
            let entry: &Participant = &self.entries[i];
            if balances > i128::MAX - entry.balance {
                return None;
            }
            balances = balances + entry.balance;
            i += 1;
        }
        assert(ps.take(i as int) == ps);
        Some(balances)
    }
}

} // verus!
