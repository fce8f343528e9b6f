//! The reports raised inside nested parses, kept so that an outer load
//! can re-raise one unchanged.
//!
//! A nested parse returns its error, whose rendered text an outer level
//! can read but whose detail bag it cannot, so the bag is recorded as it
//! is raised and taken again when the same code comes back. Each nested
//! load gets its own slot, keyed by a ticket the loading action mints,
//! so two parses failing at the same time never read each other's
//! report.

use vstd::prelude::*;

use crate::sorted::SortedMap;
use crate::text::concat;

verus! {

/// The decimal digit `d`.
pub open spec fn digit_char(d: nat) -> char {
    if d == 0 {
        '0'
    } else if d == 1 {
        '1'
    } else if d == 2 {
        '2'
    } else if d == 3 {
        '3'
    } else if d == 4 {
        '4'
    } else if d == 5 {
        '5'
    } else if d == 6 {
        '6'
    } else if d == 7 {
        '7'
    } else if d == 8 {
        '8'
    } else {
        '9'
    }
}

/// `n` in decimal, with no leading zero.
pub open spec fn decimal(n: nat) -> Seq<char>
    decreases n,
{
    if n < 10 {
        seq![digit_char(n)]
    } else {
        decimal(n / 10).push(digit_char(n % 10))
    }
}

proof fn lemma_decimal_len(n: nat)
    ensures
        decimal(n).len() >= 1,
        n >= 10 ==> decimal(n).len() >= 2,
    decreases n,
{
    if n >= 10 {
        lemma_decimal_len(n / 10);
    }
}

/// Two different numbers are written differently in decimal.
pub proof fn law_decimal_injective(a: nat, b: nat)
    requires
        a != b,
    ensures
        decimal(a) != decimal(b),
    decreases a + b,
{
    lemma_decimal_len(a);
    lemma_decimal_len(b);
    if a >= 10 && b >= 10 {
        if a / 10 != b / 10 {
            law_decimal_injective(a / 10, b / 10);
            assert(decimal(a).drop_last() =~= decimal(a / 10));
            assert(decimal(b).drop_last() =~= decimal(b / 10));
        } else {
            assert(a % 10 != b % 10);
            assert(decimal(a).last() == digit_char(a % 10));
            assert(decimal(b).last() == digit_char(b % 10));
        }
    } else if a < 10 && b < 10 {
        assert(decimal(a)[0] == digit_char(a));
        assert(decimal(b)[0] == digit_char(b));
    }
}

/// The digit `d` as text.
fn digit_text(d: u64) -> (r: &'static str)
    requires
        d < 10,
    ensures
        r@ == seq![digit_char(d as nat)],
{
    proof {
        reveal_strlit("0");
        reveal_strlit("1");
        reveal_strlit("2");
        reveal_strlit("3");
        reveal_strlit("4");
        reveal_strlit("5");
        reveal_strlit("6");
        reveal_strlit("7");
        reveal_strlit("8");
        reveal_strlit("9");
    }
    let r = if d == 0 {
        "0"
    } else if d == 1 {
        "1"
    } else if d == 2 {
        "2"
    } else if d == 3 {
        "3"
    } else if d == 4 {
        "4"
    } else if d == 5 {
        "5"
    } else if d == 6 {
        "6"
    } else if d == 7 {
        "7"
    } else if d == 8 {
        "8"
    } else {
        "9"
    };
    assert(r@ =~= seq![digit_char(d as nat)]);
    r
}

/// `n` in decimal.
pub fn decimal_text(n: u64) -> (r: String)
    ensures
        r@ == decimal(n as nat),
    decreases n,
{
    if n < 10 {
        String::from_str(digit_text(n))
    } else {
        let head = decimal_text(n / 10);
        let r = concat(head.as_str(), digit_text(n % 10));
        assert(r@ =~= decimal((n / 10) as nat).push(digit_char((n % 10) as nat)));
        r
    }
}

/// The reports of failed nested loads, one slot per ticket, each a code
/// and its details.
pub struct LastReport<D> {
    slots: SortedMap<(String, D)>,
    next: u64,
}

impl<D> LastReport<D> {
    /// The slots: ticket to the code and details recorded under it.
    pub closed spec fn slots(&self) -> Map<Seq<char>, (Seq<char>, D)> {
        self.slots.as_map().map_values(|slot: (String, D)| (slot.0@, slot.1))
    }

    /// The number the next ticket is minted from.
    pub closed spec fn counter(&self) -> u64 {
        self.next
    }

    /// No reports, and tickets counting from zero.
    pub fn new() -> (r: Self)
        ensures
            r.slots() == Map::<Seq<char>, (Seq<char>, D)>::empty(),
            r.counter() == 0,
    {
        let r = LastReport { slots: SortedMap::new(), next: 0 };
        assert(r.slots() =~= Map::<Seq<char>, (Seq<char>, D)>::empty());
        r
    }

    /// A ticket for one nested load: the counter in decimal. The counter
    /// moves on, wrapping round at the end of its range.
    pub fn ticket(&mut self) -> (t: String)
        ensures
            t@ == decimal(old(self).counter() as nat),
            final(self).counter() == (if old(self).counter() == u64::MAX {
                0
            } else {
                (old(self).counter() + 1) as u64
            }),
            final(self).slots() == old(self).slots(),
    {
        let count = self.next;
        self.next = if count == u64::MAX {
            0
        } else {
            count + 1
        };
        decimal_text(count)
    }

    /// Record `code` and `details` under `ticket`, replacing what was
    /// there.
    pub fn record(&mut self, ticket: &str, code: &str, details: D)
        ensures
            final(self).slots() == old(self).slots().insert(ticket@, (code@, details)),
            final(self).counter() == old(self).counter(),
    {
        let ghost before = self.slots.as_map();
        let slot = (String::from_str(code), details);
        let ghost kept = slot;
        self.slots.insert(String::from_str(ticket), slot);
        assert(self.slots() =~= old(self).slots().insert(ticket@, (code@, details))) by {
            assert(self.slots.as_map() == before.insert(ticket@, kept));
        }
    }

    /// The details left under `ticket`, if they carry `code`. The slot is
    /// freed either way.
    pub fn take(&mut self, ticket: &str, code: &str) -> (r: Option<D>)
        ensures
            final(self).slots() == old(self).slots().remove(ticket@),
            final(self).counter() == old(self).counter(),
            r == (if old(self).slots().contains_key(ticket@) && old(self).slots()[ticket@].0
                == code@ {
                Some(old(self).slots()[ticket@].1)
            } else {
                None::<D>
            }),
    {
        let ghost before = self.slots.as_map();
        let removed = self.slots.remove(ticket);
        assert(self.slots() =~= old(self).slots().remove(ticket@));
        match removed {
            Some(slot) => {
                if crate::text::str_eq(slot.0.as_str(), code) {
                    Some(slot.1)
                } else {
                    None
                }
            },
            None => None,
        }
    }

    /// Drop `ticket`'s slot, so that it cannot outlive the load that
    /// minted it.
    pub fn discard(&mut self, ticket: &str)
        ensures
            final(self).slots() == old(self).slots().remove(ticket@),
            final(self).counter() == old(self).counter(),
    {
        let _ = self.slots.remove(ticket);
        assert(self.slots() =~= old(self).slots().remove(ticket@));
    }
}

/// A report recorded under a ticket is what taking that ticket with the
/// same code gives back, and it is then gone: a second take finds
/// nothing.
pub proof fn law_record_then_take<D>(
    slots: Map<Seq<char>, (Seq<char>, D)>,
    ticket: Seq<char>,
    code: Seq<char>,
    details: D,
)
    ensures
        ({
            let after = slots.insert(ticket, (code, details));
            &&& after.contains_key(ticket)
            &&& after[ticket].0 == code
            &&& after[ticket].1 == details
            &&& !after.remove(ticket).contains_key(ticket)
        }),
{
}

/// Tickets minted from different counts are different, so two loads in
/// flight at once never share a slot.
pub proof fn law_tickets_differ(a: u64, b: u64)
    requires
        a != b,
    ensures
        decimal(a as nat) != decimal(b as nat),
{
    law_decimal_injective(a as nat, b as nat);
}

} // verus!
