use vstd::prelude::*;

use crate::config::PORTS_PER_WORKER;
use crate::text::{decimal, lemma_parse_decimal, parse_unsigned, push_decimal};

verus! {

/// What one worker owns for itself: a netfilter queue, and a range of source ports that
/// only its test connections use and that only its firewall rule matches.
#[derive(Debug, Clone, Copy, PartialEq, Eq, Structural)]
pub struct WorkerSlot {
    pub qnum: u16,
    pub sport_first: u16,
    pub sport_last: u16,
}

/// Two slots share neither their queue nor any source port.
pub open spec fn slots_apart(a: WorkerSlot, b: WorkerSlot) -> bool {
    &&& a.qnum != b.qnum
    &&& (a.sport_last < b.sport_first || b.sport_last < a.sport_first)
}

/// No two of the slots share a queue or a source port.
pub open spec fn slots_isolated(s: Seq<WorkerSlot>) -> bool {
    forall|i: int, j: int| 0 <= i < s.len() && 0 <= j < s.len() && i != j ==> slots_apart(s[i], s[j])
}

/// Slot `i` takes queue `base_qnum + i` and the `PORTS_PER_WORKER` source ports from
/// `base_local_port + PORTS_PER_WORKER * i` on.
pub open spec fn slots_laid_out(s: Seq<WorkerSlot>, count: int, base_qnum: int, base_local_port: int) -> bool {
    &&& s.len() == count
    &&& forall|i: int|
        0 <= i < count ==> {
            &&& (#[trigger] s[i]).qnum == base_qnum + i
            &&& s[i].sport_first == base_local_port + PORTS_PER_WORKER * i
            &&& s[i].sport_last == base_local_port + PORTS_PER_WORKER * i + PORTS_PER_WORKER - 1
        }
}

/// The slots of a run never overlap, so workers can run side by side without interfering.
pub proof fn lemma_slots_isolated(s: Seq<WorkerSlot>, count: int, base_qnum: int, base_local_port: int)
    requires
        slots_laid_out(s, count, base_qnum, base_local_port),
    ensures
        slots_isolated(s),
{
    assert forall|i: int, j: int| 0 <= i < s.len() && 0 <= j < s.len() && i != j implies slots_apart(
        s[i],
        s[j],
    ) by {
        assert(s[i].qnum == base_qnum + i);
        assert(s[j].qnum == base_qnum + j);
    }
}

impl WorkerSlot {
    /// The slots for `count` workers, one after the other from the base queue and port.
    pub fn create_slots(count: usize, base_qnum: u16, base_local_port: u16) -> (r: Vec<WorkerSlot>)
        requires
            base_qnum + count <= 0x10000,
            base_local_port + PORTS_PER_WORKER * count <= 0x10000,
        ensures
            slots_laid_out(r@, count as int, base_qnum as int, base_local_port as int),
            slots_isolated(r@),
    {
        let mut r: Vec<WorkerSlot> = Vec::new();
        let mut i: usize = 0;
        while i < count
            invariant
                i <= count,
                base_qnum + count <= 0x10000,
                base_local_port + PORTS_PER_WORKER * count <= 0x10000,
                slots_laid_out(r@, i as int, base_qnum as int, base_local_port as int),
            decreases count - i,
        {
            let first = base_local_port + PORTS_PER_WORKER * (i as u16);
            r.push(
                WorkerSlot {
                    qnum: base_qnum + i as u16,
                    sport_first: first,
                    sport_last: first + (PORTS_PER_WORKER - 1),
                },
            );
            i = i + 1;
        }
        proof {
            lemma_slots_isolated(r@, count as int, base_qnum as int, base_local_port as int);
        }
        r
    }

    /// The text of the slot's port range, `first-last`.
    pub open spec fn spec_port_range(self) -> Seq<char> {
        decimal(self.sport_first as nat) + "-"@ + decimal(self.sport_last as nat)
    }

    /// The slot's port range names exactly its own ports: a numeral that reads back as the
    /// first port, a `-`, and one that reads back as the last.
    pub proof fn lemma_port_range_names_its_ports(self)
        ensures
            exists|a: Seq<char>, b: Seq<char>|
                self.spec_port_range() == a + "-"@ + b && parse_unsigned(a, u16::MAX as nat) == Some(
                    self.sport_first as nat,
                ) && parse_unsigned(b, u16::MAX as nat) == Some(self.sport_last as nat),
    {
        lemma_parse_decimal(self.sport_first as nat, u16::MAX as nat);
        lemma_parse_decimal(self.sport_last as nat, u16::MAX as nat);
        let a = decimal(self.sport_first as nat);
        let b = decimal(self.sport_last as nat);
        assert(self.spec_port_range() == a + "-"@ + b);
    }

    /// The slot's source ports as nftables matches them (`tcp sport first-last`).
    pub fn sport_range(&self) -> (r: String)
        ensures
            r@ == self.spec_port_range(),
            exists|a: Seq<char>, b: Seq<char>|
                r@ == a + "-"@ + b && parse_unsigned(a, u16::MAX as nat) == Some(self.sport_first as nat)
                    && parse_unsigned(b, u16::MAX as nat) == Some(self.sport_last as nat),
    {
        proof {
            self.lemma_port_range_names_its_ports();
        }
        let mut r = String::new();
        push_decimal(&mut r, self.sport_first as u64);
        r.append("-");
        push_decimal(&mut r, self.sport_last as u64);
        r
    }

    /// The slot's source ports as curl takes them (`--local-port first-last`).
    pub fn local_port_arg(&self) -> (r: String)
        ensures
            r@ == self.spec_port_range(),
            exists|a: Seq<char>, b: Seq<char>|
                r@ == a + "-"@ + b && parse_unsigned(a, u16::MAX as nat) == Some(self.sport_first as nat)
                    && parse_unsigned(b, u16::MAX as nat) == Some(self.sport_last as nat),
    {
        self.sport_range()
    }
}

} // verus!
