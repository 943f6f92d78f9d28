//! The ordered host list and this process's place in it.
//!
//! Peer ids are 1-based positions in the list; the first host is the
//! leader. The list itself comes from outside (a file read at startup);
//! this module checks it and answers every question the protocol asks
//! of it.

use crate::members::{strictly_sorted, MemberSet};
use crate::{PeerId, Reasons};
use vstd::prelude::*;

verus! {

/// How many entries of `s` equal `x`.
pub open spec fn count_eq(s: Seq<Seq<char>>, x: Seq<char>) -> nat
    decreases s.len(),
{
    if s.len() == 0 {
        0
    } else {
        count_eq(s.skip(1), x) + if s[0] == x {
            1nat
        } else {
            0nat
        }
    }
}

/// `count_eq` counts exactly the matching positions: there is a match
/// iff the count is positive, and a count of one makes the position
/// unique.
pub proof fn lemma_count_eq(s: Seq<Seq<char>>, x: Seq<char>)
    ensures
        (count_eq(s, x) >= 1) <==> (exists|i: int| 0 <= i < s.len() && s[i] == x),
        count_eq(s, x) == 1 ==> (forall|i: int, j: int|
            0 <= i < s.len() && 0 <= j < s.len() && s[i] == x && s[j] == x ==> i == j),
    decreases s.len(),
{
    if s.len() > 0 {
        lemma_count_eq(s.skip(1), x);
        assert(forall|i: int| 1 <= i < s.len() ==> s.skip(1)[i - 1] == s[i]);
        if count_eq(s, x) >= 1 {
            if s[0] == x {
            } else {
                let i = choose|i: int| 0 <= i < s.skip(1).len() && s.skip(1)[i] == x;
                assert(s[i + 1] == x);
            }
        }
        if exists|i: int| 0 <= i < s.len() && s[i] == x {
            let i = choose|i: int| 0 <= i < s.len() && s[i] == x;
            if i > 0 {
                assert(s.skip(1)[i - 1] == x);
            }
        }
        if count_eq(s, x) == 1 {
            assert forall|i: int, j: int|
                0 <= i < s.len() && 0 <= j < s.len() && s[i] == x && s[j] == x implies i == j by {
                if s[0] == x {
                    // no match can hide in the tail
                    assert(count_eq(s.skip(1), x) == 0);
                    if i > 0 {
                        assert(s.skip(1)[i - 1] == x);
                    }
                    if j > 0 {
                        assert(s.skip(1)[j - 1] == x);
                    }
                } else {
                    assert(count_eq(s.skip(1), x) == 1);
                    assert(i > 0 && j > 0);
                    assert(s.skip(1)[i - 1] == x && s.skip(1)[j - 1] == x);
                }
            }
        }
    }
}

/// The non-host entries of `s` from position `i` on, each paired with
/// its 1-based id.
pub open spec fn others_from(s: Seq<Seq<char>>, x: Seq<char>, i: int) -> Seq<(PeerId, Seq<char>)>
    decreases s.len() - i,
    when 0 <= i <= s.len()
{
    if i >= s.len() {
        Seq::<(PeerId, Seq<char>)>::empty()
    } else if s[i] == x {
        others_from(s, x, i + 1)
    } else {
        seq![((i + 1) as PeerId, s[i])] + others_from(s, x, i + 1)
    }
}

/// The ordered host list, together with this process's own hostname.
pub struct PeerList {
    host: String,
    names: Vec<String>,
}

impl PeerList {
    /// This process's hostname, as characters.
    pub closed spec fn host_name(&self) -> Seq<char> {
        self.host@
    }

    /// All hostnames in file order, as characters.
    pub closed spec fn names(&self) -> Seq<Seq<char>> {
        self.names.deep_view()
    }

    /// The invariant: the own hostname stands in the list exactly once.
    pub open spec fn wf(&self) -> bool {
        count_eq(self.names(), self.host_name()) == 1
    }

    /// This process's 1-based position in the list.
    pub open spec fn id_of(&self) -> int {
        (choose|i: int| 0 <= i < self.names().len() && self.names()[i] == self.host_name()) + 1
    }

    /// The ids every host in the list would carry.
    pub open spec fn full_id_set(&self) -> Set<PeerId> {
        Set::new(|p: PeerId| 1 <= p <= self.names().len())
    }

    /// Check a host list against this process's own hostname. The
    /// hostname must appear exactly once, else the process may not run.
    #[verifier::loop_isolation(false)]
    pub fn new(host: String, names: Vec<String>) -> (r: Result<PeerList, Reasons>)
        ensures
            match r {
                Ok(pl) => pl.wf() && pl.host_name() == host@ && pl.names() == names.deep_view(),
                Err(e) => e == Reasons::HostNotInHostsfile && count_eq(names.deep_view(), host@)
                    != 1,
            },
    {
        let ghost s = names.deep_view();
        let n = names.len();
        let mut count: usize = 0;
        let mut i: usize = 0;
        proof {
            assert(s.skip(0) =~= s);
        }
        while i < n
            invariant
                0 <= i <= n,
                count <= i,
                count + count_eq(s.skip(i as int), host@) == count_eq(s, host@),
            decreases n - i,
        {
            proof {
                assert(s.skip(i as int)[0] == s[i as int]);
                assert(s.skip(i as int).skip(1) =~= s.skip(i as int + 1));
            }
            if names[i] == host {
                proof {
                    assert(s[i as int] == host@);
                }
                count += 1;
            } else {
                proof {
                    assert(s[i as int] != host@);
                }
            }
            i += 1;
        }
        proof {
            assert(s.skip(n as int) =~= Seq::<Seq<char>>::empty());
        }
        if count == 1 {
            Ok(PeerList { host, names })
        } else {
            Err(Reasons::HostNotInHostsfile)
        }
    }

    /// The name of this host as it appears in the list.
    pub fn hostname(&self) -> (r: &str)
        ensures
            r@ == self.host_name(),
    {
        self.host.as_str()
    }

    /// Whether this process leads: its name is the first in the list.
    pub fn is_leader(&self) -> (r: bool)
        requires
            self.wf(),
        ensures
            r == (self.names()[0] == self.host_name()),
    {
        proof {
            lemma_count_eq(self.names(), self.host_name());
            assert(self.names().len() >= 1) by {
                assert(exists|i: int|
                    0 <= i < self.names().len() && self.names()[i] == self.host_name());
            }
        }
        self.names[0] == self.host
    }

    /// Retrieve the 1-based id of this process.
    #[verifier::loop_isolation(false)]
    pub fn id(&self) -> (r: PeerId)
        requires
            self.wf(),
        ensures
            r == self.id_of(),
            1 <= r <= self.names().len(),
            self.names()[r - 1] == self.host_name(),
    {
        proof {
            lemma_count_eq(self.names(), self.host_name());
        }
        let n = self.names.len();
        let mut i: usize = 0;
        while i < n
            invariant
                0 <= i <= n,
                forall|j: int| 0 <= j < i ==> self.names()[j] != self.host_name(),
            decreases n - i,
        {
            if self.names[i] == self.host {
                proof {
                    assert(self.names()[i as int] == self.host_name());
                    let k = choose|j: int|
                        0 <= j < self.names().len() && self.names()[j] == self.host_name();
                    assert(self.names()[k] == self.host_name());
                    assert(k == i as int);
                }
                return i + 1;
            }
            i += 1;
        }
        proof {
            assert(exists|j: int|
                0 <= j < self.names().len() && self.names()[j] == self.host_name());
            assert(false);
        }
        1
    }

    /// Every other host, paired with its id, in list order.
    #[verifier::loop_isolation(false)]
    pub fn ids_and_names(&self) -> (r: Vec<(PeerId, String)>)
        ensures
            r.deep_view() == others_from(self.names(), self.host_name(), 0),
    {
        let n = self.names.len();
        let mut out: Vec<(PeerId, String)> = Vec::new();
        let mut i: usize = 0;
        while i < n
            invariant
                0 <= i <= n,
                out.deep_view() + others_from(self.names(), self.host_name(), i as int)
                    == others_from(self.names(), self.host_name(), 0),
            decreases n - i,
        {
            if !(self.names[i] == self.host) {
                let name = self.names[i].clone();
                out.push((i + 1, name));
                proof {
                    assert(out.deep_view() =~= out.deep_view().drop_last().push(
                        ((i + 1) as PeerId, name@),
                    ));
                    assert(out.deep_view().drop_last().push(((i + 1) as PeerId, name@))
                        + others_from(self.names(), self.host_name(), i as int + 1)
                        =~= out.deep_view().drop_last() + others_from(
                        self.names(),
                        self.host_name(),
                        i as int,
                    ));
                }
            }
            i += 1;
        }
        out
    }

    /// Count of peers this process has: the list without the host itself.
    pub fn len(&self) -> (r: usize)
        requires
            self.wf(),
        ensures
            r == self.names().len() - 1,
            self.names().len() <= usize::MAX,
    {
        proof {
            lemma_count_eq(self.names(), self.host_name());
            assert(self.names().len() >= 1) by {
                assert(exists|i: int|
                    0 <= i < self.names().len() && self.names()[i] == self.host_name());
            }
        }
        self.names.len() - 1
    }

    /// Whether the member set holds exactly one id per host in the list.
    #[verifier::loop_isolation(false)]
    pub fn members_match_hosts(&self, current_members: &MemberSet) -> (r: bool)
        requires
            current_members.wf(),
        ensures
            r == (current_members.to_set() == self.full_id_set()),
    {
        let n = self.names.len();
        let ghost ident = Seq::<PeerId>::new(n as nat, |i: int| (i + 1) as PeerId);
        proof {
            assert(strictly_sorted(ident));
            assert(ident.to_set() =~= self.full_id_set()) by {
                assert forall|y: PeerId| self.full_id_set().contains(y) implies ident.to_set()
                    .contains(y) by {
                    assert(ident[y - 1] == y);
                }
            }
            // a strictly sorted sequence is determined by its id set
            if current_members.to_set() == self.full_id_set() {
                assert forall|y: PeerId| current_members@.contains(y) <==> ident.contains(y) by {
                    assert(current_members.to_set().contains(y) == current_members@.contains(y));
                    assert(ident.to_set().contains(y) == ident.contains(y));
                }
                crate::members::lemma_sorted_unique(current_members@, ident);
            }
        }
        let ids = current_members.ids();
        if ids.len() != n {
            return false;
        }
        let mut i: usize = 0;
        while i < n
            invariant
                0 <= i <= n,
                ids@.len() == n,
                forall|j: int| 0 <= j < i ==> ids@[j] == ident[j],
            decreases n - i,
        {
            if ids[i] != i + 1 {
                proof {
                    assert(current_members@[i as int] != ident[i as int]);
                }
                return false;
            }
            i += 1;
        }
        proof {
            assert(current_members@ =~= ident);
            assert(current_members.to_set() =~= self.full_id_set());
        }
        true
    }
}

} // verus!
