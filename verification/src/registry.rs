//! The shared connection registry: a mapping from connection identity to the
//! record of its registration. It owns the two registration invariants: at
//! most one record per identity, and no two records with the same nickname.
//!
//! Callers serialize access (one critical section around each operation);
//! within that discipline every operation here is an atomic check-then-act
//! step on the mapping, specified against its `Map` view.

use vstd::prelude::*;

verus! {

/// One live registered client: its transport identity and its nickname.
/// The connection's outbound byte stream is owned by the I/O layer, keyed
/// by the same identity.
pub struct Connection {
    pub identity: u64,
    pub nickname: Vec<u8>,
}

/// Why a registration attempt was rejected.
#[derive(Clone, Copy, PartialEq, Eq, Structural, Debug)]
pub enum RegistrationError {
    /// This identity already holds a registration.
    AlreadyRegistered,
    /// Another identity already holds this nickname.
    NicknameTaken,
}

/// Some live record holds this nickname.
pub open spec fn nickname_taken(m: Map<u64, Seq<u8>>, nickname: Seq<u8>) -> bool {
    exists|id: u64| m.dom().contains(id) && m[id] == nickname
}

/// No two live records hold the same nickname.
pub open spec fn nicknames_unique(m: Map<u64, Seq<u8>>) -> bool {
    forall|a: u64, b: u64|
        m.dom().contains(a) && m.dom().contains(b) && m[a] == m[b] ==> a == b
}

/// The outcome of one registration attempt against registry state `m`:
/// a present identity is rejected before a taken nickname, and a fresh
/// identity with a fresh nickname is accepted.
pub open spec fn register_result(m: Map<u64, Seq<u8>>, identity: u64, nickname: Seq<u8>) -> Result<
    (),
    RegistrationError,
> {
    if m.dom().contains(identity) {
        Err(RegistrationError::AlreadyRegistered)
    } else if nickname_taken(m, nickname) {
        Err(RegistrationError::NicknameTaken)
    } else {
        Ok(())
    }
}

/// The registry state after one registration attempt: the new binding on
/// acceptance, the old state unchanged on rejection.
pub open spec fn register_state(m: Map<u64, Seq<u8>>, identity: u64, nickname: Seq<u8>) -> Map<
    u64,
    Seq<u8>,
> {
    if register_result(m, identity, nickname) is Ok {
        m.insert(identity, nickname)
    } else {
        m
    }
}

/// The mapping a sequence of records denotes, later records inserted last.
pub open spec fn map_of(s: Seq<Connection>) -> Map<u64, Seq<u8>>
    decreases s.len(),
{
    if s.len() == 0 {
        Map::empty()
    } else {
        map_of(s.drop_last()).insert(s.last().identity, s.last().nickname@)
    }
}

/// All identities in the sequence are distinct.
pub open spec fn ids_unique(s: Seq<Connection>) -> bool {
    forall|i: int, j: int|
        0 <= i < j < s.len() ==> s[i].identity != s[j].identity
}

/// All nicknames in the sequence are distinct.
pub open spec fn nicks_unique(s: Seq<Connection>) -> bool {
    forall|i: int, j: int|
        0 <= i < j < s.len() ==> s[i].nickname@ != s[j].nickname@
}

proof fn lemma_map_of_dom(s: Seq<Connection>, identity: u64)
    ensures
        map_of(s).dom().contains(identity) <==> exists|i: int|
            0 <= i < s.len() && s[i].identity == identity,
    decreases s.len(),
{
    if s.len() > 0 {
        lemma_map_of_dom(s.drop_last(), identity);
        if s.last().identity == identity {
            assert(s[s.len() - 1].identity == identity);
        } else if map_of(s).dom().contains(identity) {
            let i = choose|i: int|
                0 <= i < s.drop_last().len() && s.drop_last()[i].identity == identity;
            assert(s[i].identity == identity);
        } else if exists|i: int| 0 <= i < s.len() && s[i].identity == identity {
            let i = choose|i: int| 0 <= i < s.len() && s[i].identity == identity;
            assert(s.drop_last()[i].identity == identity);
        }
    }
}

proof fn lemma_map_of_at(s: Seq<Connection>, i: int)
    requires
        0 <= i < s.len(),
        forall|j: int| i < j < s.len() ==> s[j].identity != s[i].identity,
    ensures
        map_of(s).dom().contains(s[i].identity),
        map_of(s)[s[i].identity] == s[i].nickname@,
    decreases s.len(),
{
    if i == s.len() - 1 {
    } else {
        assert(forall|j: int|
            i < j < s.drop_last().len() ==> s.drop_last()[j].identity != s.drop_last()[i].identity);
        lemma_map_of_at(s.drop_last(), i);
    }
}

proof fn lemma_map_of_nicknames(s: Seq<Connection>, nickname: Seq<u8>)
    requires
        ids_unique(s),
    ensures
        nickname_taken(map_of(s), nickname) <==> exists|i: int|
            0 <= i < s.len() && s[i].nickname@ == nickname,
    decreases s.len(),
{
    if s.len() > 0 {
        let dl = s.drop_last();
        let lid = s.last().identity;
        assert(forall|a: int, b: int|
            0 <= a < b < dl.len() ==> dl[a].identity != dl[b].identity);
        lemma_map_of_nicknames(dl, nickname);
        // the last record's identity is fresh, so the insert shadows nothing
        lemma_map_of_dom(dl, lid);
        assert(forall|k: int| 0 <= k < dl.len() ==> dl[k].identity != lid);
        assert(!map_of(dl).dom().contains(lid));
        if nickname_taken(map_of(s), nickname) {
            let id = choose|id: u64|
                map_of(s).dom().contains(id) && map_of(s)[id] == nickname;
            if id == lid {
                assert(s[s.len() - 1].nickname@ == nickname);
            } else {
                assert(map_of(dl).dom().contains(id) && map_of(dl)[id] == nickname);
                assert(nickname_taken(map_of(dl), nickname));
                let i = choose|i: int| 0 <= i < dl.len() && dl[i].nickname@ == nickname;
                assert(s[i].nickname@ == nickname);
            }
        }
        if exists|i: int| 0 <= i < s.len() && s[i].nickname@ == nickname {
            let i = choose|i: int| 0 <= i < s.len() && s[i].nickname@ == nickname;
            if i == s.len() - 1 {
                assert(map_of(s).dom().contains(lid));
                assert(map_of(s)[lid] == nickname);
                assert(nickname_taken(map_of(s), nickname));
            } else {
                assert(dl[i].nickname@ == nickname);
                assert(nickname_taken(map_of(dl), nickname));
                let id = choose|id: u64|
                    map_of(dl).dom().contains(id) && map_of(dl)[id] == nickname;
                assert(id != lid);
                assert(map_of(s).dom().contains(id) && map_of(s)[id] == nickname);
                assert(nickname_taken(map_of(s), nickname));
            }
        }
    }
}

proof fn lemma_map_of_remove(s: Seq<Connection>, i: int)
    requires
        ids_unique(s),
        0 <= i < s.len(),
    ensures
        map_of(s.remove(i)) == map_of(s).remove(s[i].identity),
    decreases s.len(),
{
    let dl = s.drop_last();
    if i == s.len() - 1 {
        assert(s.remove(i) =~= dl);
        lemma_map_of_dom(dl, s.last().identity);
        assert(map_of(dl).insert(s.last().identity, s.last().nickname@).remove(s.last().identity)
            =~= map_of(dl));
    } else {
        assert(s.remove(i).drop_last() =~= dl.remove(i));
        assert(s.remove(i).last() == s.last());
        lemma_map_of_remove(dl, i);
        assert(map_of(s.remove(i)) == map_of(dl).remove(s[i].identity).insert(
            s.last().identity,
            s.last().nickname@,
        ));
        assert(map_of(dl).remove(s[i].identity).insert(s.last().identity, s.last().nickname@)
            =~= map_of(dl).insert(s.last().identity, s.last().nickname@).remove(s[i].identity));
    }
}

proof fn lemma_map_of_injective(s: Seq<Connection>)
    requires
        ids_unique(s),
        nicks_unique(s),
    ensures
        nicknames_unique(map_of(s)),
{
    assert forall|a: u64, b: u64|
        map_of(s).dom().contains(a) && map_of(s).dom().contains(b) && map_of(s)[a] == map_of(s)[b]
            implies a == b by {
        lemma_map_of_dom(s, a);
        lemma_map_of_dom(s, b);
        let i = choose|i: int| 0 <= i < s.len() && s[i].identity == a;
        let j = choose|j: int| 0 <= j < s.len() && s[j].identity == b;
        assert(forall|k: int| i < k < s.len() ==> s[k].identity != s[i].identity);
        assert(forall|k: int| j < k < s.len() ==> s[k].identity != s[j].identity);
        lemma_map_of_at(s, i);
        lemma_map_of_at(s, j);
    }
}

/// Compares two byte strings for exact (case-sensitive) equality.
pub fn bytes_eq(a: &[u8], b: &[u8]) -> (r: bool)
    ensures
        r == (a@ == b@),
{
    if a.len() != b.len() {
        return false;
    }
    let mut i: usize = 0;
    while i < a.len()
        invariant
            i <= a.len(),
            a@.len() == b@.len(),
            forall|k: int| 0 <= k < i ==> a@[k] == b@[k],
        decreases a.len() - i,
    {
        if a[i] != b[i] {
            return false;
        }
        i += 1;
    }
    proof {
        assert(a@ =~= b@);
    }
    true
}

/// Copies a byte string.
pub fn clone_bytes(v: &[u8]) -> (r: Vec<u8>)
    ensures
        r@ == v@,
{
    let mut r: Vec<u8> = Vec::new();
    let mut i: usize = 0;
    while i < v.len()
        invariant
            i <= v.len(),
            r@ == v@.subrange(0, i as int),
        decreases v.len() - i,
    {
        r.push(v[i]);
        proof {
            assert(r@ =~= v@.subrange(0, i + 1 as int));
        }
        i += 1;
    }
    proof {
        assert(r@ =~= v@);
    }
    r
}

/// The shared mapping from identity to connection record.
///
/// Viewed as a `Map<u64, Seq<u8>>` from identity to nickname. Its invariants:
/// at most one record per identity, and nicknames unique among live records.
pub struct Registry {
    entries: Vec<Connection>,
}

impl View for Registry {
    type V = Map<u64, Seq<u8>>;

    closed spec fn view(&self) -> Map<u64, Seq<u8>> {
        map_of(self.entries@)
    }
}

impl Registry {
    #[verifier::type_invariant]
    spec fn inv(self) -> bool {
        ids_unique(self.entries@) && nicks_unique(self.entries@)
    }

    /// An empty registry: no connection is registered.
    pub fn new() -> (r: Registry)
        ensures
            r@ == Map::<u64, Seq<u8>>::empty(),
    {
        Registry { entries: Vec::new() }
    }

    /// Whether this identity holds a registration.
    fn contains_identity(&self, identity: u64) -> (b: bool)
        ensures
            b == self@.dom().contains(identity),
    {
        proof {
            lemma_map_of_dom(self.entries@, identity);
        }
        let mut i: usize = 0;
        while i < self.entries.len()
            invariant
                i <= self.entries@.len(),
                forall|k: int| 0 <= k < i ==> self.entries@[k].identity != identity,
                self@.dom().contains(identity) <==> exists|k: int|
                    0 <= k < self.entries@.len() && self.entries@[k].identity == identity,
            decreases self.entries@.len() - i,
        {
            if self.entries[i].identity == identity {
                return true;
            }
            i += 1;
        }
        false
    }

    /// Whether any live record holds this nickname.
    fn nickname_in_use(&self, nickname: &[u8]) -> (b: bool)
        ensures
            b == nickname_taken(self@, nickname@),
    {
        proof {
            use_type_invariant(&*self);
            lemma_map_of_nicknames(self.entries@, nickname@);
        }
        let mut i: usize = 0;
        while i < self.entries.len()
            invariant
                i <= self.entries@.len(),
                forall|k: int| 0 <= k < i ==> self.entries@[k].nickname@ != nickname@,
                nickname_taken(self@, nickname@) <==> exists|k: int|
                    0 <= k < self.entries@.len() && self.entries@[k].nickname@ == nickname@,
            decreases self.entries@.len() - i,
        {
            if bytes_eq(self.entries[i].nickname.as_slice(), nickname) {
                return true;
            }
            i += 1;
        }
        false
    }

    /// One atomic registration attempt: reject a present identity, then a
    /// taken nickname; otherwise insert the new record. The state changes
    /// exactly on acceptance, and nicknames stay unique among live records.
    pub fn try_register(&mut self, identity: u64, nickname: Vec<u8>) -> (r: Result<
        (),
        RegistrationError,
    >)
        ensures
            r == register_result(old(self)@, identity, nickname@),
            final(self)@ == register_state(old(self)@, identity, nickname@),
            nicknames_unique(final(self)@),
    {
        proof {
            use_type_invariant(&*self);
        }
        if self.contains_identity(identity) {
            proof {
                lemma_map_of_injective(self.entries@);
            }
            return Err(RegistrationError::AlreadyRegistered);
        }
        if self.nickname_in_use(nickname.as_slice()) {
            proof {
                lemma_map_of_injective(self.entries@);
            }
            return Err(RegistrationError::NicknameTaken);
        }
        proof {
            lemma_map_of_dom(self.entries@, identity);
            lemma_map_of_nicknames(self.entries@, nickname@);
        }
        let mut entries: Vec<Connection> = Vec::new();
        std::mem::swap(&mut entries, &mut self.entries);
        entries.push(Connection { identity, nickname });
        proof {
            assert(entries@.drop_last() =~= old(self).entries@);
        }
        self.entries = entries;
        proof {
            use_type_invariant(&*self);
            lemma_map_of_injective(self.entries@);
        }
        Ok(())
    }

    /// Non-mutating read: the record registered under this identity, if any.
    pub fn lookup(&self, identity: u64) -> (r: Option<Connection>)
        ensures
            match r {
                Some(c) => self@.dom().contains(identity) && c.identity == identity
                    && c.nickname@ == self@[identity],
                None => !self@.dom().contains(identity),
            },
    {
        proof {
            use_type_invariant(&*self);
            lemma_map_of_dom(self.entries@, identity);
        }
        let mut i: usize = 0;
        while i < self.entries.len()
            invariant
                i <= self.entries@.len(),
                ids_unique(self.entries@),
                forall|k: int| 0 <= k < i ==> self.entries@[k].identity != identity,
                self@ == map_of(self.entries@),
                self@.dom().contains(identity) <==> exists|k: int|
                    0 <= k < self.entries@.len() && self.entries@[k].identity == identity,
            decreases self.entries@.len() - i,
        {
            if self.entries[i].identity == identity {
                proof {
                    lemma_map_of_at(self.entries@, i as int);
                }
                let nickname = clone_bytes(self.entries[i].nickname.as_slice());
                return Some(Connection { identity, nickname });
            }
            i += 1;
        }
        None
    }

    /// Removes and returns the record registered under this identity, if any;
    /// afterwards the identity is absent. Used on disconnect.
    pub fn remove(&mut self, identity: u64) -> (r: Option<Connection>)
        ensures
            final(self)@ == old(self)@.remove(identity),
            match r {
                Some(c) => old(self)@.dom().contains(identity) && c.identity == identity
                    && c.nickname@ == old(self)@[identity],
                None => !old(self)@.dom().contains(identity) && final(self)@ == old(self)@,
            },
    {
        proof {
            use_type_invariant(&*self);
            lemma_map_of_dom(self.entries@, identity);
        }
        match self.index_of(identity) {
            Some(i) => {
                proof {
                    lemma_map_of_at(self.entries@, i as int);
                    lemma_map_of_remove(self.entries@, i as int);
                }
                let mut entries: Vec<Connection> = Vec::new();
                std::mem::swap(&mut entries, &mut self.entries);
                let c = entries.remove(i);
                proof {
                    assert(forall|a: int, b: int|
                        0 <= a < b < entries@.len() ==> entries@[a].identity
                            != entries@[b].identity && entries@[a].nickname@
                            != entries@[b].nickname@);
                }
                self.entries = entries;
                Some(c)
            }
            None => {
                proof {
                    assert(old(self)@ =~= old(self)@.remove(identity));
                }
                None
            }
        }
    }

    /// The position of this identity's record among the live entries.
    fn index_of(&self, identity: u64) -> (r: Option<usize>)
        ensures
            match r {
                Some(i) => i < self.entries@.len() && self.entries@[i as int].identity == identity,
                None => forall|k: int|
                    0 <= k < self.entries@.len() ==> self.entries@[k].identity != identity,
            },
    {
        let mut i: usize = 0;
        while i < self.entries.len()
            invariant
                i <= self.entries@.len(),
                forall|k: int| 0 <= k < i ==> self.entries@[k].identity != identity,
            decreases self.entries@.len() - i,
        {
            if self.entries[i].identity == identity {
                return Some(i);
            }
            i += 1;
        }
        None
    }
}

} // verus!
