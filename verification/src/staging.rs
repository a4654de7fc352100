//! Staging: the name ceremony for one newly accepted chat peer.
//!
//! A fresh peer is prompted for a name, exactly once; the one line it
//! answers with is trimmed and validated. Acceptance and rejection are
//! terminal: there are no retries. The peer is identified by a number the
//! shell derives from its network address.

use vstd::prelude::*;

verus! {

/// ASCII whitespace, the characters trimmed off a candidate name.
pub open spec fn is_ws(b: u8) -> bool {
    b == 32 || b == 9 || b == 10 || b == 13
}

/// ASCII letters and digits, the only characters a name may hold.
pub open spec fn is_alnum(b: u8) -> bool {
    (48 <= b <= 57) || (65 <= b <= 90) || (97 <= b <= 122)
}

/// Leading whitespace removed.
pub open spec fn trim_start(s: Seq<u8>) -> Seq<u8>
    decreases s.len(),
{
    if s.len() > 0 && is_ws(s[0]) {
        trim_start(s.skip(1))
    } else {
        s
    }
}

/// Trailing whitespace removed.
pub open spec fn trim_end(s: Seq<u8>) -> Seq<u8>
    decreases s.len(),
{
    if s.len() > 0 && is_ws(s.last()) {
        trim_end(s.drop_last())
    } else {
        s
    }
}

/// Whitespace removed from both ends.
pub open spec fn trimmed(s: Seq<u8>) -> Seq<u8> {
    trim_end(trim_start(s))
}

/// A valid display name: non-empty, at most 16 characters, all of them
/// ASCII alphanumeric.
pub open spec fn wf_name(s: Seq<u8>) -> bool {
    &&& 1 <= s.len() <= 16
    &&& forall|j: int| 0 <= j < s.len() ==> is_alnum(s[j])
}

/// The one line sent to every fresh peer.
pub open spec fn welcome_prompt() -> Seq<u8> {
    seq![
        87u8, 101u8, 108u8, 99u8, 111u8, 109u8, 101u8, 32u8, 116u8, 111u8, 32u8, 98u8,
        117u8, 100u8, 103u8, 101u8, 116u8, 99u8, 104u8, 97u8, 116u8, 33u8, 32u8, 87u8,
        104u8, 97u8, 116u8, 32u8, 115u8, 104u8, 97u8, 108u8, 108u8, 32u8, 73u8, 32u8,
        99u8, 97u8, 108u8, 108u8, 32u8, 121u8, 111u8, 117u8, 63u8,
    ]
}

/// `trim_start` keeps the suffix from the first non-whitespace byte on.
proof fn lemma_trim_start_at(s: Seq<u8>, a: int)
    requires
        0 <= a <= s.len(),
        forall|j: int| 0 <= j < a ==> is_ws(s[j]),
        a < s.len() ==> !is_ws(s[a]),
    ensures
        trim_start(s) == s.skip(a),
    decreases a,
{
    if a == 0 {
        assert(s.skip(0) =~= s);
    } else {
        lemma_trim_start_at(s.skip(1), a - 1);
        assert(s.skip(1).skip(a - 1) =~= s.skip(a));
    }
}

/// `trim_end` keeps the prefix up to the last non-whitespace byte.
proof fn lemma_trim_end_at(s: Seq<u8>, b: int)
    requires
        0 <= b <= s.len(),
        forall|j: int| b <= j < s.len() ==> is_ws(s[j]),
        b > 0 ==> !is_ws(s[b - 1]),
    ensures
        trim_end(s) == s.take(b),
    decreases s.len(),
{
    if b == s.len() {
        if s.len() > 0 {
            assert(s.take(b) =~= s);
        } else {
            assert(s.take(0) =~= s);
        }
    } else {
        assert(is_ws(s.last()));
        lemma_trim_end_at(s.drop_last(), b);
        assert(s.drop_last().take(b) =~= s.take(b));
    }
}

/// Clean a candidate name: trim whitespace, then demand a well-formed
/// name. `Some` carries the trimmed name; `None` rejects the candidate.
pub fn is_name_valid(name: &Vec<u8>) -> (r: Option<Vec<u8>>)
    ensures
        match r {
            Some(t) => t@ == trimmed(name@) && wf_name(t@),
            None => !wf_name(trimmed(name@)),
        },
{
    let n = name.len();
    let mut a: usize = 0;
    while a < n && (name[a] == 32 || name[a] == 9 || name[a] == 10 || name[a] == 13)
        invariant
            a <= n,
            n == name@.len(),
            forall|j: int| 0 <= j < a ==> is_ws(name@[j]),
        decreases n - a,
    {
        a = a + 1;
    }
    proof {
        lemma_trim_start_at(name@, a as int);
    }
    if a == n {
        proof {
            assert(name@.skip(a as int).len() == 0);
            assert(trimmed(name@).len() == 0);
        }
        return None;
    }
    let mut b: usize = n;
    while b > a + 1 && (name[b - 1] == 32 || name[b - 1] == 9 || name[b - 1] == 10 || name[b - 1]
        == 13)
        invariant
            a < b <= n,
            n == name@.len(),
            forall|j: int| b <= j < n ==> is_ws(name@[j]),
        decreases b,
    {
        b = b - 1;
    }
    if name[b - 1] == 32 || name[b - 1] == 9 || name[b - 1] == 10 || name[b - 1] == 13 {
        proof {
            assert(b == a + 1);
            assert(is_ws(name@[a as int]));
            assert(false);
        }
    }
    proof {
        let st = name@.skip(a as int);
        lemma_trim_end_at(st, b - a);
        assert(forall|j: int|
            b - a <= j < st.len() ==> st[j] == name@[j + a] && is_ws(name@[j + a]));
        assert(trimmed(name@) == st.take(b - a));
        assert(st.take(b - a) =~= name@.subrange(a as int, b as int));
    }
    if b - a > 16 {
        return None;
    }
    let mut t: Vec<u8> = Vec::new();
    let mut k: usize = a;
    while k < b
        invariant
            a <= k <= b <= n,
            a < b,
            b - a <= 16,
            n == name@.len(),
            trimmed(name@) == name@.subrange(a as int, b as int),
            t@ == name@.subrange(a as int, k as int),
            forall|j: int| a <= j < k ==> is_alnum(name@[j]),
        decreases b - k,
    {
        let c = name[k];
        if !((48 <= c && c <= 57) || (65 <= c && c <= 90) || (97 <= c && c <= 122)) {
            proof {
                assert(trimmed(name@)[k - a] == name@[k as int]);
            }
            return None;
        }
        t.push(c);
        assert(name@.subrange(a as int, k + 1) == name@.subrange(a as int, k as int).push(
            name@[k as int],
        ));
        k = k + 1;
    }
    proof {
        assert(t@ == trimmed(name@));
        assert(forall|j: int| 0 <= j < t@.len() ==> t@[j] == name@[j + a] && is_alnum(t@[j]));
    }
    Some(t)
}

/// Where a peer stands in the ceremony.
#[derive(Debug, Clone, PartialEq, Eq)]
pub enum Membership {
    Candidate,
    NameRequested,
    Member(Vec<u8>),
}

impl Default for Membership {
    /// A fresh peer is a candidate.
    fn default() -> (r: Self)
        ensures
            r == Membership::Candidate,
    {
        Membership::Candidate
    }
}

/// Why the ceremony failed. Either way the peer is disconnected without
/// further bytes.
#[derive(Debug, Clone, PartialEq, Eq)]
pub enum ClientInitializationError {
    InvalidName(Vec<u8>),
    ConnectionResetByClient,
}

/// The staging area for one peer: its identifier and how far the ceremony
/// has come.
#[derive(Debug)]
pub struct Staging {
    pub potential_peer_id: u64,
    pub membership: Membership,
}

impl Staging {
    /// Begin the ceremony for one peer.
    pub fn new(potential_peer_id: u64) -> (s: Self)
        ensures
            s.potential_peer_id == potential_peer_id,
            s.membership == Membership::Candidate,
    {
        Staging { potential_peer_id, membership: Membership::Candidate }
    }

    /// The opening move, made before anything is read from the peer: hand
    /// the caller the welcome prompt to send, exactly once.
    pub fn request_name(&mut self) -> (prompt: Vec<u8>)
        requires
            old(self).membership == Membership::Candidate,
        ensures
            final(self).membership == Membership::NameRequested,
            final(self).potential_peer_id == old(self).potential_peer_id,
            prompt@ == welcome_prompt(),
    {
        self.membership = Membership::NameRequested;
        let prompt: Vec<u8> = vec![
            87u8, 101u8, 108u8, 99u8, 111u8, 109u8, 101u8, 32u8, 116u8, 111u8, 32u8, 98u8,
            117u8, 100u8, 103u8, 101u8, 116u8, 99u8, 104u8, 97u8, 116u8, 33u8, 32u8, 87u8,
            104u8, 97u8, 116u8, 32u8, 115u8, 104u8, 97u8, 108u8, 108u8, 32u8, 73u8, 32u8,
            99u8, 97u8, 108u8, 108u8, 32u8, 121u8, 111u8, 117u8, 63u8,
        ];
        assert(prompt@ =~= welcome_prompt());
        prompt
    }

    /// The peer's one answer line. A valid name makes it a member; anything
    /// else rejects it, and no further bytes are owed to it.
    pub fn submit_name(&mut self, line: &Vec<u8>) -> (r: Result<
        Vec<u8>,
        ClientInitializationError,
    >)
        requires
            old(self).membership == Membership::NameRequested,
        ensures
            final(self).potential_peer_id == old(self).potential_peer_id,
            match r {
                Ok(name) => {
                    &&& name@ == trimmed(line@)
                    &&& wf_name(name@)
                    &&& (match final(self).membership {
                        Membership::Member(m) => m@ == trimmed(line@),
                        _ => false,
                    })
                },
                Err(e) => {
                    &&& !wf_name(trimmed(line@))
                    &&& (e matches ClientInitializationError::InvalidName(raw) && raw@ == line@)
                    &&& final(self).membership == Membership::NameRequested
                },
            },
    {
        match is_name_valid(line) {
            Some(name) => {
                let registered = name.clone();
                self.membership = Membership::Member(registered);
                Ok(name)
            },
            None => Err(ClientInitializationError::InvalidName(line.clone())),
        }
    }

    /// Clean a candidate name; see the free function `is_name_valid`.
    pub fn is_name_valid(name: &Vec<u8>) -> (r: Option<Vec<u8>>)
        ensures
            match r {
                Some(t) => t@ == trimmed(name@) && wf_name(t@),
                None => !wf_name(trimmed(name@)),
            },
    {
        is_name_valid(name)
    }
}

} // verus!
